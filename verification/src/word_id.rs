use vstd::prelude::*;

verus! {

/// Largest word index that fits into the lower 28 bits of a word id.
pub const MAX_WORD: u32 = 0x0fff_ffff;

/// Largest dictionary index; 15 is kept free for the invalid id.
pub const MAX_DIC: u8 = 14;

/// Raw value of the id that marks "no word".
pub const INVALID_RAW: u32 = 0xffff_ffff;

/// Identifier of a word: a dictionary index in the upper 4 bits and a
/// word index in the lower 28 bits.
#[derive(Clone, Copy, PartialEq, Eq, Structural, Debug)]
pub struct WordId {
    pub raw: u32,
}

/// Raw value of the id of word `word` in dictionary `dic`.
pub open spec fn spec_word_id_raw(dic: int, word: int) -> int {
    dic * 0x1000_0000 + word
}

impl WordId {
    /// The id that marks a missing word.
    pub fn invalid() -> (res: WordId)
        ensures
            res.raw == INVALID_RAW,
    {
        WordId { raw: INVALID_RAW }
    }

    /// Builds an id from its raw 32-bit value.
    pub fn from_raw(raw: u32) -> (res: WordId)
        ensures
            res.raw == raw,
    {
        WordId { raw }
    }

    /// Builds the id of word `word` in dictionary `dic`.
    pub fn new(dic: u8, word: u32) -> (res: WordId)
        requires
            dic <= MAX_DIC,
            word <= MAX_WORD,
        ensures
            res.raw == spec_word_id_raw(dic as int, word as int),
            res.dic() == dic,
            res.word() == word,
    {
        WordId { raw: (dic as u32) * 0x1000_0000u32 + word }
    }

    /// Builds the id of word `word` in dictionary `dic`, or `None` when
    /// either part is out of range.
    pub fn checked(dic: u8, word: u32) -> (res: Option<WordId>)
        ensures
            (dic <= MAX_DIC && word <= MAX_WORD) <==> res.is_some(),
            res matches Some(w) ==> w.raw == spec_word_id_raw(dic as int, word as int),
    {
        if dic > MAX_DIC || word > MAX_WORD {
            None
        } else {
            Some(WordId::new(dic, word))
        }
    }

    pub open spec fn dic(self) -> int {
        self.raw as int / 0x1000_0000
    }

    pub open spec fn word(self) -> int {
        self.raw as int % 0x1000_0000
    }

    /// Dictionary part of the id.
    pub fn dic_index(&self) -> (res: u8)
        ensures
            res == self.dic(),
    {
        (self.raw / 0x1000_0000u32) as u8
    }

    /// Word part of the id.
    pub fn word_index(&self) -> (res: u32)
        ensures
            res == self.word(),
    {
        self.raw % 0x1000_0000u32
    }

    /// The raw 32-bit value written into a dictionary.
    pub fn as_raw(&self) -> (res: u32)
        ensures
            res == self.raw,
    {
        self.raw
    }
}

} // verus!
