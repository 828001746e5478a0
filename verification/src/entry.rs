use vstd::prelude::*;

use crate::error::{DicWriteResult, ReasonModel};
use crate::parse::Mode;
use crate::primitives::{
    lemma_run_steps_next, lemma_run_steps_stop, le_i16, le_u16, le_u32, push_i16,
    push_u16, push_u32, run_steps, spec_write_empty_if_equal, spec_write_len, spec_write_string,
    spec_write_u32_array, u32_values, write_u32_array, ToU32, Utf16Writer, MAX_U32_ARRAY_LEN,
    emitted,
};
use crate::word_id::WordId;

verus! {

/// One part of a word split: a reference to a word of a dictionary, or a
/// word given inline that must be resolved to a reference before the
/// dictionary is written.
#[derive(PartialEq, Eq, Debug)]
pub enum SplitUnit {
    Ref(WordId),
    Inline { surface: String, pos: u16, reading: Option<String> },
}

/// The mathematical value of a [`SplitUnit`].
pub enum SplitModel {
    Ref(WordId),
    Inline { surface: Seq<char>, pos: u16, reading: Option<Seq<char>> },
}

pub open spec fn opt_view(o: Option<String>) -> Option<Seq<char>> {
    match o {
        Some(s) => Some(s@),
        None => None,
    }
}

impl View for SplitUnit {
    type V = SplitModel;

    open spec fn view(&self) -> SplitModel {
        match self {
            SplitUnit::Ref(w) => SplitModel::Ref(*w),
            SplitUnit::Inline { surface, pos, reading } => SplitModel::Inline {
                surface: surface@,
                pos: *pos,
                reading: opt_view(*reading),
            },
        }
    }
}

/// The raw id that a resolved split unit is written as.
pub open spec fn split_raw(u: SplitModel) -> u32 {
    match u {
        SplitModel::Ref(w) => w.raw,
        SplitModel::Inline { .. } => 0,
    }
}

impl ToU32 for SplitUnit {
    open spec fn has_u32(&self) -> bool {
        self is Ref
    }

    open spec fn u32_value(&self) -> u32 {
        split_raw(self@)
    }

    fn to_u32(&self) -> (res: u32) {
        match self {
            SplitUnit::Ref(w) => w.as_raw(),
            SplitUnit::Inline { .. } => 0,
        }
    }
}

pub open spec fn splits_view(v: Seq<SplitUnit>) -> Seq<SplitModel> {
    v.map_values(|u: SplitUnit| u@)
}

/// Whether every split unit is a reference.
pub open spec fn all_refs(v: Seq<SplitModel>) -> bool {
    forall|i: int| 0 <= i < v.len() ==> #[trigger] v[i] is Ref
}

/// Whether some split unit is given inline.
pub open spec fn has_inline(v: Seq<SplitModel>) -> bool {
    exists|i: int| 0 <= i < v.len() && #[trigger] v[i] is Inline
}

/// An entry of a lexicon as read from its CSV source. Headword, normalized
/// form and reading are kept only when they differ from the field they
/// default to.
#[derive(Debug)]
pub struct RawLexiconEntry {
    pub left_id: i16,
    pub right_id: i16,
    pub cost: i16,
    pub surface: String,
    pub headword: Option<String>,
    pub dic_form: WordId,
    pub norm_form: Option<String>,
    pub pos: u16,
    pub splits_a: Vec<SplitUnit>,
    pub splits_b: Vec<SplitUnit>,
    pub reading: Option<String>,
    pub splitting: Mode,
    pub word_structure: Vec<WordId>,
    pub synonym_groups: Vec<u32>,
}

/// The mathematical value of a [`RawLexiconEntry`].
pub struct EntryModel {
    pub left_id: i16,
    pub right_id: i16,
    pub cost: i16,
    pub surface: Seq<char>,
    pub headword: Option<Seq<char>>,
    pub dic_form: WordId,
    pub norm_form: Option<Seq<char>>,
    pub pos: u16,
    pub splits_a: Seq<SplitModel>,
    pub splits_b: Seq<SplitModel>,
    pub reading: Option<Seq<char>>,
    pub splitting: Mode,
    pub word_structure: Seq<WordId>,
    pub synonym_groups: Seq<u32>,
}

impl View for RawLexiconEntry {
    type V = EntryModel;

    open spec fn view(&self) -> EntryModel {
        EntryModel {
            left_id: self.left_id,
            right_id: self.right_id,
            cost: self.cost,
            surface: self.surface@,
            headword: opt_view(self.headword),
            dic_form: self.dic_form,
            norm_form: opt_view(self.norm_form),
            pos: self.pos,
            splits_a: splits_view(self.splits_a@),
            splits_b: splits_view(self.splits_b@),
            reading: opt_view(self.reading),
            splitting: self.splitting,
            word_structure: self.word_structure@,
            synonym_groups: self.synonym_groups@,
        }
    }
}

/// The headword: the one kept, else the surface.
pub open spec fn model_headword(e: EntryModel) -> Seq<char> {
    match e.headword {
        Some(h) => h,
        None => e.surface,
    }
}

/// The normalized form: the one kept, else the headword.
pub open spec fn model_norm_form(e: EntryModel) -> Seq<char> {
    match e.norm_form {
        Some(n) => n,
        None => model_headword(e),
    }
}

/// The reading: the one kept, else the headword.
pub open spec fn model_reading(e: EntryModel) -> Seq<char> {
    match e.reading {
        Some(r) => r,
        None => model_headword(e),
    }
}

/// Number of UTF-8 bytes of a string (what `str::len` gives).
pub open spec fn utf8_len(s: Seq<char>) -> usize {
    vstd::utf8::encode_utf8(s).len() as usize
}

/// The pieces that the word information of an entry is written as, in
/// order: headword, surface length (in UTF-8 bytes), part of speech,
/// normalized form and reading (empty when equal to the headword),
/// dictionary form, the two splits, the word structure and the synonym
/// groups.
pub open spec fn word_info_steps(e: EntryModel) -> Seq<Result<Seq<u8>, ReasonModel>> {
    let hw = model_headword(e);
    seq![
        spec_write_string(hw),
        spec_write_len(utf8_len(e.surface) as nat),
        Ok(le_u16(e.pos as int)),
        spec_write_empty_if_equal(model_norm_form(e), hw),
        Ok(le_u32(e.dic_form.raw)),
        spec_write_empty_if_equal(model_reading(e), hw),
        spec_write_u32_array(e.splits_a.map_values(|u: SplitModel| split_raw(u))),
        spec_write_u32_array(e.splits_b.map_values(|u: SplitModel| split_raw(u))),
        spec_write_u32_array(e.word_structure.map_values(|w: WordId| w.raw)),
        spec_write_u32_array(e.synonym_groups),
    ]
}

/// Whether every split that writing the word information reaches is made
/// of references only (an inline unit there cannot be written).
pub open spec fn splits_written_resolved(e: EntryModel) -> bool {
    let steps = word_info_steps(e);
    &&& (run_steps(steps.take(6)).1 is None && e.splits_a.len() <= MAX_U32_ARRAY_LEN) ==> all_refs(e.splits_a)
    &&& (run_steps(steps.take(7)).1 is None && e.splits_b.len() <= MAX_U32_ARRAY_LEN) ==> all_refs(e.splits_b)
}

impl RawLexiconEntry {
    /// The surface form.
    pub fn surface(&self) -> (res: &str)
        ensures
            res@ == self@.surface,
    {
        self.surface.as_str()
    }

    /// The headword: the surface when none is kept.
    pub fn headword(&self) -> (res: &str)
        ensures
            res@ == model_headword(self@),
    {
        match &self.headword {
            Some(h) => h.as_str(),
            None => self.surface(),
        }
    }

    /// The normalized form: the headword when none is kept.
    pub fn norm_form(&self) -> (res: &str)
        ensures
            res@ == model_norm_form(self@),
    {
        match &self.norm_form {
            Some(n) => n.as_str(),
            None => self.headword(),
        }
    }

    /// The reading: the headword when none is kept.
    pub fn reading(&self) -> (res: &str)
        ensures
            res@ == model_reading(self@),
    {
        match &self.reading {
            Some(r) => r.as_str(),
            None => self.headword(),
        }
    }

    /// Whether the entry goes into the index of surfaces: exactly when its
    /// left id is not negative.
    pub fn should_index(&self) -> (res: bool)
        ensures
            res == (self.left_id >= 0),
    {
        self.left_id >= 0
    }

    /// Writes the connection parameters: left id, right id and cost, each
    /// as two little-endian bytes.
    pub fn write_params(&self, w: &mut Vec<u8>) -> (res: DicWriteResult<usize>)
        ensures
            final(w)@ == old(w)@ + le_i16(self.left_id) + le_i16(self.right_id) + le_i16(self.cost),
            res == Ok::<usize, crate::error::DicWriteReason>(6),
    {
        push_i16(w, self.left_id);
        push_i16(w, self.right_id);
        push_i16(w, self.cost);
        Ok(6)
    }

    /// Writes piece `k` of the word information, as `word_info_steps`
    /// lists it.
    #[verifier::spinoff_prover]
    fn write_step(&self, k: usize, u16w: &mut Utf16Writer, w: &mut Vec<u8>) -> (res: DicWriteResult<usize>)
        requires
            k < 10,
            k == 6 && self@.splits_a.len() <= MAX_U32_ARRAY_LEN ==> all_refs(self@.splits_a),
            k == 7 && self@.splits_b.len() <= MAX_U32_ARRAY_LEN ==> all_refs(self@.splits_b),
        ensures
            emitted(old(w)@, final(w)@, res, word_info_steps(self@)[k as int]),
    {
        let ghost steps = word_info_steps(self@);
        if k == 0 {
            u16w.write(w, self.headword())
        } else if k == 1 {
            u16w.write_len(w, self.surface.as_str().len())
        } else if k == 2 {
            push_u16(w, self.pos);
            Ok(2)
        } else if k == 3 {
            u16w.write_empty_if_equal(w, self.norm_form(), self.headword())
        } else if k == 4 {
            push_u32(w, self.dic_form.as_raw());
            Ok(4)
        } else if k == 5 {
            u16w.write_empty_if_equal(w, self.reading(), self.headword())
        } else if k == 6 {
            proof {
                assert(u32_values(self.splits_a@) =~= self@.splits_a.map_values(|u: SplitModel| split_raw(u)));
                if self.splits_a@.len() <= MAX_U32_ARRAY_LEN {
                    assert forall|i: int| 0 <= i < self.splits_a@.len() implies #[trigger] self.splits_a@[i].has_u32() by {
                        assert(self@.splits_a[i] is Ref);
                    }
                }
            }
            write_u32_array(w, &self.splits_a)
        } else if k == 7 {
            proof {
                assert(u32_values(self.splits_b@) =~= self@.splits_b.map_values(|u: SplitModel| split_raw(u)));
                if self.splits_b@.len() <= MAX_U32_ARRAY_LEN {
                    assert forall|i: int| 0 <= i < self.splits_b@.len() implies #[trigger] self.splits_b@[i].has_u32() by {
                        assert(self@.splits_b[i] is Ref);
                    }
                }
            }
            write_u32_array(w, &self.splits_b)
        } else if k == 8 {
            proof {
                assert(u32_values(self.word_structure@) =~= self@.word_structure.map_values(|x: WordId| x.raw));
            }
            write_u32_array(w, &self.word_structure)
        } else {
            proof {
                assert(u32_values(self.synonym_groups@) =~= self@.synonym_groups);
            }
            write_u32_array(w, &self.synonym_groups)
        }
    }

    /// Writes the word information of the entry, as `word_info_steps`
    /// lists it, stopping at the first piece that cannot be written; the
    /// result is the number of bytes written.
    pub fn write_word_info(&self, u16w: &mut Utf16Writer, w: &mut Vec<u8>) -> (res: DicWriteResult<usize>)
        requires
            splits_written_resolved(self@),
        ensures
            final(w)@ == old(w)@ + run_steps(word_info_steps(self@)).0,
            match run_steps(word_info_steps(self@)).1 {
                None => res == Ok::<usize, crate::error::DicWriteReason>(run_steps(word_info_steps(self@)).0.len() as usize),
                Some((_, r)) => res matches Err(e) && e@ == r,
            },
    {
        let ghost steps = word_info_steps(self@);
        let ghost w0 = w@;
        let mut size: usize = 0;
        let mut k: usize = 0;
        proof {
            assert(steps.take(0) =~= Seq::<Result<Seq<u8>, ReasonModel>>::empty());
            assert(w0 =~= w0 + run_steps(steps.take(0)).0);
        }
        while k < 10
            invariant
                k <= 10,
                steps == word_info_steps(self@),
                splits_written_resolved(self@),
                run_steps(steps.take(k as int)).1 is None,
                w@ == w0 + run_steps(steps.take(k as int)).0,
                w0 == old(w)@,
                size == run_steps(steps.take(k as int)).0.len(),
                w@.len() == w.len(),
            decreases 10 - k,
        {
            let r = self.write_step(k, u16w, w);
            proof {
                lemma_run_steps_next(steps, k as int);
            }
            match r {
                Ok(n) => {
                    proof {
                        assert(w@.len() == w.len());
                    }
                    size = size + n;
                },
                Err(e) => {
                    proof {
                        lemma_run_steps_stop(steps, k + 1);
                    }
                    return Err(e);
                },
            }
            proof {
                assert(w@ =~= w0 + run_steps(steps.take(k + 1)).0);
            }
            k = k + 1;
        }
        proof {
            assert(steps.take(10) =~= steps);
        }
        Ok(size)
    }

    /// Whether writing the word information reaches only splits made of
    /// references: each split whose turn comes, after the pieces before it
    /// were written and when its length can be written, holds no inline
    /// unit.
    pub fn writes_resolved_splits(&self) -> (res: bool)
        ensures
            res == splits_written_resolved(self@),
    {
        let ghost steps = word_info_steps(self@);
        let mut scratch: Vec<u8> = Vec::new();
        let mut u16w = Utf16Writer::new();
        let mut k: usize = 0;
        proof {
            assert(steps.take(0) =~= Seq::<Result<Seq<u8>, ReasonModel>>::empty());
        }
        while k < 6
            invariant
                k <= 6,
                steps == word_info_steps(self@),
                run_steps(steps.take(k as int)).1 is None,
            decreases 6 - k,
        {
            let r = self.write_step(k, &mut u16w, &mut scratch);
            proof {
                lemma_run_steps_next(steps, k as int);
            }
            if r.is_err() {
                proof {
                    lemma_run_steps_stop(steps.take(7), k + 1);
                    lemma_run_steps_stop(steps.take(6), k + 1);
                    assert(steps.take(7).take(k + 1) =~= steps.take(k + 1));
                    assert(steps.take(6).take(k + 1) =~= steps.take(k + 1));
                }
                return true;
            }
            k = k + 1;
        }
        if self.splits_a.len() <= MAX_U32_ARRAY_LEN && !all_refs_exec(&self.splits_a) {
            return false;
        }
        let r = self.write_step(6, &mut u16w, &mut scratch);
        proof {
            lemma_run_steps_next(steps, 6);
        }
        if r.is_err() {
            return true;
        }
        !(self.splits_b.len() <= MAX_U32_ARRAY_LEN && !all_refs_exec(&self.splits_b))
    }
}

/// Whether every unit of `v` is a reference.
fn all_refs_exec(v: &Vec<SplitUnit>) -> (res: bool)
    ensures
        res == all_refs(splits_view(v@)),
{
    let mut i: usize = 0;
    while i < v.len()
        invariant
            i <= v@.len(),
            forall|j: int| 0 <= j < i ==> #[trigger] splits_view(v@)[j] is Ref,
        decreases v@.len() - i,
    {
        match &v[i] {
            SplitUnit::Ref(_) => {},
            SplitUnit::Inline { .. } => {
                proof {
                    assert(!(splits_view(v@)[i as int] is Ref));
                }
                return false;
            },
        }
        i = i + 1;
    }
    true
}

} // verus!
