use vstd::prelude::*;

use crate::error::{result_view, string_result_view, DicWriteReason, DicWriteResult, ReasonModel};
use crate::numbers::{all_digits, is_hex_char, is_hex_digit, is_radix_digit, parse_radix, radix_value};
use crate::text::{chars_views, copy_range, is_single, split_all, split_chars, string_from_chars};
use crate::word_id::{spec_word_id_raw, WordId, INVALID_RAW, MAX_WORD};

verus! {

/// Largest number of items in a list field.
pub const MAX_ARRAY_LEN: usize = 127;

/// Looks a code point up as a character (`char::from_u32`): a character
/// exactly when `v` is a Unicode scalar value, and then the one with that
/// code.
#[verifier::external_body]
pub fn char_from_u32(v: u32) -> (res: Option<char>)
    ensures
        res is Some <==> is_scalar_value(v as int),
        res matches Some(c) ==> c as u32 == v,
{
    char::from_u32(v)
}

/// A Unicode scalar value: a code point that is not a surrogate.
pub open spec fn is_scalar_value(v: int) -> bool {
    0 <= v <= 0x10FFFF && !(0xD800 <= v <= 0xDFFF)
}

// ---------------------------------------------------------------- integers

/// The digits of a decimal literal, without its leading sign.
pub open spec fn unsigned_digits(s: Seq<char>, signed: bool) -> Seq<char> {
    if s.len() > 0 && (s[0] == '+' || (signed && s[0] == '-')) {
        s.drop_first()
    } else {
        s
    }
}

pub open spec fn is_negative_literal(s: Seq<char>) -> bool {
    s.len() > 0 && s[0] == '-'
}

/// What parsing `s` as an `i16` gives: an optional sign, then one or more
/// ASCII digits whose value fits.
pub open spec fn spec_parse_i16(s: Seq<char>) -> Result<i16, ReasonModel> {
    let d = unsigned_digits(s, true);
    let neg = is_negative_literal(s);
    let bound: int = if neg { 32768 } else { 32767 };
    if d.len() > 0 && all_digits(d, 10) && radix_value(d, 10) <= bound {
        Ok((if neg { -radix_value(d, 10) } else { radix_value(d, 10) }) as i16)
    } else {
        Err(ReasonModel::InvalidI16Literal(s))
    }
}

/// The value of a `u32` literal (an optional `+`, then ASCII digits), if it
/// is one.
pub open spec fn u32_literal(s: Seq<char>) -> Option<u32> {
    let d = unsigned_digits(s, false);
    if d.len() > 0 && all_digits(d, 10) && radix_value(d, 10) <= u32::MAX {
        Some(radix_value(d, 10) as u32)
    } else {
        None
    }
}

/// What parsing `s` as a `u32` gives.
pub open spec fn spec_parse_u32(s: Seq<char>) -> Result<u32, ReasonModel> {
    match u32_literal(s) {
        Some(v) => Ok(v),
        None => Err(ReasonModel::InvalidU32Literal(s)),
    }
}

/// Index where the digits of a literal start, past an accepted sign.
fn digits_start(s: &Vec<char>, signed: bool) -> (res: usize)
    ensures
        s@.subrange(res as int, s@.len() as int) == unsigned_digits(s@, signed),
        res <= s@.len(),
{
    if s.len() > 0 && (s[0] == '+' || (signed && s[0] == '-')) {
        proof {
            assert(s@.subrange(1, s@.len() as int) =~= s@.drop_first());
        }
        1
    } else {
        proof {
            assert(s@.subrange(0, s@.len() as int) =~= s@);
        }
        0
    }
}

/// Parses a decimal `i16`.
pub fn parse_i16(s: &Vec<char>) -> (res: DicWriteResult<i16>)
    ensures
        result_view(res) == spec_parse_i16(s@),
{
    let start = digits_start(s, true);
    let neg = s.len() > 0 && s[0] == '-';
    let bound: u64 = if neg { 32768 } else { 32767 };
    if start < s.len() {
        match parse_radix(s, start, s.len(), 10, bound) {
            Some(v) => {
                let r: i16 = if neg { (0 - (v as i32)) as i16 } else { v as i16 };
                return Ok(r);
            },
            None => {},
        }
    }
    Err(DicWriteReason::InvalidI16Literal(string_from_chars(s)))
}

/// Parses a decimal `u32`.
pub fn parse_u32(s: &Vec<char>) -> (res: DicWriteResult<u32>)
    ensures
        result_view(res) == spec_parse_u32(s@),
{
    let start = digits_start(s, false);
    if start < s.len() {
        match parse_radix(s, start, s.len(), 10, 0xffff_ffff) {
            Some(v) => {
                return Ok(v as u32);
            },
            None => {},
        }
    }
    Err(DicWriteReason::InvalidU32Literal(string_from_chars(s)))
}

// ---------------------------------------------------------------- escapes

/// First index at or after `start` that is not a hexadecimal digit.
pub open spec fn hex_run_end(s: Seq<char>, start: int) -> int
    decreases s.len() - start,
{
    if start < 0 || start >= s.len() {
        s.len() as int
    } else if is_hex_digit(s[start]) {
        hex_run_end(s, start + 1)
    } else {
        start
    }
}

pub proof fn lemma_hex_run_end(s: Seq<char>, start: int)
    requires
        0 <= start <= s.len(),
    ensures
        start <= hex_run_end(s, start) <= s.len(),
        all_digits(s.subrange(start, hex_run_end(s, start)), 16),
        hex_run_end(s, start) < s.len() ==> !is_hex_digit(s[hex_run_end(s, start)]),
    decreases s.len() - start,
{
    if start < s.len() && is_hex_digit(s[start]) {
        lemma_hex_run_end(s, start + 1);
        let e = hex_run_end(s, start);
        assert forall|j: int| 0 <= j < s.subrange(start, e).len() implies #[trigger] is_radix_digit(s.subrange(start, e)[j], 16) by {
            if j > 0 {
                assert(s.subrange(start, e)[j] == s.subrange(start + 1, e)[j - 1]);
            }
        }
    }
}

/// The escape that starts at `i`, if any: `\uXXXX` with four hexadecimal
/// digits, or `\u{...}` with one or more. Gives where the digits start and
/// end, and where the escape ends.
pub open spec fn escape_at(s: Seq<char>, i: int) -> Option<(int, int, int)> {
    if 0 <= i && i + 1 < s.len() && s[i] == '\\' && s[i + 1] == 'u' {
        if i + 6 <= s.len() && all_digits(s.subrange(i + 2, i + 6), 16) {
            Some((i + 2, i + 6, i + 6))
        } else if i + 2 < s.len() && s[i + 2] == '{' {
            let e = hex_run_end(s, i + 3);
            if e > i + 3 && e < s.len() && s[e] == '}' {
                Some((i + 3, e, e + 1))
            } else {
                None
            }
        } else {
            None
        }
    } else {
        None
    }
}

/// `prefix` put in front of a successful result.
pub open spec fn prepend(prefix: Seq<char>, r: Result<Seq<char>, ReasonModel>) -> Result<Seq<char>, ReasonModel> {
    match r {
        Ok(t) => Ok(prefix + t),
        Err(e) => Err(e),
    }
}

/// `s[i..]` with its escapes replaced by the characters they name, or the
/// digits of the first escape that names no character.
pub open spec fn unescape_from(s: Seq<char>, i: int) -> Result<Seq<char>, ReasonModel>
    decreases s.len() - i,
{
    if i < 0 || i >= s.len() {
        Ok(Seq::empty())
    } else {
        match escape_at(s, i) {
            Some((a, b, end)) => {
                let v = radix_value(s.subrange(a, b), 16);
                if is_scalar_value(v) {
                    prepend(seq![v as char], unescape_from(s, end))
                } else {
                    Err(ReasonModel::InvalidCharLiteral(s.subrange(a, b)))
                }
            },
            None => prepend(seq![s[i]], unescape_from(s, i + 1)),
        }
    }
}

/// `s` with its escapes `\uXXXX` and `\u{...}` replaced by the characters
/// they name.
pub open spec fn spec_unescape(s: Seq<char>) -> Result<Seq<char>, ReasonModel> {
    unescape_from(s, 0)
}

proof fn lemma_char_of_code(c: char, v: int)
    requires
        c as u32 == v,
    ensures
        v as char == c,
{
}

pub proof fn lemma_prepend_prepend(a: Seq<char>, b: Seq<char>, r: Result<Seq<char>, ReasonModel>)
    ensures
        prepend(a, prepend(b, r)) == prepend(a + b, r),
{
    if let Ok(t) = r {
        assert(a + (b + t) =~= (a + b) + t);
    }
}

/// The escape that starts at `i`, as `escape_at` describes it.
fn escape_at_exec(s: &Vec<char>, i: usize) -> (res: Option<(usize, usize, usize)>)
    requires
        i < s@.len(),
    ensures
        match res {
            Some((a, b, e)) => escape_at(s@, i as int) == Some((a as int, b as int, e as int)),
            None => escape_at(s@, i as int) is None,
        },
{
    let n = s.len();
    if !(i + 1 < n && s[i] == '\\' && s[i + 1] == 'u') {
        return None;
    }
    if n - i >= 6 {
        let mut ok = true;
        let mut j = i + 2;
        while j < i + 6
            invariant
                i + 6 <= n == s@.len(),
                i + 2 <= j <= i + 6,
                ok == all_digits(s@.subrange(i + 2, j as int), 16),
            decreases i + 6 - j,
        {
            let h = is_hex_char(s[j]);
            proof {
                if ok && h {
                    assert forall|k: int| 0 <= k < s@.subrange(i + 2, j + 1).len() implies #[trigger] is_radix_digit(s@.subrange(i + 2, j + 1)[k], 16) by {
                        if k < j - (i + 2) {
                            assert(s@.subrange(i + 2, j + 1)[k] == s@.subrange(i + 2, j as int)[k]);
                        }
                    }
                }
                if !h {
                    assert(!is_radix_digit(s@.subrange(i + 2, j + 1)[j - (i + 2)], 16));
                }
                if !ok {
                    let w = choose|k: int| 0 <= k < s@.subrange(i + 2, j as int).len() && !#[trigger] is_radix_digit(s@.subrange(i + 2, j as int)[k], 16);
                    assert(s@.subrange(i + 2, j as int)[w] == s@.subrange(i + 2, j + 1)[w]);
                }
            }
            ok = ok && h;
            j = j + 1;
        }
        if ok {
            return Some((i + 2, i + 6, i + 6));
        }
    }
    if i + 2 < n && s[i + 2] == '{' {
        let mut e = i + 3;
        while e < n && is_hex_char(s[e])
            invariant
                i + 3 <= e <= n == s@.len(),
                hex_run_end(s@, i + 3) == hex_run_end(s@, e as int),
            decreases n - e,
        {
            e = e + 1;
        }
        if e > i + 3 && e < n && s[e] == '}' {
            return Some((i + 3, e, e + 1));
        }
    }
    None
}

/// Replaces the escapes `\uXXXX` and `\u{...}` of `s` by the characters they
/// name.
pub fn unescape(s: &Vec<char>) -> (res: DicWriteResult<String>)
    ensures
        string_result_view(res) == spec_unescape(s@),
{
    let mut out: Vec<char> = Vec::new();
    let mut i: usize = 0;
    while i < s.len()
        invariant
            i <= s@.len(),
            spec_unescape(s@) == prepend(out@, unescape_from(s@, i as int)),
        decreases s@.len() - i,
    {
        match escape_at_exec(s, i) {
            Some((a, b, end)) => {
                proof {
                    lemma_hex_run_end(s@, i + 3);
                }
                let parsed = parse_radix(s, a, b, 16, 0x10FFFF);
                let found = match parsed {
                    Some(v) => char_from_u32(v as u32),
                    None => None,
                };
                match found {
                    Some(c) => {
                        proof {
                            let v = radix_value(s@.subrange(a as int, b as int), 16);
                            assert(v == c as u32);
                            lemma_char_of_code(c, v);
                            lemma_prepend_prepend(out@, seq![c], unescape_from(s@, end as int));
                            assert(out@ + seq![c] =~= out@.push(c));
                        }
                        out.push(c);
                        i = end;
                    },
                    None => {
                        let digits = copy_range(s, a, b);
                        return Err(DicWriteReason::InvalidCharLiteral(string_from_chars(&digits)));
                    },
                }
            },
            None => {
                let c = s[i];
                proof {
                    lemma_prepend_prepend(out@, seq![c], unescape_from(s@, i + 1));
                    assert(out@ + seq![c] =~= out@.push(c));
                }
                out.push(c);
                i = i + 1;
            },
        }
    }
    Ok(string_from_chars(&out))
}

// ---------------------------------------------------------------- modes

/// How finely a text is split into words.
#[derive(Clone, Copy, PartialEq, Eq, Structural, Debug)]
pub enum Mode {
    A,
    B,
    C,
}

/// What parsing `s` as a splitting mode gives: `A`, `B` or `C` in either
/// case, and `*` for `C`.
pub open spec fn spec_parse_mode(s: Seq<char>) -> Result<Mode, ReasonModel> {
    if is_single(s, 'A') || is_single(s, 'a') {
        Ok(Mode::A)
    } else if is_single(s, 'B') || is_single(s, 'b') {
        Ok(Mode::B)
    } else if is_single(s, 'C') || is_single(s, 'c') || is_single(s, '*') {
        Ok(Mode::C)
    } else {
        Err(ReasonModel::InvalidSplit(s))
    }
}

/// Parses a splitting mode.
pub fn parse_mode(s: &Vec<char>) -> (res: DicWriteResult<Mode>)
    ensures
        result_view(res) == spec_parse_mode(s@),
{
    if s.len() == 1 {
        let c = s[0];
        if c == 'A' || c == 'a' {
            return Ok(Mode::A);
        } else if c == 'B' || c == 'b' {
            return Ok(Mode::B);
        } else if c == 'C' || c == 'c' || c == '*' {
            return Ok(Mode::C);
        }
    }
    Err(DicWriteReason::InvalidSplit(string_from_chars(s)))
}

// ---------------------------------------------------------------- word ids

/// Whether a word reference names the user dictionary (a leading `U`).
pub open spec fn is_user_ref(s: Seq<char>) -> bool {
    s.len() > 0 && s[0] == 'U'
}

/// The number part of a word reference.
pub open spec fn ref_digits(s: Seq<char>) -> Seq<char> {
    if is_user_ref(s) {
        s.drop_first()
    } else {
        s
    }
}

/// Whether `s` has the shape of a word reference: an optional `U`, then
/// one or more ASCII digits.
pub open spec fn is_word_id_literal(s: Seq<char>) -> bool {
    ref_digits(s).len() > 0 && all_digits(ref_digits(s), 10)
}

/// What parsing a word reference gives: the word of that number in the
/// system dictionary, or in the user dictionary with a leading `U`.
pub open spec fn spec_parse_wordid(s: Seq<char>) -> Result<WordId, ReasonModel> {
    let dic: int = if is_user_ref(s) { 1 } else { 0 };
    match u32_literal(ref_digits(s)) {
        Some(w) => if w <= MAX_WORD {
            Ok(WordId { raw: spec_word_id_raw(dic, w as int) as u32 })
        } else {
            Err(ReasonModel::InvalidWordId(ref_digits(s)))
        },
        None => Err(ReasonModel::InvalidWordId(ref_digits(s))),
    }
}

/// What parsing a dictionary-form field gives: `*` for no word, else a
/// word reference.
pub open spec fn spec_parse_dic_form(s: Seq<char>) -> Result<WordId, ReasonModel> {
    if is_single(s, '*') {
        Ok(WordId { raw: INVALID_RAW })
    } else {
        spec_parse_wordid(s)
    }
}

/// Whether `s` has the shape of a word reference.
pub fn is_word_id_literal_exec(s: &Vec<char>) -> (res: bool)
    ensures
        res == is_word_id_literal(s@),
{
    let start: usize = if s.len() > 0 && s[0] == 'U' { 1 } else { 0 };
    proof {
        if start == 1 {
            assert(s@.subrange(1, s@.len() as int) =~= s@.drop_first());
        } else {
            assert(s@.subrange(0, s@.len() as int) =~= s@);
        }
    }
    if start >= s.len() {
        return false;
    }
    let mut i = start;
    while i < s.len()
        invariant
            start <= i <= s@.len(),
            ref_digits(s@) == s@.subrange(start as int, s@.len() as int),
            all_digits(s@.subrange(start as int, i as int), 10),
        decreases s@.len() - i,
    {
        let code = s[i] as u32;
        if !(0x30 <= code && code <= 0x39) {
            proof {
                assert(!is_radix_digit(ref_digits(s@)[i - start], 10));
            }
            return false;
        }
        proof {
            assert forall|k: int| 0 <= k < s@.subrange(start as int, i + 1).len() implies #[trigger] is_radix_digit(s@.subrange(start as int, i + 1)[k], 10) by {
                if k < i - start {
                    assert(s@.subrange(start as int, i + 1)[k] == s@.subrange(start as int, i as int)[k]);
                }
            }
        }
        i = i + 1;
    }
    true
}

/// Parses a word reference: a number, with a leading `U` for the user
/// dictionary.
pub fn parse_wordid(s: &Vec<char>) -> (res: DicWriteResult<WordId>)
    ensures
        result_view(res) == spec_parse_wordid(s@),
{
    let user = s.len() > 0 && s[0] == 'U';
    let digits = if user { copy_range(s, 1, s.len()) } else { copy_range(s, 0, s.len()) };
    proof {
        if user {
            assert(digits@ =~= s@.drop_first());
        } else {
            assert(digits@ =~= s@);
        }
    }
    let dic: u8 = if user { 1 } else { 0 };
    match parse_u32(&digits) {
        Ok(w) => {
            match WordId::checked(dic, w) {
                Some(id) => Ok(id),
                None => Err(DicWriteReason::InvalidWordId(string_from_chars(&digits))),
            }
        },
        Err(_) => Err(DicWriteReason::InvalidWordId(string_from_chars(&digits))),
    }
}

/// Parses a dictionary-form field: `*` for no word, else a word reference.
pub fn parse_dic_form(s: &Vec<char>) -> (res: DicWriteResult<WordId>)
    ensures
        result_view(res) == spec_parse_dic_form(s@),
{
    if s.len() == 1 && s[0] == '*' {
        Ok(WordId::invalid())
    } else {
        parse_wordid(s)
    }
}

// ---------------------------------------------------------------- lists

/// Whether a list field is empty: no text, or `*`.
pub open spec fn is_empty_list(s: Seq<char>) -> bool {
    s.len() == 0 || is_single(s, '*')
}

/// A parsed list, refused when it is longer than a list may be.
pub open spec fn check_list_len<T>(r: Result<Seq<T>, ReasonModel>) -> Result<Seq<T>, ReasonModel> {
    match r {
        Ok(l) => if l.len() > MAX_ARRAY_LEN {
            Err(ReasonModel::InvalidSize { actual: l.len(), expected: MAX_ARRAY_LEN as nat })
        } else {
            Ok(l)
        },
        Err(e) => Err(e),
    }
}

/// The numbers of `parts`, or the error of the first one that is no `u32`.
pub open spec fn u32_items(parts: Seq<Seq<char>>) -> Result<Seq<u32>, ReasonModel>
    decreases parts.len(),
{
    if parts.len() == 0 {
        Ok(Seq::empty())
    } else {
        match u32_items(parts.drop_last()) {
            Ok(prev) => match spec_parse_u32(parts.last()) {
                Ok(v) => Ok(prev.push(v)),
                Err(e) => Err(e),
            },
            Err(e) => Err(e),
        }
    }
}

/// The word ids of `parts`, or the error of the first one that is no word
/// reference.
pub open spec fn wordid_items(parts: Seq<Seq<char>>) -> Result<Seq<WordId>, ReasonModel>
    decreases parts.len(),
{
    if parts.len() == 0 {
        Ok(Seq::empty())
    } else {
        match wordid_items(parts.drop_last()) {
            Ok(prev) => match spec_parse_wordid(parts.last()) {
                Ok(v) => Ok(prev.push(v)),
                Err(e) => Err(e),
            },
            Err(e) => Err(e),
        }
    }
}

/// What parsing a `/`-separated list of `u32` gives.
pub open spec fn spec_parse_u32_list(s: Seq<char>) -> Result<Seq<u32>, ReasonModel> {
    if is_empty_list(s) {
        Ok(Seq::empty())
    } else {
        check_list_len(u32_items(split_all(s, '/')))
    }
}

/// What parsing a `/`-separated list of word references gives.
pub open spec fn spec_parse_wordid_list(s: Seq<char>) -> Result<Seq<WordId>, ReasonModel> {
    if is_empty_list(s) {
        Ok(Seq::empty())
    } else {
        check_list_len(wordid_items(split_all(s, '/')))
    }
}

pub open spec fn vec_result_view<T>(r: DicWriteResult<Vec<T>>) -> Result<Seq<T>, ReasonModel> {
    match r {
        Ok(v) => Ok(v@),
        Err(e) => Err(e@),
    }
}

/// Parses a `/`-separated list of `u32`.
pub fn parse_u32_list(s: &Vec<char>) -> (res: DicWriteResult<Vec<u32>>)
    ensures
        vec_result_view(res) == spec_parse_u32_list(s@),
{
    if s.len() == 0 || (s.len() == 1 && s[0] == '*') {
        return Ok(Vec::new());
    }
    let parts = split_chars(s, '/', None);
    let ghost pv = chars_views(parts@);
    let mut out: Vec<u32> = Vec::new();
    let mut i: usize = 0;
    while i < parts.len()
        invariant
            i <= parts@.len(),
            pv == chars_views(parts@),
            pv == split_all(s@, '/'),
            !is_empty_list(s@),
            u32_items(pv.take(i as int)) == Ok::<Seq<u32>, ReasonModel>(out@),
        decreases parts@.len() - i,
    {
        proof {
            assert(pv.take(i + 1).drop_last() =~= pv.take(i as int));
            assert(pv.take(i + 1).last() == parts@[i as int]@);
        }
        match parse_u32(&parts[i]) {
            Ok(v) => {
                out.push(v);
            },
            Err(e) => {
                proof {
                    assert(u32_items(pv.take(i + 1)) == Err::<Seq<u32>, ReasonModel>(e@));
                    lemma_u32_items_err(pv, i as int);
                }
                return Err(e);
            },
        }
        i = i + 1;
    }
    proof {
        assert(pv.take(i as int) =~= pv);
    }
    if out.len() > MAX_ARRAY_LEN {
        return Err(DicWriteReason::InvalidSize { actual: out.len(), expected: MAX_ARRAY_LEN });
    }
    Ok(out)
}

proof fn lemma_u32_items_err(parts: Seq<Seq<char>>, i: int)
    requires
        0 <= i < parts.len(),
        u32_items(parts.take(i + 1)) is Err,
    ensures
        u32_items(parts) == u32_items(parts.take(i + 1)),
    decreases parts.len() - i,
{
    if i + 1 < parts.len() {
        assert(parts.take(i + 2).drop_last() =~= parts.take(i + 1));
        lemma_u32_items_err(parts, i + 1);
    } else {
        assert(parts.take(i + 1) =~= parts);
    }
}

proof fn lemma_wordid_items_err(parts: Seq<Seq<char>>, i: int)
    requires
        0 <= i < parts.len(),
        wordid_items(parts.take(i + 1)) is Err,
    ensures
        wordid_items(parts) == wordid_items(parts.take(i + 1)),
    decreases parts.len() - i,
{
    if i + 1 < parts.len() {
        assert(parts.take(i + 2).drop_last() =~= parts.take(i + 1));
        lemma_wordid_items_err(parts, i + 1);
    } else {
        assert(parts.take(i + 1) =~= parts);
    }
}

/// Parses a `/`-separated list of word references.
pub fn parse_wordid_list(s: &Vec<char>) -> (res: DicWriteResult<Vec<WordId>>)
    ensures
        vec_result_view(res) == spec_parse_wordid_list(s@),
{
    if s.len() == 0 || (s.len() == 1 && s[0] == '*') {
        return Ok(Vec::new());
    }
    let parts = split_chars(s, '/', None);
    let ghost pv = chars_views(parts@);
    let mut out: Vec<WordId> = Vec::new();
    let mut i: usize = 0;
    while i < parts.len()
        invariant
            i <= parts@.len(),
            pv == chars_views(parts@),
            pv == split_all(s@, '/'),
            !is_empty_list(s@),
            wordid_items(pv.take(i as int)) == Ok::<Seq<WordId>, ReasonModel>(out@),
        decreases parts@.len() - i,
    {
        proof {
            assert(pv.take(i + 1).drop_last() =~= pv.take(i as int));
            assert(pv.take(i + 1).last() == parts@[i as int]@);
        }
        match parse_wordid(&parts[i]) {
            Ok(v) => {
                out.push(v);
            },
            Err(e) => {
                proof {
                    assert(wordid_items(pv.take(i + 1)) == Err::<Seq<WordId>, ReasonModel>(e@));
                    lemma_wordid_items_err(pv, i as int);
                }
                return Err(e);
            },
        }
        i = i + 1;
    }
    proof {
        assert(pv.take(i as int) =~= pv);
    }
    if out.len() > MAX_ARRAY_LEN {
        return Err(DicWriteReason::InvalidSize { actual: out.len(), expected: MAX_ARRAY_LEN });
    }
    Ok(out)
}

// ---------------------------------------------------------------- optional fields

/// `value`, or nothing when it equals `base`: how a field that defaults to
/// another one is kept.
pub open spec fn opt_if_differs(base: Seq<char>, value: Seq<char>) -> Option<Seq<char>> {
    if base == value {
        None
    } else {
        Some(value)
    }
}

pub open spec fn opt_string_view(o: Option<String>) -> Option<Seq<char>> {
    match o {
        Some(s) => Some(s@),
        None => None,
    }
}

/// `value`, or `None` when it equals `base`.
pub fn none_if_equal(base: &String, value: String) -> (res: Option<String>)
    ensures
        opt_string_view(res) == opt_if_differs(base@, value@),
{
    if *base == value {
        None
    } else {
        Some(value)
    }
}

} // verus!
