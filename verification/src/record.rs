use vstd::prelude::*;

use csv::StringRecord;

use crate::csv_source::{csv_record_fields, csv_record_get};
use crate::error::{result_view, string_result_view, DicWriteReason, DicWriteResult, ReasonModel};
use crate::parse::{
    parse_dic_form, parse_i16, parse_mode, parse_u32_list, parse_wordid_list, spec_parse_dic_form,
    spec_parse_i16, spec_parse_mode, spec_parse_u32_list, spec_parse_wordid_list, spec_unescape,
    unescape, Mode,
};
use crate::pos::{strings_view, POS_DEPTH};
use crate::text::chars_of;
use crate::word_id::WordId;

verus! {

// ---------------------------------------------------------------- records

/// Field `idx` of a record, or the error that names the missing field.
pub open spec fn record_field(fields: Seq<Seq<char>>, idx: int, name: Seq<char>) -> Result<Seq<char>, ReasonModel> {
    if 0 <= idx < fields.len() {
        Ok(fields[idx])
    } else {
        Err(ReasonModel::NoRawField(name))
    }
}

/// Field `idx` of a record with its escapes replaced.
pub open spec fn unescaped_field(fields: Seq<Seq<char>>, idx: int, name: Seq<char>) -> Result<Seq<char>, ReasonModel> {
    match record_field(fields, idx, name) {
        Ok(s) => spec_unescape(s),
        Err(e) => Err(e),
    }
}

/// Field `idx` of a record read as an `i16`.
pub open spec fn i16_field(fields: Seq<Seq<char>>, idx: int, name: Seq<char>) -> Result<i16, ReasonModel> {
    match record_field(fields, idx, name) {
        Ok(s) => spec_parse_i16(s),
        Err(e) => Err(e),
    }
}

/// Names of the part-of-speech fields of a record, for errors.
pub open spec fn pos_field_names() -> Seq<Seq<char>> {
    seq!["(5) pos-1"@, "(6) pos-2"@, "(7) pos-3"@, "(8) pos-4"@, "(9) pos-conj-1"@, "(10) pos-conj-2"@]
}

/// The first `n` part-of-speech fields (fields 5 to 10), unescaped.
pub open spec fn pos_fields(fields: Seq<Seq<char>>, n: nat) -> Result<Seq<Seq<char>>, ReasonModel>
    decreases n,
{
    if n == 0 {
        Ok(Seq::empty())
    } else {
        match pos_fields(fields, (n - 1) as nat) {
            Ok(prev) => match unescaped_field(fields, 5 + n - 1, pos_field_names()[n - 1]) {
                Ok(u) => Ok(prev.push(u)),
                Err(e) => Err(e),
            },
            Err(e) => Err(e),
        }
    }
}

/// The fields of a record before its splits.
pub struct RecordHead {
    pub surface: Seq<char>,
    pub left_id: i16,
    pub right_id: i16,
    pub cost: i16,
    pub headword: Seq<char>,
    pub pos: Seq<Seq<char>>,
    pub reading: Seq<char>,
    pub normalized: Seq<char>,
    pub dic_form: WordId,
    pub splitting: Mode,
}

/// What reading fields 0 to 14 of a record gives, field by field, up to
/// the first that is missing or malformed.
pub open spec fn spec_record_head(f: Seq<Seq<char>>) -> Result<RecordHead, ReasonModel> {
    match unescaped_field(f, 0, "(0) surface"@) {
        Err(e) => Err(e),
        Ok(surface) => match i16_field(f, 1, "(1) left_id"@) {
            Err(e) => Err(e),
            Ok(left_id) => match i16_field(f, 2, "(2) right_id"@) {
                Err(e) => Err(e),
                Ok(right_id) => match i16_field(f, 3, "(3) cost"@) {
                    Err(e) => Err(e),
                    Ok(cost) => match unescaped_field(f, 4, "(4) headword"@) {
                        Err(e) => Err(e),
                        Ok(headword) => match pos_fields(f, 6) {
                            Err(e) => Err(e),
                            Ok(pos) => match unescaped_field(f, 11, "(11) reading"@) {
                                Err(e) => Err(e),
                                Ok(reading) => match unescaped_field(f, 12, "(12) normalized"@) {
                                    Err(e) => Err(e),
                                    Ok(normalized) => match record_field(f, 13, "(13) dic-form"@) {
                                        Err(e) => Err(e),
                                        Ok(d) => match spec_parse_dic_form(d) {
                                            Err(e) => Err(e),
                                            Ok(dic_form) => match record_field(f, 14, "(14) splitting"@) {
                                                Err(e) => Err(e),
                                                Ok(m) => match spec_parse_mode(m) {
                                                    Err(e) => Err(e),
                                                    Ok(splitting) => Ok(RecordHead {
                                                        surface,
                                                        left_id,
                                                        right_id,
                                                        cost,
                                                        headword,
                                                        pos,
                                                        reading,
                                                        normalized,
                                                        dic_form,
                                                        splitting,
                                                    }),
                                                },
                                            },
                                        },
                                    },
                                },
                            },
                        },
                    },
                },
            },
        },
    }
}

/// What reading the word structure (field 17) and the synonym groups
/// (field 18, empty when absent) gives.
pub open spec fn spec_record_tail(f: Seq<Seq<char>>) -> Result<(Seq<WordId>, Seq<u32>), ReasonModel> {
    match record_field(f, 17, "(17) word-structure"@) {
        Err(e) => Err(e),
        Ok(s) => match spec_parse_wordid_list(s) {
            Err(e) => Err(e),
            Ok(ws) => if 18 < f.len() {
                match spec_parse_u32_list(f[18]) {
                    Ok(syn) => Ok((ws, syn)),
                    Err(e) => Err(e),
                }
            } else {
                Ok((ws, Seq::empty()))
            },
        },
    }
}

pub open spec fn chars_result_view(r: DicWriteResult<Vec<char>>) -> Result<Seq<char>, ReasonModel> {
    match r {
        Ok(v) => Ok(v@),
        Err(e) => Err(e@),
    }
}

/// Field `idx` of the record, or the error that names it as missing.
pub(crate) fn field_chars(rec: &StringRecord, idx: usize, name: &'static str) -> (res: DicWriteResult<Vec<char>>)
    ensures
        chars_result_view(res) == record_field(csv_record_fields(*rec), idx as int, name@),
{
    match csv_record_get(rec, idx) {
        Some(s) => Ok(chars_of(s)),
        None => Err(DicWriteReason::NoRawField(name)),
    }
}

/// Field `idx` of the record with its escapes replaced.
fn field_unescaped(rec: &StringRecord, idx: usize, name: &'static str) -> (res: DicWriteResult<String>)
    ensures
        string_result_view(res) == unescaped_field(csv_record_fields(*rec), idx as int, name@),
{
    match field_chars(rec, idx, name) {
        Ok(c) => unescape(&c),
        Err(e) => Err(e),
    }
}

/// Field `idx` of the record read as an `i16`.
fn field_i16(rec: &StringRecord, idx: usize, name: &'static str) -> (res: DicWriteResult<i16>)
    ensures
        result_view(res) == i16_field(csv_record_fields(*rec), idx as int, name@),
{
    match field_chars(rec, idx, name) {
        Ok(c) => parse_i16(&c),
        Err(e) => Err(e),
    }
}

/// Name of part-of-speech field `j` (field `5 + j`).
fn pos_field_name(j: usize) -> (res: &'static str)
    requires
        j < 6,
    ensures
        res@ == pos_field_names()[j as int],
{
    if j == 0 {
        "(5) pos-1"
    } else if j == 1 {
        "(6) pos-2"
    } else if j == 2 {
        "(7) pos-3"
    } else if j == 3 {
        "(8) pos-4"
    } else if j == 4 {
        "(9) pos-conj-1"
    } else {
        "(10) pos-conj-2"
    }
}

proof fn lemma_pos_fields_stop(f: Seq<Seq<char>>, k: nat, n: nat)
    requires
        k <= n,
        pos_fields(f, k) is Err,
    ensures
        pos_fields(f, n) == pos_fields(f, k),
    decreases n - k,
{
    if k < n {
        lemma_pos_fields_stop(f, k, (n - 1) as nat);
    }
}

/// The part-of-speech fields 5 to 10 of the record, unescaped.
fn read_pos_fields(rec: &StringRecord) -> (res: DicWriteResult<[String; POS_DEPTH]>)
    ensures
        match res {
            Ok(a) => pos_fields(csv_record_fields(*rec), 6) == Ok::<Seq<Seq<char>>, ReasonModel>(strings_view(a@)),
            Err(e) => pos_fields(csv_record_fields(*rec), 6) == Err::<Seq<Seq<char>>, ReasonModel>(e@),
        },
{
    let ghost f = csv_record_fields(*rec);
    let mut out: Vec<String> = Vec::new();
    let mut j: usize = 0;
    proof {
        assert(strings_view(out@) =~= Seq::<Seq<char>>::empty());
    }
    while j < 6
        invariant
            j <= 6,
            out@.len() == j,
            f == csv_record_fields(*rec),
            pos_fields(f, j as nat) == Ok::<Seq<Seq<char>>, ReasonModel>(strings_view(out@)),
        decreases 6 - j,
    {
        match field_unescaped(rec, 5 + j, pos_field_name(j)) {
            Ok(u) => {
                proof {
                    assert(strings_view(out@.push(u)) =~= strings_view(out@).push(u@));
                }
                out.push(u);
            },
            Err(e) => {
                proof {
                    assert(pos_fields(f, (j + 1) as nat) == Err::<Seq<Seq<char>>, ReasonModel>(e@));
                    lemma_pos_fields_stop(f, (j + 1) as nat, 6);
                }
                return Err(e);
            },
        }
        j = j + 1;
    }
    let a: [String; POS_DEPTH] = [
        out[0].clone(),
        out[1].clone(),
        out[2].clone(),
        out[3].clone(),
        out[4].clone(),
        out[5].clone(),
    ];
    proof {
        assert(strings_view(a@) =~= strings_view(out@));
    }
    Ok(a)
}

/// Fields 0 to 14 of a record.
pub(crate) struct RawHead {
    pub(crate) surface: String,
    pub(crate) left_id: i16,
    pub(crate) right_id: i16,
    pub(crate) cost: i16,
    pub(crate) headword: String,
    pub(crate) pos: [String; POS_DEPTH],
    pub(crate) reading: String,
    pub(crate) normalized: String,
    pub(crate) dic_form: WordId,
    pub(crate) splitting: Mode,
}

pub(crate) open spec fn head_view(h: RawHead) -> RecordHead {
    RecordHead {
        surface: h.surface@,
        left_id: h.left_id,
        right_id: h.right_id,
        cost: h.cost,
        headword: h.headword@,
        pos: strings_view(h.pos@),
        reading: h.reading@,
        normalized: h.normalized@,
        dic_form: h.dic_form,
        splitting: h.splitting,
    }
}

/// Reads fields 0 to 14 of a record, up to the first that fails.
#[verifier::rlimit(40)]
pub(crate) fn read_head(rec: &StringRecord) -> (res: DicWriteResult<RawHead>)
    ensures
        match res {
            Ok(h) => spec_record_head(csv_record_fields(*rec)) == Ok::<RecordHead, ReasonModel>(head_view(h)),
            Err(e) => spec_record_head(csv_record_fields(*rec)) == Err::<RecordHead, ReasonModel>(e@),
        },
{
    let surface = match field_unescaped(rec, 0, "(0) surface") {
        Ok(v) => v,
        Err(e) => return Err(e),
    };
    let left_id = match field_i16(rec, 1, "(1) left_id") {
        Ok(v) => v,
        Err(e) => return Err(e),
    };
    let right_id = match field_i16(rec, 2, "(2) right_id") {
        Ok(v) => v,
        Err(e) => return Err(e),
    };
    let cost = match field_i16(rec, 3, "(3) cost") {
        Ok(v) => v,
        Err(e) => return Err(e),
    };
    let headword = match field_unescaped(rec, 4, "(4) headword") {
        Ok(v) => v,
        Err(e) => return Err(e),
    };
    let pos = match read_pos_fields(rec) {
        Ok(v) => v,
        Err(e) => return Err(e),
    };
    let reading = match field_unescaped(rec, 11, "(11) reading") {
        Ok(v) => v,
        Err(e) => return Err(e),
    };
    let normalized = match field_unescaped(rec, 12, "(12) normalized") {
        Ok(v) => v,
        Err(e) => return Err(e),
    };
    let dic_form = match field_chars(rec, 13, "(13) dic-form") {
        Ok(c) => match parse_dic_form(&c) {
            Ok(v) => v,
            Err(e) => return Err(e),
        },
        Err(e) => return Err(e),
    };
    let splitting = match field_chars(rec, 14, "(14) splitting") {
        Ok(c) => match parse_mode(&c) {
            Ok(v) => v,
            Err(e) => return Err(e),
        },
        Err(e) => return Err(e),
    };
    Ok(RawHead { surface, left_id, right_id, cost, headword, pos, reading, normalized, dic_form, splitting })
}

/// Reads the word structure (field 17) and the synonym groups (field 18,
/// empty when absent).
pub(crate) fn read_tail(rec: &StringRecord) -> (res: DicWriteResult<(Vec<WordId>, Vec<u32>)>)
    ensures
        match res {
            Ok((ws, syn)) => spec_record_tail(csv_record_fields(*rec)) == Ok::<(Seq<WordId>, Seq<u32>), ReasonModel>((ws@, syn@)),
            Err(e) => spec_record_tail(csv_record_fields(*rec)) == Err::<(Seq<WordId>, Seq<u32>), ReasonModel>(e@),
        },
{
    let c = match field_chars(rec, 17, "(17) word-structure") {
        Ok(c) => c,
        Err(e) => return Err(e),
    };
    let ws = match parse_wordid_list(&c) {
        Ok(v) => v,
        Err(e) => return Err(e),
    };
    let syn = match csv_record_get(rec, 18) {
        Some(s) => {
            let c = chars_of(s);
            match parse_u32_list(&c) {
                Ok(v) => v,
                Err(e) => return Err(e),
            }
        },
        None => Vec::new(),
    };
    Ok((ws, syn))
}

} // verus!
