use vstd::prelude::*;

use crate::entry::{model_headword, model_norm_form, model_reading, split_raw, utf8_len, word_info_steps, EntryModel, SplitModel};
use crate::error::ReasonModel;
use crate::lexicon::{
    inline_fields, pos_index, pos_known, pos_table_steps, spec_parse_record, spec_parse_split,
    spec_parse_splits, spec_pos_of, LexiconModel, PosKey, MAX_POS_IDS,
};
use crate::parse::{
    is_word_id_literal, spec_parse_dic_form, spec_parse_i16, spec_parse_mode, spec_parse_u32_list,
    spec_parse_wordid_list, spec_unescape,
};
use crate::primitives::{
    le_u16, le_u32, lemma_run_steps_next, lemma_run_steps_stop, run_steps, spec_write_empty_if_equal,
    spec_write_len, spec_write_string, spec_write_u32_array,
};
use crate::record::{pos_fields, spec_record_head};
use crate::text::split_pieces;
use crate::word_id::WordId;

verus! {

// ---------------------------------------------------------------- parts of speech of a record

/// Reading the part-of-speech fields takes field `5 + j` as level `j`.
proof fn lemma_pos_fields(f: Seq<Seq<char>>, n: nat)
    ensures
        pos_fields(f, n) matches Ok(p) ==> {
            &&& p.len() == n
            &&& forall|j: int| 0 <= j < n ==> 5 + j < f.len() && #[trigger] spec_unescape(f[5 + j]) == Ok::<Seq<char>, ReasonModel>(p[j])
        },
    decreases n,
{
    if n > 0 {
        lemma_pos_fields(f, (n - 1) as nat);
        if let Ok(p) = pos_fields(f, n) {
            let prev = pos_fields(f, (n - 1) as nat)->Ok_0;
            assert(p == prev.push(p[n - 1]));
            assert forall|j: int| 0 <= j < n implies 5 + j < f.len() && #[trigger] spec_unescape(f[5 + j]) == Ok::<Seq<char>, ReasonModel>(p[j]) by {
                if j < n - 1 {
                    assert(p[j] == prev[j]);
                }
            }
        }
    }
}

/// The part of speech of a record is its fields 5 to 10, unescaped, in
/// order: level `j` is field `5 + j`.
pub proof fn law_record_pos_fields(f: Seq<Seq<char>>)
    ensures
        spec_record_head(f) matches Ok(h) ==> {
            &&& h.pos.len() == 6
            &&& forall|j: int| 0 <= j < 6 ==> 5 + j < f.len()
                && #[trigger] spec_unescape(f[5 + j]) == Ok::<Seq<char>, ReasonModel>(h.pos[j])
        },
{
    lemma_pos_fields(f, 6);
}

/// A lookup that gives an id gives the place of the part of speech in the
/// table after it.
proof fn lemma_pos_of_names(keys: Seq<PosKey>, key: PosKey)
    requires
        spec_pos_of(keys, key).0.len() <= MAX_POS_IDS + 1,
    ensures
        spec_pos_of(keys, key).1 matches Ok(id) ==> (id as int) < spec_pos_of(keys, key).0.len()
            && spec_pos_of(keys, key).0[id as int] == key,
{
    if pos_known(keys, key) {
        let i = pos_index(keys, key);
        assert(keys[i] == key);
    } else if keys.len() <= MAX_POS_IDS {
        assert(keys.push(key)[keys.len() as int] == key);
    }
}

/// When a record is taken, the id of its entry names, in the table after
/// it, the part of speech whose level `j` is field `5 + j` of the record,
/// unescaped.
pub proof fn law_record_pos_named(m: LexiconModel, f: Seq<Seq<char>>)
    requires
        spec_parse_record(m, f).0.pos.len() <= MAX_POS_IDS + 1,
    ensures
        spec_parse_record(m, f).1 matches Ok(e) ==> {
            let row = spec_parse_record(m, f).0.pos[e.pos as int];
            &&& (e.pos as int) < spec_parse_record(m, f).0.pos.len()
            &&& row.len() == 6
            &&& forall|j: int| 0 <= j < 6 ==> 5 + j < f.len()
                && #[trigger] spec_unescape(f[5 + j]) == Ok::<Seq<char>, ReasonModel>(row[j])
        },
{
    crate::laws::law_parse_record(m, f);
    law_record_pos_fields(f);
}

// ---------------------------------------------------------------- the fields of an entry

/// When a record is taken, each part of its entry comes from its own field:
/// the surface from field 0; left id, right id and cost from fields 1, 2
/// and 3; the headword from field 4; the reading and the normalized form
/// from fields 11 and 12; the dictionary form from field 13; the splitting
/// mode from field 14; the word structure from field 17; and the synonym
/// groups from field 18, none when the record has no such field.
pub proof fn law_record_entry_fields(m: LexiconModel, f: Seq<Seq<char>>)
    ensures
        spec_parse_record(m, f).1 matches Ok(e) ==> {
            &&& 17 < f.len()
            &&& spec_unescape(f[0]) == Ok::<Seq<char>, ReasonModel>(e.surface)
            &&& spec_parse_i16(f[1]) == Ok::<i16, ReasonModel>(e.left_id)
            &&& spec_parse_i16(f[2]) == Ok::<i16, ReasonModel>(e.right_id)
            &&& spec_parse_i16(f[3]) == Ok::<i16, ReasonModel>(e.cost)
            &&& spec_unescape(f[4]) == Ok::<Seq<char>, ReasonModel>(model_headword(e))
            &&& spec_unescape(f[11]) == Ok::<Seq<char>, ReasonModel>(model_reading(e))
            &&& spec_unescape(f[12]) == Ok::<Seq<char>, ReasonModel>(model_norm_form(e))
            &&& spec_parse_dic_form(f[13]) == Ok::<WordId, ReasonModel>(e.dic_form)
            &&& spec_parse_mode(f[14]) == Ok::<crate::parse::Mode, ReasonModel>(e.splitting)
            &&& spec_parse_wordid_list(f[17]) == Ok::<Seq<WordId>, ReasonModel>(e.word_structure)
            &&& (if 18 < f.len() {
                spec_parse_u32_list(f[18]) == Ok::<Seq<u32>, ReasonModel>(e.synonym_groups)
            } else {
                e.synonym_groups == Seq::<u32>::empty()
            })
        },
{
    crate::laws::law_parse_record(m, f);
}

// ---------------------------------------------------------------- splits of a record

/// When a record is taken, its A split is what parsing field 15 gives from
/// the table before the record, and its B split is what parsing field 16
/// gives from the table that the A split left.
pub proof fn law_record_splits(m: LexiconModel, f: Seq<Seq<char>>)
    ensures
        spec_parse_record(m, f).1 matches Ok(e) ==> {
            let (k1, ra) = spec_parse_splits(m.pos, f[15]);
            let (k2, rb) = spec_parse_splits(k1, f[16]);
            &&& 16 < f.len()
            &&& ra matches Ok((sa, _)) && e.splits_a == sa
            &&& rb matches Ok((sb, _)) && e.splits_b == sb
        },
{
}

// ---------------------------------------------------------------- inline split units

/// Reading the first `n` parts of an inline unit takes part `j` as field `j`.
proof fn lemma_inline_fields(parts: Seq<Seq<char>>, original: Seq<char>, n: nat)
    ensures
        inline_fields(parts, original, n) matches Ok(fs) ==> {
            &&& fs.len() == n
            &&& forall|j: int| 0 <= j < n ==> j < parts.len()
                && #[trigger] spec_unescape(parts[j]) == Ok::<Seq<char>, ReasonModel>(fs[j])
        },
    decreases n,
{
    if n > 0 {
        lemma_inline_fields(parts, original, (n - 1) as nat);
        if let Ok(fs) = inline_fields(parts, original, n) {
            let prev = inline_fields(parts, original, (n - 1) as nat)->Ok_0;
            assert(fs == prev.push(fs[n - 1]));
            assert forall|j: int| 0 <= j < n implies j < parts.len() && #[trigger] spec_unescape(parts[j]) == Ok::<Seq<char>, ReasonModel>(fs[j]) by {
                if j < n - 1 {
                    assert(fs[j] == prev[j]);
                }
            }
        }
    }
}

/// An inline split unit `surface,pos1,...,pos6,reading` gets the id of the
/// part of speech made of its parts 1 to 6, unescaped, in order: in the
/// table after it, level `j` of that part of speech is part `j + 1`. Its
/// surface is part 0.
pub proof fn law_inline_split_pos(keys: Seq<PosKey>, s: Seq<char>)
    requires
        keys.len() <= MAX_POS_IDS + 1,
    ensures
        spec_parse_split(keys, s).1 matches Ok(SplitModel::Inline { surface, pos, reading }) ==> {
            let parts = split_pieces(s, ',', Some(8));
            let row = spec_parse_split(keys, s).0[pos as int];
            &&& (pos as int) < spec_parse_split(keys, s).0.len()
            &&& parts.len() >= 8
            &&& spec_unescape(parts[0]) == Ok::<Seq<char>, ReasonModel>(surface)
            &&& row.len() == 6
            &&& forall|j: int| 0 <= j < 6 ==> #[trigger] spec_unescape(parts[j + 1]) == Ok::<Seq<char>, ReasonModel>(row[j])
        },
{
    if !is_word_id_literal(s) {
        let parts = split_pieces(s, ',', Some(8));
        lemma_inline_fields(parts, s, 8);
        if let Ok(f) = inline_fields(parts, s, 8) {
            let key = f.subrange(1, 7);
            if pos_known(keys, key) {
                let i = pos_index(keys, key);
                assert(keys[i] == key);
            } else if keys.len() <= MAX_POS_IDS {
                assert(keys.push(key)[keys.len() as int] == key);
            }
            lemma_pos_of_names(keys, key);
            assert forall|j: int| 0 <= j < 6 implies #[trigger] spec_unescape(parts[j + 1]) == Ok::<Seq<char>, ReasonModel>(key[j]) by {
                assert(spec_unescape(parts[j + 1]) == Ok::<Seq<char>, ReasonModel>(f[j + 1]));
            }
        }
    }
}

// ---------------------------------------------------------------- the part-of-speech table

/// The strings that one row of the part-of-speech table is written as.
pub open spec fn pos_row_steps(row: PosKey) -> Seq<Result<Seq<u8>, ReasonModel>> {
    Seq::new(6, |j: int| spec_write_string(row[j]))
}

/// Writing a table with one more part of speech writes the rows of the
/// table before it, in id order, and then the six strings of the new one.
pub proof fn law_pos_table_push(keys: Seq<PosKey>, key: PosKey)
    ensures
        pos_table_steps(keys.push(key)) == pos_table_steps(keys) + pos_row_steps(key),
{
    let a = pos_table_steps(keys.push(key));
    let b = pos_table_steps(keys) + pos_row_steps(key);
    assert forall|k: int| 0 <= k < a.len() implies a[k] == b[k] by {
        let i = k / 6;
        let j = k % 6;
        assert(k == 6 * i + j);
        if k < 6 * keys.len() {
            assert(i < keys.len()) by (nonlinear_arith)
                requires k == 6 * i + j, 0 <= j < 6, k < 6 * keys.len();
            assert(keys.push(key)[i] == keys[i]);
        } else {
            assert(i == keys.len()) by (nonlinear_arith)
                requires k == 6 * i + j, 0 <= j < 6, k >= 6 * keys.len(), k < 6 * keys.len() + 6;
        }
    }
    assert(a =~= b);
}

/// Writing pieces one after the other: `a` and then `b` give the bytes of
/// `a` followed by those of `b`, unless a piece of `a` fails.
pub proof fn law_run_steps_append(a: Seq<Result<Seq<u8>, ReasonModel>>, b: Seq<Result<Seq<u8>, ReasonModel>>)
    ensures
        run_steps(a).1 is Some ==> run_steps(a + b) == run_steps(a),
        run_steps(a).1 is None ==> run_steps(a + b).0 == run_steps(a).0 + run_steps(b).0,
        run_steps(a).1 is None ==> (run_steps(a + b).1 is None <==> run_steps(b).1 is None),
    decreases b.len(),
{
    if b.len() == 0 {
        assert(a + b =~= a);
        assert(run_steps(a).0 + run_steps(b).0 =~= run_steps(a).0);
    } else {
        law_run_steps_append(a, b.drop_last());
        assert((a + b).drop_last() =~= a + b.drop_last());
        assert((a + b).last() == b.last());
        if run_steps(a).1 is None {
            if let Ok(x) = b.last() {
                assert(run_steps(a).0 + run_steps(b.drop_last()).0 + x =~= run_steps(a).0 + (run_steps(b.drop_last()).0 + x));
            }
        }
    }
}

/// The bytes of the part-of-speech table, once they are all written: those
/// of the table without its last part of speech, then the six strings of
/// that one. So row `i` of what is written is the part of speech with id
/// `i`.
pub proof fn law_pos_table_bytes(keys: Seq<PosKey>, key: PosKey)
    ensures
        run_steps(pos_table_steps(keys.push(key))).1 is None ==> {
            &&& run_steps(pos_table_steps(keys)).1 is None
            &&& run_steps(pos_table_steps(keys.push(key))).0
                == run_steps(pos_table_steps(keys)).0 + run_steps(pos_row_steps(key)).0
        },
{
    law_pos_table_push(keys, key);
    law_run_steps_append(pos_table_steps(keys), pos_row_steps(key));
}

// ---------------------------------------------------------------- word information

/// The bytes of the value a piece is written as, when it can be written.
pub open spec fn piece(r: Result<Seq<u8>, ReasonModel>) -> Seq<u8> {
    match r {
        Ok(b) => b,
        Err(_) => Seq::empty(),
    }
}

proof fn lemma_piece_written(steps: Seq<Result<Seq<u8>, ReasonModel>>, k: int)
    requires
        0 <= k < steps.len(),
        run_steps(steps).1 is None,
    ensures
        steps[k] is Ok,
        run_steps(steps.take(k + 1)).1 is None,
        run_steps(steps.take(k + 1)).0 == run_steps(steps.take(k)).0 + piece(steps[k]),
{
    if run_steps(steps.take(k)).1 is Some {
        lemma_run_steps_stop(steps, k);
    }
    lemma_run_steps_next(steps, k);
    if run_steps(steps.take(k + 1)).1 is Some {
        lemma_run_steps_stop(steps, k + 1);
    }
}

/// The word information of an entry, once every piece is written, is, in
/// this order: the headword, the length of the surface, the part-of-speech
/// id, the normalized form and the reading (each empty when it equals the
/// headword) around the dictionary form, the A split, the B split, the
/// word structure and, last, the synonym groups.
#[verifier::rlimit(40)]
pub proof fn law_word_info_bytes(e: EntryModel)
    ensures
        run_steps(word_info_steps(e)).1 is None ==> run_steps(word_info_steps(e)).0 ==
            piece(spec_write_string(model_headword(e)))
            + piece(spec_write_len(utf8_len(e.surface) as nat))
            + le_u16(e.pos as int)
            + piece(spec_write_empty_if_equal(model_norm_form(e), model_headword(e)))
            + le_u32(e.dic_form.raw)
            + piece(spec_write_empty_if_equal(model_reading(e), model_headword(e)))
            + piece(spec_write_u32_array(e.splits_a.map_values(|u: SplitModel| split_raw(u))))
            + piece(spec_write_u32_array(e.splits_b.map_values(|u: SplitModel| split_raw(u))))
            + piece(spec_write_u32_array(e.word_structure.map_values(|w: WordId| w.raw)))
            + piece(spec_write_u32_array(e.synonym_groups)),
{
    let steps = word_info_steps(e);
    if run_steps(steps).1 is None {
        assert(steps.take(0) =~= Seq::<Result<Seq<u8>, ReasonModel>>::empty());
        lemma_piece_written(steps, 0);
        lemma_piece_written(steps, 1);
        lemma_piece_written(steps, 2);
        lemma_piece_written(steps, 3);
        lemma_piece_written(steps, 4);
        lemma_piece_written(steps, 5);
        lemma_piece_written(steps, 6);
        lemma_piece_written(steps, 7);
        lemma_piece_written(steps, 8);
        lemma_piece_written(steps, 9);
        assert(steps.take(10) =~= steps);
        assert(Seq::<u8>::empty() + piece(steps[0]) =~= piece(steps[0]));
    }
}

} // verus!
