use vstd::prelude::*;

use csv::StringRecord;
use indexmap::IndexMap;

use crate::csv_source::{
    csv_error_line, csv_read_record, csv_reader_for, csv_reader_rest, csv_record_fields, csv_record_line,
    csv_record_new, csv_rows, CsvRow,
};
use crate::entry::{has_inline, splits_view, EntryModel, RawLexiconEntry, SplitModel, SplitUnit};
use crate::error::{result_view, DicCompilationCtx, DicWriteReason, DicWriteResult, ReasonModel, SudachiResult};
use crate::parse::{
    check_list_len, is_empty_list, is_word_id_literal, is_word_id_literal_exec, none_if_equal,
    opt_if_differs, parse_wordid, spec_parse_wordid, spec_unescape, unescape, Mode, MAX_ARRAY_LEN,
};
use crate::pos::{
    has_key, join_commas, pos_map_entries, pos_map_get, pos_map_get_index, pos_map_insert,
    pos_map_keys, pos_map_len, pos_map_new, strings_view, StrPosEntry, POS_DEPTH,
};
use crate::primitives::{
    le_u64, lemma_run_steps_next, lemma_run_steps_stop, push_u64, run_steps, spec_write_string,
    Utf16Writer,
};
use crate::record::{
    field_chars, head_view, read_head, read_tail, record_field, spec_record_head, spec_record_tail,
};
use crate::text::{chars_views, split_all, split_chars, split_pieces};

verus! {

/// Largest id of a part of speech.
pub const MAX_POS_IDS: usize = 32767;

/// A part of speech, as its six strings.
pub type PosKey = Seq<Seq<char>>;

// ---------------------------------------------------------------- parts of speech

/// Whether `key` is in the table.
pub open spec fn pos_known(keys: Seq<PosKey>, key: PosKey) -> bool {
    exists|i: int| 0 <= i < keys.len() && #[trigger] keys[i] == key
}

/// The place of `key` in the table.
pub open spec fn pos_index(keys: Seq<PosKey>, key: PosKey) -> int {
    choose|i: int| 0 <= i < keys.len() && #[trigger] keys[i] == key
}

/// What looking a part of speech up gives: the place it has in the table;
/// else a new place at the end, unless the table is full.
pub open spec fn spec_pos_of(keys: Seq<PosKey>, key: PosKey) -> (Seq<PosKey>, Result<u16, ReasonModel>) {
    if pos_known(keys, key) {
        (keys, Ok(pos_index(keys, key) as u16))
    } else if keys.len() > MAX_POS_IDS {
        (keys, Err(ReasonModel::PosLimitExceeded(join_commas(key))))
    } else {
        (keys.push(key), Ok(keys.len() as u16))
    }
}

/// Whether no part of speech occurs twice in the table.
pub open spec fn keys_distinct(keys: Seq<PosKey>) -> bool {
    forall|i: int, j: int| 0 <= i < j < keys.len() ==> keys[i] != keys[j]
}

// ---------------------------------------------------------------- split units

/// Names of the parts of an inline split unit, for errors.
pub open spec fn split_field_names() -> Seq<Seq<char>> {
    seq![
        "(1) surface"@,
        "(2) pos-1"@,
        "(3) pos-2"@,
        "(4) pos-3"@,
        "(5) pos-4"@,
        "(6) pos-conj-1"@,
        "(7) pos-conj-2"@,
        "(8) surface"@,
    ]
}

/// The first `n` parts of an inline split unit, unescaped; an error for the
/// first part that is missing or holds a bad escape.
pub open spec fn inline_fields(parts: Seq<Seq<char>>, original: Seq<char>, n: nat) -> Result<Seq<Seq<char>>, ReasonModel>
    decreases n,
{
    if n == 0 {
        Ok(Seq::empty())
    } else {
        match inline_fields(parts, original, (n - 1) as nat) {
            Ok(prev) => if n - 1 < parts.len() {
                match spec_unescape(parts[n - 1]) {
                    Ok(u) => Ok(prev.push(u)),
                    Err(e) => Err(e),
                }
            } else {
                Err(ReasonModel::SplitFormatError { field: split_field_names()[n - 1], original })
            },
            Err(e) => Err(e),
        }
    }
}

/// What parsing one split unit gives: a word reference, or an inline word
/// `surface,pos1,...,pos6,reading` whose part of speech is looked up.
pub open spec fn spec_parse_split(keys: Seq<PosKey>, s: Seq<char>) -> (Seq<PosKey>, Result<SplitModel, ReasonModel>) {
    if is_word_id_literal(s) {
        (keys, match spec_parse_wordid(s) {
            Ok(w) => Ok(SplitModel::Ref(w)),
            Err(e) => Err(e),
        })
    } else {
        match inline_fields(split_pieces(s, ',', Some(8)), s, 8) {
            Err(e) => (keys, Err(e)),
            Ok(f) => {
                let (k2, r) = spec_pos_of(keys, f.subrange(1, 7));
                match r {
                    Err(e) => (k2, Err(e)),
                    Ok(p) => (k2, Ok(SplitModel::Inline { surface: f[0], pos: p, reading: opt_if_differs(f[0], f[7]) })),
                }
            },
        }
    }
}

/// The split units of `parts`, in order, up to the first that fails.
pub open spec fn spec_split_items(keys: Seq<PosKey>, parts: Seq<Seq<char>>) -> (Seq<PosKey>, Result<Seq<SplitModel>, ReasonModel>)
    decreases parts.len(),
{
    if parts.len() == 0 {
        (keys, Ok(Seq::empty()))
    } else {
        let (k1, r1) = spec_split_items(keys, parts.drop_last());
        match r1 {
            Err(e) => (k1, Err(e)),
            Ok(prev) => {
                let (k2, r2) = spec_parse_split(k1, parts.last());
                match r2 {
                    Ok(u) => (k2, Ok(prev.push(u))),
                    Err(e) => (k2, Err(e)),
                }
            },
        }
    }
}

/// What parsing a split field gives: the units, and whether some of them
/// are inline and need resolving.
pub open spec fn spec_parse_splits(keys: Seq<PosKey>, s: Seq<char>) -> (Seq<PosKey>, Result<(Seq<SplitModel>, bool), ReasonModel>) {
    if is_empty_list(s) {
        (keys, Ok((Seq::empty(), false)))
    } else {
        let (k, r) = spec_split_items(keys, split_all(s, '/'));
        match check_list_len(r) {
            Ok(l) => (k, Ok((l, has_inline(l)))),
            Err(e) => (k, Err(e)),
        }
    }
}

/// What reading a split field of a record gives.
pub open spec fn split_field(keys: Seq<PosKey>, f: Seq<Seq<char>>, idx: int, name: Seq<char>) -> (Seq<PosKey>, Result<(Seq<SplitModel>, bool), ReasonModel>) {
    match record_field(f, idx, name) {
        Ok(s) => spec_parse_splits(keys, s),
        Err(e) => (keys, Err(e)),
    }
}

/// The reader with another part-of-speech table.
pub open spec fn with_pos(m: LexiconModel, pos: Seq<PosKey>) -> LexiconModel {
    LexiconModel { pos, entries: m.entries, needs_resolution: m.needs_resolution }
}

/// What parsing a record gives: the reader after it (parts of speech met
/// on the way stay in the table even when the record fails) and the entry,
/// or the error of the first field that fails. Headword, reading and
/// normalized form are kept only when they differ from the field they
/// default to.
pub open spec fn spec_parse_record(m: LexiconModel, f: Seq<Seq<char>>) -> (LexiconModel, Result<EntryModel, ReasonModel>) {
    match spec_record_head(f) {
        Err(e) => (m, Err(e)),
        Ok(h) => {
            let (k1, ra) = split_field(m.pos, f, 15, "(15) split-a"@);
            match ra {
                Err(e) => (with_pos(m, k1), Err(e)),
                Ok((sa, resolve_a)) => {
                    let (k2, rb) = split_field(k1, f, 16, "(16) split-b"@);
                    match rb {
                        Err(e) => (with_pos(m, k2), Err(e)),
                        Ok((sb, resolve_b)) => match spec_record_tail(f) {
                            Err(e) => (with_pos(m, k2), Err(e)),
                            Ok((ws, syn)) => {
                                let (k3, rp) = spec_pos_of(k2, h.pos);
                                match rp {
                                    Err(e) => (with_pos(m, k3), Err(e)),
                                    Ok(p) => if h.splitting == Mode::A && (sa.len() > 0 || sb.len() > 0) {
                                        (with_pos(m, k3), Err(ReasonModel::InvalidSplit("A-mode tokens can't have splits"@)))
                                    } else {
                                        let m2 = LexiconModel {
                                            pos: k3,
                                            entries: m.entries,
                                            needs_resolution: m.needs_resolution || resolve_a || resolve_b,
                                        };
                                        if h.surface.len() == 0 {
                                            (m2, Err(ReasonModel::EmptySurface))
                                        } else {
                                            (m2, Ok(EntryModel {
                                                left_id: h.left_id,
                                                right_id: h.right_id,
                                                cost: h.cost,
                                                surface: h.surface,
                                                headword: opt_if_differs(h.surface, h.headword),
                                                dic_form: h.dic_form,
                                                norm_form: opt_if_differs(h.headword, h.normalized),
                                                pos: p,
                                                splits_a: sa,
                                                splits_b: sb,
                                                reading: opt_if_differs(h.headword, h.reading),
                                                splitting: h.splitting,
                                                word_structure: ws,
                                                synonym_groups: syn,
                                            }))
                                        }
                                    },
                                }
                            },
                        },
                    }
                },
            }
        },
    }
}

/// What reading a record gives: its entry is added to the reader.
pub open spec fn spec_read_record(m: LexiconModel, f: Seq<Seq<char>>) -> (LexiconModel, Result<(), ReasonModel>) {
    let (m2, r) = spec_parse_record(m, f);
    match r {
        Ok(e) => (LexiconModel { pos: m2.pos, entries: m2.entries.push(e), needs_resolution: m2.needs_resolution }, Ok(())),
        Err(x) => (m2, Err(x)),
    }
}

/// What reading the records `rows` one after the other gives, up to the
/// first that fails.
pub open spec fn spec_read_records(m: LexiconModel, rows: Seq<Seq<Seq<char>>>) -> (LexiconModel, Result<(), ReasonModel>)
    decreases rows.len(),
{
    if rows.len() == 0 {
        (m, Ok(()))
    } else {
        let (m1, r1) = spec_read_records(m, rows.drop_last());
        match r1 {
            Err(e) => (m1, Err(e)),
            Ok(_) => spec_read_record(m1, rows.last()),
        }
    }
}

/// What reading the CSV outcomes `items` gives, after `n` records were
/// read: each record in turn is read, up to the first outcome that fails.
/// The result is the number of records read, or the error with the line it
/// is reported at (a CSV failure with no line is reported at line 0).
pub open spec fn spec_read_items(m: LexiconModel, items: Seq<CsvRow>, n: nat) -> (LexiconModel, Result<nat, (ReasonModel, u64)>)
    decreases items.len(),
{
    if items.len() == 0 {
        (m, Ok(n))
    } else {
        match items[0] {
            Err(l) => (m, Err((ReasonModel::CsvError, match l {
                Some(x) => x,
                None => 0u64,
            }))),
            Ok((f, l)) => {
                let (m1, r) = spec_read_record(m, f);
                match r {
                    Err(e) => (m1, Err((e, l))),
                    Ok(_) => spec_read_items(m1, items.drop_first(), n + 1),
                }
            },
        }
    }
}

/// The line of the input after reading `items` from line `line0`: that of
/// the last record, if there is one.
pub open spec fn line_after(items: Seq<CsvRow>, line0: usize) -> usize {
    if items.len() == 0 {
        line0
    } else {
        match items.last() {
            Ok((_, l)) => l as usize,
            Err(_) => line0,
        }
    }
}

/// The fields of the records among `items`.
pub open spec fn row_fields(items: Seq<CsvRow>) -> Seq<Seq<Seq<char>>> {
    items.map_values(|x: CsvRow| match x {
        Ok((f, _)) => f,
        Err(_) => Seq::<Seq<char>>::empty(),
    })
}

/// Whether every outcome among `items` is a record.
pub open spec fn all_rows_read(items: Seq<CsvRow>) -> bool {
    forall|i: int| 0 <= i < items.len() ==> #[trigger] items[i] is Ok
}

/// Whether reading `items` from `m` stops at outcome `k` with `out`: the
/// outcomes before it are records that are all read, and outcome `k` is a
/// CSV failure or a record that fails; the entries of the records before it
/// are kept.
pub open spec fn read_fails_at(m: LexiconModel, items: Seq<CsvRow>, k: int, out: (LexiconModel, Result<nat, (ReasonModel, u64)>)) -> bool {
    let before = spec_read_records(m, row_fields(items.take(k)));
    &&& 0 <= k < items.len()
    &&& all_rows_read(items.take(k))
    &&& before.1 is Ok
    &&& match items[k] {
        Err(l) => out == (before.0, Err::<nat, (ReasonModel, u64)>((ReasonModel::CsvError, match l {
            Some(x) => x,
            None => 0u64,
        }))),
        Ok((f, l)) => {
            let (m2, r) = spec_read_record(before.0, f);
            &&& r is Err
            &&& out == (m2, Err::<nat, (ReasonModel, u64)>((r->Err_0, l)))
        },
    }
}

// ---------------------------------------------------------------- the reader

/// The mathematical value of a [`LexiconReader`]: the parts of speech in
/// order of their ids, the entries read, and whether some entry holds an
/// inline split that needs resolving.
pub struct LexiconModel {
    pub pos: Seq<PosKey>,
    pub entries: Seq<EntryModel>,
    pub needs_resolution: bool,
}

/// Reads the CSV source of a lexicon into entries, giving each part of
/// speech an id in order of first appearance.
pub struct LexiconReader {
    pos: IndexMap<StrPosEntry, u16>,
    ctx: DicCompilationCtx,
    entries: Vec<RawLexiconEntry>,
    needs_resolution: bool,
}

pub open spec fn entries_view(v: Seq<RawLexiconEntry>) -> Seq<EntryModel> {
    v.map_values(|e: RawLexiconEntry| e@)
}

impl View for LexiconReader {
    type V = LexiconModel;

    closed spec fn view(&self) -> LexiconModel {
        LexiconModel {
            pos: pos_map_keys(self.pos),
            entries: entries_view(self.entries@),
            needs_resolution: self.needs_resolution,
        }
    }
}

impl LexiconReader {
    /// The invariant of the reader: the id of each part of speech is its
    /// place in the table, no part of speech occurs twice, each has six
    /// levels and every id fits.
    pub closed spec fn wf(&self) -> bool {
        let es = pos_map_entries(self.pos);
        &&& es.len() <= MAX_POS_IDS + 1
        &&& forall|i: int| 0 <= i < es.len() ==> #[trigger] es[i].1 == i
        &&& forall|i: int| 0 <= i < es.len() ==> (#[trigger] es[i].0).len() == POS_DEPTH
        &&& keys_distinct(pos_map_keys(self.pos))
    }

    /// What the invariant tells of the table: no part of speech occurs
    /// twice, there are at most `MAX_POS_IDS + 1` of them, and each has six
    /// levels.
    pub proof fn lemma_wf(&self)
        requires
            self.wf(),
        ensures
            keys_distinct(self@.pos),
            self@.pos.len() <= MAX_POS_IDS + 1,
            forall|i: int| 0 <= i < self@.pos.len() ==> (#[trigger] self@.pos[i]).len() == POS_DEPTH,
    {
        let es = pos_map_entries(self.pos);
        assert forall|i: int| 0 <= i < self@.pos.len() implies (#[trigger] self@.pos[i]).len() == POS_DEPTH by {
            assert(self@.pos[i] == es[i].0);
        }
    }

    /// Name of the input being read, as errors report it.
    pub closed spec fn input_name(&self) -> Seq<char> {
        self.ctx.name@
    }

    /// Line of the input being read, as errors report it.
    pub closed spec fn input_line(&self) -> usize {
        self.ctx.line
    }

    /// An empty reader.
    pub fn new() -> (res: LexiconReader)
        ensures
            res.wf(),
            res@.pos == Seq::<PosKey>::empty(),
            res@.entries == Seq::<EntryModel>::empty(),
            !res@.needs_resolution,
            res.input_name() == Seq::<char>::empty(),
            res.input_line() == 0,
    {
        let r = LexiconReader {
            pos: pos_map_new(),
            ctx: DicCompilationCtx::new(),
            entries: Vec::new(),
            needs_resolution: false,
        };
        proof {
            assert(pos_map_keys(r.pos) =~= Seq::<PosKey>::empty());
            assert(entries_view(r.entries@) =~= Seq::<EntryModel>::empty());
        }
        r
    }

    /// The entries read so far.
    pub fn entries(&self) -> (res: &[RawLexiconEntry])
        ensures
            entries_view(res@) == self@.entries,
    {
        self.entries.as_slice()
    }

    /// The part of speech with id `pos_id`, if there is one.
    pub fn pos_obj(&self, pos_id: u16) -> (res: Option<&StrPosEntry>)
        requires
            self.wf(),
        ensures
            res is Some <==> pos_id < self@.pos.len(),
            res matches Some(p) ==> p@ == self@.pos[pos_id as int],
    {
        match pos_map_get_index(&self.pos, pos_id as usize) {
            Some((k, v)) => {
                proof {
                    assert(pos_map_entries(self.pos)[pos_id as int].1 == pos_id);
                    assert(*v == pos_id);
                    assert(pos_map_keys(self.pos)[pos_id as int] == k@);
                }
                Some(k)
            },
            None => None,
        }
    }

    /// The id of the part of speech `data`: the one it already has, or the
    /// next free one, unless the table is full.
    pub fn pos_of(&mut self, data: [String; POS_DEPTH]) -> (res: DicWriteResult<u16>)
        requires
            old(self).wf(),
        ensures
            final(self).wf(),
            (final(self)@.pos, result_view(res)) == spec_pos_of(old(self)@.pos, strings_view(data@)),
            res matches Ok(id) ==> (id as int) < final(self)@.pos.len()
                && final(self)@.pos[id as int] == strings_view(data@),
            old(self)@.pos.is_prefix_of(final(self)@.pos),
            final(self)@.entries == old(self)@.entries,
            final(self)@.needs_resolution == old(self)@.needs_resolution,
            final(self).input_name() == old(self).input_name(),
            final(self).input_line() == old(self).input_line(),
    {
        let key = StrPosEntry::new(data);
        proof {
            self.lemma_wf();
            crate::laws::law_pos_of_stable(self@.pos, key@);
            crate::laws::lemma_pos_of_prefix(self@.pos, key@);
        }
        let ghost keys = pos_map_keys(self.pos);
        let ghost es = pos_map_entries(self.pos);
        proof {
            assert forall|i: int| 0 <= i < keys.len() implies #[trigger] keys[i] == es[i].0 by {}
            assert(pos_known(keys, key@) <==> has_key(es, key@)) by {
                if pos_known(keys, key@) {
                    let i = choose|i: int| 0 <= i < keys.len() && #[trigger] keys[i] == key@;
                    assert(es[i].0 == key@);
                }
                if has_key(es, key@) {
                    let i = choose|i: int| 0 <= i < es.len() && #[trigger] es[i].0 == key@;
                    assert(keys[i] == key@);
                }
            }
        }
        match pos_map_get(&self.pos, &key) {
            Some(p) => {
                proof {
                    let i = choose|i: int| 0 <= i < es.len() && #[trigger] es[i] == (key@, p);
                    assert(keys[i] == key@);
                    let j = pos_index(keys, key@);
                    assert(keys[j] == key@);
                    if i != j {
                        if i < j {
                            assert(keys[i] != keys[j]);
                        } else {
                            assert(keys[j] != keys[i]);
                        }
                    }
                    assert(es[i].1 == i);
                }
                Ok(p)
            },
            None => {
                let pos_id = pos_map_len(&self.pos);
                if pos_id > MAX_POS_IDS {
                    let msg = key.describe();
                    Err(DicWriteReason::PosLimitExceeded(msg))
                } else {
                    let id = pos_id as u16;
                    let ghost kv = key@;
                    pos_map_insert(&mut self.pos, key, id);
                    proof {
                        let es2 = pos_map_entries(self.pos);
                        assert(es2 == es.push((kv, id)));
                        assert(pos_map_keys(self.pos) =~= keys.push(kv));
                        assert forall|i: int, j: int| 0 <= i < j < es2.len() implies pos_map_keys(self.pos)[i] != pos_map_keys(self.pos)[j] by {
                            if j == es.len() {
                                assert(keys[i] != kv);
                            } else {
                                assert(keys[i] != keys[j]);
                            }
                        }
                        assert forall|i: int| 0 <= i < es2.len() implies #[trigger] es2[i].1 == i by {
                            if i < es.len() {
                                assert(es2[i] == es[i]);
                            }
                        }
                        assert forall|i: int| 0 <= i < es2.len() implies (#[trigger] es2[i].0).len() == POS_DEPTH by {
                            if i < es.len() {
                                assert(es2[i] == es[i]);
                            }
                        }
                    }
                    Ok(id)
                }
            },
        }
    }

    /// Parses one split unit: a word reference, or an inline word whose
    /// part of speech is looked up (and added when new).
    pub fn parse_split(&mut self, s: &Vec<char>) -> (res: DicWriteResult<SplitUnit>)
        requires
            old(self).wf(),
        ensures
            final(self).wf(),
            (final(self)@.pos, split_result_view(res)) == spec_parse_split(old(self)@.pos, s@),
            old(self)@.pos.is_prefix_of(final(self)@.pos),
            final(self)@.entries == old(self)@.entries,
            final(self)@.needs_resolution == old(self)@.needs_resolution,
            final(self).input_name() == old(self).input_name(),
            final(self).input_line() == old(self).input_line(),
    {
        proof {
            crate::laws::lemma_parse_split_prefix(self@.pos, s@);
        }
        if is_word_id_literal_exec(s) {
            return match parse_wordid(s) {
                Ok(w) => Ok(SplitUnit::Ref(w)),
                Err(e) => Err(e),
            };
        }
        let parts = split_chars(s, ',', Some(8));
        let ghost pv = chars_views(parts@);
        let mut fields: Vec<String> = Vec::new();
        let mut j: usize = 0;
        proof {
            assert(strings_view(fields@) =~= Seq::<Seq<char>>::empty());
        }
        while j < 8
            invariant
                j <= 8,
                fields@.len() == j,
                *self == *old(self),
                old(self).wf(),
                !is_word_id_literal(s@),
                pv == chars_views(parts@),
                pv == split_pieces(s@, ',', Some(8)),
                inline_fields(pv, s@, j as nat) == Ok::<Seq<Seq<char>>, ReasonModel>(strings_view(fields@)),
            decreases 8 - j,
        {
            if j < parts.len() {
                match unescape(&parts[j]) {
                    Ok(u) => {
                        proof {
                            assert(pv[j as int] == parts@[j as int]@);
                            assert(strings_view(fields@.push(u)) =~= strings_view(fields@).push(u@));
                        }
                        fields.push(u);
                    },
                    Err(e) => {
                        proof {
                            assert(pv[j as int] == parts@[j as int]@);
                            assert(inline_fields(pv, s@, (j + 1) as nat) == Err::<Seq<Seq<char>>, ReasonModel>(e@));
                            lemma_inline_fields_stop(pv, s@, (j + 1) as nat, 8);
                        }
                        return Err(e);
                    },
                }
            } else {
                proof {
                    lemma_inline_fields_stop(pv, s@, (j + 1) as nat, 8);
                }
                return Err(DicWriteReason::SplitFormatError {
                    field: split_field_name(j),
                    original: crate::text::string_from_chars(s),
                });
            }
            j = j + 1;
        }
        let ghost f = strings_view(fields@);
        let surface = fields[0].clone();
        let data: [String; POS_DEPTH] = [
            fields[1].clone(),
            fields[2].clone(),
            fields[3].clone(),
            fields[4].clone(),
            fields[5].clone(),
            fields[6].clone(),
        ];
        proof {
            assert(strings_view(data@) =~= f.subrange(1, 7));
        }
        let reading = fields[7].clone();
        let pos = match self.pos_of(data) {
            Ok(p) => p,
            Err(e) => {
                return Err(e);
            },
        };
        let reading = none_if_equal(&surface, reading);
        Ok(SplitUnit::Inline { surface, pos, reading })
    }
}

impl LexiconReader {
    /// Parses a split field: `*` or nothing for no split, else units
    /// separated by `/`; tells whether some unit is inline.
    pub fn parse_splits(&mut self, s: &Vec<char>) -> (res: DicWriteResult<(Vec<SplitUnit>, bool)>)
        requires
            old(self).wf(),
        ensures
            final(self).wf(),
            (final(self)@.pos, splits_result_view(res)) == spec_parse_splits(old(self)@.pos, s@),
            old(self)@.pos.is_prefix_of(final(self)@.pos),
            final(self)@.entries == old(self)@.entries,
            final(self)@.needs_resolution == old(self)@.needs_resolution,
            final(self).input_name() == old(self).input_name(),
            final(self).input_line() == old(self).input_line(),
    {
        proof {
            crate::laws::lemma_parse_splits_prefix(self@.pos, s@);
        }
        if s.len() == 0 || (s.len() == 1 && s[0] == '*') {
            let v: Vec<SplitUnit> = Vec::new();
            proof {
                assert(splits_view(v@) =~= Seq::<SplitModel>::empty());
            }
            return Ok((v, false));
        }
        let parts = split_chars(s, '/', None);
        let ghost pv = chars_views(parts@);
        let ghost keys0 = self@.pos;
        let mut out: Vec<SplitUnit> = Vec::new();
        let mut i: usize = 0;
        proof {
            assert(pv.take(0) =~= Seq::<Seq<char>>::empty());
            assert(splits_view(out@) =~= Seq::<SplitModel>::empty());
        }
        while i < parts.len()
            invariant
                i <= parts@.len(),
                pv == chars_views(parts@),
                pv == split_all(s@, '/'),
                !is_empty_list(s@),
                self.wf(),
                spec_split_items(keys0, pv.take(i as int)) == (self@.pos, Ok::<Seq<SplitModel>, ReasonModel>(splits_view(out@))),
                self@.entries == old(self)@.entries,
                self@.needs_resolution == old(self)@.needs_resolution,
                self.input_name() == old(self).input_name(),
                self.input_line() == old(self).input_line(),
                keys0 == old(self)@.pos,
                keys0.is_prefix_of(spec_parse_splits(keys0, s@).0),
            decreases parts@.len() - i,
        {
            proof {
                assert(pv.take(i + 1).drop_last() =~= pv.take(i as int));
                assert(pv.take(i + 1).last() == parts@[i as int]@);
            }
            match self.parse_split(&parts[i]) {
                Ok(u) => {
                    proof {
                        assert(splits_view(out@.push(u)) =~= splits_view(out@).push(u@));
                    }
                    out.push(u);
                },
                Err(e) => {
                    proof {
                        lemma_split_items_stop(keys0, pv, i + 1);
                    }
                    return Err(e);
                },
            }
            i = i + 1;
        }
        proof {
            assert(pv.take(i as int) =~= pv);
        }
        if out.len() > MAX_ARRAY_LEN {
            return Err(DicWriteReason::InvalidSize { actual: out.len(), expected: MAX_ARRAY_LEN });
        }
        let mut needs = false;
        let mut k: usize = 0;
        while k < out.len()
            invariant
                k <= out@.len(),
                needs == has_inline(splits_view(out@).take(k as int)),
            decreases out@.len() - k,
        {
            let inline = match &out[k] {
                SplitUnit::Inline { .. } => true,
                SplitUnit::Ref(_) => false,
            };
            proof {
                let sv = splits_view(out@);
                assert(sv.take(k + 1)[k as int] == sv[k as int]);
                if needs {
                    let w = choose|w: int| 0 <= w < sv.take(k as int).len() && #[trigger] sv.take(k as int)[w] is Inline;
                    assert(sv.take(k + 1)[w] == sv.take(k as int)[w]);
                }
                if has_inline(sv.take(k + 1)) && !inline {
                    let w = choose|w: int| 0 <= w < sv.take(k + 1).len() && #[trigger] sv.take(k + 1)[w] is Inline;
                    assert(sv.take(k as int)[w] == sv.take(k + 1)[w]);
                }
            }
            needs = needs || inline;
            k = k + 1;
        }
        proof {
            assert(splits_view(out@).take(k as int) =~= splits_view(out@));
        }
        Ok((out, needs))
    }
}

/// Once a unit failed, the later ones change nothing.
proof fn lemma_split_items_stop(keys: Seq<PosKey>, parts: Seq<Seq<char>>, k: int)
    requires
        0 <= k <= parts.len(),
        spec_split_items(keys, parts.take(k)).1 is Err,
    ensures
        spec_split_items(keys, parts) == spec_split_items(keys, parts.take(k)),
    decreases parts.len() - k,
{
    if k < parts.len() {
        assert(parts.take(k + 1).drop_last() =~= parts.take(k));
        lemma_split_items_stop(keys, parts, k + 1);
    } else {
        assert(parts.take(k) =~= parts);
    }
}

pub open spec fn splits_result_view(r: DicWriteResult<(Vec<SplitUnit>, bool)>) -> Result<(Seq<SplitModel>, bool), ReasonModel> {
    match r {
        Ok((v, b)) => Ok((splits_view(v@), b)),
        Err(e) => Err(e@),
    }
}

pub open spec fn entry_result_view(r: DicWriteResult<RawLexiconEntry>) -> Result<EntryModel, ReasonModel> {
    match r {
        Ok(e) => Ok(e@),
        Err(x) => Err(x@),
    }
}

impl LexiconReader {
    /// Parses a record into an entry, as `spec_parse_record` describes.
    #[verifier::rlimit(40)]
    fn parse_record_fields(&mut self, data: &StringRecord) -> (res: DicWriteResult<RawLexiconEntry>)
        requires
            old(self).wf(),
        ensures
            final(self).wf(),
            (final(self)@, entry_result_view(res)) == spec_parse_record(old(self)@, csv_record_fields(*data)),
            final(self).input_name() == old(self).input_name(),
            final(self).input_line() == old(self).input_line(),
    {
        let ghost f = csv_record_fields(*data);
        let ghost m = self@;
        let head = match read_head(data) {
            Ok(h) => h,
            Err(e) => return Err(e),
        };
        let ghost h = head_view(head);

        let ca = match field_chars(data, 15, "(15) split-a") {
            Ok(c) => c,
            Err(e) => return Err(e),
        };
        let (split_a, resolve_a) = match self.parse_splits(&ca) {
            Ok(r) => r,
            Err(e) => {
                proof {
                    assert(self@ == with_pos(m, self@.pos));
                }
                return Err(e);
            },
        };
        let ghost k1 = self@.pos;

        let cb = match field_chars(data, 16, "(16) split-b") {
            Ok(c) => c,
            Err(e) => {
                proof {
                    assert(self@ == with_pos(m, k1));
                }
                return Err(e);
            },
        };
        let (split_b, resolve_b) = match self.parse_splits(&cb) {
            Ok(r) => r,
            Err(e) => {
                proof {
                    assert(self@ == with_pos(m, self@.pos));
                }
                return Err(e);
            },
        };
        let ghost k2 = self@.pos;

        let (parts, synonyms) = match read_tail(data) {
            Ok(t) => t,
            Err(e) => {
                proof {
                    assert(self@ == with_pos(m, k2));
                }
                return Err(e);
            },
        };

        let pos = match self.pos_of(head.pos) {
            Ok(p) => p,
            Err(e) => {
                proof {
                    assert(self@ == with_pos(m, self@.pos));
                }
                return Err(e);
            },
        };

        if head.splitting == Mode::A {
            if split_a.len() > 0 || split_b.len() > 0 {
                proof {
                    assert(self@ == with_pos(m, self@.pos));
                }
                return Err(DicWriteReason::InvalidSplit("A-mode tokens can't have splits".to_owned()));
            }
        }

        self.needs_resolution = self.needs_resolution || resolve_a || resolve_b;

        if head.surface.as_str().is_empty() {
            return Err(DicWriteReason::EmptySurface);
        }

        let norm_form = none_if_equal(&head.headword, head.normalized);
        let reading = none_if_equal(&head.headword, head.reading);
        let headword = none_if_equal(&head.surface, head.headword);
        let entry = RawLexiconEntry {
            left_id: head.left_id,
            right_id: head.right_id,
            cost: head.cost,
            dic_form: head.dic_form,
            norm_form,
            reading,
            headword,
            surface: head.surface,
            pos,
            splitting: head.splitting,
            splits_a: split_a,
            splits_b: split_b,
            word_structure: parts,
            synonym_groups: synonyms,
        };
        Ok(entry)
    }
}

/// Field `k` of the flattened part-of-speech table (six per row).
pub open spec fn pos_table_field(keys: Seq<PosKey>, k: int) -> Seq<char> {
    keys[k / 6][k % 6]
}

/// The strings that the part-of-speech table is written as, row by row.
pub open spec fn pos_table_steps(keys: Seq<PosKey>) -> Seq<Result<Seq<u8>, ReasonModel>> {
    Seq::new((6 * keys.len()) as nat, |k: int| spec_write_string(pos_table_field(keys, k)))
}

impl LexiconReader {
    /// Parses a record into an entry. On failure the error carries the
    /// current input name and line, and the reader's input position is
    /// reset.
    pub fn parse_record(&mut self, data: &StringRecord) -> (res: SudachiResult<RawLexiconEntry>)
        requires
            old(self).wf(),
        ensures
            final(self).wf(),
            final(self)@ == spec_parse_record(old(self)@, csv_record_fields(*data)).0,
            old(self)@.pos.is_prefix_of(final(self)@.pos),
            res matches Ok(e) ==> (e.pos as int) < final(self)@.pos.len()
                && final(self)@.pos[e.pos as int] == spec_record_head(csv_record_fields(*data))->Ok_0.pos,
            match res {
                Ok(e) => {
                    &&& spec_parse_record(old(self)@, csv_record_fields(*data)).1 == Ok::<EntryModel, ReasonModel>(e@)
                    &&& final(self).input_name() == old(self).input_name()
                    &&& final(self).input_line() == old(self).input_line()
                },
                Err(err) => {
                    &&& spec_parse_record(old(self)@, csv_record_fields(*data)).1 == Err::<EntryModel, ReasonModel>(err.cause@)
                    &&& err.file@ == old(self).input_name()
                    &&& err.line == old(self).input_line()
                    &&& final(self).input_name() == Seq::<char>::empty()
                    &&& final(self).input_line() == 0
                },
            },
    {
        let mut ctx = DicCompilationCtx::new();
        std::mem::swap(&mut ctx, &mut self.ctx);
        let ghost m0 = self@;
        let r = self.parse_record_fields(data);
        proof {
            self.lemma_wf();
            crate::laws::law_parse_record(m0, csv_record_fields(*data));
        }
        match r {
            Ok(e) => {
                self.ctx = ctx;
                Ok(e)
            },
            Err(reason) => Err(ctx.to_sudachi_err(reason)),
        }
    }

    /// Parses a record and adds its entry.
    pub fn read_record(&mut self, data: &StringRecord) -> (res: SudachiResult<()>)
        requires
            old(self).wf(),
        ensures
            final(self).wf(),
            final(self)@ == spec_read_record(old(self)@, csv_record_fields(*data)).0,
            old(self)@.pos.is_prefix_of(final(self)@.pos),
            old(self)@.entries.is_prefix_of(final(self)@.entries),
            match res {
                Ok(_) => {
                    &&& spec_read_record(old(self)@, csv_record_fields(*data)).1 == Ok::<(), ReasonModel>(())
                    &&& final(self).input_name() == old(self).input_name()
                    &&& final(self).input_line() == old(self).input_line()
                },
                Err(err) => {
                    &&& spec_read_record(old(self)@, csv_record_fields(*data)).1 == Err::<(), ReasonModel>(err.cause@)
                    &&& err.file@ == old(self).input_name()
                    &&& err.line == old(self).input_line()
                },
            },
    {
        proof {
            crate::laws::law_read_record(self@, csv_record_fields(*data));
        }
        match self.parse_record(data) {
            Ok(e) => {
                let ghost before = self.entries@;
                self.entries.push(e);
                proof {
                    assert(entries_view(self.entries@) =~= entries_view(before).push(e@));
                }
                Ok(())
            },
            Err(err) => Err(err),
        }
    }

    /// Reads every record of the CSV text `data` (no header line, fields
    /// kept as they are, records of any length) and returns how many were
    /// read. Errors carry the input name and the line of the record.
    pub fn read_bytes(&mut self, data: &[u8]) -> (res: SudachiResult<usize>)
        requires
            old(self).wf(),
        ensures
            final(self).wf(),
            final(self)@ == spec_read_items(old(self)@, csv_rows(data@), 0).0,
            old(self)@.pos.is_prefix_of(final(self)@.pos),
            old(self)@.entries.is_prefix_of(final(self)@.entries),
            res is Ok <==> all_rows_read(csv_rows(data@))
                && spec_read_records(old(self)@, row_fields(csv_rows(data@))).1 is Ok,
            res matches Ok(n) ==> n == csv_rows(data@).len()
                && spec_read_records(old(self)@, row_fields(csv_rows(data@))) == (final(self)@, Ok::<(), ReasonModel>(())),
            res is Err ==> exists|k: int| #[trigger] read_fails_at(old(self)@, csv_rows(data@), k,
                spec_read_items(old(self)@, csv_rows(data@), 0)),
            match res {
                Ok(n) => {
                    &&& spec_read_items(old(self)@, csv_rows(data@), 0).1 == Ok::<nat, (ReasonModel, u64)>(n as nat)
                    &&& final(self).input_name() == old(self).input_name()
                    &&& final(self).input_line() == line_after(csv_rows(data@), old(self).input_line())
                },
                Err(err) => {
                    &&& spec_read_items(old(self)@, csv_rows(data@), 0).1 matches Err((c, l))
                        && err.cause@ == c && err.line == l as usize
                    &&& err.file@ == old(self).input_name()
                },
            },
    {
        proof {
            crate::laws::law_read_items(self@, csv_rows(data@), 0);
            crate::laws::law_read_items_keeps(self@, csv_rows(data@), 0);
        }
        self.read_csv(data)
    }

    /// Reads the records of `data` one by one, as `spec_read_items` says.
    fn read_csv(&mut self, data: &[u8]) -> (res: SudachiResult<usize>)
        requires
            old(self).wf(),
        ensures
            final(self).wf(),
            final(self)@ == spec_read_items(old(self)@, csv_rows(data@), 0).0,
            match res {
                Ok(n) => {
                    &&& spec_read_items(old(self)@, csv_rows(data@), 0).1 == Ok::<nat, (ReasonModel, u64)>(n as nat)
                    &&& final(self).input_name() == old(self).input_name()
                    &&& final(self).input_line() == line_after(csv_rows(data@), old(self).input_line())
                },
                Err(err) => {
                    &&& spec_read_items(old(self)@, csv_rows(data@), 0).1 matches Err((c, l))
                        && err.cause@ == c && err.line == l as usize
                    &&& err.file@ == old(self).input_name()
                },
            },
    {
        let mut reader = csv_reader_for(data);
        let mut record = csv_record_new();
        let start = self.entries.len();
        let ghost mut nread: nat = 0;
        let ghost m0 = self@;
        let ghost name0 = self.input_name();
        let ghost all = csv_rows(data@);
        let ghost line0 = self.input_line();
        proof {
            assert(all.subrange(0, all.len() as int) =~= all);
            assert(all.take(0) =~= Seq::<CsvRow>::empty());
        }
        loop
            invariant
                self.wf(),
                nread <= all.len(),
                csv_reader_rest(reader) == all.subrange(nread as int, all.len() as int),
                self.input_line() == line_after(all.take(nread as int), line0),
                line0 == old(self).input_line(),
                spec_read_items(self@, csv_reader_rest(reader), nread) == spec_read_items(m0, all, 0),
                self@.entries.len() == start + nread,
                self@.entries.len() == self.entries@.len(),
                start == m0.entries.len(),
                self.input_name() == name0,
                m0 == old(self)@,
                name0 == old(self).input_name(),
                all == csv_rows(data@),
            decreases csv_reader_rest(reader).len(),
        {
            let ghost rest = csv_reader_rest(reader);
            match csv_read_record(&mut reader, &mut record) {
                Err(e) => {
                    let line: usize = match csv_error_line(&e) {
                        Some(l) => l as usize,
                        None => 0,
                    };
                    self.ctx.set_line(line);
                    return Err(self.ctx.to_sudachi_err(DicWriteReason::CsvError(e)));
                },
                Ok(more) => {
                    if !more {
                        proof {
                            assert(all.take(nread as int) =~= all);
                        }
                        return Ok(self.entries.len() - start);
                    }
                    let line: usize = match csv_record_line(&record) {
                        Some(l) => l as usize,
                        None => 0,
                    };
                    self.ctx.set_line(line);
                    let ghost before = self@;
                    let r = self.read_record(&record);
                    proof {
                        crate::laws::law_read_record(before, csv_record_fields(record));
                    }
                    match r {
                        Ok(()) => {},
                        Err(err) => {
                            return Err(err);
                        },
                    }
                    proof {
                        assert(all[nread as int] == rest[0]);
                        assert(rest.drop_first() =~= all.subrange(nread as int + 1, all.len() as int));
                        assert(all.take(nread as int + 1).last() == all[nread as int]);
                        nread = nread + 1;
                    }
                },
            }
        }
    }

    /// Reads the CSV text `data` of the input named `name`: errors carry
    /// that name, and the reader's own input name is back to what it was
    /// afterwards.
    pub fn read_named(&mut self, name: String, data: &[u8]) -> (res: SudachiResult<usize>)
        requires
            old(self).wf(),
        ensures
            final(self).wf(),
            final(self).input_name() == old(self).input_name(),
            final(self)@ == spec_read_items(old(self)@, csv_rows(data@), 0).0,
            old(self)@.pos.is_prefix_of(final(self)@.pos),
            old(self)@.entries.is_prefix_of(final(self)@.entries),
            res is Ok <==> all_rows_read(csv_rows(data@))
                && spec_read_records(old(self)@, row_fields(csv_rows(data@))).1 is Ok,
            res matches Ok(n) ==> n == csv_rows(data@).len()
                && spec_read_records(old(self)@, row_fields(csv_rows(data@))) == (final(self)@, Ok::<(), ReasonModel>(())),
            res is Err ==> exists|k: int| #[trigger] read_fails_at(old(self)@, csv_rows(data@), k,
                spec_read_items(old(self)@, csv_rows(data@), 0)),
            match res {
                Ok(n) => {
                    &&& spec_read_items(old(self)@, csv_rows(data@), 0).1 == Ok::<nat, (ReasonModel, u64)>(n as nat)
                    &&& final(self).input_line() == line_after(csv_rows(data@), old(self).input_line())
                },
                Err(err) => {
                    &&& spec_read_items(old(self)@, csv_rows(data@), 0).1 matches Err((c, l))
                        && err.cause@ == c && err.line == l as usize
                    &&& err.file@ == name@
                },
            },
    {
        let old_name = self.ctx.set_filename(name);
        proof {
            assert(self@ == old(self)@);
        }
        let res = self.read_bytes(data);
        let ghost mid = self@;
        self.ctx.set_filename(old_name);
        proof {
            assert(self@ == mid);
        }
        res
    }

    /// Writes the part-of-speech table: the number of rows as eight
    /// little-endian bytes, then the six strings of each row in id order.
    /// The result counts the strings' bytes plus 4.
    pub fn write_pos_table(&self, w: &mut Vec<u8>) -> (res: SudachiResult<usize>)
        requires
            self.wf(),
        ensures
            final(w)@ == old(w)@ + le_u64(self@.pos.len() as u64) + run_steps(pos_table_steps(self@.pos)).0,
            match run_steps(pos_table_steps(self@.pos)).1 {
                None => res matches Ok(n) && n == 4 + run_steps(pos_table_steps(self@.pos)).0.len(),
                Some((k, r)) => res matches Err(err) && err.cause@ == r && err.file@ == "<pos-table>"@
                    && err.line == k / 6,
            },
    {
        let mut u16w = Utf16Writer::new();
        let n = pos_map_len(&self.pos);
        push_u64(w, n as u64);
        let mut count: usize = 4;
        let mut ctx = DicCompilationCtx::new();
        ctx.set_filename("<pos-table>".to_owned());
        let ghost keys = self@.pos;
        let ghost steps = pos_table_steps(keys);
        let ghost w0 = w@;
        let mut i: usize = 0;
        proof {
            assert(steps.take(0) =~= Seq::<Result<Seq<u8>, ReasonModel>>::empty());
            assert(w@.len() == w.len());
            assert(w0 =~= w0 + run_steps(steps.take(0)).0);
        }
        while i < n
            invariant
                self.wf(),
                n == keys.len(),
                keys == self@.pos,
                steps == pos_table_steps(keys),
                i <= n,
                w0 == old(w)@ + le_u64(keys.len() as u64),
                w0.len() >= 8,
                run_steps(steps.take(6 * i)).1 is None,
                w@ == w0 + run_steps(steps.take(6 * i)).0,
                count == 4 + run_steps(steps.take(6 * i)).0.len(),
                w@.len() <= usize::MAX,
                ctx.name@ == "<pos-table>"@,
                ctx.line == i,
            decreases n - i,
        {
            let row = match pos_map_get_index(&self.pos, i) {
                Some((k, _)) => k,
                None => {
                    proof {
                        assert(false);
                    }
                    return Ok(count);
                },
            };
            let fields = row.fields();
            proof {
                assert(row@ == keys[i as int]);
            }
            let mut j: usize = 0;
            while j < 6
                invariant
                    n == keys.len(),
                    steps == pos_table_steps(keys),
                    i < n,
                    j <= 6,
                    keys == self@.pos,
                    w0 == old(w)@ + le_u64(keys.len() as u64),
                    w0.len() >= 8,
                    strings_view(fields@) == keys[i as int],
                    fields@.len() == POS_DEPTH,
                    run_steps(steps.take(6 * i + j)).1 is None,
                    w@ == w0 + run_steps(steps.take(6 * i + j)).0,
                    count == 4 + run_steps(steps.take(6 * i + j)).0.len(),
                    w@.len() <= usize::MAX,
                    ctx.name@ == "<pos-table>"@,
                    ctx.line == i,
                decreases 6 - j,
            {
                let ghost k = 6 * i + j;
                proof {
                    assert(k / 6 == i && k % 6 == j);
                    assert(fields@[j as int]@ == keys[i as int][j as int]);
                    assert(steps[k] == spec_write_string(keys[i as int][j as int]));
                    lemma_run_steps_next(steps, k);
                }
                match u16w.write(w, fields[j].as_str()) {
                    Ok(written) => {
                        proof {
                            assert(w@.len() == w.len());
                        }
                        count = count + written;
                    },
                    Err(e) => {
                        proof {
                            lemma_run_steps_stop(steps, k + 1);
                        }
                        return Err(ctx.to_sudachi_err(e));
                    },
                }
                proof {
                    assert(w@ =~= w0 + run_steps(steps.take(k + 1)).0);
                    assert(w@.len() == w.len());
                }
                j = j + 1;
            }
            ctx.add_line(1);
            i = i + 1;
        }
        proof {
            assert(steps.take(6 * n) =~= steps);
        }
        Ok(count)
    }
}

/// Name of part `j` of an inline split unit.
fn split_field_name(j: usize) -> (res: &'static str)
    requires
        j < 8,
    ensures
        res@ == split_field_names()[j as int],
{
    if j == 0 {
        "(1) surface"
    } else if j == 1 {
        "(2) pos-1"
    } else if j == 2 {
        "(3) pos-2"
    } else if j == 3 {
        "(4) pos-3"
    } else if j == 4 {
        "(5) pos-4"
    } else if j == 5 {
        "(6) pos-conj-1"
    } else if j == 6 {
        "(7) pos-conj-2"
    } else {
        "(8) surface"
    }
}

/// Once a part failed, reading more parts changes nothing.
proof fn lemma_inline_fields_stop(parts: Seq<Seq<char>>, original: Seq<char>, k: nat, n: nat)
    requires
        k <= n,
        inline_fields(parts, original, k) is Err,
    ensures
        inline_fields(parts, original, n) == inline_fields(parts, original, k),
    decreases n - k,
{
    if k < n {
        lemma_inline_fields_stop(parts, original, k, (n - 1) as nat);
    }
}

pub open spec fn split_result_view(r: DicWriteResult<SplitUnit>) -> Result<SplitModel, ReasonModel> {
    match r {
        Ok(u) => Ok(u@),
        Err(e) => Err(e@),
    }
}

} // verus!
