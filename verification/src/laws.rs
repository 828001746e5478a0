use vstd::prelude::*;

use crate::entry::{model_headword, model_norm_form, model_reading};
use crate::error::ReasonModel;
use crate::record::spec_record_head;
use crate::lexicon::{
    keys_distinct, pos_index, pos_known, spec_parse_record, spec_parse_split,
    spec_pos_of, spec_read_record, spec_read_records, spec_split_items,
    split_field, LexiconModel, PosKey, MAX_POS_IDS, spec_read_items, row_fields, all_rows_read,
    read_fails_at,
};
use crate::csv_source::CsvRow;
use crate::dump::{dec_digits, digit_char, escape_char, join_slash, padded6, spec_escape, spec_gid_text};
use crate::numbers::{all_digits, is_radix_digit, radix_value};
use crate::parse::{
    escape_at, hex_run_end, is_empty_list, lemma_prepend_prepend, prepend, spec_parse_u32_list,
    spec_unescape, u32_items, u32_literal, unescape_from, unsigned_digits, Mode, MAX_ARRAY_LEN,
};
use crate::text::{find_from, pieces_from};
use crate::primitives::{len_prefix, MAX_DIC_STRING_LEN};
use crate::text::split_all;

verus! {

/// A part of speech that was given an id is found again under that id;
/// looking it up again gives the same id and leaves the table as it is;
/// the table keeps every part of speech once. A refused lookup changes
/// nothing.
pub proof fn law_pos_of_stable(keys: Seq<PosKey>, key: PosKey)
    requires
        keys_distinct(keys),
        keys.len() <= MAX_POS_IDS + 1,
    ensures
        spec_pos_of(keys, key).1 matches Ok(id) ==> {
            let keys2 = spec_pos_of(keys, key).0;
            &&& 0 <= id < keys2.len()
            &&& keys2[id as int] == key
            &&& keys_distinct(keys2)
            &&& keys2.len() <= MAX_POS_IDS + 1
            &&& spec_pos_of(keys2, key) == (keys2, Ok::<u16, ReasonModel>(id))
        },
        spec_pos_of(keys, key).1 is Err ==> spec_pos_of(keys, key).0 == keys,
{
    if pos_known(keys, key) {
        let i = pos_index(keys, key);
        assert(keys[i] == key);
    } else if keys.len() <= MAX_POS_IDS {
        let keys2 = keys.push(key);
        assert(keys2[keys.len() as int] == key);
        assert(keys_distinct(keys2)) by {
            assert forall|i: int, j: int| 0 <= i < j < keys2.len() implies keys2[i] != keys2[j] by {
                if j == keys.len() {
                    assert(keys2[i] == keys[i]);
                    if keys[i] == key {
                        assert(pos_known(keys, key));
                    }
                } else {
                    assert(keys2[i] == keys[i] && keys2[j] == keys[j]);
                }
            }
        }
        assert(pos_known(keys2, key));
        let j = pos_index(keys2, key);
        if j != keys.len() {
            assert(keys2[j] == keys[j]);
            assert(pos_known(keys, key));
        }
    }
}

/// Looking a part of speech up only ever adds at the end of the table.
pub proof fn lemma_pos_of_prefix(keys: Seq<PosKey>, key: PosKey)
    ensures
        keys.is_prefix_of(spec_pos_of(keys, key).0),
{
    if !pos_known(keys, key) && keys.len() <= MAX_POS_IDS {
        assert(keys.is_prefix_of(keys.push(key)));
    } else {
        assert(keys.is_prefix_of(keys));
    }
}

/// Parsing a split unit only ever adds at the end of the table.
pub proof fn lemma_parse_split_prefix(keys: Seq<PosKey>, s: Seq<char>)
    ensures
        keys.is_prefix_of(spec_parse_split(keys, s).0),
{
    if crate::parse::is_word_id_literal(s) {
        assert(keys.is_prefix_of(keys));
    } else {
        match crate::lexicon::inline_fields(crate::text::split_pieces(s, ',', Some(8)), s, 8) {
            Err(_) => {
                assert(keys.is_prefix_of(keys));
            },
            Ok(f) => {
                lemma_pos_of_prefix(keys, f.subrange(1, 7));
            },
        }
    }
}

proof fn lemma_split_items_prefix(keys: Seq<PosKey>, parts: Seq<Seq<char>>)
    ensures
        keys.is_prefix_of(spec_split_items(keys, parts).0),
    decreases parts.len(),
{
    if parts.len() == 0 {
        assert(keys.is_prefix_of(keys));
    } else {
        lemma_split_items_prefix(keys, parts.drop_last());
        let (k1, r1) = spec_split_items(keys, parts.drop_last());
        if r1 is Ok {
            lemma_parse_split_prefix(k1, parts.last());
        }
    }
}

/// Parsing a split field only ever adds at the end of the table.
pub proof fn lemma_parse_splits_prefix(keys: Seq<PosKey>, s: Seq<char>)
    ensures
        keys.is_prefix_of(crate::lexicon::spec_parse_splits(keys, s).0),
{
    assert(keys.is_prefix_of(keys));
    if !crate::parse::is_empty_list(s) {
        lemma_split_items_prefix(keys, split_all(s, '/'));
    }
}

proof fn lemma_split_field_prefix(keys: Seq<PosKey>, f: Seq<Seq<char>>, idx: int, name: Seq<char>)
    ensures
        keys.is_prefix_of(split_field(keys, f, idx, name).0),
{
    assert(keys.is_prefix_of(keys));
    if 0 <= idx < f.len() && !crate::parse::is_empty_list(f[idx]) {
        lemma_split_items_prefix(keys, split_all(f[idx], '/'));
    }
}

/// Reading a record never takes an id back nor moves one: the table of the
/// reader after it starts with the table before it, and the entries are
/// left as they were. When the record is taken, its entry has a surface,
/// its headword, normalized form and reading (after their defaults) are the
/// fields of the record, and an entry in splitting mode A has no splits;
/// when the table after it holds at most `MAX_POS_IDS + 1` parts of speech,
/// the entry's id names the record's part of speech in it.
pub proof fn law_parse_record(m: LexiconModel, f: Seq<Seq<char>>)
    ensures
        m.pos.is_prefix_of(spec_parse_record(m, f).0.pos),
        spec_parse_record(m, f).0.entries == m.entries,
        spec_parse_record(m, f).1 matches Ok(e) ==> {
            let h = spec_record_head(f)->Ok_0;
            &&& spec_record_head(f) is Ok
            &&& e.surface == h.surface
            &&& e.surface.len() > 0
            &&& model_headword(e) == h.headword
            &&& model_norm_form(e) == h.normalized
            &&& model_reading(e) == h.reading
            &&& (e.splitting == Mode::A ==> e.splits_a.len() == 0 && e.splits_b.len() == 0)
        },
        spec_parse_record(m, f).0.pos.len() <= MAX_POS_IDS + 1 ==> (spec_parse_record(m, f).1 matches Ok(e) ==> {
            &&& (e.pos as int) < spec_parse_record(m, f).0.pos.len()
            &&& spec_parse_record(m, f).0.pos[e.pos as int] == spec_record_head(f)->Ok_0.pos
        }),
{
    match spec_record_head(f) {
        Err(_) => {
            assert(m.pos.is_prefix_of(m.pos));
        },
        Ok(h) => {
            lemma_split_field_prefix(m.pos, f, 15, "(15) split-a"@);
            let (k1, ra) = split_field(m.pos, f, 15, "(15) split-a"@);
            lemma_split_field_prefix(k1, f, 16, "(16) split-b"@);
            let (k2, rb) = split_field(k1, f, 16, "(16) split-b"@);
            lemma_pos_of_prefix(k2, h.pos);
            let (k3, rp) = spec_pos_of(k2, h.pos);
            if pos_known(k2, h.pos) {
                let i = pos_index(k2, h.pos);
                assert(k2[i] == h.pos);
            } else if k2.len() <= MAX_POS_IDS {
                assert(k3[k2.len() as int] == h.pos);
            }
        },
    }
}

/// Reading a record that is taken adds exactly its entry at the end.
pub proof fn law_read_record(m: LexiconModel, f: Seq<Seq<char>>)
    ensures
        spec_read_record(m, f).1 is Ok ==> {
            &&& spec_parse_record(m, f).1 is Ok
            &&& spec_read_record(m, f).0.entries == m.entries.push(spec_parse_record(m, f).1->Ok_0)
        },
        spec_read_record(m, f).1 is Err ==> spec_read_record(m, f).0.entries == m.entries,
        m.pos.is_prefix_of(spec_read_record(m, f).0.pos),
{
    law_parse_record(m, f);
}

/// Reading records one after the other never takes an id back, and keeps
/// every entry read before; when all are taken, there is one entry per
/// record.
pub proof fn law_read_records(m: LexiconModel, rows: Seq<Seq<Seq<char>>>)
    ensures
        m.pos.is_prefix_of(spec_read_records(m, rows).0.pos),
        m.entries.is_prefix_of(spec_read_records(m, rows).0.entries),
        spec_read_records(m, rows).1 is Ok ==> spec_read_records(m, rows).0.entries.len() == m.entries.len() + rows.len(),
    decreases rows.len(),
{
    if rows.len() == 0 {
        assert(m.pos.is_prefix_of(m.pos));
        assert(m.entries.is_prefix_of(m.entries));
    } else {
        law_read_records(m, rows.drop_last());
        let (m1, r1) = spec_read_records(m, rows.drop_last());
        if r1 is Ok {
            law_read_record(m1, rows.last());
            let m2 = spec_read_record(m1, rows.last()).0;
            assert(m.entries.is_prefix_of(m2.entries)) by {
                if spec_read_record(m1, rows.last()).1 is Ok {
                    assert forall|i: int| 0 <= i < m.entries.len() implies m2.entries[i] == m.entries[i] by {
                        assert(m2.entries[i] == m1.entries[i]);
                    }
                }
            }
            assert(m.pos.is_prefix_of(m2.pos)) by {
                assert forall|i: int| 0 <= i < m.pos.len() implies m2.pos[i] == m.pos[i] by {
                    assert(m2.pos[i] == m1.pos[i]);
                }
            }
        }
    }
}

proof fn lemma_unescape_plain_from(s: Seq<char>, i: int)
    requires
        0 <= i <= s.len(),
        forall|j: int| 0 <= j < s.len() ==> s[j] != '\\',
    ensures
        unescape_from(s, i) == Ok::<Seq<char>, ReasonModel>(s.subrange(i, s.len() as int)),
    decreases s.len() - i,
{
    if i < s.len() {
        assert(escape_at(s, i) is None);
        lemma_unescape_plain_from(s, i + 1);
        assert(seq![s[i]] + s.subrange(i + 1, s.len() as int) =~= s.subrange(i, s.len() as int));
    } else {
        assert(s.subrange(i, s.len() as int) =~= Seq::<char>::empty());
    }
}

/// A field without a backslash is taken as it is.
pub proof fn law_unescape_plain(s: Seq<char>)
    requires
        forall|j: int| 0 <= j < s.len() ==> s[j] != '\\',
    ensures
        spec_unescape(s) == Ok::<Seq<char>, ReasonModel>(s),
{
    lemma_unescape_plain_from(s, 0);
    assert(s.subrange(0, s.len() as int) =~= s);
}

/// Two lengths that a dictionary can hold never get the same prefix.
pub proof fn law_len_prefix_injective(a: nat, b: nat)
    requires
        a <= MAX_DIC_STRING_LEN,
        b <= MAX_DIC_STRING_LEN,
        len_prefix(a) == len_prefix(b),
    ensures
        a == b,
{
    if a < 127 && b < 127 {
        assert(len_prefix(a)[0] == a as u8);
        assert(len_prefix(b)[0] == b as u8);
        assert((a as u8) as int == a);
        assert((b as u8) as int == b);
        assert(a == b);
    } else if a >= 127 && b >= 127 {
        assert(len_prefix(a)[0] == len_prefix(b)[0]);
        assert(len_prefix(a)[1] == len_prefix(b)[1]);
        assert(((a / 256 + 0x80) as u8) as int == a / 256 + 0x80);
        assert(((b / 256 + 0x80) as u8) as int == b / 256 + 0x80);
        assert(((a % 256) as u8) as int == a % 256);
        assert(((b % 256) as u8) as int == b % 256);
        assert(a == (a / 256) * 256 + a % 256);
        assert(b == (b / 256) * 256 + b % 256);
        assert(a / 256 == b / 256);
        assert(a % 256 == b % 256);
        assert(a == b);
    } else {
        assert(len_prefix(a).len() != len_prefix(b).len());
    }
}

// ---------------------------------------------------------------- dumps

proof fn lemma_hex_run_end_shift(a: Seq<char>, b: Seq<char>, k: int)
    requires
        0 <= k <= b.len(),
    ensures
        hex_run_end(a + b, a.len() + k) == a.len() + hex_run_end(b, k),
    decreases b.len() - k,
{
    if k < b.len() {
        assert((a + b)[a.len() + k] == b[k]);
        lemma_hex_run_end_shift(a, b, k + 1);
    }
}

/// Where an escape starts only the text from there on counts.
proof fn lemma_escape_at_shift(a: Seq<char>, b: Seq<char>, j: int)
    requires
        0 <= j < b.len(),
    ensures
        escape_at(a + b, a.len() + j) == (match escape_at(b, j) {
            Some((x, y, z)) => Some((x + a.len(), y + a.len(), z + a.len())),
            None => None,
        }),
        escape_at(b, j) matches Some((x, y, z)) ==> (a + b).subrange(x + a.len(), y + a.len()) == b.subrange(x, y),
{
    let t = a + b;
    let l = a.len() as int;
    assert forall|m: int| j <= m < b.len() implies t[l + m] == b[m] by {}
    if j + 6 <= b.len() {
        assert(t.subrange(l + j + 2, l + j + 6) =~= b.subrange(j + 2, j + 6));
    }
    if j + 3 <= b.len() {
        lemma_hex_run_end_shift(a, b, j + 3);
    }
    if let Some((x, y, z)) = escape_at(b, j) {
        assert(t.subrange(x + l, y + l) =~= b.subrange(x, y));
    }
}

/// Unescaping reads forward only: what comes before the point does not
/// matter.
proof fn lemma_unescape_from_shift(a: Seq<char>, b: Seq<char>, j: int)
    requires
        0 <= j <= b.len(),
    ensures
        unescape_from(a + b, a.len() + j) == unescape_from(b, j),
    decreases b.len() - j,
{
    let t = a + b;
    let l = a.len() as int;
    if j < b.len() {
        lemma_escape_at_shift(a, b, j);
        assert(t[l + j] == b[j]);
        match escape_at(b, j) {
            Some((x, y, z)) => {
                crate::parse::lemma_hex_run_end(b, j + 3);
                lemma_unescape_from_shift(a, b, z);
            },
            None => {
                lemma_unescape_from_shift(a, b, j + 1);
            },
        }
    }
}

proof fn lemma_hex_pair(d: char)
    requires
        d == '2' || d == 'c',
    ensures
        all_digits(seq!['0', '0', '2', d], 16),
        radix_value(seq!['0', '0', '2', d], 16) == 32 + (if d == '2' { 2int } else { 12int }),
{
    let s = seq!['0', '0', '2', d];
    assert(s.drop_last() =~= seq!['0', '0', '2']);
    assert(s.drop_last().drop_last() =~= seq!['0', '0']);
    assert(s.drop_last().drop_last().drop_last() =~= seq!['0']);
    assert(s.drop_last().drop_last().drop_last().drop_last() =~= Seq::<char>::empty());
    assert(radix_value(Seq::<char>::empty(), 16) == 0);
    assert(radix_value(seq!['0'], 16) == 0);
    assert(radix_value(seq!['0', '0'], 16) == 0);
    assert(radix_value(seq!['0', '0', '2'], 16) == 2);
}

/// One dumped character reads back as that character.
proof fn lemma_escape_char_read(c: char, b: Seq<char>)
    requires
        c != '\\',
    ensures
        unescape_from(escape_char(c) + b, 0) == prepend(seq![c], unescape_from(b, 0)),
{
    let seg = escape_char(c);
    let t = seg + b;
    lemma_unescape_from_shift(seg, b, 0);
    if c == '"' || c == ',' {
        let d = if c == '"' { '2' } else { 'c' };
        assert(seg =~= seq!['\\', 'u', '0', '0', '2', d]);
        assert(t.subrange(2, 6) =~= seq!['0', '0', '2', d]);
        lemma_hex_pair(d);
        assert(escape_at(t, 0) == Some((2int, 6int, 6int)));
        let v = radix_value(t.subrange(2, 6), 16);
        assert(v as char == c);
    } else {
        assert(seg =~= seq![c]);
        assert(t[0] == c);
        assert(escape_at(t, 0) is None);
    }
}

proof fn lemma_escape_read(s: Seq<char>, b: Seq<char>)
    requires
        forall|j: int| 0 <= j < s.len() ==> s[j] != '\\',
    ensures
        unescape_from(spec_escape(s) + b, 0) == prepend(s, unescape_from(b, 0)),
    decreases s.len(),
{
    if s.len() == 0 {
        assert(spec_escape(s) + b =~= b);
        match unescape_from(b, 0) {
            Ok(t) => {
                assert(s + t =~= t);
            },
            Err(_) => {},
        }
    } else {
        let rest = s.drop_first();
        assert forall|j: int| 0 <= j < rest.len() implies rest[j] != '\\' by {
            assert(rest[j] == s[j + 1]);
        }
        lemma_escape_read(rest, b);
        assert(spec_escape(s) + b =~= escape_char(s[0]) + (spec_escape(rest) + b));
        lemma_escape_char_read(s[0], spec_escape(rest) + b);
        lemma_prepend_prepend(seq![s[0]], rest, unescape_from(b, 0));
        assert(seq![s[0]] + rest =~= s);
    }
}

proof fn lemma_escape_no_separators(s: Seq<char>)
    ensures
        forall|j: int| 0 <= j < spec_escape(s).len() ==> spec_escape(s)[j] != ',' && spec_escape(s)[j] != '"',
    decreases s.len(),
{
    if s.len() > 0 {
        lemma_escape_no_separators(s.drop_first());
        let seg = escape_char(s[0]);
        let rest = spec_escape(s.drop_first());
        assert forall|j: int| 0 <= j < spec_escape(s).len() implies spec_escape(s)[j] != ',' && spec_escape(s)[j] != '"' by {
            if j < seg.len() {
                assert(spec_escape(s)[j] == seg[j]);
            } else {
                assert(spec_escape(s)[j] == rest[j - seg.len()]);
            }
        }
    }
}

/// A field written into a dump holds neither `,` nor `"`, and reading it
/// back gives the same text, when that text holds no backslash.
pub proof fn law_escape_round_trip(s: Seq<char>)
    requires
        forall|j: int| 0 <= j < s.len() ==> s[j] != '\\',
    ensures
        spec_unescape(spec_escape(s)) == Ok::<Seq<char>, ReasonModel>(s),
        forall|j: int| 0 <= j < spec_escape(s).len() ==> spec_escape(s)[j] != ',' && spec_escape(s)[j] != '"',
{
    lemma_escape_read(s, Seq::empty());
    assert(spec_escape(s) + Seq::<char>::empty() =~= spec_escape(s));
    assert(s + Seq::<char>::empty() =~= s);
    lemma_escape_no_separators(s);
}

proof fn lemma_dec_digits(n: nat)
    ensures
        dec_digits(n).len() >= 1,
        all_digits(dec_digits(n), 10),
        radix_value(dec_digits(n), 10) == n,
    decreases n,
{
    if n < 10 {
        let d = dec_digits(n);
        assert(d.drop_last() =~= Seq::<char>::empty());
        assert(digit_char(n as int) as u32 == 48 + n);
        assert(is_radix_digit(d[0], 10));
        assert(radix_value(Seq::<char>::empty(), 10) == 0);
        assert(crate::numbers::digit_value(d.last()) == n);
    } else {
        lemma_dec_digits(n / 10);
        let d = dec_digits(n);
        let p = dec_digits(n / 10);
        assert(d.drop_last() =~= p);
        assert(digit_char((n % 10) as int) as u32 == 48 + n % 10);
        assert(crate::numbers::digit_value(d.last()) == n % 10);
        assert(n == (n / 10) * 10 + n % 10);
        assert forall|i: int| 0 <= i < d.len() implies #[trigger] is_radix_digit(d[i], 10) by {
            if i < p.len() {
                assert(d[i] == p[i]);
            }
        }
    }
}

proof fn lemma_zeros_value(k: nat, d: Seq<char>)
    ensures
        radix_value(Seq::new(k, |i: int| '0') + d, 10) == radix_value(d, 10) + radix_value(Seq::new(k, |i: int| '0'), 10) * pow10(d.len()),
        radix_value(Seq::new(k, |i: int| '0'), 10) == 0,
    decreases k + d.len(),
{
    let z = Seq::new(k, |i: int| '0');
    if d.len() == 0 {
        assert(z + d =~= z);
        if k > 0 {
            assert(z.drop_last() =~= Seq::new((k - 1) as nat, |i: int| '0'));
            lemma_zeros_value((k - 1) as nat, d);
        }
    } else {
        assert((z + d).drop_last() =~= z + d.drop_last());
        lemma_zeros_value(k, d.drop_last());
    }
}

spec fn pow10(n: nat) -> int
    decreases n,
{
    if n == 0 {
        1
    } else {
        10 * pow10((n - 1) as nat)
    }
}

proof fn lemma_padded6(n: u32)
    ensures
        u32_literal(padded6(n as nat)) == Some(n),
        padded6(n as nat).len() >= 1,
        crate::numbers::is_dec_digit(padded6(n as nat)[0]),
        forall|j: int| 0 <= j < padded6(n as nat).len() ==> padded6(n as nat)[j] != '/',
{
    let d = dec_digits(n as nat);
    lemma_dec_digits(n as nat);
    let p = padded6(n as nat);
    if d.len() < 6 {
        let k = (6 - d.len()) as nat;
        let z = Seq::new(k, |i: int| '0');
        lemma_zeros_value(k, d);
        assert(p == z + d);
        assert forall|i: int| 0 <= i < p.len() implies #[trigger] is_radix_digit(p[i], 10) by {
            if i >= k {
                assert(p[i] == d[i - k]);
            }
        }
    }
    assert(is_radix_digit(p[0], 10));
    assert(unsigned_digits(p, false) == p);
    assert forall|j: int| 0 <= j < p.len() implies p[j] != '/' by {
        assert(is_radix_digit(p[j], 10));
    }
}

proof fn lemma_find_from_at(s: Seq<char>, start: int, k: int, c: char)
    requires
        0 <= start <= k <= s.len(),
        forall|j: int| start <= j < k ==> s[j] != c,
        k == s.len() || s[k] == c,
    ensures
        find_from(s, start, c) == k,
    decreases k - start,
{
    if start < k {
        lemma_find_from_at(s, start + 1, k, c);
    }
}

/// Cutting a `/`-joined text at `/` gives back its pieces, when no piece
/// holds `/`.
proof fn lemma_split_join(s: Seq<char>, start: int, ps: Seq<Seq<char>>)
    requires
        ps.len() >= 1,
        0 <= start <= s.len(),
        s.subrange(start, s.len() as int) == join_slash(ps),
        forall|i: int, j: int| 0 <= i < ps.len() && 0 <= j < ps[i].len() ==> ps[i][j] != '/',
    ensures
        pieces_from(s, start, '/', None) == ps,
    decreases ps.len(),
{
    let p0 = ps[0];
    if ps.len() == 1 {
        assert forall|j: int| start <= j < s.len() implies s[j] != '/' by {
            assert(s[j] == s.subrange(start, s.len() as int)[j - start]);
        }
        lemma_find_from_at(s, start, s.len() as int, '/');
        assert(seq![s.subrange(start, s.len() as int)] =~= ps);
    } else {
        let rest = ps.drop_first();
        let k = start + p0.len();
        assert(join_slash(ps) == p0 + seq!['/'] + join_slash(rest));
        assert forall|j: int| start <= j < k implies s[j] != '/' by {
            assert(s[j] == s.subrange(start, s.len() as int)[j - start]);
            assert(s.subrange(start, s.len() as int)[j - start] == p0[j - start]);
        }
        assert(s[k] == s.subrange(start, s.len() as int)[k - start]);
        lemma_find_from_at(s, start, k, '/');
        assert(s.subrange(start, k) =~= p0);
        let t = s.subrange(start, s.len() as int);
        assert(t =~= p0 + seq!['/'] + join_slash(rest));
        assert(s.subrange(k + 1, s.len() as int) =~= t.subrange(p0.len() + 1int, t.len() as int));
        assert(t.subrange(p0.len() + 1int, t.len() as int) =~= join_slash(rest));
        assert forall|i: int, j: int| 0 <= i < rest.len() && 0 <= j < rest[i].len() implies rest[i][j] != '/' by {
            assert(rest[i] == ps[i + 1]);
        }
        lemma_split_join(s, k + 1, rest);
        assert(seq![p0] + rest =~= ps);
    }
}

proof fn lemma_u32_items_padded(v: Seq<u32>)
    ensures
        u32_items(v.map_values(|n: u32| padded6(n as nat))) == Ok::<Seq<u32>, ReasonModel>(v),
    decreases v.len(),
{
    let ps = v.map_values(|n: u32| padded6(n as nat));
    if v.len() > 0 {
        lemma_u32_items_padded(v.drop_last());
        assert(ps.drop_last() =~= v.drop_last().map_values(|n: u32| padded6(n as nat)));
        lemma_padded6(v.last());
        assert(ps.last() == padded6(v.last() as nat));
        assert(crate::parse::spec_parse_u32(ps.last()) == Ok::<u32, ReasonModel>(v.last()));
        assert(v.drop_last().push(v.last()) =~= v);
        assert(u32_items(ps.drop_last()) == Ok::<Seq<u32>, ReasonModel>(v.drop_last()));
        assert(u32_items(ps) == Ok::<Seq<u32>, ReasonModel>(v.drop_last().push(v.last())));
    } else {
        assert(ps =~= Seq::<Seq<char>>::empty());
        assert(v =~= Seq::<u32>::empty());
    }
}

/// A dumped list of synonym groups reads back as the same list.
pub proof fn law_gid_text_round_trip(v: Seq<u32>)
    requires
        v.len() <= MAX_ARRAY_LEN,
    ensures
        spec_parse_u32_list(spec_gid_text(v)) == Ok::<Seq<u32>, ReasonModel>(v),
{
    if v.len() == 0 {
        assert(is_empty_list(seq!['*']));
        assert(v =~= Seq::<u32>::empty());
    } else {
        let ps = v.map_values(|n: u32| padded6(n as nat));
        let t = join_slash(ps);
        assert forall|i: int, j: int| 0 <= i < ps.len() && 0 <= j < ps[i].len() implies ps[i][j] != '/' by {
            lemma_padded6(v[i]);
        }
        assert(t.subrange(0, t.len() as int) =~= t);
        lemma_split_join(t, 0, ps);
        lemma_u32_items_padded(v);
        lemma_padded6(v[0]);
        lemma_join_first(ps);
        assert(!is_empty_list(t));
    }
}

proof fn lemma_join_first(ps: Seq<Seq<char>>)
    requires
        ps.len() >= 1,
        ps[0].len() >= 1,
    ensures
        join_slash(ps).len() >= ps[0].len(),
        join_slash(ps)[0] == ps[0][0],
{
    if ps.len() > 1 {
        assert(join_slash(ps) == ps[0] + seq!['/'] + join_slash(ps.drop_first()));
    }
}


/// Reading the records `a` and then the records `b` is reading `a + b`:
/// when some record of `a` fails, the records of `b` are not read.
pub proof fn law_read_records_append(m: LexiconModel, a: Seq<Seq<Seq<char>>>, b: Seq<Seq<Seq<char>>>)
    ensures
        spec_read_records(m, a + b) == (if spec_read_records(m, a).1 is Ok {
            spec_read_records(spec_read_records(m, a).0, b)
        } else {
            spec_read_records(m, a)
        }),
    decreases b.len(),
{
    if b.len() == 0 {
        assert(a + b =~= a);
    } else {
        law_read_records_append(m, a, b.drop_last());
        assert((a + b).drop_last() =~= a + b.drop_last());
        assert((a + b).last() == b.last());
    }
}

proof fn lemma_row_fields_take(items: Seq<CsvRow>, k: int)
    requires
        0 <= k < items.len(),
    ensures
        row_fields(items.take(k + 1)) == seq![row_fields(items)[0]] + row_fields(items.drop_first().take(k)),
        row_fields(items) == seq![row_fields(items)[0]] + row_fields(items.drop_first()),
{
    assert(row_fields(items.take(k + 1)) =~= seq![row_fields(items)[0]] + row_fields(items.drop_first().take(k)));
    assert(row_fields(items) =~= seq![row_fields(items)[0]] + row_fields(items.drop_first()));
}

/// Reading records from the front: the first record, then the others.
proof fn lemma_read_records_front(m: LexiconModel, f: Seq<Seq<char>>, rest: Seq<Seq<Seq<char>>>)
    ensures
        spec_read_records(m, seq![f] + rest) == (if spec_read_record(m, f).1 is Ok {
            spec_read_records(spec_read_record(m, f).0, rest)
        } else {
            spec_read_record(m, f)
        }),
{
    law_read_records_append(m, seq![f], rest);
    assert(seq![f].drop_last() =~= Seq::<Seq<Seq<char>>>::empty());
    assert(spec_read_records(m, seq![f].drop_last()) == (m, Ok::<(), ReasonModel>(())));
}

/// The step of `law_read_items` where the first outcome is a record that is
/// read.
#[verifier::spinoff_prover]
#[verifier::rlimit(40)]
proof fn lemma_read_items_step(m: LexiconModel, items: Seq<CsvRow>, n: nat)
    requires
        items.len() > 0,
        items[0] is Ok,
        spec_read_record(m, items[0]->Ok_0.0).1 is Ok,
        ({
            let m1 = spec_read_record(m, items[0]->Ok_0.0).0;
            let rest = items.drop_first();
            let out = spec_read_items(m1, rest, n + 1);
            &&& out.1 is Ok <==> (all_rows_read(rest) && spec_read_records(m1, row_fields(rest)).1 is Ok)
            &&& out.1 is Ok ==> out.1 == Ok::<nat, (ReasonModel, u64)>(n + 1 + rest.len())
                && out.0 == spec_read_records(m1, row_fields(rest)).0
            &&& out.1 is Err ==> exists|k: int| #[trigger] read_fails_at(m1, rest, k, out)
        }),
    ensures
        spec_read_items(m, items, n).1 is Ok <==> (all_rows_read(items)
            && spec_read_records(m, row_fields(items)).1 is Ok),
        spec_read_items(m, items, n).1 is Ok ==> {
            &&& spec_read_items(m, items, n).1 == Ok::<nat, (ReasonModel, u64)>(n + items.len())
            &&& spec_read_items(m, items, n).0 == spec_read_records(m, row_fields(items)).0
        },
        spec_read_items(m, items, n).1 is Err ==> exists|k: int|
            #[trigger] read_fails_at(m, items, k, spec_read_items(m, items, n)),
{
    let f = items[0]->Ok_0.0;
    let m1 = spec_read_record(m, f).0;
    let rest = items.drop_first();
    let out = spec_read_items(m, items, n);
    assert(out == spec_read_items(m1, rest, n + 1));
    lemma_row_fields_take(items, 0);
    assert(row_fields(items)[0] == f);
    lemma_read_records_front(m, f, row_fields(rest));
    assert(all_rows_read(items) <==> all_rows_read(rest)) by {
        if all_rows_read(rest) {
            assert forall|i: int| 0 <= i < items.len() implies #[trigger] items[i] is Ok by {
                if i > 0 {
                    assert(items[i] == rest[i - 1]);
                }
            }
        }
        if all_rows_read(items) {
            assert forall|i: int| 0 <= i < rest.len() implies #[trigger] rest[i] is Ok by {
                assert(rest[i] == items[i + 1]);
            }
        }
    }
    if out.1 is Err {
        let k = choose|k: int| #[trigger] read_fails_at(m1, rest, k, out);
        lemma_row_fields_take(items, k);
        lemma_read_records_front(m, f, row_fields(rest.take(k)));
        assert forall|i: int| 0 <= i < items.take(k + 1).len() implies #[trigger] items.take(k + 1)[i] is Ok by {
            if i > 0 {
                assert(items.take(k + 1)[i] == rest.take(k)[i - 1]);
            }
        }
        assert(items[k + 1] == rest[k]);
        assert(read_fails_at(m, items, k + 1, out));
    }
}

/// Reading CSV outcomes takes every record in turn. It succeeds exactly
/// when every outcome is a record and every record is read, and then it
/// counts them all and gives what reading their fields gives. Otherwise it
/// stops at the first outcome that is a CSV failure or a record that fails,
/// keeping what the records before it gave.
pub proof fn law_read_items(m: LexiconModel, items: Seq<CsvRow>, n: nat)
    ensures
        spec_read_items(m, items, n).1 is Ok <==> (all_rows_read(items)
            && spec_read_records(m, row_fields(items)).1 is Ok),
        spec_read_items(m, items, n).1 is Ok ==> {
            &&& spec_read_items(m, items, n).1 == Ok::<nat, (ReasonModel, u64)>(n + items.len())
            &&& spec_read_items(m, items, n).0 == spec_read_records(m, row_fields(items)).0
        },
        spec_read_items(m, items, n).1 is Err ==> exists|k: int|
            #[trigger] read_fails_at(m, items, k, spec_read_items(m, items, n)),
    decreases items.len(),
{
    let out = spec_read_items(m, items, n);
    if items.len() == 0 {
        assert(row_fields(items) =~= Seq::<Seq<Seq<char>>>::empty());
    } else {
        assert(items.take(0) =~= Seq::<CsvRow>::empty());
        assert(row_fields(items.take(0)) =~= Seq::<Seq<Seq<char>>>::empty());
        assert(spec_read_records(m, row_fields(items.take(0))) == (m, Ok::<(), ReasonModel>(())));
        match items[0] {
            Err(l) => {
                assert(!all_rows_read(items));
                assert(read_fails_at(m, items, 0, out));
            },
            Ok((f, l)) => {
                let (m1, r1) = spec_read_record(m, f);
                if r1 is Err {
                    lemma_row_fields_take(items, 0);
                    lemma_read_records_front(m, f, row_fields(items.drop_first()));
                    assert(read_fails_at(m, items, 0, out));
                } else {
                    law_read_items(m1, items.drop_first(), n + 1);
                    lemma_read_items_step(m, items, n);
                }
            },
        }
    }
}

/// Reading the outcomes `a` and then the outcomes `b` is reading `a + b`.
pub proof fn law_read_items_append(m: LexiconModel, a: Seq<CsvRow>, b: Seq<CsvRow>, n: nat)
    ensures
        spec_read_items(m, a + b, n) == (match spec_read_items(m, a, n).1 {
            Ok(k) => spec_read_items(spec_read_items(m, a, n).0, b, k),
            Err(_) => spec_read_items(m, a, n),
        }),
    decreases a.len(),
{
    if a.len() == 0 {
        assert(a + b =~= b);
    } else {
        assert((a + b)[0] == a[0]);
        assert((a + b).drop_first() =~= a.drop_first() + b);
        match a[0] {
            Err(_) => {},
            Ok((f, l)) => {
                let (m1, r1) = spec_read_record(m, f);
                if r1 is Ok {
                    law_read_items_append(m1, a.drop_first(), b, n + 1);
                }
            },
        }
    }
}


/// Reading CSV outcomes never takes an id back nor moves one, and keeps
/// every entry read before.
pub proof fn law_read_items_keeps(m: LexiconModel, items: Seq<CsvRow>, n: nat)
    ensures
        m.pos.is_prefix_of(spec_read_items(m, items, n).0.pos),
        m.entries.is_prefix_of(spec_read_items(m, items, n).0.entries),
    decreases items.len(),
{
    assert(m.pos.is_prefix_of(m.pos));
    assert(m.entries.is_prefix_of(m.entries));
    if items.len() > 0 {
        match items[0] {
            Err(_) => {},
            Ok((f, l)) => {
                law_read_record(m, f);
                let (m1, r1) = spec_read_record(m, f);
                assert(m.entries.is_prefix_of(m1.entries)) by {
                    if r1 is Ok {
                        assert forall|i: int| 0 <= i < m.entries.len() implies m1.entries[i] == m.entries[i] by {}
                    }
                }
                if r1 is Ok {
                    law_read_items_keeps(m1, items.drop_first(), n + 1);
                    let m2 = spec_read_items(m1, items.drop_first(), n + 1).0;
                    assert forall|i: int| 0 <= i < m.entries.len() implies m2.entries[i] == m.entries[i] by {
                        assert(m2.entries[i] == m1.entries[i]);
                    }
                    assert forall|i: int| 0 <= i < m.pos.len() implies m2.pos[i] == m.pos[i] by {
                        assert(m2.pos[i] == m1.pos[i]);
                    }
                }
            },
        }
    }
}


/// The id that a part of speech was given keeps naming it: in every table
/// that extends the one it was given in, the id is the place of that part
/// of speech, and looking it up there again gives the same id.
pub proof fn law_pos_id_kept(keys: Seq<PosKey>, key: PosKey, later: Seq<PosKey>)
    requires
        keys_distinct(keys),
        keys.len() <= MAX_POS_IDS + 1,
        spec_pos_of(keys, key).1 is Ok,
        spec_pos_of(keys, key).0.is_prefix_of(later),
        keys_distinct(later),
        later.len() <= MAX_POS_IDS + 1,
    ensures
        ({
            let id = spec_pos_of(keys, key).1->Ok_0;
            &&& (id as int) < later.len()
            &&& later[id as int] == key
            &&& spec_pos_of(later, key) == (later, Ok::<u16, ReasonModel>(id))
        }),
{
    law_pos_of_stable(keys, key);
    let id = spec_pos_of(keys, key).1->Ok_0;
    let keys2 = spec_pos_of(keys, key).0;
    assert(later[id as int] == keys2[id as int]);
    assert(pos_known(later, key));
    let j = pos_index(later, key);
    assert(later[j] == key);
    if j != id as int {
        if j < id as int {
            assert(later[j] != later[id as int]);
        } else {
            assert(later[id as int] != later[j]);
        }
    }
}

} // verus!
