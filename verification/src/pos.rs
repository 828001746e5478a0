use vstd::prelude::*;

use indexmap::IndexMap;

use crate::text::{chars_of, string_from_chars};

verus! {

/// Number of levels of a part of speech.
pub const POS_DEPTH: usize = 6;

/// The views of a sequence of strings.
pub open spec fn strings_view(a: Seq<String>) -> Seq<Seq<char>> {
    a.map_values(|s: String| s@)
}

/// A part of speech: six strings, from the coarsest level to the
/// conjugation form.
#[derive(Hash, PartialEq, Eq)]
pub struct StrPosEntry {
    data: [String; POS_DEPTH],
}

impl View for StrPosEntry {
    type V = Seq<Seq<char>>;

    closed spec fn view(&self) -> Seq<Seq<char>> {
        strings_view(self.data@)
    }
}

/// The parts joined by commas.
pub open spec fn join_commas(parts: Seq<Seq<char>>) -> Seq<char>
    decreases parts.len(),
{
    if parts.len() == 0 {
        Seq::empty()
    } else if parts.len() == 1 {
        parts[0]
    } else {
        join_commas(parts.drop_last()) + seq![','] + parts.last()
    }
}

impl StrPosEntry {
    /// A part of speech made of the six strings `data`.
    pub fn new(data: [String; POS_DEPTH]) -> (res: StrPosEntry)
        ensures
            res@ == strings_view(data@),
            res@.len() == POS_DEPTH,
    {
        StrPosEntry { data }
    }

    /// The six strings of the part of speech.
    pub fn fields(&self) -> (res: &[String; POS_DEPTH])
        ensures
            strings_view(res@) == self@,
            res@.len() == POS_DEPTH,
    {
        &self.data
    }

    /// The six strings joined by commas.
    pub fn describe(&self) -> (res: String)
        ensures
            res@ == join_commas(self@),
    {
        let mut out: Vec<char> = Vec::new();
        let mut i: usize = 0;
        while i < POS_DEPTH
            invariant
                i <= POS_DEPTH,
                self.data@.len() == POS_DEPTH,
                out@ == join_commas(strings_view(self.data@).take(i as int)),
            decreases POS_DEPTH - i,
        {
            let part = chars_of(self.data[i].as_str());
            let ghost before = out@;
            let ghost parts = strings_view(self.data@);
            if i > 0 {
                out.push(',');
            }
            let mut j: usize = 0;
            let ghost mid = out@;
            while j < part.len()
                invariant
                    j <= part@.len(),
                    out@ == mid + part@.take(j as int),
                decreases part@.len() - j,
            {
                proof {
                    assert(part@.take(j + 1) =~= part@.take(j as int).push(part@[j as int]));
                }
                out.push(part[j]);
                j = j + 1;
            }
            proof {
                assert(part@.take(j as int) =~= part@);
                assert(parts.take(i + 1).drop_last() =~= parts.take(i as int));
                assert(parts.take(i + 1).last() == part@);
                if i == 0 {
                    assert(before =~= Seq::<char>::empty());
                    assert(out@ =~= part@);
                } else {
                    assert(out@ =~= before + seq![','] + part@);
                }
            }
            i = i + 1;
        }
        proof {
            assert(strings_view(self.data@).take(POS_DEPTH as int) =~= self@);
        }
        string_from_chars(&out)
    }
}

#[verifier::external_type_specification]
#[verifier::external_body]
#[verifier::reject_recursive_types(K)]
#[verifier::reject_recursive_types(V)]
#[verifier::reject_recursive_types(S)]
pub struct ExIndexMap<K, V, S>(IndexMap<K, V, S>);

/// The parts of speech that a table holds, each with its value, in the
/// order in which they were inserted.
pub uninterp spec fn pos_map_entries(map: IndexMap<StrPosEntry, u16>) -> Seq<(Seq<Seq<char>>, u16)>;

/// The parts of speech of a table, in order.
pub open spec fn pos_map_keys(map: IndexMap<StrPosEntry, u16>) -> Seq<Seq<Seq<char>>> {
    pos_map_entries(map).map_values(|e: (Seq<Seq<char>>, u16)| e.0)
}

/// Whether the table holds a part of speech equal to `key`.
pub open spec fn has_key(entries: Seq<(Seq<Seq<char>>, u16)>, key: Seq<Seq<char>>) -> bool {
    exists|i: int| 0 <= i < entries.len() && #[trigger] entries[i].0 == key
}

/// An empty table (`IndexMap::new`).
#[verifier::external_body]
pub fn pos_map_new() -> (map: IndexMap<StrPosEntry, u16>)
    ensures
        pos_map_entries(map) == Seq::<(Seq<Seq<char>>, u16)>::empty(),
{
    IndexMap::new()
}

/// Number of entries of the table (`IndexMap::len`).
#[verifier::external_body]
pub fn pos_map_len(map: &IndexMap<StrPosEntry, u16>) -> (len: usize)
    ensures
        len == pos_map_entries(*map).len(),
{
    map.len()
}

/// The value kept for `key` (`IndexMap::get`): none when no entry has an
/// equal key, else the value of such an entry. Keys are compared by the
/// derived equality of `StrPosEntry`, which holds exactly when the six
/// strings are equal.
#[verifier::external_body]
pub fn pos_map_get(map: &IndexMap<StrPosEntry, u16>, key: &StrPosEntry) -> (res: Option<u16>)
    ensures
        res is None <==> !has_key(pos_map_entries(*map), key@),
        res matches Some(v) ==> exists|i: int|
            0 <= i < pos_map_entries(*map).len() && #[trigger] pos_map_entries(*map)[i] == (key@, v),
{
    map.get(key).copied()
}

/// Inserts `key` with `value` (`IndexMap::insert`). Without an equal key
/// the pair is added last and `None` returned; with one, the key stays in
/// its place, its value becomes `value` and the old value is returned.
#[verifier::external_body]
pub fn pos_map_insert(map: &mut IndexMap<StrPosEntry, u16>, key: StrPosEntry, value: u16) -> (res: Option<u16>)
    ensures
        !has_key(pos_map_entries(*old(map)), key@) ==> {
            &&& res is None
            &&& pos_map_entries(*final(map)) == pos_map_entries(*old(map)).push((key@, value))
        },
        has_key(pos_map_entries(*old(map)), key@) ==> {
            &&& res is Some
            &&& pos_map_entries(*final(map)).len() == pos_map_entries(*old(map)).len()
            &&& forall|i: int| 0 <= i < pos_map_entries(*old(map)).len() ==> #[trigger] pos_map_entries(*final(map))[i]
                == if pos_map_entries(*old(map))[i].0 == key@ {
                    (key@, value)
                } else {
                    pos_map_entries(*old(map))[i]
                }
        },
{
    map.insert(key, value)
}

/// The entry at `index` (`IndexMap::get_index`): present exactly when
/// `index` is below the length, and then it is the entry inserted at that
/// place.
#[verifier::external_body]
pub fn pos_map_get_index(map: &IndexMap<StrPosEntry, u16>, index: usize) -> (res: Option<(&StrPosEntry, &u16)>)
    ensures
        res is Some <==> index < pos_map_entries(*map).len(),
        res matches Some((k, v)) ==> pos_map_entries(*map)[index as int] == (k@, *v),
{
    map.get_index(index)
}

} // verus!
