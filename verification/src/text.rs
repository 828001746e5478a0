use vstd::prelude::*;

verus! {

/// The characters of `s`, in order.
pub fn chars_of(s: &str) -> (res: Vec<char>)
    ensures
        res@ == s@,
{
    let mut res: Vec<char> = Vec::new();
    let ghost all = s@;
    for c in it: s.chars()
        invariant
            it.seq() == all,
            res@ == all.take(it.index() as int),
    {
        proof {
            assert(all.take(it.index() + 1) =~= all.take(it.index() as int).push(c));
        }
        res.push(c);
    }
    proof {
        assert(all.take(all.len() as int) =~= all);
    }
    res
}

/// The string made of the characters `chars` (`FromIterator<&char>` for
/// `String`): its characters are exactly `chars`.
#[verifier::external_body]
pub fn string_from_chars(chars: &Vec<char>) -> (res: String)
    ensures
        res@ == chars@,
{
    chars.iter().collect()
}

/// The characters `s[from..to]`.
pub fn copy_range(s: &Vec<char>, from: usize, to: usize) -> (res: Vec<char>)
    requires
        from <= to <= s@.len(),
    ensures
        res@ == s@.subrange(from as int, to as int),
{
    let mut res: Vec<char> = Vec::new();
    let mut i = from;
    while i < to
        invariant
            from <= i <= to <= s@.len(),
            res@ == s@.subrange(from as int, i as int),
        decreases to - i,
    {
        proof {
            assert(s@.subrange(from as int, i + 1) =~= s@.subrange(from as int, i as int).push(s@[i as int]));
        }
        res.push(s[i]);
        i = i + 1;
    }
    res
}

/// Whether two character sequences are equal.
pub fn chars_eq(a: &Vec<char>, b: &Vec<char>) -> (res: bool)
    ensures
        res == (a@ == b@),
{
    if a.len() != b.len() {
        return false;
    }
    let mut i: usize = 0;
    while i < a.len()
        invariant
            a@.len() == b@.len(),
            i <= a@.len(),
            a@.take(i as int) == b@.take(i as int),
        decreases a@.len() - i,
    {
        if a[i] != b[i] {
            proof {
                assert(a@[i as int] != b@[i as int]);
            }
            return false;
        }
        proof {
            assert(a@.take(i + 1) =~= a@.take(i as int).push(a@[i as int]));
            assert(b@.take(i + 1) =~= b@.take(i as int).push(b@[i as int]));
        }
        i = i + 1;
    }
    proof {
        assert(a@ =~= a@.take(i as int));
        assert(b@ =~= b@.take(i as int));
    }
    true
}

/// Whether `s` is the one-character string `c`.
pub open spec fn is_single(s: Seq<char>, c: char) -> bool {
    s.len() == 1 && s[0] == c
}

/// The first index at or after `start` that holds `c`, or the length of `s`.
pub open spec fn find_from(s: Seq<char>, start: int, c: char) -> int
    decreases s.len() - start,
{
    if start < 0 || start >= s.len() {
        s.len() as int
    } else if s[start] == c {
        start
    } else {
        find_from(s, start + 1, c)
    }
}

pub proof fn lemma_find_from(s: Seq<char>, start: int, c: char)
    requires
        0 <= start <= s.len(),
    ensures
        start <= find_from(s, start, c) <= s.len(),
        find_from(s, start, c) < s.len() ==> s[find_from(s, start, c)] == c,
        forall|j: int| start <= j < find_from(s, start, c) ==> s[j] != c,
    decreases s.len() - start,
{
    if start < s.len() && s[start] != c {
        lemma_find_from(s, start + 1, c);
    }
}

/// The limit that is left after one piece was cut off.
pub open spec fn next_limit(limit: Option<nat>) -> Option<nat> {
    match limit {
        Some(n) => Some((n - 1) as nat),
        None => None,
    }
}

/// The pieces of `s[start..]` between occurrences of `sep`; with a limit,
/// at most that many, the last one keeping the rest of the text.
pub open spec fn pieces_from(s: Seq<char>, start: int, sep: char, limit: Option<nat>) -> Seq<Seq<char>>
    decreases s.len() - start,
{
    if start < 0 || start > s.len() {
        Seq::empty()
    } else if (limit matches Some(n) && n <= 1) || find_from(s, start, sep) >= s.len() {
        seq![s.subrange(start, s.len() as int)]
    } else {
        let k = find_from(s, start, sep);
        proof {
            lemma_find_from(s, start, sep);
        }
        seq![s.subrange(start, k)] + pieces_from(s, k + 1, sep, next_limit(limit))
    }
}

/// `s` cut at each `sep`, into at most `limit` pieces when a limit is given
/// (the behaviour of `str::splitn`; without one, that of `str::split`).
pub open spec fn split_pieces(s: Seq<char>, sep: char, limit: Option<nat>) -> Seq<Seq<char>> {
    pieces_from(s, 0, sep, limit)
}

/// `s` cut at every `sep`.
pub open spec fn split_all(s: Seq<char>, sep: char) -> Seq<Seq<char>> {
    split_pieces(s, sep, None)
}

pub open spec fn chars_views(v: Seq<Vec<char>>) -> Seq<Seq<char>> {
    v.map_values(|p: Vec<char>| p@)
}

pub open spec fn opt_limit(limit: Option<usize>) -> Option<nat> {
    match limit {
        Some(n) => Some(n as nat),
        None => None,
    }
}

/// The first index at or after `start` that holds `c`, or the length.
pub fn find_char(s: &Vec<char>, start: usize, c: char) -> (res: usize)
    requires
        start <= s@.len(),
    ensures
        res == find_from(s@, start as int, c),
{
    let mut k = start;
    while k < s.len() && s[k] != c
        invariant
            start <= k <= s@.len(),
            find_from(s@, start as int, c) == find_from(s@, k as int, c),
        decreases s@.len() - k,
    {
        k = k + 1;
    }
    k
}

/// `s` cut at each `sep` into at most `limit` pieces.
pub fn split_chars(s: &Vec<char>, sep: char, limit: Option<usize>) -> (res: Vec<Vec<char>>)
    ensures
        chars_views(res@) == split_pieces(s@, sep, opt_limit(limit)),
{
    let mut res: Vec<Vec<char>> = Vec::new();
    let mut start: usize = 0;
    let mut remaining: Option<usize> = limit;
    loop
        invariant
            start <= s@.len(),
            chars_views(res@) + pieces_from(s@, start as int, sep, opt_limit(remaining))
                == split_pieces(s@, sep, opt_limit(limit)),
        decreases s@.len() - start,
    {
        let k = find_char(s, start, sep);
        proof {
            lemma_find_from(s@, start as int, sep);
        }
        let last = match remaining {
            Some(n) => n <= 1,
            None => false,
        };
        if last || k >= s.len() {
            let piece = copy_range(s, start, s.len());
            let ghost before = res@;
            res.push(piece);
            proof {
                assert(chars_views(res@) =~= chars_views(before).push(piece@));
                assert(chars_views(res@) =~= chars_views(before) + pieces_from(s@, start as int, sep, opt_limit(remaining)));
            }
            return res;
        }
        let piece = copy_range(s, start, k);
        let ghost before = res@;
        let next: Option<usize> = match remaining {
            Some(n) => Some(n - 1),
            None => None,
        };
        let ghost rest = pieces_from(s@, k + 1, sep, opt_limit(next));
        res.push(piece);
        proof {
            assert(chars_views(res@) =~= chars_views(before).push(piece@));
            assert(next_limit(opt_limit(remaining)) == opt_limit(next));
            assert(pieces_from(s@, start as int, sep, opt_limit(remaining)) == seq![piece@] + rest);
            assert(chars_views(res@) + rest =~= chars_views(before) + (seq![piece@] + rest));
        }
        start = k + 1;
        remaining = next;
    }
}

} // verus!
