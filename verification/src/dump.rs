use vstd::prelude::*;

use crate::text::{chars_of, string_from_chars};

verus! {

/// What a character becomes in a dumped CSV field: `"` and `,` as the
/// escapes `\u0022` and `\u002c`, any other character as it is.
pub open spec fn escape_char(c: char) -> Seq<char> {
    if c == '"' {
        seq!['\\', 'u', '0', '0', '2', '2']
    } else if c == ',' {
        seq!['\\', 'u', '0', '0', '2', 'c']
    } else {
        seq![c]
    }
}

/// A string made safe for a field of a dumped CSV line.
pub open spec fn spec_escape(s: Seq<char>) -> Seq<char>
    decreases s.len(),
{
    if s.len() == 0 {
        Seq::empty()
    } else {
        escape_char(s[0]) + spec_escape(s.drop_first())
    }
}

pub proof fn lemma_escape_append(a: Seq<char>, b: Seq<char>)
    ensures
        spec_escape(a + b) == spec_escape(a) + spec_escape(b),
    decreases a.len(),
{
    if a.len() == 0 {
        assert(a + b =~= b);
        assert(spec_escape(a) + spec_escape(b) =~= spec_escape(b));
    } else {
        assert((a + b).drop_first() =~= a.drop_first() + b);
        assert((a + b)[0] == a[0]);
        lemma_escape_append(a.drop_first(), b);
        assert(spec_escape(a + b) =~= escape_char(a[0]) + (spec_escape(a.drop_first()) + spec_escape(b)));
    }
}

/// Replaces `"` by `\u0022` and `,` by `\u002c`, so that the text can stand
/// in a field of a CSV line.
pub fn unicode_escape(raw: &str) -> (res: String)
    ensures
        res@ == spec_escape(raw@),
{
    let chars = chars_of(raw);
    let mut out: Vec<char> = Vec::new();
    let mut i: usize = 0;
    proof {
        assert(chars@.take(0) =~= Seq::<char>::empty());
    }
    while i < chars.len()
        invariant
            i <= chars@.len(),
            out@ == spec_escape(chars@.take(i as int)),
        decreases chars@.len() - i,
    {
        let c = chars[i];
        let ghost before = out@;
        if c == '"' {
            out.push('\\');
            out.push('u');
            out.push('0');
            out.push('0');
            out.push('2');
            out.push('2');
        } else if c == ',' {
            out.push('\\');
            out.push('u');
            out.push('0');
            out.push('0');
            out.push('2');
            out.push('c');
        } else {
            out.push(c);
        }
        proof {
            assert(chars@.take(i + 1) =~= chars@.take(i as int) + seq![c]);
            lemma_escape_append(chars@.take(i as int), seq![c]);
            assert(seq![c].drop_first() =~= Seq::<char>::empty());
            assert(spec_escape(Seq::<char>::empty()) =~= Seq::<char>::empty());
            assert(seq![c][0] == c);
            assert(spec_escape(seq![c]) =~= escape_char(c) + spec_escape(Seq::<char>::empty()));
            assert(spec_escape(seq![c]) =~= escape_char(c));
            assert(out@ =~= before + escape_char(c));
        }
        i = i + 1;
    }
    proof {
        assert(chars@.take(i as int) =~= chars@);
    }
    string_from_chars(&out)
}

// ---------------------------------------------------------------- synonym groups

/// The character of a decimal digit.
pub open spec fn digit_char(d: int) -> char {
    ((48 + d) as u8) as char
}

/// The decimal digits of `n`, without leading zeros.
pub open spec fn dec_digits(n: nat) -> Seq<char>
    decreases n,
{
    if n < 10 {
        seq![digit_char(n as int)]
    } else {
        dec_digits(n / 10).push(digit_char((n % 10) as int))
    }
}

/// The decimal digits of `n`, with leading zeros up to six digits.
pub open spec fn padded6(n: nat) -> Seq<char> {
    let d = dec_digits(n);
    if d.len() < 6 {
        Seq::new((6 - d.len()) as nat, |i: int| '0') + d
    } else {
        d
    }
}

/// The pieces joined by `/`.
pub open spec fn join_slash(ps: Seq<Seq<char>>) -> Seq<char>
    decreases ps.len(),
{
    if ps.len() == 0 {
        Seq::empty()
    } else if ps.len() == 1 {
        ps[0]
    } else {
        ps[0] + seq!['/'] + join_slash(ps.drop_first())
    }
}

/// How the synonym groups of a word are dumped: `*` for none, else each
/// group number with at least six digits, separated by `/`.
pub open spec fn spec_gid_text(v: Seq<u32>) -> Seq<char> {
    if v.len() == 0 {
        seq!['*']
    } else {
        join_slash(v.map_values(|n: u32| padded6(n as nat)))
    }
}

pub proof fn lemma_join_slash_push(ps: Seq<Seq<char>>, x: Seq<char>)
    requires
        ps.len() > 0,
    ensures
        join_slash(ps.push(x)) == join_slash(ps) + seq!['/'] + x,
    decreases ps.len(),
{
    if ps.len() == 1 {
        assert(ps.push(x).drop_first() =~= seq![x]);
        assert(join_slash(seq![x]) == x);
    } else {
        assert(ps.push(x).drop_first() =~= ps.drop_first().push(x));
        lemma_join_slash_push(ps.drop_first(), x);
        assert(join_slash(ps.push(x)) =~= ps[0] + seq!['/'] + (join_slash(ps.drop_first()) + seq!['/'] + x));
    }
}

/// The decimal digits of `n`.
pub fn decimal_chars(n: u32) -> (res: Vec<char>)
    ensures
        res@ == dec_digits(n as nat),
    decreases n,
{
    if n < 10 {
        let mut v: Vec<char> = Vec::new();
        v.push((48u8 + n as u8) as char);
        proof {
            assert(v@ =~= seq![digit_char(n as int)]);
        }
        v
    } else {
        let mut v = decimal_chars(n / 10);
        v.push((48u8 + (n % 10) as u8) as char);
        v
    }
}

/// The text of a dumped list of synonym groups: `*` for none, else each
/// number with at least six digits (zeros in front), separated by `/`.
pub fn format_gids(data: &Vec<u32>) -> (res: String)
    ensures
        res@ == spec_gid_text(data@),
{
    let ghost ps = data@.map_values(|n: u32| padded6(n as nat));
    let mut out: Vec<char> = Vec::new();
    if data.len() == 0 {
        out.push('*');
        proof {
            assert(out@ =~= seq!['*']);
        }
        return string_from_chars(&out);
    }
    let mut i: usize = 0;
    while i < data.len()
        invariant
            i <= data@.len(),
            ps == data@.map_values(|n: u32| padded6(n as nat)),
            out@ == join_slash(ps.take(i as int)),
        decreases data@.len() - i,
    {
        let ghost before = out@;
        if i > 0 {
            out.push('/');
        }
        let digits = decimal_chars(data[i]);
        let mut k = digits.len();
        while k < 6
            invariant
                digits@.len() <= k <= 6 || (k == digits@.len() && k >= 6),
                out@ == (if i > 0 { before + seq!['/'] } else { before }) + Seq::new((k - digits@.len()) as nat, |j: int| '0'),
            decreases 6 - k,
        {
            out.push('0');
            proof {
                assert(Seq::new((k + 1 - digits@.len()) as nat, |j: int| '0') =~= Seq::new((k - digits@.len()) as nat, |j: int| '0').push('0'));
            }
            k = k + 1;
        }
        let mut j: usize = 0;
        let ghost mid = out@;
        while j < digits.len()
            invariant
                j <= digits@.len(),
                out@ == mid + digits@.take(j as int),
            decreases digits@.len() - j,
        {
            proof {
                assert(digits@.take(j + 1) =~= digits@.take(j as int).push(digits@[j as int]));
            }
            out.push(digits[j]);
            j = j + 1;
        }
        proof {
            assert(digits@.take(j as int) =~= digits@);
            let p = padded6(data@[i as int] as nat);
            assert(ps[i as int] == p);
            let zeros = Seq::new((k - digits@.len()) as nat, |j: int| '0');
            if digits@.len() < 6 {
                assert(k == 6);
                assert(p =~= zeros + digits@);
            } else {
                assert(zeros =~= Seq::<char>::empty());
                assert(p =~= zeros + digits@);
            }
            assert(ps.take(i + 1) =~= ps.take(i as int).push(p));
            if i > 0 {
                lemma_join_slash_push(ps.take(i as int), p);
                assert(out@ =~= before + seq!['/'] + p);
            } else {
                assert(ps.take(1) =~= seq![p]);
                assert(before =~= Seq::<char>::empty());
                assert(out@ =~= p);
            }
        }
        i = i + 1;
    }
    proof {
        assert(ps.take(i as int) =~= ps);
    }
    string_from_chars(&out)
}

} // verus!
