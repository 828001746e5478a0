use vstd::prelude::*;

verus! {

pub open spec fn is_dec_digit(c: char) -> bool {
    0x30 <= c as u32 <= 0x39
}

pub open spec fn is_hex_digit(c: char) -> bool {
    is_dec_digit(c) || (0x61 <= c as u32 <= 0x66) || (0x41 <= c as u32 <= 0x46)
}

/// Whether `c` is a digit of base `radix` (10 or 16).
pub open spec fn is_radix_digit(c: char, radix: nat) -> bool {
    if radix == 16 {
        is_hex_digit(c)
    } else {
        is_dec_digit(c)
    }
}

/// Value of a decimal or hexadecimal digit.
pub open spec fn digit_value(c: char) -> int {
    if is_dec_digit(c) {
        c as u32 - 0x30
    } else if 0x61 <= c as u32 <= 0x66 {
        c as u32 - 0x61 + 10
    } else {
        c as u32 - 0x41 + 10
    }
}

pub open spec fn all_digits(s: Seq<char>, radix: nat) -> bool {
    forall|i: int| 0 <= i < s.len() ==> #[trigger] is_radix_digit(s[i], radix)
}

/// The number that the digits `s` write in base `radix`.
pub open spec fn radix_value(s: Seq<char>, radix: nat) -> int
    decreases s.len(),
{
    if s.len() == 0 {
        0
    } else {
        radix_value(s.drop_last(), radix) * radix + digit_value(s.last())
    }
}

pub proof fn lemma_digit_value_bounds(c: char, radix: nat)
    requires
        radix == 10 || radix == 16,
        is_radix_digit(c, radix),
    ensures
        0 <= digit_value(c) < radix,
{
}

pub proof fn lemma_radix_value_nonneg(s: Seq<char>, radix: nat)
    requires
        radix == 10 || radix == 16,
        all_digits(s, radix),
    ensures
        radix_value(s, radix) >= 0,
    decreases s.len(),
{
    if s.len() > 0 {
        assert(all_digits(s.drop_last(), radix)) by {
            assert forall|i: int| 0 <= i < s.drop_last().len() implies #[trigger] is_radix_digit(s.drop_last()[i], radix) by {
                assert(s.drop_last()[i] == s[i]);
            }
        }
        lemma_radix_value_nonneg(s.drop_last(), radix);
        assert(is_radix_digit(s[s.len() - 1], radix));
        lemma_digit_value_bounds(s.last(), radix);
        let v = radix_value(s.drop_last(), radix);
        assert(v * radix >= 0) by (nonlinear_arith)
            requires v >= 0, radix >= 0;
    }
}

/// Dropping trailing digits never makes the value larger.
pub proof fn lemma_radix_value_prefix(s: Seq<char>, radix: nat, k: int)
    requires
        radix == 10 || radix == 16,
        all_digits(s, radix),
        0 <= k <= s.len(),
    ensures
        radix_value(s.take(k), radix) <= radix_value(s, radix),
    decreases s.len() - k,
{
    if k < s.len() {
        let t = s.take(k + 1);
        assert(all_digits(t, radix)) by {
            assert forall|i: int| 0 <= i < t.len() implies #[trigger] is_radix_digit(t[i], radix) by {
                assert(t[i] == s[i]);
            }
        }
        assert(t.drop_last() =~= s.take(k));
        lemma_radix_value_nonneg(s.take(k), radix);
        assert(is_radix_digit(t[t.len() - 1], radix));
        lemma_digit_value_bounds(t.last(), radix);
        let v = radix_value(s.take(k), radix);
        assert(v * radix >= v) by (nonlinear_arith)
            requires v >= 0, radix >= 1;
        lemma_radix_value_prefix(s, radix, k + 1);
        if k + 1 == s.len() {
            assert(t =~= s);
        }
    } else {
        assert(s.take(k) =~= s);
    }
}

/// Whether `c` is a hexadecimal digit.
pub fn is_hex_char(c: char) -> (res: bool)
    ensures
        res == is_hex_digit(c),
{
    let code = c as u32;
    (0x30 <= code && code <= 0x39) || (0x61 <= code && code <= 0x66) || (0x41 <= code && code <= 0x46)
}

/// The value of the digits `s[from..to]` in base `radix`, when all of them
/// are digits and the value is at most `bound`; `None` otherwise.
pub fn parse_radix(s: &Vec<char>, from: usize, to: usize, radix: u64, bound: u64) -> (res: Option<u64>)
    requires
        from <= to <= s@.len(),
        radix == 10 || radix == 16,
        bound <= u32::MAX,
    ensures
        res is Some <==> (all_digits(s@.subrange(from as int, to as int), radix as nat)
            && radix_value(s@.subrange(from as int, to as int), radix as nat) <= bound),
        res matches Some(v) ==> v == radix_value(s@.subrange(from as int, to as int), radix as nat),
{
    let ghost sub = s@.subrange(from as int, to as int);
    let mut value: u64 = 0;
    let mut i = from;
    while i < to
        invariant
            from <= i <= to <= s@.len(),
            sub == s@.subrange(from as int, to as int),
            radix == 10 || radix == 16,
            bound <= u32::MAX,
            all_digits(sub.take(i - from), radix as nat),
            value == radix_value(sub.take(i - from), radix as nat),
            value <= bound,
        decreases to - i,
    {
        let c = s[i];
        let code = c as u32;
        let ghost k = i - from;
        assert(sub[k] == c);
        let digit: u64;
        if 0x30 <= code && code <= 0x39 {
            digit = (code - 0x30) as u64;
        } else if radix == 16 && 0x61 <= code && code <= 0x66 {
            digit = (code - 0x61 + 10) as u64;
        } else if radix == 16 && 0x41 <= code && code <= 0x46 {
            digit = (code - 0x41 + 10) as u64;
        } else {
            proof {
                assert(!is_radix_digit(sub[k], radix as nat));
            }
            return None;
        }
        assert(is_radix_digit(c, radix as nat));
        assert(digit == digit_value(c));
        let next = value * radix + digit;
        proof {
            assert(sub.take(k + 1).drop_last() =~= sub.take(k));
            assert(all_digits(sub.take(k + 1), radix as nat)) by {
                assert forall|j: int| 0 <= j < sub.take(k + 1).len() implies #[trigger] is_radix_digit(sub.take(k + 1)[j], radix as nat) by {
                    if j < k {
                        assert(sub.take(k + 1)[j] == sub.take(k)[j]);
                    }
                }
            }
        }
        if next > bound {
            proof {
                if all_digits(sub, radix as nat) {
                    lemma_radix_value_prefix(sub, radix as nat, k + 1);
                }
            }
            return None;
        }
        value = next;
        i = i + 1;
    }
    proof {
        assert(sub.take(i - from) =~= sub);
    }
    Some(value)
}

} // verus!
