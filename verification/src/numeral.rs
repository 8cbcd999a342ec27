//! Unsigned numerals in a radix, read the way `from_str_radix` and
//! `str::parse` read them for unsigned integer types: an optional
//! leading `+`, then one or more digits, and a value that fits.
use vstd::prelude::*;

verus! {

/// The value of `c` as a digit in base `radix`, if it is one.
pub open spec fn digit_value(c: char, radix: nat) -> Option<nat> {
    let code = c as int;
    let d: int = if 48 <= code <= 57 {
        code - 48
    } else if 97 <= code <= 122 {
        code - 97 + 10
    } else if 65 <= code <= 90 {
        code - 65 + 10
    } else {
        36
    };
    if d < radix {
        Some(d as nat)
    } else {
        None
    }
}

/// The value of a non-empty string of digits in base `radix`.
pub open spec fn digits_value(s: Seq<char>, radix: nat) -> Option<nat>
    decreases s.len(),
{
    if s.len() == 0 {
        None
    } else {
        match digit_value(s.last(), radix) {
            None => None,
            Some(d) => if s.len() == 1 {
                Some(d)
            } else {
                match digits_value(s.drop_last(), radix) {
                    None => None,
                    Some(v) => Some(v * radix + d),
                }
            },
        }
    }
}

/// What reading `s` as an unsigned number in base `radix` gives, for an
/// integer type whose largest value is `max`.
pub open spec fn unsigned_value(s: Seq<char>, radix: nat, max: nat) -> Option<nat> {
    let body = if s.len() > 0 && s[0] == '+' {
        s.drop_first()
    } else {
        s
    };
    match digits_value(body, radix) {
        Some(v) => if v <= max {
            Some(v)
        } else {
            None
        },
        None => None,
    }
}

/// A digit string's value is at least that of each of its non-empty prefixes.
pub proof fn lemma_digits_prefix(s: Seq<char>, radix: nat, k: int)
    requires
        digits_value(s, radix) is Some,
        0 < k <= s.len(),
    ensures
        digits_value(s.take(k), radix) is Some,
        digits_value(s.take(k), radix)->0 <= digits_value(s, radix)->0,
    decreases s.len(),
{
    if k == s.len() {
        assert(s.take(k) =~= s);
    } else {
        lemma_digits_prefix(s.drop_last(), radix, k);
        assert(s.drop_last().take(k) =~= s.take(k));
        let v = digits_value(s.drop_last(), radix)->0;
        let d = digit_value(s.last(), radix)->0;
        assert(v <= v * radix + d) by (nonlinear_arith)
            requires
                radix >= 1,
        ;
    }
}

/// Every character of a digit string is a digit.
pub proof fn lemma_digits_all_digits(s: Seq<char>, radix: nat, i: int)
    requires
        digits_value(s, radix) is Some,
        0 <= i < s.len(),
    ensures
        digit_value(s[i], radix) is Some,
    decreases s.len(),
{
    if i < s.len() - 1 {
        lemma_digits_all_digits(s.drop_last(), radix, i);
    }
}

/// The digit that `c` stands for in base `radix`: `char::to_digit`.
pub fn to_digit(c: char, radix: u64) -> (r: Option<u64>)
    requires
        2 <= radix <= 36,
    ensures
        match r {
            Some(d) => digit_value(c, radix as nat) == Some(d as nat),
            None => digit_value(c, radix as nat) is None,
        },
{
    let code = c as u32;
    let d: u64 = if 48 <= code && code <= 57 {
        (code - 48) as u64
    } else if 97 <= code && code <= 122 {
        (code - 97 + 10) as u64
    } else if 65 <= code && code <= 90 {
        (code - 65 + 10) as u64
    } else {
        36
    };
    if d < radix {
        Some(d)
    } else {
        None
    }
}

/// Reads `s[lo..hi]` as an unsigned number in base `radix` whose value
/// must not exceed `max`.
pub fn parse_unsigned(s: &[char], lo: usize, hi: usize, radix: u64, max: u64) -> (r: Option<u64>)
    requires
        lo <= hi <= s@.len(),
        2 <= radix <= 36,
    ensures
        match r {
            Some(v) => unsigned_value(s@.subrange(lo as int, hi as int), radix as nat, max as nat)
                == Some(v as nat),
            None => unsigned_value(
                s@.subrange(lo as int, hi as int),
                radix as nat,
                max as nat,
            ) is None,
        },
{
    let ghost whole = s@.subrange(lo as int, hi as int);
    let first = if lo < hi && s[lo] == '+' {
        lo + 1
    } else {
        lo
    };
    let ghost body = s@.subrange(first as int, hi as int);
    assert(body =~= (if whole.len() > 0 && whole[0] == '+' {
        whole.drop_first()
    } else {
        whole
    }));
    if first == hi {
        return None;
    }
    let mut v: u64 = 0;
    let mut i: usize = first;
    while i < hi
        invariant
            first < hi <= s@.len(),
            lo <= first,
            whole == s@.subrange(lo as int, hi as int),
            first <= i <= hi,
            body == s@.subrange(first as int, hi as int),
            2 <= radix <= 36,
            v <= max,
            i == first ==> v == 0,
            i > first ==> digits_value(body.take(i - first), radix as nat) == Some(v as nat),
            body =~= (if whole.len() > 0 && whole[0] == '+' {
                whole.drop_first()
            } else {
                whole
            }),
        decreases hi - i,
    {
        let k: Ghost<int> = Ghost(i - first);
        let d = match to_digit(s[i], radix) {
            Some(d) => d,
            None => {
                proof {
                    if digits_value(body, radix as nat) is Some {
                        lemma_digits_all_digits(body, radix as nat, k@);
                    }
                }
                return None;
            },
        };
        let ghost prefix = body.take(k@ + 1);
        assert(prefix.drop_last() =~= body.take(k@));
        assert(prefix.last() == s@[i as int]);
        if d > max || v > (max - d) / radix {
            proof {
                let q: int = if d > max { 0 } else { (max - d) as int / radix as int };
                assert(v * radix + d > max) by (nonlinear_arith)
                    requires
                        d > max || (v > q && q == (max - d) / (radix as int)),
                        radix >= 2,
                ;
                if digits_value(body, radix as nat) is Some {
                    lemma_digits_prefix(body, radix as nat, k@ + 1);
                }
            }
            return None;
        }
        let ghost q: int = (max - d) as int / radix as int;
        assert(v * radix + d <= max) by (nonlinear_arith)
            requires
                v <= q,
                q == (max - d) / (radix as int),
                radix >= 2,
                d <= max,
        ;
        v = v * radix + d;
        i = i + 1;
    }
    assert(body.take(hi - first) =~= body);
    Some(v)
}

} // verus!
