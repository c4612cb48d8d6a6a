//! Decimal price strings to integer cents.
use vstd::prelude::*;
use vstd::string::StringSliceAdditionalSpecFns;

verus! {

/// Whether a byte is an ASCII decimal digit.
pub open spec fn is_digit(c: u8) -> bool {
    48 <= c <= 57
}

/// Whether every byte of `s` is a decimal digit.
pub open spec fn all_digits(s: Seq<u8>) -> bool {
    forall|i: int| 0 <= i < s.len() ==> is_digit(#[trigger] s[i])
}

/// The number that a string of decimal digits denotes.
pub open spec fn decimal_value(s: Seq<u8>) -> nat
    decreases s.len(),
{
    if s.len() == 0 {
        0
    } else {
        decimal_value(s.drop_last()) * 10 + (s.last() - 48) as nat
    }
}

/// Position of the first `.` in `s`, if any.
pub open spec fn first_dot(s: Seq<u8>) -> Option<int> {
    if exists|i: int| 0 <= i < s.len() && s[i] == 46u8 {
        Some(choose|i: int| 0 <= i < s.len() && s[i] == 46u8 && forall|j: int| 0 <= j < i ==> s[j] != 46u8)
    } else {
        None
    }
}

/// The cents that the digits after the point stand for: zero-padded to two
/// digits, and truncated after two.
pub open spec fn fraction_cents(f: Seq<u8>) -> nat {
    if f.len() == 0 {
        0
    } else if f.len() == 1 {
        decimal_value(f) * 10
    } else {
        decimal_value(f.take(2))
    }
}

/// The digits of a whole part, past one optional leading `+`.
pub open spec fn unsigned(w: Seq<u8>) -> Seq<u8> {
    if w.len() > 0 && w[0] == 43u8 {
        w.drop_first()
    } else {
        w
    }
}

/// Whether `w` is a whole part: one optional `+`, then at least one digit.
pub open spec fn is_whole(w: Seq<u8>) -> bool {
    unsigned(w).len() > 0 && all_digits(unsigned(w))
}

/// The value in cents of a price string: whole units (with one optional
/// leading `+`), optionally followed by a point and more digits; `None` for
/// anything else.
pub open spec fn cents_of(s: Seq<u8>) -> Option<nat> {
    match first_dot(s) {
        None => if is_whole(s) {
            Some(decimal_value(unsigned(s)) * 100)
        } else {
            None
        },
        Some(d) => {
            let whole = s.take(d);
            let frac = s.skip(d + 1);
            if is_whole(whole) && all_digits(frac) {
                Some(decimal_value(unsigned(whole)) * 100 + fraction_cents(frac))
            } else {
                None
            }
        },
    }
}

/// What `parse_price_cents` returns for the bytes `s`: the cents where they
/// fit in a `u64`.
pub open spec fn parsed_cents(s: Seq<u8>) -> Option<u64> {
    match cents_of(s) {
        Some(v) => if v <= u64::MAX {
            Some(v as u64)
        } else {
            None
        },
        None => None,
    }
}

proof fn lemma_decimal_push(s: Seq<u8>, c: u8)
    ensures
        decimal_value(s.push(c)) == decimal_value(s) * 10 + (c - 48) as nat,
{
    assert(s.push(c).drop_last() =~= s);
}

/// Reads the digits `b[lo..hi]` as a number; `None` where one is not a digit
/// or the value does not fit in a `u64`.
fn read_digits(b: &[u8], lo: usize, hi: usize) -> (r: Option<u64>)
    requires
        lo <= hi <= b@.len(),
    ensures
        match r {
            Some(v) => all_digits(b@.subrange(lo as int, hi as int)) && v == decimal_value(
                b@.subrange(lo as int, hi as int),
            ),
            None => !all_digits(b@.subrange(lo as int, hi as int)) || decimal_value(
                b@.subrange(lo as int, hi as int),
            ) > u64::MAX,
        },
{
    let mut acc: u64 = 0;
    let mut i: usize = lo;
    while i < hi
        invariant
            lo <= i <= hi <= b@.len(),
            all_digits(b@.subrange(lo as int, i as int)),
            acc == decimal_value(b@.subrange(lo as int, i as int)),
        decreases hi - i,
    {
        let c = b[i];
        proof {
            assert(b@.subrange(lo as int, i + 1) =~= b@.subrange(lo as int, i as int).push(c));
            lemma_decimal_push(b@.subrange(lo as int, i as int), c);
        }
        if c < 48 || c > 57 {
            assert(!is_digit(b@.subrange(lo as int, hi as int)[i - lo]));
            return None;
        }
        let dg = (c - 48) as u64;
        if acc > (u64::MAX - dg) / 10 {
            proof {
                assert(acc * 10 + dg > u64::MAX) by (nonlinear_arith)
                    requires
                        acc > (u64::MAX - dg) / 10,
                        dg <= 9,
                ;
                let whole = b@.subrange(lo as int, hi as int);
                if all_digits(whole) {
                    lemma_decimal_prefix_bound(whole, (i + 1 - lo) as int);
                    assert(whole.take((i + 1 - lo) as int) =~= b@.subrange(lo as int, i + 1));
                }
            }
            return None;
        }
        acc = acc * 10 + (c - 48) as u64;
        i = i + 1;
    }
    Some(acc)
}

/// A prefix of a digit string never denotes more than the whole string.
proof fn lemma_decimal_prefix_bound(s: Seq<u8>, n: int)
    requires
        0 <= n <= s.len(),
        all_digits(s),
    ensures
        decimal_value(s.take(n)) <= decimal_value(s),
    decreases s.len(),
{
    if n < s.len() {
        lemma_decimal_prefix_bound(s.drop_last(), n);
        assert(s.drop_last().take(n) =~= s.take(n));
        assert(is_digit(s[s.len() - 1]));
    } else {
        assert(s.take(n) =~= s);
    }
}

/// Converts a decimal price string to integer cents without floating point.
pub fn parse_price_cents(s: &str) -> (r: Option<u64>)
    ensures
        r == parsed_cents(s.spec_bytes()),
{
    let b = s.as_bytes();
    let n = b.len();
    let mut d: usize = 0;
    while d < n && b[d] != 46u8
        invariant
            d <= n == b@.len(),
            forall|j: int| 0 <= j < d ==> b@[j] != 46u8,
        decreases n - d,
    {
        d = d + 1;
    }
    let start: usize = if n > 0 && b[0] == 43u8 {
        1
    } else {
        0
    };
    if d == n {
        assert(first_dot(b@) is None);
        assert(b@.subrange(start as int, n as int) =~= unsigned(b@));
        if start == n {
            return None;
        }
        match read_digits(b, start, n) {
            Some(v) => if v <= u64::MAX / 100 {
                Some(v * 100)
            } else {
                assert(v * 100 > u64::MAX) by (nonlinear_arith)
                    requires
                        v > u64::MAX / 100,
                ;
                None
            },
            None => None,
        }
    } else {
        proof {
            let s = b@;
            assert(s[d as int] == 46u8);
            let k = choose|i: int| 0 <= i < s.len() && s[i] == 46u8 && forall|j: int| 0 <= j < i ==> s[j] != 46u8;
            assert(k == d) by {
                if k < d {
                    assert(s[k] != 46u8);
                }
                if k > d {
                    assert(s[d as int] != 46u8);
                }
            }
        }
        assert(b@.subrange(0, d as int) =~= b@.take(d as int));
        assert(b@.subrange(d + 1, n as int) =~= b@.skip(d + 1));
        if d <= start {
            proof {
                if start == 1 {
                    assert(d == 1);
                    assert(unsigned(b@.take(d as int)).len() == 0);
                } else {
                    assert(b@.take(d as int).len() == 0);
                }
            }
            return None;
        }
        assert(b@.subrange(start as int, d as int) =~= unsigned(b@.take(d as int)));
        let whole = read_digits(b, start, d);
        let frac_all = read_all_digits(b, d + 1, n);
        match whole {
            None => None,
            Some(w) => {
                if !frac_all {
                    return None;
                }
                let flen = n - (d + 1);
                proof {
                    if flen >= 1 {
                        assert(is_digit(b@.subrange(d + 1, n as int)[0]));
                    }
                    if flen >= 2 {
                        assert(is_digit(b@.subrange(d + 1, n as int)[1]));
                    }
                }
                let f: u64 = if flen == 0 {
                    0
                } else if flen == 1 {
                    (b[d + 1] - 48) as u64 * 10
                } else {
                    (b[d + 1] - 48) as u64 * 10 + (b[d + 2] - 48) as u64
                };
                proof {
                    reveal_with_fuel(decimal_value, 3);
                    let fr = b@.skip(d + 1);
                    assert(flen >= 1 ==> fr[0] == b@[d + 1]);
                    assert(flen >= 2 ==> fr[1] == b@[d + 2]);
                    if flen == 1 {
                        assert(fr.drop_last() =~= Seq::<u8>::empty());
                    } else if flen >= 2 {
                        let t = fr.take(2);
                        assert(t.drop_last().drop_last() =~= Seq::<u8>::empty());
                        assert(t.drop_last().last() == b@[d + 1]);
                        assert(t.last() == b@[d + 2]);
                        assert(is_digit(fr[0]) && is_digit(fr[1]));
                    }
                }
                assert(f == fraction_cents(b@.skip(d + 1)));
                if w > (u64::MAX - f) / 100 {
                    assert(w * 100 + f > u64::MAX) by (nonlinear_arith)
                        requires
                            w > (u64::MAX - f) / 100,
                            f <= 99,
                    ;
                    None
                } else {
                    Some(w * 100 + f)
                }
            },
        }
    }
}

/// Whether all of `b[lo..hi]` are digits.
fn read_all_digits(b: &[u8], lo: usize, hi: usize) -> (r: bool)
    requires
        lo <= hi <= b@.len(),
    ensures
        r == all_digits(b@.subrange(lo as int, hi as int)),
{
    let mut i: usize = lo;
    while i < hi
        invariant
            lo <= i <= hi <= b@.len(),
            all_digits(b@.subrange(lo as int, i as int)),
        decreases hi - i,
    {
        if b[i] < 48 || b[i] > 57 {
            assert(!is_digit(b@.subrange(lo as int, hi as int)[i - lo]));
            return false;
        }
        assert(b@.subrange(lo as int, i + 1) =~= b@.subrange(lo as int, i as int).push(b[i as int]));
        i = i + 1;
    }
    true
}

} // verus!
