//! Verified decimal conversions: rendering counts into messages, parsing
//! signed integers from source text, and truncating division, all pinned
//! to small recursive specifications.

use vstd::prelude::*;
use vstd::string::*;

verus! {

/// The decimal digit character for `d` in `0 ..= 9`.
pub open spec fn spec_digit_char(d: int) -> char {
    if d == 0 {
        '0'
    } else if d == 1 {
        '1'
    } else if d == 2 {
        '2'
    } else if d == 3 {
        '3'
    } else if d == 4 {
        '4'
    } else if d == 5 {
        '5'
    } else if d == 6 {
        '6'
    } else if d == 7 {
        '7'
    } else if d == 8 {
        '8'
    } else {
        '9'
    }
}

/// The decimal rendering of a non-negative integer, no leading zeros
/// except for zero itself.
pub open spec fn spec_nat_chars(n: int) -> Seq<char>
    decreases n,
{
    if n < 10 {
        seq![spec_digit_char(n)]
    } else {
        spec_nat_chars(n / 10).push(spec_digit_char(n % 10))
    }
}

/// The digit string for one digit value.
fn digit_str(d: usize) -> (r: &'static str)
    requires
        d < 10,
    ensures
        r@ == seq![spec_digit_char(d as int)],
{
    let r = match d {
        0 => "0",
        1 => "1",
        2 => "2",
        3 => "3",
        4 => "4",
        5 => "5",
        6 => "6",
        7 => "7",
        8 => "8",
        _ => "9",
    };
    proof {
        reveal_strlit("0");
        reveal_strlit("1");
        reveal_strlit("2");
        reveal_strlit("3");
        reveal_strlit("4");
        reveal_strlit("5");
        reveal_strlit("6");
        reveal_strlit("7");
        reveal_strlit("8");
        reveal_strlit("9");
        assert(r@ =~= seq![spec_digit_char(d as int)]);
    }
    r
}

/// Render `n` in decimal, per `spec_nat_chars`.
pub fn usize_to_string(n: usize) -> (r: String)
    ensures
        r@ == spec_nat_chars(n as int),
    decreases n,
{
    if n < 10 {
        digit_str(n).to_owned()
    } else {
        let mut s = usize_to_string(n / 10);
        s.append(digit_str(n % 10));
        proof {
            assert(s@ =~= spec_nat_chars(n as int));
        }
        s
    }
}

/// The decimal rendering of a machine integer: a minus sign before the
/// magnitude when negative.
pub open spec fn spec_int_chars(i: int) -> Seq<char> {
    if i < 0 {
        seq!['-'] + spec_nat_chars(-i)
    } else {
        spec_nat_chars(i)
    }
}

/// Render `n` in decimal, per `spec_int_chars`.
pub fn isize_to_string(n: isize) -> (r: String)
    ensures
        r@ == spec_int_chars(n as int),
{
    if n >= 0 {
        usize_to_string(n as usize)
    } else {
        let mut m = String::new();
        m.append("-");
        let mag = magnitude(n);
        let d = usize_to_string(mag);
        m.append(d.as_str());
        proof {
            reveal_strlit("-");
            assert("-"@ =~= seq!['-']);
            assert(m@ =~= seq!['-'] + spec_nat_chars(-(n as int)));
        }
        m
    }
}

/// Render a closure stamp in decimal, per `spec_nat_chars`.
pub fn u64_to_string(n: u64) -> (r: String)
    ensures
        r@ == spec_nat_chars(n as int),
    decreases n,
{
    if n < 10 {
        digit_str((n % 10) as usize).to_owned()
    } else {
        let mut s = u64_to_string(n / 10);
        s.append(digit_str((n % 10) as usize));
        proof {
            assert(s@ =~= spec_nat_chars(n as int));
        }
        s
    }
}

/// Whether `c` is a decimal digit.
pub open spec fn spec_is_digit(c: char) -> bool {
    '0' <= c <= '9'
}

/// The value of a digit character.
pub open spec fn spec_digit_val(c: char) -> int {
    c as int - '0' as int
}

/// Whether every character of `ds` is a decimal digit.
pub open spec fn spec_all_digits(ds: Seq<char>) -> bool {
    forall|i: int| 0 <= i < ds.len() ==> spec_is_digit(#[trigger] ds[i])
}

/// The value of a digit string, most significant first.
pub open spec fn spec_digits_val(ds: Seq<char>) -> int
    decreases ds.len(),
{
    if ds.len() == 0 {
        0
    } else {
        spec_digits_val(ds.drop_last()) * 10 + spec_digit_val(ds.last())
    }
}

/// The number a token spells: an optional sign, then one or more digits;
/// anything else has no value.  The value is unbounded here; machine
/// range is checked where the number is used.
pub open spec fn spec_parse_int(s: Seq<char>) -> Option<int> {
    if s.len() == 0 {
        None
    } else {
        let neg = s[0] == '-';
        let ds = if s[0] == '-' || s[0] == '+' {
            s.drop_first()
        } else {
            s
        };
        if ds.len() > 0 && spec_all_digits(ds) {
            if neg {
                Some(-spec_digits_val(ds))
            } else {
                Some(spec_digits_val(ds))
            }
        } else {
            None
        }
    }
}

/// A digit string's value never goes down as digits are appended.
proof fn lemma_digits_val_grows(ds: Seq<char>, i: int)
    requires
        0 <= i <= ds.len(),
        spec_all_digits(ds),
    ensures
        spec_digits_val(ds) >= spec_digits_val(ds.take(i)),
        spec_digits_val(ds.take(i)) >= 0,
    decreases ds.len() - i,
{
    if i == ds.len() {
        assert(ds.take(i) =~= ds);
        lemma_digits_val_nonneg(ds);
    } else {
        lemma_digits_val_grows(ds, i + 1);
        assert(ds.take(i + 1).drop_last() =~= ds.take(i));
        assert(spec_digits_val(ds.take(i + 1)) == spec_digits_val(ds.take(i)) * 10
            + spec_digit_val(ds.take(i + 1).last()));
        lemma_digits_val_nonneg(ds.take(i));
    }
}

proof fn lemma_digits_val_nonneg(ds: Seq<char>)
    requires
        spec_all_digits(ds),
    ensures
        spec_digits_val(ds) >= 0,
    decreases ds.len(),
{
    if ds.len() > 0 {
        assert(spec_all_digits(ds.drop_last()));
        lemma_digits_val_nonneg(ds.drop_last());
    }
}

/// Parse a signed decimal integer, exactly as `spec_parse_int` reads it,
/// rejecting values outside the machine range.
pub fn parse_isize_str(s: &str) -> (r: Option<isize>)
    ensures
        match spec_parse_int(s@) {
            Some(v) => if isize::MIN <= v <= isize::MAX {
                r == Some(v as isize)
            } else {
                r is None
            },
            None => r is None,
        },
{
    let n = s.unicode_len();
    if n == 0 {
        return None;
    }
    let first = s.get_char(0);
    let neg = first == '-';
    let start: usize = if first == '-' || first == '+' {
        1
    } else {
        0
    };
    let ghost ds = if s@[0] == '-' || s@[0] == '+' {
        s@.drop_first()
    } else {
        s@
    };
    proof {
        assert(ds =~= s@.skip(start as int));
    }
    if n == start {
        proof {
            assert(ds.len() == 0);
            assert(spec_parse_int(s@) is None);
        }
        return None;
    }
    // Accumulate the negated value: the negative range is one wider, so
    // the minimum parses without overflow.
    let mut acc: isize = 0;
    let mut i: usize = start;
    while i < n
        invariant
            start <= i <= n,
            n == s@.len(),
            start == 0 || start == 1,
            start < n,
            ds == s@.skip(start as int),
            ds == (if s@[0] == '-' || s@[0] == '+' {
                s@.drop_first()
            } else {
                s@
            }),
            neg == (s@[0] == '-'),
            spec_all_digits(ds.take(i - start)),
            acc == -spec_digits_val(ds.take(i - start)),
            acc <= 0,
        decreases n - i,
    {
        let c = s.get_char(i);
        if !(c >= '0' && c <= '9') {
            proof {
                assert(ds[i - start] == c);
                assert(!spec_is_digit(ds[i - start]));
                assert(!spec_all_digits(ds));
                assert(spec_parse_int(s@) is None);
            }
            return None;
        }
        let d = (c as u32 - '0' as u32) as isize;
        proof {
            assert(ds[i - start] == c);
            assert(spec_digit_val(c) == d as int);
        }
        let ghost v = spec_digits_val(ds.take(i - start));
        let acc10 = match acc.checked_mul(10) {
            Some(v) => v,
            None => {
                proof {
                    assert(acc * 10 <= 0) by (nonlinear_arith)
                        requires
                            acc <= 0,
                    ;
                    assert(acc * 10 < isize::MIN as int);
                    assert(spec_digit_val(ds[i - start]) >= 0);
                    assert(v * 10 + spec_digit_val(ds[i - start]) > -(isize::MIN as int));
                    overflow_means_out_of_range(ds, (i - start) as int, s@);
                    out_of_range_rejects(ds, s@);
                }
                return None;
            },
        };
        proof {
            assert(acc10 == acc * 10);
        }
        let acc2 = match acc10.checked_sub(d) {
            Some(v) => v,
            None => {
                proof {
                    assert(acc10 - d < isize::MIN as int);
                    assert(v * 10 + spec_digit_val(ds[i - start]) > -(isize::MIN as int));
                    overflow_means_out_of_range(ds, (i - start) as int, s@);
                    out_of_range_rejects(ds, s@);
                }
                return None;
            },
        };
        acc = acc2;
        i = i + 1;
        proof {
            assert(ds.take(i - start).drop_last() =~= ds.take(i - start - 1));
            assert(ds.take(i - start).last() == c);
        }
    }
    proof {
        assert(ds.take(n - start) =~= ds);
    }
    if neg {
        Some(acc)
    } else {
        if acc == isize::MIN {
            return None;
        }
        Some(-acc)
    }
}

/// If one more digit overflows the accumulator, the whole literal is out
/// of the machine range.
proof fn overflow_means_out_of_range(ds: Seq<char>, i: int, s: Seq<char>)
    requires
        0 <= i < ds.len(),
        spec_all_digits(ds.take(i)),
        spec_is_digit(ds[i]),
        spec_digits_val(ds.take(i)) * 10 + spec_digit_val(ds[i]) > -(isize::MIN as int),
    ensures
        spec_digits_val(ds) > -(isize::MIN as int) || !spec_all_digits(ds),
{
    if spec_all_digits(ds) {
        lemma_digits_val_grows(ds, i + 1);
        assert(ds.take(i + 1).drop_last() =~= ds.take(i));
        assert(ds.take(i + 1).last() == ds[i]);
        assert(spec_digits_val(ds.take(i + 1)) == spec_digits_val(ds.take(i)) * 10 + spec_digit_val(
            ds[i],
        ));
    }
}

/// A literal whose digits exceed the widest magnitude is rejected
/// whichever sign it carries.
proof fn out_of_range_rejects(ds: Seq<char>, s: Seq<char>)
    requires
        s.len() > 0,
        ds == (if s[0] == '-' || s[0] == '+' {
            s.drop_first()
        } else {
            s
        }),
        spec_digits_val(ds) > -(isize::MIN as int) || !spec_all_digits(ds),
    ensures
        match spec_parse_int(s) {
            Some(v) => v < isize::MIN as int || v > isize::MAX as int,
            None => true,
        },
{
}

/// Division truncating toward zero, as machine division does.
pub open spec fn spec_trunc_div(a: int, b: int) -> int {
    let q = abs_int(a) / abs_int(b);
    if (a < 0) != (b < 0) {
        -q
    } else {
        q
    }
}

/// The remainder matching `spec_trunc_div`: it takes the dividend's sign.
pub open spec fn spec_trunc_rem(a: int, b: int) -> int {
    let m = abs_int(a) % abs_int(b);
    if a < 0 {
        -m
    } else {
        m
    }
}

/// Absolute value.
pub open spec fn abs_int(a: int) -> int {
    if a < 0 {
        -a
    } else {
        a
    }
}

/// The magnitude of `n` as a machine word; the minimum's magnitude still
/// fits, one above the signed maximum.
fn magnitude(n: isize) -> (r: usize)
    ensures
        r == abs_int(n as int),
{
    if n >= 0 {
        n as usize
    } else if n == isize::MIN {
        (isize::MAX as usize) + 1
    } else {
        (-n) as usize
    }
}

/// Truncating signed division, built on unsigned division so that the
/// result is pinned to `spec_trunc_div`; the one overflowing quotient
/// (the minimum divided by negative one) wraps to the minimum.
pub fn div_isize(a: isize, b: isize) -> (r: isize)
    requires
        b != 0,
    ensures
        a == isize::MIN && b == -1 ==> r == isize::MIN,
        !(a == isize::MIN && b == -1) ==> r == spec_trunc_div(a as int, b as int),
{
    if a == isize::MIN && b == -1 {
        return isize::MIN;
    }
    let ma = magnitude(a);
    let mb = magnitude(b);
    let q = ma / mb;
    proof {
        vstd::arithmetic::div_mod::lemma_div_is_ordered_by_denominator(ma as int, 1, mb as int);
        vstd::arithmetic::div_mod::lemma_div_basics(ma as int);
        assert(q <= ma);
    }
    if (a < 0) != (b < 0) {
        if q == (isize::MAX as usize) + 1 {
            // the whole minimum magnitude divided by magnitude one: the
            // quotient is the minimum itself
            isize::MIN
        } else {
            -(q as isize)
        }
    } else {
        proof {
            if ma == (isize::MAX as usize) + 1 {
                // here a is the minimum and b is not -1 or 1, so the
                // magnitude of b is at least two and the quotient shrinks
                assert(a == isize::MIN);
                assert(b != 1 && b != -1);
                assert(mb >= 2);
                vstd::arithmetic::div_mod::lemma_div_is_ordered_by_denominator(
                    ma as int,
                    2,
                    mb as int,
                );
                vstd::arithmetic::div_mod::lemma_div_decreases(ma as int, 2);
                assert(q < ma);
            }
        }
        q as isize
    }
}

/// Truncating signed remainder, pinned to `spec_trunc_rem`.
pub fn rem_isize(a: isize, b: isize) -> (r: isize)
    requires
        b != 0,
    ensures
        r == spec_trunc_rem(a as int, b as int),
{
    let ma = magnitude(a);
    let mb = magnitude(b);
    let m = ma % mb;
    proof {
        vstd::arithmetic::div_mod::lemma_mod_bound(ma as int, mb as int);
        assert(m < mb);
        assert(m <= isize::MAX as usize);
    }
    if a < 0 {
        -(m as isize)
    } else {
        m as isize
    }
}

} // verus!
