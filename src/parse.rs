use vstd::prelude::*;

use crate::point::COORD_LIMIT;

verus! {

/// ASCII white space: space, tab, line feed, vertical tab, form feed,
/// carriage return.
pub open spec fn is_ws(b: u8) -> bool {
    b == 32 || (9 <= b && b <= 13)
}

pub open spec fn is_digit(b: u8) -> bool {
    48 <= b && b <= 57
}

pub open spec fn all_digits(s: Seq<u8>) -> bool {
    forall|i: int| 0 <= i < s.len() ==> is_digit(#[trigger] s[i])
}

/// The maximal runs of non-white-space bytes, in order.
pub open spec fn tokens(s: Seq<u8>) -> Seq<Seq<u8>>
    decreases s.len(),
{
    if s.len() == 0 {
        seq![]
    } else {
        let t = tokens(s.drop_last());
        if is_ws(s.last()) {
            t
        } else if s.len() >= 2 && !is_ws(s[s.len() - 2]) {
            t.drop_last().push(t.last().push(s.last()))
        } else {
            t.push(seq![s.last()])
        }
    }
}

/// The value of a string of decimal digits.
pub open spec fn digits_value(s: Seq<u8>) -> nat
    decreases s.len(),
{
    if s.len() == 0 {
        0
    } else {
        digits_value(s.drop_last()) * 10 + (s.last() - 48) as nat
    }
}

/// Index of the first byte equal to `c1` or `c2`, or the length when there is
/// none.
pub open spec fn first_of(s: Seq<u8>, c1: u8, c2: u8) -> int
    decreases s.len(),
{
    if s.len() == 0 {
        0
    } else if first_of(s.drop_last(), c1, c2) < s.len() - 1 {
        first_of(s.drop_last(), c1, c2)
    } else if s.last() == c1 || s.last() == c2 {
        s.len() - 1
    } else {
        s.len() as int
    }
}

pub open spec fn pow10(n: nat) -> nat
    decreases n,
{
    if n == 0 {
        1
    } else {
        10 * pow10((n - 1) as nat)
    }
}

/// An exponent: an optional sign and one or more decimal digits.
pub open spec fn exponent_of(x: Seq<u8>) -> Option<int> {
    let neg = x.len() > 0 && x[0] == 45;
    let digits = if x.len() > 0 && (x[0] == 45 || x[0] == 43) {
        x.skip(1)
    } else {
        x
    };
    if digits.len() > 0 && all_digits(digits) {
        Some(
            if neg {
                -(digits_value(digits) as int)
            } else {
                digits_value(digits) as int
            },
        )
    } else {
        None
    }
}

/// `floor(digits_value(ds) * 10^k)`: the last `-k` digits dropped when `k` is
/// negative.
pub open spec fn scaled(ds: Seq<u8>, k: int) -> nat {
    if k >= 0 {
        digits_value(ds) * pow10(k as nat)
    } else if ds.len() + k > 0 {
        digits_value(ds.take(ds.len() + k))
    } else {
        0
    }
}

/// An unsigned decimal number in units of 10^-9, rounded toward zero: digits
/// with an optional point (at least one digit), then optionally `e` or `E`
/// and an exponent. Its value is the digit string `ds` (point removed) times
/// `10^(9 + exponent - fraction digits)`.
pub open spec fn unsigned_fixed(body: Seq<u8>) -> Option<nat> {
    let e = first_of(body, 101, 69);
    let mant = body.take(e);
    let ex = if e < body.len() {
        exponent_of(body.skip(e + 1))
    } else {
        Some(0int)
    };
    let d = first_of(mant, 46, 46);
    let ip = mant.take(d);
    let fp = if d < mant.len() {
        mant.skip(d + 1)
    } else {
        seq![]
    };
    if all_digits(ip) && all_digits(fp) && ip.len() + fp.len() > 0 && ex is Some {
        Some(scaled(ip + fp, 9 + ex->0 - fp.len()))
    } else {
        None
    }
}

/// A decimal number with an optional sign and an optional exponent, as a
/// fixed-point value with nine fractional digits (rounded toward zero), when
/// its magnitude is at most `COORD_LIMIT`.
pub open spec fn fixed_of(t: Seq<u8>) -> Option<int> {
    let neg = t.len() > 0 && t[0] == 45;
    let signed = t.len() > 0 && (t[0] == 45 || t[0] == 43);
    let body = if signed {
        t.skip(1)
    } else {
        t
    };
    match unsigned_fixed(body) {
        Some(m) => if m <= COORD_LIMIT {
            Some(if neg { -m } else { m as int })
        } else {
            None
        },
        None => None,
    }
}

/// An optional `+` and one or more decimal digits of value at most 255.
pub open spec fn u8_of(t: Seq<u8>) -> Option<u8> {
    let body = if t.len() > 0 && t[0] == 43 {
        t.skip(1)
    } else {
        t
    };
    if body.len() > 0 && all_digits(body) && digits_value(body) <= 255 {
        Some(digits_value(body) as u8)
    } else {
        None
    }
}

/// The runs of non-white-space bytes of `b`, as `(start, end)` pairs.
pub fn token_ranges(b: &[u8]) -> (r: Vec<(usize, usize)>)
    ensures
        r@.len() == tokens(b@).len(),
        forall|k: int|
            0 <= k < r@.len() ==> {
                &&& (#[trigger] r@[k]).0 <= r@[k].1 <= b@.len()
                &&& b@.subrange(r@[k].0 as int, r@[k].1 as int) == tokens(b@)[k]
            },
{
    let mut r: Vec<(usize, usize)> = Vec::new();
    let mut start: usize = 0;
    let mut in_tok = false;
    let mut i: usize = 0;
    while i < b.len()
        invariant
            i <= b@.len(),
            in_tok == (i > 0 && !is_ws(b@[i - 1])),
            in_tok ==> start < i,
            forall|k: int|
                0 <= k < r@.len() ==> (#[trigger] r@[k]).0 <= r@[k].1 <= i,
            ({
                let done = Seq::new(r@.len(), |k: int| b@.subrange(r@[k].0 as int, r@[k].1 as int));
                tokens(b@.take(i as int)) == if in_tok {
                    done.push(b@.subrange(start as int, i as int))
                } else {
                    done
                }
            }),
        decreases b@.len() - i,
    {
        let ghost done = Seq::new(r@.len(), |k: int| b@.subrange(r@[k].0 as int, r@[k].1 as int));
        let ghost s1 = b@.take(i + 1);
        proof {
            assert(s1.drop_last() == b@.take(i as int));
            assert(s1.last() == b@[i as int]);
            if i >= 1 {
                assert(s1[s1.len() - 2] == b@[i - 1]);
            }
        }
        let c = b[i];
        if c == 32 || (9 <= c && c <= 13) {
            if in_tok {
                r.push((start, i));
                in_tok = false;
                proof {
                    let done2 = Seq::new(r@.len(), |k: int| b@.subrange(r@[k].0 as int, r@[k].1 as int));
                    assert(done2 =~= done.push(b@.subrange(start as int, i as int)));
                }
            } else {
                proof {
                    let done2 = Seq::new(r@.len(), |k: int| b@.subrange(r@[k].0 as int, r@[k].1 as int));
                    assert(done2 =~= done);
                }
            }
        } else {
            if !in_tok {
                start = i;
                in_tok = true;
                proof {
                    assert(b@.subrange(i as int, i + 1) =~= seq![c]);
                }
            } else {
                proof {
                    assert(b@.subrange(start as int, i + 1) =~= b@.subrange(start as int, i as int).push(c));
                    let t = tokens(b@.take(i as int));
                    assert(t.drop_last() =~= done);
                }
            }
            proof {
                let done2 = Seq::new(r@.len(), |k: int| b@.subrange(r@[k].0 as int, r@[k].1 as int));
                assert(done2 =~= done);
            }
        }
        i += 1;
    }
    if in_tok {
        r.push((start, i));
    }
    proof {
        assert(b@.take(i as int) =~= b@);
        let done = Seq::new(r@.len(), |k: int| b@.subrange(r@[k].0 as int, r@[k].1 as int));
        assert(tokens(b@) =~= done);
    }
    r
}

proof fn lemma_pow10_add(a: nat, b: nat)
    ensures
        pow10(a) * pow10(b) == pow10(a + b),
        pow10(a) >= 1,
    decreases a,
{
    if a == 0 {
        assert(pow10(0) == 1);
    } else {
        let a1 = (a - 1) as nat;
        lemma_pow10_add(a1, b);
        assert(a1 + b + 1 == a + b);
        assert(pow10(a + b) == 10 * pow10(a1 + b));
        assert(pow10(a) == 10 * pow10(a1));
        let x = pow10(a1);
        let y = pow10(b);
        assert((10 * x) * y == 10 * (x * y)) by (nonlinear_arith);
    }
}

/// Above `COORD_LIMIT`: digit values are accumulated up to this cap.
const VALUE_CAP: u128 = 1_152_921_504_606_846_977;

/// Exponents are clamped to `[-EXP_CAP, EXP_CAP]` (2^70): beyond that the
/// value is zero or out of range whatever the token's length.
const EXP_CAP: u128 = 1_180_591_620_717_411_303_424;

pub open spec fn sat(x: int, cap: int) -> int {
    if x < cap {
        x
    } else {
        cap
    }
}

proof fn lemma_first_of_bound(s: Seq<u8>, c1: u8, c2: u8)
    ensures
        0 <= first_of(s, c1, c2) <= s.len(),
        first_of(s, c1, c2) < s.len() ==> (s[first_of(s, c1, c2)] == c1 || s[first_of(s, c1, c2)]
            == c2),
        forall|j: int| 0 <= j < first_of(s, c1, c2) ==> s[j] != c1 && s[j] != c2,
    decreases s.len(),
{
    if s.len() > 0 {
        let t = s.drop_last();
        lemma_first_of_bound(t, c1, c2);
        assert forall|j: int| 0 <= j < first_of(s, c1, c2) implies s[j] != c1 && s[j] != c2 by {
            if j < s.len() - 1 {
                assert(t[j] == s[j]);
            }
        }
        if first_of(t, c1, c2) < s.len() - 1 {
            assert(t[first_of(t, c1, c2)] == s[first_of(t, c1, c2)]);
        }
    }
}

/// The first of `c1`, `c2` is at `k` when `s[k]` is one and none comes
/// before; there is none when no byte is one.
proof fn lemma_first_of_at(s: Seq<u8>, c1: u8, c2: u8, k: int)
    requires
        0 <= k <= s.len(),
        k < s.len() ==> (s[k] == c1 || s[k] == c2),
        forall|j: int| 0 <= j < k ==> s[j] != c1 && s[j] != c2,
    ensures
        first_of(s, c1, c2) == k,
    decreases s.len(),
{
    if s.len() > 0 {
        let t = s.drop_last();
        if k == s.len() {
            lemma_first_of_at(t, c1, c2, k - 1);
        } else {
            lemma_first_of_bound(t, c1, c2);
            lemma_first_of_at(t, c1, c2, k);
        }
    }
}

proof fn lemma_pow10_mono(a: nat, b: nat)
    requires
        a <= b,
    ensures
        pow10(a) <= pow10(b),
{
    lemma_pow10_add(a, (b - a) as nat);
    lemma_pow10_add((b - a) as nat, 0);
    assert(pow10((b - a) as nat) >= 1);
    assert(pow10(a) * pow10((b - a) as nat) >= pow10(a)) by (nonlinear_arith)
        requires
            pow10((b - a) as nat) >= 1,
            pow10(a) >= 0,
    ;
}

proof fn lemma_pow10_19()
    ensures
        pow10(19) == 10_000_000_000_000_000_000,
{
    reveal_with_fuel(pow10, 20);
}

/// Index of the first `c1` or `c2` in `s[a..b]`, or `b`.
fn find_mark(s: &[u8], a: usize, b: usize, c1: u8, c2: u8) -> (r: usize)
    requires
        a <= b <= s@.len(),
    ensures
        a <= r <= b,
        r - a == first_of(s@.subrange(a as int, b as int), c1, c2),
{
    let ghost t = s@.subrange(a as int, b as int);
    let mut i = a;
    while i < b && s[i] != c1 && s[i] != c2
        invariant
            a <= i <= b <= s@.len(),
            t == s@.subrange(a as int, b as int),
            forall|j: int| 0 <= j < i - a ==> t[j] != c1 && t[j] != c2,
        decreases b - i,
    {
        i += 1;
    }
    proof {
        lemma_first_of_at(t, c1, c2, i - a);
    }
    i
}

/// Whether `s[a..b]` is all decimal digits.
fn check_digits(s: &[u8], a: usize, b: usize) -> (ok: bool)
    requires
        a <= b <= s@.len(),
    ensures
        ok == all_digits(s@.subrange(a as int, b as int)),
{
    let ghost t = s@.subrange(a as int, b as int);
    let mut i = a;
    while i < b
        invariant
            a <= i <= b <= s@.len(),
            t == s@.subrange(a as int, b as int),
            forall|j: int| 0 <= j < i - a ==> is_digit(#[trigger] t[j]),
        decreases b - i,
    {
        if s[i] < 48 || s[i] > 57 {
            assert(!is_digit(t[i - a]));
            return false;
        }
        i += 1;
    }
    true
}

/// `min(digits_value(s[a..b]), cap)` for a digit string.
fn sat_value(s: &[u8], a: usize, b: usize, cap: u128) -> (v: u128)
    requires
        a <= b <= s@.len(),
        all_digits(s@.subrange(a as int, b as int)),
        1 <= cap <= EXP_CAP,
    ensures
        v == sat(digits_value(s@.subrange(a as int, b as int)) as int, cap as int),
{
    let ghost t = s@.subrange(a as int, b as int);
    let mut v: u128 = 0;
    let mut i = a;
    while i < b
        invariant
            a <= i <= b <= s@.len(),
            t == s@.subrange(a as int, b as int),
            all_digits(t),
            1 <= cap <= EXP_CAP,
            v == sat(digits_value(t.take(i - a)) as int, cap as int),
        decreases b - i,
    {
        proof {
            assert(t.take(i - a + 1).drop_last() == t.take(i - a));
            assert(t.take(i - a + 1).last() == s@[i as int]);
            assert(is_digit(t[i - a]));
        }
        let w = v * 10 + (s[i] - 48) as u128;
        v = if w < cap {
            w
        } else {
            cap
        };
        i += 1;
    }
    proof {
        assert(t.take(i - a) == t);
    }
    v
}

/// Reads `s[a..b]` as an exponent, clamped to `[-EXP_CAP, EXP_CAP]`.
fn parse_exponent(s: &[u8], a: usize, b: usize) -> (r: Option<i128>)
    requires
        a <= b <= s@.len(),
    ensures
        r is None <==> exponent_of(s@.subrange(a as int, b as int)) is None,
        r matches Some(v) ==> {
            let e = exponent_of(s@.subrange(a as int, b as int))->0;
            v == if e > EXP_CAP {
                EXP_CAP as int
            } else if e < -EXP_CAP {
                -EXP_CAP
            } else {
                e
            }
        },
{
    let ghost x = s@.subrange(a as int, b as int);
    let neg = b > a && s[a] == 45;
    let signed = b > a && (s[a] == 45 || s[a] == 43);
    let start = if signed {
        a + 1
    } else {
        a
    };
    proof {
        if b > a {
            assert(x[0] == s@[a as int]);
        }
        if signed {
            assert(s@.subrange(start as int, b as int) =~= x.skip(1));
        } else {
            assert(s@.subrange(start as int, b as int) =~= x);
        }
    }
    if start == b || !check_digits(s, start, b) {
        return None;
    }
    let v = sat_value(s, start, b, EXP_CAP);
    if neg {
        Some(-(v as i128))
    } else {
        Some(v as i128)
    }
}

/// The digit string of a mantissa `s[start..dpos]` with fraction digits
/// `s[dpos + 1..epos]` when `dpos < epos`.
pub open spec fn mantissa_digits(s: Seq<u8>, start: int, dpos: int, epos: int) -> Seq<u8> {
    s.subrange(start, dpos) + if dpos < epos {
        s.subrange(dpos + 1, epos)
    } else {
        seq![]
    }
}

/// The value is in range exactly when it is for the clamped exponent, and
/// then the two agree.
proof fn lemma_clamped_exponent(ds: Seq<u8>, ktrue: int, ksat: int)
    requires
        ds.len() <= 0xFFFF_FFFF_FFFF_FFFF,
        ktrue == ksat || (ktrue > ksat && ksat > 18) || (ktrue < ksat && ksat + ds.len() < 0),
    ensures
        (scaled(ds, ktrue) <= COORD_LIMIT) == (scaled(ds, ksat) <= COORD_LIMIT),
        scaled(ds, ksat) <= COORD_LIMIT ==> scaled(ds, ktrue) == scaled(ds, ksat),
{
    if ktrue > ksat && ksat > 18 {
        lemma_pow10_19();
        lemma_pow10_mono(19, ksat as nat);
        lemma_pow10_mono(19, ktrue as nat);
        let d = digits_value(ds);
        if d == 0 {
            assert(d * pow10(ksat as nat) == 0 && d * pow10(ktrue as nat) == 0) by (nonlinear_arith)
                requires
                    d == 0,
            ;
        } else {
            assert(d * pow10(ksat as nat) >= pow10(ksat as nat)) by (nonlinear_arith)
                requires
                    d >= 1,
            ;
            assert(d * pow10(ktrue as nat) >= pow10(ktrue as nat)) by (nonlinear_arith)
                requires
                    d >= 1,
            ;
        }
    }
}

/// `floor(digits * 10^k)` for the mantissa digits of `s`, when at most
/// `COORD_LIMIT`.
fn scaled_limited(s: &[u8], start: usize, dpos: usize, epos: usize, k: i128) -> (r: Option<u64>)
    requires
        start <= dpos <= epos <= s@.len(),
        all_digits(s@.subrange(start as int, dpos as int)),
        dpos < epos ==> all_digits(s@.subrange(dpos + 1, epos as int)),
        -0x1_0000_0000_0000_0000_0000_0000 <= k <= 0x1_0000_0000_0000_0000_0000_0000,
    ensures
        match r {
            Some(v) => scaled(mantissa_digits(s@, start as int, dpos as int, epos as int), k as int)
                == v && v <= COORD_LIMIT,
            None => scaled(mantissa_digits(s@, start as int, dpos as int, epos as int), k as int)
                > COORD_LIMIT,
        },
{
    let ghost ip = s@.subrange(start as int, dpos as int);
    let ghost fp: Seq<u8> = if dpos < epos {
        s@.subrange(dpos + 1, epos as int)
    } else {
        seq![]
    };
    let ghost ds = ip + fp;
    let ipl = dpos - start;
    let fpl = if dpos < epos {
        epos - dpos - 1
    } else {
        0
    };
    let n = ipl + fpl;
    proof {
        assert(ds == mantissa_digits(s@, start as int, dpos as int, epos as int));
        assert(ds.len() == n);
        lemma_pow10_19();
    }
    let m: usize = if k >= 0 {
        n
    } else if (n as i128) + k > 0 {
        ((n as i128) + k) as usize
    } else {
        0
    };
    let mut v: u128 = 0;
    let mut i: usize = 0;
    while i < m
        invariant
            i <= m <= n,
            n == ipl + fpl,
            ds == ip + fp,
            ds.len() == n,
            ip == s@.subrange(start as int, dpos as int),
            ipl == dpos - start,
            start <= dpos <= epos <= s@.len(),
            dpos < epos ==> fp == s@.subrange(dpos + 1, epos as int) && fpl == epos - dpos - 1,
            dpos >= epos ==> fp.len() == 0 && fpl == 0,
            all_digits(ip),
            all_digits(fp),
            v == sat(digits_value(ds.take(i as int)) as int, VALUE_CAP as int),
        decreases m - i,
    {
        let c = if i < ipl {
            s[start + i]
        } else {
            s[dpos + 1 + (i - ipl)]
        };
        proof {
            assert(ds.take(i + 1).drop_last() == ds.take(i as int));
            assert(ds.take(i + 1).last() == c);
            if i < ipl {
                assert(is_digit(ip[i as int]));
            } else {
                assert(is_digit(fp[i - ipl]));
            }
        }
        let w = v * 10 + (c - 48) as u128;
        v = if w < VALUE_CAP {
            w
        } else {
            VALUE_CAP
        };
        i += 1;
    }
    proof {
        if k >= 0 {
            assert(ds.take(m as int) == ds);
        }
    }
    if v == VALUE_CAP {
        proof {
            if k >= 0 {
                lemma_pow10_mono(0, k as nat);
                assert(pow10(0) == 1);
                let d = digits_value(ds);
                assert(d * pow10(k as nat) >= d) by (nonlinear_arith)
                    requires
                        pow10(k as nat) >= 1,
                        d >= 0,
                ;
            }
        }
        return None;
    }
    if k < 0 {
        if v > COORD_LIMIT as u128 {
            return None;
        }
        return Some(v as u64);
    }
    if v == 0 {
        proof {
            let d = digits_value(ds);
            assert(d * pow10(k as nat) == 0) by (nonlinear_arith)
                requires
                    d == 0,
            ;
        }
        return Some(0);
    }
    if k > 18 {
        proof {
            lemma_pow10_mono(19, k as nat);
            let d = digits_value(ds);
            assert(d * pow10(k as nat) >= pow10(k as nat)) by (nonlinear_arith)
                requires
                    d >= 1,
            ;
        }
        return None;
    }
    let mut p: u128 = 1;
    let mut j: i128 = 0;
    proof {
        assert(pow10(0) == 1);
    }
    while j < k
        invariant
            0 <= j <= k <= 18,
            p == pow10(j as nat),
            p <= 1_000_000_000_000_000_000,
        decreases k - j,
    {
        proof {
            assert(pow10((j + 1) as nat) == 10 * pow10(j as nat));
            lemma_pow10_mono((j + 1) as nat, 18);
            assert(pow10(18) == 1_000_000_000_000_000_000) by {
                reveal_with_fuel(pow10, 19);
            }
        }
        p = p * 10;
        j += 1;
    }
    proof {
        assert(v * p <= 1_152_921_504_606_846_977 * 1_000_000_000_000_000_000) by (nonlinear_arith)
            requires
                v <= 1_152_921_504_606_846_977,
                p <= 1_000_000_000_000_000_000,
        ;
    }
    let mag = v * p;
    if mag > COORD_LIMIT as u128 {
        return None;
    }
    Some(mag as u64)
}

/// Reads `s[lo..hi]` as an unsigned decimal number into units of 10^-9, when
/// it is one and its value is at most `COORD_LIMIT`.
fn parse_unsigned(s: &[u8], lo: usize, hi: usize) -> (r: Option<u64>)
    requires
        lo <= hi <= s@.len(),
    ensures
        match r {
            Some(v) => unsigned_fixed(s@.subrange(lo as int, hi as int)) == Some(v as nat) && v
                <= COORD_LIMIT,
            None => match unsigned_fixed(s@.subrange(lo as int, hi as int)) {
                Some(m) => m > COORD_LIMIT,
                None => true,
            },
        },
{
    let ghost body = s@.subrange(lo as int, hi as int);
    let epos = find_mark(s, lo, hi, 101, 69);
    let dpos = find_mark(s, lo, epos, 46, 46);
    let ghost mant = body.take(epos - lo);
    proof {
        assert(mant =~= s@.subrange(lo as int, epos as int));
        assert(mant.take(dpos - lo) =~= s@.subrange(lo as int, dpos as int));
        if dpos < epos {
            assert(mant.skip(dpos - lo + 1) =~= s@.subrange(dpos + 1, epos as int));
        }
        if epos < hi {
            assert(body.skip(epos - lo + 1) =~= s@.subrange(epos + 1, hi as int));
        }
        assert(mantissa_digits(s@, lo as int, dpos as int, epos as int) =~= mant.take(dpos - lo)
            + if dpos < epos {
            mant.skip(dpos - lo + 1)
        } else {
            seq![]
        });
    }
    if !check_digits(s, lo, dpos) {
        return None;
    }
    if dpos < epos && !check_digits(s, dpos + 1, epos) {
        return None;
    }
    let fpl = if dpos < epos {
        epos - dpos - 1
    } else {
        0
    };
    if dpos - lo + fpl == 0 {
        return None;
    }
    let ex = if epos < hi {
        parse_exponent(s, epos + 1, hi)
    } else {
        Some(0)
    };
    let e = match ex {
        Some(e) => e,
        None => {
            return None;
        },
    };
    let k: i128 = 9 + e - fpl as i128;
    proof {
        let ds = mantissa_digits(s@, lo as int, dpos as int, epos as int);
        let et = if epos < hi {
            exponent_of(body.skip(epos - lo + 1))->0
        } else {
            0
        };
        assert(ds.len() == dpos - lo + fpl);
        assert(usize::MAX <= 0xFFFF_FFFF_FFFF_FFFF);
        lemma_clamped_exponent(ds, 9 + et - fpl, k as int);
    }
    scaled_limited(s, lo, dpos, epos, k)
}

/// Reads `s[lo..hi]` as a decimal number (optional sign, digits with an
/// optional point, optional exponent) into a fixed-point value with nine
/// fractional digits, rounded toward zero.
pub fn parse_fixed(s: &[u8], lo: usize, hi: usize) -> (r: Option<i64>)
    requires
        lo <= hi <= s@.len(),
    ensures
        match r {
            Some(v) => fixed_of(s@.subrange(lo as int, hi as int)) == Some(v as int),
            None => fixed_of(s@.subrange(lo as int, hi as int)) is None,
        },
{
    let ghost t = s@.subrange(lo as int, hi as int);
    let neg = hi > lo && s[lo] == 45;
    let signed = hi > lo && (s[lo] == 45 || s[lo] == 43);
    let start = if signed {
        lo + 1
    } else {
        lo
    };
    proof {
        if hi > lo {
            assert(t[0] == s@[lo as int]);
        }
        if signed {
            assert(s@.subrange(start as int, hi as int) =~= t.skip(1));
        } else {
            assert(s@.subrange(start as int, hi as int) =~= t);
        }
    }
    match parse_unsigned(s, start, hi) {
        Some(m) => {
            if neg {
                Some(-(m as i64))
            } else {
                Some(m as i64)
            }
        },
        None => None,
    }
}

/// Reads `s[lo..hi]` as a `u8`: an optional `+` and decimal digits.
pub fn parse_u8(s: &[u8], lo: usize, hi: usize) -> (r: Option<u8>)
    requires
        lo <= hi <= s@.len(),
    ensures
        r == u8_of(s@.subrange(lo as int, hi as int)),
{
    let ghost t = s@.subrange(lo as int, hi as int);
    let plus = hi > lo && s[lo] == 43;
    let start = if plus {
        lo + 1
    } else {
        lo
    };
    let ghost body = s@.subrange(start as int, hi as int);
    proof {
        if hi > lo {
            assert(t[0] == s@[lo as int]);
        }
        if plus {
            assert(body =~= t.skip(1));
        } else {
            assert(body =~= t);
        }
    }
    if start == hi {
        return None;
    }
    let mut v: u32 = 0;
    let mut i = start;
    while i < hi
        invariant
            start <= i <= hi <= s@.len(),
            body == s@.subrange(start as int, hi as int),
            t == s@.subrange(lo as int, hi as int),
            plus == (t.len() > 0 && t[0] == 43),
            body == if plus { t.skip(1) } else { t },
            all_digits(body.take(i - start)),
            v == if digits_value(body.take(i - start)) < 256 {
                digits_value(body.take(i - start))
            } else {
                256
            },
        decreases hi - i,
    {
        let c = s[i];
        if c < 48 || c > 57 {
            proof {
                assert(!is_digit(body[i - start]));
                assert(!all_digits(body));
            }
            return None;
        }
        proof {
            assert(body.take(i - start + 1).drop_last() == body.take(i - start));
            assert(body.take(i - start + 1).last() == c);
        }
        let w = v * 10 + (c - 48) as u32;
        v = if w < 256 {
            w
        } else {
            256
        };
        i += 1;
    }
    proof {
        assert(body.take(i - start) == body);
    }
    if v <= 255 {
        Some(v as u8)
    } else {
        None
    }
}

} // verus!
