//! Decimal digits on bytes: reading unsigned integers and fixed-point
//! millisecond values, and writing unsigned integers.
use vstd::prelude::*;

verus! {

pub open spec fn is_digit(b: u8) -> bool {
    48 <= b && b <= 57
}

pub open spec fn all_digits(s: Seq<u8>) -> bool {
    forall|i: int| 0 <= i < s.len() ==> is_digit(#[trigger] s[i])
}

/// The number that a run of decimal digits denotes.
pub open spec fn digits_value(s: Seq<u8>) -> nat
    decreases s.len(),
{
    if s.len() == 0 {
        0
    } else {
        digits_value(s.drop_last()) * 10 + (s.last() - 48) as nat
    }
}

/// A non-empty run of digits whose value fits in a `u64`.
pub open spec fn unsigned_value(s: Seq<u8>) -> Option<nat> {
    if s.len() > 0 && all_digits(s) && digits_value(s) <= u64::MAX {
        Some(digits_value(s))
    } else {
        None
    }
}

/// Index of the first byte at or after `i` that is not a digit (or the length).
pub open spec fn first_non_digit(s: Seq<u8>, i: int) -> int
    decreases s.len() - i,
{
    if i < 0 || i >= s.len() {
        s.len() as int
    } else if !is_digit(s[i]) {
        i
    } else {
        first_non_digit(s, i + 1)
    }
}

/// Milliseconds carried by the digits after a decimal point (further digits are cut off).
pub open spec fn fraction_millis(f: Seq<u8>) -> nat {
    let tenths = if f.len() > 0 { (f[0] - 48) * 100 } else { 0 };
    let hundredths = if f.len() > 1 { (f[1] - 48) * 10 } else { 0 };
    let thousandths = if f.len() > 2 { f[2] - 48 } else { 0 };
    (tenths + hundredths + thousandths) as nat
}

/// A non-negative decimal number `digits` or `digits.digits`, in whole
/// milliseconds (truncated), when it fits in a `u64`.
pub open spec fn decimal_millis(s: Seq<u8>) -> Option<nat> {
    let k = first_non_digit(s, 0);
    if k == 0 {
        None
    } else if k == s.len() {
        if digits_value(s) * 1000 <= u64::MAX {
            Some(digits_value(s) * 1000)
        } else {
            None
        }
    } else if s[k] == 46 && k + 1 < s.len() && all_digits(s.skip(k + 1)) {
        let v = digits_value(s.take(k)) * 1000 + fraction_millis(s.skip(k + 1));
        if v <= u64::MAX {
            Some(v)
        } else {
            None
        }
    } else {
        None
    }
}

/// The decimal digits of `n`, most significant first, as bytes.
pub open spec fn decimal_bytes(n: nat) -> Seq<u8>
    decreases n,
{
    if n < 10 {
        seq![(48 + n) as u8]
    } else {
        decimal_bytes(n / 10).push((48 + n % 10) as u8)
    }
}

pub proof fn lemma_prefix_value_le(s: Seq<u8>, k: int)
    requires
        all_digits(s),
        0 <= k <= s.len(),
    ensures
        digits_value(s.take(k)) <= digits_value(s),
    decreases s.len(),
{
    if k < s.len() {
        assert(s.drop_last().take(k) =~= s.take(k));
        lemma_prefix_value_le(s.drop_last(), k);
    } else {
        assert(s.take(k) =~= s);
    }
}

pub proof fn lemma_decimal_bytes_digits(n: nat)
    ensures
        all_digits(decimal_bytes(n)),
        decimal_bytes(n).len() > 0,
        digits_value(decimal_bytes(n)) == n,
    decreases n,
{
    if n >= 10 {
        lemma_decimal_bytes_digits(n / 10);
        let d = decimal_bytes(n);
        assert(d.drop_last() =~= decimal_bytes(n / 10));
        assert(d.last() == 48 + n % 10);
        assert(digits_value(d) == (n / 10) * 10 + n % 10);
        assert((n / 10) * 10 + n % 10 == n);
        assert(all_digits(d)) by {
            assert forall|i: int| 0 <= i < d.len() implies is_digit(#[trigger] d[i]) by {
                if i < d.len() - 1 {
                    assert(d[i] == decimal_bytes(n / 10)[i]);
                }
            }
        }
    } else {
        let d = decimal_bytes(n);
        assert(d.drop_last() =~= Seq::<u8>::empty());
        assert(d.last() == 48 + n);
        assert(digits_value(d.drop_last()) == 0);
        assert(digits_value(d) == n);
    }
}

/// Copies `s[lo..hi]` into a new vector.
pub fn sub_bytes(s: &[u8], lo: usize, hi: usize) -> (r: Vec<u8>)
    requires
        lo <= hi <= s@.len(),
    ensures
        r@ == s@.subrange(lo as int, hi as int),
{
    let mut r: Vec<u8> = Vec::new();
    let mut i: usize = lo;
    while i < hi
        invariant
            lo <= i <= hi <= s@.len(),
            r@ == s@.subrange(lo as int, i as int),
        decreases hi - i,
    {
        r.push(s[i]);
        assert(r@ =~= s@.subrange(lo as int, i + 1));
        i = i + 1;
    }
    r
}

/// Index of the first non-digit byte in `s` at or after `start`.
pub fn skip_digits(s: &[u8], start: usize) -> (r: usize)
    requires
        start <= s@.len(),
    ensures
        r == first_non_digit(s@, start as int),
        start <= r <= s@.len(),
        r < s@.len() ==> !is_digit(s@[r as int]),
        all_digits(s@.subrange(start as int, r as int)),
{
    let mut i: usize = start;
    while i < s.len() && s[i] >= 48 && s[i] <= 57
        invariant
            start <= i <= s@.len(),
            first_non_digit(s@, start as int) == first_non_digit(s@, i as int),
            all_digits(s@.subrange(start as int, i as int)),
        decreases s@.len() - i,
    {
        assert(s@.subrange(start as int, i + 1) =~= s@.subrange(start as int, i as int).push(s@[i as int]));
        i = i + 1;
    }
    i
}

/// Reads a non-empty run of digits as a `u64`.
pub fn parse_unsigned(s: &[u8]) -> (r: Option<u64>)
    ensures
        r matches Some(v) <==> unsigned_value(s@) is Some,
        r matches Some(v) ==> unsigned_value(s@) == Some(v as nat),
{
    if s.len() == 0 {
        return None;
    }
    let mut acc: u64 = 0;
    let mut i: usize = 0;
    while i < s.len()
        invariant
            i <= s@.len(),
            all_digits(s@.take(i as int)),
            acc as nat == digits_value(s@.take(i as int)),
        decreases s@.len() - i,
    {
        let b = s[i];
        assert(s@.take(i + 1).drop_last() =~= s@.take(i as int));
        if b < 48 || b > 57 {
            assert(!all_digits(s@));
            return None;
        }
        let d: u64 = (b - 48) as u64;
        if acc > (u64::MAX - d) / 10 {
            proof {
                assert(all_digits(s@.take(i + 1)));
                assert(digits_value(s@.take(i + 1)) > u64::MAX) by (nonlinear_arith)
                    requires
                        digits_value(s@.take(i + 1)) == acc * 10 + d,
                        acc > (u64::MAX - d) / 10,
                        d <= 9,
                ;
                if all_digits(s@) {
                    lemma_prefix_value_le(s@, i + 1);
                }
            }
            return None;
        }
        acc = acc * 10 + d;
        i = i + 1;
    }
    assert(s@.take(i as int) =~= s@);
    Some(acc)
}

/// Reads a non-negative decimal number (`12`, `12.5`) as whole milliseconds.
pub fn parse_millis(s: &[u8]) -> (r: Option<u64>)
    ensures
        r matches Some(v) <==> decimal_millis(s@) is Some,
        r matches Some(v) ==> decimal_millis(s@) == Some(v as nat),
{
    let k = skip_digits(s, 0);
    if k == 0 {
        return None;
    }
    let int_part = sub_bytes(s, 0, k);
    assert(int_part@ =~= s@.take(k as int));
    let whole = match parse_unsigned(int_part.as_slice()) {
        Some(v) => v,
        None => {
            assert(digits_value(s@.take(k as int)) > u64::MAX);
            assert(k == s.len() ==> s@.take(k as int) =~= s@);
            return None;
        },
    };
    if k == s.len() {
        assert(s@.take(k as int) =~= s@);
        if whole > u64::MAX / 1000 {
            return None;
        }
        return Some(whole * 1000);
    }
    if s[k] != 46 || k + 1 >= s.len() {
        return None;
    }
    let e = skip_digits(s, k + 1);
    if e != s.len() {
        assert(!is_digit(s@.skip(k + 1)[e - (k + 1)]));
        return None;
    }
    assert(s@.subrange(k + 1, e as int) =~= s@.skip(k + 1));
    let tenths: u64 = ((s[k + 1] - 48) as u64) * 100;
    let hundredths: u64 = if k + 2 < s.len() {
        ((s[k + 2] - 48) as u64) * 10
    } else {
        0
    };
    let thousandths: u64 = if s.len() - k > 3 {
        (s[k + 3] - 48) as u64
    } else {
        0
    };
    let frac = tenths + hundredths + thousandths;
    assert(frac == fraction_millis(s@.skip(k + 1)));
    if whole > (u64::MAX - frac) / 1000 {
        return None;
    }
    Some(whole * 1000 + frac)
}

/// Appends the decimal digits of `n` to `out`.
pub fn push_decimal(out: &mut Vec<u8>, n: u64)
    ensures
        final(out)@ == old(out)@ + decimal_bytes(n as nat),
    decreases n,
{
    if n >= 10 {
        push_decimal(out, n / 10);
    }
    out.push(48 + (n % 10) as u8);
    proof {
        if n >= 10 {
            assert(decimal_bytes(n as nat) == decimal_bytes((n / 10) as nat).push((48 + n % 10) as u8));
        }
    }
    assert(final(out)@ =~= old(out)@ + decimal_bytes(n as nat));
}

pub open spec fn pow10(n: nat) -> nat
    decreases n,
{
    if n == 0 {
        1
    } else {
        10 * pow10((n - 1) as nat)
    }
}

/// The exponent part of a JSON number (`e`/`E`, an optional sign, digits);
/// an empty part is exponent 0.
pub open spec fn exponent_value(t: Seq<u8>) -> Option<int> {
    if t.len() == 0 {
        Some(0)
    } else if t[0] == 101 || t[0] == 69 {
        let signed = t.len() > 1 && (t[1] == 43 || t[1] == 45);
        let d = if signed { t.skip(2) } else { t.skip(1) };
        if d.len() > 0 && all_digits(d) {
            Some(if signed && t[1] == 45 { -digits_value(d) } else { digits_value(d) as int })
        } else {
            None
        }
    } else {
        None
    }
}

/// Whole milliseconds of the digit run `a` read with `cut` digits before the
/// (millisecond) point, when the value fits in a `u64`.
pub open spec fn millis_at(a: Seq<u8>, cut: int) -> Option<nat> {
    let v = if cut <= 0 {
        0
    } else if cut <= a.len() {
        digits_value(a.take(cut))
    } else {
        digits_value(a) * pow10((cut - a.len()) as nat)
    };
    if v <= u64::MAX {
        Some(v)
    } else {
        None
    }
}

/// A non-negative JSON number (`12`, `12.5`, `1.25e3`, `5E-1`) in whole
/// milliseconds (truncated), when it fits in a `u64`.
pub open spec fn json_millis(s: Seq<u8>) -> Option<nat> {
    let k = first_non_digit(s, 0);
    let has_frac = k < s.len() && s[k] == 46;
    let fe = if has_frac { first_non_digit(s, k + 1) } else { k };
    let a = if has_frac { s.take(k) + s.subrange(k + 1, fe) } else { s.take(k) };
    if k == 0 || (has_frac && fe == k + 1) {
        None
    } else {
        match exponent_value(s.skip(fe)) {
            None => None,
            Some(e) => millis_at(a, k + 3 + e),
        }
    }
}

pub proof fn lemma_pow10_grows(a: nat, b: nat)
    requires
        a <= b,
    ensures
        1 <= pow10(a) <= pow10(b),
    decreases b,
{
    if b > a {
        lemma_pow10_grows(a, (b - 1) as nat);
    } else if a > 0 {
        lemma_pow10_grows((a - 1) as nat, (a - 1) as nat);
    }
}

pub proof fn lemma_pow10_20()
    ensures
        pow10(20) > u64::MAX,
{
    reveal_with_fuel(pow10, 21);
}

/// Far past the end of the digits, only a zero run still fits.
pub proof fn lemma_millis_at_far(a: Seq<u8>, c1: int, c2: int)
    requires
        c1 >= a.len() + 20,
        c2 >= a.len() + 20,
    ensures
        millis_at(a, c1) == millis_at(a, c2),
        millis_at(a, c1) == (if digits_value(a) == 0 { Some(0nat) } else { None::<nat> }),
{
    lemma_pow10_20();
    lemma_pow10_grows(20, (c1 - a.len()) as nat);
    lemma_pow10_grows(20, (c2 - a.len()) as nat);
    if digits_value(a) > 0 {
        assert(digits_value(a) * pow10((c1 - a.len()) as nat) >= pow10((c1 - a.len()) as nat)) by (nonlinear_arith)
            requires digits_value(a) >= 1;
        assert(digits_value(a) * pow10((c2 - a.len()) as nat) >= pow10((c2 - a.len()) as nat)) by (nonlinear_arith)
            requires digits_value(a) >= 1;
    }
}

/// A bound on exponents past which only the sign matters.
pub const EXPONENT_CAP: u128 = 100000000000000000000;

/// Reads the exponent part of a JSON number from `start`: its sign and its
/// magnitude, capped at `EXPONENT_CAP`.
fn exponent_exec(s: &[u8], start: usize) -> (r: Option<(bool, u128)>)
    requires
        start <= s@.len(),
    ensures
        r is None <==> exponent_value(s@.skip(start as int)) is None,
        r matches Some(x) ==> {
            let e = exponent_value(s@.skip(start as int))->Some_0;
            &&& x.1 <= EXPONENT_CAP
            &&& x.1 < EXPONENT_CAP ==> e == if x.0 { -(x.1 as int) } else { x.1 as int }
            &&& x.1 == EXPONENT_CAP ==> if x.0 { e <= -(EXPONENT_CAP as int) } else { e >= EXPONENT_CAP as int }
        },
{
    let ghost t = s@.skip(start as int);
    let n = s.len();
    if start == n {
        return Some((false, 0));
    }
    if s[start] != 101 && s[start] != 69 {
        return None;
    }
    let signed = n - start > 1 && (s[start + 1] == 43 || s[start + 1] == 45);
    let negative = signed && s[start + 1] == 45;
    let p: usize = if signed { start + 2 } else { start + 1 };
    assert(s@.skip(p as int) =~= if signed { t.skip(2) } else { t.skip(1) });
    if p == n {
        return None;
    }
    assert(exponent_value(s@.skip(start as int)) == (if all_digits(s@.skip(p as int)) {
        Some(if negative { -digits_value(s@.skip(p as int)) } else { digits_value(s@.skip(p as int)) as int })
    } else {
        None::<int>
    }));
    let mut acc: u128 = 0;
    let mut i: usize = p;
    while i < n
        invariant
            p <= i <= n == s@.len(),
            all_digits(s@.subrange(p as int, i as int)),
            acc <= EXPONENT_CAP,
            acc < EXPONENT_CAP ==> acc == digits_value(s@.subrange(p as int, i as int)),
            acc == EXPONENT_CAP ==> digits_value(s@.subrange(p as int, i as int)) >= EXPONENT_CAP,
            exponent_value(s@.skip(start as int)) == (if all_digits(s@.skip(p as int)) {
                Some(if negative { -digits_value(s@.skip(p as int)) } else { digits_value(s@.skip(p as int)) as int })
            } else {
                None::<int>
            }),
        decreases n - i,
    {
        let b = s[i];
        if b < 48 || b > 57 {
            assert(!all_digits(s@.skip(p as int)) ) by {
                assert(s@.skip(p as int)[i - p] == b);
            }
            return None;
        }
        let ghost prev = s@.subrange(p as int, i as int);
        let ghost next = s@.subrange(p as int, i + 1);
        assert(next.drop_last() =~= prev);
        assert(all_digits(next));
        let d: u128 = (b - 48) as u128;
        if acc < EXPONENT_CAP {
            acc = acc * 10 + d;
            if acc > EXPONENT_CAP {
                acc = EXPONENT_CAP;
            }
        } else {
            assert(digits_value(next) >= digits_value(prev)) by (nonlinear_arith)
                requires digits_value(next) == digits_value(prev) * 10 + (b - 48), b >= 48;
        }
        i = i + 1;
    }
    assert(s@.subrange(p as int, n as int) =~= s@.skip(p as int));
    Some((negative, acc))
}

/// Copies `s[lo..mid]` followed by `s[mid + 1..hi]`: the digits of a
/// mantissa without its decimal point.
fn join_digits(s: &[u8], lo: usize, mid: usize, hi: usize) -> (r: Vec<u8>)
    requires
        lo <= mid < hi <= s@.len(),
    ensures
        r@ == s@.subrange(lo as int, mid as int) + s@.subrange(mid + 1, hi as int),
{
    let mut r = sub_bytes(s, lo, mid);
    let mut i: usize = mid + 1;
    while i < hi
        invariant
            mid + 1 <= i <= hi <= s@.len(),
            r@ == s@.subrange(lo as int, mid as int) + s@.subrange(mid + 1, i as int),
        decreases hi - i,
    {
        r.push(s[i]);
        assert(r@ =~= s@.subrange(lo as int, mid as int) + s@.subrange(mid + 1, i + 1));
        i = i + 1;
    }
    r
}

/// Reads the digit run `a` with `cut` digits before the millisecond point.
fn millis_at_exec(a: &[u8], cut: i128) -> (r: Option<u64>)
    requires
        a@.len() > 0,
        all_digits(a@),
    ensures
        r matches Some(v) <==> millis_at(a@, cut as int) is Some,
        r matches Some(v) ==> millis_at(a@, cut as int) == Some(v as nat),
{
    if cut <= 0 {
        return Some(0);
    }
    if cut <= a.len() as i128 {
        let c = cut as usize;
        let head = sub_bytes(a, 0, c);
        assert(head@ =~= a@.take(c as int));
        assert(all_digits(head@));
        return parse_unsigned(head.as_slice());
    }
    let v = match parse_unsigned(a) {
        Some(v) => v,
        None => {
            proof {
                lemma_pow10_grows(0, (cut - a@.len()) as nat);
                assert(digits_value(a@) * pow10((cut - a@.len()) as nat) >= digits_value(a@)) by (nonlinear_arith)
                    requires pow10((cut - a@.len()) as nat) >= 1;
            }
            return None;
        },
    };
    let x: i128 = cut - a.len() as i128;
    if v == 0 {
        assert(digits_value(a@) * pow10((cut - a@.len()) as nat) == 0) by (nonlinear_arith)
            requires digits_value(a@) == 0;
        return Some(0);
    }
    if x >= 20 {
        proof {
            lemma_millis_at_far(a@, cut as int, cut as int);
        }
        return None;
    }
    let mut acc: u64 = v;
    let mut i: i128 = 0;
    assert(pow10(0) == 1);
    assert(v * pow10(0) == v);
    while i < x
        invariant
            0 <= i <= x < 20,
            x == cut - a@.len(),
            v as nat == digits_value(a@),
            acc as nat == v * pow10(i as nat),
        decreases x - i,
    {
        if acc > u64::MAX / 10 {
            proof {
                lemma_pow10_grows((i + 1) as nat, x as nat);
                assert(v * pow10(x as nat) >= v * pow10((i + 1) as nat)) by (nonlinear_arith)
                    requires pow10(x as nat) >= pow10((i + 1) as nat);
                assert(v * pow10((i + 1) as nat) == acc * 10) by (nonlinear_arith)
                    requires acc == v * pow10(i as nat), pow10((i + 1) as nat) == 10 * pow10(i as nat);
            }
            return None;
        }
        proof {
            assert(v * pow10((i + 1) as nat) == acc * 10) by (nonlinear_arith)
                requires acc == v * pow10(i as nat), pow10((i + 1) as nat) == 10 * pow10(i as nat);
        }
        acc = acc * 10;
        i = i + 1;
    }
    Some(acc)
}

/// Reads a non-negative JSON number (`12`, `12.5`, `1.25e3`) as whole
/// milliseconds.
pub fn parse_json_millis(s: &[u8]) -> (r: Option<u64>)
    ensures
        r matches Some(v) <==> json_millis(s@) is Some,
        r matches Some(v) ==> json_millis(s@) == Some(v as nat),
{
    let n = s.len();
    let k = skip_digits(s, 0);
    if k == 0 {
        return None;
    }
    let has_frac = k < n && s[k] == 46;
    let fe = if has_frac {
        skip_digits(s, k + 1)
    } else {
        k
    };
    if has_frac && fe == k + 1 {
        return None;
    }
    let a = if has_frac {
        join_digits(s, 0, k, fe)
    } else {
        sub_bytes(s, 0, k)
    };
    assert(s@.subrange(0, k as int) =~= s@.take(k as int));
    assert(all_digits(a@)) by {
        assert forall|i: int| 0 <= i < a@.len() implies is_digit(#[trigger] a@[i]) by {
            if i < k {
                assert(a@[i] == s@.subrange(0, k as int)[i]);
            } else {
                assert(a@[i] == s@.subrange(k + 1, fe as int)[i - k]);
            }
        }
    }
    let (negative, ev) = match exponent_exec(s, fe) {
        Some(x) => x,
        None => {
            return None;
        },
    };
    let base: i128 = k as i128 + 3;
    let cut: i128 = if negative {
        base - ev as i128
    } else {
        base + ev as i128
    };
    proof {
        let e = exponent_value(s@.skip(fe as int))->Some_0;
        if ev == EXPONENT_CAP && !negative {
            lemma_millis_at_far(a@, cut as int, k + 3 + e);
        }
    }
    millis_at_exec(a.as_slice(), cut)
}

} // verus!
