use vstd::prelude::*;

verus! {

pub open spec fn is_digit(c: char) -> bool {
    '0' <= c && c <= '9'
}

pub open spec fn digit_val(c: char) -> nat {
    (c as u32 - '0' as u32) as nat
}

pub open spec fn all_digits(t: Seq<char>) -> bool {
    forall|i: int| 0 <= i < t.len() ==> is_digit(#[trigger] t[i])
}

/// The value of a string of decimal digits; zero for the empty string.
pub open spec fn digits_val(t: Seq<char>) -> nat
    decreases t.len(),
{
    if t.len() == 0 {
        0
    } else {
        digits_val(t.drop_last()) * 10 + digit_val(t.last())
    }
}

/// The value of a decimal number that fits in 32 bits, as `u32::from_str`
/// reads one without a sign: at least one digit, nothing else.
pub open spec fn u32_of(t: Seq<char>) -> Option<u32> {
    if t.len() > 0 && all_digits(t) && digits_val(t) <= u32::MAX {
        Some(digits_val(t) as u32)
    } else {
        None
    }
}

proof fn lemma_digits_prefix(t: Seq<char>, k: int)
    requires
        0 <= k <= t.len(),
        all_digits(t),
    ensures
        digits_val(t.subrange(0, k)) <= digits_val(t),
    decreases t.len(),
{
    if k < t.len() {
        let d = t.drop_last();
        assert(all_digits(d)) by {
            assert forall|i: int| 0 <= i < d.len() implies is_digit(#[trigger] d[i]) by {
                assert(d[i] == t[i]);
            }
        }
        lemma_digits_prefix(d, k);
        assert(d.subrange(0, k) == t.subrange(0, k));
    } else {
        assert(t.subrange(0, k) == t);
    }
}

/// Reads `s[a..b]` as decimal digits; `None` where a character is no digit
/// or the value exceeds `bound`.
fn parse_digits(s: &[char], a: usize, b: usize, bound: u64) -> (r: Option<u64>)
    requires
        a <= b <= s@.len(),
    ensures
        r == (if all_digits(s@.subrange(a as int, b as int)) && digits_val(
            s@.subrange(a as int, b as int),
        ) <= bound {
            Some(digits_val(s@.subrange(a as int, b as int)) as u64)
        } else {
            None
        }),
{
    let ghost t = s@.subrange(a as int, b as int);
    let mut acc: u64 = 0;
    let mut j: usize = a;
    while j < b
        invariant
            a <= j <= b <= s@.len(),
            t == s@.subrange(a as int, b as int),
            all_digits(s@.subrange(a as int, j as int)),
            acc == digits_val(s@.subrange(a as int, j as int)),
            acc <= bound,
        decreases b - j,
    {
        let c = s[j];
        let ghost p = s@.subrange(a as int, j as int + 1);
        assert(p.drop_last() == s@.subrange(a as int, j as int));
        assert(p.last() == c);
        if !('0' <= c && c <= '9') {
            assert(!is_digit(t[j - a]));
            return None;
        }
        let d = (c as u32 - '0' as u32) as u64;
        if d > bound || acc > (bound - d) / 10 {
            assert(acc * 10 + d > bound) by (nonlinear_arith)
                requires
                    d > bound || acc > (bound - d) / 10,
            ;
            assert(all_digits(p)) by {
                assert forall|i: int| 0 <= i < p.len() implies is_digit(#[trigger] p[i]) by {
                    if i < p.len() - 1 {
                        assert(p[i] == s@.subrange(a as int, j as int)[i]);
                    }
                }
            }
            assert(digits_val(p) > bound);
            proof {
                if all_digits(t) {
                    lemma_digits_prefix(t, j - a + 1);
                    assert(t.subrange(0, j - a + 1) == p);
                }
            }
            return None;
        }
        acc = acc * 10 + d;
        proof {
            assert forall|i: int| 0 <= i < p.len() implies is_digit(#[trigger] p[i]) by {
                if i < p.len() - 1 {
                    assert(p[i] == s@.subrange(a as int, j as int)[i]);
                }
            }
        }
        j = j + 1;
    }
    assert(s@.subrange(a as int, j as int) == t);
    Some(acc)
}

/// Reads `s[a..b]` as a `u32` written in decimal digits.
pub fn parse_u32(s: &[char], a: usize, b: usize) -> (r: Option<u32>)
    requires
        a <= b <= s@.len(),
    ensures
        r == u32_of(s@.subrange(a as int, b as int)),
{
    if a == b {
        return None;
    }
    match parse_digits(s, a, b, u32::MAX as u64) {
        Some(v) => Some(v as u32),
        None => None,
    }
}

/// The index of the first `c` in `t`, or its length.
pub open spec fn pos_of(t: Seq<char>, c: char) -> int
    decreases t.len(),
{
    if t.len() == 0 {
        0
    } else if t[0] == c {
        0
    } else {
        1 + pos_of(t.drop_first(), c)
    }
}

/// A `pid/tid` token: the text before the first `/`, and the text between it
/// and the next `/` (or the end), each read as a `u32`.
pub open spec fn ids_of(t: Seq<char>) -> Option<(u32, u32)> {
    let k = pos_of(t, '/');
    if k >= t.len() {
        None
    } else {
        let after = t.subrange(k + 1, t.len() as int);
        let tid = after.subrange(0, pos_of(after, '/'));
        match (u32_of(t.subrange(0, k)), u32_of(tid)) {
            (Some(p), Some(q)) => Some((p, q)),
            _ => None,
        }
    }
}

proof fn lemma_pos_of_unique(t: Seq<char>, c: char, k: int)
    requires
        0 <= k <= t.len(),
        k < t.len() ==> t[k] == c,
        forall|i: int| 0 <= i < k ==> t[i] != c,
    ensures
        pos_of(t, c) == k,
    decreases t.len(),
{
    if t.len() > 0 && k > 0 {
        let d = t.drop_first();
        assert forall|i: int| 0 <= i < k - 1 implies d[i] != c by {
            assert(d[i] == t[i + 1]);
        }
        if k - 1 < d.len() {
            assert(d[k - 1] == t[k]);
        }
        lemma_pos_of_unique(d, c, k - 1);
    }
}

fn find_char(s: &[char], a: usize, b: usize, c: char) -> (r: usize)
    requires
        a <= b <= s@.len(),
    ensures
        a <= r <= b,
        r - a == pos_of(s@.subrange(a as int, b as int), c),
{
    let ghost t = s@.subrange(a as int, b as int);
    let mut j: usize = a;
    while j < b && s[j] != c
        invariant
            a <= j <= b <= s@.len(),
            t == s@.subrange(a as int, b as int),
            forall|i: int| 0 <= i < j - a ==> t[i] != c,
        decreases b - j,
    {
        j = j + 1;
    }
    proof {
        lemma_pos_of_unique(t, c, j - a);
    }
    j
}

/// Reads a `pid/tid` token held in `s[a..b]`.
pub fn parse_ids(s: &[char], a: usize, b: usize) -> (r: Option<(u32, u32)>)
    requires
        a <= b <= s@.len(),
    ensures
        r == ids_of(s@.subrange(a as int, b as int)),
{
    let ghost t = s@.subrange(a as int, b as int);
    let k = find_char(s, a, b, '/');
    if k >= b {
        return None;
    }
    let m = find_char(s, k + 1, b, '/');
    proof {
        let after = t.subrange(k - a + 1, t.len() as int);
        assert(after == s@.subrange(k + 1, b as int));
        assert(after.subrange(0, pos_of(after, '/')) == s@.subrange(k + 1, m as int));
        assert(t.subrange(0, k - a) == s@.subrange(a as int, k as int));
    }
    let pid = parse_u32(s, a, k);
    let tid = parse_u32(s, k + 1, m);
    match (pid, tid) {
        (Some(p), Some(q)) => Some((p, q)),
        _ => None,
    }
}

/// `t` without the colons that end it.
pub open spec fn strip_colons(t: Seq<char>) -> Seq<char>
    decreases t.len(),
{
    if t.len() > 0 && t.last() == ':' {
        strip_colons(t.drop_last())
    } else {
        t
    }
}

/// The first `k` digits of a decimal fraction, padded with zeros to `k`
/// digits, read as an integer.
pub open spec fn frac_val(f: Seq<char>, k: nat) -> nat
    decreases k,
{
    if k == 0 {
        0
    } else {
        frac_val(f, (k - 1) as nat) * 10 + (if k - 1 < f.len() {
            digit_val(f[k - 1])
        } else {
            0
        })
    }
}

pub open spec fn pow10(k: nat) -> nat
    decreases k,
{
    if k == 0 {
        1
    } else {
        pow10((k - 1) as nat) * 10
    }
}

/// Nanoseconds in a second.
pub const NANOS: u64 = 1_000_000_000;

/// The number of whole nanoseconds in a seconds value written as decimal
/// digits with an optional `.` and fraction; `None` where `t` is not of that
/// form, holds no digit at all, or the value does not fit in a `u64`.
pub open spec fn nanos_of(t: Seq<char>) -> Option<u64> {
    let k = pos_of(t, '.');
    let whole = t.subrange(0, k);
    let frac = if k < t.len() {
        t.subrange(k + 1, t.len() as int)
    } else {
        Seq::empty()
    };
    let v = digits_val(whole) * NANOS + frac_val(frac, 9);
    if all_digits(whole) && all_digits(frac) && whole.len() + frac.len() > 0 && v <= u64::MAX {
        Some(v as u64)
    } else {
        None
    }
}

/// A timestamp token: seconds as `nanos_of` reads them, after any trailing
/// colons are taken off.
pub open spec fn timestamp_of(t: Seq<char>) -> Option<u64> {
    nanos_of(strip_colons(t))
}

fn digits_only(s: &[char], a: usize, b: usize) -> (r: bool)
    requires
        a <= b <= s@.len(),
    ensures
        r == all_digits(s@.subrange(a as int, b as int)),
{
    let mut j: usize = a;
    while j < b
        invariant
            a <= j <= b <= s@.len(),
            forall|i: int| a <= i < j ==> is_digit(#[trigger] s@[i]),
        decreases b - j,
    {
        if !('0' <= s[j] && s[j] <= '9') {
            assert(!is_digit(s@.subrange(a as int, b as int)[j - a]));
            return false;
        }
        j = j + 1;
    }
    assert forall|i: int| 0 <= i < b - a implies is_digit(
        #[trigger] s@.subrange(a as int, b as int)[i],
    ) by {
        assert(s@.subrange(a as int, b as int)[i] == s@[a + i]);
    }
    true
}

/// The first nine digits of the fraction in `s[a..b]`, padded with zeros.
fn fraction_nanos(s: &[char], a: usize, b: usize) -> (r: u64)
    requires
        a <= b <= s@.len(),
        all_digits(s@.subrange(a as int, b as int)),
    ensures
        r == frac_val(s@.subrange(a as int, b as int), 9),
        r < NANOS,
{
    let ghost f = s@.subrange(a as int, b as int);
    let mut acc: u64 = 0;
    let mut scale: u64 = 1;
    let mut k: usize = 0;
    while k < 9
        invariant
            k <= 9,
            a <= b <= s@.len(),
            f == s@.subrange(a as int, b as int),
            all_digits(f),
            acc == frac_val(f, k as nat),
            scale == pow10(k as nat),
            acc < scale,
            scale <= pow10(k as nat),
            k < 9 ==> scale <= 100_000_000,
        decreases 9 - k,
    {
        let d: u64 = if k < b - a {
            assert(is_digit(f[k as int]));
            assert(f[k as int] == s@[a + k]);
            (s[a + k] as u32 - '0' as u32) as u64
        } else {
            0
        };
        acc = acc * 10 + d;
        scale = scale * 10;
        k = k + 1;
        proof {
            if k < 9 {
                assert(pow10(k as nat) <= 100_000_000) by {
                    reveal_with_fuel(pow10, 10);
                }
            }
        }
    }
    assert(pow10(9) == NANOS) by {
        reveal_with_fuel(pow10, 10);
    }
    acc
}

/// Reads a timestamp token held in `s[a..b]` as whole nanoseconds.
pub fn parse_timestamp(s: &[char], a: usize, b: usize) -> (r: Option<u64>)
    requires
        a <= b <= s@.len(),
    ensures
        r == timestamp_of(s@.subrange(a as int, b as int)),
{
    let mut e: usize = b;
    while e > a && s[e - 1] == ':'
        invariant
            a <= e <= b <= s@.len(),
            strip_colons(s@.subrange(a as int, e as int)) == strip_colons(
                s@.subrange(a as int, b as int),
            ),
        decreases e,
    {
        assert(s@.subrange(a as int, e as int).drop_last() == s@.subrange(a as int, e - 1));
        e = e - 1;
    }
    let ghost t = s@.subrange(a as int, e as int);
    assert(strip_colons(t) == t);
    let k = find_char(s, a, e, '.');
    let fa: usize = if k < e {
        k + 1
    } else {
        e
    };
    proof {
        assert(t.subrange(0, k - a) == s@.subrange(a as int, k as int));
        if k < e {
            assert(t.subrange(k - a + 1, t.len() as int) == s@.subrange(fa as int, e as int));
        } else {
            assert(s@.subrange(fa as int, e as int) == Seq::<char>::empty());
        }
    }
    if k == a && fa == e {
        return None;
    }
    if !digits_only(s, fa, e) {
        return None;
    }
    let whole = match parse_digits(s, a, k, u64::MAX) {
        Some(v) => v,
        None => {
            return None;
        },
    };
    let frac = fraction_nanos(s, fa, e);
    if whole > (u64::MAX - frac) / NANOS {
        assert(whole * NANOS + frac > u64::MAX) by (nonlinear_arith)
            requires
                whole > (u64::MAX - frac) as int / NANOS as int,
        ;
        return None;
    }
    assert(whole * NANOS + frac <= u64::MAX) by (nonlinear_arith)
        requires
            whole <= (u64::MAX - frac) as int / NANOS as int,
    ;
    Some(whole * NANOS + frac)
}

} // verus!
