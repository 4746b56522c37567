//! Exact money arithmetic in atomic units.
//!
//! One XMR is 10^12 atomic units (piconero). Every monetary quantity in the
//! gateway is an integer count of atomic units, so sums and comparisons are
//! exact; decimal text is parsed into and formatted from that representation.

use vstd::prelude::*;
use vstd::arithmetic::div_mod::{
    lemma_fundamental_div_mod, lemma_mod_division_less_than_divisor, lemma_multiply_divide_lt,
};

verus! {

/// Number of atomic units (piconero) in one XMR: 10^12.
pub const ATOMIC_UNITS_PER_XMR: u64 = 1_000_000_000_000;

/// Exclusive upper bound on atomic-unit magnitudes the gateway handles:
/// 10^26 atomic units, i.e. 10^14 whole XMR, far above the total supply.
pub const MAX_ATOMIC: u128 = 100_000_000_000_000_000_000_000_000;

/// Exclusive upper bound on the whole-XMR part of a parsed amount: 10^14.
pub const MAX_WHOLE_XMR: u128 = 100_000_000_000_000;

pub const BYTE_DOT: u8 = 46;
pub const BYTE_MINUS: u8 = 45;
pub const BYTE_PLUS: u8 = 43;
pub const BYTE_ZERO: u8 = 48;
pub const BYTE_NINE: u8 = 57;

/// 10 raised to `e`.
pub open spec fn pow10(e: nat) -> int
    decreases e,
{
    if e == 0 {
        1
    } else {
        10 * pow10((e - 1) as nat)
    }
}

pub open spec fn is_digit(b: u8) -> bool {
    BYTE_ZERO <= b && b <= BYTE_NINE
}

pub open spec fn digit_val(b: u8) -> int {
    b - BYTE_ZERO
}

pub open spec fn is_digit_seq(s: Seq<u8>) -> bool {
    forall|i: int| 0 <= i < s.len() ==> is_digit(#[trigger] s[i])
}

/// The number a sequence of ASCII digits denotes, most significant first.
pub open spec fn digits_val(s: Seq<u8>) -> int
    decreases s.len(),
{
    if s.len() == 0 {
        0
    } else {
        digits_val(s.drop_last()) * 10 + digit_val(s.last())
    }
}

/// The digits of a decimal body before its first dot (the whole part).
pub open spec fn int_digits(t: Seq<u8>) -> Seq<u8>
    decreases t.len(),
{
    if t.len() == 0 {
        Seq::<u8>::empty()
    } else if t[0] == BYTE_DOT {
        Seq::<u8>::empty()
    } else {
        seq![t[0]] + int_digits(t.skip(1))
    }
}

/// Everything after the first dot, or `None` when there is no dot.
pub open spec fn frac_digits_opt(t: Seq<u8>) -> Option<Seq<u8>>
    decreases t.len(),
{
    if t.len() == 0 {
        None
    } else if t[0] == BYTE_DOT {
        Some(t.skip(1))
    } else {
        frac_digits_opt(t.skip(1))
    }
}

pub open spec fn frac_digits(t: Seq<u8>) -> Seq<u8> {
    match frac_digits_opt(t) {
        None => Seq::<u8>::empty(),
        Some(f) => f,
    }
}

/// Atomic units denoted by a fraction-digit sequence: the first twelve
/// digits, scaled so that a full twelve digits are exactly atomic units.
pub open spec fn frac_atomic(f: Seq<u8>) -> int {
    if f.len() >= 12 {
        digits_val(f.take(12))
    } else {
        digits_val(f) * pow10((12 - f.len()) as nat)
    }
}

/// A well-formed unsigned decimal body: digits around at most one dot, at
/// least one digit, nothing but zeros past the twelfth fractional digit
/// (finer than an atomic unit), and a whole part below 10^14 XMR.
pub open spec fn dec_body_valid(t: Seq<u8>) -> bool {
    &&& is_digit_seq(int_digits(t))
    &&& is_digit_seq(frac_digits(t))
    &&& int_digits(t).len() + frac_digits(t).len() > 0
    &&& (forall|i: int| 12 <= i < frac_digits(t).len() ==> #[trigger] frac_digits(t)[i]
        == BYTE_ZERO)
    &&& digits_val(int_digits(t)) < pow10(14)
}

/// Atomic units denoted by a well-formed unsigned decimal body.
pub open spec fn body_atomic(t: Seq<u8>) -> int {
    digits_val(int_digits(t)) * pow10(12) + frac_atomic(frac_digits(t))
}

/// The value, in atomic units, that a decimal text denotes: an optional
/// sign followed by a well-formed body. `None` when the text is not a
/// representable decimal number.
pub open spec fn parse_decimal(s: Seq<u8>) -> Option<int> {
    if s.len() > 0 && (s[0] == BYTE_MINUS || s[0] == BYTE_PLUS) {
        if dec_body_valid(s.skip(1)) {
            if s[0] == BYTE_MINUS {
                Some(-body_atomic(s.skip(1)))
            } else {
                Some(body_atomic(s.skip(1)))
            }
        } else {
            None
        }
    } else {
        if dec_body_valid(s) {
            Some(body_atomic(s))
        } else {
            None
        }
    }
}

pub proof fn lemma_pow10_pos(e: nat)
    ensures
        pow10(e) >= 1,
    decreases e,
{
    if e > 0 {
        lemma_pow10_pos((e - 1) as nat);
    }
}

pub proof fn lemma_pow10_adds(a: nat, b: nat)
    ensures
        pow10(a) * pow10(b) == pow10(a + b),
    decreases a,
{
    if a == 0 {
        assert(pow10(0) * pow10(b) == pow10(b));
    } else {
        lemma_pow10_adds((a - 1) as nat, b);
        assert((10 * pow10((a - 1) as nat)) * pow10(b) == 10 * (pow10((a - 1) as nat) * pow10(b)))
            by (nonlinear_arith);
    }
}

pub proof fn lemma_pow10_le(a: nat, b: nat)
    requires
        a <= b,
    ensures
        pow10(a) <= pow10(b),
    decreases b,
{
    if a < b {
        lemma_pow10_le(a, (b - 1) as nat);
        lemma_pow10_pos((b - 1) as nat);
    }
}

pub proof fn lemma_pow10_values()
    ensures
        pow10(11) == 100_000_000_000,
        pow10(12) == 1_000_000_000_000,
        pow10(14) == 100_000_000_000_000,
        pow10(26) == 100_000_000_000_000_000_000_000_000,
{
    reveal_with_fuel(pow10, 27);
}

/// A digit string denotes a value between 0 and 10^length.
pub proof fn lemma_digits_val_bounds(s: Seq<u8>)
    requires
        is_digit_seq(s),
    ensures
        0 <= digits_val(s) < pow10(s.len()),
    decreases s.len(),
{
    if s.len() == 0 {
    } else {
        assert(is_digit_seq(s.drop_last())) by {
            assert(forall|i: int| 0 <= i < s.drop_last().len() ==> #[trigger] s.drop_last()[i]
                == s[i]);
        }
        lemma_digits_val_bounds(s.drop_last());
        assert(is_digit(s.last()));
    }
}

/// Extending a digit string to the right can only grow its value.
pub proof fn lemma_digits_val_take_le(s: Seq<u8>, k: int)
    requires
        is_digit_seq(s),
        0 <= k <= s.len(),
    ensures
        digits_val(s.take(k)) <= digits_val(s),
    decreases s.len(),
{
    if k == s.len() {
        assert(s.take(k) =~= s);
    } else {
        assert(is_digit_seq(s.drop_last())) by {
            assert(forall|i: int| 0 <= i < s.drop_last().len() ==> #[trigger] s.drop_last()[i]
                == s[i]);
        }
        assert(s.take(k) =~= s.drop_last().take(k));
        lemma_digits_val_take_le(s.drop_last(), k);
        lemma_digits_val_bounds(s.drop_last());
        assert(is_digit(s.last()));
    }
}

/// Where the first dot of a body sits decides its whole and fraction parts.
pub proof fn lemma_int_frac_split(t: Seq<u8>, k: int)
    requires
        0 <= k <= t.len(),
        forall|j: int| 0 <= j < k ==> #[trigger] t[j] != BYTE_DOT,
        k == t.len() || t[k] == BYTE_DOT,
    ensures
        int_digits(t) == t.take(k),
        frac_digits_opt(t) == if k == t.len() {
            None::<Seq<u8>>
        } else {
            Some(t.skip(k + 1))
        },
    decreases t.len(),
{
    if t.len() == 0 {
        assert(int_digits(t) =~= t.take(0));
    } else if t[0] == BYTE_DOT {
        assert(k == 0);
        assert(int_digits(t) =~= t.take(0));
    } else {
        assert(k >= 1);
        let t1 = t.skip(1);
        assert(forall|j: int| 0 <= j < k - 1 ==> #[trigger] t1[j] != BYTE_DOT);
        assert(k - 1 == t1.len() || t1[k - 1] == BYTE_DOT);
        lemma_int_frac_split(t1, k - 1);
        assert(seq![t[0]] + t1.take(k - 1) =~= t.take(k));
        if k < t.len() {
            assert(t1.skip(k) =~= t.skip(k + 1));
        }
    }
}

/// Removing trailing zeros divides a digit string's value by a power of ten.
pub proof fn lemma_trim_zeros(s: Seq<u8>)
    requires
        is_digit_seq(s),
    ensures
        is_digit_seq(trim_zeros(s)),
        trim_zeros(s).len() <= s.len(),
        digits_val(s) == digits_val(trim_zeros(s)) * pow10((s.len() - trim_zeros(s).len()) as nat),
    decreases s.len(),
{
    if s.len() > 0 && s.last() == BYTE_ZERO {
        assert(is_digit_seq(s.drop_last())) by {
            assert(forall|i: int| 0 <= i < s.drop_last().len() ==> #[trigger] s.drop_last()[i]
                == s[i]);
        }
        lemma_trim_zeros(s.drop_last());
        let t = trim_zeros(s);
        let e = (s.drop_last().len() - t.len()) as nat;
        assert(digits_val(s) == digits_val(s.drop_last()) * 10);
        assert((digits_val(t) * pow10(e)) * 10 == digits_val(t) * (10 * pow10(e)))
            by (nonlinear_arith);
    } else {
        assert(pow10(0) == 1);
    }
}

/// A digit string with its trailing zeros removed.
pub open spec fn trim_zeros(s: Seq<u8>) -> Seq<u8>
    decreases s.len(),
{
    if s.len() > 0 && s.last() == BYTE_ZERO {
        trim_zeros(s.drop_last())
    } else {
        s
    }
}

/// The decimal digits of `n`, most significant first; empty for zero.
pub open spec fn u_digits(n: nat) -> Seq<u8>
    decreases n,
{
    if n == 0 {
        Seq::<u8>::empty()
    } else {
        u_digits(n / 10).push((n % 10 + BYTE_ZERO) as u8)
    }
}

/// The decimal digits of `n` written in exactly `w` places, zero padded.
pub open spec fn u_digits_w(n: nat, w: nat) -> Seq<u8>
    decreases w,
{
    if w == 0 {
        Seq::<u8>::empty()
    } else {
        u_digits_w(n / 10, (w - 1) as nat).push((n % 10 + BYTE_ZERO) as u8)
    }
}

pub proof fn lemma_u_digits(n: nat)
    ensures
        is_digit_seq(u_digits(n)),
        digits_val(u_digits(n)) == n,
        n > 0 ==> u_digits(n).len() >= 1,
    decreases n,
{
    if n > 0 {
        lemma_u_digits(n / 10);
        lemma_mod_division_less_than_divisor(n as int, 10);
        lemma_fundamental_div_mod(n as int, 10);
        let s = u_digits(n);
        assert(s.drop_last() =~= u_digits(n / 10));
        assert(s.last() == (n % 10 + BYTE_ZERO) as u8);
    }
}

pub proof fn lemma_u_digits_w(n: nat, w: nat)
    requires
        n < pow10(w),
    ensures
        is_digit_seq(u_digits_w(n, w)),
        u_digits_w(n, w).len() == w,
        digits_val(u_digits_w(n, w)) == n,
    decreases w,
{
    if w == 0 {
        assert(pow10(0) == 1);
    } else {
        lemma_pow10_pos((w - 1) as nat);
        lemma_multiply_divide_lt(n as int, pow10((w - 1) as nat), 10);
        assert(pow10((w - 1) as nat) * 10 == 10 * pow10((w - 1) as nat));
        lemma_u_digits_w(n / 10, (w - 1) as nat);
        lemma_mod_division_less_than_divisor(n as int, 10);
        lemma_fundamental_div_mod(n as int, 10);
        let s = u_digits_w(n, w);
        assert(s.drop_last() =~= u_digits_w(n / 10, (w - 1) as nat));
        assert(s.last() == (n % 10 + BYTE_ZERO) as u8);
    }
}

/// A non-negative XMR amount in atomic units, within the gateway's range.
#[derive(Clone, Copy, Debug, PartialEq, Eq, Structural)]
pub struct Amount {
    pub atomic: u128,
}

impl Amount {
    pub open spec fn wf(self) -> bool {
        self.atomic < MAX_ATOMIC
    }
}

/// A parsed decimal value: a sign and a magnitude in atomic units.
/// Zero is never negative.
#[derive(Clone, Copy, Debug, PartialEq, Eq, Structural)]
pub struct SignedAmount {
    pub negative: bool,
    pub magnitude: u128,
}

impl SignedAmount {
    pub open spec fn value(self) -> int {
        if self.negative {
            -(self.magnitude as int)
        } else {
            self.magnitude as int
        }
    }

    pub open spec fn wf(self) -> bool {
        self.magnitude < MAX_ATOMIC && (self.negative ==> self.magnitude > 0)
    }
}

/// Parses the unsigned body of a decimal text, returning its atomic value.
fn parse_body(s: &[u8], start: usize) -> (r: Option<u128>)
    requires
        start <= s@.len(),
    ensures
        match r {
            Some(m) => dec_body_valid(s@.skip(start as int)) && m < MAX_ATOMIC && body_atomic(
                s@.skip(start as int),
            ) == m,
            None => !dec_body_valid(s@.skip(start as int)),
        },
{
    let ghost t = s@.skip(start as int);
    let n: usize = s.len();
    // find the first dot
    let mut dot: usize = start;
    while dot < n && s[dot] != BYTE_DOT
        invariant
            start <= dot <= n,
            n == s@.len(),
            forall|j: int| start <= j < dot ==> #[trigger] s@[j] != BYTE_DOT,
        decreases n - dot,
    {
        dot += 1;
    }
    proof {
        assert(forall|j: int| 0 <= j < dot - start ==> #[trigger] t[j] != BYTE_DOT);
        assert(dot - start == t.len() || t[dot - start] == BYTE_DOT);
        lemma_int_frac_split(t, dot - start);
        assert(t.take(dot - start) =~= s@.subrange(start as int, dot as int));
        if dot < n {
            assert(t.skip(dot - start + 1) =~= s@.subrange(dot + 1, n as int));
        }
    }
    let ghost ip = s@.subrange(start as int, dot as int);

    // whole part: all digits, value below 10^14 whole XMR
    let mut i: usize = start;
    let mut acc: u128 = 0;
    while i < dot
        invariant
            start <= i <= dot <= n,
            n == s@.len(),
            t == s@.skip(start as int),
            ip == s@.subrange(start as int, dot as int),
            int_digits(t) == ip,
            forall|j: int| start <= j < i ==> is_digit(#[trigger] s@[j]),
            acc as int == digits_val(s@.subrange(start as int, i as int)),
            acc < MAX_WHOLE_XMR,
        decreases dot - i,
    {
        let b = s[i];
        if b < BYTE_ZERO || b > BYTE_NINE {
            proof {
                assert(ip[i - start] == s@[i as int]);
                assert(!is_digit_seq(int_digits(t)));
            }
            return None;
        }
        proof {
            assert(s@.subrange(start as int, i + 1).drop_last() =~= s@.subrange(
                start as int,
                i as int,
            ));
            assert(s@.subrange(start as int, i + 1).last() == s@[i as int]);
        }
        let acc2: u128 = acc * 10 + (b - BYTE_ZERO) as u128;
        if acc2 >= MAX_WHOLE_XMR {
            proof {
                lemma_pow10_values();
                if is_digit_seq(ip) {
                    lemma_digits_val_take_le(ip, i + 1 - start);
                    assert(ip.take(i + 1 - start) =~= s@.subrange(start as int, i + 1));
                    assert(digits_val(int_digits(t)) >= pow10(14));
                }
            }
            return None;
        }
        acc = acc2;
        i += 1;
    }
    proof {
        assert(ip =~= s@.subrange(start as int, dot as int));
        assert(is_digit_seq(ip));
        assert(acc as int == digits_val(ip));
        lemma_pow10_values();
    }

    if dot == n {
        // no dot: the body is the whole part alone
        if start == dot {
            proof {
                assert(int_digits(t).len() + frac_digits(t).len() == 0);
            }
            return None;
        }
        let value: u128 = acc * 1_000_000_000_000u128;
        proof {
            assert(frac_digits(t) =~= Seq::<u8>::empty());
            assert(frac_atomic(frac_digits(t)) == 0);
            assert(dec_body_valid(t));
        }
        return Some(value);
    }

    // fraction part: digits only, zeros past the twelfth place
    let flen: usize = n - dot - 1;
    if start == dot && flen == 0 {
        proof {
            assert(int_digits(t).len() + frac_digits(t).len() == 0);
        }
        return None;
    }
    let ghost fp = s@.subrange(dot + 1, n as int);
    let mut j: usize = dot + 1;
    let mut facc: u128 = 0;
    while j < n
        invariant
            dot + 1 <= j <= n,
            n == s@.len(),
            dot < n,
            start <= dot,
            t == s@.skip(start as int),
            fp == s@.subrange(dot + 1, n as int),
            frac_digits_opt(t) == Some(fp),
            forall|p: int| dot + 1 <= p < j ==> is_digit(#[trigger] s@[p]),
            forall|p: int| dot + 13 <= p < j ==> #[trigger] s@[p] == BYTE_ZERO,
            j <= dot + 13 ==> facc as int == digits_val(
                s@.subrange(dot + 1, j as int),
            ) && (facc as int) < pow10((j - dot - 1) as nat),
            j > dot + 13 ==> facc as int == digits_val(s@.subrange(dot + 1, dot + 13)) && (
            facc as int) < pow10(12),
        decreases n - j,
    {
        let b = s[j];
        if b < BYTE_ZERO || b > BYTE_NINE {
            proof {
                assert(fp[j - dot - 1] == s@[j as int]);
                assert(!is_digit_seq(frac_digits(t)));
            }
            return None;
        }
        if j - dot > 12 {
            if b != BYTE_ZERO {
                proof {
                    assert(frac_digits(t)[j - dot - 1] == s@[j as int]);
                    assert(12 <= j - dot - 1 < frac_digits(t).len());
                    assert(!dec_body_valid(t));
                }
                return None;
            }
        } else {
            proof {
                assert(s@.subrange(dot + 1, j + 1).drop_last() =~= s@.subrange(dot + 1, j as int));
                assert(s@.subrange(dot + 1, j + 1).last() == s@[j as int]);
                lemma_pow10_values();
                lemma_pow10_le((j - dot - 1) as nat, 11);
            }
            facc = facc * 10 + (b - BYTE_ZERO) as u128;
        }
        j += 1;
    }
    proof {
        assert(is_digit_seq(fp));
        lemma_pow10_values();
    }

    // scale a short fraction up to twelve places
    let mut mult: u128 = 1;
    let mut k: usize = if flen > 12 {
        12
    } else {
        flen
    };
    let ghost base_k = k as int;
    while k < 12
        invariant
            base_k <= k <= 12,
            0 <= base_k,
            mult as int == pow10((k - base_k) as nat),
            mult <= 1_000_000_000_000u128,
        decreases 12 - k,
    {
        proof {
            lemma_pow10_values();
            lemma_pow10_pos((k - base_k) as nat);
            assert(pow10((k + 1 - base_k) as nat) == 10 * pow10((k - base_k) as nat));
            lemma_pow10_adds((k + 1 - base_k) as nat, (12 - (k + 1 - base_k)) as nat);
            lemma_pow10_pos((12 - (k + 1 - base_k)) as nat);
            assert(pow10((k + 1 - base_k) as nat) <= pow10(12)) by (nonlinear_arith)
                requires
                    pow10((k + 1 - base_k) as nat) * pow10((12 - (k + 1 - base_k)) as nat) == pow10(
                        12,
                    ),
                    pow10((12 - (k + 1 - base_k)) as nat) >= 1,
                    pow10((k + 1 - base_k) as nat) >= 1,
            ;
        }
        mult = mult * 10;
        k += 1;
    }
    let ghost fw = if flen >= 12 {
        12
    } else {
        flen as int
    };
    proof {
        lemma_pow10_values();
        assert(mult as int == pow10((12 - fw) as nat));
        if flen >= 12 {
            assert(fp.take(12) =~= s@.subrange(dot + 1, dot + 13));
        } else {
            assert(fp =~= s@.subrange(dot + 1, n as int));
        }
        assert((facc as int) < pow10(fw as nat));
        lemma_pow10_adds(fw as nat, (12 - fw) as nat);
        lemma_pow10_pos((12 - fw) as nat);
        assert((facc as int) * (mult as int) < pow10(12)) by (nonlinear_arith)
            requires
                (facc as int) < pow10(fw as nat),
                facc >= 0,
                mult as int == pow10((12 - fw) as nat),
                pow10(fw as nat) * pow10((12 - fw) as nat) == pow10(12),
                mult >= 1,
        ;
    }
    let fval: u128 = facc * mult;
    proof {
        lemma_pow10_values();
        if flen >= 12 {
            assert(fp.len() >= 12);
            assert(facc as int == digits_val(s@.subrange(dot + 1, dot + 13)));
            assert(fp.take(12) =~= s@.subrange(dot + 1, dot + 13));
            assert(mult == 1);
            assert(fval as int == facc as int) by (nonlinear_arith)
                requires
                    fval as int == (facc as int) * (mult as int),
                    mult == 1,
            ;
            assert(frac_atomic(fp) == digits_val(fp.take(12)));
            assert(frac_atomic(fp) == fval as int);
        } else {
            assert(facc as int == digits_val(fp));
            assert(mult as int == pow10((12 - flen) as nat));
            assert(frac_atomic(fp) == digits_val(fp) * pow10((12 - fp.len()) as nat));
            assert(frac_atomic(fp) == fval as int);
        }
        assert(dec_body_valid(t));
    }
    let value: u128 = acc * 1_000_000_000_000u128 + fval;
    Some(value)
}

/// Parses decimal text (optional sign, digits, at most one dot) into an
/// exact atomic-unit value. Returns `None` exactly when the text does not
/// denote a representable decimal amount.
pub fn parse_decimal_text(s: &[u8]) -> (r: Option<SignedAmount>)
    ensures
        match r {
            Some(a) => a.wf() && parse_decimal(s@) == Some(a.value()),
            None => parse_decimal(s@) is None,
        },
{
    let n: usize = s.len();
    let mut start: usize = 0;
    let mut negative: bool = false;
    if n > 0 && (s[0] == BYTE_MINUS || s[0] == BYTE_PLUS) {
        negative = s[0] == BYTE_MINUS;
        start = 1;
    }
    proof {
        if start == 0 {
            assert(s@.skip(0) =~= s@);
        }
    }
    match parse_body(s, start) {
        None => None,
        Some(mag) => {
            let neg = negative && mag > 0;
            Some(SignedAmount { negative: neg, magnitude: mag })
        },
    }
}

/// The canonical decimal text for `atomic` atomic units of XMR: the whole
/// part, then, when the fraction is not zero, a dot and the fraction with
/// its trailing zeros removed.
pub open spec fn format_atomic(atomic: nat) -> Seq<u8> {
    let whole = atomic / 1_000_000_000_000;
    let frac = atomic % 1_000_000_000_000;
    let ip = if whole == 0 {
        seq![BYTE_ZERO]
    } else {
        u_digits(whole)
    };
    if frac == 0 {
        ip
    } else {
        ip + seq![BYTE_DOT] + trim_zeros(u_digits_w(frac, 12))
    }
}

/// Appends the decimal digits of `n` (nothing for zero).
fn push_digits(n: u128, out: &mut Vec<u8>)
    ensures
        final(out)@ == old(out)@ + u_digits(n as nat),
    decreases n,
{
    if n == 0 {
        proof {
            assert(out@ + u_digits(0) =~= out@);
        }
    } else {
        proof {
            vstd::arithmetic::div_mod::lemma_div_decreases(n as int, 10);
            lemma_mod_division_less_than_divisor(n as int, 10);
        }
        let ghost pre = out@;
        push_digits(n / 10, out);
        out.push((n % 10) as u8 + BYTE_ZERO);
        proof {
            assert((pre + u_digits(n as nat / 10)).push((n as nat % 10 + BYTE_ZERO) as u8) =~= pre
                + u_digits(n as nat));
        }
    }
}

/// Appends the decimal digits of `n` in exactly `w` places, zero padded.
fn push_digits_w(n: u128, w: usize, out: &mut Vec<u8>)
    ensures
        final(out)@ == old(out)@ + u_digits_w(n as nat, w as nat),
    decreases w,
{
    if w == 0 {
        proof {
            assert(out@ + u_digits_w(n as nat, 0) =~= out@);
        }
    } else {
        proof {
            lemma_mod_division_less_than_divisor(n as int, 10);
        }
        let ghost pre = out@;
        push_digits_w(n / 10, w - 1, out);
        out.push((n % 10) as u8 + BYTE_ZERO);
        proof {
            assert((pre + u_digits_w(n as nat / 10, (w - 1) as nat)).push(
                (n as nat % 10 + BYTE_ZERO) as u8,
            ) =~= pre + u_digits_w(n as nat, w as nat));
        }
    }
}

/// Renders an atomic-unit value as canonical decimal XMR text.
pub fn format_atomic_text(atomic: u128) -> (r: Vec<u8>)
    ensures
        r@ == format_atomic(atomic as nat),
{
    let whole: u128 = atomic / 1_000_000_000_000;
    let frac: u128 = atomic % 1_000_000_000_000;
    let mut out: Vec<u8> = Vec::new();
    if whole == 0 {
        out.push(BYTE_ZERO);
        proof {
            assert(out@ =~= seq![BYTE_ZERO]);
        }
    } else {
        push_digits(whole, &mut out);
        proof {
            assert(out@ =~= u_digits(whole as nat));
        }
    }
    let ghost ip = out@;
    if frac == 0 {
        proof {
            assert(format_atomic(atomic as nat) == ip);
        }
        return out;
    }
    out.push(BYTE_DOT);
    push_digits_w(frac, 12, &mut out);
    let ghost base = ip + seq![BYTE_DOT];
    let ghost f12 = u_digits_w(frac as nat, 12);
    let ghost tz = trim_zeros(f12);
    proof {
        lemma_pow10_values();
        lemma_mod_division_less_than_divisor(atomic as int, 1_000_000_000_000);
        lemma_u_digits_w(frac as nat, 12);
        lemma_trim_zeros(f12);
        assert(tz.len() > 0) by {
            if tz.len() == 0 {
                assert(digits_val(tz) == 0);
                assert(digits_val(f12) == 0 * pow10((f12.len() - 0) as nat));
            }
        }
        assert(out@ =~= base + f12);
    }
    let ghost mut f = f12;
    while out[out.len() - 1] == BYTE_ZERO
        invariant
            out@ == base + f,
            base.len() >= 2,
            trim_zeros(f) == tz,
            tz.len() >= 1,
            f.len() >= tz.len(),
            is_digit_seq(f),
        decreases f.len(),
    {
        proof {
            assert(f.last() == BYTE_ZERO);
            assert(trim_zeros(f.drop_last()) == tz);
            lemma_trim_zeros(f.drop_last());
            assert(is_digit_seq(f.drop_last())) by {
                assert(forall|i: int|
                    0 <= i < f.drop_last().len() ==> #[trigger] f.drop_last()[i] == f[i]);
            }
        }
        out.pop();
        proof {
            assert(out@ =~= base + f.drop_last());
            f = f.drop_last();
        }
    }
    proof {
        assert(f.last() != BYTE_ZERO);
        assert(trim_zeros(f) == f);
        assert(out@ == base + tz);
        assert(format_atomic(atomic as nat) == base + tz);
    }
    out
}

/// The canonical text of an in-range atomic value reparses to exactly that
/// value: formatting then parsing is the identity, so an invoice's decimal
/// amount text denotes precisely the amount owed.
pub proof fn lemma_format_parse_roundtrip(atomic: u128)
    requires
        atomic < MAX_ATOMIC,
    ensures
        parse_decimal(format_atomic(atomic as nat)) == Some(atomic as int),
{
    lemma_pow10_values();
    let a = atomic as nat;
    let whole = a / 1_000_000_000_000;
    let frac = a % 1_000_000_000_000;
    lemma_fundamental_div_mod(a as int, 1_000_000_000_000);
    lemma_mod_division_less_than_divisor(a as int, 1_000_000_000_000);
    lemma_multiply_divide_lt(a as int, 100_000_000_000_000, 1_000_000_000_000);
    let ip = if whole == 0 {
        seq![BYTE_ZERO]
    } else {
        u_digits(whole)
    };
    if whole == 0 {
        assert(ip.drop_last() =~= Seq::<u8>::empty());
        assert(digits_val(Seq::<u8>::empty()) == 0);
        assert(ip.last() == BYTE_ZERO);
        assert(digits_val(ip) == 0);
        assert(is_digit_seq(ip));
    } else {
        lemma_u_digits(whole);
    }
    assert(ip.len() >= 1);
    assert(digits_val(ip) == whole);
    let fmt = format_atomic(a);
    assert(is_digit(fmt[0]));
    if frac == 0 {
        assert(fmt == ip);
        lemma_int_frac_split(fmt, fmt.len() as int);
        assert(int_digits(fmt) == fmt.take(fmt.len() as int));
        assert(fmt.take(fmt.len() as int) =~= ip);
        assert(frac_digits(fmt) =~= Seq::<u8>::empty());
        assert(frac_atomic(frac_digits(fmt)) == digits_val(Seq::<u8>::empty()) * pow10(12));
        assert(dec_body_valid(fmt));
        assert(body_atomic(fmt) == whole * pow10(12));
        assert(body_atomic(fmt) == a);
    } else {
        let f12 = u_digits_w(frac, 12);
        lemma_u_digits_w(frac, 12);
        lemma_trim_zeros(f12);
        let tz = trim_zeros(f12);
        assert(fmt == ip + seq![BYTE_DOT] + tz);
        assert(forall|j: int| 0 <= j < ip.len() ==> #[trigger] fmt[j] == ip[j]);
        assert(fmt[ip.len() as int] == BYTE_DOT);
        lemma_int_frac_split(fmt, ip.len() as int);
        assert(fmt.take(ip.len() as int) =~= ip);
        assert(fmt.skip(ip.len() as int + 1) =~= tz);
        assert(int_digits(fmt) == ip);
        assert(frac_digits(fmt) == tz);
        assert(tz.len() <= 12);
        if tz.len() == 12 {
            assert(tz.take(12) =~= tz);
            assert(digits_val(f12) == digits_val(tz) * pow10(0));
            assert(frac_atomic(tz) == digits_val(tz));
            assert(frac_atomic(tz) == frac);
        } else {
            assert(frac_atomic(tz) == digits_val(tz) * pow10((12 - tz.len()) as nat));
            assert(frac_atomic(tz) == frac);
        }
        assert(dec_body_valid(fmt));
        assert(body_atomic(fmt) == whole * pow10(12) + frac);
        assert(body_atomic(fmt) == a);
    }
}

} // verus!
