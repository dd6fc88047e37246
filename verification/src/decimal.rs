//! Exact decimal numbers.
//!
//! Coordinate and grid values are kept as a sign, a decimal mantissa and a
//! power of ten, exactly as they stand in the file: parsing never rounds.
//! The token grammar is the one the formats use: an optional sign, digits
//! with at most one decimal point and at least one digit after it, and an
//! optional decimal exponent.

use vstd::prelude::*;
use vstd::slice::*;
use crate::text::{all_digits, digits_val, is_digit};

verus! {

/// Mathematical value of a [`Real`]: `(-1)^neg * mant * 10^exp`.
pub ghost struct RealVal {
    pub neg: bool,
    pub mant: int,
    pub exp: int,
}

/// An exact decimal number: `(-1)^neg * mant * 10^exp`.
#[derive(Clone, Copy, Debug, PartialEq, Eq, Structural)]
pub struct Real {
    pub neg: bool,
    pub mant: u128,
    pub exp: i128,
}

impl View for Real {
    type V = RealVal;

    open spec fn view(&self) -> RealVal {
        RealVal { neg: self.neg, mant: self.mant as int, exp: self.exp as int }
    }
}

/// Mantissas stay below this bound, so unit conversion cannot overflow.
pub open spec fn mant_cap() -> int {
    100_000_000_000_000_000_000_000_000
}

/// Declared exponents stay at or below this bound.
pub open spec fn exp_cap() -> int {
    99_999
}

/// Bound on the exponent of any parsed value.
pub open spec fn exp_parse_range() -> int {
    0x2_0000_0000_0000_0000
}

/// Bound on the exponent of any parsed or converted value.
pub open spec fn exp_range() -> int {
    0x4_0000_0000_0000_0000
}

impl Real {
    /// Every value built by parsing or conversion satisfies this.
    pub open spec fn wf(self) -> bool {
        -exp_range() <= (self.exp as int) <= exp_range()
    }

    /// A parsed value: mantissa small enough for unit conversion.
    pub open spec fn compact(self) -> bool {
        (self.mant as int) < mant_cap() && -exp_parse_range() <= (self.exp as int)
            <= exp_parse_range()
    }

    /// The number zero, as unparsed defaults use it.
    pub fn zero() -> (r: Real)
        ensures
            r@ == (RealVal { neg: false, mant: 0, exp: 0 }),
            r.compact(),
    {
        Real { neg: false, mant: 0, exp: 0 }
    }
}

/// First position at or after `i` holding `a` or `b`, or the length.
pub open spec fn find_from(s: Seq<char>, i: int, a: char, b: char) -> int
    decreases s.len() - i,
    when 0 <= i
{
    if i >= s.len() {
        s.len() as int
    } else if s[i] == a || s[i] == b {
        i
    } else {
        find_from(s, i + 1, a, b)
    }
}

pub proof fn lemma_find_from_bounds(s: Seq<char>, i: int, a: char, b: char)
    requires
        0 <= i <= s.len(),
    ensures
        i <= find_from(s, i, a, b) <= s.len(),
    decreases s.len() - i,
{
    if i < s.len() && s[i] != a && s[i] != b {
        lemma_find_from_bounds(s, i + 1, a, b);
    }
}

/// First position holding `a` or `b`, or the length.
fn find2(t: &[char], a: char, b: char) -> (r: usize)
    ensures
        r as int == find_from(t@, 0, a, b),
        r <= t@.len(),
{
    let n = t.len();
    let mut i: usize = 0;
    while i < n
        invariant
            i <= n,
            n == t@.len(),
            find_from(t@, 0, a, b) == find_from(t@, i as int, a, b),
        decreases n - i,
    {
        if *slice_index_get(t, i) == a || *slice_index_get(t, i) == b {
            return i;
        }
        i += 1;
    }
    i
}

/// Whether every character is a decimal digit.
fn all_digits_exec(t: &[char]) -> (r: bool)
    ensures
        r == all_digits(t@),
{
    let n = t.len();
    let mut i: usize = 0;
    while i < n
        invariant
            i <= n,
            n == t@.len(),
            forall|p: int| 0 <= p < i ==> is_digit(#[trigger] t@[p]),
        decreases n - i,
    {
        let c = *slice_index_get(t, i);
        if c < '0' || c > '9' {
            return false;
        }
        i += 1;
    }
    true
}

/// Sign and magnitude of the base part: mantissa digits and the length of
/// the fraction. `None` when the shape is not `[+-]? D* [. D+]?` with at
/// least one digit.
pub ghost struct BaseVal {
    pub neg: bool,
    pub mant: int,
    pub fraclen: int,
}

pub open spec fn spec_parse_base(b: Seq<char>) -> Option<BaseVal> {
    let neg = b.len() > 0 && b[0] == '-';
    let r = if b.len() > 0 && (b[0] == '+' || b[0] == '-') {
        b.drop_first()
    } else {
        b
    };
    let dot = find_from(r, 0, '.', '.');
    if dot == r.len() {
        if r.len() > 0 && all_digits(r) {
            Some(BaseVal { neg, mant: digits_val(r), fraclen: 0 })
        } else {
            None
        }
    } else {
        let ip = r.take(dot);
        let fp = r.skip(dot + 1);
        if all_digits(ip) && fp.len() > 0 && all_digits(fp) {
            Some(BaseVal { neg, mant: digits_val(ip + fp), fraclen: fp.len() as int })
        } else {
            None
        }
    }
}

/// The exponent part after `e`/`E`: `[+-]? D+`, value capped.
pub open spec fn spec_parse_exp(t: Seq<char>) -> Option<int> {
    let neg = t.len() > 0 && t[0] == '-';
    let d = if t.len() > 0 && (t[0] == '+' || t[0] == '-') {
        t.drop_first()
    } else {
        t
    };
    if d.len() > 0 && all_digits(d) && digits_val(d) <= exp_cap() {
        Some(
            if neg {
                -digits_val(d)
            } else {
                digits_val(d)
            },
        )
    } else {
        None
    }
}

/// The numeric-token grammar of the formats, shape only: an optional sign,
/// digits with at most one decimal point and at least one digit after it,
/// then an optional exponent.
pub open spec fn spec_number_shape(s: Seq<char>) -> bool {
    let e = find_from(s, 0, 'e', 'E');
    let base = s.take(e);
    let shape_exp = {
        let t = s.skip(e + 1);
        let d = if t.len() > 0 && (t[0] == '+' || t[0] == '-') {
            t.drop_first()
        } else {
            t
        };
        d.len() > 0 && all_digits(d)
    };
    spec_parse_base(base) is Some && (e == s.len() || shape_exp)
}

/// The exact value a numeric token denotes, or `None` when the token does
/// not fit the grammar or exceeds the mantissa or exponent caps.
pub open spec fn spec_parse_real(s: Seq<char>) -> Option<RealVal> {
    let e = find_from(s, 0, 'e', 'E');
    let base = s.take(e);
    let expv = if e == s.len() {
        Some(0int)
    } else {
        spec_parse_exp(s.skip(e + 1))
    };
    if spec_parse_base(base) is Some && expv is Some {
        let b = spec_parse_base(base)->0;
        if b.mant < mant_cap() {
            Some(RealVal { neg: b.neg, mant: b.mant, exp: expv->0 - b.fraclen })
        } else {
            None
        }
    } else {
        None
    }
}

/// Whether the token fits the numeric grammar (shape only, no caps).
pub fn is_number(t: &[char]) -> (r: bool)
    ensures
        r == spec_number_shape(t@),
{
    let n = t.len();
    let e = find2(t, 'e', 'E');
    let base = slice_subrange(t, 0, e);
    proof {
        assert(base@ =~= t@.take(e as int));
    }
    if !base_shape(base) {
        return false;
    }
    if e == n {
        return true;
    }
    let ex = slice_subrange(t, e + 1, n);
    proof {
        assert(ex@ =~= t@.skip(e + 1 as int));
    }
    let d: &[char] = if ex.len() > 0 && (*slice_index_get(ex, 0) == '+' || *slice_index_get(ex, 0)
        == '-') {
        proof {
            assert(ex@.subrange(1, ex@.len() as int) =~= ex@.drop_first());
        }
        slice_subrange(ex, 1, ex.len())
    } else {
        ex
    };
    d.len() > 0 && all_digits_exec(d)
}

/// Value of the digits of `a` followed by those of `b`, refused above `cap`.
fn parse_digits_pair(a: &[char], b: &[char], cap: u128) -> (r: Option<u128>)
    requires
        cap as int <= crate::text::digit_cap_limit(),
        a@.len() + b@.len() <= usize::MAX,
    ensures
        r is Some <==> ((a@ + b@).len() > 0 && all_digits(a@ + b@) && digits_val(a@ + b@)
            <= cap as int),
        r is Some ==> r->0 as int == digits_val(a@ + b@),
{
    let na = a.len();
    let nb = b.len();
    if na + nb == 0 {
        return None;
    }
    let ghost s = a@ + b@;
    let mut acc: u128 = 0;
    let mut i: usize = 0;
    while i < na + nb
        invariant
            i <= na + nb,
            na == a@.len(),
            nb == b@.len(),
            na + nb <= usize::MAX,
            s == a@ + b@,
            cap as int <= crate::text::digit_cap_limit(),
            all_digits(s.take(i as int)),
            acc as int == digits_val(s.take(i as int)),
            acc <= cap,
        decreases na + nb - i,
    {
        let c = if i < na {
            *slice_index_get(a, i)
        } else {
            *slice_index_get(b, i - na)
        };
        proof {
            assert(s[i as int] == c);
        }
        if c < '0' || c > '9' {
            return None;
        }
        let d: u128 = (c as u32 - 48) as u128;
        proof {
            assert(s.take(i + 1 as int).drop_last() =~= s.take(i as int));
            assert(all_digits(s.take(i + 1 as int)));
        }
        let next: u128 = acc * 10 + d;
        if next > cap {
            proof {
                if all_digits(s) {
                    crate::text::lemma_digits_val_take_le(s, i + 1);
                    assert(s.take(s.len() as int) =~= s);
                }
            }
            return None;
        }
        acc = next;
        i += 1;
    }
    proof {
        assert(s.take((na + nb) as int) =~= s);
    }
    Some(acc)
}

/// Digits split across two runs are digits of the two runs, one by one.
proof fn lemma_all_digits_concat(a: Seq<char>, b: Seq<char>)
    ensures
        all_digits(a + b) <==> (all_digits(a) && all_digits(b)),
{
    assert(forall|i: int| 0 <= i < a.len() ==> a[i] == #[trigger] (a + b)[i]);
    assert(forall|i: int| 0 <= i < b.len() ==> b[i] == #[trigger] (a + b)[a.len() + i]);
    if all_digits(a + b) {
        assert(forall|i: int| 0 <= i < a.len() ==> is_digit(#[trigger] a[i])) by {
            assert(forall|i: int| 0 <= i < a.len() ==> a[i] == (a + b)[i] && is_digit((a + b)[i]));
        }
        assert(forall|i: int| 0 <= i < b.len() ==> is_digit(#[trigger] b[i])) by {
            assert(forall|i: int|
                0 <= i < b.len() ==> b[i] == (a + b)[a.len() + i] && is_digit((a + b)[a.len() + i]));
        }
    }
    if all_digits(a) && all_digits(b) {
        assert(forall|i: int|
            0 <= i < (a + b).len() ==> is_digit(#[trigger] (a + b)[i])) by {
            assert(forall|i: int|
                0 <= i < (a + b).len() && i < a.len() ==> is_digit(#[trigger] (a + b)[i]));
            assert(forall|i: int|
                a.len() <= i < (a + b).len() ==> is_digit(#[trigger] (a + b)[i]));
        }
    }
}

/// Largest mantissa a parsed value may hold.
pub(crate) const MANT_MAX: u128 = 99_999_999_999_999_999_999_999_999;

/// Largest declared exponent a parsed value may hold.
pub(crate) const EXP_MAX: u128 = 99_999;

/// The machine value carrying a parsed number.
pub open spec fn real_of(v: RealVal) -> Real {
    Real { neg: v.neg, mant: v.mant as u128, exp: v.exp as i128 }
}

/// Parses a numeric token into its exact decimal value.
pub fn parse_real(t: &[char]) -> (r: Option<Real>)
    ensures
        r is Some <==> spec_parse_real(t@) is Some,
        r is Some ==> r->0@ == spec_parse_real(t@)->0,
        r is Some ==> r->0 == real_of(spec_parse_real(t@)->0),
        r is Some ==> r->0.compact(),
{
    let n = t.len();
    let e = find2(t, 'e', 'E');
    let base = slice_subrange(t, 0, e);
    proof {
        assert(base@ =~= t@.take(e as int));
    }
    let xv: i64;
    if e == n {
        xv = 0;
    } else {
        let ex = slice_subrange(t, e + 1, n);
        proof {
            assert(ex@ =~= t@.skip(e + 1 as int));
        }
        let xneg = ex.len() > 0 && *slice_index_get(ex, 0) == '-';
        let d: &[char] = if ex.len() > 0 && (*slice_index_get(ex, 0) == '+' || *slice_index_get(
            ex,
            0,
        ) == '-') {
            proof {
                assert(ex@.subrange(1, ex@.len() as int) =~= ex@.drop_first());
            }
            slice_subrange(ex, 1, ex.len())
        } else {
            ex
        };
        match crate::text::parse_digits_capped(d, EXP_MAX) {
            Some(v) => {
                xv = if xneg {
                    -(v as i64)
                } else {
                    v as i64
                };
            },
            None => {
                return None;
            },
        }
    }
    let bneg = base.len() > 0 && *slice_index_get(base, 0) == '-';
    let rr: &[char] = if base.len() > 0 && (*slice_index_get(base, 0) == '+' || *slice_index_get(
        base,
        0,
    ) == '-') {
        proof {
            assert(base@.subrange(1, base@.len() as int) =~= base@.drop_first());
        }
        slice_subrange(base, 1, base.len())
    } else {
        base
    };
    let dot = find2(rr, '.', '.');
    let mant: u128;
    let fraclen: usize;
    if dot == rr.len() {
        match crate::text::parse_digits_capped(rr, MANT_MAX) {
            Some(v) => {
                mant = v;
                fraclen = 0;
                proof {
                    assert(spec_parse_base(base@) == Some(
                        BaseVal { neg: bneg, mant: mant as int, fraclen: 0 },
                    ));
                }
            },
            None => {
                return None;
            },
        }
    } else {
        let ip = slice_subrange(rr, 0, dot);
        let fp = slice_subrange(rr, dot + 1, rr.len());
        proof {
            assert(ip@ =~= rr@.take(dot as int));
            assert(fp@ =~= rr@.skip(dot + 1 as int));
            lemma_all_digits_concat(ip@, fp@);
        }
        if fp.len() == 0 {
            return None;
        }
        match parse_digits_pair(ip, fp, MANT_MAX) {
            Some(v) => {
                mant = v;
                fraclen = fp.len();
                proof {
                    assert(spec_parse_base(base@) == Some(
                        BaseVal { neg: bneg, mant: mant as int, fraclen: fraclen as int },
                    ));
                }
            },
            None => {
                proof {
                    assert(spec_parse_base(base@) is Some ==> digits_val(ip@ + fp@) > MANT_MAX
                        as int);
                }
                return None;
            },
        }
    }
    let exp: i128 = xv as i128 - fraclen as i128;
    Some(Real { neg: bneg, mant, exp })
}

/// Digits of the Bohr radius in angstrom: one bohr is
/// `0.529177210903` angstrom, that is `529177210903 * 10^-12`.
pub const BOHR_IN_ANGSTROM_MANT: u128 = 529_177_210_903;

/// The exact angstrom value of a length given in bohr.
pub open spec fn spec_to_angstrom(r: Real) -> Real {
    Real { neg: r.neg, mant: (r.mant * 529_177_210_903) as u128, exp: (r.exp - 12) as i128 }
}

/// Converts a length from bohr to angstrom, exactly: the mantissa is scaled
/// by the factor's digits and the exponent shifted by its decimal places.
pub fn bohr_to_angstrom(r: Real) -> (out: Real)
    requires
        r.compact(),
    ensures
        out@.neg == r@.neg,
        out@.mant == r@.mant * 529_177_210_903,
        out@.exp == r@.exp - 12,
        out == spec_to_angstrom(r),
        out.wf(),
{
    Real { neg: r.neg, mant: r.mant * BOHR_IN_ANGSTROM_MANT, exp: r.exp - 12 }
}

/// Whether the base part (no exponent) fits the grammar.
fn base_shape(b: &[char]) -> (r: bool)
    ensures
        r == (spec_parse_base(b@) is Some),
{
    let rr: &[char] = if b.len() > 0 && (*slice_index_get(b, 0) == '+' || *slice_index_get(b, 0)
        == '-') {
        proof {
            assert(b@.subrange(1, b@.len() as int) =~= b@.drop_first());
        }
        slice_subrange(b, 1, b.len())
    } else {
        b
    };
    let dot = find2(rr, '.', '.');
    if dot == rr.len() {
        rr.len() > 0 && all_digits_exec(rr)
    } else {
        let ip = slice_subrange(rr, 0, dot);
        let fp = slice_subrange(rr, dot + 1, rr.len());
        proof {
            assert(ip@ =~= rr@.take(dot as int));
            assert(fp@ =~= rr@.skip(dot + 1 as int));
        }
        all_digits_exec(ip) && fp.len() > 0 && all_digits_exec(fp)
    }
}

} // verus!
