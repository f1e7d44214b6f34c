//! Exact comparison of column values.
//!
//! Stored numbers are integers of up to eight bytes and eight-byte IEEE 754
//! floats; query literals add decimal fractions.  Every finite number among
//! these is `±mantissa * 2^exp2 * 5^exp5` for a `u64` mantissa and small
//! exponents, and two finite numbers compare exactly as those scaled
//! integers do.  Two values of different kinds (and any comparison touching
//! a NaN or a blob) are incomparable.

use vstd::arithmetic::power::pow;
use vstd::arithmetic::power2::pow2;
use vstd::prelude::*;

use crate::record::{SpecValue, Value};

verus! {

/// The outcome of comparing two comparable values.
#[derive(Clone, Copy, Debug, PartialEq, Eq, Structural)]
pub enum CmpResult {
    Less,
    Equal,
    Greater,
}

/// The numeric reading of a value.
///
/// A finite number is `±mantissa * 2^exp2 * 5^exp5`; a decimal fraction
/// `d / 10^s` is held as `mantissa == d`, `exp2 == exp5 == -s`.
#[derive(Clone, Copy, Debug)]
pub enum Numeric {
    /// The value is not a number at all.
    NotNumeric,
    NaN,
    NegInf,
    PosInf,
    Finite { neg: bool, mantissa: u64, exp2: i32, exp5: i32 },
}

/// The exponent ranges every constructed [`Numeric`] stays inside.
pub open spec fn numeric_wf(n: Numeric) -> bool {
    match n {
        Numeric::Finite { neg, mantissa, exp2, exp5 } => {
            &&& -1100 <= exp2 <= 1100
            &&& -18 <= exp5 <= 0
        },
        _ => true,
    }
}

/// The magnitude of a finite number, scaled by the constant factor
/// `2^1100 * 5^1100` so that it is an integer.  Scaling every finite
/// number by the same positive factor preserves their order exactly.
pub open spec fn mag_key(mantissa: u64, exp2: int, exp5: int) -> int {
    mantissa * pow2((exp2 + 1100) as nat) * pow(5, (exp5 + 1100) as nat)
}

/// The signed scaled value of a finite number.
pub open spec fn signed_key(neg: bool, mantissa: u64, exp2: int, exp5: int) -> int {
    if neg {
        -mag_key(mantissa, exp2, exp5)
    } else {
        mag_key(mantissa, exp2, exp5)
    }
}

/// The numeric reading of a stored value.  Integers are exact; a float's
/// bit pattern is split into sign, exponent and fraction.
pub open spec fn spec_numeric_of(v: SpecValue) -> Numeric {
    match v.integer() {
        Some(n) => spec_numeric_of_int(n),
        None => match v {
            SpecValue::F(bits) => spec_numeric_of_bits(bits),
            _ => Numeric::NotNumeric,
        },
    }
}

/// The numeric reading of a stored integer.
pub open spec fn spec_numeric_of_int(n: i64) -> Numeric {
    Numeric::Finite {
        neg: n < 0,
        mantissa: if n >= 0 {
            n as u64
        } else {
            ((-(n + 1)) as u64 + 1) as u64
        },
        exp2: 0,
        exp5: 0,
    }
}

/// The numeric reading of an eight-byte float's bit pattern.
pub open spec fn spec_numeric_of_bits(bits: u64) -> Numeric {
    let neg = bits >= 0x8000_0000_0000_0000;
    let e = (bits / 0x10_0000_0000_0000) % 0x800;
    let frac = bits % 0x10_0000_0000_0000;
    if e == 0x7FF {
        if frac == 0 {
            if neg {
                Numeric::NegInf
            } else {
                Numeric::PosInf
            }
        } else {
            Numeric::NaN
        }
    } else if e == 0 {
        if frac == 0 {
            Numeric::Finite { neg, mantissa: 0, exp2: 0, exp5: 0 }
        } else {
            Numeric::Finite { neg, mantissa: frac, exp2: (-1074) as i32, exp5: 0 }
        }
    } else {
        Numeric::Finite {
            neg,
            mantissa: (frac + 0x10_0000_0000_0000) as u64,
            exp2: (e - 1075) as i32,
            exp5: 0,
        }
    }
}

/// Returns the numeric reading of a value.
pub fn numeric_of(v: &Value) -> (r: Numeric)
    ensures
        r == spec_numeric_of(v@),
        numeric_wf(r),
{
    match v.integer_value() {
        Some(n) => Numeric::Finite {
            neg: n < 0,
            mantissa: if n >= 0 {
                n as u64
            } else {
                ((-(n + 1)) as u64) + 1
            },
            exp2: 0,
            exp5: 0,
        },
        None => match v {
            Value::F(bits) => numeric_of_bits(*bits),
            _ => Numeric::NotNumeric,
        },
    }
}

fn numeric_of_bits(bits: u64) -> (r: Numeric)
    ensures
        r == spec_numeric_of_bits(bits),
        numeric_wf(r),
{
    let neg = bits >= 0x8000_0000_0000_0000;
    let e: u64 = (bits / 0x10_0000_0000_0000) % 0x800;
    let frac: u64 = bits % 0x10_0000_0000_0000;
    if e == 0x7FF {
        if frac == 0 {
            if neg {
                Numeric::NegInf
            } else {
                Numeric::PosInf
            }
        } else {
            Numeric::NaN
        }
    } else if e == 0 {
        if frac == 0 {
            Numeric::Finite { neg, mantissa: 0, exp2: 0, exp5: 0 }
        } else {
            Numeric::Finite { neg, mantissa: frac, exp2: -1074, exp5: 0 }
        }
    } else {
        Numeric::Finite {
            neg,
            mantissa: frac + 0x10_0000_0000_0000,
            exp2: (e as i32) - 1075,
            exp5: 0,
        }
    }
}

/// Compares `p * 2^d` with `q`, exactly.
fn cmp_shifted(p: u128, d: u32, q: u128) -> (r: CmpResult)
    requires
        p >= 1,
    ensures
        r == CmpResult::Less <==> p * pow2(d as nat) < q,
        r == CmpResult::Equal <==> p * pow2(d as nat) == q,
        r == CmpResult::Greater <==> p * pow2(d as nat) > q,
{
    if d >= 128 {
        proof {
            lemma_pow2_128();
            if d > 128 {
                vstd::arithmetic::power2::lemma_pow2_strictly_increases(128, d as nat);
            }
            assert(p * pow2(d as nat) >= pow2(d as nat)) by (nonlinear_arith)
                requires
                    p >= 1,
                    pow2(d as nat) >= 1,
            ;
        }
        CmpResult::Greater
    } else {
        let pw = pow2_u128(d);
        let quo = q / pw;
        let rem = q % pw;
        proof {
            vstd::arithmetic::div_mod::lemma_fundamental_div_mod(q as int, pw as int);
            assert(q == pw * quo + rem);
            assert(rem < pw) by {
                vstd::arithmetic::div_mod::lemma_mod_bound(q as int, pw as int);
            }
            if p > quo {
                assert(p * pw >= (quo + 1) * pw) by (nonlinear_arith)
                    requires
                        p >= quo + 1,
                        pw >= 1,
                ;
                assert((quo + 1) * pw == quo * pw + pw) by (nonlinear_arith);
                assert(quo * pw == pw * quo) by (nonlinear_arith);
            } else if p < quo {
                assert(p * pw <= (quo - 1) * pw) by (nonlinear_arith)
                    requires
                        p <= quo - 1,
                        pw >= 1,
                ;
                assert((quo - 1) * pw == quo * pw - pw) by (nonlinear_arith);
                assert(quo * pw == pw * quo) by (nonlinear_arith);
            } else {
                assert(p * pw == pw * quo) by (nonlinear_arith)
                    requires
                        p == quo,
                ;
            }
        }
        if p > quo {
            CmpResult::Greater
        } else if p < quo {
            CmpResult::Less
        } else if rem == 0 {
            CmpResult::Equal
        } else {
            CmpResult::Less
        }
    }
}

/// Compares the magnitudes of two positive finite numbers exactly.
fn cmp_mag(m1: u64, x1: i32, y1: i32, m2: u64, x2: i32, y2: i32) -> (r: CmpResult)
    requires
        m1 >= 1,
        m2 >= 1,
        -1100 <= x1 <= 1100,
        -1100 <= x2 <= 1100,
        -18 <= y1 <= 0,
        -18 <= y2 <= 0,
    ensures
        r == CmpResult::Less <==> mag_key(m1, x1 as int, y1 as int) < mag_key(
            m2,
            x2 as int,
            y2 as int,
        ),
        r == CmpResult::Equal <==> mag_key(m1, x1 as int, y1 as int) == mag_key(
            m2,
            x2 as int,
            y2 as int,
        ),
        r == CmpResult::Greater <==> mag_key(m1, x1 as int, y1 as int) > mag_key(
            m2,
            x2 as int,
            y2 as int,
        ),
{
    let dy: i32 = y1 - y2;
    let dx: i32 = x1 - x2;
    let ghost gb1: int = m1 * (if dy >= 0 { pow(5, dy as nat) } else { 1int });
    let ghost gb2: int = m2 * (if dy >= 0 { 1int } else { pow(5, (-dy) as nat) });
    let mut b1: u128 = m1 as u128;
    let mut b2: u128 = m2 as u128;
    if dy >= 0 {
        let f = pow5_u64(dy as u32);
        proof {
            assert(m1 * f < 0x1_0000_0000_0000_0000_0000_0000_0000_0000) by (nonlinear_arith)
                requires
                    m1 < 0x1_0000_0000_0000_0000,
                    f <= 3814697265625,
            ;
        }
        b1 = b1 * (f as u128);
        proof {
            assert(b1 >= 1) by (nonlinear_arith)
                requires
                    b1 == m1 * f,
                    m1 >= 1,
                    f >= 1,
            ;
            assert(m2 * 1 == m2) by (nonlinear_arith);
        }
    } else {
        let f = pow5_u64((-dy) as u32);
        proof {
            assert(m2 * f < 0x1_0000_0000_0000_0000_0000_0000_0000_0000) by (nonlinear_arith)
                requires
                    m2 < 0x1_0000_0000_0000_0000,
                    f <= 3814697265625,
            ;
        }
        b2 = b2 * (f as u128);
        proof {
            assert(b2 >= 1) by (nonlinear_arith)
                requires
                    b2 == m2 * f,
                    m2 >= 1,
                    f >= 1,
            ;
            assert(m1 * 1 == m1) by (nonlinear_arith);
        }
    }
    proof {
        assert(b1 == gb1 && b2 == gb2 && b1 >= 1 && b2 >= 1);
        lemma_mag_reduce(m1, x1 as int, y1 as int, m2, x2 as int, y2 as int);
    }
    if dx >= 0 {
        cmp_shifted(b1, dx as u32, b2)
    } else {
        flip_cmp(cmp_shifted(b2, (-dx) as u32, b1))
    }
}

/// How two numeric readings compare: `None` when either side is not a
/// number or is a NaN; otherwise the exact order of the numbers, with the
/// infinities at the ends.
pub open spec fn spec_cmp_numeric(a: Numeric, b: Numeric) -> Option<CmpResult> {
    match (a, b) {
        (Numeric::NotNumeric, _) => None,
        (_, Numeric::NotNumeric) => None,
        (Numeric::NaN, _) => None,
        (_, Numeric::NaN) => None,
        (Numeric::NegInf, Numeric::NegInf) => Some(CmpResult::Equal),
        (Numeric::NegInf, _) => Some(CmpResult::Less),
        (_, Numeric::NegInf) => Some(CmpResult::Greater),
        (Numeric::PosInf, Numeric::PosInf) => Some(CmpResult::Equal),
        (Numeric::PosInf, _) => Some(CmpResult::Greater),
        (_, Numeric::PosInf) => Some(CmpResult::Less),
        (
            Numeric::Finite { neg: n1, mantissa: m1, exp2: x1, exp5: y1 },
            Numeric::Finite { neg: n2, mantissa: m2, exp2: x2, exp5: y2 },
        ) => {
            let k1 = signed_key(n1, m1, x1 as int, y1 as int);
            let k2 = signed_key(n2, m2, x2 as int, y2 as int);
            if k1 < k2 {
                Some(CmpResult::Less)
            } else if k1 == k2 {
                Some(CmpResult::Equal)
            } else {
                Some(CmpResult::Greater)
            }
        },
    }
}

/// A key is zero exactly for a zero mantissa and positive otherwise.
proof fn lemma_mag_key_sign(m: u64, x: int, y: int)
    ensures
        m == 0 ==> mag_key(m, x, y) == 0,
        m >= 1 ==> mag_key(m, x, y) >= 1,
{
    let p2 = pow2((x + 1100) as nat);
    let p5 = pow(5, (y + 1100) as nat);
    vstd::arithmetic::power2::lemma_pow2_pos((x + 1100) as nat);
    vstd::arithmetic::power::lemma_pow_positive(5, (y + 1100) as nat);
    if m == 0 {
        assert(0 * p2 * p5 == 0) by (nonlinear_arith);
    } else {
        assert(m * p2 * p5 >= 1) by (nonlinear_arith)
            requires
                m >= 1,
                p2 >= 1,
                p5 >= 1,
        ;
    }
}

/// Compares two numeric readings.
pub fn cmp_numeric(a: Numeric, b: Numeric) -> (r: Option<CmpResult>)
    requires
        numeric_wf(a),
        numeric_wf(b),
    ensures
        r == spec_cmp_numeric(a, b),
{
    match (a, b) {
        (Numeric::NotNumeric, _) => None,
        (_, Numeric::NotNumeric) => None,
        (Numeric::NaN, _) => None,
        (_, Numeric::NaN) => None,
        (Numeric::NegInf, Numeric::NegInf) => Some(CmpResult::Equal),
        (Numeric::NegInf, _) => Some(CmpResult::Less),
        (_, Numeric::NegInf) => Some(CmpResult::Greater),
        (Numeric::PosInf, Numeric::PosInf) => Some(CmpResult::Equal),
        (Numeric::PosInf, _) => Some(CmpResult::Greater),
        (_, Numeric::PosInf) => Some(CmpResult::Less),
        (
            Numeric::Finite { neg: n1, mantissa: m1, exp2: x1, exp5: y1 },
            Numeric::Finite { neg: n2, mantissa: m2, exp2: x2, exp5: y2 },
        ) => {
            proof {
                lemma_mag_key_sign(m1, x1 as int, y1 as int);
                lemma_mag_key_sign(m2, x2 as int, y2 as int);
            }
            if m1 == 0 && m2 == 0 {
                Some(CmpResult::Equal)
            } else if m1 == 0 {
                if n2 {
                    Some(CmpResult::Greater)
                } else {
                    Some(CmpResult::Less)
                }
            } else if m2 == 0 {
                if n1 {
                    Some(CmpResult::Less)
                } else {
                    Some(CmpResult::Greater)
                }
            } else if n1 && !n2 {
                Some(CmpResult::Less)
            } else if !n1 && n2 {
                Some(CmpResult::Greater)
            } else if !n1 {
                Some(cmp_mag(m1, x1, y1, m2, x2, y2))
            } else {
                Some(flip_cmp(cmp_mag(m1, x1, y1, m2, x2, y2)))
            }
        },
    }
}

/// Byte-wise lexicographic order of two byte strings.
pub open spec fn spec_lex_cmp(a: Seq<u8>, b: Seq<u8>) -> CmpResult
    decreases a.len(),
{
    if a.len() == 0 && b.len() == 0 {
        CmpResult::Equal
    } else if a.len() == 0 {
        CmpResult::Less
    } else if b.len() == 0 {
        CmpResult::Greater
    } else if a[0] < b[0] {
        CmpResult::Less
    } else if a[0] > b[0] {
        CmpResult::Greater
    } else {
        spec_lex_cmp(a.drop_first(), b.drop_first())
    }
}

/// Equal byte strings compare equal, and conversely.
pub proof fn lemma_lex_cmp_eq(a: Seq<u8>, b: Seq<u8>)
    ensures
        spec_lex_cmp(a, b) == CmpResult::Equal <==> a == b,
    decreases a.len(),
{
    if a.len() > 0 && b.len() > 0 && a[0] == b[0] {
        lemma_lex_cmp_eq(a.drop_first(), b.drop_first());
        if a.drop_first() == b.drop_first() {
            assert(a.len() == b.len());
            assert forall|j: int| 0 <= j < a.len() implies a[j] == b[j] by {
                if j > 0 {
                    assert(a[j] == a.drop_first()[j - 1]);
                    assert(b[j] == b.drop_first()[j - 1]);
                }
            }
            assert(a =~= b);
        }
        if a == b {
            assert(a.drop_first() =~= b.drop_first());
        }
    } else if a.len() == 0 && b.len() == 0 {
        assert(a =~= b);
    }
}

/// Compares two byte strings lexicographically.
pub fn lex_cmp(a: &Vec<u8>, b: &Vec<u8>) -> (r: CmpResult)
    ensures
        r == spec_lex_cmp(a@, b@),
{
    let mut i: usize = 0;
    proof {
        assert(a@.skip(0) =~= a@);
        assert(b@.skip(0) =~= b@);
    }
    loop
        invariant
            i <= a.len(),
            i <= b.len(),
            spec_lex_cmp(a@, b@) == spec_lex_cmp(a@.skip(i as int), b@.skip(i as int)),
        decreases a.len() - i,
    {
        proof {
            if i < a.len() && i < b.len() {
                assert(a@.skip(i as int)[0] == a@[i as int]);
                assert(b@.skip(i as int)[0] == b@[i as int]);
                assert(a@.skip(i as int).drop_first() =~= a@.skip(i + 1));
                assert(b@.skip(i as int).drop_first() =~= b@.skip(i + 1));
            }
            assert(a@.skip(i as int).len() == a@.len() - i);
            assert(b@.skip(i as int).len() == b@.len() - i);
        }
        if i == a.len() && i == b.len() {
            return CmpResult::Equal;
        } else if i == a.len() {
            return CmpResult::Less;
        } else if i == b.len() {
            return CmpResult::Greater;
        } else if a[i] < b[i] {
            return CmpResult::Less;
        } else if a[i] > b[i] {
            return CmpResult::Greater;
        }
        i = i + 1;
    }
}

/// How two stored values compare: numbers by their exact numeric order,
/// nulls equal to each other, text byte-wise; everything else, blobs
/// included, is incomparable.
pub open spec fn spec_cmp_values(a: SpecValue, b: SpecValue) -> Option<CmpResult> {
    let na = spec_numeric_of(a);
    let nb = spec_numeric_of(b);
    if !(na is NotNumeric) && !(nb is NotNumeric) {
        spec_cmp_numeric(na, nb)
    } else {
        match (a, b) {
            (SpecValue::Null, SpecValue::Null) => Some(CmpResult::Equal),
            (SpecValue::Text(s), SpecValue::Text(t)) => Some(spec_lex_cmp(s, t)),
            _ => None,
        }
    }
}

/// Whether two stored values are equal under the comparison rules.
pub open spec fn spec_values_equal(a: SpecValue, b: SpecValue) -> bool {
    spec_cmp_values(a, b) == Some(CmpResult::Equal)
}

/// Compares two stored values.
pub fn compare_values(a: &Value, b: &Value) -> (r: Option<CmpResult>)
    ensures
        r == spec_cmp_values(a@, b@),
{
    let na = numeric_of(a);
    let nb = numeric_of(b);
    match (&na, &nb) {
        (Numeric::NotNumeric, _) | (_, Numeric::NotNumeric) => match (a, b) {
            (Value::Null, Value::Null) => Some(CmpResult::Equal),
            (Value::Text(s), Value::Text(t)) => Some(lex_cmp(s, t)),
            _ => None,
        },
        _ => cmp_numeric(na, nb),
    }
}

/// Returns whether two stored values are equal.
pub fn values_equal(a: &Value, b: &Value) -> (r: bool)
    ensures
        r == spec_values_equal(a@, b@),
{
    match compare_values(a, b) {
        Some(CmpResult::Equal) => true,
        _ => false,
    }
}

impl PartialEq for Value {
    fn eq(&self, other: &Value) -> (r: bool) {
        values_equal(self, other)
    }
}

impl vstd::std_specs::cmp::PartialEqSpecImpl for Value {
    open spec fn obeys_eq_spec() -> bool {
        true
    }

    open spec fn eq_spec(&self, other: &Value) -> bool {
        spec_values_equal(self@, other@)
    }
}

/// A query literal: a decimal number `±mantissa / 10^scale`, or a text
/// string.
#[derive(Clone, Debug)]
pub enum Literal {
    Num { neg: bool, mantissa: u64, scale: u32 },
    Text(Vec<u8>),
}

/// The mathematical reading of a [`Literal`].
pub enum SpecLiteral {
    Num { neg: bool, mantissa: u64, scale: u32 },
    Text(Seq<u8>),
}

impl View for Literal {
    type V = SpecLiteral;

    open spec fn view(&self) -> SpecLiteral {
        match self {
            Literal::Num { neg, mantissa, scale } => SpecLiteral::Num {
                neg: *neg,
                mantissa: *mantissa,
                scale: *scale,
            },
            Literal::Text(b) => SpecLiteral::Text(b@),
        }
    }
}

impl DeepView for Literal {
    type V = SpecLiteral;

    open spec fn deep_view(&self) -> SpecLiteral {
        self.view()
    }
}

/// A numeric literal's scale stays within the decimal mantissa's range.
pub open spec fn literal_wf(l: SpecLiteral) -> bool {
    match l {
        SpecLiteral::Num { neg, mantissa, scale } => scale <= 18,
        SpecLiteral::Text(_) => true,
    }
}

/// The numeric reading of a literal: `±mantissa * 2^-scale * 5^-scale`.
pub open spec fn spec_numeric_of_literal(l: SpecLiteral) -> Numeric {
    match l {
        SpecLiteral::Num { neg, mantissa, scale } => Numeric::Finite {
            neg,
            mantissa,
            exp2: -(scale as int) as i32,
            exp5: -(scale as int) as i32,
        },
        SpecLiteral::Text(_) => Numeric::NotNumeric,
    }
}

/// How a literal compares with a stored value: a numeric literal by the
/// numeric order, a text literal byte-wise with stored text; any other
/// pairing is incomparable.
pub open spec fn spec_cmp_lit_value(l: SpecLiteral, v: SpecValue) -> Option<CmpResult> {
    match l {
        SpecLiteral::Num { neg, mantissa, scale } => spec_cmp_numeric(
            spec_numeric_of_literal(l),
            spec_numeric_of(v),
        ),
        SpecLiteral::Text(s) => match v {
            SpecValue::Text(t) => Some(spec_lex_cmp(s, t)),
            _ => None,
        },
    }
}

/// Compares a query literal with a stored value.
pub fn compare_lit_value(l: &Literal, v: &Value) -> (r: Option<CmpResult>)
    requires
        literal_wf(l@),
    ensures
        r == spec_cmp_lit_value(l@, v@),
{
    match l {
        Literal::Num { neg, mantissa, scale } => {
            let ln = Numeric::Finite {
                neg: *neg,
                mantissa: *mantissa,
                exp2: -(*scale as i32),
                exp5: -(*scale as i32),
            };
            cmp_numeric(ln, numeric_of(v))
        },
        Literal::Text(s) => match v {
            Value::Text(t) => Some(lex_cmp(s, t)),
            _ => None,
        },
    }
}

/// Returns whether a literal equals a stored value.
pub fn literal_matches(l: &Literal, v: &Value) -> (r: bool)
    requires
        literal_wf(l@),
    ensures
        r == (spec_cmp_lit_value(l@, v@) == Some(CmpResult::Equal)),
{
    match compare_lit_value(l, v) {
        Some(CmpResult::Equal) => true,
        _ => false,
    }
}

/// Returns whether a literal is at most a stored value (and comparable
/// with it).
pub fn literal_le(l: &Literal, v: &Value) -> (r: bool)
    requires
        literal_wf(l@),
    ensures
        r == (spec_cmp_lit_value(l@, v@) == Some(CmpResult::Less) || spec_cmp_lit_value(l@, v@)
            == Some(CmpResult::Equal)),
{
    match compare_lit_value(l, v) {
        Some(CmpResult::Equal) => true,
        Some(CmpResult::Less) => true,
        _ => false,
    }
}

fn flip_cmp(r: CmpResult) -> (f: CmpResult)
    ensures
        f == CmpResult::Less <==> r == CmpResult::Greater,
        f == CmpResult::Equal <==> r == CmpResult::Equal,
        f == CmpResult::Greater <==> r == CmpResult::Less,
{
    match r {
        CmpResult::Less => CmpResult::Greater,
        CmpResult::Equal => CmpResult::Equal,
        CmpResult::Greater => CmpResult::Less,
    }
}

/// Reduces a key comparison to a comparison of the sides with the shared
/// factors cancelled: with `dx = x1 - x2 >= 0` and `dy = y1 - y2`, comparing
/// the keys is comparing `m1 * 5^max(dy,0) * 2^dx` with `m2 * 5^max(-dy,0)`,
/// and symmetrically for `dx < 0`.
proof fn lemma_mag_reduce(m1: u64, x1: int, y1: int, m2: u64, x2: int, y2: int)
    requires
        -1100 <= x1 <= 1100,
        -1100 <= x2 <= 1100,
        -1100 <= y1 <= 1100,
        -1100 <= y2 <= 1100,
    ensures
        ({
            let dy = y1 - y2;
            let dx = x1 - x2;
            let b1 = m1 * (if dy >= 0 { pow(5, dy as nat) } else { 1int });
            let b2 = m2 * (if dy >= 0 { 1int } else { pow(5, (-dy) as nat) });
            let l = if dx >= 0 { b1 * pow2(dx as nat) } else { b1 };
            let g = if dx >= 0 { b2 } else { b2 * pow2((-dx) as nat) };
            &&& (mag_key(m1, x1, y1) < mag_key(m2, x2, y2) <==> l < g)
            &&& (mag_key(m1, x1, y1) == mag_key(m2, x2, y2) <==> l == g)
        }),
{
    let dy = y1 - y2;
    let dx = x1 - x2;
    let b1 = m1 * (if dy >= 0 { pow(5, dy as nat) } else { 1int });
    let b2 = m2 * (if dy >= 0 { 1int } else { pow(5, (-dy) as nat) });
    let l = if dx >= 0 { b1 * pow2(dx as nat) } else { b1 };
    let g = if dx >= 0 { b2 } else { b2 * pow2((-dx) as nat) };
    let ym = if y1 <= y2 { y1 } else { y2 };
    let xm = if x1 <= x2 { x1 } else { x2 };
    let c = pow2((xm + 1100) as nat) * pow(5, (ym + 1100) as nat);
    assert(c >= 1) by {
        vstd::arithmetic::power2::lemma_pow2_pos((xm + 1100) as nat);
        lemma_pow5_pos(ym + 1100);
        assert(pow2((xm + 1100) as nat) * pow(5, (ym + 1100) as nat) >= 1) by (nonlinear_arith)
            requires
                pow2((xm + 1100) as nat) >= 1,
                pow(5, (ym + 1100) as nat) >= 1,
        ;
    }
    lemma_key_split(m1, x1, y1, xm, ym);
    lemma_key_split(m2, x2, y2, xm, ym);
    let e1 = (x1 - xm) as nat;
    let f1 = (y1 - ym) as nat;
    let e2 = (x2 - xm) as nat;
    let f2 = (y2 - ym) as nat;
    assert(mag_key(m1, x1, y1) == (m1 * pow(5, f1) * pow2(e1)) * c);
    assert(mag_key(m2, x2, y2) == (m2 * pow(5, f2) * pow2(e2)) * c);
    assert(m1 * pow(5, f1) * pow2(e1) == l) by {
        lemma_pow5_pos(dy);
        lemma_pow5_pos(-dy);
        vstd::arithmetic::power::lemma_pow0(5);
        vstd::arithmetic::power2::lemma_pow2(0);
        assert(pow(2, 0) == 1) by {
            vstd::arithmetic::power::lemma_pow0(2);
        }
        if dy >= 0 {
            assert(f1 == dy && f2 == 0);
        } else {
            assert(f1 == 0 && f2 == -dy);
        }
        if dx >= 0 {
            assert(e1 == dx && e2 == 0);
        } else {
            assert(e1 == 0 && e2 == -dx);
        }
        assert(m1 * pow(5, 0) * pow2(0) == m1) by (nonlinear_arith)
            requires
                pow(5, 0) == 1,
                pow2(0) == 1,
        ;
        assert(m1 * pow(5, f1) * pow2(0) == m1 * pow(5, f1)) by (nonlinear_arith)
            requires
                pow2(0) == 1,
        ;
    }
    assert(m2 * pow(5, f2) * pow2(e2) == g) by {
        vstd::arithmetic::power::lemma_pow0(5);
        assert(pow2(0) == 1) by {
            vstd::arithmetic::power::lemma_pow0(2);
        }
        if dy >= 0 {
            assert(f2 == 0);
        }
        if dx >= 0 {
            assert(e2 == 0);
        }
        assert(m2 * pow(5, 0) * pow2(e2) == m2 * pow2(e2)) by (nonlinear_arith)
            requires
                pow(5, 0) == 1,
        ;
        assert(m2 * pow(5, f2) * pow2(0) == m2 * pow(5, f2)) by (nonlinear_arith)
            requires
                pow2(0) == 1,
        ;
        assert(m2 * 1 == m2) by (nonlinear_arith);
    }
    lemma_cmp_cancel(l, g, c);
}

/// Splits a key into the part above the shared minimum exponents and the
/// shared factor itself.
proof fn lemma_key_split(m: u64, x: int, y: int, xm: int, ym: int)
    requires
        -1100 <= xm <= x,
        -1100 <= ym <= y,
    ensures
        mag_key(m, x, y) == (m * pow(5, (y - ym) as nat) * pow2((x - xm) as nat)) * (pow2(
            (xm + 1100) as nat,
        ) * pow(5, (ym + 1100) as nat)),
{
    vstd::arithmetic::power2::lemma_pow2_adds((x - xm) as nat, (xm + 1100) as nat);
    vstd::arithmetic::power::lemma_pow_adds(5, (y - ym) as nat, (ym + 1100) as nat);
    assert(pow2((x + 1100) as nat) == pow2((x - xm) as nat) * pow2((xm + 1100) as nat));
    assert(pow(5, (y + 1100) as nat) == pow(5, (y - ym) as nat) * pow(5, (ym + 1100) as nat));
    let p2a = pow2((x - xm) as nat);
    let p2b = pow2((xm + 1100) as nat);
    let p5a = pow(5, (y - ym) as nat);
    let p5b = pow(5, (ym + 1100) as nat);
    assert(m * (p2a * p2b) * (p5a * p5b) == (m * p5a * p2a) * (p2b * p5b)) by (nonlinear_arith);
}

/// A positive common factor cancels from both sides of a comparison.
proof fn lemma_cmp_cancel(a: int, b: int, c: int)
    requires
        c >= 1,
    ensures
        a * c < b * c <==> a < b,
        a * c == b * c <==> a == b,
{
    assert((a * c < b * c <==> a < b) && (a * c == b * c <==> a == b)) by (nonlinear_arith)
        requires
            c >= 1,
    ;
}

proof fn lemma_pow5_pos(e: int)
    ensures
        e >= 0 ==> pow(5, e as nat) >= 1,
{
    if e >= 0 {
        vstd::arithmetic::power::lemma_pow_positive(5, e as nat);
    }
}

proof fn lemma_pow2_128()
    ensures
        pow2(127) == 0x8000_0000_0000_0000_0000_0000_0000_0000,
        pow2(128) == 0x1_0000_0000_0000_0000_0000_0000_0000_0000,
{
    vstd::arithmetic::power2::lemma_pow2_adds(63, 64);
    vstd::arithmetic::power2::lemma_pow2_adds(64, 64);
    vstd::arithmetic::power2::lemma2_to64();
    vstd::arithmetic::power2::lemma2_to64_rest();
}

proof fn lemma_pow5_18()
    ensures
        pow(5, 18) == 3814697265625,
{
    reveal_with_fuel(pow, 19);
}

fn pow5_u64(e: u32) -> (r: u64)
    requires
        e <= 18,
    ensures
        r == pow(5, e as nat),
        1 <= r <= 3814697265625,
{
    proof {
        lemma_pow5_18();
        vstd::arithmetic::power::lemma_pow0(5);
    }
    let mut r: u64 = 1;
    let mut i: u32 = 0;
    while i < e
        invariant
            i <= e <= 18,
            r == pow(5, i as nat),
        decreases e - i,
    {
        proof {
            vstd::arithmetic::power::lemma_pow_increases(5, (i + 1) as nat, 18);
            lemma_pow5_18();
            assert(pow(5, (i + 1) as nat) == 5 * pow(5, i as nat)) by {
                reveal_with_fuel(pow, 2);
            }
        }
        r = r * 5;
        i = i + 1;
    }
    proof {
        vstd::arithmetic::power::lemma_pow_increases(5, e as nat, 18);
        vstd::arithmetic::power::lemma_pow_positive(5, e as nat);
    }
    r
}

fn pow2_u128(d: u32) -> (r: u128)
    requires
        d <= 127,
    ensures
        r == pow2(d as nat),
        r >= 1,
{
    proof {
        vstd::arithmetic::power2::lemma2_to64();
    }
    let mut r: u128 = 1;
    let mut i: u32 = 0;
    while i < d
        invariant
            i <= d <= 127,
            r == pow2(i as nat),
        decreases d - i,
    {
        proof {
            lemma_pow2_128();
            if i + 1 < 127 {
                vstd::arithmetic::power2::lemma_pow2_strictly_increases((i + 1) as nat, 127);
            }
            vstd::arithmetic::power2::lemma_pow2_adds(i as nat, 1);
            vstd::arithmetic::power2::lemma2_to64();
        }
        r = r * 2;
        i = i + 1;
    }
    proof {
        vstd::arithmetic::power2::lemma_pow2_pos(d as nat);
    }
    r
}

} // verus!
