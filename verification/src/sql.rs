//! The SQL parser.
//!
//! The engine understands three statement forms:
//!
//! ```text
//! select      := "SELECT" cols "FROM" ident [ "WHERE" ident "=" literal ]
//! create_tbl  := "CREATE TABLE" ident "(" column ("," column)* ")"
//! create_idx  := "CREATE INDEX" ident "ON" ident "(" ident ("," ident)* ")"
//! ```
//!
//! Keywords are matched without regard to ASCII case; whitespace is
//! permissive.  Identifiers are maximal runs of bytes outside each
//! position's stop set, so they carry no meaning of their own; keyword
//! bytes are written as their ASCII codes because the verifier does not
//! accept byte-string literals.

use vstd::prelude::*;

use crate::error::DbError;
use crate::numeric::{Literal, SpecLiteral};

verus! {

/// Whitespace: space, tab, carriage return, line feed.
pub open spec fn is_ws(b: u8) -> bool {
    b == 32 || b == 9 || b == 13 || b == 10
}

/// Upper-case ASCII letters folded to lower case; all else unchanged.
pub open spec fn ascii_lower(b: u8) -> u8 {
    if 65 <= b <= 90 {
        (b + 32) as u8
    } else {
        b
    }
}

/// The first position at or after `i` that is not whitespace.
pub open spec fn spec_skip_ws(s: Seq<u8>, i: int) -> int
    decreases s.len() - i,
{
    if 0 <= i < s.len() && is_ws(s[i]) {
        spec_skip_ws(s, i + 1)
    } else {
        i
    }
}

/// Advances past whitespace.
pub fn skip_ws(s: &[u8], i: usize) -> (r: usize)
    requires
        i <= s@.len(),
    ensures
        r == spec_skip_ws(s@, i as int),
        i <= r <= s@.len(),
{
    let slen: usize = s.len();
    let mut j: usize = i;
    while j < slen && (s[j] == 32 || s[j] == 9 || s[j] == 13 || s[j] == 10)
        invariant
            i <= j <= slen,
            slen == s@.len(),
            spec_skip_ws(s@, i as int) == spec_skip_ws(s@, j as int),
        decreases slen - j,
    {
        j = j + 1;
    }
    j
}

/// The stop sets that delimit identifiers in the different grammar
/// positions.
#[derive(Clone, Copy, Debug)]
pub enum Charset {
    /// A selected column or table name: stops at whitespace and `,`.
    SelName,
    /// A filter column name: stops at whitespace and `=`.
    FilterName,
    /// A created table or index name: stops at whitespace, `,`, `)`, `(`.
    CreateName,
    /// An unquoted column name: stops at whitespace, `"`, `,`, `)`.
    ColName,
    /// A column data type: stops at whitespace, `,`, `)`.
    TypeName,
    /// The inside of a double-quoted name: stops at `"`.
    Quoted,
    /// The inside of a single-quoted text literal: stops at `'`.
    SingleQuoted,
}

/// Whether byte `b` ends an identifier of the given stop set.
pub open spec fn spec_stops(cs: Charset, b: u8) -> bool {
    match cs {
        Charset::SelName => is_ws(b) || b == 44,
        Charset::FilterName => is_ws(b) || b == 61,
        Charset::CreateName => is_ws(b) || b == 44 || b == 41 || b == 40,
        Charset::ColName => is_ws(b) || b == 34 || b == 44 || b == 41,
        Charset::TypeName => is_ws(b) || b == 44 || b == 41,
        Charset::Quoted => b == 34,
        Charset::SingleQuoted => b == 39,
    }
}

fn stops(cs: Charset, b: u8) -> (r: bool)
    ensures
        r == spec_stops(cs, b),
{
    let ws = b == 32 || b == 9 || b == 13 || b == 10;
    match cs {
        Charset::SelName => ws || b == 44,
        Charset::FilterName => ws || b == 61,
        Charset::CreateName => ws || b == 44 || b == 41 || b == 40,
        Charset::ColName => ws || b == 34 || b == 44 || b == 41,
        Charset::TypeName => ws || b == 44 || b == 41,
        Charset::Quoted => b == 34,
        Charset::SingleQuoted => b == 39,
    }
}

/// The first position at or after `i` whose byte is in the stop set.
pub open spec fn spec_scan_end(s: Seq<u8>, i: int, cs: Charset) -> int
    decreases s.len() - i,
{
    if 0 <= i < s.len() && !spec_stops(cs, s[i]) {
        spec_scan_end(s, i + 1, cs)
    } else {
        i
    }
}

fn scan_end(s: &[u8], i: usize, cs: Charset) -> (r: usize)
    requires
        i <= s@.len(),
    ensures
        r == spec_scan_end(s@, i as int, cs),
        i <= r <= s@.len(),
{
    let slen: usize = s.len();
    let mut j: usize = i;
    loop
        invariant
            i <= j <= slen,
            slen == s@.len(),
            spec_scan_end(s@, i as int, cs) == spec_scan_end(s@, j as int, cs),
        decreases slen - j,
    {
        if j == slen {
            return j;
        }
        if stops(cs, s[j]) {
            return j;
        }
        j = j + 1;
    }
}

/// The identifier starting at `i`: its bytes (at least one) and the
/// position one past it.
pub open spec fn spec_ident(s: Seq<u8>, i: int, cs: Charset) -> Option<(Seq<u8>, int)> {
    let j = spec_scan_end(s, i, cs);
    if j == i {
        None
    } else {
        Some((s.subrange(i, j), j))
    }
}

fn ident(s: &[u8], i: usize, cs: Charset) -> (r: Option<(Vec<u8>, usize)>)
    requires
        i <= s@.len(),
    ensures
        match r {
            None => spec_ident(s@, i as int, cs) is None,
            Some((nm, j)) => {
                &&& spec_ident(s@, i as int, cs) == Some((nm@, j as int))
                &&& i < j <= s@.len()
            },
        },
{
    let j = scan_end(s, i, cs);
    if j == i {
        None
    } else {
        let nm = crate::record::copy_range(s, i, j - i);
        proof {
            assert(nm@ =~= s@.subrange(i as int, j as int));
        }
        Some((nm, j))
    }
}

/// Whether the bytes at `i` match `kw` without regard to ASCII case
/// (`kw` itself is lower case).
pub open spec fn spec_tag_nc(s: Seq<u8>, i: int, kw: Seq<u8>) -> bool {
    &&& 0 <= i
    &&& i + kw.len() <= s.len()
    &&& forall|k: int| 0 <= k < kw.len() ==> ascii_lower(s[i + k]) == kw[k]
}

fn tag_nc(s: &[u8], i: usize, kw: &Vec<u8>) -> (r: bool)
    requires
        i <= s@.len(),
    ensures
        r == spec_tag_nc(s@, i as int, kw@),
{
    let slen: usize = s.len();
    if kw.len() > slen - i {
        return false;
    }
    let mut k: usize = 0;
    while k < kw.len()
        invariant
            k <= kw@.len(),
            i + kw@.len() <= slen,
            slen == s@.len(),
            forall|m: int| 0 <= m < k ==> ascii_lower(s@[i + m]) == kw@[m],
        decreases kw@.len() - k,
    {
        let b = s[i + k];
        let low: u8 = if 65 <= b && b <= 90 {
            b + 32
        } else {
            b
        };
        if low != kw[k] {
            return false;
        }
        k = k + 1;
    }
    true
}

/// Whether the bytes at `i` are exactly `kw`.
pub open spec fn spec_tag(s: Seq<u8>, i: int, kw: Seq<u8>) -> bool {
    &&& 0 <= i
    &&& i + kw.len() <= s.len()
    &&& forall|k: int| 0 <= k < kw.len() ==> s[i + k] == kw[k]
}

fn tag(s: &[u8], i: usize, kw: &Vec<u8>) -> (r: bool)
    requires
        i <= s@.len(),
    ensures
        r == spec_tag(s@, i as int, kw@),
{
    let slen: usize = s.len();
    if kw.len() > slen - i {
        return false;
    }
    let mut k: usize = 0;
    while k < kw.len()
        invariant
            k <= kw@.len(),
            i + kw@.len() <= slen,
            slen == s@.len(),
            forall|m: int| 0 <= m < k ==> s@[i + m] == kw@[m],
        decreases kw@.len() - k,
    {
        if s[i + k] != kw[k] {
            return false;
        }
        k = k + 1;
    }
    true
}

/// `"select"`.
pub open spec fn kw_select() -> Seq<u8> {
    seq![115u8, 101u8, 108u8, 101u8, 99u8, 116u8]
}

fn kw_select_v() -> (r: Vec<u8>)
    ensures
        r@ == kw_select(),
{
    let v: Vec<u8> = vec![115u8, 101u8, 108u8, 101u8, 99u8, 116u8];
    proof {
        assert(v@ =~= kw_select());
    }
    v
}

/// `"from"`.
pub open spec fn kw_from() -> Seq<u8> {
    seq![102u8, 114u8, 111u8, 109u8]
}

fn kw_from_v() -> (r: Vec<u8>)
    ensures
        r@ == kw_from(),
{
    let v: Vec<u8> = vec![102u8, 114u8, 111u8, 109u8];
    proof {
        assert(v@ =~= kw_from());
    }
    v
}

/// `"where"`.
pub open spec fn kw_where() -> Seq<u8> {
    seq![119u8, 104u8, 101u8, 114u8, 101u8]
}

fn kw_where_v() -> (r: Vec<u8>)
    ensures
        r@ == kw_where(),
{
    let v: Vec<u8> = vec![119u8, 104u8, 101u8, 114u8, 101u8];
    proof {
        assert(v@ =~= kw_where());
    }
    v
}

/// `"create table "` (with the trailing space).
pub open spec fn kw_create_table_sp() -> Seq<u8> {
    seq![99u8, 114u8, 101u8, 97u8, 116u8, 101u8, 32u8, 116u8, 97u8, 98u8, 108u8, 101u8, 32u8]
}

fn kw_create_table_sp_v() -> (r: Vec<u8>)
    ensures
        r@ == kw_create_table_sp(),
{
    let v: Vec<u8> = vec![
        99u8, 114u8, 101u8, 97u8, 116u8, 101u8, 32u8, 116u8, 97u8, 98u8, 108u8, 101u8, 32u8,
    ];
    proof {
        assert(v@ =~= kw_create_table_sp());
    }
    v
}

/// `"create table"` (without the trailing space), for statement dispatch.
pub open spec fn kw_create_table() -> Seq<u8> {
    seq![99u8, 114u8, 101u8, 97u8, 116u8, 101u8, 32u8, 116u8, 97u8, 98u8, 108u8, 101u8]
}

fn kw_create_table_v() -> (r: Vec<u8>)
    ensures
        r@ == kw_create_table(),
{
    let v: Vec<u8> = vec![
        99u8, 114u8, 101u8, 97u8, 116u8, 101u8, 32u8, 116u8, 97u8, 98u8, 108u8, 101u8,
    ];
    proof {
        assert(v@ =~= kw_create_table());
    }
    v
}

/// `"create index "` (with the trailing space).
pub open spec fn kw_create_index_sp() -> Seq<u8> {
    seq![99u8, 114u8, 101u8, 97u8, 116u8, 101u8, 32u8, 105u8, 110u8, 100u8, 101u8, 120u8, 32u8]
}

fn kw_create_index_sp_v() -> (r: Vec<u8>)
    ensures
        r@ == kw_create_index_sp(),
{
    let v: Vec<u8> = vec![
        99u8, 114u8, 101u8, 97u8, 116u8, 101u8, 32u8, 105u8, 110u8, 100u8, 101u8, 120u8, 32u8,
    ];
    proof {
        assert(v@ =~= kw_create_index_sp());
    }
    v
}

/// `"on "` (with the trailing space).
pub open spec fn kw_on_sp() -> Seq<u8> {
    seq![111u8, 110u8, 32u8]
}

fn kw_on_sp_v() -> (r: Vec<u8>)
    ensures
        r@ == kw_on_sp(),
{
    let v: Vec<u8> = vec![111u8, 110u8, 32u8];
    proof {
        assert(v@ =~= kw_on_sp());
    }
    v
}

/// `"not null"`.
pub open spec fn kw_not_null() -> Seq<u8> {
    seq![110u8, 111u8, 116u8, 32u8, 110u8, 117u8, 108u8, 108u8]
}

fn kw_not_null_v() -> (r: Vec<u8>)
    ensures
        r@ == kw_not_null(),
{
    let v: Vec<u8> = vec![110u8, 111u8, 116u8, 32u8, 110u8, 117u8, 108u8, 108u8];
    proof {
        assert(v@ =~= kw_not_null());
    }
    v
}

/// `"primary key"`.
pub open spec fn kw_primary_key() -> Seq<u8> {
    seq![112u8, 114u8, 105u8, 109u8, 97u8, 114u8, 121u8, 32u8, 107u8, 101u8, 121u8]
}

fn kw_primary_key_v() -> (r: Vec<u8>)
    ensures
        r@ == kw_primary_key(),
{
    let v: Vec<u8> = vec![112u8, 114u8, 105u8, 109u8, 97u8, 114u8, 121u8, 32u8, 107u8, 101u8,
        121u8];
    proof {
        assert(v@ =~= kw_primary_key());
    }
    v
}

/// `" autoincrement"` (with the leading space), matched exactly in lower
/// case.
pub open spec fn kw_sp_autoincrement() -> Seq<u8> {
    seq![
        32u8, 97u8, 117u8, 116u8, 111u8, 105u8, 110u8, 99u8, 114u8, 101u8, 109u8, 101u8, 110u8,
        116u8,
    ]
}

fn kw_sp_autoincrement_v() -> (r: Vec<u8>)
    ensures
        r@ == kw_sp_autoincrement(),
{
    let v: Vec<u8> = vec![
        32u8, 97u8, 117u8, 116u8, 111u8, 105u8, 110u8, 99u8, 114u8, 101u8, 109u8, 101u8, 110u8,
        116u8,
    ];
    proof {
        assert(v@ =~= kw_sp_autoincrement());
    }
    v
}

/// ASCII decimal digits.
pub open spec fn is_digit(b: u8) -> bool {
    48 <= b <= 57
}

/// The first position at or after `i` that is not a digit.
pub open spec fn spec_digits_end(s: Seq<u8>, i: int) -> int
    decreases s.len() - i,
{
    if 0 <= i < s.len() && is_digit(s[i]) {
        spec_digits_end(s, i + 1)
    } else {
        i
    }
}

proof fn lemma_digits_end_bounds(s: Seq<u8>, i: int)
    requires
        0 <= i <= s.len(),
    ensures
        i <= spec_digits_end(s, i) <= s.len(),
        forall|k: int| i <= k < spec_digits_end(s, i) ==> is_digit(s[k]),
    decreases s.len() - i,
{
    if 0 <= i < s.len() && is_digit(s[i]) {
        lemma_digits_end_bounds(s, i + 1);
    }
}

fn digits_end(s: &[u8], i: usize) -> (r: usize)
    requires
        i <= s@.len(),
    ensures
        r == spec_digits_end(s@, i as int),
        i <= r <= s@.len(),
{
    let slen: usize = s.len();
    let mut j: usize = i;
    while j < slen && 48 <= s[j] && s[j] <= 57
        invariant
            i <= j <= slen,
            slen == s@.len(),
            spec_digits_end(s@, i as int) == spec_digits_end(s@, j as int),
        decreases slen - j,
    {
        j = j + 1;
    }
    j
}

/// `10^e`, the weight of the `e`-th decimal digit.
pub open spec fn pow10(e: nat) -> nat
    decreases e,
{
    if e == 0 {
        1
    } else {
        10 * pow10((e - 1) as nat)
    }
}

proof fn lemma_pow10_values()
    ensures
        pow10(18) == 0xDE0_B6B3_A764_0000,
        pow10(18) < 0x8000_0000_0000_0000,
{
    reveal_with_fuel(pow10, 19);
}

proof fn lemma_pow10_pos(e: nat)
    ensures
        pow10(e) >= 1,
    decreases e,
{
    if e > 0 {
        lemma_pow10_pos((e - 1) as nat);
        assert(10 * pow10((e - 1) as nat) >= pow10((e - 1) as nat)) by (nonlinear_arith)
            requires
                pow10((e - 1) as nat) >= 1,
        ;
    }
}

proof fn lemma_pow10_increases(e1: nat, e2: nat)
    requires
        e1 <= e2,
    ensures
        1 <= pow10(e1) <= pow10(e2),
    decreases e2,
{
    lemma_pow10_pos(e1);
    if e1 < e2 {
        lemma_pow10_increases(e1, (e2 - 1) as nat);
        assert(pow10((e2 - 1) as nat) <= 10 * pow10((e2 - 1) as nat)) by (nonlinear_arith)
            requires
                pow10((e2 - 1) as nat) >= 1,
        ;
    }
}

proof fn lemma_pow10_adds(a: nat, b: nat)
    ensures
        pow10(a + b) == pow10(a) * pow10(b),
    decreases a,
{
    if a == 0 {
        assert(1 * pow10(b) == pow10(b)) by (nonlinear_arith);
    } else {
        lemma_pow10_adds((a - 1) as nat, b);
        assert((a - 1 + b) + 1 == a + b);
        assert(pow10(a + b) == 10 * pow10((a - 1 + b) as nat));
        assert(10 * (pow10((a - 1) as nat) * pow10(b)) == (10 * pow10((a - 1) as nat)) * pow10(
            b,
        )) by (nonlinear_arith);
    }
}

/// The decimal value of the digits from `i` (inclusive) to `j`
/// (exclusive).
pub open spec fn spec_dec_val(s: Seq<u8>, i: int, j: int) -> nat
    decreases j - i,
{
    if j <= i {
        0
    } else {
        (spec_dec_val(s, i, j - 1) * 10 + (s[j - 1] - 48)) as nat
    }
}

proof fn lemma_dec_val_bound(s: Seq<u8>, i: int, j: int)
    requires
        forall|k: int| i <= k < j ==> is_digit(s[k]),
        0 <= i,
        j <= s.len(),
    ensures
        spec_dec_val(s, i, j) < pow10(if j <= i {
            0
        } else {
            (j - i) as nat
        }),
    decreases j - i,
{
    if j <= i {
    } else {
        lemma_dec_val_bound(s, i, j - 1);
        let prev = spec_dec_val(s, i, j - 1);
        assert(prev * 10 + (s[j - 1] - 48) < pow10((j - i) as nat)) by (nonlinear_arith)
            requires
                prev < pow10((j - i - 1) as nat),
                0 <= s[j - 1] - 48 <= 9,
                pow10((j - i) as nat) == 10 * pow10((j - i - 1) as nat),
        ;
    }
}

fn pow10_u64(e: u32) -> (r: u64)
    requires
        e <= 18,
    ensures
        r == pow10(e as nat),
{
    proof {
        lemma_pow10_values();
        vstd::arithmetic::power::lemma_pow0(5);
    }
    let mut r: u64 = 1;
    let mut i: u32 = 0;
    while i < e
        invariant
            i <= e <= 18,
            r == pow10(i as nat),
        decreases e - i,
    {
        proof {
            lemma_pow10_increases((i + 1) as nat, 18);
            lemma_pow10_values();
        }
        r = r * 10;
        i = i + 1;
    }
    r
}

fn dec_val(s: &[u8], i: usize, j: usize) -> (r: u64)
    requires
        i <= j <= s@.len(),
        j - i <= 18,
        forall|k: int| i <= k < j ==> is_digit(s@[k]),
    ensures
        r == spec_dec_val(s@, i as int, j as int),
        r < pow10((j - i) as nat),
{
    proof {
        lemma_pow10_values();
    }
    let mut acc: u64 = 0;
    let mut k: usize = i;
    while k < j
        invariant
            i <= k <= j <= s@.len(),
            j - i <= 18,
            forall|m: int| i <= m < j ==> is_digit(s@[m]),
            acc == spec_dec_val(s@, i as int, k as int),
            acc < pow10((k - i) as nat),
        decreases j - k,
    {
        proof {
            lemma_pow10_increases((k - i + 1) as nat, 18);
            lemma_pow10_values();
            assert(acc * 10 + (s@[k as int] - 48) < pow10((k - i + 1) as nat)) by (nonlinear_arith)
                requires
                    acc < pow10((k - i) as nat),
                    0 <= s@[k as int] - 48 <= 9,
                    pow10((k - i + 1) as nat) == 10 * pow10((k - i) as nat),
            ;
        }
        acc = acc * 10 + (s[k] - 48) as u64;
        k = k + 1;
    }
    acc
}

/// The numeric literal at `i`: sign, decimal mantissa, fractional scale,
/// and the position one past it.  A literal is an optional `-`, at least
/// one digit, and optionally a `.` followed by at least one more digit;
/// literals of more than eighteen digits in all are not accepted.
pub open spec fn spec_number(s: Seq<u8>, i: int) -> Option<(bool, u64, u32, int)> {
    if !(0 <= i <= s.len()) {
        None
    } else {
        let neg = i < s.len() && s[i] == 45;
        let i0 = if neg {
            i + 1
        } else {
            i
        };
        let j1 = spec_digits_end(s, i0);
        if j1 == i0 {
            None
        } else if j1 < s.len() && s[j1] == 46 {
            let j2 = spec_digits_end(s, j1 + 1);
            if j2 == j1 + 1 {
                None
            } else if (j1 - i0) + (j2 - j1 - 1) > 18 {
                None
            } else {
                let scale = (j2 - j1 - 1) as nat;
                Some(
                    (
                        neg,
                        (spec_dec_val(s, i0, j1) * pow10(scale) + spec_dec_val(
                            s,
                            j1 + 1,
                            j2,
                        )) as u64,
                        scale as u32,
                        j2,
                    ),
                )
            }
        } else if j1 - i0 > 18 {
            None
        } else {
            Some((neg, spec_dec_val(s, i0, j1) as u64, 0, j1))
        }
    }
}

fn number(s: &[u8], i: usize) -> (r: Option<(bool, u64, u32, usize)>)
    requires
        i <= s@.len(),
    ensures
        match r {
            None => spec_number(s@, i as int) is None,
            Some((neg, m, sc, end)) => {
                &&& spec_number(s@, i as int) == Some((neg, m, sc, end as int))
                &&& i < end <= s@.len()
                &&& sc <= 18
            },
        },
{
    let slen: usize = s.len();
    let neg = i < slen && s[i] == 45;
    let i0: usize = if neg {
        i + 1
    } else {
        i
    };
    let j1 = digits_end(s, i0);
    proof {
        lemma_digits_end_bounds(s@, i0 as int);
    }
    if j1 == i0 {
        return None;
    }
    if j1 < slen && s[j1] == 46 {
        let j2 = digits_end(s, j1 + 1);
        proof {
            lemma_digits_end_bounds(s@, j1 + 1);
        }
        if j2 == j1 + 1 {
            return None;
        }
        if (j1 - i0) + (j2 - j1 - 1) > 18 {
            return None;
        }
        let scale: u32 = (j2 - j1 - 1) as u32;
        let iv = dec_val(s, i0, j1);
        let fv = dec_val(s, j1 + 1, j2);
        let w = pow10_u64(scale);
        proof {
            lemma_pow10_adds((j1 - i0) as nat, scale as nat);
            lemma_pow10_increases(((j1 - i0) + scale) as nat, 18);
            lemma_pow10_values();
            assert(iv * w + fv < pow10(((j1 - i0) + scale) as nat)) by (nonlinear_arith)
                requires
                    iv < pow10((j1 - i0) as nat),
                    fv < pow10(scale as nat),
                    w == pow10(scale as nat),
                    w >= 1,
                    pow10(((j1 - i0) + scale) as nat) == pow10((j1 - i0) as nat) * pow10(
                        scale as nat,
                    ),
            ;
        }
        let m: u64 = iv * w + fv;
        Some((neg, m, scale, j2))
    } else {
        if j1 - i0 > 18 {
            return None;
        }
        let iv = dec_val(s, i0, j1);
        Some((neg, iv, 0, j1))
    }
}

/// One column of a `CREATE TABLE` statement.
#[derive(Clone, Debug)]
pub struct Column {
    pub name: Vec<u8>,
    pub data_type: Option<Vec<u8>>,
    pub is_primary_key: bool,
}

/// The mathematical reading of a [`Column`].
pub struct SpecColumn {
    pub name: Seq<u8>,
    pub data_type: Option<Seq<u8>>,
    pub is_primary_key: bool,
}

impl View for Column {
    type V = SpecColumn;

    open spec fn view(&self) -> SpecColumn {
        SpecColumn {
            name: self.name@,
            data_type: match &self.data_type {
                Some(t) => Some(t@),
                None => None,
            },
            is_primary_key: self.is_primary_key,
        }
    }
}

impl DeepView for Column {
    type V = SpecColumn;

    open spec fn deep_view(&self) -> SpecColumn {
        self.view()
    }
}

/// A parsed create statement.
#[derive(Clone, Debug)]
pub enum CreateStatement {
    CreateTable { name: Vec<u8>, columns: Vec<Column> },
    CreateIndex { name: Vec<u8>, table: Vec<u8>, columns: Vec<Vec<u8>> },
}

/// The mathematical reading of a [`CreateStatement`].
pub enum SpecCreateStatement {
    CreateTable { name: Seq<u8>, columns: Seq<SpecColumn> },
    CreateIndex { name: Seq<u8>, table: Seq<u8>, columns: Seq<Seq<u8>> },
}

impl View for CreateStatement {
    type V = SpecCreateStatement;

    open spec fn view(&self) -> SpecCreateStatement {
        match self {
            CreateStatement::CreateTable { name, columns } => SpecCreateStatement::CreateTable {
                name: name@,
                columns: columns.deep_view(),
            },
            CreateStatement::CreateIndex { name, table, columns } => {
                SpecCreateStatement::CreateIndex {
                    name: name@,
                    table: table@,
                    columns: columns.deep_view(),
                }
            },
        }
    }
}

impl DeepView for CreateStatement {
    type V = SpecCreateStatement;

    open spec fn deep_view(&self) -> SpecCreateStatement {
        self.view()
    }
}

/// A parsed `SELECT` statement: the projected column names, the table
/// name, and the optional equality filter.
#[derive(Clone, Debug)]
pub struct Select {
    pub columns: Vec<Vec<u8>>,
    pub table: Vec<u8>,
    pub filter: Option<(Vec<u8>, Literal)>,
}

/// The mathematical reading of a [`Select`].
pub struct SpecSelect {
    pub columns: Seq<Seq<u8>>,
    pub table: Seq<u8>,
    pub filter: Option<(Seq<u8>, SpecLiteral)>,
}

impl View for Select {
    type V = SpecSelect;

    open spec fn view(&self) -> SpecSelect {
        SpecSelect {
            columns: self.columns.deep_view(),
            table: self.table@,
            filter: match &self.filter {
                Some((c, l)) => Some((c@, l@)),
                None => None,
            },
        }
    }
}

impl DeepView for Select {
    type V = SpecSelect;

    open spec fn deep_view(&self) -> SpecSelect {
        self.view()
    }
}

/// A select's filter literal, when numeric, keeps its scale in range.
pub open spec fn select_wf(sel: SpecSelect) -> bool {
    match sel.filter {
        Some((c, l)) => crate::numeric::literal_wf(l),
        None => true,
    }
}

/// One projected column: optional whitespace, an identifier, optional
/// whitespace.
pub open spec fn spec_sel_item(s: Seq<u8>, i: int) -> Option<(Seq<u8>, int)> {
    let i0 = spec_skip_ws(s, i);
    match spec_ident(s, i0, Charset::SelName) {
        None => None,
        Some((nm, j)) => Some((nm, spec_skip_ws(s, j))),
    }
}

/// The projected columns after the first: a comma, then another item, as
/// long as a comma follows.
pub open spec fn spec_sel_cols_rest(s: Seq<u8>, i: int) -> Option<(Seq<Seq<u8>>, int)>
    decreases s.len() - i,
{
    if !(0 <= i < s.len() && s[i] == 44) {
        Some((Seq::empty(), i))
    } else {
        match spec_sel_item(s, i + 1) {
            None => None,
            Some((nm, j)) => if j <= i || j > s.len() {
                None
            } else {
                match spec_sel_cols_rest(s, j) {
                    None => None,
                    Some((rest, end)) => Some((seq![nm].add(rest), end)),
                }
            },
        }
    }
}

/// The comma-separated projected columns.
pub open spec fn spec_sel_cols(s: Seq<u8>, i: int) -> Option<(Seq<Seq<u8>>, int)> {
    match spec_sel_item(s, i) {
        None => None,
        Some((nm, j)) => match spec_sel_cols_rest(s, j) {
            None => None,
            Some((rest, end)) => Some((seq![nm].add(rest), end)),
        },
    }
}

/// The parse of a `SELECT` statement.  Trailing bytes after the statement
/// are ignored; a `WHERE` whose filter does not parse is an error.
pub open spec fn spec_parse_select(q: Seq<u8>) -> Result<SpecSelect, DbError> {
    if !spec_tag_nc(q, 0, kw_select()) {
        Err(DbError::SqlSyntax)
    } else {
        let i1 = spec_skip_ws(q, 6);
        match spec_sel_cols(q, i1) {
            None => Err(DbError::SqlSyntax),
            Some((cols, i2)) => if !spec_tag_nc(q, i2, kw_from()) {
                Err(DbError::SqlSyntax)
            } else {
                let i3 = spec_skip_ws(q, i2 + 4);
                match spec_ident(q, i3, Charset::SelName) {
                    None => Err(DbError::SqlSyntax),
                    Some((table, j)) => {
                        let i4 = spec_skip_ws(q, j);
                        if spec_tag_nc(q, i4, kw_where()) {
                            let i5 = spec_skip_ws(q, i4 + 5);
                            match spec_ident(q, i5, Charset::FilterName) {
                                None => Err(DbError::SqlSyntax),
                                Some((col, j2)) => {
                                    let i6 = spec_skip_ws(q, j2);
                                    if !(i6 < q.len() && q[i6] == 61) {
                                        Err(DbError::SqlSyntax)
                                    } else {
                                        let i7 = spec_skip_ws(q, i6 + 1);
                                        match spec_literal(q, i7) {
                                            None => Err(DbError::SqlSyntax),
                                            Some((lit, _)) => Ok(
                                                SpecSelect {
                                                    columns: cols,
                                                    table,
                                                    filter: Some((col, lit)),
                                                },
                                            ),
                                        }
                                    }
                                },
                            }
                        } else {
                            Ok(SpecSelect { columns: cols, table, filter: None })
                        }
                    },
                }
            },
        }
    }
}

/// The filter literal at `i`: a single-quoted non-empty text, or a
/// decimal number.
pub open spec fn spec_literal(q: Seq<u8>, i: int) -> Option<(SpecLiteral, int)> {
    if 0 <= i < q.len() && q[i] == 39 {
        let j = spec_scan_end(q, i + 1, Charset::SingleQuoted);
        if j == i + 1 {
            None
        } else if !(j < q.len() && q[j] == 39) {
            None
        } else {
            Some((SpecLiteral::Text(q.subrange(i + 1, j)), j + 1))
        }
    } else {
        match spec_number(q, i) {
            None => None,
            Some((neg, m, sc, end)) => Some(
                (SpecLiteral::Num { neg, mantissa: m, scale: sc }, end),
            ),
        }
    }
}

impl Select {
    /// Parses a `SELECT` statement.
    pub fn parse_select(query: &[u8]) -> (r: Result<Select, DbError>)
        ensures
            match r {
                Ok(sel) => spec_parse_select(query@) == Ok::<SpecSelect, DbError>(sel.deep_view())
                    && select_wf(sel.deep_view()),
                Err(e) => spec_parse_select(query@) == Err::<SpecSelect, DbError>(e),
            },
    {
        let q = query;
        let qlen: usize = q.len();
        if !tag_nc(q, 0, &kw_select_v()) {
            return Err(DbError::SqlSyntax);
        }
        let i1 = skip_ws(q, 6);
        let (cols, i2) = match sel_cols(q, i1) {
            None => {
                return Err(DbError::SqlSyntax);
            },
            Some(p) => p,
        };
        if !tag_nc(q, i2, &kw_from_v()) {
            return Err(DbError::SqlSyntax);
        }
        proof {
            assert(kw_from().len() == 4);
        }
        let i3 = skip_ws(q, i2 + 4);
        let (table, j) = match ident(q, i3, Charset::SelName) {
            None => {
                return Err(DbError::SqlSyntax);
            },
            Some(p) => p,
        };
        let i4 = skip_ws(q, j);
        if tag_nc(q, i4, &kw_where_v()) {
            proof {
                assert(kw_where().len() == 5);
            }
            let i5 = skip_ws(q, i4 + 5);
            let (col, j2) = match ident(q, i5, Charset::FilterName) {
                None => {
                    return Err(DbError::SqlSyntax);
                },
                Some(p) => p,
            };
            let i6 = skip_ws(q, j2);
            if !(i6 < q.len() && q[i6] == 61) {
                return Err(DbError::SqlSyntax);
            }
            let i7 = skip_ws(q, i6 + 1);
            let lit = match literal(q, i7) {
                None => {
                    return Err(DbError::SqlSyntax);
                },
                Some((l, _)) => l,
            };
            Ok(Select { columns: cols, table, filter: Some((col, lit)) })
        } else {
            Ok(Select { columns: cols, table, filter: None })
        }
    }
}

fn literal(q: &[u8], i: usize) -> (r: Option<(Literal, usize)>)
    requires
        i <= q@.len(),
    ensures
        match r {
            None => spec_literal(q@, i as int) is None,
            Some((l, end)) => {
                &&& spec_literal(q@, i as int) == Some((l@, end as int))
                &&& end <= q@.len()
                &&& crate::numeric::literal_wf(l@)
            },
        },
{
    if i < q.len() && q[i] == 39 {
        let j = scan_end(q, i + 1, Charset::SingleQuoted);
        if j == i + 1 {
            return None;
        }
        if !(j < q.len() && q[j] == 39) {
            return None;
        }
        let text = crate::record::copy_range(q, i + 1, j - (i + 1));
        proof {
            assert(text@ =~= q@.subrange(i + 1, j as int));
        }
        Some((Literal::Text(text), j + 1))
    } else {
        match number(q, i) {
            None => None,
            Some((neg, m, sc, end)) => Some((Literal::Num { neg, mantissa: m, scale: sc }, end)),
        }
    }
}

fn sel_item(q: &[u8], i: usize) -> (r: Option<(Vec<u8>, usize)>)
    requires
        i <= q@.len(),
    ensures
        match r {
            None => spec_sel_item(q@, i as int) is None,
            Some((nm, j)) => {
                &&& spec_sel_item(q@, i as int) == Some((nm@, j as int))
                &&& i < j <= q@.len()
            },
        },
{
    let i0 = skip_ws(q, i);
    match ident(q, i0, Charset::SelName) {
        None => None,
        Some((nm, j)) => Some((nm, skip_ws(q, j))),
    }
}

fn sel_cols(q: &[u8], i: usize) -> (r: Option<(Vec<Vec<u8>>, usize)>)
    requires
        i <= q@.len(),
    ensures
        match r {
            None => spec_sel_cols(q@, i as int) is None,
            Some((cols, end)) => {
                &&& spec_sel_cols(q@, i as int) == Some((cols.deep_view(), end as int))
                &&& end <= q@.len()
            },
        },
{
    let (first, mut p) = match sel_item(q, i) {
        None => {
            return None;
        },
        Some(x) => x,
    };
    let mut cols: Vec<Vec<u8>> = Vec::new();
    let ghost first_view = first@;
    cols.push(first);
    proof {
        assert(cols.deep_view() =~~= seq![first_view]);
    }
    loop
        invariant
            p <= q@.len(),
            cols.len() >= 1,
            spec_sel_cols(q@, i as int) == (match spec_sel_cols_rest(q@, p as int) {
                None => None::<(Seq<Seq<u8>>, int)>,
                Some((rest, end)) => Some((cols.deep_view().add(rest), end)),
            }),
        decreases q@.len() - p,
    {
        if !(p < q.len() && q[p] == 44) {
            proof {
                assert(cols.deep_view().add(Seq::<Seq<u8>>::empty()) =~= cols.deep_view());
            }
            return Some((cols, p));
        }
        match sel_item(q, p + 1) {
            None => {
                return None;
            },
            Some((nm, j)) => {
                let ghost old_cols = cols.deep_view();
                let ghost nm_view = nm@;
                cols.push(nm);
                proof {
                    assert(cols.deep_view() =~~= old_cols.push(nm_view));
                    if spec_sel_cols_rest(q@, j as int) is Some {
                        let (rest, end) = spec_sel_cols_rest(q@, j as int).unwrap();
                        assert(old_cols.add(seq![nm_view].add(rest)) =~= cols.deep_view().add(
                            rest,
                        ));
                    }
                }
                p = j;
            },
        }
    }
}

/// One column definition: a (possibly double-quoted) name, then optional
/// data type, `NOT NULL`, and `PRIMARY KEY [ AUTOINCREMENT]` parts, each
/// preceded by whitespace.  A word after the name is read as the data
/// type even when it is one of the other parts' keywords.
pub open spec fn spec_tbl_col(s: Seq<u8>, i: int) -> Option<(SpecColumn, int)> {
    let name_parse = if 0 <= i < s.len() && s[i] == 34 {
        let j = spec_scan_end(s, i + 1, Charset::Quoted);
        if j == i + 1 {
            None
        } else if !(j < s.len() && s[j] == 34) {
            None
        } else {
            Some((s.subrange(i + 1, j), j + 1))
        }
    } else {
        spec_ident(s, i, Charset::ColName)
    };
    match name_parse {
        None => None,
        Some((nm, p)) => {
            let pt = spec_skip_ws(s, p);
            let ty_parse = if pt > p {
                spec_ident(s, pt, Charset::TypeName)
            } else {
                None
            };
            let ty = match ty_parse {
                Some((t, _)) => Some(t),
                None => None,
            };
            let p2 = match ty_parse {
                Some((_, pe)) => pe,
                None => p,
            };
            let pn = spec_skip_ws(s, p2);
            let p3 = if pn > p2 && spec_tag_nc(s, pn, kw_not_null()) {
                pn + 8
            } else {
                p2
            };
            let pp = spec_skip_ws(s, p3);
            if pp > p3 && spec_tag_nc(s, pp, kw_primary_key()) {
                let pa = pp + 11;
                if spec_tag(s, pa, kw_sp_autoincrement()) {
                    Some((SpecColumn { name: nm, data_type: ty, is_primary_key: true }, pa + 14))
                } else {
                    Some((SpecColumn { name: nm, data_type: ty, is_primary_key: true }, pa))
                }
            } else {
                Some((SpecColumn { name: nm, data_type: ty, is_primary_key: false }, p3))
            }
        },
    }
}

/// The column definitions after the first: optional whitespace, a comma,
/// optional whitespace, another definition, as long as a comma follows.
pub open spec fn spec_tbl_cols_rest(s: Seq<u8>, i: int) -> Option<(Seq<SpecColumn>, int)>
    decreases s.len() - i,
{
    let j0 = spec_skip_ws(s, i);
    if !(0 <= i && i <= j0 && j0 < s.len() && s[j0] == 44) {
        Some((Seq::empty(), i))
    } else {
        let i2 = spec_skip_ws(s, j0 + 1);
        if !(j0 + 1 <= i2 <= s.len()) {
            None
        } else {
            match spec_tbl_col(s, i2) {
                None => None,
                Some((c, j)) => if j <= i || j > s.len() {
                    None
                } else {
                    match spec_tbl_cols_rest(s, j) {
                        None => None,
                        Some((rest, end)) => Some((seq![c].add(rest), end)),
                    }
                },
            }
        }
    }
}

/// The comma-separated column definitions.
pub open spec fn spec_tbl_cols(s: Seq<u8>, i: int) -> Option<(Seq<SpecColumn>, int)> {
    match spec_tbl_col(s, i) {
        None => None,
        Some((c, j)) => match spec_tbl_cols_rest(s, j) {
            None => None,
            Some((rest, end)) => Some((seq![c].add(rest), end)),
        },
    }
}

/// The parse of a `CREATE TABLE` statement.
pub open spec fn spec_parse_create_table(q: Seq<u8>) -> Result<SpecCreateStatement, DbError> {
    if !spec_tag_nc(q, 0, kw_create_table_sp()) {
        Err(DbError::SqlSyntax)
    } else {
        match spec_ident(q, 13, Charset::CreateName) {
            None => Err(DbError::SqlSyntax),
            Some((name, j)) => {
                let i2 = spec_skip_ws(q, j);
                if !(i2 < q.len() && q[i2] == 40) {
                    Err(DbError::SqlSyntax)
                } else {
                    let i3 = spec_skip_ws(q, i2 + 1);
                    match spec_tbl_cols(q, i3) {
                        None => Err(DbError::SqlSyntax),
                        Some((cols, i4)) => {
                            let i5 = spec_skip_ws(q, i4);
                            if !(i5 < q.len() && q[i5] == 41) {
                                Err(DbError::SqlSyntax)
                            } else {
                                Ok(SpecCreateStatement::CreateTable { name, columns: cols })
                            }
                        },
                    }
                }
            },
        }
    }
}

/// The indexed column names after the first: optional whitespace, a
/// comma, optional whitespace, another name, as long as a comma follows.
pub open spec fn spec_idx_cols_rest(s: Seq<u8>, i: int) -> Option<(Seq<Seq<u8>>, int)>
    decreases s.len() - i,
{
    let j0 = spec_skip_ws(s, i);
    if !(0 <= i && i <= j0 && j0 < s.len() && s[j0] == 44) {
        Some((Seq::empty(), i))
    } else {
        let i2 = spec_skip_ws(s, j0 + 1);
        if !(j0 + 1 <= i2 <= s.len()) {
            None
        } else {
            match spec_ident(s, i2, Charset::CreateName) {
                None => None,
                Some((nm, j)) => if j <= i || j > s.len() {
                    None
                } else {
                    match spec_idx_cols_rest(s, j) {
                        None => None,
                        Some((rest, end)) => Some((seq![nm].add(rest), end)),
                    }
                },
            }
        }
    }
}

/// The comma-separated indexed column names.
pub open spec fn spec_idx_cols(s: Seq<u8>, i: int) -> Option<(Seq<Seq<u8>>, int)> {
    match spec_ident(s, i, Charset::CreateName) {
        None => None,
        Some((nm, j)) => match spec_idx_cols_rest(s, j) {
            None => None,
            Some((rest, end)) => Some((seq![nm].add(rest), end)),
        },
    }
}

/// The parse of a `CREATE INDEX` statement.  The closing parenthesis must
/// directly follow the last indexed column.
pub open spec fn spec_parse_create_index(q: Seq<u8>) -> Result<SpecCreateStatement, DbError> {
    if !spec_tag_nc(q, 0, kw_create_index_sp()) {
        Err(DbError::SqlSyntax)
    } else {
        match spec_ident(q, 13, Charset::CreateName) {
            None => Err(DbError::SqlSyntax),
            Some((name, j1)) => {
                let i1 = spec_skip_ws(q, j1);
                if !spec_tag_nc(q, i1, kw_on_sp()) {
                    Err(DbError::SqlSyntax)
                } else {
                    match spec_ident(q, i1 + 3, Charset::CreateName) {
                        None => Err(DbError::SqlSyntax),
                        Some((table, j2)) => {
                            let i2 = spec_skip_ws(q, j2);
                            if !(i2 < q.len() && q[i2] == 40) {
                                Err(DbError::SqlSyntax)
                            } else {
                                let i3 = spec_skip_ws(q, i2 + 1);
                                match spec_idx_cols(q, i3) {
                                    None => Err(DbError::SqlSyntax),
                                    Some((cols, i4)) => if !(i4 < q.len() && q[i4] == 41) {
                                        Err(DbError::SqlSyntax)
                                    } else {
                                        Ok(
                                            SpecCreateStatement::CreateIndex {
                                                name,
                                                table,
                                                columns: cols,
                                            },
                                        )
                                    },
                                }
                            }
                        },
                    }
                }
            },
        }
    }
}

/// The parse of a create statement: a `CREATE TABLE` when the text opens
/// with those two words, otherwise a `CREATE INDEX`.
pub open spec fn spec_create_statement(q: Seq<u8>) -> Result<SpecCreateStatement, DbError> {
    if spec_tag_nc(q, 0, kw_create_table()) {
        spec_parse_create_table(q)
    } else {
        spec_parse_create_index(q)
    }
}

impl CreateStatement {
    /// Parses a create statement.
    pub fn parse(query: &[u8]) -> (r: Result<CreateStatement, DbError>)
        ensures
            match r {
                Ok(c) => spec_create_statement(query@) == Ok::<SpecCreateStatement, DbError>(
                    c.deep_view(),
                ),
                Err(e) => spec_create_statement(query@) == Err::<SpecCreateStatement, DbError>(e),
            },
    {
        if tag_nc(query, 0, &kw_create_table_v()) {
            Self::parse_create_table(query)
        } else {
            Self::parse_create_index(query)
        }
    }

    /// Parses a `CREATE TABLE` statement.
    pub fn parse_create_table(query: &[u8]) -> (r: Result<CreateStatement, DbError>)
        ensures
            match r {
                Ok(c) => spec_parse_create_table(query@) == Ok::<SpecCreateStatement, DbError>(
                    c.deep_view(),
                ),
                Err(e) => spec_parse_create_table(query@) == Err::<SpecCreateStatement, DbError>(
                    e,
                ),
            },
    {
        let q = query;
        let qlen: usize = q.len();
        if !tag_nc(q, 0, &kw_create_table_sp_v()) {
            return Err(DbError::SqlSyntax);
        }
        proof {
            assert(kw_create_table_sp().len() == 13);
        }
        let (name, j) = match ident(q, 13, Charset::CreateName) {
            None => {
                return Err(DbError::SqlSyntax);
            },
            Some(p) => p,
        };
        let i2 = skip_ws(q, j);
        if !(i2 < qlen && q[i2] == 40) {
            return Err(DbError::SqlSyntax);
        }
        let i3 = skip_ws(q, i2 + 1);
        let (cols, i4) = match tbl_cols(q, i3) {
            None => {
                return Err(DbError::SqlSyntax);
            },
            Some(p) => p,
        };
        let i5 = skip_ws(q, i4);
        if !(i5 < qlen && q[i5] == 41) {
            return Err(DbError::SqlSyntax);
        }
        Ok(CreateStatement::CreateTable { name, columns: cols })
    }

    /// Parses a `CREATE INDEX` statement.
    pub fn parse_create_index(query: &[u8]) -> (r: Result<CreateStatement, DbError>)
        ensures
            match r {
                Ok(c) => spec_parse_create_index(query@) == Ok::<SpecCreateStatement, DbError>(
                    c.deep_view(),
                ),
                Err(e) => spec_parse_create_index(query@) == Err::<SpecCreateStatement, DbError>(
                    e,
                ),
            },
    {
        let q = query;
        let qlen: usize = q.len();
        if !tag_nc(q, 0, &kw_create_index_sp_v()) {
            return Err(DbError::SqlSyntax);
        }
        proof {
            assert(kw_create_index_sp().len() == 13);
        }
        let (name, j1) = match ident(q, 13, Charset::CreateName) {
            None => {
                return Err(DbError::SqlSyntax);
            },
            Some(p) => p,
        };
        let i1 = skip_ws(q, j1);
        if !tag_nc(q, i1, &kw_on_sp_v()) {
            return Err(DbError::SqlSyntax);
        }
        proof {
            assert(kw_on_sp().len() == 3);
        }
        let (table, j2) = match ident(q, i1 + 3, Charset::CreateName) {
            None => {
                return Err(DbError::SqlSyntax);
            },
            Some(p) => p,
        };
        let i2 = skip_ws(q, j2);
        if !(i2 < qlen && q[i2] == 40) {
            return Err(DbError::SqlSyntax);
        }
        let i3 = skip_ws(q, i2 + 1);
        let (cols, i4) = match idx_cols(q, i3) {
            None => {
                return Err(DbError::SqlSyntax);
            },
            Some(p) => p,
        };
        if !(i4 < qlen && q[i4] == 41) {
            return Err(DbError::SqlSyntax);
        }
        Ok(CreateStatement::CreateIndex { name, table, columns: cols })
    }
}

fn tbl_col(q: &[u8], i: usize) -> (r: Option<(Column, usize)>)
    requires
        i <= q@.len(),
    ensures
        match r {
            None => spec_tbl_col(q@, i as int) is None,
            Some((c, j)) => {
                &&& spec_tbl_col(q@, i as int) == Some((c.deep_view(), j as int))
                &&& i < j <= q@.len()
            },
        },
{
    let qlen: usize = q.len();
    let (name, p) = if i < qlen && q[i] == 34 {
        let j = scan_end(q, i + 1, Charset::Quoted);
        if j == i + 1 {
            return None;
        }
        if !(j < qlen && q[j] == 34) {
            return None;
        }
        let nm = crate::record::copy_range(q, i + 1, j - (i + 1));
        proof {
            assert(nm@ =~= q@.subrange(i + 1, j as int));
        }
        (nm, j + 1)
    } else {
        match ident(q, i, Charset::ColName) {
            None => {
                return None;
            },
            Some(p) => p,
        }
    };
    let pt = skip_ws(q, p);
    let (ty, p2): (Option<Vec<u8>>, usize) = if pt > p {
        match ident(q, pt, Charset::TypeName) {
            Some((t, pe)) => (Some(t), pe),
            None => (None, p),
        }
    } else {
        (None, p)
    };
    let pn = skip_ws(q, p2);
    let p3: usize = if pn > p2 && tag_nc(q, pn, &kw_not_null_v()) {
        proof {
            assert(kw_not_null().len() == 8);
        }
        pn + 8
    } else {
        p2
    };
    let pp = skip_ws(q, p3);
    if pp > p3 && tag_nc(q, pp, &kw_primary_key_v()) {
        proof {
            assert(kw_primary_key().len() == 11);
        }
        let pa = pp + 11;
        if tag(q, pa, &kw_sp_autoincrement_v()) {
            proof {
                assert(kw_sp_autoincrement().len() == 14);
            }
            Some((Column { name, data_type: ty, is_primary_key: true }, pa + 14))
        } else {
            Some((Column { name, data_type: ty, is_primary_key: true }, pa))
        }
    } else {
        Some((Column { name, data_type: ty, is_primary_key: false }, p3))
    }
}

fn tbl_cols(q: &[u8], i: usize) -> (r: Option<(Vec<Column>, usize)>)
    requires
        i <= q@.len(),
    ensures
        match r {
            None => spec_tbl_cols(q@, i as int) is None,
            Some((cols, end)) => {
                &&& spec_tbl_cols(q@, i as int) == Some((cols.deep_view(), end as int))
                &&& end <= q@.len()
            },
        },
{
    let qlen: usize = q.len();
    let (first, mut p) = match tbl_col(q, i) {
        None => {
            return None;
        },
        Some(x) => x,
    };
    let mut cols: Vec<Column> = Vec::new();
    let ghost first_view = first.deep_view();
    cols.push(first);
    proof {
        assert(cols.deep_view() =~~= seq![first_view]);
    }
    loop
        invariant
            p <= qlen,
            qlen == q@.len(),
            spec_tbl_cols(q@, i as int) == (match spec_tbl_cols_rest(q@, p as int) {
                None => None::<(Seq<SpecColumn>, int)>,
                Some((rest, end)) => Some((cols.deep_view().add(rest), end)),
            }),
        decreases q@.len() - p,
    {
        let j0 = skip_ws(q, p);
        if !(j0 < qlen && q[j0] == 44) {
            proof {
                assert(cols.deep_view().add(Seq::<SpecColumn>::empty()) =~= cols.deep_view());
            }
            return Some((cols, p));
        }
        let i2 = skip_ws(q, j0 + 1);
        match tbl_col(q, i2) {
            None => {
                return None;
            },
            Some((c, j)) => {
                let ghost old_cols = cols.deep_view();
                let ghost c_view = c.deep_view();
                cols.push(c);
                proof {
                    assert(cols.deep_view() =~~= old_cols.push(c_view));
                    if spec_tbl_cols_rest(q@, j as int) is Some {
                        let (rest, end) = spec_tbl_cols_rest(q@, j as int).unwrap();
                        assert(old_cols.add(seq![c_view].add(rest)) =~= cols.deep_view().add(
                            rest,
                        ));
                    }
                }
                p = j;
            },
        }
    }
}

fn idx_cols(q: &[u8], i: usize) -> (r: Option<(Vec<Vec<u8>>, usize)>)
    requires
        i <= q@.len(),
    ensures
        match r {
            None => spec_idx_cols(q@, i as int) is None,
            Some((cols, end)) => {
                &&& spec_idx_cols(q@, i as int) == Some((cols.deep_view(), end as int))
                &&& end <= q@.len()
            },
        },
{
    let qlen: usize = q.len();
    let (first, mut p) = match ident(q, i, Charset::CreateName) {
        None => {
            return None;
        },
        Some(x) => x,
    };
    let mut cols: Vec<Vec<u8>> = Vec::new();
    let ghost first_view = first@;
    cols.push(first);
    proof {
        assert(cols.deep_view() =~~= seq![first_view]);
    }
    loop
        invariant
            p <= qlen,
            qlen == q@.len(),
            spec_idx_cols(q@, i as int) == (match spec_idx_cols_rest(q@, p as int) {
                None => None::<(Seq<Seq<u8>>, int)>,
                Some((rest, end)) => Some((cols.deep_view().add(rest), end)),
            }),
        decreases q@.len() - p,
    {
        let j0 = skip_ws(q, p);
        if !(j0 < qlen && q[j0] == 44) {
            proof {
                assert(cols.deep_view().add(Seq::<Seq<u8>>::empty()) =~= cols.deep_view());
            }
            return Some((cols, p));
        }
        let i2 = skip_ws(q, j0 + 1);
        match ident(q, i2, Charset::CreateName) {
            None => {
                return None;
            },
            Some((nm, j)) => {
                let ghost old_cols = cols.deep_view();
                let ghost nm_view = nm@;
                cols.push(nm);
                proof {
                    assert(cols.deep_view() =~~= old_cols.push(nm_view));
                    if spec_idx_cols_rest(q@, j as int) is Some {
                        let (rest, end) = spec_idx_cols_rest(q@, j as int).unwrap();
                        assert(old_cols.add(seq![nm_view].add(rest)) =~= cols.deep_view().add(
                            rest,
                        ));
                    }
                }
                p = j;
            },
        }
    }
}

} // verus!
