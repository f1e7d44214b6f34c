//! The record (row payload) decoder.
//!
//! A record is a header-size varint, one serial-type varint per column, and
//! then each column's bytes.  A serial type fixes both the kind of the
//! column value and the number of bytes it occupies.

use vstd::prelude::*;

use crate::error::DbError;
use crate::varint::{parse_varint, spec_varint};

verus! {

/// One decoded column value.
///
/// Integers keep the stored width in their variant.  A stored eight-byte
/// float is kept as its raw IEEE 754 bit pattern; callers that need the
/// number interpret the bits.  Text and blob columns keep their raw bytes.
#[derive(Clone, Debug)]
pub enum Value {
    Null,
    I8(i8),
    I16(i16),
    I24(i32),
    I32(i32),
    I48(i64),
    I64(i64),
    F(u64),
    Blob(Vec<u8>),
    Text(Vec<u8>),
}

/// The mathematical reading of a [`Value`]: the same variants with byte
/// vectors abstracted to byte sequences.
pub enum SpecValue {
    Null,
    I8(i8),
    I16(i16),
    I24(i32),
    I32(i32),
    I48(i64),
    I64(i64),
    F(u64),
    Blob(Seq<u8>),
    Text(Seq<u8>),
}

impl View for Value {
    type V = SpecValue;

    open spec fn view(&self) -> SpecValue {
        match self {
            Value::Null => SpecValue::Null,
            Value::I8(n) => SpecValue::I8(*n),
            Value::I16(n) => SpecValue::I16(*n),
            Value::I24(n) => SpecValue::I24(*n),
            Value::I32(n) => SpecValue::I32(*n),
            Value::I48(n) => SpecValue::I48(*n),
            Value::I64(n) => SpecValue::I64(*n),
            Value::F(bits) => SpecValue::F(*bits),
            Value::Blob(b) => SpecValue::Blob(b@),
            Value::Text(b) => SpecValue::Text(b@),
        }
    }
}

impl DeepView for Value {
    type V = SpecValue;

    open spec fn deep_view(&self) -> SpecValue {
        self.view()
    }
}

impl SpecValue {
    /// The value as a plain integer, for the integer variants.
    pub open spec fn integer(self) -> Option<i64> {
        match self {
            SpecValue::I8(n) => Some(n as i64),
            SpecValue::I16(n) => Some(n as i64),
            SpecValue::I24(n) => Some(n as i64),
            SpecValue::I32(n) => Some(n as i64),
            SpecValue::I48(n) => Some(n),
            SpecValue::I64(n) => Some(n),
            _ => None,
        }
    }

    /// The value as a rowid: a non-negative stored integer.
    pub open spec fn rowid(self) -> Option<u64> {
        match self.integer() {
            Some(n) => if n >= 0 {
                Some(n as u64)
            } else {
                None
            },
            None => None,
        }
    }
}

impl Value {
    /// Returns the value as a plain integer when it is stored as one.
    pub fn integer_value(&self) -> (r: Option<i64>)
        ensures
            r == self@.integer(),
    {
        match self {
            Value::I8(n) => Some(*n as i64),
            Value::I16(n) => Some(*n as i64),
            Value::I24(n) => Some(*n as i64),
            Value::I32(n) => Some(*n as i64),
            Value::I48(n) => Some(*n),
            Value::I64(n) => Some(*n),
            _ => None,
        }
    }

    /// Returns the value as a rowid.  Values that are not non-negative
    /// stored integers have no rowid reading.
    pub fn rowid_value(&self) -> (r: Option<u64>)
        ensures
            r == self@.rowid(),
    {
        match self.integer_value() {
            Some(n) => if n >= 0 {
                Some(n as u64)
            } else {
                None
            },
            None => None,
        }
    }
}

/// Copies a value.
pub fn clone_value(v: &Value) -> (r: Value)
    ensures
        r@ == v@,
{
    match v {
        Value::Null => Value::Null,
        Value::I8(n) => Value::I8(*n),
        Value::I16(n) => Value::I16(*n),
        Value::I24(n) => Value::I24(*n),
        Value::I32(n) => Value::I32(*n),
        Value::I48(n) => Value::I48(*n),
        Value::I64(n) => Value::I64(*n),
        Value::F(bits) => Value::F(*bits),
        Value::Blob(b) => {
            let c = copy_range(b.as_slice(), 0, b.len());
            proof {
                assert(c@ =~= b@);
            }
            Value::Blob(c)
        },
        Value::Text(b) => {
            let c = copy_range(b.as_slice(), 0, b.len());
            proof {
                assert(c@ =~= b@);
            }
            Value::Text(c)
        },
    }
}

/// Copies a row of values.
pub fn clone_row(row: &Vec<Value>) -> (r: Vec<Value>)
    ensures
        r.deep_view() == row.deep_view(),
{
    let mut out: Vec<Value> = Vec::new();
    let mut i: usize = 0;
    while i < row.len()
        invariant
            i <= row@.len(),
            out@.len() == i,
            forall|k: int| 0 <= k < i ==> out@[k]@ == row@[k]@,
        decreases row@.len() - i,
    {
        out.push(clone_value(&row[i]));
        i = i + 1;
    }
    proof {
        assert(out.deep_view() =~~= row.deep_view());
    }
    out
}

/// `256^e`, the weight of the `e`-th byte of a big-endian integer.
pub open spec fn pow256(e: nat) -> nat
    decreases e,
{
    if e == 0 {
        1
    } else {
        256 * pow256((e - 1) as nat)
    }
}

/// The big-endian unsigned integer stored in `w` bytes at `pos`.
pub open spec fn spec_be_uint(s: Seq<u8>, pos: int, w: nat) -> nat
    decreases w,
{
    if w == 0 {
        0
    } else {
        (spec_be_uint(s, pos, (w - 1) as nat) * 256 + s[pos + w - 1]) as nat
    }
}

/// How many payload bytes serial type `t` occupies, or `None` for the two
/// reserved serial types.
pub open spec fn spec_serial_width(t: u64) -> Option<nat> {
    if t == 0 {
        Some(0nat)
    } else if t == 1 {
        Some(1nat)
    } else if t == 2 {
        Some(2nat)
    } else if t == 3 {
        Some(3nat)
    } else if t == 4 {
        Some(4nat)
    } else if t == 5 {
        Some(6nat)
    } else if t == 6 {
        Some(8nat)
    } else if t == 7 {
        Some(8nat)
    } else if t == 8 {
        Some(0nat)
    } else if t == 9 {
        Some(0nat)
    } else if t >= 12 {
        Some(((t - 12) / 2) as nat)
    } else {
        None
    }
}

/// The column value of serial type `t` stored at `pos`, or `None` when the
/// serial type is reserved or the bytes run out.
pub open spec fn spec_column_value(s: Seq<u8>, pos: int, t: u64) -> Option<SpecValue> {
    match spec_serial_width(t) {
        None => None,
        Some(w) => if pos + w > s.len() {
            None
        } else if t == 0 {
            Some(SpecValue::Null)
        } else if t == 1 {
            Some(SpecValue::I8(s[pos] as i8))
        } else if t == 2 {
            Some(SpecValue::I16((spec_be_uint(s, pos, 2) as u16) as i16))
        } else if t == 3 {
            let raw = spec_be_uint(s, pos, 3);
            Some(
                SpecValue::I24(
                    if raw >= 0x80_0000 {
                        (raw - 0x100_0000) as i32
                    } else {
                        raw as i32
                    },
                ),
            )
        } else if t == 4 {
            Some(SpecValue::I32((spec_be_uint(s, pos, 4) as u32) as i32))
        } else if t == 5 {
            let raw = spec_be_uint(s, pos, 6);
            Some(
                SpecValue::I48(
                    if raw >= 0x8000_0000_0000 {
                        (raw - 0x1_0000_0000_0000) as i64
                    } else {
                        raw as i64
                    },
                ),
            )
        } else if t == 6 {
            Some(SpecValue::I64((spec_be_uint(s, pos, 8) as u64) as i64))
        } else if t == 7 {
            Some(SpecValue::F(spec_be_uint(s, pos, 8) as u64))
        } else if t == 8 {
            Some(SpecValue::I8(0))
        } else if t == 9 {
            Some(SpecValue::I8(1))
        } else if t % 2 == 0 {
            Some(SpecValue::Blob(Seq::new(w, |i: int| s[pos + i])))
        } else {
            Some(SpecValue::Text(Seq::new(w, |i: int| s[pos + i])))
        },
    }
}

/// The `n` serial-type varints that start at `pos`, and the position one
/// past them.
pub open spec fn spec_serial_types(s: Seq<u8>, pos: int, n: nat) -> Option<(Seq<u64>, int)>
    decreases n,
{
    if n == 0 {
        Some((Seq::empty(), pos))
    } else {
        match spec_varint(s, pos) {
            None => None,
            Some((t, p2)) => match spec_serial_types(s, p2, (n - 1) as nat) {
                None => None,
                Some((rest, end)) => Some((seq![t].add(rest), end)),
            },
        }
    }
}

/// The column values of the given serial types, read from `pos`, and the
/// position one past their bytes.
pub open spec fn spec_columns(s: Seq<u8>, pos: int, types: Seq<u64>) -> Option<
    (Seq<SpecValue>, int),
>
    decreases types.len(),
{
    if types.len() == 0 {
        Some((Seq::empty(), pos))
    } else {
        match spec_column_value(s, pos, types[0]) {
            None => None,
            Some(v) => {
                let w = spec_serial_width(types[0]).unwrap();
                match spec_columns(s, pos + w, types.drop_first()) {
                    None => None,
                    Some((rest, end)) => Some((seq![v].add(rest), end)),
                }
            },
        }
    }
}

/// A whole record of `n` columns: header-size varint, `n` serial types,
/// then the column bytes.
pub open spec fn spec_parse_record(s: Seq<u8>, n: nat) -> Option<Seq<SpecValue>> {
    match spec_varint(s, 0) {
        None => None,
        Some((_, hpos)) => match spec_serial_types(s, hpos, n) {
            None => None,
            Some((types, tpos)) => match spec_columns(s, tpos, types) {
                None => None,
                Some((vals, _)) => Some(vals),
            },
        },
    }
}

/// Parses a record payload of `column_count` columns.
///
/// Reads and discards the header-size varint, reads one serial-type varint
/// per column, then decodes each column at its type's width.  Fails exactly
/// when the bytes run out or a reserved serial type appears.
pub fn parse_record(stream: &[u8], column_count: usize) -> (r: Result<Vec<Value>, DbError>)
    ensures
        match r {
            Ok(vals) => spec_parse_record(stream@, column_count as nat) == Some(vals.deep_view()),
            Err(e) => e == DbError::Malformed && spec_parse_record(
                stream@,
                column_count as nat,
            ) is None,
        },
{
    let (_, used) = match parse_varint(stream, 0) {
        None => {
            return Err(DbError::Malformed);
        },
        Some(p) => p,
    };
    let hpos: usize = used;
    let (types, tpos) = match parse_serial_types(stream, hpos, column_count) {
        None => {
            return Err(DbError::Malformed);
        },
        Some(p) => p,
    };
    let slen: usize = stream.len();
    let mut vals: Vec<Value> = Vec::new();
    let mut p: usize = tpos;
    let mut i: usize = 0;
    let ghost types_all = types.deep_view();
    proof {
        assert(types_all.skip(0) =~= types_all);
    }
    while i < types.len()
        invariant
            i <= types.len(),
            types_all == types.deep_view(),
            types.len() == column_count,
            vals.len() == i,
            slen == stream@.len(),
            p <= slen,
            spec_parse_record(stream@, column_count as nat) == (match spec_columns(
                stream@,
                tpos as int,
                types_all,
            ) {
                None => None::<Seq<SpecValue>>,
                Some((vs, _)) => Some(vs),
            }),
            spec_columns(stream@, tpos as int, types_all) == (match spec_columns(
                stream@,
                p as int,
                types_all.skip(i as int),
            ) {
                None => None::<(Seq<SpecValue>, int)>,
                Some((rest, end)) => Some((vals.deep_view().add(rest), end)),
            }),
        decreases types.len() - i,
    {
        let t = types[i];
        proof {
            assert(types_all.skip(i as int)[0] == types_all[i as int]);
            assert(types_all.skip(i as int).drop_first() =~= types_all.skip(i + 1));
        }
        let w64 = match serial_width(t) {
            None => {
                proof {
                    assert(spec_columns(stream@, p as int, types_all.skip(i as int)) is None);
                }
                return Err(DbError::Malformed);
            },
            Some(w) => w,
        };
        if w64 > (slen - p) as u64 {
            proof {
                assert(spec_column_value(stream@, p as int, t) is None);
                assert(spec_columns(stream@, p as int, types_all.skip(i as int)) is None);
            }
            return Err(DbError::Malformed);
        }
        let w: usize = w64 as usize;
        let v = decode_column(stream, p, t, w);
        let ghost old_vals = vals.deep_view();
        vals.push(v);
        proof {
            assert(vals.deep_view() =~= old_vals.push(v.deep_view()));
            if spec_columns(stream@, p + w, types_all.skip(i + 1)) is Some {
                let (rest, end) = spec_columns(stream@, p + w, types_all.skip(i + 1)).unwrap();
                assert(old_vals.add(seq![v.deep_view()].add(rest)) =~= vals.deep_view().add(
                    rest,
                ));
            }
        }
        p = p + w;
        i = i + 1;
    }
    proof {
        assert(types_all.skip(types_all.len() as int) =~= Seq::<u64>::empty());
        assert(vals.deep_view().add(Seq::<SpecValue>::empty()) =~= vals.deep_view());
    }
    Ok(vals)
}

/// Returns the payload width of serial type `t`.
pub fn serial_width(t: u64) -> (r: Option<u64>)
    ensures
        match r {
            None => spec_serial_width(t) is None,
            Some(w) => spec_serial_width(t) == Some(w as nat),
        },
{
    if t == 0 {
        Some(0)
    } else if t == 1 {
        Some(1)
    } else if t == 2 {
        Some(2)
    } else if t == 3 {
        Some(3)
    } else if t == 4 {
        Some(4)
    } else if t == 5 {
        Some(6)
    } else if t == 6 {
        Some(8)
    } else if t == 7 {
        Some(8)
    } else if t == 8 {
        Some(0)
    } else if t == 9 {
        Some(0)
    } else if t >= 12 {
        Some((t - 12) / 2)
    } else {
        None
    }
}

fn parse_serial_types(s: &[u8], pos: usize, n: usize) -> (r: Option<(Vec<u64>, usize)>)
    requires
        pos <= s@.len(),
    ensures
        match r {
            None => spec_serial_types(s@, pos as int, n as nat) is None,
            Some((types, end)) => {
                &&& spec_serial_types(s@, pos as int, n as nat) == Some(
                    (types.deep_view(), end as int),
                )
                &&& types.len() == n
                &&& end <= s@.len()
            },
        },
{
    let slen: usize = s.len();
    let mut types: Vec<u64> = Vec::new();
    let mut p: usize = pos;
    let mut i: usize = 0;
    while i < n
        invariant
            i <= n,
            types.len() == i,
            slen == s@.len(),
            p <= slen,
            spec_serial_types(s@, pos as int, n as nat) == (match spec_serial_types(
                s@,
                p as int,
                (n - i) as nat,
            ) {
                None => None::<(Seq<u64>, int)>,
                Some((rest, end)) => Some((types.deep_view().add(rest), end)),
            }),
        decreases n - i,
    {
        match parse_varint(s, p) {
            None => {
                return None;
            },
            Some((t, used)) => {
                let ghost old_types = types.deep_view();
                types.push(t);
                proof {
                    assert(types.deep_view() =~= old_types.push(t));
                    if spec_serial_types(s@, (p + used) as int, (n - i - 1) as nat) is Some {
                        let (rest, end) = spec_serial_types(
                            s@,
                            (p + used) as int,
                            (n - i - 1) as nat,
                        ).unwrap();
                        assert(old_types.add(seq![t].add(rest)) =~= types.deep_view().add(rest));
                    }
                }
                p = p + used;
                i = i + 1;
            },
        }
    }
    proof {
        assert(types.deep_view().add(Seq::empty()) =~= types.deep_view());
    }
    Some((types, p))
}

fn decode_column(s: &[u8], pos: usize, t: u64, w: usize) -> (r: Value)
    requires
        spec_serial_width(t) == Some(w as nat),
        pos + w <= s@.len(),
    ensures
        spec_column_value(s@, pos as int, t) == Some(r@),
{
    proof {
        lemma_pow256_values();
        lemma_be_uint_bound(s@, pos as int, 2);
        lemma_be_uint_bound(s@, pos as int, 3);
        lemma_be_uint_bound(s@, pos as int, 4);
        lemma_be_uint_bound(s@, pos as int, 6);
        lemma_be_uint_bound(s@, pos as int, 8);
    }
    if t == 0 {
        Value::Null
    } else if t == 1 {
        Value::I8(s[pos] as i8)
    } else if t == 2 {
        let raw = read_be_uint(s, pos, 2);
        Value::I16((raw as u16) as i16)
    } else if t == 3 {
        let raw = read_be_uint(s, pos, 3);
        if raw >= 0x80_0000 {
            Value::I24(((raw as i64) - 0x100_0000) as i32)
        } else {
            Value::I24(raw as i32)
        }
    } else if t == 4 {
        let raw = read_be_uint(s, pos, 4);
        Value::I32((raw as u32) as i32)
    } else if t == 5 {
        let raw = read_be_uint(s, pos, 6);
        if raw >= 0x8000_0000_0000 {
            Value::I48((raw as i64) - 0x1_0000_0000_0000)
        } else {
            Value::I48(raw as i64)
        }
    } else if t == 6 {
        let raw = read_be_uint(s, pos, 8);
        Value::I64(raw as i64)
    } else if t == 7 {
        let raw = read_be_uint(s, pos, 8);
        Value::F(raw)
    } else if t == 8 {
        Value::I8(0)
    } else if t == 9 {
        Value::I8(1)
    } else {
        let bytes = copy_range(s, pos, w);
        if t % 2 == 0 {
            Value::Blob(bytes)
        } else {
            Value::Text(bytes)
        }
    }
}

/// Copies `s[pos..pos + w]` into an owned vector.
pub fn copy_range(s: &[u8], pos: usize, w: usize) -> (r: Vec<u8>)
    requires
        pos + w <= s@.len(),
    ensures
        r@ =~= Seq::new(w as nat, |i: int| s@[pos + i]),
{
    let slen: usize = s.len();
    let mut out: Vec<u8> = Vec::new();
    let mut i: usize = 0;
    while i < w
        invariant
            i <= w,
            slen == s@.len(),
            pos + w <= slen,
            out@.len() == i,
            forall|j: int| 0 <= j < i ==> out@[j] == s@[pos + j],
        decreases w - i,
    {
        out.push(s[pos + i]);
        i = i + 1;
    }
    out
}

fn read_be_uint(s: &[u8], pos: usize, w: usize) -> (r: u64)
    requires
        pos + w <= s@.len(),
        w <= 8,
    ensures
        r == spec_be_uint(s@, pos as int, w as nat),
{
    let slen: usize = s.len();
    let mut acc: u64 = 0;
    let mut i: usize = 0;
    while i < w
        invariant
            i <= w <= 8,
            slen == s@.len(),
            pos + w <= slen,
            acc == spec_be_uint(s@, pos as int, i as nat),
            acc < pow256(i as nat),
        decreases w - i,
    {
        proof {
            lemma_pow256_le_max((i + 1) as nat);
            assert(acc * 256 + s@[pos + i] < pow256((i + 1) as nat)) by (nonlinear_arith)
                requires
                    acc < pow256(i as nat),
                    s@[pos + i as int] < 256,
                    pow256((i + 1) as nat) == 256 * pow256(i as nat),
            ;
        }
        acc = acc * 256 + s[pos + i] as u64;
        i = i + 1;
    }
    acc
}

proof fn lemma_pow256_values()
    ensures
        pow256(2) == 0x1_0000,
        pow256(3) == 0x100_0000,
        pow256(4) == 0x1_0000_0000,
        pow256(6) == 0x1_0000_0000_0000,
        pow256(8) == 0x1_0000_0000_0000_0000,
{
    reveal_with_fuel(pow256, 9);
}

proof fn lemma_pow256_le_max(e: nat)
    requires
        e <= 8,
    ensures
        pow256(e) <= 0x1_0000_0000_0000_0000,
    decreases 8 - e,
{
    reveal_with_fuel(pow256, 9);
}

/// A big-endian integer of `w` bytes is below `256^w`.
proof fn lemma_be_uint_bound(s: Seq<u8>, pos: int, w: nat)
    ensures
        spec_be_uint(s, pos, w) < pow256(w),
    decreases w,
{
    if w == 0 {
    } else {
        lemma_be_uint_bound(s, pos, (w - 1) as nat);
        assert(spec_be_uint(s, pos, (w - 1) as nat) * 256 + 256 <= pow256(w)) by (nonlinear_arith)
            requires
                spec_be_uint(s, pos, (w - 1) as nat) < pow256((w - 1) as nat),
                pow256(w) == 256 * pow256((w - 1) as nat),
        ;
    }
}

/// The total width of a sequence of serial types, reserved types counting
/// zero.
pub open spec fn spec_width_sum(types: Seq<u64>) -> nat
    decreases types.len(),
{
    if types.len() == 0 {
        0
    } else {
        spec_serial_width(types[0]).unwrap_or(0) + spec_width_sum(types.drop_first())
    }
}

/// A parse that succeeds reads exactly `n` serial types.
pub proof fn lemma_serial_types_len(s: Seq<u8>, pos: int, n: nat)
    requires
        spec_serial_types(s, pos, n) is Some,
    ensures
        spec_serial_types(s, pos, n).unwrap().0.len() == n,
    decreases n,
{
    if n > 0 {
        let (t, p2) = spec_varint(s, pos).unwrap();
        lemma_serial_types_len(s, p2, (n - 1) as nat);
    }
}

/// A record that parses has exactly `n` columns.
pub proof fn lemma_parse_record_len(s: Seq<u8>, n: nat)
    requires
        spec_parse_record(s, n) is Some,
    ensures
        spec_parse_record(s, n).unwrap().len() == n,
{
    let (_, hpos) = spec_varint(s, 0).unwrap();
    let (types, tpos) = spec_serial_types(s, hpos, n).unwrap();
    lemma_serial_types_len(s, hpos, n);
    lemma_record_self_consistent(s, tpos, types);
}

/// A record is self-consistent: the column bytes span exactly the sum of
/// the serial types' widths, from the end of the header to the end of the
/// record.
pub proof fn lemma_record_self_consistent(s: Seq<u8>, pos: int, types: Seq<u64>)
    requires
        spec_columns(s, pos, types) is Some,
    ensures
        spec_columns(s, pos, types).unwrap().1 == pos + spec_width_sum(types),
        spec_columns(s, pos, types).unwrap().0.len() == types.len(),
    decreases types.len(),
{
    if types.len() > 0 {
        let w = spec_serial_width(types[0]).unwrap();
        lemma_record_self_consistent(s, pos + w, types.drop_first());
    }
}

} // verus!
