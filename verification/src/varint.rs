//! The variable-length integer codec.
//!
//! A varint stores a `u64` big-endian in one to nine bytes.  Each of the
//! first eight bytes contributes its low seven bits and signals with its
//! high bit whether another byte follows; a ninth byte, when reached,
//! contributes all eight of its bits.

use vstd::prelude::*;

verus! {

/// Decoding from position `pos` after `k` continuation bytes have already
/// accumulated into `acc`.  Returns the value and the position one past the
/// varint's last byte, or `None` when the bytes run out first.
pub open spec fn spec_varint_rec(s: Seq<u8>, pos: int, acc: nat, k: nat) -> Option<(u64, int)>
    decreases 8 - k,
{
    if k >= 8 {
        if 0 <= pos < s.len() {
            Some((((acc * 256 + s[pos]) % 0x1_0000_0000_0000_0000) as u64, pos + 1))
        } else {
            None
        }
    } else if !(0 <= pos < s.len()) {
        None
    } else if s[pos] >= 128 {
        spec_varint_rec(s, pos + 1, (acc * 128 + s[pos] - 128) as nat, (k + 1) as nat)
    } else {
        Some(((acc * 128 + s[pos]) as u64, pos + 1))
    }
}

/// The varint starting at position `pos` of `s`: its value and the position
/// one past its last byte.
pub open spec fn spec_varint(s: Seq<u8>, pos: int) -> Option<(u64, int)> {
    spec_varint_rec(s, pos, 0, 0)
}

/// How many bytes the canonical encoding of `v` occupies.
pub open spec fn spec_varint_size(v: u64) -> nat {
    if v < 0x80 {
        1
    } else if v < 0x4000 {
        2
    } else if v < 0x20_0000 {
        3
    } else if v < 0x1000_0000 {
        4
    } else if v < 0x8_0000_0000 {
        5
    } else if v < 0x400_0000_0000 {
        6
    } else if v < 0x2_0000_0000_0000 {
        7
    } else if v < 0x100_0000_0000_0000 {
        8
    } else {
        9
    }
}

/// The canonical (shortest) encoding of `v`.
pub open spec fn spec_encode_varint(v: u64) -> Seq<u8> {
    let len = spec_varint_size(v);
    if len <= 8 {
        Seq::new(
            len,
            |i: int|
                if i == len - 1 {
                    (v % 128) as u8
                } else {
                    (128 + (v as nat / pow7(((len - 1 - i)) as nat)) % 128) as u8
                },
        )
    } else {
        Seq::new(
            9,
            |i: int|
                if i == 8 {
                    (v % 256) as u8
                } else {
                    (128 + ((v as nat / 256) / pow7((7 - i) as nat)) % 128) as u8
                },
        )
    }
}

/// `128^e`, the weight of the `e`-th seven-bit group.
pub open spec fn pow7(e: nat) -> nat
    decreases e,
{
    if e == 0 {
        1
    } else {
        128 * pow7((e - 1) as nat)
    }
}

/// Reads the varint that starts at `pos`.  Returns its value and the number
/// of bytes it occupies, or `None` when `data` ends before the varint does.
pub fn parse_varint(data: &[u8], pos: usize) -> (r: Option<(u64, usize)>)
    ensures
        match r {
            None => spec_varint(data@, pos as int) is None,
            Some((v, used)) => {
                &&& spec_varint(data@, pos as int) == Some((v, pos + used))
                &&& 1 <= used <= 9
                &&& pos + used <= data@.len()
            },
        },
{
    match parse_varint_rec(data, pos, 0, 0) {
        None => None,
        Some((v, end)) => Some((v, end - pos)),
    }
}

fn parse_varint_rec(data: &[u8], pos: usize, acc: u64, k: u8) -> (r: Option<(u64, usize)>)
    requires
        k <= 8,
        acc < pow7(k as nat),
    ensures
        match r {
            None => spec_varint_rec(data@, pos as int, acc as nat, k as nat) is None,
            Some((v, end)) => {
                &&& spec_varint_rec(data@, pos as int, acc as nat, k as nat) == Some(
                    (v, end as int),
                )
                &&& pos < end <= data@.len()
                &&& end - pos <= 9 - k
            },
        },
    decreases 9 - k,
{
    proof {
        lemma_pow7_bounds(k as nat);
    }
    if k >= 8 {
        if pos < data.len() {
            let b = data[pos];
            let v: u64 = acc * 256 + b as u64;
            proof {
                assert(acc * 256 + b < 0x1_0000_0000_0000_0000) by (nonlinear_arith)
                    requires
                        acc < 0x100_0000_0000_0000,
                        b < 256,
                ;
                assert((acc as nat * 256 + b) % 0x1_0000_0000_0000_0000 == acc as nat * 256 + b);
            }
            Some((v, pos + 1))
        } else {
            None
        }
    } else if pos >= data.len() {
        None
    } else {
        let b = data[pos];
        if b >= 128 {
            let acc2: u64 = acc * 128 + (b - 128) as u64;
            proof {
                assert(acc * 128 + (b - 128) < pow7((k + 1) as nat)) by (nonlinear_arith)
                    requires
                        acc < pow7(k as nat),
                        b - 128 < 128,
                        pow7((k + 1) as nat) == 128 * pow7(k as nat),
                ;
            }
            parse_varint_rec(data, pos + 1, acc2, k + 1)
        } else {
            let v: u64 = acc * 128 + b as u64;
            proof {
                assert(acc * 128 + b < 0x1_0000_0000_0000_0000) by (nonlinear_arith)
                    requires
                        acc < 0x100_0000_0000_0000,
                        b < 128,
                ;
            }
            Some((v, pos + 1))
        }
    }
}

proof fn lemma_pow7_bounds(k: nat)
    requires
        k <= 8,
    ensures
        pow7(k) <= 0x100_0000_0000_0000,
        pow7(8) == 0x100_0000_0000_0000,
{
    assert(pow7(8) == 0x100_0000_0000_0000) by {
        reveal_with_fuel(pow7, 9);
    }
    if k < 8 {
        lemma_pow7_increases(k, 8);
    }
}

proof fn lemma_pow7_pos(e: nat)
    ensures
        pow7(e) >= 1,
    decreases e,
{
    if e > 0 {
        lemma_pow7_pos((e - 1) as nat);
        assert(128 * pow7((e - 1) as nat) >= pow7((e - 1) as nat)) by (nonlinear_arith)
            requires
                pow7((e - 1) as nat) >= 1,
        ;
    }
}

proof fn lemma_pow7_increases(e1: nat, e2: nat)
    requires
        e1 <= e2,
    ensures
        pow7(e1) <= pow7(e2),
        pow7(e1) >= 1,
    decreases e2,
{
    lemma_pow7_pos(e1);
    if e1 < e2 {
        lemma_pow7_increases(e1, (e2 - 1) as nat);
        assert(pow7(e2) == 128 * pow7((e2 - 1) as nat));
        assert(pow7((e2 - 1) as nat) <= 128 * pow7((e2 - 1) as nat)) by (nonlinear_arith)
            requires
                pow7((e2 - 1) as nat) >= 1,
        ;
    }
}

/// Writes the canonical encoding of `v`.
pub fn encode_varint(v: u64) -> (r: Vec<u8>)
    ensures
        r@ == spec_encode_varint(v),
        1 <= r@.len() <= 9,
{
    let mut out: Vec<u8> = Vec::new();
    let len: usize = varint_size(v);
    if len <= 8 {
        let mut i: usize = 0;
        while i < len
            invariant
                len == spec_varint_size(v),
                len <= 8,
                i <= len,
                out@.len() == i,
                forall|j: int|
                    0 <= j < i ==> out@[j] == spec_encode_varint(v)[j],
            decreases len - i,
        {
            proof {
                lemma_pow7_bounds((len - 1 - i) as nat);
            }
            let b: u8 = if i == len - 1 {
                (v % 128) as u8
            } else {
                let w = pow7_u64((len - 1 - i) as u64);
                (128 + ((v / w) % 128)) as u8
            };
            out.push(b);
            i = i + 1;
        }
    } else {
        let hi: u64 = v / 256;
        let mut i: usize = 0;
        while i < 8
            invariant
                len == spec_varint_size(v),
                len == 9,
                hi == v / 256,
                i <= 8,
                out@.len() == i,
                forall|j: int|
                    0 <= j < i ==> out@[j] == spec_encode_varint(v)[j],
            decreases 8 - i,
        {
            proof {
                lemma_pow7_bounds((7 - i) as nat);
            }
            let w = pow7_u64((7 - i) as u64);
            let b: u8 = (128 + ((hi / w) % 128)) as u8;
            out.push(b);
            i = i + 1;
        }
        out.push((v % 256) as u8);
    }
    proof {
        assert(out@ =~= spec_encode_varint(v));
    }
    out
}

/// A byte sequence is a valid varint when it is the canonical encoding of
/// some value.
pub open spec fn is_valid_varint(s: Seq<u8>) -> bool {
    exists|v: u64| s == spec_encode_varint(v)
}

/// Decoding a valid varint and re-encoding the decoded value reproduces the
/// source bytes, whose length lies between one and nine.
pub proof fn lemma_varint_round_trip(s: Seq<u8>)
    requires
        is_valid_varint(s),
    ensures
        spec_varint(s, 0) matches Some((v, end)) && end == s.len()
            && spec_encode_varint(v) == s,
        1 <= s.len() <= 9,
{
    let v = choose|v: u64| s == spec_encode_varint(v);
    lemma_varint_encode_decode(v);
}

/// Decoding the canonical encoding of `v` yields `v` and consumes the whole
/// encoding.
pub proof fn lemma_varint_encode_decode(v: u64)
    ensures
        spec_varint(spec_encode_varint(v), 0) == Some(
            (v, spec_encode_varint(v).len() as int),
        ),
        spec_encode_varint(v).len() == spec_varint_size(v),
        1 <= spec_varint_size(v) <= 9,
{
    lemma_pow7_values();
    let len = spec_varint_size(v);
    if len <= 8 {
        lemma_decode_from(v, 0);
        assert(v as nat / pow7(len) == 0) by {
            vstd::arithmetic::div_mod::lemma_basic_div(v as int, pow7(len) as int);
        }
    } else {
        let hi = (v as nat / 256) as u64;
        lemma_decode_hi_from(v, 0);
        assert(spec_varint_rec(spec_encode_varint(v), 0, 0, 0) == Some(
            (v, 9int),
        )) by {
            assert(hi as nat / pow7(8) == 0) by {
                vstd::arithmetic::div_mod::lemma_basic_div(hi as int, pow7(8) as int);
            }
        }
    }
}

/// Decoding the tail of an eight-or-fewer-byte encoding from digit `j`, with
/// the first `j` digits already accumulated, completes to `v`.
proof fn lemma_decode_from(v: u64, j: int)
    requires
        spec_varint_size(v) <= 8,
        0 <= j < spec_varint_size(v),
    ensures
        spec_varint_rec(
            spec_encode_varint(v),
            j,
            v as nat / pow7((spec_varint_size(v) - j) as nat),
            j as nat,
        ) == Some((v, spec_varint_size(v) as int)),
    decreases spec_varint_size(v) - j,
{
    lemma_pow7_values();
    let s = spec_encode_varint(v);
    let len = spec_varint_size(v);
    let acc = v as nat / pow7((len - j) as nat);
    if j == len - 1 {
        assert(s[j] == (v % 128) as u8);
        assert(acc == v as nat / 128);
        assert(acc * 128 + (v % 128) == v) by {
            vstd::arithmetic::div_mod::lemma_fundamental_div_mod(v as int, 128);
        }
    } else {
        let a = pow7((len - 1 - j) as nat);
        assert(s[j] == (128 + (v as nat / a) % 128) as u8);
        assert((v as nat / a) % 128 < 128);
        assert(s[j] >= 128);
        let acc2 = acc * 128 + (v as nat / a) % 128;
        assert(acc2 == v as nat / a) by {
            assert(pow7((len - j) as nat) == 128 * a);
            assert(v as nat / (128 * a) == (v as nat / a) / 128) by {
                vstd::arithmetic::div_mod::lemma_div_denominator(v as int, a as int, 128);
                vstd::arithmetic::mul::lemma_mul_is_commutative(a as int, 128);
            }
            vstd::arithmetic::div_mod::lemma_fundamental_div_mod(
                (v as nat / a) as int,
                128,
            );
        }
        lemma_decode_from(v, j + 1);
    }
}

/// Decoding the nine-byte encoding from continuation digit `j`, with the
/// first `j` digits of the high part already accumulated, completes to `v`.
proof fn lemma_decode_hi_from(v: u64, j: int)
    requires
        spec_varint_size(v) == 9,
        0 <= j <= 7,
    ensures
        spec_varint_rec(
            spec_encode_varint(v),
            j,
            (v as nat / 256) / pow7((8 - j) as nat),
            j as nat,
        ) == Some((v, 9int)),
    decreases 8 - j,
{
    lemma_pow7_values();
    let s = spec_encode_varint(v);
    let hi = v as nat / 256;
    let acc = hi / pow7((8 - j) as nat);
    let a = pow7((7 - j) as nat);
    assert(s[j] == (128 + (hi / a) % 128) as u8);
    assert((hi / a) % 128 < 128);
    assert(s[j] >= 128);
    let acc2 = acc * 128 + (hi / a) % 128;
    assert(acc2 == hi / a) by {
        assert(pow7((8 - j) as nat) == 128 * a);
        assert(hi / (128 * a) == (hi / a) / 128) by {
            vstd::arithmetic::div_mod::lemma_div_denominator(hi as int, a as int, 128);
            vstd::arithmetic::mul::lemma_mul_is_commutative(a as int, 128);
        }
        vstd::arithmetic::div_mod::lemma_fundamental_div_mod((hi / a) as int, 128);
    }
    if j == 7 {
        assert(s[8] == (v % 256) as u8);
        assert(acc2 == hi) by {
            vstd::arithmetic::div_mod::lemma_div_basics(hi as int);
        }
        assert(hi * 256 + (v % 256) == v) by {
            vstd::arithmetic::div_mod::lemma_fundamental_div_mod(v as int, 256);
        }
        assert((hi * 256 + (v % 256) as nat) % 0x1_0000_0000_0000_0000 == v as nat);
    } else {
        lemma_decode_hi_from(v, j + 1);
    }
}

proof fn lemma_pow7_values()
    ensures
        pow7(0) == 1,
        pow7(1) == 0x80,
        pow7(2) == 0x4000,
        pow7(3) == 0x20_0000,
        pow7(4) == 0x1000_0000,
        pow7(5) == 0x8_0000_0000,
        pow7(6) == 0x400_0000_0000,
        pow7(7) == 0x2_0000_0000_0000,
        pow7(8) == 0x100_0000_0000_0000,
{
    reveal_with_fuel(pow7, 9);
}

fn varint_size(v: u64) -> (r: usize)
    ensures
        r == spec_varint_size(v),
{
    if v < 0x80 {
        1
    } else if v < 0x4000 {
        2
    } else if v < 0x20_0000 {
        3
    } else if v < 0x1000_0000 {
        4
    } else if v < 0x8_0000_0000 {
        5
    } else if v < 0x400_0000_0000 {
        6
    } else if v < 0x2_0000_0000_0000 {
        7
    } else if v < 0x100_0000_0000_0000 {
        8
    } else {
        9
    }
}

fn pow7_u64(e: u64) -> (r: u64)
    requires
        e <= 8,
    ensures
        r == pow7(e as nat),
        r >= 1,
{
    proof {
        lemma_pow7_bounds(e as nat);
    }
    let mut r: u64 = 1;
    let mut i: u64 = 0;
    while i < e
        invariant
            i <= e <= 8,
            r == pow7(i as nat),
        decreases e - i,
    {
        proof {
            lemma_pow7_increases(i as nat, 8);
            lemma_pow7_bounds(8);
            lemma_pow7_increases((i + 1) as nat, 8);
        }
        r = r * 128;
        i = i + 1;
    }
    proof {
        lemma_pow7_pos(e as nat);
    }
    r
}

} // verus!
