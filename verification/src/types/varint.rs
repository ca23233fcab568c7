//! Variable-length integer encoding.
//!
//! A value is written in groups of seven bits, least significant group
//! first. Every byte but the last has its top bit set. A 64-bit value takes
//! between one and ten bytes.
use vstd::arithmetic::power2::*;
use vstd::bits::*;
use vstd::prelude::*;

verus! {

/// The encoding of `v`: its low seven bits, with the top bit set if more
/// follows, then the encoding of the rest.
pub open spec fn spec_encode_varint(v: nat) -> Seq<u8>
    decreases v,
{
    if v < 128 {
        seq![v as u8]
    } else {
        seq![(v % 128 + 128) as u8] + spec_encode_varint(v / 128)
    }
}

/// Where the varint that starts `s` ends: one past the first byte, at or
/// after `i` and among the first ten, whose top bit is clear.
pub open spec fn varint_end(s: Seq<u8>, i: nat) -> Option<nat>
    decreases 10 - i,
{
    if i >= 10 || i >= s.len() {
        None
    } else if s[i as int] < 128 {
        Some(i + 1)
    } else {
        varint_end(s, i + 1)
    }
}

/// The number that the low seven bits of the first `n` bytes of `s` spell,
/// least significant group first.
pub open spec fn varint_groups(s: Seq<u8>, n: nat) -> nat
    decreases n,
{
    if n == 0 {
        0
    } else {
        varint_groups(s, (n - 1) as nat) + ((s[n - 1] % 128) as nat) * pow2((7 * (n - 1)) as nat)
    }
}

/// What decoding `s` yields: the value, cut to 64 bits, and the number of
/// bytes it took; `None` where `s` is empty or no varint ends within its
/// first ten bytes.
pub open spec fn spec_decode_varint(s: Seq<u8>) -> Option<(u64, nat)> {
    match varint_end(s, 0) {
        Some(n) => Some(((varint_groups(s, n) % 0x1_0000_0000_0000_0000) as u64, n)),
        None => None,
    }
}

proof fn lemma_varint_end_at(s: Seq<u8>, i: nat, n: nat)
    requires
        1 <= n <= 10,
        n <= s.len(),
        i < n,
        forall|j: int| 0 <= j < n - 1 ==> s[j] >= 128,
        s[n - 1] < 128,
    ensures
        varint_end(s, i) == Some(n),
    decreases n - i,
{
    if i + 1 < n {
        lemma_varint_end_at(s, i + 1, n);
    }
}

proof fn lemma_varint_end_none(s: Seq<u8>, i: nat, n: nat)
    requires
        i <= n,
        n >= 10 || n >= s.len(),
        forall|j: int| 0 <= j < n && j < s.len() ==> s[j] >= 128,
    ensures
        varint_end(s, i) is None,
    decreases n - i,
{
    if i < 10 && i < s.len() {
        lemma_varint_end_none(s, i + 1, n);
    }
}

proof fn lemma_varint_groups_prefix(s: Seq<u8>, t: Seq<u8>, n: nat)
    requires
        n <= s.len(),
        n <= t.len(),
        forall|j: int| 0 <= j < n ==> s[j] == t[j],
    ensures
        varint_groups(s, n) == varint_groups(t, n),
    decreases n,
{
    if n > 0 {
        lemma_varint_groups_prefix(s, t, (n - 1) as nat);
    }
}

proof fn lemma_varint_groups_cons(b: u8, t: Seq<u8>, n: nat)
    requires
        n <= t.len(),
    ensures
        varint_groups(seq![b] + t, n + 1) == (b % 128) + 128 * varint_groups(t, n),
    decreases n,
{
    let s = seq![b] + t;
    lemma2_to64();
    if n == 0 {
        assert(varint_groups(s, 0) == 0);
        assert(s[0] == b);
        assert(pow2(0) == 1);
        assert(varint_groups(s, 1) == varint_groups(s, 0) + (s[0] % 128) * pow2(0));
    } else {
        lemma_varint_groups_cons(b, t, (n - 1) as nat);
        assert(s[n as int] == t[n - 1]);
        lemma_pow2_adds(7, (7 * (n - 1)) as nat);
        assert(pow2(7) == 128);
        let g = (t[n - 1] % 128) as int;
        let p = pow2((7 * (n - 1)) as nat) as int;
        assert(pow2((7 * n) as nat) == 128 * p);
        assert(g * (128 * p) == 128 * (g * p)) by (nonlinear_arith);
        assert(128 * (varint_groups(t, (n - 1) as nat) + g * p) == 128 * varint_groups(
            t,
            (n - 1) as nat,
        ) + 128 * (g * p)) by (nonlinear_arith);
    }
}

/// Shape and value of an encoding: at most `k` bytes for a value below
/// `2^(7k)`, the top bit set on every byte but the last, and the groups
/// spell the value back.
proof fn lemma_encode_shape(v: nat, k: nat)
    requires
        k >= 1,
        v < pow2((7 * k) as nat),
    ensures
        1 <= spec_encode_varint(v).len() <= k,
        forall|j: int|
            0 <= j < spec_encode_varint(v).len() - 1 ==> #[trigger] spec_encode_varint(v)[j]
                >= 128,
        spec_encode_varint(v)[spec_encode_varint(v).len() - 1] < 128,
        varint_groups(spec_encode_varint(v), spec_encode_varint(v).len()) == v,
    decreases v,
{
    lemma2_to64();
    let e = spec_encode_varint(v);
    if v < 128 {
        assert(e =~= seq![v as u8]);
        assert(varint_groups(e, 0) == 0);
        assert(varint_groups(e, 1) == varint_groups(e, 0) + (e[0] % 128) * pow2(0));
    } else {
        if k == 1 {
            assert(pow2(7) == 128);
            assert(false);
        }
        let b = (v % 128 + 128) as u8;
        let t = spec_encode_varint(v / 128);
        lemma_pow2_adds(7, (7 * (k - 1)) as nat);
        assert(pow2((7 * k) as nat) == 128 * pow2((7 * (k - 1)) as nat));
        lemma_encode_shape(v / 128, (k - 1) as nat);
        assert(e =~= seq![b] + t);
        assert forall|j: int| 0 <= j < e.len() - 1 implies #[trigger] e[j] >= 128 by {
            if j > 0 {
                assert(e[j] == t[j - 1]);
            }
        }
        assert(e[e.len() - 1] == t[t.len() - 1]);
        lemma_varint_groups_cons(b, t, t.len());
        assert(b % 128 == v % 128);
    }
}

/// The encoding of a larger number is no shorter.
pub proof fn lemma_encode_len_monotone(a: nat, b: nat)
    requires
        a <= b,
    ensures
        spec_encode_varint(a).len() <= spec_encode_varint(b).len(),
    decreases b,
{
    if a >= 128 {
        assert(a / 128 <= b / 128) by (nonlinear_arith)
            requires
                a <= b,
        ;
        lemma_encode_len_monotone(a / 128, b / 128);
    }
}

/// An encoding has between one and ten bytes.
pub proof fn lemma_encode_len(v: u64)
    ensures
        1 <= spec_encode_varint(v as nat).len() <= 10,
{
    lemma2_to64();
    lemma2_to64_rest();
    lemma_pow2_strictly_increases(64, 70);
    lemma_encode_shape(v as nat, 10);
}

/// Decoding an encoding gives back the value and the encoding's length,
/// whatever bytes follow it.
pub proof fn lemma_varint_roundtrip(v: u64, rest: Seq<u8>)
    ensures
        spec_decode_varint(spec_encode_varint(v as nat) + rest) == Some(
            (v, spec_encode_varint(v as nat).len()),
        ),
{
    lemma2_to64();
    lemma2_to64_rest();
    lemma_pow2_strictly_increases(64, 70);
    lemma_encode_shape(v as nat, 10);
    let e = spec_encode_varint(v as nat);
    let s = e + rest;
    assert forall|j: int| 0 <= j < e.len() implies s[j] == e[j] by {}
    lemma_varint_end_at(s, 0, e.len());
    lemma_varint_groups_prefix(s, e, e.len());
}

/// Encode a u64 as a variable-length integer.
pub fn encode_varint(value: u64) -> (buf: Vec<u8>)
    ensures
        buf@ == spec_encode_varint(value as nat),
        1 <= buf@.len() <= 10,
{
    proof {
        lemma_encode_len(value);
    }
    let mut v: u64 = value;
    let mut buf: Vec<u8> = Vec::with_capacity(10);
    loop
        invariant_except_break
            buf@ + spec_encode_varint(v as nat) == spec_encode_varint(value as nat),
        ensures
            buf@ == spec_encode_varint(value as nat),
        decreases v,
    {
        let ghost before = v;
        let low: u64 = v & 0x7F;
        let rest: u64 = v >> 7;
        assert(low == before % 128 && rest == before / 128 && low < 128) by (bit_vector)
            requires
                low == before & 0x7F,
                rest == before >> 7,
        ;
        let mut byte: u8 = low as u8;
        v = rest;
        if v != 0 {
            let plain: u8 = byte;
            byte = byte | 0x80;
            assert(byte == plain + 128) by (bit_vector)
                requires
                    plain < 128,
                    byte == plain | 0x80,
            ;
        }
        proof {
            let tail = spec_encode_varint(before as nat);
            if before < 128 {
                assert(tail =~= seq![byte]);
                assert(buf@.push(byte) =~= buf@ + tail);
                assert(rest == 0);
            } else {
                assert(rest != 0);
                assert(tail =~= seq![byte] + spec_encode_varint(rest as nat));
                assert(buf@.push(byte) + spec_encode_varint(rest as nat) =~= buf@ + tail);
            }
        }
        buf.push(byte);
        if v == 0 {
            break ;
        }
    }
    buf
}

/// Decode a variable-length integer from the start of a byte slice.
///
/// Returns the value and the number of bytes consumed; `None` where the
/// slice is empty or no terminating byte comes within the first ten.
pub fn decode_varint(bytes: &[u8]) -> (r: Option<(u64, usize)>)
    ensures
        match spec_decode_varint(bytes@) {
            Some((v, n)) => r == Some((v, n as usize)) && 1 <= n <= 10 && n <= bytes@.len(),
            None => r is None,
        },
{
    let mut value: u64 = 0;
    let mut i: usize = 0;
    proof {
        lemma2_to64();
    }
    while i < bytes.len() && i < 10
        invariant
            i <= 10,
            i <= bytes@.len(),
            forall|j: int| 0 <= j < i ==> bytes@[j] >= 128,
            i <= 9 ==> value == varint_groups(bytes@, i as nat) && value < pow2((7 * i) as nat),
        decreases 10 - i,
    {
        let byte: u8 = bytes[i];
        let group: u64 = (byte & 0x7F) as u64;
        let shift: u64 = 7 * (i as u64);
        let last: bool = byte & 0x80 == 0;
        assert(group == byte % 128 && group < 128 && (last <==> byte < 128)) by (bit_vector)
            requires
                group == (byte & 0x7F) as u64,
                last == (byte & 0x80 == 0),
        ;
        let ghost old_value = value;
        let shifted: u64 = group << shift;
        value = value | shifted;
        proof {
            let s = bytes@;
            lemma2_to64();
            lemma2_to64_rest();
            let p = pow2(shift as nat);
            if shift < 63 {
                lemma_pow2_strictly_increases(shift as nat, 63);
            }
            assert(p <= 0x8000_0000_0000_0000);
            lemma_u64_shl_is_mul(1, shift);
            let one_shifted: u64 = 1u64 << shift;
            assert(one_shifted == p);
            assert(value == old_value + shifted) by (bit_vector)
                requires
                    shift < 64,
                    old_value < one_shifted,
                    one_shifted == 1u64 << shift,
                    shifted == group << shift,
                    value == old_value | shifted,
            ;
            assert(varint_groups(s, (i + 1) as nat) == varint_groups(s, i as nat) + (s[i as int]
                % 128) * pow2((7 * i) as nat));
            if i < 9 {
                lemma_pow2_strictly_increases(shift as nat, 57);
                assert(group * p <= 127 * p) by (nonlinear_arith)
                    requires
                        group <= 127,
                        p >= 0,
                ;
                lemma_u64_shl_is_mul(group, shift);
                assert(shifted == group * p);
                lemma_pow2_adds(7, shift as nat);
                assert(pow2((7 * (i + 1)) as nat) == 128 * p);
                assert(value == varint_groups(s, (i + 1) as nat));
                assert(value < pow2((7 * (i + 1)) as nat));
            } else {
                let bit: u64 = group & 1;
                let bit_shifted: u64 = bit << 63;
                assert(shifted == bit_shifted && bit == group % 2 && bit <= 1) by (bit_vector)
                    requires
                        shift == 63,
                        shifted == group << shift,
                        bit == group & 1,
                        bit_shifted == bit << 63,
                ;
                assert(bit * p <= 1 * p) by (nonlinear_arith)
                    requires
                        bit <= 1,
                        p >= 0,
                ;
                lemma_u64_shl_is_mul(bit, 63);
                assert(shifted == bit * p);
                let total = varint_groups(s, 10);
                let q = group / 2;
                assert(group * p == (2 * q + bit) * p);
                assert((2 * q + bit) * p == q * (2 * p) + bit * p) by (nonlinear_arith);
                assert(total == value + q * 0x1_0000_0000_0000_0000);
                assert(total % 0x1_0000_0000_0000_0000 == value) by (nonlinear_arith)
                    requires
                        total == value + q * 0x1_0000_0000_0000_0000,
                        0 <= value < 0x1_0000_0000_0000_0000,
                        q >= 0,
                ;
            }
        }
        if last {
            proof {
                lemma_varint_end_at(bytes@, 0, (i + 1) as nat);
            }
            return Some((value, i + 1));
        }
        i += 1;
    }
    proof {
        lemma_varint_end_none(bytes@, 0, i as nat);
    }
    None
}

/// Number of bytes that `value` is counted to take: one per seven bits, up
/// to nine.
pub open spec fn spec_varint_size(value: u64) -> usize {
    if value <= 127 {
        1
    } else if value <= 16383 {
        2
    } else if value <= 2097151 {
        3
    } else if value <= 268435455 {
        4
    } else if value <= 34359738367 {
        5
    } else if value <= 4398046511103 {
        6
    } else if value <= 562949953421311 {
        7
    } else if value <= 72057594037927935 {
        8
    } else {
        9
    }
}

/// The count is the length of the encoding for every value below `2^63`;
/// a value from there on takes ten bytes.
pub proof fn lemma_varint_size(value: u64)
    ensures
        value < 0x8000_0000_0000_0000 ==> spec_varint_size(value) == spec_encode_varint(
            value as nat,
        ).len(),
        value >= 0x8000_0000_0000_0000 ==> spec_encode_varint(value as nat).len() == 10,
{
    reveal_with_fuel(spec_encode_varint, 11);
}

/// Calculate the number of bytes needed to encode a value.
///
/// The count stops at nine: it is the length of the encoding for every
/// value below `2^63`.
pub fn varint_size(value: u64) -> (r: usize)
    ensures
        r == spec_varint_size(value),
        value < 0x8000_0000_0000_0000 ==> r == spec_encode_varint(value as nat).len(),
{
    proof {
        lemma_varint_size(value);
    }
    if value <= 127 {
        1
    } else if value <= 16383 {
        2
    } else if value <= 2097151 {
        3
    } else if value <= 268435455 {
        4
    } else if value <= 34359738367 {
        5
    } else if value <= 4398046511103 {
        6
    } else if value <= 562949953421311 {
        7
    } else if value <= 72057594037927935 {
        8
    } else {
        9
    }
}

} // verus!
