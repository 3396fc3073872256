//! Gorilla compression of double values.
//!
//! Values are handled as the 64-bit patterns of IEEE 754 doubles. Each value is
//! XOR-ed with the one before it (the first with 0) and written as a record:
//! a single `1` bit when the XOR is zero, otherwise a `0` bit, the number of
//! leading zeros of the XOR (5 bits, at most 31), the number of meaningful bits
//! (6 bits, where 0 stands for 64) and the meaningful bits themselves. Bits are
//! packed least significant first into bytes; the last byte is padded with zeros.

use vstd::prelude::*;
use vstd::std_specs::bits::{u64_leading_zeros, u64_trailing_zeros};

verus! {

broadcast use vstd::seq::group_seq_axioms, vstd::std_specs::bits::group_bits_axioms;

/// Bit `i` of `v` (0 is the least significant).
pub open spec fn bit_of(v: u64, i: int) -> bool {
    (v >> (i as u64)) & 1u64 == 1u64
}

/// The `n` low bits of `v`, least significant first.
pub open spec fn bits_le(v: u64, n: nat) -> Seq<bool> {
    Seq::new(n, |i: int| bit_of(v, i))
}

/// The number whose bits, least significant first, are `s` (at most 64 of them).
pub open spec fn bits_value(s: Seq<bool>) -> u64
    decreases s.len(),
{
    if s.len() == 0 {
        0
    } else {
        bits_value(s.drop_last()) | ((if s.last() { 1u64 } else { 0u64 }) << ((s.len() - 1) as u64))
    }
}

/// The bits of a byte sequence, each byte least significant bit first.
pub open spec fn byte_bits(data: Seq<u8>) -> Seq<bool> {
    Seq::new(8 * data.len(), |k: int| (data[k / 8] >> ((k % 8) as u8)) & 1u8 == 1u8)
}

/// `bits` followed by the zero bits that fill its last byte.
pub open spec fn pad_to_byte(bits: Seq<bool>) -> Seq<bool> {
    bits + Seq::new(((8 - bits.len() % 8) % 8) as nat, |i: int| false)
}

/// Leading zeros of a non-zero XOR as stored in a record: at most 31.
pub open spec fn stored_leading_zeros(x: u64) -> u64 {
    if u64_leading_zeros(x) > 31 {
        31
    } else {
        u64_leading_zeros(x) as u64
    }
}

/// Number of meaningful bits of a non-zero XOR: 64 minus stored leading and trailing zeros.
pub open spec fn meaningful_len(x: u64) -> u64 {
    (64 - stored_leading_zeros(x) - u64_trailing_zeros(x)) as u64
}

/// The record that encodes `v` after `prev`.
pub open spec fn record_bits(prev: u64, v: u64) -> Seq<bool> {
    let x = prev ^ v;
    if x == 0 {
        seq![true]
    } else {
        let m = meaningful_len(x);
        seq![false] + bits_le(stored_leading_zeros(x), 5) + bits_le(m % 64, 6) + bits_le(
            x >> (u64_trailing_zeros(x) as u64),
            m as nat,
        )
    }
}

/// The records of `vals`, the first of them encoded after `prev`.
pub open spec fn encode_values(prev: u64, vals: Seq<u64>) -> Seq<bool>
    decreases vals.len(),
{
    if vals.len() == 0 {
        Seq::empty()
    } else {
        record_bits(prev, vals[0]) + encode_values(vals[0], vals.drop_first())
    }
}

/// The bit stream of a whole value sequence.
pub open spec fn gorilla_bits(vals: Seq<u64>) -> Seq<bool> {
    encode_values(0, vals)
}

/// What reading one record at `pos` gives.
pub enum DecodeStep {
    /// The stream ends here (only padding is left).
    End,
    /// A value, and the position after its record.
    Value(u64, int),
    /// A record that cannot be decoded.
    Malformed,
}

/// Reading the record at `pos` after the value `prev`: a set flag repeats `prev`; a clear
/// flag is followed by five bits of leading zeros, six bits of meaningful length (0 for
/// 64) and the meaningful bits of the XOR with `prev`.
pub open spec fn decode_step(bits: Seq<bool>, pos: int, prev: u64) -> DecodeStep {
    if pos >= bits.len() {
        DecodeStep::End
    } else if bits[pos] {
        DecodeStep::Value(prev, pos + 1)
    } else if bits.len() - pos < 12 {
        DecodeStep::End
    } else {
        let lz = bits_value(bits.subrange(pos + 1, pos + 6));
        let mc = bits_value(bits.subrange(pos + 6, pos + 12));
        let m: u64 = if mc == 0 {
            64
        } else {
            mc
        };
        if lz + m > 64 || pos + 12 + m > bits.len() {
            DecodeStep::Malformed
        } else {
            let x = bits_value(bits.subrange(pos + 12, pos + 12 + m)) << ((64 - lz - m) as u64);
            DecodeStep::Value(prev ^ x, pos + 12 + m)
        }
    }
}

/// The error text for a record at `pos` that cannot be decoded: its sizes do not fit a
/// value, or its bits run past the end.
pub open spec fn malformed_text(bits: Seq<bool>, pos: int) -> Seq<char> {
    let lz = bits_value(bits.subrange(pos + 1, pos + 6));
    let mc = bits_value(bits.subrange(pos + 6, pos + 12));
    let m: u64 = if mc == 0 {
        64
    } else {
        mc
    };
    if lz + m > 64 {
        "invalid record"@
    } else {
        "unexpected EOF"@
    }
}

/// The values decoded from position `pos` on, or `None` when a record is malformed.
pub open spec fn decode_from(bits: Seq<bool>, pos: int, prev: u64) -> Option<Seq<u64>>
    decreases bits.len() - pos,
{
    if pos < 0 || pos >= bits.len() {
        Some(Seq::empty())
    } else {
        match decode_step(bits, pos, prev) {
            DecodeStep::End => Some(Seq::empty()),
            DecodeStep::Malformed => None,
            DecodeStep::Value(v, next) => if pos < next {
                match decode_from(bits, next, v) {
                    Some(rest) => Some(seq![v] + rest),
                    None => None,
                }
            } else {
                None
            },
        }
    }
}

/// The values that a compressed byte sequence holds, or `None` when it is malformed.
pub open spec fn gorilla_decode(data: Seq<u8>) -> Option<Seq<u64>> {
    decode_from(byte_bits(data), 0, 0)
}

/// The low `k` bits of `v`.
pub open spec fn low_bits(v: u64, k: u64) -> u64 {
    (v << ((64 - k) as u64)) >> ((64 - k) as u64)
}

/// Adding bit `k` of `v` to its `k` low bits gives its `k + 1` low bits.
proof fn lemma_low_bits_step(v: u64, k: u64)
    requires
        k < 64,
    ensures
        low_bits(v, k) | ((if bit_of(v, k as int) { 1u64 } else { 0u64 }) << k) == low_bits(
            v,
            (k + 1) as u64,
        ),
{
    let s: u64 = (64 - k) as u64;
    let s1: u64 = (63 - k) as u64;
    assert(((v << s) >> s) | ((if (v >> k) & 1u64 == 1u64 { 1u64 } else { 0u64 }) << k) == (v
        << s1) >> s1) by (bit_vector)
        requires
            k < 64,
            s == 64 - k,
            s1 == 63 - k,
    ;
}

/// The first `k` bits of `v`, read back, are its `k` low bits.
proof fn lemma_bits_value_prefix(v: u64, n: nat, k: nat)
    requires
        k <= n <= 64,
    ensures
        bits_value(bits_le(v, n).take(k as int)) == low_bits(v, k as u64),
    decreases k,
{
    if k == 0 {
        assert(bits_le(v, n).take(0) =~= Seq::<bool>::empty());
        assert((v << 64u64) >> 64u64 == 0u64) by (bit_vector);
    } else {
        lemma_bits_value_prefix(v, n, (k - 1) as nat);
        assert(bits_le(v, n).take(k as int).drop_last() =~= bits_le(v, n).take(k - 1));
        lemma_low_bits_step(v, (k - 1) as u64);
    }
}

/// Reading back the `n` low bits of `v` gives `v` when `v` has no higher bit.
pub proof fn lemma_bits_value_bits_le(v: u64, n: nat)
    requires
        n <= 64,
        n == 64 || v >> (n as u64) == 0,
    ensures
        bits_value(bits_le(v, n)) == v,
{
    lemma_bits_value_prefix(v, n, n);
    assert(bits_le(v, n).take(n as int) =~= bits_le(v, n));
    let k = n as u64;
    let s = (64 - k) as u64;
    assert(k == 64 || v >> k == 0 ==> (v << s) >> s == v) by (bit_vector)
        requires
            k <= 64,
            s == 64 - k,
    ;
}

/// Facts about the leading and trailing zeros of a non-zero word.
proof fn lemma_zero_counts(x: u64)
    requires
        x != 0,
    ensures
        u64_trailing_zeros(x) < 64,
        0 <= u64_leading_zeros(x) < 64,
        stored_leading_zeros(x) <= 31,
        stored_leading_zeros(x) <= u64_leading_zeros(x),
        u64_leading_zeros(x) + u64_trailing_zeros(x) <= 63,
        1 <= meaningful_len(x) <= 64,
        (x >> (u64_trailing_zeros(x) as u64)) << (u64_trailing_zeros(x) as u64) == x,
        meaningful_len(x) == 64 || (x >> (u64_trailing_zeros(x) as u64)) >> meaningful_len(x)
            == 0,
{
    let t = u64_trailing_zeros(x) as u64;
    let l = u64_leading_zeros(x) as u64;
    let s = (64 - l) as u64;
    let st = (64 - t) as u64;
    assert(x >> s == 0);
    assert(x << st == 0);
    assert((x >> t) & 1u64 == 1u64);
    assert(t < s) by (bit_vector)
        requires
            (x >> t) & 1u64 == 1u64,
            x >> s == 0,
            t < 64,
            s <= 64,
    ;
    assert((x >> t) << t == x) by (bit_vector)
        requires
            x << st == 0,
            st == 64 - t,
            t < 64,
    ;
    let ls = stored_leading_zeros(x);
    let m = meaningful_len(x);
    assert(m == 64 || (x >> t) >> m == 0) by (bit_vector)
        requires
            x >> s == 0,
            s == 64 - l,
            ls <= l,
            m == 64 - ls - t,
            l + t <= 63,
    ;
}

/// A record written at `pos` reads back as the value it encodes.
pub proof fn lemma_record_decodes(bits: Seq<bool>, pos: int, prev: u64, v: u64)
    requires
        0 <= pos,
        pos + record_bits(prev, v).len() <= bits.len(),
        bits.subrange(pos, pos + record_bits(prev, v).len()) == record_bits(prev, v),
    ensures
        decode_step(bits, pos, prev) == DecodeStep::Value(v, pos + record_bits(prev, v).len()),
{
    let r = record_bits(prev, v);
    let x = prev ^ v;
    assert(bits[pos] == r[0]);
    if x == 0 {
        assert(prev ^ 0u64 == prev) by (bit_vector);
        assert(prev == v) by (bit_vector)
            requires
                prev ^ v == 0,
        ;
    } else {
        lemma_zero_counts(x);
        let ls = stored_leading_zeros(x);
        let m = meaningful_len(x);
        let t = u64_trailing_zeros(x) as u64;
        let sa = seq![false];
        let sb = bits_le(ls, 5);
        let sc = bits_le(m % 64, 6);
        let sd = bits_le(x >> t, m as nat);
        assert(r == sa + sb + sc + sd);
        let w = bits.subrange(pos, pos + r.len());
        assert forall|i: int| 0 <= i < 5 implies bits.subrange(pos + 1, pos + 6)[i] == sb[i] by {
            assert(bits.subrange(pos + 1, pos + 6)[i] == w[1 + i]);
            assert(r[1 + i] == (sa + sb)[1 + i]);
        }
        assert forall|i: int| 0 <= i < 6 implies bits.subrange(pos + 6, pos + 12)[i] == sc[i] by {
            assert(bits.subrange(pos + 6, pos + 12)[i] == w[6 + i]);
            assert(r[6 + i] == (sa + sb + sc)[6 + i]);
        }
        assert forall|i: int| 0 <= i < m implies bits.subrange(pos + 12, pos + 12 + m)[i]
            == sd[i] by {
            assert(bits.subrange(pos + 12, pos + 12 + m)[i] == w[12 + i]);
        }
        assert(bits.subrange(pos + 1, pos + 6) =~= sb);
        assert(bits.subrange(pos + 6, pos + 12) =~= sc);
        assert(bits.subrange(pos + 12, pos + 12 + m) =~= sd);
        assert(ls >> 5u64 == 0) by (bit_vector)
            requires
                ls <= 31,
        ;
        let mc = m % 64;
        assert(mc >> 6u64 == 0) by (bit_vector)
            requires
                mc < 64,
        ;
        lemma_bits_value_bits_le(ls, 5);
        lemma_bits_value_bits_le(mc, 6);
        lemma_bits_value_bits_le(x >> t, m as nat);
        assert((64 - ls - m) as u64 == t);
        assert(prev ^ (prev ^ v) == v) by (bit_vector);
    }
}

/// `n` zero bits.
pub open spec fn zero_bits(n: nat) -> Seq<bool> {
    Seq::new(n, |i: int| false)
}

/// Decoding the records of `vals`, followed by fewer than eight zero bits, gives `vals`.
proof fn lemma_decode_encoded(bits: Seq<bool>, pos: int, prev: u64, vals: Seq<u64>, k: nat)
    requires
        0 <= pos <= bits.len(),
        k < 8,
        bits.subrange(pos, bits.len() as int) == encode_values(prev, vals) + zero_bits(k),
    ensures
        decode_from(bits, pos, prev) == Some(vals),
    decreases vals.len(),
{
    let tail = bits.subrange(pos, bits.len() as int);
    if vals.len() == 0 {
        assert(encode_values(prev, vals) + zero_bits(k) =~= zero_bits(k));
        if pos < bits.len() {
            assert(bits[pos] == tail[0]);
        }
        assert(vals =~= Seq::<u64>::empty());
    } else {
        let r = record_bits(prev, vals[0]);
        let rest = encode_values(vals[0], vals.drop_first());
        assert(tail =~= r + (rest + zero_bits(k)));
        assert(bits.subrange(pos, pos + r.len()) =~= r) by {
            assert forall|i: int| 0 <= i < r.len() implies bits.subrange(pos, pos + r.len())[i]
                == r[i] by {
                assert(bits.subrange(pos, pos + r.len())[i] == tail[i]);
            }
        }
        lemma_record_decodes(bits, pos, prev, vals[0]);
        let next = pos + r.len();
        assert(bits.subrange(next, bits.len() as int) =~= rest + zero_bits(k)) by {
            assert forall|i: int| 0 <= i < bits.len() - next implies bits.subrange(
                next,
                bits.len() as int,
            )[i] == (rest + zero_bits(k))[i] by {
                assert(bits.subrange(next, bits.len() as int)[i] == tail[r.len() + i]);
            }
        }
        lemma_decode_encoded(bits, next, vals[0], vals.drop_first(), k);
        assert(seq![vals[0]] + vals.drop_first() =~= vals);
    }
}

/// Decoding the padded bit stream of `vals` gives `vals` back.
pub proof fn lemma_gorilla_round_trip(data: Seq<u8>, vals: Seq<u64>)
    requires
        byte_bits(data) == pad_to_byte(gorilla_bits(vals)),
    ensures
        gorilla_decode(data) == Some(vals),
{
    let bits = byte_bits(data);
    let e = gorilla_bits(vals);
    let k = ((8 - e.len() % 8) % 8) as nat;
    assert(bits.subrange(0, bits.len() as int) =~= e + zero_bits(k));
    lemma_decode_encoded(bits, 0, 0, vals, k);
}

/// The value before the first one of `vals`, or before the one after them: the last of
/// `vals`, or `prev` when there is none.
pub open spec fn last_or(prev: u64, vals: Seq<u64>) -> u64 {
    if vals.len() == 0 {
        prev
    } else {
        vals.last()
    }
}

/// Encoding one more value appends its record.
pub proof fn lemma_encode_push(prev: u64, vals: Seq<u64>, v: u64)
    ensures
        encode_values(prev, vals.push(v)) == encode_values(prev, vals) + record_bits(
            last_or(prev, vals),
            v,
        ),
    decreases vals.len(),
{
    if vals.len() == 0 {
        assert(vals.push(v).drop_first() =~= Seq::<u64>::empty());
        assert(encode_values(v, Seq::<u64>::empty()) == Seq::<bool>::empty());
        assert(record_bits(prev, v) + Seq::<bool>::empty() =~= record_bits(prev, v));
        assert(Seq::<bool>::empty() + record_bits(prev, v) =~= record_bits(prev, v));
    } else {
        lemma_encode_push(vals[0], vals.drop_first(), v);
        assert(vals.push(v).drop_first() =~= vals.drop_first().push(v));
        assert(last_or(vals[0], vals.drop_first()) == last_or(prev, vals));
        assert(encode_values(prev, vals.push(v)) =~= encode_values(prev, vals) + record_bits(
            last_or(prev, vals),
            v,
        ));
    }
}

/// A record takes at most 76 bits.
pub proof fn lemma_record_len(prev: u64, v: u64)
    ensures
        1 <= record_bits(prev, v).len() <= 76,
{
    let x = prev ^ v;
    if x != 0 {
        lemma_zero_counts(x);
    }
}

/// Setting bit `bi` of a byte changes that bit only.
proof fn lemma_byte_or_bit(b: u8, bi: u8, j: u8)
    requires
        bi < 8,
        j < 8,
    ensures
        ((b | (1u8 << bi)) >> j) & 1u8 == (if j == bi { 1u8 } else { (b >> j) & 1u8 }),
{
    assert(((b | (1u8 << bi)) >> j) & 1u8 == (if j == bi { 1u8 } else { (b >> j) & 1u8 }))
        by (bit_vector)
        requires
            bi < 8,
            j < 8,
    ;
}

/// Gorilla compressor (XOR-based floating-point compression)
pub struct GorillaCompressor {
    prev_value: u64,
    prev_leading_zeros: u8,
    prev_trailing_zeros: u8,
    buffer: Vec<u8>,
    bit_offset: usize,
}

impl GorillaCompressor {
    /// The bits written so far.
    pub closed spec fn bits(&self) -> Seq<bool> {
        byte_bits(self.buffer@).take(self.bit_offset as int)
    }

    /// The value that the next record is XOR-ed with.
    pub closed spec fn prev(&self) -> u64 {
        self.prev_value
    }

    /// The buffer holds exactly the bytes that the written bits fill, padded with zeros.
    pub closed spec fn wf(&self) -> bool {
        &&& self.buffer@.len() == (self.bit_offset + 7) / 8
        &&& forall|k: int|
            self.bit_offset <= k < 8 * self.buffer@.len() ==> !#[trigger] byte_bits(
                self.buffer@,
            )[k]
    }

    pub fn new() -> (r: Self)
        ensures
            r.wf(),
            r.bits() == Seq::<bool>::empty(),
            r.prev() == 0,
    {
        let r = GorillaCompressor {
            prev_value: 0,
            prev_leading_zeros: 0,
            prev_trailing_zeros: 0,
            buffer: Vec::new(),
            bit_offset: 0,
        };
        assert(r.bits() =~= Seq::<bool>::empty());
        r
    }

    /// Append one bit: 1 when `bit` is 1, 0 otherwise.
    pub fn write_bit(&mut self, bit: u8)
        requires
            old(self).wf(),
            old(self).bits().len() < usize::MAX,
        ensures
            final(self).wf(),
            final(self).bits() == old(self).bits().push(bit == 1),
            final(self).prev() == old(self).prev(),
    {
        let ghost old_bytes = self.buffer@;
        let ghost old_bits = self.bits();
        let byte_index = self.bit_offset / 8;
        let bit_index = self.bit_offset % 8;
        if byte_index >= self.buffer.len() {
            self.buffer.push(0);
            assert forall|j: u8| j < 8 implies (0u8 >> j) & 1u8 == 0u8 by {
                assert((0u8 >> j) & 1u8 == 0u8) by (bit_vector);
            }
        }
        let ghost mid_bytes = self.buffer@;
        if bit == 1 {
            let b = self.buffer[byte_index];
            self.buffer.set(byte_index, b | (1u8 << (bit_index as u8)));
        }
        self.bit_offset = self.bit_offset + 1;
        proof {
            let nb = byte_bits(self.buffer@);
            let ob = byte_bits(old_bytes);
            let off = self.bit_offset - 1;
            assert forall|k: int| 0 <= k < 8 * self.buffer@.len() implies nb[k] == (if k == off {
                bit == 1
            } else if k < 8 * old_bytes.len() {
                ob[k]
            } else {
                false
            }) by {
                let j = (k % 8) as u8;
                if k / 8 == byte_index && bit == 1 {
                    lemma_byte_or_bit(mid_bytes[byte_index as int], bit_index as u8, j);
                }
                if k / 8 == byte_index && byte_index >= old_bytes.len() {
                    assert((0u8 >> j) & 1u8 == 0u8) by (bit_vector);
                }
            }
            assert(self.bits() =~= old_bits.push(bit == 1));
        }
    }

    /// Append the `n` low bits of `bits`, least significant first.
    pub fn write_bits(&mut self, bits: u64, n: usize)
        requires
            old(self).wf(),
            n <= 64,
            old(self).bits().len() + n <= usize::MAX,
        ensures
            final(self).wf(),
            final(self).bits() == old(self).bits() + bits_le(bits, n as nat),
            final(self).prev() == old(self).prev(),
    {
        let mut i: usize = 0;
        while i < n
            invariant
                i <= n <= 64,
                self.wf(),
                old(self).bits().len() + n <= usize::MAX,
                self.bits() == old(self).bits() + bits_le(bits, i as nat),
                self.prev() == old(self).prev(),
            decreases n - i,
        {
            let b = ((bits >> (i as u64)) & 1u64) as u8;
            assert(((bits >> (i as u64)) & 1u64) as u8 == 1u8 <==> (bits >> (i as u64)) & 1u64
                == 1u64) by (bit_vector);
            self.write_bit(b);
            assert(bits_le(bits, (i + 1) as nat) =~= bits_le(bits, i as nat).push(
                bit_of(bits, i as int),
            ));
            assert(self.bits() =~= old(self).bits() + bits_le(bits, (i + 1) as nat));
            i = i + 1;
        }
    }

    /// Append the record of `value` and make it the previous value.
    pub fn compress(&mut self, value: u64) -> (r: std::result::Result<(), String>)
        requires
            old(self).wf(),
            old(self).bits().len() + 76 <= usize::MAX,
        ensures
            r is Ok,
            final(self).wf(),
            final(self).bits() == old(self).bits() + record_bits(old(self).prev(), value),
            final(self).prev() == value,
    {
        let xor = self.prev_value ^ value;
        if xor == 0 {
            self.write_bit(1);
            assert(old(self).bits().push(true) =~= old(self).bits() + seq![true]);
        } else {
            proof {
                lemma_zero_counts(xor);
            }
            self.write_bit(0);
            let lz = xor.leading_zeros();
            let tz = xor.trailing_zeros();
            let leading: u32 = if lz > 31 {
                31
            } else {
                lz
            };
            let meaningful: u32 = 64 - leading - tz;
            assert(leading as u64 == stored_leading_zeros(xor));
            assert(meaningful as u64 == meaningful_len(xor));
            self.write_bits(leading as u64, 5);
            self.write_bits((meaningful % 64) as u64, 6);
            let shifted = xor >> (tz as u64);
            self.write_bits(shifted, meaningful as usize);
            self.prev_leading_zeros = leading as u8;
            self.prev_trailing_zeros = tz as u8;
            assert(self.bits() =~= old(self).bits() + record_bits(old(self).prev(), value));
        }
        self.prev_value = value;
        Ok(())
    }

    /// The compressed bytes.
    pub fn finish(self) -> (r: Vec<u8>)
        requires
            self.wf(),
        ensures
            byte_bits(r@) == pad_to_byte(self.bits()),
    {
        let ghost n = self.bit_offset as int;
        let ghost bb = byte_bits(self.buffer@);
        assert(8 * ((n + 7) / 8) == n + (8 - n % 8) % 8) by (nonlinear_arith)
            requires
                n >= 0,
        ;
        assert(bb =~= pad_to_byte(self.bits())) by {
            assert forall|k: int| 0 <= k < bb.len() implies bb[k] == pad_to_byte(self.bits())[k] by {
                if k >= n {
                    assert(!bb[k]);
                }
            }
        }
        self.buffer
    }
}

/// Compress values (bit patterns of doubles) using the Gorilla algorithm
pub fn compress_gorilla(values: &[u64]) -> (r: Vec<u8>)
    requires
        76 * values@.len() + 8 <= usize::MAX,
    ensures
        byte_bits(r@) == pad_to_byte(gorilla_bits(values@)),
        r@ == gorilla_bytes(values@),
        gorilla_decode(r@) == Some(values@),
{
    let mut compressor = GorillaCompressor::new();
    let mut i: usize = 0;
    while i < values.len()
        invariant
            i <= values@.len(),
            76 * values@.len() + 8 <= usize::MAX,
            compressor.wf(),
            compressor.bits() == gorilla_bits(values@.take(i as int)),
            compressor.bits().len() <= 76 * i,
            compressor.prev() == last_or(0, values@.take(i as int)),
        decreases values@.len() - i,
    {
        let v = values[i];
        proof {
            lemma_encode_push(0, values@.take(i as int), v);
            lemma_record_len(compressor.prev(), v);
            assert(values@.take(i as int).push(v) =~= values@.take(i + 1));
        }
        let _ = compressor.compress(v);
        i = i + 1;
    }
    assert(values@.take(values@.len() as int) =~= values@);
    let r = compressor.finish();
    proof {
        lemma_gorilla_round_trip(r@, values@);
        let b = gorilla_bytes(values@);
        assert(byte_bits(b) == pad_to_byte(gorilla_bits(values@)));
        lemma_byte_bits_injective(b, r@);
    }
    r
}

/// A value read from `k < 64` bits has no bit at position `k` or above.
pub proof fn lemma_bits_value_bound(s: Seq<bool>)
    requires
        s.len() < 64,
    ensures
        bits_value(s) >> (s.len() as u64) == 0,
    decreases s.len(),
{
    if s.len() == 0 {
        assert(0u64 >> 0u64 == 0) by (bit_vector);
    } else {
        lemma_bits_value_bound(s.drop_last());
        let a = bits_value(s.drop_last());
        let b: u64 = if s.last() { 1 } else { 0 };
        let k = (s.len() - 1) as u64;
        let k1 = s.len() as u64;
        assert((a | (b << k)) >> k1 == 0) by (bit_vector)
            requires
                a >> k == 0,
                b <= 1,
                k < 63,
                k1 == k + 1,
        ;
    }
}

/// Gorilla decompressor
pub struct GorillaDecompressor<'a> {
    prev_value: u64,
    prev_leading_zeros: u8,
    prev_trailing_zeros: u8,
    data: &'a [u8],
    bit_offset: usize,
}

impl<'a> GorillaDecompressor<'a> {
    /// The bits of the compressed data.
    pub closed spec fn data_bits(&self) -> Seq<bool> {
        byte_bits(self.data@)
    }

    /// Position of the next bit to read.
    pub closed spec fn pos(&self) -> int {
        self.bit_offset as int
    }

    /// The last value decoded (0 before the first).
    pub closed spec fn prev(&self) -> u64 {
        self.prev_value
    }

    pub closed spec fn wf(&self) -> bool {
        &&& self.bit_offset <= 8 * self.data@.len()
        &&& 8 * self.data@.len() <= usize::MAX
    }

    pub fn new(data: &'a [u8]) -> (r: Self)
        requires
            8 * data@.len() <= usize::MAX,
        ensures
            r.wf(),
            r.data_bits() == byte_bits(data@),
            r.pos() == 0,
            r.prev() == 0,
    {
        GorillaDecompressor {
            prev_value: 0,
            prev_leading_zeros: 0,
            prev_trailing_zeros: 0,
            data,
            bit_offset: 0,
        }
    }

    /// Whether at least `n` bits are left to read.
    fn has_bits(&self, n: usize) -> (r: bool)
        requires
            self.wf(),
        ensures
            r == (self.data_bits().len() - self.pos() >= n),
    {
        let total = self.data.len() * 8;
        total - self.bit_offset >= n
    }

    /// Read one bit (0 or 1); an error when no bit is left.
    pub fn read_bit(&mut self) -> (r: std::result::Result<u8, String>)
        requires
            old(self).wf(),
        ensures
            final(self).wf(),
            final(self).data_bits() == old(self).data_bits(),
            final(self).prev() == old(self).prev(),
            old(self).pos() < old(self).data_bits().len() ==> {
                &&& r == Ok::<u8, String>(
                    if old(self).data_bits()[old(self).pos()] {
                        1u8
                    } else {
                        0u8
                    },
                )
                &&& final(self).pos() == old(self).pos() + 1
            },
            old(self).pos() >= old(self).data_bits().len() ==> (r matches Err(m) && m@
                == "unexpected EOF"@) && final(self).pos() == old(self).pos(),
    {
        let byte_index = self.bit_offset / 8;
        let bit_index = self.bit_offset % 8;
        if byte_index >= self.data.len() {
            proof {
                reveal_strlit("unexpected EOF");
            }
            return Err("unexpected EOF".to_owned());
        }
        let byte = self.data[byte_index];
        let bit = (byte >> (bit_index as u8)) & 1u8;
        assert(bit == 1u8 || bit == 0u8) by (bit_vector)
            requires
                bit == (byte >> (bit_index as u8)) & 1u8,
        ;
        self.bit_offset = self.bit_offset + 1;
        Ok(bit)
    }

    /// Read `n` bits, least significant first; an error when fewer are left.
    pub fn read_bits(&mut self, n: usize) -> (r: std::result::Result<u64, String>)
        requires
            old(self).wf(),
            n <= 64,
        ensures
            final(self).wf(),
            final(self).data_bits() == old(self).data_bits(),
            final(self).prev() == old(self).prev(),
            old(self).pos() + n <= old(self).data_bits().len() ==> {
                &&& r == Ok::<u64, String>(
                    bits_value(
                        old(self).data_bits().subrange(old(self).pos(), old(self).pos() + n),
                    ),
                )
                &&& final(self).pos() == old(self).pos() + n
            },
            old(self).pos() + n > old(self).data_bits().len() ==> (r matches Err(m) && m@
                == "unexpected EOF"@) && final(self).pos() == old(self).data_bits().len(),
    {
        let ghost start = self.pos();
        let ghost bits = self.data_bits();
        let mut result: u64 = 0;
        let mut i: usize = 0;
        while i < n
            invariant
                i <= n <= 64,
                self.wf(),
                self.data_bits() == bits,
                bits == old(self).data_bits(),
                start == old(self).pos(),
                old(self).pos() + n <= bits.len() ==> start + n <= bits.len(),
                self.prev() == old(self).prev(),
                self.pos() == start + i,
                start + i <= bits.len(),
                result == bits_value(bits.subrange(start, start + i)),
            decreases n - i,
        {
            let bit = self.read_bit()?;
            assert(bits.subrange(start, start + i + 1).drop_last() =~= bits.subrange(
                start,
                start + i,
            ));
            result = result | ((bit as u64) << (i as u64));
            i = i + 1;
        }
        Ok(result)
    }

    /// Decode the next value: `None` at the end of the stream, an error for a malformed
    /// record.
    pub fn decompress(&mut self) -> (r: std::result::Result<Option<u64>, String>)
        requires
            old(self).wf(),
        ensures
            final(self).wf(),
            final(self).data_bits() == old(self).data_bits(),
            match decode_step(old(self).data_bits(), old(self).pos(), old(self).prev()) {
                DecodeStep::End => r == Ok::<Option<u64>, String>(None) && final(self).pos()
                    == old(self).pos() && final(self).prev() == old(self).prev(),
                DecodeStep::Value(v, next) => r == Ok::<Option<u64>, String>(Some(v))
                    && final(self).pos() == next && final(self).prev() == v,
                DecodeStep::Malformed => r matches Err(m) && m@ == malformed_text(
                    old(self).data_bits(),
                    old(self).pos(),
                ),
            },
    {
        let ghost bits = self.data_bits();
        let ghost pos = self.pos();
        let start = self.bit_offset;
        if !self.has_bits(1) {
            return Ok(None);
        }
        let flag = self.read_bit()?;
        if flag == 1 {
            return Ok(Some(self.prev_value));
        }
        if !self.has_bits(11) {
            self.bit_offset = start;
            return Ok(None);
        }
        let leading = self.read_bits(5)?;
        let code = self.read_bits(6)?;
        let meaningful: u64 = if code == 0 {
            64
        } else {
            code
        };
        proof {
            lemma_bits_value_bound(bits.subrange(pos + 1, pos + 6));
            lemma_bits_value_bound(bits.subrange(pos + 6, pos + 12));
        }
        assert(leading < 32 && code < 64) by (bit_vector)
            requires
                leading >> 5u64 == 0,
                code >> 6u64 == 0,
        ;
        if leading + meaningful > 64 {
            proof {
                reveal_strlit("invalid record");
            }
            return Err("invalid record".to_owned());
        }
        let shifted = self.read_bits(meaningful as usize)?;
        let trailing = 64 - leading - meaningful;
        let xor = shifted << trailing;
        let value = self.prev_value ^ xor;
        self.prev_value = value;
        self.prev_leading_zeros = leading as u8;
        self.prev_trailing_zeros = trailing as u8;
        Ok(Some(value))
    }
}

/// Decompress values (bit patterns of doubles) compressed with the Gorilla algorithm
pub fn decompress_gorilla(data: &[u8]) -> (r: Vec<u64>)
    requires
        8 * data@.len() <= usize::MAX,
        gorilla_decode(data@) is Some,
    ensures
        Some(r@) == gorilla_decode(data@),
{
    let mut decompressor = GorillaDecompressor::new(data);
    let mut values: Vec<u64> = Vec::new();
    let ghost bits = byte_bits(data@);
    loop
        invariant
            decompressor.wf(),
            decompressor.data_bits() == bits,
            0 <= decompressor.pos() <= bits.len(),
            decode_from(bits, decompressor.pos(), decompressor.prev()) is Some,
            gorilla_decode(data@) == Some(
                values@ + decode_from(bits, decompressor.pos(), decompressor.prev()).unwrap(),
            ),
        decreases bits.len() - decompressor.pos(),
    {
        let ghost pos = decompressor.pos();
        let ghost prev = decompressor.prev();
        match decompressor.decompress() {
            Ok(Some(v)) => {
                proof {
                    let next = decompressor.pos();
                    assert(decode_step(bits, pos, prev) == DecodeStep::Value(v, next));
                    assert(pos < next);
                    assert(decode_from(bits, pos, prev) == Some(
                        seq![v] + decode_from(bits, next, v).unwrap(),
                    ));
                }
                values.push(v);
                assert(values@ + decode_from(bits, decompressor.pos(), v).unwrap() =~= values@.drop_last()
                    + (seq![v] + decode_from(bits, decompressor.pos(), v).unwrap()));
            },
            Ok(None) => {
                assert(values@ + Seq::<u64>::empty() =~= values@);
                return values;
            },
            Err(_) => {
                assert(false);
                return values;
            },
        }
    }
}

/// Decompress values, or `None` when the data holds a malformed record.
pub fn try_decompress_gorilla(data: &[u8]) -> (r: Option<Vec<u64>>)
    requires
        8 * data@.len() <= usize::MAX,
    ensures
        r is Some <==> gorilla_decode(data@) is Some,
        r matches Some(v) ==> gorilla_decode(data@) == Some(v@),
{
    let mut decompressor = GorillaDecompressor::new(data);
    let mut values: Vec<u64> = Vec::new();
    let ghost bits = byte_bits(data@);
    loop
        invariant
            decompressor.wf(),
            decompressor.data_bits() == bits,
            bits == byte_bits(data@),
            0 <= decompressor.pos() <= bits.len(),
            gorilla_decode(data@) == (match decode_from(bits, decompressor.pos(), decompressor.prev()) {
                Some(rest) => Some(values@ + rest),
                None => None,
            }),
        decreases bits.len() - decompressor.pos(),
    {
        let ghost pos = decompressor.pos();
        let ghost prev = decompressor.prev();
        match decompressor.decompress() {
            Ok(Some(v)) => {
                proof {
                    let next = decompressor.pos();
                    assert(decode_step(bits, pos, prev) == DecodeStep::Value(v, next));
                    assert(pos < next);
                    match decode_from(bits, next, v) {
                        Some(rest) => {
                            assert(values@.push(v) + rest =~= values@ + (seq![v] + rest));
                        },
                        None => {},
                    }
                }
                values.push(v);
            },
            Ok(None) => {
                assert(values@ + Seq::<u64>::empty() =~= values@);
                return Some(values);
            },
            Err(_) => {
                return None;
            },
        }
    }
}

/// Byte sequences with the same bits agree on each bit of each byte.
proof fn lemma_same_bit(a: Seq<u8>, b: Seq<u8>, i: int, j: u8)
    requires
        byte_bits(a) == byte_bits(b),
        a.len() == b.len(),
        0 <= i < a.len(),
        j < 8,
    ensures
        (a[i] >> j) & 1u8 == (b[i] >> j) & 1u8,
{
    let x = a[i];
    let y = b[i];
    assert((8 * i + j) / 8 == i);
    assert((8 * i + j) % 8 == j as int);
    let k = 8 * i + j;
    assert(0 <= k < 8 * a.len());
    assert(byte_bits(a)[k] == ((a[k / 8] >> ((k % 8) as u8)) & 1u8 == 1u8));
    assert(byte_bits(b)[k] == ((b[k / 8] >> ((k % 8) as u8)) & 1u8 == 1u8));
    assert(((k % 8) as u8) == j);
    assert(byte_bits(a)[k] == byte_bits(b)[k]);
    assert((x >> j) & 1u8 == 1u8 || (x >> j) & 1u8 == 0u8) by (bit_vector);
    assert((y >> j) & 1u8 == 1u8 || (y >> j) & 1u8 == 0u8) by (bit_vector);
}

/// Two byte sequences with the same bits are equal.
pub proof fn lemma_byte_bits_injective(a: Seq<u8>, b: Seq<u8>)
    requires
        byte_bits(a) == byte_bits(b),
    ensures
        a == b,
{
    assert(a.len() == b.len()) by {
        assert(byte_bits(a).len() == 8 * a.len());
        assert(byte_bits(b).len() == 8 * b.len());
    }
    assert forall|i: int| 0 <= i < a.len() implies a[i] == b[i] by {
        let x = a[i];
        let y = b[i];
        lemma_same_bit(a, b, i, 0);
        lemma_same_bit(a, b, i, 1);
        lemma_same_bit(a, b, i, 2);
        lemma_same_bit(a, b, i, 3);
        lemma_same_bit(a, b, i, 4);
        lemma_same_bit(a, b, i, 5);
        lemma_same_bit(a, b, i, 6);
        lemma_same_bit(a, b, i, 7);
        assert((x >> 0u8) & 1u8 == (y >> 0u8) & 1u8);
        assert((x >> 1u8) & 1u8 == (y >> 1u8) & 1u8);
        assert((x >> 2u8) & 1u8 == (y >> 2u8) & 1u8);
        assert((x >> 3u8) & 1u8 == (y >> 3u8) & 1u8);
        assert((x >> 4u8) & 1u8 == (y >> 4u8) & 1u8);
        assert((x >> 5u8) & 1u8 == (y >> 5u8) & 1u8);
        assert((x >> 6u8) & 1u8 == (y >> 6u8) & 1u8);
        assert((x >> 7u8) & 1u8 == (y >> 7u8) & 1u8);
        assert(x == y) by (bit_vector)
            requires
                (x >> 0u8) & 1u8 == (y >> 0u8) & 1u8,
                (x >> 1u8) & 1u8 == (y >> 1u8) & 1u8,
                (x >> 2u8) & 1u8 == (y >> 2u8) & 1u8,
                (x >> 3u8) & 1u8 == (y >> 3u8) & 1u8,
                (x >> 4u8) & 1u8 == (y >> 4u8) & 1u8,
                (x >> 5u8) & 1u8 == (y >> 5u8) & 1u8,
                (x >> 6u8) & 1u8 == (y >> 6u8) & 1u8,
                (x >> 7u8) & 1u8 == (y >> 7u8) & 1u8,
        ;
    }
    assert(a =~= b);
}


/// Bits written after any prefix read back, from the padded stream that `finish` turns
/// into bytes, as the low `n` bits of the written value, at the position after the
/// prefix.
pub proof fn lemma_write_read_bits(prefix: Seq<bool>, x: u64, n: nat)
    requires
        n <= 64,
    ensures
        pad_to_byte(prefix + bits_le(x, n)).subrange(prefix.len() as int, (prefix.len() + n) as int)
            == bits_le(x, n),
        bits_value(
            pad_to_byte(prefix + bits_le(x, n)).subrange(prefix.len() as int, (prefix.len() + n) as int),
        ) == low_bits(x, n as u64),
{
    let w = bits_le(x, n);
    let padded = pad_to_byte(prefix + w);
    assert(padded.subrange(prefix.len() as int, (prefix.len() + n) as int) =~= w);
    lemma_bits_value_prefix(x, n, n);
    assert(w.take(n as int) =~= w);
}

/// The record of `v` after `prev`: a single set bit when the two are equal; otherwise a
/// clear bit, then in 5 bits the leading zeros of their XOR capped at 31, then in 6 bits
/// the number of meaningful bits (64 minus those leading zeros and the trailing zeros;
/// 64 stored as 0), then the meaningful bits, which shifted back by the trailing zeros
/// give the XOR.
pub proof fn lemma_record_fields(prev: u64, v: u64)
    ensures
        prev ^ v == 0 ==> record_bits(prev, v) == seq![true],
        prev ^ v != 0 ==> ({
            let x = prev ^ v;
            let lz: int = if u64_leading_zeros(x) > 31 {
                31
            } else {
                u64_leading_zeros(x) as int
            };
            let m: int = 64 - lz - u64_trailing_zeros(x);
            let r = record_bits(prev, v);
            &&& 1 <= m <= 64
            &&& r.len() == 12 + m
            &&& !r[0]
            &&& bits_value(r.subrange(1, 6)) == lz
            &&& bits_value(r.subrange(6, 12)) == m % 64
            &&& bits_value(r.subrange(12, 12 + m)) << (u64_trailing_zeros(x) as u64) == x
        }),
{
    let x = prev ^ v;
    if x != 0 {
        lemma_zero_counts(x);
        let s = stored_leading_zeros(x);
        let m = meaningful_len(x);
        let tz = u64_trailing_zeros(x) as u64;
        let r = record_bits(prev, v);
        let a = bits_le(s, 5);
        let b = bits_le(m % 64, 6);
        let c = bits_le(x >> tz, m as nat);
        assert(r == seq![false] + a + b + c);
        assert(r.subrange(1, 6) =~= a);
        assert(r.subrange(6, 12) =~= b);
        assert(r.subrange(12, 12 + m) =~= c);
        assert(s >> 5u64 == 0) by (bit_vector)
            requires
                s <= 31,
        ;
        let mm = m % 64;
        assert(mm >> 6u64 == 0) by (bit_vector)
            requires
                mm < 64,
        ;
        lemma_bits_value_bits_le(s, 5);
        lemma_bits_value_bits_le(mm, 6);
        lemma_bits_value_bits_le(x >> tz, m as nat);
    }
}

/// The eight bits of a byte, least significant first.
pub open spec fn byte_from_bits(c0: bool, c1: bool, c2: bool, c3: bool, c4: bool, c5: bool, c6: bool, c7: bool) -> u8 {
    (if c0 { 1u8 } else { 0u8 }) | (if c1 { 2u8 } else { 0u8 }) | (if c2 { 4u8 } else { 0u8 }) | (if c3 {
        8u8
    } else {
        0u8
    }) | (if c4 { 16u8 } else { 0u8 }) | (if c5 { 32u8 } else { 0u8 }) | (if c6 { 64u8 } else { 0u8 })
        | (if c7 { 128u8 } else { 0u8 })
}

/// The bytes whose bits are `bits`, for a whole number of bytes.
pub open spec fn pack_bits(bits: Seq<bool>) -> Seq<u8> {
    Seq::new(
        bits.len() / 8,
        |i: int|
            byte_from_bits(
                bits[8 * i],
                bits[8 * i + 1],
                bits[8 * i + 2],
                bits[8 * i + 3],
                bits[8 * i + 4],
                bits[8 * i + 5],
                bits[8 * i + 6],
                bits[8 * i + 7],
            ),
    )
}

/// Each bit of a byte built from eight bits is the bit it was built from.
proof fn lemma_byte_from_bits(c0: bool, c1: bool, c2: bool, c3: bool, c4: bool, c5: bool, c6: bool, c7: bool)
    ensures
        ((byte_from_bits(c0, c1, c2, c3, c4, c5, c6, c7) >> 0u8) & 1u8 == 1u8) == c0,
        ((byte_from_bits(c0, c1, c2, c3, c4, c5, c6, c7) >> 1u8) & 1u8 == 1u8) == c1,
        ((byte_from_bits(c0, c1, c2, c3, c4, c5, c6, c7) >> 2u8) & 1u8 == 1u8) == c2,
        ((byte_from_bits(c0, c1, c2, c3, c4, c5, c6, c7) >> 3u8) & 1u8 == 1u8) == c3,
        ((byte_from_bits(c0, c1, c2, c3, c4, c5, c6, c7) >> 4u8) & 1u8 == 1u8) == c4,
        ((byte_from_bits(c0, c1, c2, c3, c4, c5, c6, c7) >> 5u8) & 1u8 == 1u8) == c5,
        ((byte_from_bits(c0, c1, c2, c3, c4, c5, c6, c7) >> 6u8) & 1u8 == 1u8) == c6,
        ((byte_from_bits(c0, c1, c2, c3, c4, c5, c6, c7) >> 7u8) & 1u8 == 1u8) == c7,
{
    let x = byte_from_bits(c0, c1, c2, c3, c4, c5, c6, c7);
    assert(((x >> 0u8) & 1u8 == 1u8) == c0 && ((x >> 1u8) & 1u8 == 1u8) == c1 && ((x >> 2u8) & 1u8
        == 1u8) == c2 && ((x >> 3u8) & 1u8 == 1u8) == c3 && ((x >> 4u8) & 1u8 == 1u8) == c4 && ((x
        >> 5u8) & 1u8 == 1u8) == c5 && ((x >> 6u8) & 1u8 == 1u8) == c6 && ((x >> 7u8) & 1u8 == 1u8)
        == c7) by (bit_vector)
        requires
            x == (if c0 { 1u8 } else { 0u8 }) | (if c1 { 2u8 } else { 0u8 }) | (if c2 { 4u8 } else { 0u8 })
                | (if c3 { 8u8 } else { 0u8 }) | (if c4 { 16u8 } else { 0u8 }) | (if c5 { 32u8 } else {
                0u8
            }) | (if c6 { 64u8 } else { 0u8 }) | (if c7 { 128u8 } else { 0u8 }),
    ;
}

/// The bytes packed from a whole number of bytes' worth of bits hold those bits.
pub proof fn lemma_pack_bits(bits: Seq<bool>)
    requires
        bits.len() % 8 == 0,
    ensures
        byte_bits(pack_bits(bits)) == bits,
        pack_bits(bits).len() == bits.len() / 8,
{
    let b = pack_bits(bits);
    assert forall|k: int| 0 <= k < bits.len() implies byte_bits(b)[k] == bits[k] by {
        let i = k / 8;
        let j = k % 8;
        assert(8 * i + j == k);
        assert(0 <= i < b.len());
        lemma_byte_from_bits(
            bits[8 * i],
            bits[8 * i + 1],
            bits[8 * i + 2],
            bits[8 * i + 3],
            bits[8 * i + 4],
            bits[8 * i + 5],
            bits[8 * i + 6],
            bits[8 * i + 7],
        );
        assert(byte_bits(b)[k] == ((b[i] >> (j as u8)) & 1u8 == 1u8));
        if j == 0 {} else if j == 1 {} else if j == 2 {} else if j == 3 {} else if j == 4 {} else if j == 5 {} else if j == 6 {} else {}
    }
    assert(byte_bits(b) =~= bits);
}

/// The compressed bytes of `vals` hold its padded bit stream, and decode to `vals`.
pub proof fn lemma_gorilla_bytes(vals: Seq<u64>)
    ensures
        byte_bits(gorilla_bytes(vals)) == pad_to_byte(gorilla_bits(vals)),
        8 * gorilla_bytes(vals).len() == pad_to_byte(gorilla_bits(vals)).len(),
        gorilla_decode(gorilla_bytes(vals)) == Some(vals),
{
    let p = pad_to_byte(gorilla_bits(vals));
    assert(p.len() % 8 == 0);
    lemma_pack_bits(p);
    assert(byte_bits(pack_bits(p)) == p);
    assert(byte_bits(gorilla_bytes(vals)) == p);
    assert(byte_bits(gorilla_bytes(vals)).len() == 8 * gorilla_bytes(vals).len());
    lemma_gorilla_round_trip(gorilla_bytes(vals), vals);
}

/// The compressed bytes of `vals`: the bytes whose bits are the padded bit stream.
pub open spec fn gorilla_bytes(vals: Seq<u64>) -> Seq<u8> {
    choose|b: Seq<u8>| byte_bits(b) == pad_to_byte(gorilla_bits(vals))
}

} // verus!
