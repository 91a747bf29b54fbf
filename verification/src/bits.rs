//! Bitstreams: byte buffers read and written as dense sequences of bits,
//! most significant bit of each byte first.
//!
//! The mathematical model of a bitstream is `Seq<bool>`. `bits_of` unfolds a
//! byte sequence into its bits and `pack` folds bits back into bytes, eight
//! at a time. `BitWriter` is the executable counterpart of `pack`.

use vstd::prelude::*;

verus! {

/// Bit `k` of `byte`, where `k == 0` names the most significant bit and
/// `k == 7` the least significant one.
pub open spec fn byte_bit(byte: u8, k: int) -> bool {
    (byte >> ((7 - k) as u8)) & 1u8 == 1u8
}

/// Bit `i` of the bitstream held in `bytes`: bit `i % 8` of byte `i / 8`.
pub open spec fn bit_at(bytes: Seq<u8>, i: int) -> bool {
    byte_bit(bytes[i / 8], i % 8)
}

/// The bitstream held in `bytes`, eight bits per byte.
pub open spec fn bits_of(bytes: Seq<u8>) -> Seq<bool> {
    Seq::new(8 * bytes.len(), |i: int| bit_at(bytes, i))
}

/// The contribution of one bit to a byte: `mask` when the bit is set.
pub open spec fn bit_weight(bit: bool, mask: u8) -> u8 {
    if bit {
        mask
    } else {
        0u8
    }
}

/// The byte whose bits, most significant first, are `b0` to `b7`.
pub open spec fn byte_of(
    b0: bool,
    b1: bool,
    b2: bool,
    b3: bool,
    b4: bool,
    b5: bool,
    b6: bool,
    b7: bool,
) -> u8 {
    bit_weight(b0, 0x80) | bit_weight(b1, 0x40) | bit_weight(b2, 0x20) | bit_weight(b3, 0x10)
        | bit_weight(b4, 0x08) | bit_weight(b5, 0x04) | bit_weight(b6, 0x02) | bit_weight(
        b7,
        0x01,
    )
}

/// Byte `j` of the packed form of `bits`: bits `8 * j` to `8 * j + 7`.
pub open spec fn packed_byte(bits: Seq<bool>, j: int) -> u8 {
    byte_of(
        bits[8 * j],
        bits[8 * j + 1],
        bits[8 * j + 2],
        bits[8 * j + 3],
        bits[8 * j + 4],
        bits[8 * j + 5],
        bits[8 * j + 6],
        bits[8 * j + 7],
    )
}

/// The bytes that `bits` fills: one for every eight bits. Bits at the end
/// that do not fill a byte are left out.
pub open spec fn pack(bits: Seq<bool>) -> Seq<u8> {
    Seq::new(bits.len() / 8, |j: int| packed_byte(bits, j))
}

/// Reading any bit of a byte built from eight bits gives that bit back.
pub proof fn lemma_byte_of_bits(
    b0: bool,
    b1: bool,
    b2: bool,
    b3: bool,
    b4: bool,
    b5: bool,
    b6: bool,
    b7: bool,
)
    ensures
        byte_bit(byte_of(b0, b1, b2, b3, b4, b5, b6, b7), 0) == b0,
        byte_bit(byte_of(b0, b1, b2, b3, b4, b5, b6, b7), 1) == b1,
        byte_bit(byte_of(b0, b1, b2, b3, b4, b5, b6, b7), 2) == b2,
        byte_bit(byte_of(b0, b1, b2, b3, b4, b5, b6, b7), 3) == b3,
        byte_bit(byte_of(b0, b1, b2, b3, b4, b5, b6, b7), 4) == b4,
        byte_bit(byte_of(b0, b1, b2, b3, b4, b5, b6, b7), 5) == b5,
        byte_bit(byte_of(b0, b1, b2, b3, b4, b5, b6, b7), 6) == b6,
        byte_bit(byte_of(b0, b1, b2, b3, b4, b5, b6, b7), 7) == b7,
{
    let x = byte_of(b0, b1, b2, b3, b4, b5, b6, b7);
    let w0 = bit_weight(b0, 0x80);
    let w1 = bit_weight(b1, 0x40);
    let w2 = bit_weight(b2, 0x20);
    let w3 = bit_weight(b3, 0x10);
    let w4 = bit_weight(b4, 0x08);
    let w5 = bit_weight(b5, 0x04);
    let w6 = bit_weight(b6, 0x02);
    let w7 = bit_weight(b7, 0x01);
    assert(((x >> 7u8) & 1u8 == 1u8) == b0 && ((x >> 6u8) & 1u8 == 1u8) == b1 && ((x >> 5u8) & 1u8
        == 1u8) == b2 && ((x >> 4u8) & 1u8 == 1u8) == b3 && ((x >> 3u8) & 1u8 == 1u8) == b4 && ((x
        >> 2u8) & 1u8 == 1u8) == b5 && ((x >> 1u8) & 1u8 == 1u8) == b6 && ((x >> 0u8) & 1u8 == 1u8)
        == b7) by (bit_vector)
        requires
            x == w0 | w1 | w2 | w3 | w4 | w5 | w6 | w7,
            w0 == if b0 { 0x80u8 } else { 0u8 },
            w1 == if b1 { 0x40u8 } else { 0u8 },
            w2 == if b2 { 0x20u8 } else { 0u8 },
            w3 == if b3 { 0x10u8 } else { 0u8 },
            w4 == if b4 { 0x08u8 } else { 0u8 },
            w5 == if b5 { 0x04u8 } else { 0u8 },
            w6 == if b6 { 0x02u8 } else { 0u8 },
            w7 == if b7 { 0x01u8 } else { 0u8 },
    ;
}

/// A byte is the byte built from its own eight bits.
pub proof fn lemma_byte_of_own_bits(x: u8)
    ensures
        byte_of(
            byte_bit(x, 0),
            byte_bit(x, 1),
            byte_bit(x, 2),
            byte_bit(x, 3),
            byte_bit(x, 4),
            byte_bit(x, 5),
            byte_bit(x, 6),
            byte_bit(x, 7),
        ) == x,
{
    assert(x == (if (x >> 7u8) & 1u8 == 1u8 { 0x80u8 } else { 0u8 }) | (if (x >> 6u8) & 1u8 == 1u8 {
        0x40u8
    } else {
        0u8
    }) | (if (x >> 5u8) & 1u8 == 1u8 { 0x20u8 } else { 0u8 }) | (if (x >> 4u8) & 1u8 == 1u8 {
        0x10u8
    } else {
        0u8
    }) | (if (x >> 3u8) & 1u8 == 1u8 { 0x08u8 } else { 0u8 }) | (if (x >> 2u8) & 1u8 == 1u8 {
        0x04u8
    } else {
        0u8
    }) | (if (x >> 1u8) & 1u8 == 1u8 { 0x02u8 } else { 0u8 }) | (if (x >> 0u8) & 1u8 == 1u8 {
        0x01u8
    } else {
        0u8
    })) by (bit_vector);
}

/// Bit `k` of byte `i` of a buffer is bit `8 * i + k` of its bitstream.
pub proof fn lemma_bits_of_index(bytes: Seq<u8>, i: int, k: int)
    requires
        0 <= i < bytes.len(),
        0 <= k < 8,
    ensures
        bits_of(bytes).len() == 8 * bytes.len(),
        bits_of(bytes)[8 * i + k] == byte_bit(bytes[i], k),
{
    assert((8 * i + k) / 8 == i);
    assert((8 * i + k) % 8 == k);
}

/// Appending a byte to a buffer appends its eight bits to the bitstream.
pub proof fn lemma_bits_of_push(bytes: Seq<u8>, byte: u8)
    ensures
        bits_of(bytes.push(byte)) == bits_of(bytes) + Seq::new(8, |k: int| byte_bit(byte, k)),
{
    let whole = bits_of(bytes.push(byte));
    let parts = bits_of(bytes) + Seq::new(8, |k: int| byte_bit(byte, k));
    assert forall|i: int| 0 <= i < whole.len() implies whole[i] == parts[i] by {
        if i < 8 * bytes.len() {
            assert(i / 8 < bytes.len());
        } else {
            assert(i / 8 == bytes.len());
            assert(i % 8 == i - 8 * bytes.len());
        }
    }
    assert(whole =~= parts);
}

/// Unfolding the packed form of a whole number of bytes' worth of bits gives
/// the bits back.
pub proof fn lemma_bits_of_pack(bits: Seq<bool>)
    requires
        bits.len() % 8 == 0,
    ensures
        bits_of(pack(bits)) == bits,
{
    let bytes = pack(bits);
    assert(bytes.len() == bits.len() / 8);
    assert forall|i: int| 0 <= i < bits.len() implies bit_at(bytes, i) == bits[i] by {
        let j = i / 8;
        lemma_byte_of_bits(
            bits[8 * j],
            bits[8 * j + 1],
            bits[8 * j + 2],
            bits[8 * j + 3],
            bits[8 * j + 4],
            bits[8 * j + 5],
            bits[8 * j + 6],
            bits[8 * j + 7],
        );
        assert(bytes[j] == packed_byte(bits, j));
        assert(i == 8 * j + i % 8);
    }
    assert(bits_of(bytes) =~= bits);
}

/// Packing the bits of a byte buffer gives the buffer back.
pub proof fn lemma_pack_bits_of(bytes: Seq<u8>)
    ensures
        pack(bits_of(bytes)) == bytes,
{
    let bits = bits_of(bytes);
    assert forall|j: int| 0 <= j < bytes.len() implies packed_byte(bits, j) == bytes[j] by {
        lemma_byte_of_own_bits(bytes[j]);
        assert forall|k: int| 0 <= k < 8 implies bits[8 * j + k] == byte_bit(bytes[j], k) by {
            assert((8 * j + k) / 8 == j);
            assert((8 * j + k) % 8 == k);
        }
    }
    assert(pack(bits) =~= bytes);
}

/// Reads bit `k` of `byte`, counted from the most significant bit.
pub fn read_bit(byte: u8, k: u8) -> (bit: bool)
    requires
        k < 8,
    ensures
        bit == byte_bit(byte, k as int),
{
    (byte >> (7 - k)) & 1 == 1
}

/// Sets bit `k` of `byte`, counted from the most significant bit, and leaves
/// the other seven as they are.
pub fn set_bit(byte: u8, k: u8) -> (out: u8)
    requires
        k < 8,
    ensures
        forall|j: int| 0 <= j < 8 ==> byte_bit(out, j) == (j == k || byte_bit(byte, j)),
{
    let out: u8 = byte | (1u8 << (7 - k));
    proof {
        let s: u8 = (7 - k) as u8;
        assert((((out >> 7u8) & 1u8 == 1u8) == (s == 7u8 || (byte >> 7u8) & 1u8 == 1u8)) && (((out
            >> 6u8) & 1u8 == 1u8) == (s == 6u8 || (byte >> 6u8) & 1u8 == 1u8)) && (((out >> 5u8)
            & 1u8 == 1u8) == (s == 5u8 || (byte >> 5u8) & 1u8 == 1u8)) && (((out >> 4u8) & 1u8
            == 1u8) == (s == 4u8 || (byte >> 4u8) & 1u8 == 1u8)) && (((out >> 3u8) & 1u8 == 1u8)
            == (s == 3u8 || (byte >> 3u8) & 1u8 == 1u8)) && (((out >> 2u8) & 1u8 == 1u8) == (s
            == 2u8 || (byte >> 2u8) & 1u8 == 1u8)) && (((out >> 1u8) & 1u8 == 1u8) == (s == 1u8
            || (byte >> 1u8) & 1u8 == 1u8)) && (((out >> 0u8) & 1u8 == 1u8) == (s == 0u8 || (byte
            >> 0u8) & 1u8 == 1u8))) by (bit_vector)
            requires
                s < 8u8,
                out == byte | (1u8 << s),
        ;
        assert forall|j: int| 0 <= j < 8 implies byte_bit(out, j) == (j == k || byte_bit(
            byte,
            j,
        )) by {
            if j == 0 {
            } else if j == 1 {
            } else if j == 2 {
            } else if j == 3 {
            } else if j == 4 {
            } else if j == 5 {
            } else if j == 6 {
            } else {
            }
        }
    }
    out
}

/// No bit of the zero byte is set.
pub proof fn lemma_zero_byte_bits()
    ensures
        forall|k: int| 0 <= k < 8 ==> !byte_bit(0u8, k),
{
    assert(((0u8 >> 7u8) & 1u8 == 0u8) && ((0u8 >> 6u8) & 1u8 == 0u8) && ((0u8 >> 5u8) & 1u8 == 0u8)
        && ((0u8 >> 4u8) & 1u8 == 0u8) && ((0u8 >> 3u8) & 1u8 == 0u8) && ((0u8 >> 2u8) & 1u8
        == 0u8) && ((0u8 >> 1u8) & 1u8 == 0u8) && ((0u8 >> 0u8) & 1u8 == 0u8)) by (bit_vector);
    assert forall|k: int| 0 <= k < 8 implies !byte_bit(0u8, k) by {
        if k == 0 {
        } else if k == 1 {
        } else if k == 2 {
        } else if k == 3 {
        } else if k == 4 {
        } else if k == 5 {
        } else if k == 6 {
        } else {
        }
    }
}

/// Collects bits, most significant bit of each byte first, into a byte
/// buffer.
pub struct BitWriter {
    bytes: Vec<u8>,
    current: u8,
    filled: u8,
}

impl View for BitWriter {
    type V = Seq<bool>;

    /// The bits written so far, in the order in which they were written.
    closed spec fn view(&self) -> Seq<bool> {
        bits_of(self.bytes@) + Seq::new(self.filled as nat, |k: int| byte_bit(self.current, k))
    }
}

impl BitWriter {
    /// The byte under construction holds fewer than eight bits, and the bits
    /// of it that were not written yet are zero.
    pub closed spec fn wf(&self) -> bool {
        &&& self.filled < 8
        &&& forall|k: int| self.filled <= k < 8 ==> !byte_bit(self.current, k)
    }

    /// A writer that holds no bits.
    pub fn new() -> (writer: BitWriter)
        ensures
            writer.wf(),
            writer@ == Seq::<bool>::empty(),
    {
        BitWriter::with_capacity(0)
    }

    /// A writer that holds no bits, with room for `bytes` bytes.
    pub fn with_capacity(bytes: usize) -> (writer: BitWriter)
        ensures
            writer.wf(),
            writer@ == Seq::<bool>::empty(),
    {
        proof {
            lemma_zero_byte_bits();
        }
        let writer = BitWriter { bytes: Vec::with_capacity(bytes), current: 0, filled: 0 };
        assert(writer@ =~= Seq::<bool>::empty());
        writer
    }

    /// Appends one bit.
    pub fn push(&mut self, bit: bool)
        requires
            old(self).wf(),
        ensures
            final(self).wf(),
            final(self)@ == old(self)@.push(bit),
    {
        let ghost before = self@;
        let ghost old_bytes = self.bytes@;
        let ghost old_current = self.current;
        let ghost old_filled = self.filled;
        if bit {
            self.current = set_bit(self.current, self.filled);
        }
        let ghost byte = self.current;
        assert(forall|k: int|
            0 <= k < 8 ==> byte_bit(byte, k) == ((k == old_filled && bit) || byte_bit(
                old_current,
                k,
            )));
        self.filled = self.filled + 1;
        if self.filled == 8 {
            self.bytes.push(self.current);
            self.current = 0;
            self.filled = 0;
            proof {
                lemma_zero_byte_bits();
                lemma_bits_of_push(old_bytes, byte);
                assert(self@ =~= before.push(bit));
            }
        } else {
            assert(self@ =~= before.push(bit));
        }
    }

    /// The bytes that the bits written fill. Bits written last that do not
    /// fill a byte are left out.
    pub fn into_bytes(self) -> (bytes: Vec<u8>)
        requires
            self.wf(),
        ensures
            bytes@ == pack(self@),
    {
        proof {
            let bits = self@;
            let whole = self.bytes@;
            assert(bits.len() == 8 * whole.len() + self.filled);
            assert forall|j: int| 0 <= j < whole.len() implies whole[j] == packed_byte(
                bits,
                j,
            ) by {
                lemma_byte_of_own_bits(whole[j]);
                assert forall|k: int| 0 <= k < 8 implies bits[8 * j + k] == byte_bit(
                    whole[j],
                    k,
                ) by {
                    assert((8 * j + k) / 8 == j);
                    assert((8 * j + k) % 8 == k);
                }
            }
            assert(whole =~= pack(bits));
        }
        self.bytes
    }
}

} // verus!
