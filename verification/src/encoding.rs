//! The line codecs: one capability interface, five codes behind it, and the
//! selector that maps a code's name to its codec.

use crate::bits::{
    bits_of, lemma_bits_of_index, lemma_bits_of_pack, lemma_pack_bits_of, pack, read_bit,
    BitWriter,
};
use crate::line::{
    cell_malformed, clock_ratio, decode_bits, encode_bits, first_malformed, is_first_malformed,
    lemma_decode_bits_step, lemma_decode_encode_bits, lemma_encode_bits_step,
    lemma_first_malformed_exists, lemma_first_malformed_unique, lemma_nrz_is_identity,
    level_after, level_before, well_formed,
};
use vstd::prelude::*;
use vstd::slice::slice_to_vec;

verus! {

/// The five supported line codes.
#[derive(Clone, Copy, Debug, PartialEq, Eq, Structural)]
pub enum EncodingType {
    NRZ,
    NRZI,
    FM0,
    FM1,
    Manchester,
}

/// A cell of a received stream breaks the rule of its code.
#[derive(Clone, Copy, Debug, PartialEq, Eq, Structural)]
pub struct DecodingError {
    /// The bit index, in the received stream, of the first symbol of the
    /// first malformed cell.
    pub position: usize,
}

/// The bytes that a code sends for the bytes `input`.
pub open spec fn encode_spec(kind: EncodingType, input: Seq<u8>) -> Seq<u8> {
    pack(encode_bits(kind, bits_of(input)))
}

/// What a receiver makes of the bytes `encoded`: the data bytes that their
/// cells fill where every cell is well formed, and else the place of the
/// first malformed cell. Every whole cell is read and checked; data bits at
/// the end that do not fill a byte are left out.
pub open spec fn decode_spec(kind: EncodingType, encoded: Seq<u8>) -> Result<
    Seq<u8>,
    DecodingError,
> {
    let symbols = bits_of(encoded);
    if well_formed(kind, symbols) {
        Ok(pack(decode_bits(kind, symbols)))
    } else {
        Err(
            DecodingError {
                position: (clock_ratio(kind) * first_malformed(kind, symbols)) as usize,
            },
        )
    }
}

/// The number of data bytes that `encoded_len` encoded bytes fill.
pub open spec fn decoded_len(kind: EncodingType, encoded_len: nat) -> nat {
    if clock_ratio(kind) == 1 {
        encoded_len
    } else {
        encoded_len / 2
    }
}

/// Every bit index that a decoder of this code may report fits in `usize`.
/// Only FM1 and Manchester report one.
pub open spec fn positions_fit(kind: EncodingType, encoded: Seq<u8>) -> bool {
    kind == EncodingType::FM1 || kind == EncodingType::Manchester ==> 8 * encoded.len()
        <= usize::MAX
}

/// A line codec: encoding, decoding, and the clock ratio of one line code.
pub trait Encoding {
    /// The line code that this codec implements.
    spec fn kind(&self) -> EncodingType;

    /// The number of line symbols sent for each data bit.
    fn get_clock_ratio(&self) -> (ratio: u32)
        ensures
            ratio == clock_ratio(self.kind()),
    ;

    /// Encodes `input`, starting with the line at HIGH. The result holds
    /// `clock_ratio` bytes for each byte of `input`; NRZ gives `input` back.
    fn encode(&self, input: &[u8]) -> (encoded: Vec<u8>)
        ensures
            encoded@ == encode_spec(self.kind(), input@),
            encoded@.len() == clock_ratio(self.kind()) * input@.len(),
            self.kind() == EncodingType::NRZ ==> encoded@ == input@,
    ;

    /// Decodes `encoded`, starting with the line at HIGH. Fails where a
    /// cell is malformed, with the place of the first such cell, and only
    /// there: NRZ, NRZI and FM0 never fail, and NRZ gives `encoded` back.
    fn decode(&self, encoded: &[u8]) -> (result: Result<Vec<u8>, DecodingError>)
        requires
            positions_fit(self.kind(), encoded@),
        ensures
            match result {
                Ok(decoded) => decode_spec(self.kind(), encoded@) == Ok::<Seq<u8>, DecodingError>(
                    decoded@,
                ) && decoded@.len() == decoded_len(self.kind(), encoded@.len()),
                Err(error) => decode_spec(self.kind(), encoded@) == Err::<Seq<u8>, DecodingError>(
                    error,
                ),
            },
            result is Err ==> self.kind() == EncodingType::FM1 || self.kind()
                == EncodingType::Manchester,
            self.kind() == EncodingType::NRZ ==> result is Ok && result->Ok_0@ == encoded@,
    ;
}

/// NRZ: the data bits are the line symbols.
#[derive(Clone, Copy, Debug)]
pub struct NRZEncoding;

impl Encoding for NRZEncoding {
    open spec fn kind(&self) -> EncodingType {
        EncodingType::NRZ
    }

    fn get_clock_ratio(&self) -> (ratio: u32) {
        1
    }

    fn encode(&self, input: &[u8]) -> (encoded: Vec<u8>) {
        proof {
            lemma_nrz_unchanged(input@);
        }
        let encoded = slice_to_vec(input);
        assert(encoded@.len() == 1 * input@.len());
        encoded
    }

    fn decode(&self, encoded: &[u8]) -> (result: Result<Vec<u8>, DecodingError>) {
        proof {
            lemma_nrz_unchanged(encoded@);
        }
        Ok(slice_to_vec(encoded))
    }
}

/// NRZI: a one bit toggles the line, a zero bit leaves it.
#[derive(Clone, Copy, Debug)]
pub struct NRZIEncoding;

impl Encoding for NRZIEncoding {
    open spec fn kind(&self) -> EncodingType {
        EncodingType::NRZI
    }

    fn get_clock_ratio(&self) -> (ratio: u32) {
        1
    }

    fn encode(&self, input: &[u8]) -> (encoded: Vec<u8>) {
        let ghost bits = bits_of(input@);
        let ghost symbols = encode_bits(EncodingType::NRZI, bits);
        let mut writer = BitWriter::with_capacity(input.len());
        let mut last_state = true;
        let mut i: usize = 0;
        assert(writer@ =~= symbols.take(0));
        while i < input.len()
            invariant
                i <= input.len(),
                bits == bits_of(input@),
                symbols == encode_bits(EncodingType::NRZI, bits),
                writer.wf(),
                writer@ == symbols.take(8 * i),
                last_state == level_after(EncodingType::NRZI, bits, 8 * i),
            decreases input.len() - i,
        {
            let byte: u8 = input[i];
            let mut k: u8 = 0;
            while k < 8
                invariant
                    k <= 8,
                    i < input.len(),
                    byte == input@[i as int],
                    bits == bits_of(input@),
                    symbols == encode_bits(EncodingType::NRZI, bits),
                    writer.wf(),
                    writer@ == symbols.take(8 * i + k),
                    last_state == level_after(EncodingType::NRZI, bits, 8 * i + k),
                decreases 8 - k,
            {
                let data_bit = read_bit(byte, k);
                proof {
                    lemma_bits_of_index(input@, i as int, k as int);
                    lemma_encode_bits_step(EncodingType::NRZI, bits, 8 * i + k);
                }
                if data_bit {
                    last_state = !last_state;
                }
                writer.push(last_state);
                k += 1;
            }
            i += 1;
        }
        assert(symbols.take(8 * i) =~= symbols);
        let encoded = writer.into_bytes();
        assert(encoded@.len() == 1 * input@.len());
        encoded
    }

    fn decode(&self, encoded: &[u8]) -> (result: Result<Vec<u8>, DecodingError>) {
        let ghost symbols = bits_of(encoded@);
        let ghost decoded = decode_bits(EncodingType::NRZI, symbols);
        let mut writer = BitWriter::with_capacity(encoded.len());
        let mut last_state = true;
        let mut i: usize = 0;
        assert(writer@ =~= decoded.take(0));
        while i < encoded.len()
            invariant
                i <= encoded.len(),
                symbols == bits_of(encoded@),
                decoded == decode_bits(EncodingType::NRZI, symbols),
                writer.wf(),
                writer@ == decoded.take(8 * i),
                last_state == level_before(EncodingType::NRZI, symbols, 8 * i),
            decreases encoded.len() - i,
        {
            let byte: u8 = encoded[i];
            let mut k: u8 = 0;
            while k < 8
                invariant
                    k <= 8,
                    i < encoded.len(),
                    byte == encoded@[i as int],
                    symbols == bits_of(encoded@),
                    decoded == decode_bits(EncodingType::NRZI, symbols),
                    writer.wf(),
                    writer@ == decoded.take(8 * i + k),
                    last_state == level_before(EncodingType::NRZI, symbols, 8 * i + k),
                decreases 8 - k,
            {
                let current_state = read_bit(byte, k);
                proof {
                    lemma_bits_of_index(encoded@, i as int, k as int);
                    lemma_decode_bits_step(EncodingType::NRZI, symbols, 8 * i + k);
                }
                writer.push(current_state != last_state);
                last_state = current_state;
                k += 1;
            }
            i += 1;
        }
        assert(decoded.take(8 * i) =~= decoded);
        Ok(writer.into_bytes())
    }
}

/// FM0, bi-phase space: two symbols for each data bit.
#[derive(Clone, Copy, Debug)]
pub struct FM0Encoding;

impl Encoding for FM0Encoding {
    open spec fn kind(&self) -> EncodingType {
        EncodingType::FM0
    }

    fn get_clock_ratio(&self) -> (ratio: u32) {
        2
    }

    fn encode(&self, input: &[u8]) -> (encoded: Vec<u8>) {
        let ghost bits = bits_of(input@);
        let ghost symbols = encode_bits(EncodingType::FM0, bits);
        let mut writer = BitWriter::with_capacity(input.len().saturating_add(input.len()));
        let mut last_state = true;
        let mut i: usize = 0;
        assert(writer@ =~= symbols.take(0));
        while i < input.len()
            invariant
                i <= input.len(),
                bits == bits_of(input@),
                symbols == encode_bits(EncodingType::FM0, bits),
                writer.wf(),
                writer@ == symbols.take(16 * i),
                last_state == level_after(EncodingType::FM0, bits, 8 * i),
            decreases input.len() - i,
        {
            let byte: u8 = input[i];
            let mut k: u8 = 0;
            while k < 8
                invariant
                    k <= 8,
                    i < input.len(),
                    byte == input@[i as int],
                    bits == bits_of(input@),
                    symbols == encode_bits(EncodingType::FM0, bits),
                    writer.wf(),
                    writer@ == symbols.take(2 * (8 * i + k)),
                    last_state == level_after(EncodingType::FM0, bits, 8 * i + k),
                decreases 8 - k,
            {
                let bit = read_bit(byte, k);
                proof {
                    lemma_bits_of_index(input@, i as int, k as int);
                    lemma_encode_bits_step(EncodingType::FM0, bits, 8 * i + k);
                }
                if bit {
                    writer.push(!last_state);
                    writer.push(last_state);
                } else {
                    last_state = !last_state;
                    writer.push(last_state);
                    writer.push(last_state);
                }
                k += 1;
            }
            i += 1;
        }
        assert(symbols.take(16 * i) =~= symbols);
        let encoded = writer.into_bytes();
        assert(encoded@.len() == 2 * input@.len());
        encoded
    }

    fn decode(&self, encoded: &[u8]) -> (result: Result<Vec<u8>, DecodingError>) {
        let ghost symbols = bits_of(encoded@);
        let ghost decoded = decode_bits(EncodingType::FM0, symbols);
        let mut writer = BitWriter::with_capacity(encoded.len() / 2);
        let mut i: usize = 0;
        assert(writer@ =~= decoded.take(0));
        while i < encoded.len()
            invariant
                i <= encoded.len(),
                symbols == bits_of(encoded@),
                decoded == decode_bits(EncodingType::FM0, symbols),
                writer.wf(),
                writer@ == decoded.take(4 * i),
            decreases encoded.len() - i,
        {
            let byte: u8 = encoded[i];
            let mut q: u8 = 0;
            while q < 4
                invariant
                    q <= 4,
                    i < encoded.len(),
                    byte == encoded@[i as int],
                    symbols == bits_of(encoded@),
                    decoded == decode_bits(EncodingType::FM0, symbols),
                    writer.wf(),
                    writer@ == decoded.take(4 * i + q),
                decreases 4 - q,
            {
                let first_bit = read_bit(byte, 2 * q);
                let second_bit = read_bit(byte, 2 * q + 1);
                proof {
                    lemma_bits_of_index(encoded@, i as int, 2 * q);
                    lemma_bits_of_index(encoded@, i as int, 2 * q + 1);
                    lemma_decode_bits_step(EncodingType::FM0, symbols, 4 * i + q);
                }
                writer.push(first_bit != second_bit);
                q += 1;
            }
            i += 1;
        }
        assert(decoded.take(4 * i) =~= decoded);
        Ok(writer.into_bytes())
    }
}

/// FM1, bi-phase mark: two symbols for each data bit.
#[derive(Clone, Copy, Debug)]
pub struct FM1Encoding;

impl Encoding for FM1Encoding {
    open spec fn kind(&self) -> EncodingType {
        EncodingType::FM1
    }

    fn get_clock_ratio(&self) -> (ratio: u32) {
        2
    }

    fn encode(&self, input: &[u8]) -> (encoded: Vec<u8>) {
        let ghost bits = bits_of(input@);
        let ghost symbols = encode_bits(EncodingType::FM1, bits);
        let mut writer = BitWriter::with_capacity(input.len().saturating_add(input.len()));
        let mut last_state = true;
        let mut i: usize = 0;
        assert(writer@ =~= symbols.take(0));
        while i < input.len()
            invariant
                i <= input.len(),
                bits == bits_of(input@),
                symbols == encode_bits(EncodingType::FM1, bits),
                writer.wf(),
                writer@ == symbols.take(16 * i),
                last_state == level_after(EncodingType::FM1, bits, 8 * i),
            decreases input.len() - i,
        {
            let byte: u8 = input[i];
            let mut k: u8 = 0;
            while k < 8
                invariant
                    k <= 8,
                    i < input.len(),
                    byte == input@[i as int],
                    bits == bits_of(input@),
                    symbols == encode_bits(EncodingType::FM1, bits),
                    writer.wf(),
                    writer@ == symbols.take(2 * (8 * i + k)),
                    last_state == level_after(EncodingType::FM1, bits, 8 * i + k),
                decreases 8 - k,
            {
                let bit = read_bit(byte, k);
                proof {
                    lemma_bits_of_index(input@, i as int, k as int);
                    lemma_encode_bits_step(EncodingType::FM1, bits, 8 * i + k);
                }
                if bit {
                    last_state = !last_state;
                }
                writer.push(last_state);
                writer.push(last_state);
                k += 1;
            }
            i += 1;
        }
        assert(symbols.take(16 * i) =~= symbols);
        let encoded = writer.into_bytes();
        assert(encoded@.len() == 2 * input@.len());
        encoded
    }

    fn decode(&self, encoded: &[u8]) -> (result: Result<Vec<u8>, DecodingError>) {
        let ghost symbols = bits_of(encoded@);
        let ghost decoded = decode_bits(EncodingType::FM1, symbols);
        let mut writer = BitWriter::with_capacity(encoded.len() / 2);
        let mut last_state = true;
        let mut i: usize = 0;
        assert(writer@ =~= decoded.take(0));
        while i < encoded.len()
            invariant
                i <= encoded.len(),
                8 * encoded.len() <= usize::MAX,
                symbols == bits_of(encoded@),
                decoded == decode_bits(EncodingType::FM1, symbols),
                writer.wf(),
                writer@ == decoded.take(4 * i),
                last_state == level_before(EncodingType::FM1, symbols, 4 * i),
                forall|b: int| 0 <= b < 4 * i ==> !cell_malformed(EncodingType::FM1, symbols, b),
            decreases encoded.len() - i,
        {
            let byte: u8 = encoded[i];
            let mut q: u8 = 0;
            while q < 4
                invariant
                    q <= 4,
                    i < encoded.len(),
                    8 * encoded.len() <= usize::MAX,
                    byte == encoded@[i as int],
                    symbols == bits_of(encoded@),
                    decoded == decode_bits(EncodingType::FM1, symbols),
                    writer.wf(),
                    writer@ == decoded.take(4 * i + q),
                    last_state == level_before(EncodingType::FM1, symbols, 4 * i + q),
                    forall|b: int|
                        0 <= b < 4 * i + q ==> !cell_malformed(EncodingType::FM1, symbols, b),
                decreases 4 - q,
            {
                let first_bit = read_bit(byte, 2 * q);
                let second_bit = read_bit(byte, 2 * q + 1);
                proof {
                    lemma_bits_of_index(encoded@, i as int, 2 * q);
                    lemma_bits_of_index(encoded@, i as int, 2 * q + 1);
                    lemma_decode_bits_step(EncodingType::FM1, symbols, 4 * i + q);
                }
                if first_bit != second_bit {
                    proof {
                        lemma_first_malformed_unique(EncodingType::FM1, symbols, 4 * i + q);
                    }
                    return Err(DecodingError { position: 8 * i + 2 * (q as usize) });
                } else if first_bit != last_state {
                    writer.push(true);
                } else {
                    writer.push(false);
                }
                last_state = second_bit;
                q += 1;
            }
            i += 1;
        }
        assert(decoded.take(4 * i) =~= decoded);
        Ok(writer.into_bytes())
    }
}

/// Manchester: LOW then HIGH for a one bit, HIGH then LOW for a zero bit.
#[derive(Clone, Copy, Debug)]
pub struct ManchesterEncoding;

impl Encoding for ManchesterEncoding {
    open spec fn kind(&self) -> EncodingType {
        EncodingType::Manchester
    }

    fn get_clock_ratio(&self) -> (ratio: u32) {
        2
    }

    fn encode(&self, input: &[u8]) -> (encoded: Vec<u8>) {
        let ghost bits = bits_of(input@);
        let ghost symbols = encode_bits(EncodingType::Manchester, bits);
        let mut writer = BitWriter::with_capacity(input.len().saturating_add(input.len()));
        let mut i: usize = 0;
        assert(writer@ =~= symbols.take(0));
        while i < input.len()
            invariant
                i <= input.len(),
                bits == bits_of(input@),
                symbols == encode_bits(EncodingType::Manchester, bits),
                writer.wf(),
                writer@ == symbols.take(16 * i),
            decreases input.len() - i,
        {
            let byte: u8 = input[i];
            let mut k: u8 = 0;
            while k < 8
                invariant
                    k <= 8,
                    i < input.len(),
                    byte == input@[i as int],
                    bits == bits_of(input@),
                    symbols == encode_bits(EncodingType::Manchester, bits),
                    writer.wf(),
                    writer@ == symbols.take(2 * (8 * i + k)),
                decreases 8 - k,
            {
                let bit = read_bit(byte, k);
                proof {
                    lemma_bits_of_index(input@, i as int, k as int);
                    lemma_encode_bits_step(EncodingType::Manchester, bits, 8 * i + k);
                }
                if bit {
                    writer.push(false);
                    writer.push(true);
                } else {
                    writer.push(true);
                    writer.push(false);
                }
                k += 1;
            }
            i += 1;
        }
        assert(symbols.take(16 * i) =~= symbols);
        let encoded = writer.into_bytes();
        assert(encoded@.len() == 2 * input@.len());
        encoded
    }

    fn decode(&self, encoded: &[u8]) -> (result: Result<Vec<u8>, DecodingError>) {
        let ghost symbols = bits_of(encoded@);
        let ghost decoded = decode_bits(EncodingType::Manchester, symbols);
        let mut writer = BitWriter::with_capacity(encoded.len() / 2);
        let mut i: usize = 0;
        assert(writer@ =~= decoded.take(0));
        while i < encoded.len()
            invariant
                i <= encoded.len(),
                8 * encoded.len() <= usize::MAX,
                symbols == bits_of(encoded@),
                decoded == decode_bits(EncodingType::Manchester, symbols),
                writer.wf(),
                writer@ == decoded.take(4 * i),
                forall|b: int|
                    0 <= b < 4 * i ==> !cell_malformed(EncodingType::Manchester, symbols, b),
            decreases encoded.len() - i,
        {
            let byte: u8 = encoded[i];
            let mut q: u8 = 0;
            while q < 4
                invariant
                    q <= 4,
                    i < encoded.len(),
                    8 * encoded.len() <= usize::MAX,
                    byte == encoded@[i as int],
                    symbols == bits_of(encoded@),
                    decoded == decode_bits(EncodingType::Manchester, symbols),
                    writer.wf(),
                    writer@ == decoded.take(4 * i + q),
                    forall|b: int|
                        0 <= b < 4 * i + q ==> !cell_malformed(
                            EncodingType::Manchester,
                            symbols,
                            b,
                        ),
                decreases 4 - q,
            {
                let first_bit = read_bit(byte, 2 * q);
                let second_bit = read_bit(byte, 2 * q + 1);
                proof {
                    lemma_bits_of_index(encoded@, i as int, 2 * q);
                    lemma_bits_of_index(encoded@, i as int, 2 * q + 1);
                    lemma_decode_bits_step(EncodingType::Manchester, symbols, 4 * i + q);
                }
                if !first_bit && second_bit {
                    writer.push(true);
                } else if first_bit && !second_bit {
                    writer.push(false);
                } else {
                    proof {
                        lemma_first_malformed_unique(
                            EncodingType::Manchester,
                            symbols,
                            4 * i + q,
                        );
                    }
                    return Err(DecodingError { position: 8 * i + 2 * (q as usize) });
                }
                q += 1;
            }
            i += 1;
        }
        assert(decoded.take(4 * i) =~= decoded);
        Ok(writer.into_bytes())
    }
}

/// A codec of any one of the five line codes.
#[derive(Clone, Copy, Debug)]
pub enum Codec {
    NRZ(NRZEncoding),
    NRZI(NRZIEncoding),
    FM0(FM0Encoding),
    FM1(FM1Encoding),
    Manchester(ManchesterEncoding),
}

impl Encoding for Codec {
    open spec fn kind(&self) -> EncodingType {
        match self {
            Codec::NRZ(codec) => codec.kind(),
            Codec::NRZI(codec) => codec.kind(),
            Codec::FM0(codec) => codec.kind(),
            Codec::FM1(codec) => codec.kind(),
            Codec::Manchester(codec) => codec.kind(),
        }
    }

    fn get_clock_ratio(&self) -> (ratio: u32) {
        match self {
            Codec::NRZ(codec) => codec.get_clock_ratio(),
            Codec::NRZI(codec) => codec.get_clock_ratio(),
            Codec::FM0(codec) => codec.get_clock_ratio(),
            Codec::FM1(codec) => codec.get_clock_ratio(),
            Codec::Manchester(codec) => codec.get_clock_ratio(),
        }
    }

    fn encode(&self, input: &[u8]) -> (encoded: Vec<u8>) {
        match self {
            Codec::NRZ(codec) => codec.encode(input),
            Codec::NRZI(codec) => codec.encode(input),
            Codec::FM0(codec) => codec.encode(input),
            Codec::FM1(codec) => codec.encode(input),
            Codec::Manchester(codec) => codec.encode(input),
        }
    }

    fn decode(&self, encoded: &[u8]) -> (result: Result<Vec<u8>, DecodingError>) {
        match self {
            Codec::NRZ(codec) => codec.decode(encoded),
            Codec::NRZI(codec) => codec.decode(encoded),
            Codec::FM0(codec) => codec.decode(encoded),
            Codec::FM1(codec) => codec.decode(encoded),
            Codec::Manchester(codec) => codec.decode(encoded),
        }
    }
}

impl EncodingType {
    /// The codec of this line code.
    pub fn get_encoder(&self) -> (encoder: Codec)
        ensures
            encoder.kind() == *self,
    {
        match self {
            EncodingType::NRZ => Codec::NRZ(NRZEncoding),
            EncodingType::NRZI => Codec::NRZI(NRZIEncoding),
            EncodingType::FM0 => Codec::FM0(FM0Encoding),
            EncodingType::FM1 => Codec::FM1(FM1Encoding),
            EncodingType::Manchester => Codec::Manchester(ManchesterEncoding),
        }
    }
}

/// NRZ leaves every byte sequence as it is, in both directions.
pub proof fn lemma_nrz_unchanged(bytes: Seq<u8>)
    ensures
        encode_spec(EncodingType::NRZ, bytes) == bytes,
        decode_spec(EncodingType::NRZ, bytes) == Ok::<Seq<u8>, DecodingError>(bytes),
{
    lemma_nrz_is_identity(bits_of(bytes));
    lemma_pack_bits_of(bytes);
}

/// Round trip: for every code and every byte sequence, decoding what was
/// encoded gives the byte sequence back.
pub proof fn lemma_round_trip(kind: EncodingType, input: Seq<u8>)
    ensures
        decode_spec(kind, encode_spec(kind, input)) == Ok::<Seq<u8>, DecodingError>(input),
{
    let bits = bits_of(input);
    let symbols = encode_bits(kind, bits);
    lemma_decode_encode_bits(kind, bits);
    assert(symbols.len() % 8 == 0) by {
        assert(symbols.len() == clock_ratio(kind) * (8 * input.len()));
    }
    lemma_bits_of_pack(symbols);
    lemma_pack_bits_of(input);
}

/// Length: a code with clock ratio 1 sends as many bytes as it is given, a
/// code with clock ratio 2 twice as many, which is `ceil(2 * 8 * n / 8)` for
/// `n` bytes given.
pub proof fn lemma_encoded_len(kind: EncodingType, input: Seq<u8>)
    ensures
        encode_spec(kind, input).len() == clock_ratio(kind) * input.len(),
        clock_ratio(kind) == 1 ==> encode_spec(kind, input).len() == input.len(),
        clock_ratio(kind) == 2 ==> encode_spec(kind, input).len() == (2 * 8 * input.len() + 7) / 8,
{
    let symbols = encode_bits(kind, bits_of(input));
    if clock_ratio(kind) == 1 {
        assert(symbols.len() == 8 * input.len());
    } else {
        assert(symbols.len() == 16 * input.len());
    }
}

/// A stream with a malformed cell is rejected, at the first such cell: the
/// position reported is the bit index of that cell's first symbol.
pub proof fn lemma_malformed_rejected(kind: EncodingType, encoded: Seq<u8>, c: int)
    requires
        cell_malformed(kind, bits_of(encoded), c),
        8 * encoded.len() <= usize::MAX,
    ensures
        decode_spec(kind, encoded) is Err,
        is_first_malformed(
            kind,
            bits_of(encoded),
            first_malformed(kind, bits_of(encoded)),
        ),
        decode_spec(kind, encoded)->Err_0.position == 2 * first_malformed(
            kind,
            bits_of(encoded),
        ),
        first_malformed(kind, bits_of(encoded)) <= c,
{
    let symbols = bits_of(encoded);
    lemma_first_malformed_exists(kind, symbols, c);
    let first = first_malformed(kind, symbols);
    if c < first {
        assert(!cell_malformed(kind, symbols, c));
    }
}

/// The decoders of NRZ, NRZI and FM0 accept every byte sequence.
pub proof fn lemma_total_decoders(kind: EncodingType, encoded: Seq<u8>)
    requires
        kind == EncodingType::NRZ || kind == EncodingType::NRZI || kind == EncodingType::FM0,
    ensures
        decode_spec(kind, encoded) is Ok,
{
}

} // verus!
