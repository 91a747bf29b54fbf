//! What an RS485 link needs of the line codecs: the clock rate to ask of the
//! bridge, the write packet that carries encoded bytes, the size of the
//! receive buffer, and what to make of a buffer that was read.

use crate::encoding::{
    decode_spec, encode_spec, positions_fit, DecodingError, Encoding, EncodingType,
};
use crate::line::clock_ratio;
use vstd::prelude::*;

verus! {

/// The lowest clock rate that the bridge supports, in Hz.
pub const MIN_CLOCK_RATE: u32 = 300;

/// The highest clock rate that the bridge supports, in Hz.
pub const MAX_CLOCK_RATE: u32 = 12_000_000;

/// The command byte that starts a write packet.
pub const WRITE_COMMAND: u8 = 0x19;

/// Why the link could not be set up or a reception could not be used.
#[derive(Clone, Copy, Debug, PartialEq, Eq, Structural)]
pub enum Rs485Error {
    /// The clock rate that the line code needs is outside the supported
    /// range.
    BaudRateOutOfRange,
    /// The bridge returned no bytes.
    NoData,
    /// The bytes received are no valid stream of the line code.
    InvalidData(DecodingError),
}

/// The write packet for `payload`: the command byte, the payload's length
/// less one as 16 bits, low byte first, and the payload.
pub open spec fn write_packet_spec(payload: Seq<u8>) -> Seq<u8> {
    seq![
        WRITE_COMMAND,
        ((payload.len() - 1) % 256) as u8,
        ((payload.len() - 1) / 256 % 256) as u8,
    ] + payload
}

/// The clock rate that carries `target_baud_rate` data bits per second in
/// the given line code: the data rate times the code's clock ratio. The
/// rate is refused when it lies outside the supported range.
pub fn adjusted_baud_rate(target_baud_rate: u32, encoding_type: EncodingType) -> (result: Result<
    u32,
    Rs485Error,
>)
    ensures
        match result {
            Ok(rate) => rate == target_baud_rate * clock_ratio(encoding_type) && MIN_CLOCK_RATE
                <= rate <= MAX_CLOCK_RATE,
            Err(error) => error == Rs485Error::BaudRateOutOfRange && !(MIN_CLOCK_RATE
                <= target_baud_rate * clock_ratio(encoding_type) <= MAX_CLOCK_RATE),
        },
{
    let ratio: u32 = encoding_type.get_encoder().get_clock_ratio();
    assert(target_baud_rate * ratio <= 2 * u32::MAX) by (nonlinear_arith)
        requires
            1 <= ratio <= 2,
            target_baud_rate <= u32::MAX,
    ;
    let rate: u64 = target_baud_rate as u64 * ratio as u64;
    if rate < MIN_CLOCK_RATE as u64 || rate > MAX_CLOCK_RATE as u64 {
        Err(Rs485Error::BaudRateOutOfRange)
    } else {
        Ok(rate as u32)
    }
}

/// Encodes `data` and wraps it in a write packet.
pub fn write_packet(data: &[u8], encoding_type: EncodingType) -> (packet: Vec<u8>)
    requires
        data@.len() > 0,
    ensures
        packet@ == write_packet_spec(encode_spec(encoding_type, data@)),
{
    let encoded = encoding_type.get_encoder().encode(data);
    assert(encoded@.len() >= data@.len()) by (nonlinear_arith)
        requires
            encoded@.len() == clock_ratio(encoding_type) * data@.len(),
            1 <= clock_ratio(encoding_type),
    ;
    let count: usize = encoded.len() - 1;
    let low: usize = count & 0xFF;
    let high: usize = (count >> 8) & 0xFF;
    assert(low == count % 256 && high == count / 256 % 256) by (bit_vector)
        requires
            low == count & 0xFF,
            high == (count >> 8) & 0xFF,
    ;
    let mut packet: Vec<u8> = Vec::new();
    packet.push(WRITE_COMMAND);
    packet.push(low as u8);
    packet.push(high as u8);
    packet.extend_from_slice(encoded.as_slice());
    assert(packet@ =~= write_packet_spec(encoded@));
    packet
}

/// A zeroed buffer for the encoded form of `max_len` data bytes.
pub fn receive_buffer(max_len: usize, encoding_type: EncodingType) -> (buffer: Vec<u8>)
    requires
        max_len * clock_ratio(encoding_type) <= usize::MAX,
    ensures
        buffer@.len() == max_len * clock_ratio(encoding_type),
        forall|i: int| 0 <= i < buffer@.len() ==> buffer@[i] == 0u8,
{
    let ratio: u32 = encoding_type.get_encoder().get_clock_ratio();
    vec![0u8; max_len * ratio as usize]
}

/// What a reception amounts to, given the buffer that was read into and the
/// number of bytes that the bridge reported: nothing where no byte came,
/// and else what the whole buffer decodes to.
pub fn decode_received(buffer: &[u8], bytes_read: usize, encoding_type: EncodingType) -> (result:
    Result<Vec<u8>, Rs485Error>)
    requires
        positions_fit(encoding_type, buffer@),
    ensures
        match result {
            Ok(decoded) => bytes_read > 0 && decode_spec(encoding_type, buffer@) == Ok::<
                Seq<u8>,
                DecodingError,
            >(decoded@),
            Err(Rs485Error::NoData) => bytes_read == 0,
            Err(Rs485Error::InvalidData(error)) => bytes_read > 0 && decode_spec(
                encoding_type,
                buffer@,
            ) == Err::<Seq<u8>, DecodingError>(error),
            Err(Rs485Error::BaudRateOutOfRange) => false,
        },
{
    if bytes_read == 0 {
        return Err(Rs485Error::NoData);
    }
    match encoding_type.get_encoder().decode(buffer) {
        Ok(decoded) => Ok(decoded),
        Err(error) => Err(Rs485Error::InvalidData(error)),
    }
}

} // verus!
