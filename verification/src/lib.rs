//! Line codes for a self-clocking serial link: NRZ, NRZI, FM0, FM1 and
//! Manchester, as bit-exact transforms on byte buffers.
//!
//! * `bits` is the bitstream model: bytes as bits, most significant first.
//! * `line` states each code as a state machine over bitstreams.
//! * `encoding` holds the codecs and the laws that relate them.
//! * `rs485` holds what a link over a USB bridge needs of the codecs.

pub mod bits;
pub mod encoding;
pub mod line;
pub mod rs485;
