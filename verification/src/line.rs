//! The five line codes as state machines over bitstreams.
//!
//! A line code turns each data bit into a cell of one or two line symbols.
//! Three of the codes carry a line level from one cell to the next; at the
//! start of every bitstream the line is HIGH. Levels, data bits and symbols
//! are `bool`s, with `true` for HIGH and for a one bit.

use crate::encoding::EncodingType;
use vstd::prelude::*;

verus! {

/// The number of line symbols that a code sends for each data bit.
pub open spec fn clock_ratio(kind: EncodingType) -> int {
    match kind {
        EncodingType::NRZ | EncodingType::NRZI => 1,
        EncodingType::FM0 | EncodingType::FM1 | EncodingType::Manchester => 2,
    }
}

/// The level that the line is left at by the cell for `bit`, when it was at
/// `level` before. NRZI and FM1 toggle on a one bit, FM0 toggles on a zero
/// bit; NRZ and Manchester carry no level.
pub open spec fn next_level(kind: EncodingType, level: bool, bit: bool) -> bool {
    match kind {
        EncodingType::NRZI | EncodingType::FM1 => level != bit,
        EncodingType::FM0 => level == bit,
        EncodingType::NRZ | EncodingType::Manchester => level,
    }
}

/// The level of the line after the first `n` data bits of `bits`.
pub open spec fn level_after(kind: EncodingType, bits: Seq<bool>, n: int) -> bool
    decreases n,
{
    if n <= 0 {
        true
    } else {
        next_level(kind, level_after(kind, bits, n - 1), bits[n - 1])
    }
}

/// Symbol `j` of the cell that carries `bit` when the line was at `level`
/// before the cell.
///
/// * NRZ sends the bit itself.
/// * NRZI sends the level after the bit.
/// * FM0 sends the opposite of the old level, then the level after the bit.
/// * FM1 sends the level after the bit twice.
/// * Manchester sends LOW then HIGH for a one, HIGH then LOW for a zero.
pub open spec fn cell_symbol(kind: EncodingType, level: bool, bit: bool, j: int) -> bool {
    match kind {
        EncodingType::NRZ => bit,
        EncodingType::NRZI => next_level(kind, level, bit),
        EncodingType::FM0 => if j == 0 {
            !level
        } else {
            next_level(kind, level, bit)
        },
        EncodingType::FM1 => next_level(kind, level, bit),
        EncodingType::Manchester => if j == 0 {
            !bit
        } else {
            bit
        },
    }
}

/// The cell that symbol `p` of a symbol stream belongs to.
pub open spec fn cell_of(kind: EncodingType, p: int) -> int {
    if clock_ratio(kind) == 1 {
        p
    } else {
        p / 2
    }
}

/// The place of symbol `p` within its cell.
pub open spec fn place_in_cell(kind: EncodingType, p: int) -> int {
    if clock_ratio(kind) == 1 {
        0
    } else {
        p % 2
    }
}

/// The symbol stream that a code sends for the data bits `bits`.
pub open spec fn encode_bits(kind: EncodingType, bits: Seq<bool>) -> Seq<bool> {
    Seq::new(
        (clock_ratio(kind) * bits.len()) as nat,
        |p: int|
            cell_symbol(
                kind,
                level_after(kind, bits, cell_of(kind, p)),
                bits[cell_of(kind, p)],
                place_in_cell(kind, p),
            ),
    )
}

/// The number of whole cells in the symbol stream `symbols`.
pub open spec fn cell_count(kind: EncodingType, symbols: Seq<bool>) -> int {
    if clock_ratio(kind) == 1 {
        symbols.len() as int
    } else {
        symbols.len() as int / 2
    }
}

/// The level that a receiver saw last before cell `c`: the last symbol of
/// the cell before it, or HIGH at the start of the stream.
pub open spec fn level_before(kind: EncodingType, symbols: Seq<bool>, c: int) -> bool {
    if c <= 0 {
        true
    } else {
        symbols[clock_ratio(kind) * c - 1]
    }
}

/// Whether cell `c` of `symbols` breaks the rule of its code. An FM1 cell
/// is malformed when its two symbols differ, a Manchester cell when they are
/// equal. NRZ, NRZI and FM0 accept every cell.
pub open spec fn cell_malformed(kind: EncodingType, symbols: Seq<bool>, c: int) -> bool {
    &&& 0 <= c < cell_count(kind, symbols)
    &&& match kind {
        EncodingType::FM1 => symbols[2 * c] != symbols[2 * c + 1],
        EncodingType::Manchester => symbols[2 * c] == symbols[2 * c + 1],
        _ => false,
    }
}

/// The data bit that a receiver reads from cell `c` of `symbols`.
///
/// * NRZ: the symbol itself.
/// * NRZI: one when the symbol differs from the level before it.
/// * FM0: one when the two symbols of the cell differ.
/// * FM1: one when the cell starts at another level than the one before it.
/// * Manchester: one when the cell starts LOW.
pub open spec fn decoded_bit(kind: EncodingType, symbols: Seq<bool>, c: int) -> bool {
    match kind {
        EncodingType::NRZ => symbols[c],
        EncodingType::NRZI => symbols[c] != level_before(kind, symbols, c),
        EncodingType::FM0 => symbols[2 * c] != symbols[2 * c + 1],
        EncodingType::FM1 => symbols[2 * c] != level_before(kind, symbols, c),
        EncodingType::Manchester => !symbols[2 * c],
    }
}

/// The data bits that a receiver reads from `symbols`, one for each whole
/// cell.
pub open spec fn decode_bits(kind: EncodingType, symbols: Seq<bool>) -> Seq<bool> {
    Seq::new(cell_count(kind, symbols) as nat, |c: int| decoded_bit(kind, symbols, c))
}

/// No cell of `symbols` is malformed.
pub open spec fn well_formed(kind: EncodingType, symbols: Seq<bool>) -> bool {
    forall|c: int| !cell_malformed(kind, symbols, c)
}

/// Cell `c` of `symbols` is malformed and no cell before it is.
pub open spec fn is_first_malformed(kind: EncodingType, symbols: Seq<bool>, c: int) -> bool {
    &&& cell_malformed(kind, symbols, c)
    &&& forall|b: int| 0 <= b < c ==> !cell_malformed(kind, symbols, b)
}

/// The first malformed cell of `symbols`, where there is one.
pub open spec fn first_malformed(kind: EncodingType, symbols: Seq<bool>) -> int {
    choose|c: int| is_first_malformed(kind, symbols, c)
}

/// Where some cell is malformed, one of them is the first.
pub proof fn lemma_first_malformed_exists(kind: EncodingType, symbols: Seq<bool>, c: int)
    requires
        cell_malformed(kind, symbols, c),
    ensures
        is_first_malformed(kind, symbols, first_malformed(kind, symbols)),
        !well_formed(kind, symbols),
    decreases c,
{
    if exists|b: int| 0 <= b < c && cell_malformed(kind, symbols, b) {
        let b = choose|b: int| 0 <= b < c && cell_malformed(kind, symbols, b);
        lemma_first_malformed_exists(kind, symbols, b);
    } else {
        assert(is_first_malformed(kind, symbols, c));
    }
}

/// There is only one first malformed cell.
pub proof fn lemma_first_malformed_unique(kind: EncodingType, symbols: Seq<bool>, c: int)
    requires
        is_first_malformed(kind, symbols, c),
    ensures
        first_malformed(kind, symbols) == c,
        !well_formed(kind, symbols),
{
    let f = first_malformed(kind, symbols);
    assert(is_first_malformed(kind, symbols, f));
    if f < c {
        assert(!cell_malformed(kind, symbols, f));
    } else if c < f {
        assert(!cell_malformed(kind, symbols, c));
    }
}

/// The symbols of cell `c` of an encoded stream.
pub proof fn lemma_encoded_cell(kind: EncodingType, bits: Seq<bool>, c: int)
    requires
        0 <= c < bits.len(),
    ensures
        encode_bits(kind, bits).len() == clock_ratio(kind) * bits.len(),
        cell_count(kind, encode_bits(kind, bits)) == bits.len(),
        forall|j: int|
            0 <= j < clock_ratio(kind) ==> encode_bits(kind, bits)[clock_ratio(kind) * c + j]
                == cell_symbol(kind, level_after(kind, bits, c), bits[c], j),
{
    let symbols = encode_bits(kind, bits);
    if clock_ratio(kind) == 1 {
        assert(cell_of(kind, c) == c);
    } else {
        assert(clock_ratio(kind) == 2);
        assert(cell_of(kind, 2 * c) == c && place_in_cell(kind, 2 * c) == 0);
        assert(cell_of(kind, 2 * c + 1) == c && place_in_cell(kind, 2 * c + 1) == 1);
        assert(symbols[2 * c] == cell_symbol(kind, level_after(kind, bits, c), bits[c], 0));
        assert(symbols[2 * c + 1] == cell_symbol(kind, level_after(kind, bits, c), bits[c], 1));
    }
}

/// An encoded stream leaves the line, before each cell, at the level that
/// the data bits so far have brought it to.
pub proof fn lemma_encoded_level_before(kind: EncodingType, bits: Seq<bool>, c: int)
    requires
        0 <= c < bits.len(),
        kind == EncodingType::NRZI || kind == EncodingType::FM0 || kind == EncodingType::FM1,
    ensures
        level_before(kind, encode_bits(kind, bits), c) == level_after(kind, bits, c),
{
    if c > 0 {
        lemma_encoded_cell(kind, bits, c - 1);
        let r = clock_ratio(kind);
        assert(r * c - 1 == r * (c - 1) + (r - 1));
    }
}

/// A receiver accepts each cell of an encoded stream and reads from it
/// the data bit that the cell was sent for.
pub proof fn lemma_decode_encoded_cell(kind: EncodingType, bits: Seq<bool>, c: int)
    requires
        0 <= c < bits.len(),
    ensures
        !cell_malformed(kind, encode_bits(kind, bits), c),
        decoded_bit(kind, encode_bits(kind, bits), c) == bits[c],
{
    lemma_encoded_cell(kind, bits, c);
    let symbols = encode_bits(kind, bits);
    let level = level_after(kind, bits, c);
    match kind {
        EncodingType::NRZ => {
            assert(symbols[c] == cell_symbol(kind, level, bits[c], 0));
        },
        EncodingType::NRZI => {
            lemma_encoded_level_before(kind, bits, c);
            assert(symbols[c] == cell_symbol(kind, level, bits[c], 0));
        },
        EncodingType::FM0 => {
            assert(symbols[2 * c] == cell_symbol(kind, level, bits[c], 0));
            assert(symbols[2 * c + 1] == cell_symbol(kind, level, bits[c], 1));
        },
        EncodingType::FM1 => {
            lemma_encoded_level_before(kind, bits, c);
            assert(symbols[2 * c] == cell_symbol(kind, level, bits[c], 0));
            assert(symbols[2 * c + 1] == cell_symbol(kind, level, bits[c], 1));
        },
        EncodingType::Manchester => {
            assert(symbols[2 * c] == cell_symbol(kind, level, bits[c], 0));
            assert(symbols[2 * c + 1] == cell_symbol(kind, level, bits[c], 1));
        },
    }
}

/// What a code sends, a receiver of the same code accepts and reads back
/// unchanged.
pub proof fn lemma_decode_encode_bits(kind: EncodingType, bits: Seq<bool>)
    ensures
        encode_bits(kind, bits).len() == clock_ratio(kind) * bits.len(),
        well_formed(kind, encode_bits(kind, bits)),
        decode_bits(kind, encode_bits(kind, bits)) == bits,
{
    let symbols = encode_bits(kind, bits);
    let decoded = decode_bits(kind, symbols);
    assert(cell_count(kind, symbols) == bits.len());
    assert forall|c: int| !cell_malformed(kind, symbols, c) by {
        if 0 <= c < bits.len() {
            lemma_decode_encoded_cell(kind, bits, c);
        }
    }
    assert forall|c: int| 0 <= c < bits.len() implies decoded[c] == bits[c] by {
        lemma_decode_encoded_cell(kind, bits, c);
    }
    assert(decoded =~= bits);
}

/// Sending one more data bit appends its cell to the symbols sent so far
/// and moves the line to the next level.
pub proof fn lemma_encode_bits_step(kind: EncodingType, bits: Seq<bool>, n: int)
    requires
        0 <= n < bits.len(),
    ensures
        level_after(kind, bits, n + 1) == next_level(kind, level_after(kind, bits, n), bits[n]),
        clock_ratio(kind) == 1 ==> encode_bits(kind, bits).take(n + 1) == encode_bits(
            kind,
            bits,
        ).take(n).push(cell_symbol(kind, level_after(kind, bits, n), bits[n], 0)),
        clock_ratio(kind) == 2 ==> encode_bits(kind, bits).take(2 * (n + 1)) == encode_bits(
            kind,
            bits,
        ).take(2 * n).push(cell_symbol(kind, level_after(kind, bits, n), bits[n], 0)).push(
            cell_symbol(kind, level_after(kind, bits, n), bits[n], 1),
        ),
{
    lemma_encoded_cell(kind, bits, n);
    let symbols = encode_bits(kind, bits);
    let level = level_after(kind, bits, n);
    if clock_ratio(kind) == 1 {
        assert(symbols[n] == cell_symbol(kind, level, bits[n], 0));
        assert(symbols.take(n + 1) =~= symbols.take(n).push(symbols[n]));
    } else {
        assert(symbols[2 * n] == cell_symbol(kind, level, bits[n], 0));
        assert(symbols[2 * n + 1] == cell_symbol(kind, level, bits[n], 1));
        assert(symbols.take(2 * (n + 1)) =~= symbols.take(2 * n).push(symbols[2 * n]).push(
            symbols[2 * n + 1],
        ));
    }
}

/// Reading one more cell appends its data bit to the bits read so far.
pub proof fn lemma_decode_bits_step(kind: EncodingType, symbols: Seq<bool>, c: int)
    requires
        0 <= c < cell_count(kind, symbols),
    ensures
        decode_bits(kind, symbols).take(c + 1) == decode_bits(kind, symbols).take(c).push(
            decoded_bit(kind, symbols, c),
        ),
{
    let decoded = decode_bits(kind, symbols);
    assert(decoded.take(c + 1) =~= decoded.take(c).push(decoded[c]));
}

/// NRZ sends the data bits as they are and reads them as they are.
pub proof fn lemma_nrz_is_identity(bits: Seq<bool>)
    ensures
        encode_bits(EncodingType::NRZ, bits) == bits,
        decode_bits(EncodingType::NRZ, bits) == bits,
        well_formed(EncodingType::NRZ, bits),
{
    assert(encode_bits(EncodingType::NRZ, bits) =~= bits);
    assert(decode_bits(EncodingType::NRZ, bits) =~= bits);
}

} // verus!
