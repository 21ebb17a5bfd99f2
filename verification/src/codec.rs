//! The binary form of a grid of 64-bit scalars.
//!
//! An artifact is a header of three 32-bit words (the format tag, the width,
//! the height) followed by the cells row by row, eight bytes each. Every
//! number stands with its least significant byte first. A cell is an IEEE-754
//! double, carried here as its 64 bits, so that what is decoded is what was
//! encoded, bit for bit. Nothing follows the last cell.

use crate::error::StoreError;
use crate::grid::{lemma_triple_of_slot, Grid, GridModel};
use vstd::prelude::*;

verus! {

/// The first word of every artifact: the bytes `HMP1`.
pub const FORMAT_TAG: u32 = 0x3150_4d48;

/// The number of bytes before the first cell.
pub const HEADER_LEN: usize = 12;

/// The number of bytes of a cell.
pub const CELL_LEN: usize = 8;

/// The four bytes of `x`, least significant first.
pub open spec fn u32_le(x: u32) -> Seq<u8> {
    seq![
        (x & 0xff) as u8,
        ((x >> 8) & 0xff) as u8,
        ((x >> 16) & 0xff) as u8,
        ((x >> 24) & 0xff) as u8,
    ]
}

/// The word whose four bytes, least significant first, are `b`.
pub open spec fn u32_from_le(b: Seq<u8>) -> u32 {
    (b[0] as u32) | (b[1] as u32) << 8 | (b[2] as u32) << 16 | (b[3] as u32) << 24
}

/// The eight bytes of `x`, least significant first.
pub open spec fn u64_le(x: u64) -> Seq<u8> {
    seq![
        (x & 0xff) as u8,
        ((x >> 8) & 0xff) as u8,
        ((x >> 16) & 0xff) as u8,
        ((x >> 24) & 0xff) as u8,
        ((x >> 32) & 0xff) as u8,
        ((x >> 40) & 0xff) as u8,
        ((x >> 48) & 0xff) as u8,
        ((x >> 56) & 0xff) as u8,
    ]
}

/// The word whose eight bytes, least significant first, are `b`.
pub open spec fn u64_from_le(b: Seq<u8>) -> u64 {
    (b[0] as u64) | (b[1] as u64) << 8 | (b[2] as u64) << 16 | (b[3] as u64) << 24 | (b[4] as u64)
        << 32 | (b[5] as u64) << 40 | (b[6] as u64) << 48 | (b[7] as u64) << 56
}

/// The bytes of the cells, one cell after the other.
pub open spec fn cells_le(cells: Seq<u64>) -> Seq<u8>
    decreases cells.len(),
{
    if cells.len() == 0 {
        Seq::empty()
    } else {
        cells_le(cells.drop_last()) + u64_le(cells.last())
    }
}

/// The artifact of a grid.
pub open spec fn encode_spec(g: GridModel<u64>) -> Seq<u8> {
    u32_le(FORMAT_TAG) + u32_le(g.width as u32) + u32_le(g.height as u32) + cells_le(g.cells)
}

/// The cell that stands at position `k` among the cells of an artifact.
pub open spec fn cell_at(bytes: Seq<u8>, k: int) -> u64 {
    u64_from_le(bytes.subrange(HEADER_LEN + CELL_LEN * k, HEADER_LEN + CELL_LEN * k + CELL_LEN))
}

/// The width that the header of an artifact declares.
pub open spec fn declared_width(bytes: Seq<u8>) -> u32 {
    u32_from_le(bytes.subrange(4, 8))
}

/// The height that the header of an artifact declares.
pub open spec fn declared_height(bytes: Seq<u8>) -> u32 {
    u32_from_le(bytes.subrange(8, 12))
}

/// The bytes are an artifact: they hold a whole header, begin with the format
/// tag, and hold after the header exactly the cells that the header declares.
pub open spec fn is_artifact(bytes: Seq<u8>) -> bool {
    &&& bytes.len() >= HEADER_LEN
    &&& u32_from_le(bytes.subrange(0, 4)) == FORMAT_TAG
    &&& bytes.len() - HEADER_LEN == CELL_LEN * (declared_width(bytes) * declared_height(bytes))
}

/// The grid that the bytes are the artifact of, if they are an artifact.
pub open spec fn decode_spec(bytes: Seq<u8>) -> Option<GridModel<u64>> {
    if is_artifact(bytes) {
        let width = declared_width(bytes) as nat;
        let height = declared_height(bytes) as nat;
        Some(GridModel { width, height, cells: Seq::new(width * height, |k: int| cell_at(bytes, k)) })
    } else {
        None
    }
}

/// A word is read back from its four bytes.
pub proof fn lemma_u32_round_trip(x: u32)
    ensures
        u32_le(x).len() == 4,
        u32_from_le(u32_le(x)) == x,
{
    assert(((x & 0xff) as u8 as u32) | (((x >> 8) & 0xff) as u8 as u32) << 8 | (((x >> 16)
        & 0xff) as u8 as u32) << 16 | (((x >> 24) & 0xff) as u8 as u32) << 24 == x)
        by (bit_vector);
}

/// A word is read back from its eight bytes.
pub proof fn lemma_u64_round_trip(x: u64)
    ensures
        u64_le(x).len() == 8,
        u64_from_le(u64_le(x)) == x,
{
    assert(((x & 0xff) as u8 as u64) | (((x >> 8) & 0xff) as u8 as u64) << 8 | (((x >> 16)
        & 0xff) as u8 as u64) << 16 | (((x >> 24) & 0xff) as u8 as u64) << 24 | (((x >> 32)
        & 0xff) as u8 as u64) << 32 | (((x >> 40) & 0xff) as u8 as u64) << 40 | (((x >> 48)
        & 0xff) as u8 as u64) << 48 | (((x >> 56) & 0xff) as u8 as u64) << 56 == x)
        by (bit_vector);
}

/// The cells take eight bytes each, and each stands at its place.
pub proof fn lemma_cells_le(cells: Seq<u64>)
    ensures
        cells_le(cells).len() == CELL_LEN * cells.len(),
        forall|k: int|
            0 <= k < cells.len() ==> #[trigger] cells_le(cells).subrange(
                CELL_LEN * k,
                CELL_LEN * k + CELL_LEN,
            ) == u64_le(cells[k]),
    decreases cells.len(),
{
    if cells.len() > 0 {
        let front = cells.drop_last();
        lemma_cells_le(front);
        let all = cells_le(cells);
        assert forall|k: int| 0 <= k < cells.len() implies #[trigger] all.subrange(
            CELL_LEN * k,
            CELL_LEN * k + CELL_LEN,
        ) == u64_le(cells[k]) by {
            if k < front.len() {
                assert(all.subrange(CELL_LEN * k, CELL_LEN * k + CELL_LEN) =~= cells_le(
                    front,
                ).subrange(CELL_LEN * k, CELL_LEN * k + CELL_LEN));
                assert(front[k] == cells[k]);
            } else {
                assert(all.subrange(CELL_LEN * k, CELL_LEN * k + CELL_LEN) =~= u64_le(
                    cells.last(),
                ));
            }
        }
    }
}

/// Decoding the artifact of a grid gives the grid back: its width, its
/// height, and every cell bit for bit.
pub proof fn lemma_decode_encode(g: GridModel<u64>)
    requires
        g.wf(),
        g.width <= u32::MAX,
        g.height <= u32::MAX,
    ensures
        decode_spec(encode_spec(g)) == Some(g),
{
    let bytes = encode_spec(g);
    lemma_u32_round_trip(FORMAT_TAG);
    lemma_u32_round_trip(g.width as u32);
    lemma_u32_round_trip(g.height as u32);
    lemma_cells_le(g.cells);
    assert(bytes.subrange(0, 4) =~= u32_le(FORMAT_TAG));
    assert(bytes.subrange(4, 8) =~= u32_le(g.width as u32));
    assert(bytes.subrange(8, 12) =~= u32_le(g.height as u32));
    assert(is_artifact(bytes));
    let decoded = decode_spec(bytes)->Some_0;
    assert forall|k: int| 0 <= k < g.cells.len() implies cell_at(bytes, k) == g.cells[k] by {
        assert(bytes.subrange(HEADER_LEN + CELL_LEN * k, HEADER_LEN + CELL_LEN * k + CELL_LEN)
            =~= cells_le(g.cells).subrange(CELL_LEN * k, CELL_LEN * k + CELL_LEN));
        lemma_u64_round_trip(g.cells[k]);
    }
    assert(decoded.cells =~= g.cells);
}

/// The cells stand in an artifact in the order in which the grid is walked:
/// the cell at column `x` of row `y` is cell number `y * width + x` of the
/// artifact.
pub proof fn lemma_artifact_order(g: GridModel<u64>, x: int, y: int)
    requires
        g.wf(),
        g.width <= u32::MAX,
        g.height <= u32::MAX,
        g.in_bounds(x, y),
    ensures
        0 <= g.slot(x, y) < g.cells.len(),
        cell_at(encode_spec(g), g.slot(x, y)) == g.at(x, y),
        g.triples()[g.slot(x, y)] == (x, y, g.at(x, y)),
{
    lemma_decode_encode(g);
    lemma_triple_of_slot(g, x, y);
    let decoded = decode_spec(encode_spec(g))->Some_0;
    assert(decoded.cells[g.slot(x, y)] == cell_at(encode_spec(g), g.slot(x, y)));
}

/// Four bytes are the bytes of the word that is read from them.
pub proof fn lemma_u32_bytes_round_trip(b: Seq<u8>)
    requires
        b.len() == 4,
    ensures
        u32_le(u32_from_le(b)) == b,
{
    let (b0, b1, b2, b3) = (b[0], b[1], b[2], b[3]);
    let x = u32_from_le(b);
    assert(x == (b0 as u32) | (b1 as u32) << 8 | (b2 as u32) << 16 | (b3 as u32) << 24);
    assert((x & 0xff) as u8 == b0 && ((x >> 8) & 0xff) as u8 == b1 && ((x >> 16) & 0xff) as u8
        == b2 && ((x >> 24) & 0xff) as u8 == b3) by (bit_vector)
        requires
            x == (b0 as u32) | (b1 as u32) << 8 | (b2 as u32) << 16 | (b3 as u32) << 24,
    ;
    assert(u32_le(x) =~= b);
}

/// Eight bytes are the bytes of the word that is read from them.
pub proof fn lemma_u64_bytes_round_trip(b: Seq<u8>)
    requires
        b.len() == 8,
    ensures
        u64_le(u64_from_le(b)) == b,
{
    let (b0, b1, b2, b3, b4, b5, b6, b7) = (b[0], b[1], b[2], b[3], b[4], b[5], b[6], b[7]);
    let x = u64_from_le(b);
    assert(x == (b0 as u64) | (b1 as u64) << 8 | (b2 as u64) << 16 | (b3 as u64) << 24 | (
    b4 as u64) << 32 | (b5 as u64) << 40 | (b6 as u64) << 48 | (b7 as u64) << 56);
    assert((x & 0xff) as u8 == b0 && ((x >> 8) & 0xff) as u8 == b1 && ((x >> 16) & 0xff) as u8
        == b2 && ((x >> 24) & 0xff) as u8 == b3 && ((x >> 32) & 0xff) as u8 == b4 && ((x >> 40)
        & 0xff) as u8 == b5 && ((x >> 48) & 0xff) as u8 == b6 && ((x >> 56) & 0xff) as u8 == b7)
        by (bit_vector)
        requires
            x == (b0 as u64) | (b1 as u64) << 8 | (b2 as u64) << 16 | (b3 as u64) << 24 | (
            b4 as u64) << 32 | (b5 as u64) << 40 | (b6 as u64) << 48 | (b7 as u64) << 56,
    ;
    assert(u64_le(x) =~= b);
}

/// The bytes of cells that were read from bytes, eight for each cell, are
/// those bytes.
pub proof fn lemma_cells_of_bytes(payload: Seq<u8>, cells: Seq<u64>)
    requires
        payload.len() == CELL_LEN * cells.len(),
        forall|k: int|
            0 <= k < cells.len() ==> cells[k] == u64_from_le(
                #[trigger] payload.subrange(CELL_LEN * k, CELL_LEN * k + CELL_LEN),
            ),
    ensures
        cells_le(cells) == payload,
    decreases cells.len(),
{
    if cells.len() == 0 {
        assert(cells_le(cells) =~= payload);
    } else {
        let n = cells.len() - 1;
        let front = cells.drop_last();
        let head = payload.subrange(0, CELL_LEN * n);
        assert forall|k: int| 0 <= k < front.len() implies front[k] == u64_from_le(
            #[trigger] head.subrange(CELL_LEN * k, CELL_LEN * k + CELL_LEN),
        ) by {
            assert(head.subrange(CELL_LEN * k, CELL_LEN * k + CELL_LEN) =~= payload.subrange(
                CELL_LEN * k,
                CELL_LEN * k + CELL_LEN,
            ));
            assert(front[k] == cells[k]);
        }
        lemma_cells_of_bytes(head, front);
        let last = payload.subrange(CELL_LEN * n, CELL_LEN * n + CELL_LEN);
        lemma_u64_bytes_round_trip(last);
        assert(cells.last() == cells[n]);
        assert(cells_le(cells) =~= payload);
    }
}

/// An artifact is the only byte sequence that decodes to its grid: encoding
/// what was decoded gives the bytes back.
pub proof fn lemma_encode_decode(bytes: Seq<u8>)
    requires
        decode_spec(bytes) is Some,
    ensures
        encode_spec(decode_spec(bytes)->Some_0) == bytes,
        decode_spec(bytes)->Some_0.wf(),
{
    let g = decode_spec(bytes)->Some_0;
    lemma_u32_bytes_round_trip(bytes.subrange(0, 4));
    lemma_u32_bytes_round_trip(bytes.subrange(4, 8));
    lemma_u32_bytes_round_trip(bytes.subrange(8, 12));
    let payload = bytes.subrange(HEADER_LEN as int, bytes.len() as int);
    assert forall|k: int| 0 <= k < g.cells.len() implies g.cells[k] == u64_from_le(
        #[trigger] payload.subrange(CELL_LEN * k, CELL_LEN * k + CELL_LEN),
    ) by {
        assert(payload.subrange(CELL_LEN * k, CELL_LEN * k + CELL_LEN) =~= bytes.subrange(
            HEADER_LEN + CELL_LEN * k,
            HEADER_LEN + CELL_LEN * k + CELL_LEN,
        ));
    }
    lemma_cells_of_bytes(payload, g.cells);
    assert(encode_spec(g) =~= bytes);
}

/// Bytes that are too short for a header, that begin with another tag, or
/// whose length is not the one that their header declares, decode to nothing.
pub proof fn lemma_decode_rejects(bytes: Seq<u8>)
    requires
        bytes.len() < HEADER_LEN || u32_from_le(bytes.subrange(0, 4)) != FORMAT_TAG || bytes.len()
            != HEADER_LEN + CELL_LEN * (declared_width(bytes) * declared_height(bytes)),
    ensures
        decode_spec(bytes) is None,
{
}

/// Appends the four bytes of `x` to `out`.
fn push_u32(out: &mut Vec<u8>, x: u32)
    ensures
        final(out)@ == old(out)@ + u32_le(x),
{
    assert(x & 0xff < 256 && (x >> 8) & 0xff < 256 && (x >> 16) & 0xff < 256 && (x >> 24) & 0xff
        < 256) by (bit_vector);
    out.push((x & 0xff) as u8);
    out.push(((x >> 8) & 0xff) as u8);
    out.push(((x >> 16) & 0xff) as u8);
    out.push(((x >> 24) & 0xff) as u8);
    assert(out@ =~= old(out)@ + u32_le(x));
}

/// Appends the eight bytes of `x` to `out`.
fn push_u64(out: &mut Vec<u8>, x: u64)
    ensures
        final(out)@ == old(out)@ + u64_le(x),
{
    assert(x & 0xff < 256 && (x >> 8) & 0xff < 256 && (x >> 16) & 0xff < 256 && (x >> 24) & 0xff
        < 256 && (x >> 32) & 0xff < 256 && (x >> 40) & 0xff < 256 && (x >> 48) & 0xff < 256 && (x
        >> 56) & 0xff < 256) by (bit_vector);
    out.push((x & 0xff) as u8);
    out.push(((x >> 8) & 0xff) as u8);
    out.push(((x >> 16) & 0xff) as u8);
    out.push(((x >> 24) & 0xff) as u8);
    out.push(((x >> 32) & 0xff) as u8);
    out.push(((x >> 40) & 0xff) as u8);
    out.push(((x >> 48) & 0xff) as u8);
    out.push(((x >> 56) & 0xff) as u8);
    assert(out@ =~= old(out)@ + u64_le(x));
}

/// The word whose four bytes stand at `at`.
fn read_u32(bytes: &[u8], at: usize) -> (x: u32)
    requires
        at + 4 <= bytes.len(),
    ensures
        x == u32_from_le(bytes@.subrange(at as int, at + 4)),
{
    let ghost b = bytes@.subrange(at as int, at + 4);
    assert(b[0] == bytes[at as int] && b[1] == bytes[at + 1] && b[2] == bytes[at + 2] && b[3]
        == bytes[at + 3]);
    (bytes[at] as u32) | (bytes[at + 1] as u32) << 8 | (bytes[at + 2] as u32) << 16 | (bytes[at
        + 3] as u32) << 24
}

/// The word whose eight bytes stand at `at`.
fn read_u64(bytes: &[u8], at: usize) -> (x: u64)
    requires
        at + 8 <= bytes.len(),
    ensures
        x == u64_from_le(bytes@.subrange(at as int, at + 8)),
{
    let ghost b = bytes@.subrange(at as int, at + 8);
    assert(b[0] == bytes[at as int] && b[1] == bytes[at + 1] && b[2] == bytes[at + 2] && b[3]
        == bytes[at + 3] && b[4] == bytes[at + 4] && b[5] == bytes[at + 5] && b[6] == bytes[at
        + 6] && b[7] == bytes[at + 7]);
    (bytes[at] as u64) | (bytes[at + 1] as u64) << 8 | (bytes[at + 2] as u64) << 16 | (bytes[at
        + 3] as u64) << 24 | (bytes[at + 4] as u64) << 32 | (bytes[at + 5] as u64) << 40 | (
    bytes[at + 6] as u64) << 48 | (bytes[at + 7] as u64) << 56
}

/// Writes a grid as an artifact.
pub fn encode(grid: &Grid<u64>) -> (bytes: Vec<u8>)
    ensures
        bytes@ == encode_spec(grid@),
        decode_spec(bytes@) == Some(grid@),
{
    let cells = grid.cells();
    let mut out: Vec<u8> = Vec::new();
    push_u32(&mut out, FORMAT_TAG);
    push_u32(&mut out, grid.width());
    push_u32(&mut out, grid.height());
    let ghost header = out@;
    let mut i: usize = 0;
    proof {
        assert(cells@.take(0) =~= Seq::<u64>::empty());
        assert(header + cells_le(cells@.take(0)) =~= header);
    }
    while i < cells.len()
        invariant
            i <= cells.len(),
            out@ == header + cells_le(cells@.take(i as int)),
        decreases cells.len() - i,
    {
        push_u64(&mut out, cells[i]);
        proof {
            let now = cells@.take(i + 1);
            assert(now.drop_last() =~= cells@.take(i as int));
            assert(now.last() == cells[i as int]);
            assert(out@ =~= header + cells_le(now));
        }
        i = i + 1;
    }
    proof {
        assert(cells@.take(cells.len() as int) =~= cells@);
        lemma_decode_encode(grid@);
    }
    out
}

/// Reads a grid from its artifact. Fails with `CorruptArtifact` if the bytes
/// are too short for a header, begin with another tag than the format's, or
/// do not hold after the header exactly the cells that the header declares.
pub fn decode(bytes: &[u8]) -> (r: Result<Grid<u64>, StoreError>)
    ensures
        match r {
            Ok(g) => decode_spec(bytes@) == Some(g@),
            Err(e) => e == StoreError::CorruptArtifact && decode_spec(bytes@) is None,
        },
{
    if bytes.len() < HEADER_LEN {
        return Err(StoreError::CorruptArtifact);
    }
    let tag = read_u32(bytes, 0);
    let width = read_u32(bytes, 4);
    let height = read_u32(bytes, 8);
    if tag != FORMAT_TAG {
        return Err(StoreError::CorruptArtifact);
    }
    assert(width * height <= 0xffff_ffff * 0xffff_ffff) by (nonlinear_arith)
        requires
            width <= 0xffff_ffff,
            height <= 0xffff_ffff,
    ;
    let count: u64 = (width as u64) * (height as u64);
    let payload = bytes.len() - HEADER_LEN;
    if (payload as u128) != 8 * (count as u128) {
        return Err(StoreError::CorruptArtifact);
    }
    let count = count as usize;
    let mut data: Vec<u64> = Vec::with_capacity(count);
    let mut i: usize = 0;
    while i < count
        invariant
            i <= count,
            count == width * height,
            bytes.len() == HEADER_LEN + CELL_LEN * count,
            data.len() == i,
            forall|k: int| 0 <= k < i ==> data[k] == cell_at(bytes@, k),
        decreases count - i,
    {
        let cell = read_u64(bytes, HEADER_LEN + CELL_LEN * i);
        data.push(cell);
        i = i + 1;
    }
    match Grid::from_cells(width, height, data) {
        Ok(g) => {
            proof {
                assert(g@.cells =~= decode_spec(bytes@)->Some_0.cells);
            }
            Ok(g)
        },
        Err(_) => Err(StoreError::CorruptArtifact),
    }
}

/// Reads a grid that must have at least one cell from its artifact. Fails
/// with `CorruptArtifact` where `decode` fails, and if the width or the
/// height is zero.
pub fn decode_non_degenerate(bytes: &[u8]) -> (r: Result<Grid<u64>, StoreError>)
    ensures
        match r {
            Ok(g) => decode_spec(bytes@) == Some(g@) && g@.width > 0 && g@.height > 0,
            Err(e) => e == StoreError::CorruptArtifact && (decode_spec(bytes@) matches Some(g)
                ==> g.width == 0 || g.height == 0),
        },
{
    match decode(bytes) {
        Ok(g) => {
            if g.width() == 0 || g.height() == 0 {
                Err(StoreError::CorruptArtifact)
            } else {
                Ok(g)
            }
        },
        Err(e) => Err(e),
    }
}

} // verus!
