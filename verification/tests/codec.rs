use tile_workspace::codec::{decode, decode_non_degenerate, encode, FORMAT_TAG, HEADER_LEN};
use tile_workspace::error::StoreError;
use tile_workspace::grid::Grid;

fn grid_of(width: u32, height: u32, values: &[f64]) -> Grid<u64> {
    Grid::from_cells(width, height, values.iter().map(|v| v.to_bits()).collect()).unwrap()
}

#[test]
fn the_artifact_of_a_small_grid_byte_by_byte() {
    let g = grid_of(2, 1, &[1.0, -2.5]);
    let bytes = encode(&g);
    let expected: Vec<u8> = vec![
        0x48, 0x4d, 0x50, 0x31, // tag
        2, 0, 0, 0, // width
        1, 0, 0, 0, // height
        0, 0, 0, 0, 0, 0, 0xf0, 0x3f, // 1.0
        0, 0, 0, 0, 0, 0, 0x04, 0xc0, // -2.5
    ];
    assert_eq!(bytes, expected);
    assert_eq!(&bytes[0..4], b"HMP1");
    assert_eq!(FORMAT_TAG.to_le_bytes(), *b"HMP1");
    assert_eq!(HEADER_LEN, 12);
}

#[test]
fn cells_are_written_least_significant_byte_first() {
    let g = Grid::from_cells(1, 1, vec![0x0102_0304_0506_0708u64]).unwrap();
    let bytes = encode(&g);
    assert_eq!(&bytes[12..], &[8, 7, 6, 5, 4, 3, 2, 1]);
    let wide = Grid::new(0x0a0b_0c0d, 0, 0u64);
    assert_eq!(&encode(&wide)[4..8], &[0x0d, 0x0c, 0x0b, 0x0a]);
}

#[test]
fn decode_gives_back_what_was_encoded() {
    let values = [
        0.0,
        -0.0,
        1.5,
        -1234.5678,
        f64::MAX,
        f64::MIN_POSITIVE,
        f64::INFINITY,
        f64::NEG_INFINITY,
        f64::NAN,
        f64::from_bits(0x7ff8_0000_dead_beef),
        5e-324,
        123456789.0,
    ];
    let g = grid_of(4, 3, &values);
    let back = decode(&encode(&g)).unwrap();
    assert_eq!(back.width(), 4);
    assert_eq!(back.height(), 3);
    assert_eq!(back.cells(), g.cells());
    assert_eq!(back, g);
    for (k, v) in values.iter().enumerate() {
        let x = (k % 4) as u32;
        let y = (k / 4) as u32;
        assert_eq!(back.get(x, y).unwrap(), v.to_bits());
    }
}

#[test]
fn grids_without_cells_round_trip() {
    for (w, h) in [(0u32, 0u32), (0, 9), (9, 0), (u32::MAX, 0)] {
        let g = Grid::new(w, h, 0u64);
        let bytes = encode(&g);
        assert_eq!(bytes.len(), 12);
        assert_eq!(decode(&bytes).unwrap(), g);
    }
}

#[test]
fn encode_of_decode_gives_the_bytes_back() {
    let g = grid_of(3, 2, &[1.0, 2.0, 3.0, 4.0, 5.0, 6.0]);
    let bytes = encode(&g);
    assert_eq!(encode(&decode(&bytes).unwrap()), bytes);
}

#[test]
fn decode_rejects_what_is_shorter_than_a_header() {
    assert_eq!(decode(&[]), Err(StoreError::CorruptArtifact));
    assert_eq!(decode(&[0x48]), Err(StoreError::CorruptArtifact));
    let bytes = encode(&Grid::new(0, 0, 0u64));
    assert_eq!(decode(&bytes[..11]), Err(StoreError::CorruptArtifact));
}

#[test]
fn decode_rejects_another_tag() {
    let mut bytes = encode(&grid_of(1, 1, &[1.0]));
    bytes[0] ^= 1;
    assert_eq!(decode(&bytes), Err(StoreError::CorruptArtifact));
    let mut bytes = encode(&grid_of(1, 1, &[1.0]));
    bytes[3] = b'2';
    assert_eq!(decode(&bytes), Err(StoreError::CorruptArtifact));
    let mut reversed = encode(&Grid::new(0, 0, 0u64));
    reversed[0..4].reverse();
    assert_eq!(decode(&reversed), Err(StoreError::CorruptArtifact));
}

#[test]
fn decode_rejects_a_length_that_the_header_does_not_declare() {
    let bytes = encode(&grid_of(2, 2, &[1.0, 2.0, 3.0, 4.0]));
    assert_eq!(decode(&bytes[..bytes.len() - 1]), Err(StoreError::CorruptArtifact));
    assert_eq!(decode(&bytes[..bytes.len() - 8]), Err(StoreError::CorruptArtifact));
    let mut longer = bytes.clone();
    longer.push(0);
    assert_eq!(decode(&longer), Err(StoreError::CorruptArtifact));
    let mut longer = bytes.clone();
    longer.extend_from_slice(&[0; 8]);
    assert_eq!(decode(&longer), Err(StoreError::CorruptArtifact));
    let mut wider = bytes.clone();
    wider[4] = 3;
    assert_eq!(decode(&wider), Err(StoreError::CorruptArtifact));
}

#[test]
fn decode_rejects_dimensions_whose_product_is_huge() {
    let mut bytes = encode(&Grid::new(0, 0, 0u64));
    for b in &mut bytes[4..12] {
        *b = 0xff;
    }
    assert_eq!(decode(&bytes), Err(StoreError::CorruptArtifact));
    // 2^31 * 2^30 * 8 wraps to 0 in 64 bits; no cell follows the header
    let mut bytes = encode(&Grid::new(0, 0, 0u64));
    bytes[4..8].copy_from_slice(&(1u32 << 31).to_le_bytes());
    bytes[8..12].copy_from_slice(&(1u32 << 30).to_le_bytes());
    assert_eq!(decode(&bytes), Err(StoreError::CorruptArtifact));
}

#[test]
fn a_grid_without_cells_is_rejected_where_cells_are_required() {
    for (w, h) in [(0u32, 0u32), (0, 9), (9, 0)] {
        let bytes = encode(&Grid::new(w, h, 0u64));
        assert!(decode(&bytes).is_ok());
        assert_eq!(decode_non_degenerate(&bytes), Err(StoreError::CorruptArtifact));
    }
    let g = grid_of(1, 1, &[42.0]);
    assert_eq!(decode_non_degenerate(&encode(&g)).unwrap(), g);
    assert_eq!(decode_non_degenerate(&[]), Err(StoreError::CorruptArtifact));
}

#[test]
fn decoded_cells_come_in_row_major_order() {
    let g = grid_of(2, 2, &[1.0, 2.0, 3.0, 4.0]);
    let back = decode(&encode(&g)).unwrap();
    let triples: Vec<(u32, u32, f64)> =
        back.triples().into_iter().map(|(x, y, v)| (x, y, f64::from_bits(v))).collect();
    assert_eq!(triples, vec![(0, 0, 1.0), (1, 0, 2.0), (0, 1, 3.0), (1, 1, 4.0)]);
}
