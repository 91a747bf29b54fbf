use linecode::encoding::{
    DecodingError, Encoding, EncodingType, FM0Encoding, FM1Encoding, ManchesterEncoding,
    NRZEncoding, NRZIEncoding,
};

const ALL_TYPES: [EncodingType; 5] = [
    EncodingType::NRZ,
    EncodingType::NRZI,
    EncodingType::FM0,
    EncodingType::FM1,
    EncodingType::Manchester,
];

#[test]
fn test_encoding_nrz() {
    let encoding_type = EncodingType::NRZ;
    let encoder = encoding_type.get_encoder();
    let data = vec![0xA5, 0x5A];
    let encoded_data = encoder.encode(&data);
    let received_data = encoder
        .decode(&encoded_data)
        .expect("Failed to decode NRZ data");
    assert_eq!(received_data, data, "Decoded data does not match original");
    println!("✅ test_encoding_nrz() (NRZ) passed!");
}

#[test]
fn test_encoding_nrzi() {
    let encoding_type = EncodingType::NRZI;
    let encoder = encoding_type.get_encoder();
    let data = vec![0xA5, 0x5A];
    let encoded_data = encoder.encode(&data);
    let received_data = encoder
        .decode(&encoded_data)
        .expect("Failed to decode NRZI data");
    assert_eq!(received_data, data, "Decoded data does not match original");
    println!("✅ test_encoding_nrzi() (NRZI) passed!");
}

#[test]
fn test_encoding_fm0() {
    let encoding_type = EncodingType::FM0;
    let encoder = encoding_type.get_encoder();
    let data = vec![0xA5, 0x5A];
    let encoded_data = encoder.encode(&data);
    let received_data = encoder
        .decode(&encoded_data)
        .expect("Failed to decode FM0 data");
    assert_eq!(received_data, data, "Decoded data does not match original");
    println!("✅ test_encoding_fm0() (FM0) passed!");
}

#[test]
fn test_encoding_fm1() {
    let encoding_type = EncodingType::FM1;
    let encoder = encoding_type.get_encoder();
    let data = vec![0xA5, 0x5A];
    let encoded_data = encoder.encode(&data);
    let received_data = encoder
        .decode(&encoded_data)
        .expect("Failed to decode FM1 data");
    assert_eq!(received_data, data, "Decoded data does not match original");
    println!("✅ test_encoding_fm1() (FM1) passed!");
}

#[test]
fn test_encoding_manchester() {
    let encoding_type = EncodingType::Manchester;
    let encoder = encoding_type.get_encoder();
    let data = vec![0xA5, 0x5A];
    let encoded_data = encoder.encode(&data);
    let received_data = encoder
        .decode(&encoded_data)
        .expect("Failed to decode Manchester data");
    assert_eq!(received_data, data, "Decoded data does not match original");
    println!("✅ test_encoding_manchester() (Manchester) passed!");
}

#[test]
fn clock_ratio_is_one_for_nrz_and_nrzi() {
    assert_eq!(EncodingType::NRZ.get_encoder().get_clock_ratio(), 1);
    assert_eq!(EncodingType::NRZI.get_encoder().get_clock_ratio(), 1);
}

#[test]
fn clock_ratio_is_two_for_self_clocking_codes() {
    assert_eq!(EncodingType::FM0.get_encoder().get_clock_ratio(), 2);
    assert_eq!(EncodingType::FM1.get_encoder().get_clock_ratio(), 2);
    assert_eq!(EncodingType::Manchester.get_encoder().get_clock_ratio(), 2);
}

#[test]
fn round_trip_of_empty_input() {
    for encoding_type in ALL_TYPES {
        let encoder = encoding_type.get_encoder();
        let encoded = encoder.encode(&[]);
        assert!(encoded.is_empty());
        assert_eq!(encoder.decode(&encoded), Ok(vec![]));
    }
}

#[test]
fn round_trip_of_every_single_byte() {
    for encoding_type in ALL_TYPES {
        let encoder = encoding_type.get_encoder();
        for byte in 0..=255u8 {
            let data = vec![byte];
            let encoded = encoder.encode(&data);
            assert_eq!(encoder.decode(&encoded), Ok(data));
        }
    }
}

#[test]
fn round_trip_of_all_byte_values_in_one_buffer() {
    let data: Vec<u8> = (0..=255u8).collect();
    for encoding_type in ALL_TYPES {
        let encoder = encoding_type.get_encoder();
        let encoded = encoder.encode(&data);
        assert_eq!(encoder.decode(&encoded), Ok(data.clone()));
    }
}

#[test]
fn round_trip_carries_the_level_across_bytes() {
    let data = vec![0x01, 0x80, 0xFF, 0x00, 0x7E, 0x81];
    for encoding_type in ALL_TYPES {
        let encoder = encoding_type.get_encoder();
        let encoded = encoder.encode(&data);
        assert_eq!(encoder.decode(&encoded), Ok(data.clone()));
    }
}

#[test]
fn encoded_length_follows_the_clock_ratio() {
    for len in [0usize, 1, 2, 3, 7, 64, 255] {
        let data = vec![0x3Cu8; len];
        for encoding_type in ALL_TYPES {
            let encoder = encoding_type.get_encoder();
            let ratio = encoder.get_clock_ratio() as usize;
            let encoded = encoder.encode(&data);
            assert_eq!(encoded.len(), ratio * len);
            if ratio == 2 {
                assert_eq!(encoded.len(), (2 * 8 * len + 7) / 8);
            }
        }
    }
}

#[test]
fn nrz_leaves_the_bytes_unchanged() {
    let encoder = EncodingType::NRZ.get_encoder();
    assert_eq!(encoder.encode(&[0xA5, 0x5A]), vec![0xA5, 0x5A]);
    assert_eq!(encoder.decode(&[0xA5, 0x5A]), Ok(vec![0xA5, 0x5A]));
    assert_eq!(encoder.decode(&[0x00, 0xFF, 0x13]), Ok(vec![0x00, 0xFF, 0x13]));
}

#[test]
fn nrzi_of_all_ones_alternates_from_high() {
    // Every one bit toggles the line, which starts HIGH: the first symbol
    // is LOW and the symbols alternate from there.
    let encoder = EncodingType::NRZI.get_encoder();
    let encoded = encoder.encode(&[0xFF]);
    assert_eq!(encoded, vec![0b0101_0101]);
    assert_eq!(encoder.decode(&encoded), Ok(vec![0xFF]));
}

#[test]
fn nrzi_of_all_zeros_stays_high() {
    let encoder = EncodingType::NRZI.get_encoder();
    assert_eq!(encoder.encode(&[0x00, 0x00]), vec![0xFF, 0xFF]);
    assert_eq!(encoder.decode(&[0xFF, 0xFF]), Ok(vec![0x00, 0x00]));
}

#[test]
fn nrzi_exact_symbols() {
    // 1 0 1 0 0 1 0 1 leaves the line at 0 0 1 1 1 0 0 1.
    let encoder = EncodingType::NRZI.get_encoder();
    assert_eq!(encoder.encode(&[0xA5]), vec![0b0011_1001]);
    // The level is carried into the second byte.
    assert_eq!(encoder.encode(&[0xA5, 0x5A]), vec![0b0011_1001, 0b1001_0011]);
}

#[test]
fn nrzi_decodes_every_pattern() {
    let encoder = EncodingType::NRZI.get_encoder();
    // Against a line that starts HIGH, 1 0 1 0 1 0 1 0 differs from the
    // level before it at every symbol but the first.
    assert_eq!(encoder.decode(&[0xAA]), Ok(vec![0x7F]));
    assert_eq!(encoder.decode(&[0x00]), Ok(vec![0x80]));
}

#[test]
fn fm0_exact_symbols() {
    // A one keeps the level and sends (not level, level); a zero toggles
    // the level and sends it twice.
    let encoder = EncodingType::FM0.get_encoder();
    assert_eq!(encoder.encode(&[0xA5]), vec![0b0100_1011, 0b0010_1101]);
    assert_eq!(encoder.encode(&[0xFF]), vec![0b0101_0101, 0b0101_0101]);
    assert_eq!(encoder.encode(&[0x00]), vec![0b0011_0011, 0b0011_0011]);
}

#[test]
fn fm0_decodes_every_cell() {
    let encoder = EncodingType::FM0.get_encoder();
    // Cells 00 01 10 11 | 11 10 01 00.
    assert_eq!(encoder.decode(&[0b0001_1011, 0b1110_0100]), Ok(vec![0b0110_0110]));
    assert_eq!(encoder.decode(&[0x00, 0x00]), Ok(vec![0x00]));
    assert_eq!(encoder.decode(&[0xFF, 0xFF]), Ok(vec![0x00]));
}

#[test]
fn fm1_exact_symbols() {
    // A one toggles the level, a zero keeps it; the level is sent twice.
    let encoder = EncodingType::FM1.get_encoder();
    assert_eq!(encoder.encode(&[0xA5]), vec![0b0000_1111, 0b1100_0011]);
    assert_eq!(encoder.encode(&[0x00]), vec![0xFF, 0xFF]);
    assert_eq!(encoder.encode(&[0xFF]), vec![0b0011_0011, 0b0011_0011]);
}

#[test]
fn fm1_decodes_against_the_level_before() {
    let encoder = EncodingType::FM1.get_encoder();
    assert_eq!(encoder.decode(&[0xFF, 0xFF]), Ok(vec![0x00]));
    assert_eq!(encoder.decode(&[0x00, 0x00]), Ok(vec![0x80]));
    assert_eq!(encoder.decode(&[0b0011_0011, 0b0011_0011]), Ok(vec![0xFF]));
}

#[test]
fn fm1_rejects_a_cell_whose_symbols_differ() {
    let encoder = EncodingType::FM1.get_encoder();
    // Cells 11 00 10 11: the third cell is malformed.
    assert_eq!(
        encoder.decode(&[0b1100_1011, 0xFF]),
        Err(DecodingError { position: 4 })
    );
    // Cells 01 ...: the first cell is malformed.
    assert_eq!(
        encoder.decode(&[0b0111_1111, 0xFF]),
        Err(DecodingError { position: 0 })
    );
    // The last cell of the second byte.
    assert_eq!(
        encoder.decode(&[0xFF, 0b1111_1110]),
        Err(DecodingError { position: 14 })
    );
}

#[test]
fn fm1_reports_the_first_of_several_malformed_cells() {
    let encoder = EncodingType::FM1.get_encoder();
    assert_eq!(
        encoder.decode(&[0xFF, 0xFF, 0b1101_1001, 0b0101_0101]),
        Err(DecodingError { position: 18 })
    );
}

#[test]
fn manchester_exact_symbols() {
    let encoder = EncodingType::Manchester.get_encoder();
    assert_eq!(encoder.encode(&[0xA5]), vec![0b0110_0110, 0b1001_1001]);
    assert_eq!(encoder.encode(&[0xFF]), vec![0b0101_0101, 0b0101_0101]);
    assert_eq!(encoder.encode(&[0x00]), vec![0b1010_1010, 0b1010_1010]);
}

#[test]
fn manchester_decodes_well_formed_cells() {
    let encoder = EncodingType::Manchester.get_encoder();
    assert_eq!(
        encoder.decode(&[0b0110_0110, 0b1001_1001]),
        Ok(vec![0xA5])
    );
}

#[test]
fn manchester_rejects_a_high_high_cell() {
    let encoder = EncodingType::Manchester.get_encoder();
    // Cells 01 10 11 01: the third cell is malformed.
    assert_eq!(
        encoder.decode(&[0b0110_1101, 0b0101_0101]),
        Err(DecodingError { position: 4 })
    );
    assert_eq!(
        encoder.decode(&[0xFF, 0xFF]),
        Err(DecodingError { position: 0 })
    );
}

#[test]
fn manchester_rejects_a_low_low_cell() {
    let encoder = EncodingType::Manchester.get_encoder();
    // Second byte, cells 01 01 00 00: the seventh cell of the stream.
    assert_eq!(
        encoder.decode(&[0b0101_0101, 0b0101_0000]),
        Err(DecodingError { position: 12 })
    );
    assert_eq!(
        encoder.decode(&[0x00, 0x00]),
        Err(DecodingError { position: 0 })
    );
}

#[test]
fn manchester_rejects_a_malformed_cell_in_a_single_byte() {
    let encoder = EncodingType::Manchester.get_encoder();
    assert_eq!(encoder.decode(&[0xFF]), Err(DecodingError { position: 0 }));
    assert_eq!(
        encoder.decode(&[0b0110_0100]),
        Err(DecodingError { position: 6 })
    );
}

#[test]
fn nrz_nrzi_and_fm0_accept_every_two_byte_pattern() {
    for encoding_type in [EncodingType::NRZ, EncodingType::NRZI, EncodingType::FM0] {
        let encoder = encoding_type.get_encoder();
        for high in 0..=255u8 {
            for low in [0x00u8, 0x55, 0xAA, 0xFF, 0x3C, 0x81] {
                assert!(encoder.decode(&[high, low]).is_ok());
            }
        }
    }
}

#[test]
fn an_odd_byte_at_the_end_fills_no_data_byte() {
    // Ratio 2: the four cells of a last odd byte are read and checked, but
    // four data bits fill no byte.
    let fm0 = EncodingType::FM0.get_encoder();
    assert_eq!(fm0.decode(&[0xFF]), Ok(vec![]));
    assert_eq!(fm0.decode(&[0x00, 0x00, 0x12]), Ok(vec![0x00]));
    let manchester = EncodingType::Manchester.get_encoder();
    assert_eq!(
        manchester.decode(&[0b0110_0110, 0b1001_1001, 0b0101_0101]),
        Ok(vec![0xA5])
    );
    assert_eq!(
        manchester.decode(&[0b0110_0110, 0b1001_1001, 0b0101_0111]),
        Err(DecodingError { position: 22 })
    );
}

#[test]
fn the_named_codecs_agree_with_the_selected_ones() {
    let data = vec![0xA5, 0x5A, 0x00, 0xFF];
    assert_eq!(NRZEncoding.encode(&data), EncodingType::NRZ.get_encoder().encode(&data));
    assert_eq!(NRZIEncoding.encode(&data), EncodingType::NRZI.get_encoder().encode(&data));
    assert_eq!(FM0Encoding.encode(&data), EncodingType::FM0.get_encoder().encode(&data));
    assert_eq!(FM1Encoding.encode(&data), EncodingType::FM1.get_encoder().encode(&data));
    assert_eq!(
        ManchesterEncoding.encode(&data),
        EncodingType::Manchester.get_encoder().encode(&data)
    );
    assert_eq!(NRZEncoding.get_clock_ratio(), 1);
    assert_eq!(NRZIEncoding.get_clock_ratio(), 1);
    assert_eq!(FM0Encoding.get_clock_ratio(), 2);
    assert_eq!(FM1Encoding.get_clock_ratio(), 2);
    assert_eq!(ManchesterEncoding.get_clock_ratio(), 2);
}

#[test]
fn a_codec_serves_as_a_trait_object() {
    let codecs: Vec<Box<dyn Encoding>> = vec![
        Box::new(EncodingType::NRZ.get_encoder()),
        Box::new(EncodingType::NRZI.get_encoder()),
        Box::new(EncodingType::FM0.get_encoder()),
        Box::new(EncodingType::FM1.get_encoder()),
        Box::new(EncodingType::Manchester.get_encoder()),
    ];
    let data = vec![0xA5, 0x5A];
    for codec in codecs {
        let encoded = codec.encode(&data);
        assert_eq!(encoded.len(), codec.get_clock_ratio() as usize * data.len());
        assert_eq!(codec.decode(&encoded), Ok(data.clone()));
    }
}

#[test]
fn codes_differ_from_one_another() {
    let data = vec![0xA5, 0x5A];
    let nrz = EncodingType::NRZ.get_encoder().encode(&data);
    let nrzi = EncodingType::NRZI.get_encoder().encode(&data);
    let fm0 = EncodingType::FM0.get_encoder().encode(&data);
    let fm1 = EncodingType::FM1.get_encoder().encode(&data);
    let manchester = EncodingType::Manchester.get_encoder().encode(&data);
    assert_ne!(nrz, nrzi);
    assert_ne!(fm0, fm1);
    assert_ne!(fm0, manchester);
    assert_ne!(fm1, manchester);
}

#[test]
fn exact_symbols_of_the_two_byte_scenario() {
    let data = vec![0xA5, 0x5A];
    assert_eq!(EncodingType::NRZ.get_encoder().encode(&data), vec![0xA5, 0x5A]);
    assert_eq!(EncodingType::NRZI.get_encoder().encode(&data), vec![0x39, 0x93]);
    assert_eq!(
        EncodingType::FM0.get_encoder().encode(&data),
        vec![0x4B, 0x2D, 0x2D, 0x4B]
    );
    assert_eq!(
        EncodingType::FM1.get_encoder().encode(&data),
        vec![0x0F, 0xC3, 0xC3, 0x0F]
    );
    assert_eq!(
        EncodingType::Manchester.get_encoder().encode(&data),
        vec![0x66, 0x99, 0x99, 0x66]
    );
}

#[test]
fn exact_symbols_of_a_longer_buffer() {
    let data = vec![0xA5, 0x5A, 0x00, 0xFF, 0x3C, 0x81, 0x7E, 0x13];
    assert_eq!(
        EncodingType::NRZI.get_encoder().encode(&data),
        vec![0x39, 0x93, 0xFF, 0x55, 0xD7, 0x01, 0xAB, 0xE2]
    );
    assert_eq!(
        EncodingType::FM0.get_encoder().encode(&data),
        vec![
            0x4B, 0x2D, 0x2D, 0x4B, 0x33, 0x33, 0x55, 0x55, 0x35, 0x53, 0x4C, 0xCD, 0x2A, 0xAB,
            0x32, 0xCA
        ]
    );
    assert_eq!(
        EncodingType::FM1.get_encoder().encode(&data),
        vec![
            0x0F, 0xC3, 0xC3, 0x0F, 0xFF, 0xFF, 0x33, 0x33, 0xF3, 0x3F, 0x00, 0x03, 0xCC, 0xCF,
            0xFC, 0x0C
        ]
    );
    assert_eq!(
        EncodingType::Manchester.get_encoder().encode(&data),
        vec![
            0x66, 0x99, 0x99, 0x66, 0xAA, 0xAA, 0x55, 0x55, 0xA5, 0x5A, 0x6A, 0xA9, 0x95, 0x56,
            0xA9, 0xA5
        ]
    );
}
