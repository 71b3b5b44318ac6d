use sprite_sheet_compress::{BytesWrapper, CodecError, Image, Pixel};

type Img = Image<u32>;

#[test]
fn encode_decode() {
    let img = Img {
        width: 2u32,
        pixels: vec![Pixel::red(), Pixel::green(), Pixel::red(), Pixel::blue()],
    };

    let img_encoding = img.encode::<u16>().unwrap();

    let mut correct_encoding: Vec<u8> = Vec::new();

    for ch in Img::magic_string() {
        correct_encoding.push(ch);
    }
    correct_encoding.extend_from_slice(
        b"\x00\x03\
        \xFF\x00\x00\xFF\
        \x00\xFF\x00\xFF\
        \x00\x00\xFF\xFF\
        \x00\x00\x00\x02\
        \x00\x00\x00\x02\
        \x00\x00\
        \x00\x01\
        \x00\x00\
        \x00\x02",
    );

    assert_eq!(img_encoding, correct_encoding);
    let image_decoded = Img::decode::<u16>(&img_encoding).unwrap();
    assert_eq!(image_decoded, img);

    // a failure, incomplete palette id
    let correct_encoding_truncated = &correct_encoding[0..correct_encoding.len() - 1];
    Img::decode::<u16>(&correct_encoding_truncated).unwrap_err();
}

#[test]
fn run_length_check() {
    let img = Img {
        width: 2u32,
        pixels: vec![
            Pixel::red(),
            Pixel::transparent_black(),
            Pixel::transparent_black(),
            Pixel::red(),
        ],
    };

    let img_encoding = img.encode::<u16>().unwrap();

    let mut correct_encoding: Vec<u8> = Vec::new();

    for ch in Img::magic_string() {
        correct_encoding.push(ch);
    }
    correct_encoding.extend_from_slice(
        b"\x00\x01\
        \xFF\x00\x00\xFF\
        \x00\x00\x00\x02\
        \x00\x00\x00\x02\
        \x00\x00\
        \xFF\xFF\x02\
        \x00\x00",
    );

    assert_eq!(img_encoding, correct_encoding);
    let image_decoded = Img::decode::<u16>(&img_encoding).unwrap();
    assert_eq!(image_decoded, img);
}

#[test]
fn long_run_length() {
    let mut v: Vec<Pixel> = Vec::new();
    v.push(Pixel::red());
    for _ in 0..23 * 23 - 2 {
        // total size 23x23
        v.push(Pixel::transparent_black());
    }
    v.push(Pixel::red());

    let img = Img {
        width: 23u32,
        pixels: v,
    };

    let img_encoding = img.encode::<u16>().unwrap();

    let mut correct_encoding: Vec<u8> = Vec::new();

    for ch in Img::magic_string() {
        correct_encoding.push(ch);
    }
    correct_encoding.extend_from_slice(
        b"\x00\x01\
        \xFF\x00\x00\xFF\
        \x00\x00\x00\x17\
        \x00\x00\x00\x17\
        \x00\x00\
        \xFF\xFF\xFF\
        \xFF\xFF\xFF\
        \xFF\xFF\x11\
        \x00\x00",
    );

    assert_eq!(img_encoding, correct_encoding);
    let image_decoded = Img::decode::<u16>(&img_encoding).unwrap();
    assert_eq!(image_decoded, img);
}

#[test]
fn magic_marker_bytes() {
    assert_eq!(Img::magic_string(), vec![0xCA, 0xC1, 0xC7]);
}

#[test]
fn derived_height() {
    let img = Img {
        width: 2u32,
        pixels: vec![Pixel::red(), Pixel::green(), Pixel::red(), Pixel::blue()],
    };
    assert_eq!(img.height(), 2u32);

    let empty = Img {
        width: 0u32,
        pixels: Vec::new(),
    };
    assert_eq!(empty.height(), 0u32);
}

#[test]
fn round_trip_empty_images() {
    let zero_width = Img {
        width: 0u32,
        pixels: Vec::new(),
    };
    let bytes = zero_width.encode::<u16>().unwrap();
    assert_eq!(Img::decode::<u16>(&bytes).unwrap(), zero_width);

    let no_rows = Img {
        width: 5u32,
        pixels: Vec::new(),
    };
    let bytes = no_rows.encode::<u16>().unwrap();
    assert_eq!(Img::decode::<u16>(&bytes).unwrap(), no_rows);
}

#[test]
fn run_of_256_splits_into_two_tokens() {
    // A background run of exactly 256 pixels must come out as runs of
    // 255 and 1, never one token with an out-of-range count.
    let img = Img {
        width: 16u32,
        pixels: vec![Pixel::transparent_black(); 256],
    };
    let bytes = img.encode::<u16>().unwrap();

    let mut expected: Vec<u8> = Vec::new();
    for ch in Img::magic_string() {
        expected.push(ch);
    }
    expected.extend_from_slice(
        b"\x00\x00\
        \x00\x00\x00\x10\
        \x00\x00\x00\x10\
        \xFF\xFF\xFF\
        \xFF\xFF\x01",
    );
    assert_eq!(bytes, expected);
    assert_eq!(Img::decode::<u16>(&bytes).unwrap(), img);
}

#[test]
fn overlong_run_is_rejected() {
    // 1x1 image whose single token claims a run of 5 background pixels.
    let mut bytes: Vec<u8> = Vec::new();
    for ch in Img::magic_string() {
        bytes.push(ch);
    }
    bytes.extend_from_slice(
        b"\x00\x00\
        \x00\x00\x00\x01\
        \x00\x00\x00\x01\
        \xFF\xFF\x05",
    );
    assert_eq!(Img::decode::<u16>(&bytes).unwrap_err(), CodecError::OverlongRun);
}

#[test]
fn palette_overflow_at_256_colors() {
    // With one-byte palette ids the top id is reserved, so 255 distinct
    // colors fit and 256 do not.
    let mut too_many: Vec<Pixel> = Vec::new();
    for i in 0..256u32 {
        too_many.push(Pixel {
            r: (i % 256) as u8,
            g: (i / 256) as u8,
            b: 1,
            a: 255,
        });
    }
    let img = Image::<u8> {
        width: 16u8,
        pixels: too_many,
    };
    assert_eq!(img.encode::<u8>().unwrap_err(), CodecError::PaletteOverflow);

    let mut just_enough: Vec<Pixel> = Vec::new();
    for i in 0..255u32 {
        just_enough.push(Pixel {
            r: (i % 256) as u8,
            g: (i / 256) as u8,
            b: 1,
            a: 255,
        });
    }
    let img = Image::<u8> {
        width: 15u8,
        pixels: just_enough,
    };
    let bytes = img.encode::<u8>().unwrap();
    assert_eq!(Image::<u8>::decode::<u8>(&bytes).unwrap(), img);
}

#[test]
fn truncation_at_every_header_boundary() {
    let img = Img {
        width: 2u32,
        pixels: vec![Pixel::red(), Pixel::green(), Pixel::red(), Pixel::blue()],
    };
    let bytes = img.encode::<u16>().unwrap();
    // Layout: magic 0..3, palette count 3..5, palette 5..17,
    // width 17..21, height 21..25, tokens 25..33.
    assert_eq!(bytes.len(), 33);

    let expect = |upto: usize, err: CodecError| {
        assert_eq!(Img::decode::<u16>(&bytes[0..upto]).unwrap_err(), err);
    };
    expect(0, CodecError::MagicMismatch);
    expect(2, CodecError::MagicMismatch);
    expect(3, CodecError::TruncatedHeader);
    expect(4, CodecError::TruncatedHeader);
    expect(5, CodecError::TruncatedPalette);
    expect(16, CodecError::TruncatedPalette);
    expect(17, CodecError::TruncatedDimensions);
    expect(20, CodecError::TruncatedDimensions);
    expect(21, CodecError::TruncatedDimensions);
    expect(24, CodecError::TruncatedDimensions);
    expect(25, CodecError::TruncatedTokenStream);
    expect(31, CodecError::TruncatedTokenStream);
    expect(32, CodecError::TruncatedTokenStream);
}

#[test]
fn truncation_after_run_marker() {
    let img = Img {
        width: 3u32,
        pixels: vec![Pixel::red(), Pixel::transparent_black(), Pixel::transparent_black()],
    };
    let bytes = img.encode::<u16>().unwrap();
    // Tokens are an ordinary id then a run token; dropping the final
    // count byte leaves a bare run marker.
    assert_eq!(
        Img::decode::<u16>(&bytes[0..bytes.len() - 1]).unwrap_err(),
        CodecError::TruncatedRunLength
    );
}

#[test]
fn magic_mismatch_is_reported() {
    assert_eq!(Img::decode::<u16>(&[]).unwrap_err(), CodecError::MagicMismatch);
    assert_eq!(
        Img::decode::<u16>(&[0xCA, 0xC1, 0xC8, 0x00, 0x00]).unwrap_err(),
        CodecError::MagicMismatch
    );
}

#[test]
fn invalid_palette_reference_is_reported() {
    let mut bytes: Vec<u8> = Vec::new();
    for ch in Img::magic_string() {
        bytes.push(ch);
    }
    bytes.extend_from_slice(
        b"\x00\x01\
        \xFF\x00\x00\xFF\
        \x00\x00\x00\x01\
        \x00\x00\x00\x01\
        \x00\x05",
    );
    assert_eq!(
        Img::decode::<u16>(&bytes).unwrap_err(),
        CodecError::InvalidPaletteReference
    );
}

#[test]
fn decode_encode_decode_is_lossless() {
    // The widths a fuzzing harness would drive: decode arbitrary valid
    // bytes, re-encode, decode again, and expect the same image.
    let mut bytes: Vec<u8> = Vec::new();
    for ch in Image::<u16>::magic_string() {
        bytes.push(ch);
    }
    // One palette entry, 2x2 image: id 0, run of 2, id 0.
    bytes.extend_from_slice(
        b"\x00\x01\
        \x12\x34\x56\x78\
        \x00\x02\
        \x00\x02\
        \x00\x00\
        \xFF\xFF\x02\
        \x00\x00",
    );
    let img = Image::<u16>::decode::<u16>(&bytes).unwrap();
    let re_encoded = img.encode::<u16>().unwrap();
    let img_again = Image::<u16>::decode::<u16>(&re_encoded).unwrap();
    assert_eq!(img_again, img);
}

#[test]
fn pixel_from_bytes_channels() {
    let p = Pixel::from_bytes([1, 2, 3, 4]);
    assert_eq!((p.r, p.g, p.b, p.a), (1, 2, 3, 4));
    assert_eq!(
        Pixel::transparent_black(),
        Pixel::from_bytes([0, 0, 0, 0])
    );
}

#[test]
fn bytes_wrapper_compares_by_contents() {
    let a = BytesWrapper { bytes: &[1, 2, 3] };
    let b = BytesWrapper { bytes: &[1, 2, 3] };
    let c = BytesWrapper { bytes: &[1, 2, 4] };
    assert_eq!(a, b);
    assert!(a < c);
    assert_eq!(a.as_bytes(), &[1, 2, 3]);
}
