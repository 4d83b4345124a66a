use utf8_codec::decode_utf8;
use utf8_codec::encode_utf8;
use utf8_codec::DecodeUtf8ErrorKind;
use utf8_codec::EncodeUtf8ErrorKind;

#[test]
fn test_encode() {
    let texts: [&str; 6] = [
        "Hello, world!",
        "学习 UTF-8 编码",
        "αβγδε ñ é ü",
        "🎉🌍 \u{10FFFF}",
        "\u{7f}\u{80}\u{7ff}\u{800}\u{ffff}\u{10000}",
        "",
    ];
    for text in texts.iter() {
        let chars: Vec<u32> = text.chars().map(|c| c as u32).collect();
        assert_eq!(encode_utf8(&chars).unwrap(), text.as_bytes());
    }
}

#[test]
fn test_encode_error() {
    let mut src: Vec<u32> = vec!['a' as u32, 'b' as u32, 'c' as u32];
    let invalid_char: u32 = 1 << 21;
    src.push(invalid_char);

    let output = encode_utf8(&src);
    assert!(output.is_err());
    assert_eq!(output.unwrap_err().index, 3);
}

#[test]
fn test_decode() {
    let texts: [&str; 6] = [
        "Hello, world!",
        "学习 UTF-8 编码",
        "αβγδε ñ é ü",
        "🎉🌍 \u{10FFFF}",
        "\u{7f}\u{80}\u{7ff}\u{800}\u{ffff}\u{10000}",
        "",
    ];
    for text in texts.iter() {
        let chars: Vec<u32> = text.chars().map(|c| c as u32).collect();
        assert_eq!(decode_utf8(text.as_bytes()).unwrap(), chars);
    }
}

#[test]
fn test_decode_error() {
    let mut src = "学习".as_bytes().to_vec();
    src.remove(0);

    let output = decode_utf8(&src);
    assert!(output.is_err());
    let error = output.unwrap_err();
    assert_eq!(error.index, 0);
}

#[test]
fn test_decode_error_kind_is_missing_start_byte() {
    // "学习" with its lead byte removed: a lone continuation byte at index 0.
    let src: Vec<u8> = vec![0xAD, 0xA6, 0xE4, 0xB9, 0xA0];
    let error = decode_utf8(&src).unwrap_err();
    assert_eq!(error.index, 0);
    assert_eq!(error.kind, DecodeUtf8ErrorKind::MissingStartByte);
    assert_eq!(error.src, &src[..]);
}

#[test]
fn test_encode_error_kind_is_invalid_code_point() {
    let src: Vec<u32> = vec!['a' as u32, 'b' as u32, 'c' as u32, 0x200000];
    let error = encode_utf8(&src).unwrap_err();
    assert_eq!(error.index, 3);
    assert_eq!(error.kind, EncodeUtf8ErrorKind::InvalidCodePoint);
    assert_eq!(error.src, &src[..]);
}

#[test]
fn test_boundary_lengths() {
    let cases: [(u32, usize); 6] = [
        (0x7F, 1),
        (0x80, 2),
        (0x7FF, 2),
        (0x800, 3),
        (0xFFFF, 3),
        (0x10000, 4),
    ];
    for &(scalar, expected_len) in cases.iter() {
        let src: Vec<u32> = vec![scalar];
        let bytes = encode_utf8(&src).unwrap();
        assert_eq!(bytes.len(), expected_len);
        assert_eq!(decode_utf8(&bytes).unwrap(), src);
    }
}

#[test]
fn test_exact_bytes_of_each_length() {
    assert_eq!(encode_utf8(&[0x41]).unwrap(), &[0x41][..]);
    assert_eq!(encode_utf8(&[0xE9]).unwrap(), &[0xC3, 0xA9][..]);
    assert_eq!(encode_utf8(&[0x5B66]).unwrap(), &[0xE5, 0xAD, 0xA6][..]);
    assert_eq!(encode_utf8(&[0x1F389]).unwrap(), &[0xF0, 0x9F, 0x8E, 0x89][..]);
}

#[test]
fn test_empty_input() {
    let no_bytes: Vec<u8> = Vec::new();
    assert_eq!(decode_utf8(&no_bytes).unwrap(), Vec::<u32>::new());
    let no_scalars: Vec<u32> = Vec::new();
    assert_eq!(encode_utf8(&no_scalars).unwrap(), Vec::<u8>::new());
}

#[test]
fn test_truncated_three_byte_lead() {
    let src: Vec<u8> = vec![0xE0];
    let error = decode_utf8(&src).unwrap_err();
    assert_eq!(error.index, 0);
    assert_eq!(error.kind, DecodeUtf8ErrorKind::NotEnoughBytes);

    let longer: Vec<u8> = vec![0xE0, 0x80];
    let error = decode_utf8(&longer).unwrap_err();
    assert_eq!(error.index, 0);
    assert_eq!(error.kind, DecodeUtf8ErrorKind::NotEnoughBytes);
}

#[test]
fn test_truncated_other_leads() {
    let src: Vec<u8> = vec![0x61, 0xC3];
    let error = decode_utf8(&src).unwrap_err();
    assert_eq!(error.index, 1);
    assert_eq!(error.kind, DecodeUtf8ErrorKind::NotEnoughBytes);

    let four: Vec<u8> = vec![0xF0, 0x90, 0x8C];
    let error = decode_utf8(&four).unwrap_err();
    assert_eq!(error.index, 0);
    assert_eq!(error.kind, DecodeUtf8ErrorKind::NotEnoughBytes);
}

#[test]
fn test_invalid_start_byte() {
    for lead in [0xF8u8, 0xFB, 0xFF] {
        let src: Vec<u8> = vec![lead];
        let error = decode_utf8(&src).unwrap_err();
        assert_eq!(error.index, 0);
        assert_eq!(error.kind, DecodeUtf8ErrorKind::InvalidStartByte);
    }
}

#[test]
fn test_invalid_trailing_byte() {
    // second byte of a two-byte sequence is plain ASCII
    let src: Vec<u8> = vec![0xC3, 0x28];
    let error = decode_utf8(&src).unwrap_err();
    assert_eq!(error.index, 1);
    assert_eq!(error.kind, DecodeUtf8ErrorKind::InvalidTrailingByte);

    // third byte of a three-byte sequence starts a new sequence instead
    let three: Vec<u8> = vec![0xE5, 0xAD, 0xC3];
    let error = decode_utf8(&three).unwrap_err();
    assert_eq!(error.index, 2);
    assert_eq!(error.kind, DecodeUtf8ErrorKind::InvalidTrailingByte);
}

#[test]
fn test_round_trip_all_lengths() {
    let src: Vec<u32> = vec![
        0x0, 0x41, 0x7F, 0x80, 0x7FF, 0x800, 0xD7FF, 0xD800, 0xE000, 0xFFFF, 0x10000, 0x10FFFF,
        0x1FFFFF,
    ];
    let bytes = encode_utf8(&src).unwrap();
    assert_eq!(decode_utf8(&bytes).unwrap(), src);
}

#[test]
fn test_overlong_encoding_is_accepted() {
    // structural validity only: the two-byte overlong form of 0x7F decodes
    let decoded = decode_utf8(&[0xC1, 0xBF]).unwrap();
    assert_eq!(decoded, vec![0x7F]);
}

#[test]
fn test_fault_after_valid_prefix() {
    // two good scalars, then a lone continuation byte
    let src: Vec<u8> = vec![0x61, 0xC3, 0xA9, 0x80];
    let error = decode_utf8(&src).unwrap_err();
    assert_eq!(error.index, 3);
    assert_eq!(error.kind, DecodeUtf8ErrorKind::MissingStartByte);
}
