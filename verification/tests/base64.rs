use openmath::base64::{Base64Decodable, Base64Encodable, Error};

#[test]
fn encoder_doc_example() {
    let s = b"ThIs Is A tEsT!!";
    let out = s.as_slice().base64().into_string();
    assert_eq!(out, "VGhJcyBJcyBBIHRFc1QhIQ==");
}

#[test]
fn decoder_doc_example() {
    let s = b"RGlFcyBJc1QgZUluIFRlU3QhIQ==";
    let out = s
        .as_slice()
        .decode_base64()
        .flat()
        .into_iter()
        .map(|u| u.unwrap() as char)
        .collect::<String>();
    assert_eq!(out, "DiEs IsT eIn TeSt!!");
}

#[test]
fn encodes_each_padding_case() {
    assert_eq!(b"".to_vec().base64().into_string(), "");
    assert_eq!(b"f".to_vec().base64().into_string(), "Zg==");
    assert_eq!(b"fo".to_vec().base64().into_string(), "Zm8=");
    assert_eq!(b"foo".to_vec().base64().into_string(), "Zm9v");
    assert_eq!(b"foo bar".to_vec().base64().into_string(), "Zm9vIGJhcg==");
    assert_eq!(vec![0xffu8, 0xfe, 0x00].base64().into_string(), "//4A");
}

#[test]
fn encoder_chunks() {
    let mut e = b"abcd".to_vec().base64();
    assert_eq!(e.next(), Some(*b"YWJj"));
    assert_eq!(e.next(), Some(*b"ZA=="));
    assert_eq!(e.next(), None);
    let chars = b"hi".to_vec().base64().chars();
    assert_eq!(chars, vec!['a', 'G', 'k', '=']);
}

#[test]
fn decoder_groups() {
    let mut d = b"aGVsbG8=".to_vec().decode_base64();
    assert_eq!(d.next(), Some(Ok(*b"hel")));
    assert_eq!(d.next(), Some(Ok([b'l', b'o', 0])));
    assert_eq!(d.next(), None);
}

#[test]
fn decoder_errors() {
    let mut d = b"aGV".to_vec().decode_base64();
    assert_eq!(d.next(), Some(Err(Error::IllegalLength)));
    assert_eq!(d.next(), None);
    let mut d = b"aG=s".to_vec().decode_base64();
    assert_eq!(d.next(), Some(Err(Error::NonsensicalPadding)));
    let mut d = b"aG!s".to_vec().decode_base64();
    assert_eq!(d.next(), Some(Err(Error::IllegalChar(b'!'))));
    assert_eq!(d.next(), Some(Err(Error::IllegalLength)));
    assert_eq!(d.next(), None);
    let flat = b"aGVsbA=".to_vec().decode_base64().flat();
    assert_eq!(flat, vec![Ok(b'h'), Ok(b'e'), Ok(b'l'), Err(Error::IllegalLength)]);
}

#[test]
fn decoder_goes_on_after_error() {
    let flat = b"a!aaaGVs".to_vec().decode_base64().flat();
    assert_eq!(
        flat,
        vec![
            Err(Error::IllegalChar(b'!')),
            Ok(105),
            Ok(166),
            Ok(134),
            Err(Error::IllegalLength)
        ]
    );
}

#[test]
fn roundtrip_keeps_zero_bytes() {
    let data = vec![1u8, 0, 2, 3, 0, 0, 255];
    let encoded: Vec<u8> = data.clone().base64().into_string().into_bytes();
    let decoded: Vec<u8> = encoded.decode_base64().flat().into_iter().map(|r| r.unwrap()).collect();
    assert_eq!(decoded, data);
    for data in [vec![0u8], vec![0u8, 0], vec![0u8, 0, 0], vec![0u8, 1, 2]] {
        let encoded: Vec<u8> = data.clone().base64().into_string().into_bytes();
        let decoded: Vec<u8> = encoded.decode_base64().flat().into_iter().map(|r| r.unwrap()).collect();
        assert_eq!(decoded, data);
    }
    let decoded: Vec<u8> = b"AAEC".to_vec().decode_base64().flat().into_iter().map(|r| r.unwrap()).collect();
    assert_eq!(decoded, vec![0u8, 1, 2]);
}

#[test]
fn padding_only_at_the_end() {
    let mut d = b"QQ==QUJD".to_vec().decode_base64();
    assert_eq!(d.next(), Some(Ok([b'A', 0, 0])));
    assert_eq!(d.next(), Some(Err(Error::NonsensicalPadding)));
    assert_eq!(d.next(), None);
    let flat = b"QQ==QUJD".to_vec().decode_base64().flat();
    assert_eq!(flat, vec![Ok(b'A'), Err(Error::NonsensicalPadding)]);
    assert_eq!(Error::NonsensicalPadding.message(), "base64 string has characters after padding");
}

#[test]
fn roundtrip_without_zero_bytes() {
    let data: Vec<u8> = (1u8..=255).collect();
    let encoded: Vec<u8> = data.clone().base64().into_string().into_bytes();
    assert_eq!(encoded.len(), 4 * ((data.len() + 2) / 3));
    let decoded: Vec<u8> = encoded.decode_base64().flat().into_iter().map(|r| r.unwrap()).collect();
    assert_eq!(decoded, data);
}

#[test]
fn error_messages() {
    assert_eq!(Error::IllegalLength.message(), "length not divisible by 4");
    assert_eq!(Error::IllegalChar(b'x').message(), "base64 string contains illegal characters");
}
