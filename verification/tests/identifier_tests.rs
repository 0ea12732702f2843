use iiif::error::IiifError;
use iiif::identifier::{lenient_percent_decode, percent_decode, ImageIdentifier};

#[test]
fn valid_simple_identifier() {
    let id = ImageIdentifier::from_encoded("abcd1234").unwrap();
    assert_eq!(id.as_str(), "abcd1234");
}

#[test]
fn valid_encoded_identifier() {
    let id = ImageIdentifier::from_encoded("ark:%2F12025%2F654xz321").unwrap();
    assert_eq!(id.as_str(), "ark:/12025/654xz321");
}

#[test]
fn rejects_empty() {
    assert!(ImageIdentifier::from_encoded("").is_err());
}

#[test]
fn rejects_path_traversal() {
    assert!(ImageIdentifier::from_encoded("..%2Fetc%2Fpasswd").is_err());
    assert!(ImageIdentifier::from_encoded("images/../secrets").is_err());
}

#[test]
fn rejects_absolute_path() {
    assert!(ImageIdentifier::from_encoded("%2Fetc%2Fpasswd").is_err());
}

#[test]
fn decodes_utf8_multibyte_sequences() {
    let id = ImageIdentifier::from_encoded("caf%C3%A9").unwrap();
    assert_eq!(id.as_str(), "café");
    assert_eq!(id.as_str().chars().count(), 4);
}

#[test]
fn decodes_three_byte_utf8() {
    let id = ImageIdentifier::from_encoded("ok%E2%9C%93").unwrap();
    assert_eq!(id.as_str(), "ok✓");
}

#[test]
fn decodes_polish_diacritics() {
    let id = ImageIdentifier::from_encoded("%C5%82amig%C5%82%C3%B3wka").unwrap();
    assert_eq!(id.as_str(), "łamigłówka");
}

#[test]
fn rejects_invalid_utf8_byte_sequence() {
    assert!(ImageIdentifier::from_encoded("bad%C3").is_err());
}

#[test]
fn double_encoded_percent_decodes_once() {
    let id = ImageIdentifier::from_encoded("a%25b").unwrap();
    assert_eq!(id.as_str(), "a%b");

    let id2 = ImageIdentifier::from_encoded("a%2525b").unwrap();
    assert_eq!(id2.as_str(), "a%25b");
}

#[test]
fn identifier_rejections_are_bad_requests() {
    assert_eq!(
        ImageIdentifier::from_encoded("").unwrap_err(),
        IiifError::BadRequest("Image identifier must not be empty".to_string())
    );
    assert_eq!(
        ImageIdentifier::from_encoded("a%2").unwrap_err(),
        IiifError::BadRequest("Incomplete percent-encoding".to_string())
    );
    assert_eq!(
        ImageIdentifier::from_encoded("a%g1").unwrap_err(),
        IiifError::BadRequest("Invalid percent-encoding".to_string())
    );
    assert_eq!(
        ImageIdentifier::from_encoded("%5Cshare").unwrap_err(),
        IiifError::BadRequest("Image identifier must not start with a path separator".to_string())
    );
    assert_eq!(
        ImageIdentifier::from_encoded("bad%FF").unwrap_err(),
        IiifError::BadRequest("Identifier is not valid UTF-8".to_string())
    );
}

#[test]
fn strict_percent_decoding() {
    assert_eq!(percent_decode("a%41b").unwrap(), "aAb");
    assert_eq!(percent_decode("%6a").unwrap(), "j");
    assert_eq!(percent_decode("%+F").unwrap_err(), IiifError::BadRequest("Invalid percent-encoding".to_string()));
    assert_eq!(percent_decode("").unwrap(), "");
    assert_eq!(percent_decode("%4").unwrap_err(), IiifError::BadRequest("Incomplete percent-encoding".to_string()));
    assert_eq!(percent_decode("%zz").unwrap_err(), IiifError::BadRequest("Invalid percent-encoding".to_string()));
    assert_eq!(percent_decode("%FF").unwrap_err(), IiifError::BadRequest("Identifier is not valid UTF-8".to_string()));
}

#[test]
fn lenient_percent_decoding_keeps_stray_percents() {
    assert_eq!(lenient_percent_decode(b"%5E200%2C"), b"^200,".to_vec());
    assert_eq!(lenient_percent_decode(b"100%"), b"100%".to_vec());
    assert_eq!(lenient_percent_decode(b"%zz%41"), b"%zzA".to_vec());
}

#[test]
fn escape_needs_two_hex_digits() {
    assert_eq!(
        ImageIdentifier::from_encoded("%+1").unwrap_err(),
        IiifError::BadRequest("Invalid percent-encoding".to_string())
    );
}
