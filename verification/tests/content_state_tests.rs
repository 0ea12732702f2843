use iiif::content_state::{
    base64url_decode, base64url_encode, check_content_state, decode_content_state, encode_content_state,
    validate_content_state, EncodeResponse, JsonDoc,
};
use iiif::error::IiifError;

#[test]
fn encode_decode_roundtrip() {
    let original = r#"{"id":"https://example.org/canvas/1","type":"Canvas"}"#;
    let encoded = encode_content_state(original);
    let decoded = decode_content_state(&encoded).unwrap();
    assert_eq!(original, decoded);
}

#[test]
fn encode_known_value() {
    assert_eq!(base64url_encode(b"Hello"), "SGVsbG8");
}

#[test]
fn decode_known_value() {
    let result = base64url_decode("SGVsbG8").unwrap();
    assert_eq!(result, b"Hello");
}

#[test]
fn validate_annotation() {
    let json = r#"{"type":"Annotation","motivation":"contentState","target":{"id":"https://example.org/canvas/1","type":"Canvas"}}"#;
    assert!(validate_content_state(json).is_ok());
}

#[test]
fn validate_target_body() {
    let json = r#"{"id":"https://example.org/canvas/1","type":"Canvas"}"#;
    assert!(validate_content_state(json).is_ok());
}

#[test]
fn validate_uri() {
    let json = r#""https://example.org/annotation/1""#;
    assert!(validate_content_state(json).is_ok());
}

#[test]
fn validate_invalid() {
    assert!(validate_content_state(r#"{"foo":"bar"}"#).is_err());
    assert!(validate_content_state("not json").is_err());
}

#[test]
fn handles_unicode() {
    let original = r#"{"id":"https://example.org/opis","type":"Canvas","label":"Opis po polsku: źdźbło"}"#;
    let encoded = encode_content_state(original);
    let decoded = decode_content_state(&encoded).unwrap();
    assert_eq!(original, decoded);
}

#[test]
fn encoding_is_unpadded_url_safe() {
    assert_eq!(
        encode_content_state(r#"{"id":"https://example.org/canvas/1","type":"Canvas"}"#),
        "eyJpZCI6Imh0dHBzOi8vZXhhbXBsZS5vcmcvY2FudmFzLzEiLCJ0eXBlIjoiQ2FudmFzIn0"
    );
    assert_eq!(base64url_encode(&[0xfb, 0xff]), "-_8");
    assert_eq!(base64url_encode(b""), "");
    assert_eq!(base64url_decode("-_8").unwrap(), vec![0xfb, 0xff]);
    let r = EncodeResponse { encoded: base64url_encode(b"Hi") };
    assert_eq!(r.encoded, "SGk");
}

#[test]
fn decoding_rejects_bad_input() {
    assert_eq!(
        base64url_decode("S").unwrap_err(),
        IiifError::BadRequest("Invalid base64url length".to_string())
    );
    assert_eq!(
        base64url_decode("SG*s").unwrap_err(),
        IiifError::BadRequest("Invalid base64url character: *".to_string())
    );
    assert_eq!(
        base64url_decode("S*").unwrap_err(),
        IiifError::BadRequest("Invalid base64url character: *".to_string())
    );
    assert_eq!(base64url_decode("SGVsbG8=").unwrap(), b"Hello".to_vec());
    assert_eq!(
        decode_content_state("S").unwrap_err(),
        IiifError::BadRequest("Invalid base64url length".to_string())
    );
    assert_eq!(
        decode_content_state("_w").unwrap_err(),
        IiifError::BadRequest("Content state is not valid UTF-8: invalid utf-8 sequence of 1 bytes from index 0".to_string())
    );
}

#[test]
fn content_state_forms() {
    let form_error =
        IiifError::BadRequest("Content state must be an Annotation, a resource with id/type, or a URI string".to_string());
    assert_eq!(validate_content_state(r#"{"foo":"bar"}"#).unwrap_err(), form_error);
    assert_eq!(validate_content_state(r#""ftp://x""#).unwrap_err(), form_error);
    assert_eq!(validate_content_state("42").unwrap_err(), form_error);
    assert_eq!(validate_content_state(r#"{"id":"x"}"#).unwrap_err(), form_error);
    assert!(validate_content_state(r#"{"type":"Annotation"}"#).is_ok());
    assert!(validate_content_state(r#"{"type":7,"id":null}"#).is_ok());
    match validate_content_state("not json").unwrap_err() {
        IiifError::BadRequest(m) => assert!(m.starts_with("Invalid JSON in content state: ")),
        other => panic!("unexpected {other:?}"),
    }
    let doc = JsonDoc::Object(vec![("type".to_string(), Some("Annotation".to_string()))]);
    assert!(check_content_state(&doc).is_ok());
    assert!(check_content_state(&JsonDoc::Text("http://x".to_string())).is_ok());
    assert!(check_content_state(&JsonDoc::Other).is_err());
}
