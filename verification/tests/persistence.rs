use snark_evm::DeploymentCode;

fn round_trip(bytes: Vec<u8>) -> DeploymentCode {
    let original = DeploymentCode::new(bytes);
    let document = original.to_json();
    let loaded = DeploymentCode::from_json(&document).expect("writer output must decode");
    assert_eq!(loaded.code(), original.code());
    loaded
}

#[test]
fn empty_round_trip() {
    let loaded = round_trip(vec![]);
    assert_eq!(loaded.len(), 0);
    assert!(loaded.is_empty());
}

#[test]
fn non_empty_round_trip() {
    let loaded = round_trip(vec![0x00, 0x01, 0xFE, 0xFF]);
    assert_eq!(loaded.code(), &vec![0x00u8, 0x01, 0xFE, 0xFF]);
}

#[test]
fn single_byte_round_trip() {
    for b in [0u8, 9, 10, 99, 100, 255] {
        round_trip(vec![b]);
    }
}

#[test]
fn kilobyte_round_trip() {
    let bytes: Vec<u8> = (0..1024u32).map(|i| (i % 251) as u8).collect();
    round_trip(bytes);
}

#[test]
fn all_octet_values_round_trip() {
    let bytes: Vec<u8> = (0..=255u8).collect();
    round_trip(bytes);
}

#[test]
fn exact_document_bytes() {
    let c = DeploymentCode::new(vec![0, 1, 254, 255]);
    assert_eq!(c.to_json(), b"{\"code\":[0,1,254,255]}".to_vec());
}

#[test]
fn exact_empty_document_bytes() {
    let c = DeploymentCode::new(vec![]);
    assert_eq!(c.to_json(), b"{\"code\":[]}".to_vec());
}

#[test]
fn malformed_content_is_rejected() {
    assert!(DeploymentCode::from_json(b"not a valid encoding").is_none());
}

#[test]
fn malformed_documents_are_rejected() {
    // leading zero
    assert!(DeploymentCode::from_json(b"{\"code\":[01]}").is_none());
    // value out of octet range
    assert!(DeploymentCode::from_json(b"{\"code\":[256]}").is_none());
    // trailing comma
    assert!(DeploymentCode::from_json(b"{\"code\":[1,]}").is_none());
    // missing closing brace
    assert!(DeploymentCode::from_json(b"{\"code\":[1]").is_none());
    // wrong key
    assert!(DeploymentCode::from_json(b"{\"node\":[1]}").is_none());
    // truncated
    assert!(DeploymentCode::from_json(b"{\"code\":[").is_none());
    // a second field is not part of the schema
    assert!(DeploymentCode::from_json(b"{\"code\":[1],\"x\":2}").is_none());
    // whitespace inside the key token changes the key
    assert!(DeploymentCode::from_json(b"{\" code\":[1]}").is_none());
    // whitespace inside a number splits it
    assert!(DeploymentCode::from_json(b"{\"code\":[1 2]}").is_none());
}

#[test]
fn whitespace_between_tokens_is_insignificant() {
    let loaded = DeploymentCode::from_json(b"{\"code\": [1]}").unwrap();
    assert_eq!(loaded.code(), &vec![1u8]);
    let loaded = DeploymentCode::from_json(b"{ \"code\" : [ 0 , 255 ] }").unwrap();
    assert_eq!(loaded.code(), &vec![0u8, 255]);
    let loaded = DeploymentCode::from_json(b"{\"code\":[0,1,254,255]}\n").unwrap();
    assert_eq!(loaded.code(), &vec![0u8, 1, 254, 255]);
    let loaded = DeploymentCode::from_json(b"\t{\r\n  \"code\":\t[\r\n    7\r\n  ]\r\n}\r\n").unwrap();
    assert_eq!(loaded.code(), &vec![7u8]);
    let loaded = DeploymentCode::from_json(b"{\"code\":[ ]}").unwrap();
    assert!(loaded.is_empty());
}

#[test]
fn pretty_printed_json_round_trips() {
    let payload = vec![0u8, 1, 254, 255];
    let c = DeploymentCode::new(payload.clone());
    let document = c.to_json();
    let text = String::from_utf8(document).unwrap();
    let value: serde_json::Value = serde_json::from_str(&text).unwrap();
    let pretty = serde_json::to_string_pretty(&value).unwrap();
    let loaded = DeploymentCode::from_json(pretty.as_bytes()).expect("pretty form must decode");
    assert_eq!(loaded.code(), &payload);
}

#[test]
fn accepted_documents_decode_to_their_bytes() {
    let loaded = DeploymentCode::from_json(b"{\"code\":[7]}").unwrap();
    assert_eq!(loaded.code(), &vec![7u8]);
    let loaded = DeploymentCode::from_json(b"{\"code\":[10,200,0]}").unwrap();
    assert_eq!(loaded.code(), &vec![10u8, 200, 0]);
}

#[test]
fn length_and_emptiness_agree() {
    let empty = DeploymentCode::new(vec![]);
    assert_eq!(empty.len(), 0);
    assert!(empty.is_empty());
    let full = DeploymentCode::new(vec![1, 2, 3]);
    assert_eq!(full.len(), 3);
    assert!(!full.is_empty());
}

#[test]
fn byte_view_matches_contents() {
    let bytes = vec![5u8, 6, 7];
    let c = DeploymentCode::new(bytes.clone());
    let view: &Vec<u8> = c.code();
    assert_eq!(view, &bytes);
}

#[test]
fn serde_json_reads_writer_output() {
    let payload = vec![0u8, 1, 254, 255];
    let c = DeploymentCode::new(payload.clone());
    let document = c.to_json();
    let text = String::from_utf8(document.clone()).expect("document is ASCII");
    let value: serde_json::Value = serde_json::from_str(&text).expect("document is valid JSON");
    let array = value
        .get("code")
        .expect("document has a code field")
        .as_array()
        .expect("code field is an array");
    let bytes: Vec<u8> = array
        .iter()
        .map(|n| n.as_u64().expect("octet is an integer") as u8)
        .collect();
    assert_eq!(bytes, payload);
}

#[test]
fn writer_output_matches_compact_json() {
    let payload = vec![0u8, 1, 254, 255];
    let c = DeploymentCode::new(payload.clone());
    let document = c.to_json();
    let numbers: Vec<serde_json::Value> = payload
        .iter()
        .map(|b| serde_json::Value::Number(serde_json::Number::from(*b)))
        .collect();
    let mut map = serde_json::Map::new();
    map.insert("code".to_string(), serde_json::Value::Array(numbers));
    let compact = serde_json::to_string(&serde_json::Value::Object(map)).unwrap();
    assert_eq!(compact.as_bytes(), &document[..]);
}
