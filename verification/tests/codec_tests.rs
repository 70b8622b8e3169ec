use xclogger::codec::{CodecError, MessageData};

fn sample_record() -> MessageData {
    MessageData {
        role: "test".to_string(),
        label: "debug".to_string(),
        file: "main.rs".to_string(),
        function: "main".to_string(),
        time: 1234567890,
        process_id: 12345,
        thread_id: 1,
        line: 42,
        level: 1,
        messages: vec!["Hello from Rust!".to_string(), "Success!".to_string()],
    }
}

#[test]
fn test_message() -> Result<(), CodecError> {
    println!("Testing message encoding...");

    let test_message = MessageData {
        role: "test".to_string(),
        label: "debug".to_string(),
        file: "main.rs".to_string(),
        function: "main".to_string(),
        time: 1234567890,
        process_id: 12345,
        thread_id: 1,
        line: 42,
        level: 1,
        messages: vec![
            "Hello from Rust!".to_string(),
            "Calling C++ encoding function".to_string(),
            "Success!".to_string(),
        ],
    };

    println!("Original message: {:?}", test_message);

    let encoded = test_message.encode().expect("Failed to encode message");
    println!("Encoded data length: {} bytes", encoded.len());
    println!(
        "First 16 bytes of encoded data: {:?}",
        &encoded[..16.min(encoded.len())]
    );
    let hash = test_message.hash();
    println!("Hash of encoded data: {:#x}", hash);

    let msg_data = MessageData::from_bytes(&encoded)?;
    println!("Decoded message: {:?}", msg_data);

    Ok(())
}

#[test]
fn round_trip_preserves_every_field() {
    let r = sample_record();
    let encoded = r.encode().unwrap();
    let d = MessageData::from_bytes(&encoded).unwrap();
    assert_eq!(d.role, r.role);
    assert_eq!(d.label, r.label);
    assert_eq!(d.file, r.file);
    assert_eq!(d.function, r.function);
    assert_eq!(d.time, r.time);
    assert_eq!(d.process_id, r.process_id);
    assert_eq!(d.thread_id, r.thread_id);
    assert_eq!(d.line, r.line);
    assert_eq!(d.level, r.level);
    assert_eq!(d.messages, r.messages);
}

#[test]
fn round_trip_empty_messages() {
    let mut r = sample_record();
    r.messages = vec![];
    let encoded = r.encode().unwrap();
    let d = MessageData::from_bytes(&encoded).unwrap();
    assert_eq!(d, r);
}

#[test]
fn round_trip_unicode_messages() {
    let mut r = sample_record();
    r.label = "étiquette".to_string();
    r.messages = vec!["héllo wörld".to_string(), "日志消息 ✓".to_string(), "".to_string()];
    let encoded = r.encode().unwrap();
    let d = MessageData::from_bytes(&encoded).unwrap();
    assert_eq!(d, r);
}

#[test]
fn encode_rejects_interior_nul() {
    let mut r = sample_record();
    r.label = "bad\u{0}label".to_string();
    assert_eq!(r.encode(), Err(CodecError::InvalidStringData));

    let mut r2 = sample_record();
    r2.messages = vec!["fine".to_string(), "not\u{0}fine".to_string()];
    assert_eq!(r2.encode(), Err(CodecError::InvalidStringData));
}

#[test]
fn decode_rejects_truncated_payload() {
    let r = sample_record();
    let encoded = r.encode().unwrap();
    let truncated: Vec<u8> = encoded[..encoded.len() - 1].to_vec();
    assert_eq!(
        MessageData::from_bytes(&truncated),
        Err(CodecError::MalformedPayload)
    );
    let empty: Vec<u8> = Vec::new();
    assert_eq!(
        MessageData::from_bytes(&empty),
        Err(CodecError::MalformedPayload)
    );
}

#[test]
fn decode_rejects_trailing_bytes() {
    let r = sample_record();
    let mut encoded = r.encode().unwrap();
    encoded.push(0);
    assert_eq!(
        MessageData::from_bytes(&encoded),
        Err(CodecError::MalformedPayload)
    );
}

#[test]
fn decode_rejects_invalid_text() {
    let mut r = sample_record();
    r.messages = vec![];
    r.role = "ab".to_string();
    let mut encoded = r.encode().unwrap();
    // The role's bytes sit right after its 8-byte length prefix; 0xff
    // never occurs in UTF-8 text.
    encoded[8] = 0xff;
    assert_eq!(
        MessageData::from_bytes(&encoded),
        Err(CodecError::MalformedPayload)
    );
}

#[test]
fn fingerprint_matches_fnv1a() {
    let empty: Vec<u8> = Vec::new();
    assert_eq!(xclogger::codec::fingerprint(&empty), 0xcbf29ce484222325);
    assert_eq!(xclogger::codec::fingerprint(&vec![0x61]), 0xaf63dc4c8601ec8c);
    assert_eq!(
        xclogger::codec::fingerprint(&vec![0x61, 0x62]),
        0x089c4407b545986a
    );
}

#[test]
fn fingerprint_same_bytes_same_value() {
    let r1 = sample_record();
    let r2 = sample_record();
    assert_eq!(r1.encode().unwrap(), r2.encode().unwrap());
    assert_eq!(r1.hash(), r2.hash());
}

#[test]
fn fingerprint_changes_with_any_field() {
    let base = sample_record();
    let base_hash = base.hash();
    let mut changed = sample_record();
    changed.level = 2;
    assert_ne!(changed.hash(), base_hash);
    let mut changed2 = sample_record();
    changed2.role = "tesu".to_string();
    assert_ne!(changed2.hash(), base_hash);
    let mut changed3 = sample_record();
    changed3.messages = vec!["Hello from Rust!".to_string()];
    assert_ne!(changed3.hash(), base_hash);
}
