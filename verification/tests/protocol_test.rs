use opencli::codec::decode_request;
use opencli::codec::decode_response;
use opencli::codec::encode_request;
use opencli::codec::encode_response;
use opencli::error::OpenCliError;
use opencli::frame::encode_frame;
use opencli::frame::FrameReader;
use opencli::ipc::accept_response;
use opencli::ipc::build_request;
use opencli::ipc::classify_connect_failure;
use opencli::ipc::classify_stream_failure;
use opencli::ipc::handle_response_payload;
use opencli::ipc::ConnectFailure;
use opencli::ipc::IpcRequest;
use opencli::ipc::IpcResponse;
use opencli::ipc::Uuid;

fn sample_response() -> IpcResponse {
    IpcResponse {
        success: true,
        result: "Hi!".to_string(),
        duration_us: 120,
        cached: false,
        request_id: Some("abc123".to_string()),
        error: None,
    }
}

#[test]
fn test_frame_round_trip_empty_payload() {
    let frame = encode_frame(&Vec::new()).unwrap();
    assert_eq!(frame, vec![0u8, 0, 0, 0]);
    let mut reader = FrameReader::new();
    reader.push_chunk(&frame);
    assert_eq!(reader.try_finish(), Some(Vec::new()));
}

#[test]
fn test_frame_chunked_delivery() {
    let payload: Vec<u8> = (0u8..=200).collect();
    let frame = encode_frame(&payload).unwrap();
    assert_eq!(frame.len(), payload.len() + 4);
    // Bytes arrive one at a time.
    let mut reader = FrameReader::new();
    for b in frame.iter() {
        reader.push_chunk(&[*b]);
    }
    assert_eq!(reader.try_finish(), Some(payload.clone()));
    // Bytes arrive in uneven chunks.
    let mut reader = FrameReader::new();
    reader.push_chunk(&frame[..3]);
    reader.push_chunk(&frame[3..10]);
    reader.push_chunk(&frame[10..]);
    assert_eq!(reader.try_finish(), Some(payload.clone()));
    // All bytes arrive at once.
    let mut reader = FrameReader::new();
    reader.push_chunk(&frame);
    assert_eq!(reader.try_finish(), Some(payload));
}

#[test]
fn test_frame_incomplete_is_not_a_message() {
    let payload = vec![1u8, 2, 3, 4, 5];
    let frame = encode_frame(&payload).unwrap();
    let mut reader = FrameReader::new();
    assert_eq!(reader.needed(), 4);
    reader.push_chunk(&frame[..2]);
    assert_eq!(reader.needed(), 2);
    assert_eq!(reader.try_finish(), None);
    reader.push_chunk(&frame[2..6]);
    assert_eq!(reader.needed(), 3);
    assert_eq!(reader.try_finish(), None);
    reader.push_chunk(&frame[6..]);
    assert_eq!(reader.needed(), 0);
    assert_eq!(reader.try_finish(), Some(payload));
}

#[test]
fn test_frame_length_prefix_is_little_endian() {
    let payload = vec![0xaau8; 258];
    let frame = encode_frame(&payload).unwrap();
    assert_eq!(&frame[..4], &[0x02u8, 0x01, 0, 0]);
}

#[test]
fn test_response_round_trip() {
    let resp = sample_response();
    let bytes = encode_response(&resp).unwrap();
    let reference = rmp_serde::to_vec(&(
        true,
        "Hi!".to_string(),
        120u64,
        false,
        Some("abc123".to_string()),
        None::<String>,
    ))
    .unwrap();
    assert_eq!(bytes, reference);
    let back = decode_response(&bytes).unwrap();
    assert_eq!(back.success, resp.success);
    assert_eq!(back.result, resp.result);
    assert_eq!(back.duration_us, resp.duration_us);
    assert_eq!(back.cached, resp.cached);
    assert_eq!(back.request_id, resp.request_id);
    assert_eq!(back.error, resp.error);
}

#[test]
fn test_uint_boundaries_round_trip() {
    for duration in [
        0u64,
        127,
        128,
        255,
        256,
        65535,
        65536,
        0xffff_ffff,
        0x1_0000_0000,
        u64::MAX,
    ] {
        let mut resp = sample_response();
        resp.duration_us = duration;
        let bytes = encode_response(&resp).unwrap();
        let back = decode_response(&bytes).unwrap();
        assert_eq!(back.duration_us, duration);
        let reference = rmp_serde::to_vec(&(
            true,
            "Hi!".to_string(),
            duration,
            false,
            Some("abc123".to_string()),
            None::<String>,
        ))
        .unwrap();
        assert_eq!(bytes, reference);
    }
}

#[test]
fn test_uint_exact_wire_form() {
    // duration_us = 300 must appear as the 16-bit form: 0xcd 0x01 0x2c.
    let mut resp = sample_response();
    resp.duration_us = 300;
    let bytes = encode_response(&resp).unwrap();
    let window: Vec<u8> = vec![0xcd, 0x01, 0x2c];
    assert!(bytes.windows(3).any(|w| w == window.as_slice()));
}

#[test]
fn test_string_length_boundaries_round_trip() {
    // 31 bytes is the last fixstr, 32 the first 8-bit length, 256 the
    // first 16-bit length.
    for len in [0usize, 1, 31, 32, 255, 256, 70000] {
        let mut resp = sample_response();
        resp.result = "x".repeat(len);
        let bytes = encode_response(&resp).unwrap();
        let back = decode_response(&bytes).unwrap();
        assert_eq!(back.result.len(), len);
    }
}

#[test]
fn test_non_ascii_text_round_trip() {
    let request = IpcRequest {
        method: "chat".to_string(),
        params: vec!["gr\u{00fc}n \u{2713} \u{1f600}".to_string()],
        context: vec![("sprach\u{00e9}".to_string(), "\u{00e9}".to_string())],
        request_id: None,
        timeout_ms: None,
    };
    let bytes = encode_request(&request).unwrap();
    let back = decode_request(&bytes).unwrap();
    assert_eq!(back.params, request.params);
    assert_eq!(back.context, request.context);
    assert_eq!(back.request_id, None);
    assert_eq!(back.timeout_ms, None);
}

#[test]
fn test_request_context_round_trip() {
    let request = IpcRequest {
        method: "chat".to_string(),
        params: Vec::new(),
        context: vec![
            ("caller".to_string(), "cli".to_string()),
            ("trace".to_string(), "1".to_string()),
        ],
        request_id: Some("id-1".to_string()),
        timeout_ms: Some(5000),
    };
    let bytes = encode_request(&request).unwrap();
    let back = decode_request(&bytes).unwrap();
    assert_eq!(back.context, request.context);
    // The map survives the MessagePack implementation as well.
    let decoded: (
        String,
        Vec<String>,
        std::collections::HashMap<String, String>,
        Option<String>,
        Option<u64>,
    ) = rmp_serde::from_slice(&bytes).unwrap();
    assert_eq!(decoded.2.get("caller"), Some(&"cli".to_string()));
    assert_eq!(decoded.2.get("trace"), Some(&"1".to_string()));
}

#[test]
fn test_build_request_fills_defaults() {
    let params = vec!["Hello".to_string()];
    let request = build_request("chat", &params);
    assert_eq!(request.method, "chat");
    assert_eq!(request.params, params);
    assert!(request.context.is_empty());
    assert_eq!(request.timeout_ms, Some(30000));
    let id = request.request_id.expect("a fresh correlation id");
    assert!(!id.is_empty());
    assert!(id.chars().all(|c| c.is_ascii_hexdigit()));
}

#[test]
fn test_uuid_hex_digits() {
    let id = Uuid { nanos: 0 };
    assert_eq!(id.to_string(), "0");
    let id = Uuid { nanos: 0xdead_beef };
    assert_eq!(id.to_string(), format!("{:x}", 0xdead_beefu64));
    let id = Uuid { nanos: u128::MAX };
    assert_eq!(id.to_string(), format!("{:x}", u128::MAX));
    assert!(!Uuid::new_v4().to_string().is_empty());
}

#[test]
fn test_failure_surfacing_with_text() {
    let resp = IpcResponse {
        success: false,
        result: String::new(),
        duration_us: 0,
        cached: false,
        request_id: None,
        error: Some("boom".to_string()),
    };
    let bytes = encode_response(&resp).unwrap();
    match handle_response_payload(&bytes) {
        Err(OpenCliError::RequestFailed(m)) => assert_eq!(m, "boom"),
        other => panic!("expected a request failure, got {:?}", other.is_ok()),
    }
}

#[test]
fn test_failure_surfacing_placeholder() {
    let resp = IpcResponse {
        success: false,
        result: String::new(),
        duration_us: 0,
        cached: false,
        request_id: None,
        error: None,
    };
    match accept_response(resp) {
        Err(OpenCliError::RequestFailed(m)) => assert_eq!(m, "Unknown error"),
        _ => panic!("expected a request failure"),
    }
}

#[test]
fn test_liveness_classification() {
    // Nothing listening at the endpoint: the daemon is not running, and
    // only this kind carries the "start the daemon" hint.
    let e = classify_connect_failure(ConnectFailure::Unreachable);
    assert!(matches!(e, OpenCliError::DaemonNotRunning));
    assert!(e.suggest_fix().is_some());
    // Another connection failure keeps its detail.
    let e = classify_connect_failure(ConnectFailure::Other("permission denied".to_string()));
    match e {
        OpenCliError::IpcConnectionFailed(m) => assert_eq!(m, "permission denied"),
        _ => panic!("expected a connection failure"),
    }
    // A stream that closes before a whole frame arrived is an I/O error,
    // not "daemon not running".
    let e = classify_stream_failure("stream closed before a whole frame arrived".to_string());
    match e {
        OpenCliError::IoError(m) => assert!(m.contains("closed")),
        _ => panic!("expected an I/O error"),
    }
}

#[test]
fn test_decode_rejects_garbage() {
    assert!(matches!(
        decode_response(&[0x01]),
        Err(OpenCliError::DeserializationError(_))
    ));
    assert!(matches!(
        decode_response(&[]),
        Err(OpenCliError::DeserializationError(_))
    ));
    // A response record with too few fields is refused.
    let bytes = rmp_serde::to_vec(&(true, "Hi!".to_string())).unwrap();
    assert!(matches!(
        decode_response(&bytes),
        Err(OpenCliError::DeserializationError(_))
    ));
    // Trailing bytes after the record are refused.
    let mut bytes = encode_response(&sample_response()).unwrap();
    bytes.push(0xc0);
    assert!(matches!(
        decode_response(&bytes),
        Err(OpenCliError::DeserializationError(_))
    ));
}

#[test]
fn test_decode_ignores_added_fields() {
    // A future daemon may append fields to the record; the client must
    // not fail on them.
    let bytes = rmp_serde::to_vec(&(
        true,
        "Hi!".to_string(),
        120u64,
        false,
        Some("abc123".to_string()),
        None::<String>,
        "an added field".to_string(),
        7u64,
    ))
    .unwrap();
    let back = decode_response(&bytes).unwrap();
    assert!(back.success);
    assert_eq!(back.result, "Hi!");
}

#[test]
fn test_end_to_end_scenario() {
    // The client's half of one invocation, against a stub daemon that
    // answers on the same byte channel.
    let params = vec!["Hello".to_string()];
    let request = build_request("chat", &params);
    let request_frame = encode_frame(&encode_request(&request).unwrap()).unwrap();

    // The stub daemon reads the frame, decodes the request, and answers.
    let mut daemon_reader = FrameReader::new();
    daemon_reader.push_chunk(&request_frame);
    let request_payload = daemon_reader.try_finish().expect("one whole request frame");
    let seen = decode_request(&request_payload).unwrap();
    assert_eq!(seen.method, "chat");
    assert_eq!(seen.params, vec!["Hello".to_string()]);
    let reply = IpcResponse {
        success: true,
        result: "Hi!".to_string(),
        duration_us: 120,
        cached: false,
        request_id: seen.request_id.clone(),
        error: None,
    };
    let reply_frame = encode_frame(&encode_response(&reply).unwrap()).unwrap();

    // The client reads the reply frame and takes the result.
    let mut client_reader = FrameReader::new();
    client_reader.push_chunk(&reply_frame[..1]);
    client_reader.push_chunk(&reply_frame[1..]);
    let reply_payload = client_reader.try_finish().expect("one whole response frame");
    let decoded = decode_response(&reply_payload).unwrap();
    assert_eq!(decoded.request_id, request.request_id);
    let result = handle_response_payload(&reply_payload).unwrap();
    assert_eq!(result, "Hi!");
}

#[test]
fn test_decode_accepts_longer_header_forms() {
    // The encoders emit the shortest form, but the format admits longer
    // ones; the decoder takes them too.  "Hi!" behind an 8-bit length
    // header instead of the fixstr form:
    let bytes = vec![
        0x96, // 6-element array
        0xc3, // success = true
        0xd9, 0x03, b'H', b'i', b'!', // result as str8
        0xcc, 0x78, // duration_us = 120 as uint8
        0xc2, // cached = false
        0xc0, // request_id absent
        0xc0, // error absent
    ];
    let back = decode_response(&bytes).unwrap();
    assert!(back.success);
    assert_eq!(back.result, "Hi!");
    assert_eq!(back.duration_us, 120);
    assert!(!back.cached);
    assert_eq!(back.request_id, None);
    assert_eq!(back.error, None);
}
