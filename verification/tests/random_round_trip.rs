use opencli::codec::decode_request;
use opencli::codec::decode_response;
use opencli::codec::encode_request;
use opencli::codec::encode_response;
use opencli::frame::encode_frame;
use opencli::frame::FrameReader;
use opencli::ipc::IpcRequest;
use opencli::ipc::IpcResponse;
use std::collections::HashMap;

/// A small deterministic generator, so the sweep is reproducible.
struct Lcg(u64);

impl Lcg {
    fn next(&mut self) -> u64 {
        self.0 = self
            .0
            .wrapping_mul(6364136223846793005)
            .wrapping_add(1442695040888963407);
        self.0 >> 33
    }

    fn below(&mut self, n: u64) -> u64 {
        self.next() % n
    }

    fn string(&mut self) -> String {
        let alphabet = ['a', 'B', '0', ' ', '-', '\u{00e9}', '\u{4e2d}', '\u{1f600}'];
        let len = self.below(40) as usize;
        let mut s = String::new();
        for _ in 0..len {
            s.push(alphabet[self.below(alphabet.len() as u64) as usize]);
        }
        s
    }

    fn opt_string(&mut self) -> Option<String> {
        if self.below(3) == 0 {
            None
        } else {
            Some(self.string())
        }
    }
}

#[test]
fn test_random_request_round_trip() {
    let mut gen = Lcg(7);
    for _ in 0..100 {
        let mut keys: Vec<String> = Vec::new();
        let mut context: Vec<(String, String)> = Vec::new();
        for k in 0..gen.below(4) {
            let key = format!("k{}-{}", k, gen.string());
            keys.push(key.clone());
            context.push((key, gen.string()));
        }
        let request = IpcRequest {
            method: format!("m{}", gen.string()),
            params: (0..gen.below(5)).map(|_| gen.string()).collect(),
            context,
            request_id: gen.opt_string(),
            timeout_ms: if gen.below(2) == 0 {
                None
            } else {
                Some(gen.next())
            },
        };
        let bytes = encode_request(&request).unwrap();
        let back = decode_request(&bytes).unwrap();
        assert_eq!(back.method, request.method);
        assert_eq!(back.params, request.params);
        assert_eq!(back.context, request.context);
        assert_eq!(back.request_id, request.request_id);
        assert_eq!(back.timeout_ms, request.timeout_ms);
        // The MessagePack implementation reads the same bytes the same way.
        let decoded: (
            String,
            Vec<String>,
            HashMap<String, String>,
            Option<String>,
            Option<u64>,
        ) = rmp_serde::from_slice(&bytes).unwrap();
        assert_eq!(decoded.0, request.method);
        assert_eq!(decoded.1, request.params);
        assert_eq!(decoded.2.len(), request.context.len());
        assert_eq!(decoded.3, request.request_id);
        assert_eq!(decoded.4, request.timeout_ms);
    }
}

#[test]
fn test_random_response_round_trip_chunked() {
    let mut gen = Lcg(11);
    for _ in 0..100 {
        let response = IpcResponse {
            success: gen.below(2) == 0,
            result: gen.string(),
            duration_us: gen.next(),
            cached: gen.below(2) == 0,
            request_id: gen.opt_string(),
            error: gen.opt_string(),
        };
        let payload = encode_response(&response).unwrap();
        let frame = encode_frame(&payload).unwrap();
        // Deliver the frame in chunks of random small sizes.
        let mut reader = FrameReader::new();
        let mut at: usize = 0;
        while at < frame.len() {
            let step = 1 + gen.below(7) as usize;
            let end = (at + step).min(frame.len());
            reader.push_chunk(&frame[at..end]);
            at = end;
        }
        let delivered = reader.try_finish().expect("the frame is complete");
        assert_eq!(delivered, payload);
        let back = decode_response(&delivered).unwrap();
        assert_eq!(back.success, response.success);
        assert_eq!(back.result, response.result);
        assert_eq!(back.duration_us, response.duration_us);
        assert_eq!(back.cached, response.cached);
        assert_eq!(back.request_id, response.request_id);
        assert_eq!(back.error, response.error);
    }
}
