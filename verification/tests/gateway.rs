use psg_gateway::dispatch::{
    proxy_handler, redirect_to_backend, Decision, InboundRequest, UpstreamOutcome,
};
use psg_gateway::hexcode::{decode_hex, encode_hex};
use psg_gateway::keys::KeyStore;
use psg_gateway::mac::verify_signature;
use psg_gateway::multipart::{encode_multipart, parse_multipart, MultipartField};
use psg_gateway::notary::sign_artwork;

use hmac::Mac;

// A seed from the reference test vectors of the signature scheme, with
// the signature it yields over the empty message.
const SEED_HEX: &str = "9d61b19deffd5a60ba844af492ec2cc44449c5697b326919703bac031cae7f60";
const EMPTY_MSG_SIG_HEX: &str = "e5564300c360ac729086e2cc806e828a84877f1eb8e5d974d873e06522490155\
5fb8821590a33bacc61e39701cf9b46bd25bf5f0595bbe24655141438e7a100b";

fn test_keys(integrity: &[u8]) -> KeyStore {
    KeyStore::load(integrity.to_vec(), SEED_HEX).unwrap()
}

fn mac_hex(key: &[u8], msg: &[u8]) -> String {
    let mut m = <hmac::Hmac<sha2::Sha256> as hmac::Mac>::new_from_slice(key).unwrap();
    m.update(msg);
    encode_hex(m.finalize().into_bytes().as_slice())
}

#[test]
fn encode_hex_known_value() {
    assert_eq!(encode_hex(&[0x00, 0xab, 0xff]), "00abff");
    assert_eq!(encode_hex(&[]), "");
}

#[test]
fn decode_hex_round_trip_and_case() {
    assert_eq!(decode_hex("00abff"), Some(vec![0x00, 0xab, 0xff]));
    assert_eq!(decode_hex("00ABFF"), Some(vec![0x00, 0xab, 0xff]));
    assert_eq!(decode_hex(""), Some(vec![]));
}

#[test]
fn decode_hex_rejects_malformed() {
    assert_eq!(decode_hex("abc"), None);
    assert_eq!(decode_hex("zz"), None);
    assert_eq!(decode_hex("0g"), None);
}

#[test]
fn verify_accepts_own_mac() {
    let keys = test_keys(b"an integrity key");
    let body = b"some payload bytes";
    let sig = mac_hex(b"an integrity key", body);
    assert!(verify_signature(body, &sig, &keys));
}

#[test]
fn verify_known_mac_vector() {
    // RFC 4231 test case 2.
    let keys = test_keys(b"Jefe");
    let body = b"what do ya want for nothing?";
    let sig = "5bdcc146bf60754e6a042426089575c75a003f089d2739839dec58b964ec3843";
    assert!(verify_signature(body, sig, &keys));
}

#[test]
fn verify_rejects_mac_of_other_body() {
    let keys = test_keys(b"an integrity key");
    let sig_other = mac_hex(b"an integrity key", b"a different payload");
    assert!(!verify_signature(b"some payload bytes", &sig_other, &keys));
}

#[test]
fn verify_rejects_invalid_hex() {
    let keys = test_keys(b"an integrity key");
    assert!(!verify_signature(b"body", "not hexadecimal!", &keys));
    assert!(!verify_signature(b"body", "abc", &keys));
    assert!(!verify_signature(b"body", "", &keys));
}

#[test]
fn keystore_rejects_malformed_seed() {
    assert!(KeyStore::load(b"k".to_vec(), "zz").is_err());
    assert!(KeyStore::load(b"k".to_vec(), "abcd").is_err());
    assert!(KeyStore::load(b"k".to_vec(), SEED_HEX).is_ok());
}

#[test]
fn notarize_known_vector() {
    // RFC 8032 test 1: the signature over the empty message.
    let keys = test_keys(b"k");
    assert_eq!(sign_artwork(b"", &keys), EMPTY_MSG_SIG_HEX);
}

#[test]
fn notarize_deterministic() {
    let keys = test_keys(b"k");
    let a = sign_artwork(b"artifact bytes", &keys);
    let b = sign_artwork(b"artifact bytes", &keys);
    assert_eq!(a, b);
    let c = sign_artwork(b"artifact byteZ", &keys);
    assert_ne!(a, c);
    assert_eq!(a.len(), 128);
}

fn field(name: &[u8], filename: Option<&[u8]>, mime: Option<&[u8]>, data: &[u8]) -> MultipartField {
    MultipartField {
        name: name.to_vec(),
        filename: filename.map(|f| f.to_vec()),
        mime: mime.map(|m| m.to_vec()),
        data: data.to_vec(),
    }
}

#[test]
fn multipart_encode_exact_bytes() {
    let fields = vec![field(b"title", None, None, b"sunset")];
    let body = encode_multipart(b"XBOUND", &fields);
    let expected = b"--XBOUND\r\nContent-Disposition: form-data; name=\"title\"\r\n\r\nsunset\r\n--XBOUND--\r\n";
    assert_eq!(body, expected.to_vec());
}

#[test]
fn multipart_round_trip_fields() {
    let fields = vec![
        field(b"title", None, None, b"sunset"),
        field(b"description", None, None, b"a quiet evening"),
        field(b"file", Some(b"a.png"), Some(b"image/png"), &[0u8, 1, 2, 255, 13, 10, 45]),
    ];
    let body = encode_multipart(b"XBOUND", &fields);
    let parsed = parse_multipart(&body, b"XBOUND").expect("framing holds");
    assert_eq!(parsed.len(), 3);
    for (p, f) in parsed.iter().zip(fields.iter()) {
        assert_eq!(p.name, f.name);
        assert_eq!(p.filename, f.filename);
        assert_eq!(p.mime, f.mime);
        assert_eq!(p.data, f.data);
    }
}

#[test]
fn multipart_parse_rejects_bad_framing() {
    assert!(parse_multipart(b"not a multipart body", b"XBOUND").is_none());
    assert!(parse_multipart(b"--XBOUND\r\ntruncated", b"XBOUND").is_none());
    assert!(parse_multipart(b"", b"XBOUND").is_none());
}

fn json_request(body: &[u8], signature: Option<String>) -> InboundRequest {
    InboundRequest {
        method: b"POST".to_vec(),
        path_and_query: b"/api/things".to_vec(),
        content_type: b"application/json".to_vec(),
        signature,
        body: body.to_vec(),
    }
}

#[test]
fn scenario_json_with_correct_signature_is_forwarded() {
    let keys = test_keys(b"scenario key");
    let body = b"{\"name\":\"x\"}";
    let sig = mac_hex(b"scenario key", body);
    let req = json_request(body, Some(sig));
    match proxy_handler(&req, &keys) {
        Decision::Forward { body: fwd, seal } => {
            assert_eq!(fwd, body.to_vec());
            assert!(seal.is_none());
        },
        Decision::Reject { .. } => panic!("expected forwarding"),
    }
    // The backend echoes 200; the gateway relays it unchanged.
    let relayed = redirect_to_backend(UpstreamOutcome::Reply {
        status: 200,
        body: body.to_vec(),
    });
    assert_eq!(relayed.status, 200);
    assert_eq!(relayed.body, body.to_vec());
}

#[test]
fn scenario_json_with_signature_of_other_body_is_rejected() {
    let keys = test_keys(b"scenario key");
    let sig = mac_hex(b"scenario key", b"{\"name\":\"other\"}");
    let req = json_request(b"{\"name\":\"x\"}", Some(sig));
    match proxy_handler(&req, &keys) {
        Decision::Reject { status, message } => {
            assert_eq!(status, 401);
            assert_eq!(message, "Invalid Integrity Signature");
        },
        Decision::Forward { .. } => panic!("expected rejection"),
    }
}

#[test]
fn scenario_json_without_signature_is_rejected() {
    let keys = test_keys(b"scenario key");
    let req = json_request(b"{}", None);
    match proxy_handler(&req, &keys) {
        Decision::Reject { status, .. } => assert_eq!(status, 401),
        Decision::Forward { .. } => panic!("expected rejection"),
    }
}

fn multipart_request(path: &str, boundary: &str, fields: &Vec<MultipartField>, signature: Option<String>) -> InboundRequest {
    let body = encode_multipart(boundary.as_bytes(), fields);
    InboundRequest {
        method: b"POST".to_vec(),
        path_and_query: path.as_bytes().to_vec(),
        content_type: format!("multipart/form-data; boundary={}", boundary).into_bytes(),
        signature,
        body,
    }
}

#[test]
fn scenario_multipart_creation_carries_distinct_seals() {
    let keys = test_keys(b"scenario key");
    let file_a = vec![1u8, 2, 3, 4];
    let file_b = vec![1u8, 2, 3, 5];
    let mut seals: Vec<String> = Vec::new();
    for file in [&file_a, &file_b] {
        let fields = vec![
            field(b"title", None, None, b"sunset"),
            field(b"file", Some(b"a.png"), Some(b"image/png"), file),
        ];
        let sig = mac_hex(b"scenario key", file);
        let req = multipart_request("/post/create", "XBOUND", &fields, Some(sig));
        match proxy_handler(&req, &keys) {
            Decision::Forward { body, seal } => {
                let seal = seal.expect("creation route earns a seal");
                assert!(!seal.is_empty());
                seals.push(seal);
                // The forwarded body still parses and carries the file.
                let parsed = parse_multipart(&body, b"XBOUND").unwrap();
                assert_eq!(parsed.len(), 2);
                assert_eq!(parsed[1].name, b"file".to_vec());
                assert_eq!(parsed[1].data, file.clone());
            },
            Decision::Reject { .. } => panic!("expected forwarding"),
        }
    }
    assert_ne!(seals[0], seals[1]);
}

#[test]
fn scenario_multipart_off_route_gets_no_seal() {
    let keys = test_keys(b"scenario key");
    let fields = vec![field(b"file", Some(b"a.png"), None, &[9u8, 9])];
    let sig = mac_hex(b"scenario key", &[9u8, 9]);
    let req = multipart_request("/api/other", "XBOUND", &fields, Some(sig));
    match proxy_handler(&req, &keys) {
        Decision::Forward { seal, .. } => assert!(seal.is_none()),
        Decision::Reject { .. } => panic!("expected forwarding"),
    }
}

#[test]
fn scenario_multipart_bad_signature_is_rejected_before_forwarding() {
    let keys = test_keys(b"scenario key");
    let fields = vec![field(b"file", Some(b"a.png"), None, &[9u8, 9])];
    let sig = mac_hex(b"scenario key", b"something else entirely");
    let req = multipart_request("/post/create", "XBOUND", &fields, Some(sig));
    match proxy_handler(&req, &keys) {
        Decision::Reject { status, .. } => assert_eq!(status, 401),
        Decision::Forward { .. } => panic!("expected rejection"),
    }
}

#[test]
fn scenario_multipart_malformed_framing_is_client_error() {
    let keys = test_keys(b"scenario key");
    let req = InboundRequest {
        method: b"POST".to_vec(),
        path_and_query: b"/post/create".to_vec(),
        content_type: b"multipart/form-data; boundary=XBOUND".to_vec(),
        signature: Some(mac_hex(b"scenario key", b"")),
        body: b"--XBOUND\r\ngarbage".to_vec(),
    };
    match proxy_handler(&req, &keys) {
        Decision::Reject { status, .. } => assert_eq!(status, 400),
        Decision::Forward { .. } => panic!("expected rejection"),
    }
}

#[test]
fn scenario_unsupported_content_type_names_both_types() {
    let keys = test_keys(b"scenario key");
    let req = InboundRequest {
        method: b"POST".to_vec(),
        path_and_query: b"/api/things".to_vec(),
        content_type: b"text/plain".to_vec(),
        signature: None,
        body: b"hello".to_vec(),
    };
    match proxy_handler(&req, &keys) {
        Decision::Reject { status, message } => {
            assert_eq!(status, 400);
            assert!(message.contains("application/json"));
            assert!(message.contains("multipart/form-data"));
        },
        Decision::Forward { .. } => panic!("expected rejection"),
    }
}

#[test]
fn scenario_unreachable_backend_becomes_502() {
    // Verification has already passed; the transport failure still ends
    // in the fixed 502.
    let keys = test_keys(b"scenario key");
    let body = b"{}";
    let sig = mac_hex(b"scenario key", body);
    let req = json_request(body, Some(sig));
    assert!(matches!(proxy_handler(&req, &keys), Decision::Forward { .. }));
    let relayed = redirect_to_backend(UpstreamOutcome::Unreachable);
    assert_eq!(relayed.status, 502);
    assert_eq!(relayed.body, b"NestJS is unreachable".to_vec());
}

#[test]
fn multipart_last_artifact_field_wins() {
    let keys = test_keys(b"scenario key");
    let fields = vec![
        field(b"file", Some(b"first.bin"), None, &[1u8]),
        field(b"file", Some(b"second.bin"), None, &[2u8]),
    ];
    // The signature governs the last artifact field's bytes.
    let sig = mac_hex(b"scenario key", &[2u8]);
    let req = multipart_request("/api/things", "XBOUND", &fields, Some(sig));
    match proxy_handler(&req, &keys) {
        Decision::Forward { body, .. } => {
            let parsed = parse_multipart(&body, b"XBOUND").unwrap();
            assert_eq!(parsed.len(), 1);
            assert_eq!(parsed[0].filename, Some(b"second.bin".to_vec()));
            assert_eq!(parsed[0].data, vec![2u8]);
        },
        Decision::Reject { .. } => panic!("expected forwarding"),
    }
}

#[test]
fn multipart_without_artifact_fails_against_nonempty_signature() {
    let keys = test_keys(b"scenario key");
    let fields = vec![field(b"title", None, None, b"sunset")];
    let sig = mac_hex(b"scenario key", b"some file bytes");
    let req = multipart_request("/post/create", "XBOUND", &fields, Some(sig));
    match proxy_handler(&req, &keys) {
        Decision::Reject { status, .. } => assert_eq!(status, 401),
        Decision::Forward { .. } => panic!("expected rejection"),
    }
}

#[test]
fn multipart_empty_artifact_is_not_reattached() {
    let keys = test_keys(b"scenario key");
    let fields = vec![
        field(b"title", None, None, b"sunset"),
        field(b"file", Some(b"a.png"), None, b""),
    ];
    // The artifact is empty, so the signature over the empty sequence
    // verifies, and no file part is re-attached.
    let sig = mac_hex(b"scenario key", b"");
    let req = multipart_request("/post/create", "XBOUND", &fields, Some(sig));
    match proxy_handler(&req, &keys) {
        Decision::Forward { body, seal } => {
            assert!(seal.is_none());
            let parsed = parse_multipart(&body, b"XBOUND").unwrap();
            assert_eq!(parsed.len(), 1);
            assert_eq!(parsed[0].name, b"title".to_vec());
        },
        Decision::Reject { .. } => panic!("expected forwarding"),
    }
}

#[test]
fn default_args() {
    let a = psg_gateway::args::Args::default();
    assert!(!a.generate_keys);
    assert_eq!(a.port, 4000);
    assert!(!a.debug);
}

#[test]
fn boundary_parameter_may_be_followed_by_others() {
    let keys = test_keys(b"scenario key");
    let fields = vec![field(b"file", Some(b"a.png"), None, &[7u8])];
    let body = encode_multipart(b"XBOUND", &fields);
    let req = InboundRequest {
        method: b"POST".to_vec(),
        path_and_query: b"/api/things".to_vec(),
        content_type: b"multipart/form-data; boundary=XBOUND; charset=utf-8".to_vec(),
        signature: Some(mac_hex(b"scenario key", &[7u8])),
        body,
    };
    assert!(matches!(proxy_handler(&req, &keys), Decision::Forward { .. }));
}

#[test]
fn only_write_methods_earn_a_seal() {
    let keys = test_keys(b"scenario key");
    for (method, sealed) in [("GET", false), ("POST", true), ("PUT", true)] {
        let fields = vec![field(b"file", Some(b"a.png"), None, &[7u8])];
        let body = encode_multipart(b"XBOUND", &fields);
        let req = InboundRequest {
            method: method.as_bytes().to_vec(),
            path_and_query: b"/post/create".to_vec(),
            content_type: b"multipart/form-data; boundary=XBOUND".to_vec(),
            signature: Some(mac_hex(b"scenario key", &[7u8])),
            body,
        };
        match proxy_handler(&req, &keys) {
            Decision::Forward { seal, .. } => assert_eq!(seal.is_some(), sealed),
            Decision::Reject { .. } => panic!("expected forwarding"),
        }
    }
}
