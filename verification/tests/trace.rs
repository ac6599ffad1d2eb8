use thronglets::identity::NodeIdentity;
use thronglets::trace::{signable_bytes, signature_from_bytes, Outcome, Trace};

#[test]
fn create_and_verify() {
    let id = NodeIdentity::generate();
    let trace = Trace::new(
        "openai/gpt-4".into(),
        vec!["llm".into(), "chat".into()],
        Outcome::Succeeded,
        1200,
        85,
        id.public_key_bytes(),
        |msg| id.sign(msg),
    );

    assert!(trace.verify(), "signature should be valid");
    assert!(trace.verify_id(), "content-addressed ID should match");
}

#[test]
fn tampered_trace_fails_verification() {
    let id = NodeIdentity::generate();
    let mut trace = Trace::new(
        "some-tool".into(),
        vec![],
        Outcome::Succeeded,
        100,
        90,
        id.public_key_bytes(),
        |msg| id.sign(msg),
    );

    trace.quality = 10; // tamper
    assert!(!trace.verify(), "tampered trace should fail verification");
}

#[test]
fn different_traces_have_different_ids() {
    let id = NodeIdentity::generate();
    let t1 = Trace::new("a".into(), vec![], Outcome::Succeeded, 0, 0, id.public_key_bytes(), |m| id.sign(m));
    let t2 = Trace::new("b".into(), vec![], Outcome::Failed, 0, 0, id.public_key_bytes(), |m| id.sign(m));
    assert_ne!(t1.id, t2.id);
}

#[test]
fn signed_content_layout() {
    let key = [9u8; 32];
    let bytes = signable_bytes("ab", &vec!["x".to_string(), "yz".to_string()], Outcome::Partial, 0x01020304, 7, 0x1122334455667788, &key);
    let mut expected: Vec<u8> = vec![b'a', b'b', 0, b'x', 0, b'y', b'z', 0, 2, 4, 3, 2, 1, 7];
    expected.extend_from_slice(&[0x88, 0x77, 0x66, 0x55, 0x44, 0x33, 0x22, 0x11]);
    expected.extend_from_slice(&key);
    assert_eq!(bytes, expected);
}

#[test]
fn fixed_time_trace_is_reproducible_and_checked() {
    let id = NodeIdentity::from_secret_bytes([3u8; 32]);
    let make = || {
        Trace::new_at("tool:read".into(), vec!["rust".into()], Outcome::Timeout, 5, 50, id.public_key_bytes(), 42, |m| id.sign(m))
    };
    let a = make();
    let b = make();
    assert_eq!(a.timestamp, 42);
    assert_eq!(a.id, b.id);
    assert_eq!(a.signature, b.signature);
    assert!(a.verify() && a.verify_id());
    let mut moved = make();
    moved.timestamp = 43;
    assert!(!moved.verify());
    assert!(!moved.verify_id());
    let mut wrong_id = make();
    wrong_id.id[0] ^= 0xff;
    assert!(wrong_id.verify());
    assert!(!wrong_id.verify_id());
}

#[test]
fn outcome_codes() {
    assert_eq!(Outcome::Succeeded.code(), 0);
    assert_eq!(Outcome::Failed.code(), 1);
    assert_eq!(Outcome::Partial.code(), 2);
    assert_eq!(Outcome::Timeout.code(), 3);
}

#[test]
fn signatures_must_be_64_bytes() {
    assert_eq!(signature_from_bytes(&[1u8; 63]), None);
    assert_eq!(signature_from_bytes(&[1u8; 65]), None);
    assert_eq!(signature_from_bytes(&[5u8; 64]), Some([5u8; 64]));
}
