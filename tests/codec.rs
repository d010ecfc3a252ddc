use simperby_repository::codec::{SemanticCommit, STATE_MARKER};
use simperby_repository::error::{BackendCode, Error};
use simperby_repository::hash::CommitHash;

fn commit(title: &str, body: &str, state: Option<&str>) -> SemanticCommit {
    SemanticCommit {
        title: title.to_string(),
        body: body.to_string(),
        reserved_state: state.map(|x| x.to_string()),
    }
}

#[test]
fn message_layout_with_state() {
    let msg = commit("title", "body", Some("state")).to_message().unwrap();
    assert_eq!(msg, "title\n\nbody\n[reserved-state]\nstate");
    assert_eq!(STATE_MARKER, "\n[reserved-state]\n");
}

#[test]
fn message_layout_without_state() {
    let msg = commit("title", "line one\nline two", None).to_message().unwrap();
    assert_eq!(msg, "title\n\nline one\nline two");
}

#[test]
fn decode_splits_title_body_and_state() {
    let c = SemanticCommit::from_message("agenda\n\nvotes\n[reserved-state]\n{\"a\":1}").unwrap();
    assert_eq!(c.title, "agenda");
    assert_eq!(c.body, "votes");
    assert_eq!(c.reserved_state, Some("{\"a\":1}".to_string()));
}

#[test]
fn decode_without_marker_has_no_state() {
    let c = SemanticCommit::from_message("t\n\nplain body").unwrap();
    assert_eq!(c.title, "t");
    assert_eq!(c.body, "plain body");
    assert_eq!(c.reserved_state, None);
    let empty = SemanticCommit::from_message("t\n\n").unwrap();
    assert_eq!(empty.body, "");
}

#[test]
fn round_trip_of_encodable_commits() {
    for c in [
        commit("a", "b", Some("c")),
        commit("", "", Some("")),
        commit("ünïcode", "多行\n文本", Some("[reserved-state]")),
        commit("t", "ends with newline\n", None),
        commit("t", "", None),
    ] {
        let msg = c.to_message().unwrap();
        let back = SemanticCommit::from_message(&msg).unwrap();
        assert_eq!(back.title, c.title);
        assert_eq!(back.body, c.body);
        assert_eq!(back.reserved_state, c.reserved_state);
        assert_eq!(back.to_message().unwrap(), msg);
    }
}

#[test]
fn malformed_messages_are_invalid() {
    for msg in ["genesis", "title\nbody", "title\n", ""] {
        assert!(matches!(
            SemanticCommit::from_message(msg),
            Err(Error::InvalidRepository(_))
        ));
    }
}

#[test]
fn unencodable_parts_are_invalid() {
    assert!(matches!(
        commit("two\nlines", "b", None).to_message(),
        Err(Error::InvalidRepository(_))
    ));
    assert!(matches!(
        commit("t", "x\n[reserved-state]\ny", None).to_message(),
        Err(Error::InvalidRepository(_))
    ));
    assert!(matches!(
        commit("t", "x\n[reserved-state]", Some("s")).to_message(),
        Err(Error::InvalidRepository(_))
    ));
    assert!(commit("t", "x\n[reserved-state]", None).to_message().is_ok());
}

#[test]
fn backend_codes_are_classified() {
    assert!(matches!(
        Error::from_backend(BackendCode::NotFound, "m".to_string()),
        Error::NotFound(m) if m == "m"
    ));
    assert!(matches!(
        Error::from_backend(BackendCode::Exists, "m".to_string()),
        Error::AlreadyExists(_)
    ));
    assert!(matches!(
        Error::from_backend(BackendCode::Other, "m".to_string()),
        Error::BackendFailure(_)
    ));
    assert_eq!(Error::Unknown("x".to_string()).kind(), "unknown");
}

#[test]
fn commit_hash_equality_is_bytewise() {
    let a = CommitHash { hash: [1; 20] };
    let mut bytes = [1; 20];
    assert_eq!(a, CommitHash { hash: bytes });
    bytes[19] = 2;
    assert_ne!(a, CommitHash { hash: bytes });
}

#[test]
fn hex_form_of_a_hash() {
    let mut bytes = [0u8; 20];
    bytes[0] = 0xab;
    bytes[1] = 0x01;
    bytes[19] = 0xff;
    let h = CommitHash { hash: bytes };
    let text = h.to_hex();
    assert_eq!(text, format!("ab01{}ff", "00".repeat(17)));
    assert_eq!(text.len(), 40);
    assert_eq!(CommitHash::from_hex(&text), Some(h));
    assert_eq!(CommitHash { hash: [0x5a; 20] }.to_hex(), "5a".repeat(20));
}

#[test]
fn malformed_hex_is_refused() {
    assert_eq!(CommitHash::from_hex(""), None);
    assert_eq!(CommitHash::from_hex(&"0".repeat(39)), None);
    assert_eq!(CommitHash::from_hex(&"0".repeat(41)), None);
    assert_eq!(CommitHash::from_hex(&"AB".repeat(20)), None);
    assert_eq!(CommitHash::from_hex(&"zz".repeat(20)), None);
    assert_eq!(CommitHash::from_hex(&"00".repeat(20)), Some(CommitHash { hash: [0; 20] }));
}
