use rgit::kvlm::{kvlm_parse, kvlm_serialize, Kvlm, KvlmEntry};
use rgit::GitError;

fn entry(key: &[u8], values: &[&[u8]]) -> KvlmEntry {
    KvlmEntry {
        key: key.to_vec(),
        values: values.iter().map(|v| v.to_vec()).collect(),
    }
}

#[test]
fn test_kvlm_parse() {
    let content = "tree 29ff16c9c14e2652b22f8b78bb08a5a07930c147
parent 206941306e8a8af65b66eaaaea388a7ae24d49a0
author Thibault Polge <thibault@thb.lt> 1527025023 +0200
committer Thibault Polge <thibault@thb.lt> 1527025044 +0200

Create first draft";
    let parsed = kvlm_parse(&content.as_bytes().to_vec()).unwrap();
    assert_eq!(parsed.entries.len(), 4);
    assert_eq!(parsed.entries[0].key, b"tree".to_vec());
    assert_eq!(
        parsed.entries[0].values,
        vec![b"29ff16c9c14e2652b22f8b78bb08a5a07930c147".to_vec()]
    );
    assert_eq!(parsed.entries[1].key, b"parent".to_vec());
    assert_eq!(
        parsed.entries[1].values,
        vec![b"206941306e8a8af65b66eaaaea388a7ae24d49a0".to_vec()]
    );
    assert_eq!(parsed.entries[2].key, b"author".to_vec());
    assert_eq!(
        parsed.entries[2].values,
        vec![b"Thibault Polge <thibault@thb.lt> 1527025023 +0200".to_vec()]
    );
    assert_eq!(parsed.entries[3].key, b"committer".to_vec());
    assert_eq!(
        parsed.entries[3].values,
        vec![b"Thibault Polge <thibault@thb.lt> 1527025044 +0200".to_vec()]
    );
    assert_eq!(parsed.message, b"Create first draft".to_vec());
}

#[test]
fn round_trip_simple() {
    let kvlm = Kvlm {
        entries: vec![
            entry(b"tree", &[b"29ff16c9c14e2652b22f8b78bb08a5a07930c147"]),
            entry(b"parent", &[b"206941306e8a8af65b66eaaaea388a7ae24d49a0"]),
        ],
        message: b"Create first draft\n".to_vec(),
    };
    let encoded = kvlm_serialize(&kvlm);
    let decoded = kvlm_parse(&encoded).unwrap();
    assert_eq!(decoded, kvlm);
    // Re-encoding reproduces the bytes exactly.
    assert_eq!(kvlm_serialize(&decoded), encoded);
}

#[test]
fn round_trip_continuation_lines() {
    // A value with embedded newlines is escaped with continuation lines and
    // comes back exactly.
    let kvlm = Kvlm {
        entries: vec![entry(
            b"gpgsig",
            &[b"-----BEGIN PGP SIGNATURE-----\nline two\n line with leading space\n-----END PGP SIGNATURE-----" as &[u8]],
        )],
        message: b"signed commit".to_vec(),
    };
    let encoded = kvlm_serialize(&kvlm);
    let decoded = kvlm_parse(&encoded).unwrap();
    assert_eq!(decoded, kvlm);
}

#[test]
fn round_trip_repeated_key() {
    // Two values under one key: one line each, merged back into one entry.
    let kvlm = Kvlm {
        entries: vec![entry(
            b"parent",
            &[
                b"29ff16c9c14e2652b22f8b78bb08a5a07930c147",
                b"206941306e8a8af65b66eaaaea388a7ae24d49a0",
            ],
        )],
        message: b"merge".to_vec(),
    };
    let encoded = kvlm_serialize(&kvlm);
    let decoded = kvlm_parse(&encoded).unwrap();
    assert_eq!(decoded, kvlm);
}

#[test]
fn empty_input_is_incomplete() {
    assert_eq!(
        kvlm_parse(&Vec::new()).unwrap_err(),
        GitError::IncompleteKvlm
    );
}

#[test]
fn message_only() {
    let decoded = kvlm_parse(&b"\njust a message".to_vec()).unwrap();
    assert!(decoded.entries.is_empty());
    assert_eq!(decoded.message, b"just a message".to_vec());
}

#[test]
fn commit_parents_listed_in_order() {
    let kvlm = Kvlm {
        entries: vec![
            entry(b"tree", &[b"29ff16c9c14e2652b22f8b78bb08a5a07930c147"]),
            entry(b"parent", &[b"aaaa", b"bbbb"]),
        ],
        message: b"m".to_vec(),
    };
    let parents = rgit::kvlm::commit_parents(&kvlm);
    assert_eq!(parents, vec![b"aaaa".to_vec(), b"bbbb".to_vec()]);

    let initial = Kvlm {
        entries: vec![entry(b"tree", &[b"29ff16c9c14e2652b22f8b78bb08a5a07930c147"])],
        message: b"m".to_vec(),
    };
    assert!(rgit::kvlm::commit_parents(&initial).is_empty());
}
