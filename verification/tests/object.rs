use rgit::object::{parse_frame, GitObject, GitObjectType};
use rgit::repository::RGitRepository;
use rgit::GitError;

#[test]
fn blob_digest_matches_known_hash() {
    // The digest is the SHA-1 of the framed bytes "blob 6\0hello\n".
    let blob = GitObject::Blob(b"hello\n".to_vec());
    let outcome = blob.object_write();
    assert_eq!(outcome.framed, b"blob 6\x00hello\n".to_vec());
    assert_eq!(
        outcome.sha,
        b"ce013625030ba8dba906f756967f9e9ca394464a".to_vec()
    );
    assert_eq!(
        outcome.rel_path,
        b"objects/ce/013625030ba8dba906f756967f9e9ca394464a".to_vec()
    );
    // The compressed bytes decompress back to the framed stream and decode
    // to the very blob that was written.
    let repo = RGitRepository::init(String::from("wt"), true, false, None).unwrap();
    let read = repo.object_read(Some(&outcome.compressed)).unwrap();
    assert_eq!(read, GitObject::Blob(b"hello\n".to_vec()));
}

#[test]
fn digest_is_deterministic() {
    let blob = || GitObject::Blob(b"same content".to_vec());
    let first = blob().object_write();
    let second = blob().object_write();
    assert_eq!(first.sha, second.sha);
    assert_eq!(first.compressed, second.compressed);
}

#[test]
fn digest_is_lowercase_hex() {
    let outcome = GitObject::Blob(b"x".to_vec()).object_write();
    assert_eq!(outcome.sha.len(), 40);
    assert!(outcome
        .sha
        .iter()
        .all(|b| b.is_ascii_digit() || (b'a'..=b'f').contains(b)));
}

#[test]
fn tampered_length_is_rejected() {
    // The declared length disagrees with the actual payload length.
    assert_eq!(
        parse_frame(&b"blob 7\x00hello\n".to_vec()).unwrap_err(),
        GitError::MalformedObject
    );
    assert_eq!(
        parse_frame(&b"blob 5\x00hello\n".to_vec()).unwrap_err(),
        GitError::MalformedObject
    );
}

#[test]
fn frame_parses_exactly() {
    let (t, payload) = parse_frame(&b"blob 6\x00hello\n".to_vec()).unwrap();
    assert_eq!(t, GitObjectType::Blob);
    assert_eq!(payload, b"hello\n".to_vec());
}

#[test]
fn unknown_tag_is_rejected() {
    assert_eq!(
        parse_frame(&b"blub 2\x00hi".to_vec()).unwrap_err(),
        GitError::MalformedObject
    );
}

#[test]
fn garbled_length_is_rejected() {
    assert_eq!(
        parse_frame(&b"blob x\x00hi".to_vec()).unwrap_err(),
        GitError::MalformedObject
    );
}

#[test]
fn type_tags_round_trip() {
    for (t, s) in [
        (GitObjectType::Commit, "commit"),
        (GitObjectType::Tree, "tree"),
        (GitObjectType::Tag, "tag"),
        (GitObjectType::Blob, "blob"),
    ] {
        assert_eq!(t.fmt(), s.to_string());
        assert_eq!(GitObjectType::from_str(s).unwrap(), t);
    }
    assert_eq!(
        GitObjectType::from_str("branch").unwrap_err(),
        GitError::MalformedObject
    );
}

#[test]
fn commit_payload_round_trips_through_frame() {
    let text = b"tree 29ff16c9c14e2652b22f8b78bb08a5a07930c147\n\nfirst".to_vec();
    let object = GitObject::new(GitObjectType::Commit, &text).unwrap();
    let outcome = object.object_write();
    let repo = RGitRepository::init(String::from("wt"), true, false, None).unwrap();
    let read = repo.object_read(Some(&outcome.compressed)).unwrap();
    assert_eq!(read, object);
    // Serialization reproduces the decoded payload bit-for-bit.
    assert_eq!(read.serialize(), text);
}

#[test]
fn missing_object_and_corrupt_object() {
    let repo = RGitRepository::init(String::from("wt"), true, false, None).unwrap();
    assert_eq!(
        repo.object_read(None).unwrap_err(),
        GitError::ObjectNotFound
    );
    assert_eq!(
        repo.object_read(Some(&b"not a zlib stream".to_vec()))
            .unwrap_err(),
        GitError::CorruptObject
    );
}

#[test]
fn cat_file_prints_the_payload() {
    let blob = GitObject::Blob(b"hello\n".to_vec());
    let outcome = blob.object_write();
    let repo = RGitRepository::init(String::from("wt"), true, false, None).unwrap();
    let shown = repo.cat_file(Some(&outcome.compressed)).unwrap();
    assert_eq!(shown, b"hello\n".to_vec());
}
