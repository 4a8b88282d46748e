use rgit::tree::{tree_parse, tree_serialize, GitTreeLeaf};
use rgit::GitError;

fn leaf(mode: &[u8], path: &[u8], sha_fill: u8) -> GitTreeLeaf {
    GitTreeLeaf::new(mode.to_vec(), path.to_vec(), vec![sha_fill; 20])
}

#[test]
fn encode_sorts_by_path() {
    let a = || leaf(b"100644", b"alpha.txt", 0x11);
    let b = || leaf(b"100644", b"beta.txt", 0x22);
    let c = || leaf(b"40000", b"dir", 0x33);
    let one = tree_serialize(&vec![c(), a(), b()]);
    let two = tree_serialize(&vec![b(), c(), a()]);
    // Same entry set in different insertion orders: byte-identical output.
    assert_eq!(one, two);
    // And the entries come back path-sorted.
    let parsed = tree_parse(&one).unwrap();
    assert_eq!(
        parsed.iter().map(|l| l.path.clone()).collect::<Vec<_>>(),
        vec![b"alpha.txt".to_vec(), b"beta.txt".to_vec(), b"dir".to_vec()]
    );
}

#[test]
fn round_trip_preserves_entries() {
    let entries = vec![
        leaf(b"100644", b"a space name", 0x01),
        leaf(b"40000", b"zz", 0x02),
    ];
    let encoded = tree_serialize(&entries);
    let parsed = tree_parse(&encoded).unwrap();
    assert_eq!(parsed, entries);
    // A second cycle is a fixed point.
    assert_eq!(tree_serialize(&parsed), encoded);
}

#[test]
fn entry_layout_is_exact() {
    let entries = vec![leaf(b"100644", b"f", 0xab)];
    let encoded = tree_serialize(&entries);
    let mut expected = b"100644 f\x00".to_vec();
    expected.extend(vec![0xab; 20]);
    assert_eq!(encoded, expected);
}

#[test]
fn truncated_entry_is_malformed() {
    // Mode and path are fine, but fewer than 20 digest bytes remain.
    let mut raw = b"100644 f\x00".to_vec();
    raw.extend(vec![0xab; 10]);
    assert_eq!(tree_parse(&raw).unwrap_err(), GitError::MalformedTree);
}

#[test]
fn misplaced_mode_is_malformed() {
    // The first space comes four bytes in: not a 5- or 6-character mode.
    let mut raw = b"1006 f\x00".to_vec();
    raw.extend(vec![0xab; 20]);
    assert_eq!(tree_parse(&raw).unwrap_err(), GitError::MalformedTree);
}

#[test]
fn empty_payload_is_empty_tree() {
    assert_eq!(tree_parse(&Vec::new()).unwrap(), Vec::<GitTreeLeaf>::new());
}
