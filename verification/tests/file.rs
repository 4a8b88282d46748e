use rgit::file::{should_skip, FileNode, FileType};

#[test]
fn test_new_file_tree() {
    // Assembling a snapshot of a small directory listing: the walk itself
    // is the caller's, the skip rules and node shapes are the library's.
    let listing: Vec<(&[u8], bool)> = vec![
        (b"src", true),
        (b".git", true),
        (b"target", true),
        (b"README.md", false),
    ];
    let mut children = Vec::new();
    for (name, is_dir) in listing {
        if should_skip(&name.to_vec(), is_dir) {
            continue;
        }
        if is_dir {
            children.push(FileNode::dir_node(name.to_vec(), Vec::new()));
        } else {
            children.push(FileNode::file_node(name.to_vec()));
        }
    }
    let root = FileNode::dir_node(b".".to_vec(), children);
    println!("{:?}", root);
}

#[test]
fn skip_rules() {
    // The build-output directory is skipped by name, hidden directories by
    // their leading dot; hidden plain files are kept.
    assert!(should_skip(&b"target".to_vec(), false));
    assert!(should_skip(&b"target".to_vec(), true));
    assert!(should_skip(&b".git".to_vec(), true));
    assert!(!should_skip(&b".gitignore".to_vec(), false));
    assert!(!should_skip(&b"src".to_vec(), true));
}

#[test]
fn node_shapes() {
    let leaf = FileNode::file_node(b"a.txt".to_vec());
    assert_eq!(leaf.file_type, FileType::File);
    assert_eq!(leaf.children, None);

    let empty_dir = FileNode::dir_node(b"empty".to_vec(), Vec::new());
    assert_eq!(empty_dir.file_type, FileType::Directory);
    assert_eq!(empty_dir.children, None);

    let full_dir = FileNode::dir_node(b"dir".to_vec(), vec![leaf]);
    assert_eq!(full_dir.children.as_ref().map(|c| c.len()), Some(1));
}

#[test]
fn lcs_known_values() {
    assert_eq!(rgit::file::lcs(&b"ASDFGI".to_vec(), &b"BCDEG".to_vec()), 2);
    assert_eq!(rgit::file::lcs(&b"ASDFG".to_vec(), &b"BCDEG".to_vec()), 2);
    assert_eq!(rgit::file::lcs(&b"abc".to_vec(), &b"abc".to_vec()), 3);
    assert_eq!(rgit::file::lcs(&b"abc".to_vec(), &b"".to_vec()), 0);
    assert_eq!(rgit::file::lcs(&b"axbycz".to_vec(), &b"abc".to_vec()), 3);
}
