//! The pure side of the directory-tree snapshot utility: which entries a
//! walk skips, and how a visited directory's node is assembled. The walk
//! itself is filesystem work and stays with the caller.
use vstd::prelude::*;

verus! {

/// Indicates if a node is a normal file with a content or a directory.
#[derive(Clone, Copy, Debug, PartialEq, Eq, Structural)]
pub enum FileType {
    File,
    Directory,
}

/// One node of a directory snapshot: leaf files and directories with their
/// children.
#[derive(Debug, PartialEq, Eq)]
pub struct FileNode {
    pub name: Vec<u8>,
    pub file_type: FileType,
    pub content: Vec<u8>,
    pub children: Option<Vec<FileNode>>,
}

/// The build-output directory name that a walk leaves out.
pub open spec fn skipped_name() -> Seq<u8> {
    seq![0x74u8, 0x61u8, 0x72u8, 0x67u8, 0x65u8, 0x74u8]
}

/// Whether a walk skips a directory entry: the build-output directory by
/// name, and any hidden directory.
pub open spec fn skip_spec(name: Seq<u8>, is_dir: bool) -> bool {
    name == skipped_name() || (is_dir && name.len() > 0 && name[0] == 0x2e)
}

/// Decides whether a directory entry is skipped.
pub fn should_skip(entry_name: &Vec<u8>, is_dir: bool) -> (r: bool)
    ensures
        r == skip_spec(entry_name@, is_dir),
{
    let mut target: Vec<u8> = Vec::new();
    target.push(0x74);
    target.push(0x61);
    target.push(0x72);
    target.push(0x67);
    target.push(0x65);
    target.push(0x74);
    proof {
        assert(target@ =~= skipped_name());
    }
    if crate::bytes::bytes_eq(entry_name, &target) {
        return true;
    }
    if is_dir && entry_name.len() > 0 {
        if entry_name[0] == 0x2e {
            return true;
        }
    }
    false
}

/// The length of the longest common subsequence of two byte strings.
pub open spec fn lcs_spec(a: Seq<u8>, b: Seq<u8>) -> nat
    decreases a.len() + b.len(),
{
    if a.len() == 0 || b.len() == 0 {
        0
    } else if a.last() == b.last() {
        1 + lcs_spec(a.drop_last(), b.drop_last())
    } else {
        let x = lcs_spec(a, b.drop_last());
        let y = lcs_spec(a.drop_last(), b);
        if x >= y {
            x
        } else {
            y
        }
    }
}

/// A common subsequence is no longer than either string.
pub proof fn lemma_lcs_le(a: Seq<u8>, b: Seq<u8>)
    ensures
        lcs_spec(a, b) <= a.len(),
        lcs_spec(a, b) <= b.len(),
    decreases a.len() + b.len(),
{
    if a.len() == 0 || b.len() == 0 {
    } else if a.last() == b.last() {
        lemma_lcs_le(a.drop_last(), b.drop_last());
    } else {
        lemma_lcs_le(a, b.drop_last());
        lemma_lcs_le(a.drop_last(), b);
    }
}

/// The length of the longest common subsequence of `s1` and `s2`, by
/// dynamic programming over prefix pairs.
pub fn lcs(s1: &Vec<u8>, s2: &Vec<u8>) -> (r: usize)
    ensures
        r == lcs_spec(s1@, s2@),
{
    let m = s1.len();
    let n = s2.len();
    let mut prev: Vec<usize> = Vec::new();
    prev.push(0);
    let mut j0: usize = 0;
    while j0 < n
        invariant
            j0 <= n,
            n == s2@.len(),
            prev@.len() == j0 + 1,
            forall|j: int| 0 <= j <= j0 ==> #[trigger] prev@[j] == 0,
        decreases n - j0,
    {
        prev.push(0);
        j0 = j0 + 1;
    }
    proof {
        assert(s1@.subrange(0, 0) =~= Seq::<u8>::empty());
        assert forall|j: int| 0 <= j <= n implies #[trigger] prev@[j] == lcs_spec(
            s1@.subrange(0, 0),
            s2@.subrange(0, j),
        ) by {
            assert(lcs_spec(s1@.subrange(0, 0), s2@.subrange(0, j)) == 0);
        }
    }
    let mut i: usize = 0;
    while i < m
        invariant
            i <= m,
            m == s1@.len(),
            n == s2@.len(),
            prev@.len() == n + 1,
            forall|j: int|
                0 <= j <= n ==> #[trigger] prev@[j] == lcs_spec(
                    s1@.subrange(0, i as int),
                    s2@.subrange(0, j),
                ),
        decreases m - i,
    {
        let mut cur: Vec<usize> = Vec::new();
        cur.push(0);
        proof {
            assert(s2@.subrange(0, 0) =~= Seq::<u8>::empty());
            assert(lcs_spec(s1@.subrange(0, i + 1), s2@.subrange(0, 0)) == 0);
        }
        let mut j: usize = 0;
        while j < n
            invariant
                j <= n,
                i < m,
                m == s1@.len(),
                n == s2@.len(),
                prev@.len() == n + 1,
                forall|q: int|
                    0 <= q <= n ==> #[trigger] prev@[q] == lcs_spec(
                        s1@.subrange(0, i as int),
                        s2@.subrange(0, q),
                    ),
                cur@.len() == j + 1,
                forall|q: int|
                    0 <= q <= j ==> #[trigger] cur@[q] == lcs_spec(
                        s1@.subrange(0, i + 1),
                        s2@.subrange(0, q),
                    ),
            decreases n - j,
        {
            let ghost pa = s1@.subrange(0, i + 1);
            let ghost pb = s2@.subrange(0, j + 1);
            proof {
                assert(pa.last() == s1@[i as int]);
                assert(pb.last() == s2@[j as int]);
                assert(pa.drop_last() =~= s1@.subrange(0, i as int));
                assert(pb.drop_last() =~= s2@.subrange(0, j as int));
                lemma_lcs_le(pa.drop_last(), pb.drop_last());
                lemma_lcs_le(pa, pb.drop_last());
                lemma_lcs_le(pa.drop_last(), pb);
            }
            let value: usize = if s1[i] == s2[j] {
                prev[j] + 1
            } else {
                let up = prev[j + 1];
                let left = cur[j];
                if up >= left {
                    up
                } else {
                    left
                }
            };
            cur.push(value);
            proof {
                assert(cur@[j + 1] == lcs_spec(pa, pb));
            }
            j = j + 1;
        }
        prev = cur;
        i = i + 1;
    }
    proof {
        assert(s1@.subrange(0, m as int) =~= s1@);
        assert(s2@.subrange(0, n as int) =~= s2@);
    }
    prev[n]
}

impl FileNode {
    /// A leaf node for a plain file.
    pub fn file_node(name: Vec<u8>) -> (r: FileNode)
        ensures
            r.name@ == name@,
            r.file_type == FileType::File,
            r.content@.len() == 0,
            r.children is None,
    {
        FileNode { name, file_type: FileType::File, content: Vec::new(), children: None }
    }

    /// A directory node over the children a walk collected; childless
    /// directories carry no child list at all.
    pub fn dir_node(name: Vec<u8>, children: Vec<FileNode>) -> (r: FileNode)
        ensures
            r.name@ == name@,
            r.file_type == FileType::Directory,
            r.content@.len() == 0,
            children@.len() == 0 ==> r.children is None,
            children@.len() > 0 ==> (r.children matches Some(c) && c@ == children@),
    {
        if children.len() == 0 {
            FileNode { name, file_type: FileType::Directory, content: Vec::new(), children: None }
        } else {
            FileNode {
                name,
                file_type: FileType::Directory,
                content: Vec::new(),
                children: Some(children),
            }
        }
    }
}

} // verus!
