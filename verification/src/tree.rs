//! The compact binary encoding for directory-tree entries:
//! `<mode><SP><path><NUL><20-byte raw digest>` per entry. Decoding is
//! bounds-checked; encoding sorts entries by raw path bytes so that equal
//! entry sets encode identically however they were assembled.
use vstd::prelude::*;
use vstd::relations::sorted_by;
use crate::GitError;
use crate::bytes::append_bytes;
use crate::bytes::bytes_eq;
use crate::bytes::bytes_le;
use crate::bytes::copy_range;
use crate::bytes::find_byte;
use crate::bytes::find_from;
use crate::bytes::lex_le;
use crate::bytes::lemma_find_from_at;
use crate::bytes::lemma_find_from_none;
use crate::bytes::lemma_lex_le_antisymmetric;
use crate::bytes::lemma_lex_le_total;
use crate::bytes::lemma_lex_le_transitive;

verus! {

/// One directory entry: a file mode, a path, and the raw 20-byte digest of
/// the object the entry points at.
#[derive(Debug, PartialEq, Eq)]
pub struct GitTreeLeaf {
    pub mode: Vec<u8>,
    pub path: Vec<u8>,
    pub sha: Vec<u8>,
}

/// The mathematical content of one tree entry.
#[verifier::ext_equal]
pub ghost struct TreeLeafModel {
    pub mode: Seq<u8>,
    pub path: Seq<u8>,
    pub sha: Seq<u8>,
}

impl GitTreeLeaf {
    pub open spec fn model(&self) -> TreeLeafModel {
        TreeLeafModel { mode: self.mode@, path: self.path@, sha: self.sha@ }
    }

    /// Assembles an entry from its three fields.
    pub fn new(mode: Vec<u8>, path: Vec<u8>, sha: Vec<u8>) -> (r: Self)
        ensures
            r.model() == (TreeLeafModel { mode: mode@, path: path@, sha: sha@ }),
    {
        let r = Self { mode, path, sha };
        proof {
            assert(r.model() =~= TreeLeafModel { mode: r.mode@, path: r.path@, sha: r.sha@ });
        }
        r
    }
}

pub open spec fn leaves_model(es: Seq<GitTreeLeaf>) -> Seq<TreeLeafModel> {
    es.map_values(|e: GitTreeLeaf| e.model())
}

/// A decodable entry: the mode is 5 or 6 bytes with no space, the path has
/// no NUL, and the digest is exactly 20 raw bytes.
pub open spec fn leaf_wf(l: TreeLeafModel) -> bool {
    &&& l.mode.len() == 5 || l.mode.len() == 6
    &&& forall|i: int| 0 <= i < l.mode.len() ==> #[trigger] l.mode[i] != 0x20
    &&& forall|i: int| 0 <= i < l.path.len() ==> #[trigger] l.path[i] != 0x00
    &&& l.sha.len() == 20
}

/// The byte-wise order on entries: by path, then mode, then digest, so that
/// the order is total and two entries compare equal only when identical.
pub open spec fn leaf_le(a: TreeLeafModel, b: TreeLeafModel) -> bool {
    if a.path != b.path {
        lex_le(a.path, b.path)
    } else if a.mode != b.mode {
        lex_le(a.mode, b.mode)
    } else {
        lex_le(a.sha, b.sha)
    }
}

pub open spec fn leaf_le_fn() -> spec_fn(TreeLeafModel, TreeLeafModel) -> bool {
    |a: TreeLeafModel, b: TreeLeafModel| leaf_le(a, b)
}

pub proof fn lemma_leaf_le_total(a: TreeLeafModel, b: TreeLeafModel)
    ensures
        leaf_le(a, b) || leaf_le(b, a),
{
    lemma_lex_le_total(a.path, b.path);
    lemma_lex_le_total(a.mode, b.mode);
    lemma_lex_le_total(a.sha, b.sha);
}

pub proof fn lemma_leaf_le_antisym(a: TreeLeafModel, b: TreeLeafModel)
    requires
        leaf_le(a, b),
        leaf_le(b, a),
    ensures
        a == b,
{
    if a.path != b.path {
        lemma_lex_le_antisymmetric(a.path, b.path);
    } else if a.mode != b.mode {
        lemma_lex_le_antisymmetric(a.mode, b.mode);
    } else {
        lemma_lex_le_antisymmetric(a.sha, b.sha);
        assert(a =~= b);
    }
}

pub proof fn lemma_leaf_le_trans(a: TreeLeafModel, b: TreeLeafModel, c: TreeLeafModel)
    requires
        leaf_le(a, b),
        leaf_le(b, c),
    ensures
        leaf_le(a, c),
{
    if a.path != b.path && b.path != c.path {
        lemma_lex_le_transitive(a.path, b.path, c.path);
        if a.path == c.path {
            lemma_lex_le_antisymmetric(a.path, b.path);
        }
    } else if a.path == b.path && b.path != c.path {
    } else if a.path != b.path && b.path == c.path {
    } else {
        if a.mode != b.mode && b.mode != c.mode {
            lemma_lex_le_transitive(a.mode, b.mode, c.mode);
            if a.mode == c.mode {
                lemma_lex_le_antisymmetric(a.mode, b.mode);
            }
        } else if a.mode == b.mode && b.mode == c.mode {
            lemma_lex_le_transitive(a.sha, b.sha, c.sha);
        }
    }
}

/// `leaf_le` is a total ordering, as vstd's sorting machinery expects.
pub proof fn lemma_leaf_le_total_ordering()
    ensures
        vstd::relations::total_ordering(leaf_le_fn()),
{
    let leq = leaf_le_fn();
    assert forall|a: TreeLeafModel| #[trigger] leq(a, a) by {
        lemma_leaf_le_total(a, a);
    }
    assert forall|a: TreeLeafModel, b: TreeLeafModel| #[trigger] leq(a, b) && #[trigger] leq(
        b,
        a,
    ) implies a == b by {
        lemma_leaf_le_antisym(a, b);
    }
    assert forall|a: TreeLeafModel, b: TreeLeafModel, c: TreeLeafModel| #[trigger] leq(a, b)
        && #[trigger] leq(b, c) implies leq(a, c) by {
        lemma_leaf_le_trans(a, b, c);
    }
    assert forall|a: TreeLeafModel, b: TreeLeafModel| #[trigger] leq(a, b) || #[trigger] leq(
        b,
        a,
    ) by {
        lemma_leaf_le_total(a, b);
    }
}

/// The encoding of one entry.
pub open spec fn leaf_enc(l: TreeLeafModel) -> Seq<u8> {
    l.mode + seq![0x20u8] + l.path + seq![0x00u8] + l.sha
}

/// The concatenated encoding of a list of entries, in the given order.
pub open spec fn leaves_enc(ls: Seq<TreeLeafModel>) -> Seq<u8>
    decreases ls.len(),
{
    if ls.len() == 0 {
        Seq::empty()
    } else {
        leaf_enc(ls[0]) + leaves_enc(ls.skip(1))
    }
}

/// The encoding of a tree payload: entries sorted by the byte-wise order,
/// then concatenated.
pub open spec fn tree_encode_spec(ls: Seq<TreeLeafModel>) -> Seq<u8> {
    leaves_enc(ls.sort_by(leaf_le_fn()))
}

/// One parsing step at the front of `raw`: the mode up to the first space
/// (which must come 5 or 6 bytes in), the path up to the first NUL, then
/// exactly 20 digest bytes; `None` when any of that is violated.
pub open spec fn tree_parse_one_spec(raw: Seq<u8>) -> Option<(int, TreeLeafModel)> {
    match find_from(raw, 0x20, 0) {
        None => None,
        Some(x) => if x != 5 && x != 6 {
            None
        } else {
            match find_from(raw, 0x00, x + 1) {
                None => None,
                Some(y) => if y + 21 > raw.len() {
                    None
                } else {
                    Some(
                        (
                            y + 21,
                            TreeLeafModel {
                                mode: raw.subrange(0, x),
                                path: raw.subrange(x + 1, y),
                                sha: raw.subrange(y + 1, y + 21),
                            },
                        ),
                    )
                },
            }
        },
    }
}

/// The meaning of a tree payload: entries parsed one after another until
/// the input is exhausted; `None` when an entry is malformed or truncated.
pub open spec fn tree_parse_spec(raw: Seq<u8>) -> Option<Seq<TreeLeafModel>>
    decreases raw.len(),
    via tree_parse_spec_dec
{
    if raw.len() == 0 {
        Some(Seq::empty())
    } else {
        match tree_parse_one_spec(raw) {
            None => None,
            Some((next, leaf)) => match tree_parse_spec(raw.subrange(next, raw.len() as int)) {
                None => None,
                Some(rest) => Some(seq![leaf] + rest),
            },
        }
    }
}

#[via_fn]
proof fn tree_parse_spec_dec(raw: Seq<u8>) {
    crate::bytes::lemma_find_from_props(raw, 0x20, 0);
    match find_from(raw, 0x20, 0) {
        Some(x) => {
            crate::bytes::lemma_find_from_props(raw, 0x00, x + 1);
        },
        None => {},
    }
}

/// Decides `leaf_le` on two entries.
fn leaf_le_exec(a: &GitTreeLeaf, b: &GitTreeLeaf) -> (r: bool)
    ensures
        r == leaf_le(a.model(), b.model()),
{
    if !bytes_eq(&a.path, &b.path) {
        bytes_le(&a.path, &b.path)
    } else if !bytes_eq(&a.mode, &b.mode) {
        bytes_le(&a.mode, &b.mode)
    } else {
        bytes_le(&a.sha, &b.sha)
    }
}

/// A field-for-field copy of an entry.
fn leaf_copy(l: &GitTreeLeaf) -> (r: GitTreeLeaf)
    ensures
        r.model() == l.model(),
{
    let r = GitTreeLeaf {
        mode: copy_range(&l.mode, 0, l.mode.len()),
        path: copy_range(&l.path, 0, l.path.len()),
        sha: copy_range(&l.sha, 0, l.sha.len()),
    };
    proof {
        assert(l.mode@.subrange(0, l.mode@.len() as int) =~= l.mode@);
        assert(l.path@.subrange(0, l.path@.len() as int) =~= l.path@);
        assert(l.sha@.subrange(0, l.sha@.len() as int) =~= l.sha@);
        assert(r.model() =~= l.model());
    }
    r
}

/// Inserting an element anywhere adds exactly one occurrence of it.
proof fn lemma_insert_multiset(s: Seq<TreeLeafModel>, j: int, m: TreeLeafModel)
    requires
        0 <= j <= s.len(),
    ensures
        s.insert(j, m).to_multiset() =~= s.to_multiset().insert(m),
{
    broadcast use vstd::multiset::group_multiset_axioms;

    let a = s.subrange(0, j);
    let b = s.subrange(j, s.len() as int);
    assert(s.insert(j, m) =~= a + (seq![m] + b));
    assert(s =~= a + b);
    vstd::seq_lib::lemma_multiset_commutative(a, seq![m] + b);
    vstd::seq_lib::lemma_multiset_commutative(seq![m], b);
    vstd::seq_lib::lemma_multiset_commutative(a, b);
    assert(seq![m] =~= Seq::<TreeLeafModel>::empty().push(m));
    Seq::<TreeLeafModel>::empty().to_multiset_ensures();
    vstd::multiset::lemma_multiset_empty_len(Seq::<TreeLeafModel>::empty().to_multiset());
}

/// The position where the insertion sort puts `item` into `sorted_v`.
fn insert_pos(sorted_v: &Vec<GitTreeLeaf>, item: &GitTreeLeaf) -> (j: usize)
    ensures
        j <= sorted_v@.len(),
        forall|k: int| 0 <= k < j ==> !leaf_le(item.model(), leaves_model(sorted_v@)[k]),
        j < sorted_v@.len() ==> leaf_le(item.model(), leaves_model(sorted_v@)[j as int]),
{
    let mut j: usize = 0;
    while j < sorted_v.len()
        invariant
            j <= sorted_v@.len(),
            forall|k: int| 0 <= k < j ==> !leaf_le(item.model(), leaves_model(sorted_v@)[k]),
        decreases sorted_v@.len() - j,
    {
        if leaf_le_exec(item, &sorted_v[j]) {
            proof {
                assert(leaves_model(sorted_v@)[j as int] == sorted_v@[j as int].model());
            }
            return j;
        }
        proof {
            assert(leaves_model(sorted_v@)[j as int] == sorted_v@[j as int].model());
        }
        j = j + 1;
    }
    j
}

/// Two sorted sequences with the same elements are identical: the byte-wise
/// order leaves no freedom in how a given entry set is laid out.
pub proof fn lemma_sorted_unique(s1: Seq<TreeLeafModel>, s2: Seq<TreeLeafModel>)
    requires
        sorted_by(s1, leaf_le_fn()),
        sorted_by(s2, leaf_le_fn()),
        s1.to_multiset() == s2.to_multiset(),
    ensures
        s1 == s2,
    decreases s1.len(),
{
    broadcast use vstd::multiset::group_multiset_axioms;

    s1.to_multiset_ensures();
    s2.to_multiset_ensures();
    if s1.len() == 0 {
        assert(s2.len() == 0);
        assert(s1 =~= s2);
    } else {
        assert(s2.len() == s1.len());
        let x1 = s1[0];
        let x2 = s2[0];
        assert(s1.contains(x1));
        assert(s2.to_multiset().count(x1) > 0);
        assert(s2.contains(x1));
        let k1 = choose|k: int| 0 <= k < s2.len() && s2[k] == x1;
        assert(leaf_le(x2, x1)) by {
            if k1 > 0 {
                assert(leaf_le_fn()(s2[0], s2[k1]));
            } else {
                lemma_leaf_le_total(x2, x2);
            }
        }
        assert(s1.to_multiset().count(x2) > 0);
        assert(s1.contains(x2));
        let k2 = choose|k: int| 0 <= k < s1.len() && s1[k] == x2;
        assert(leaf_le(x1, x2)) by {
            if k2 > 0 {
                assert(leaf_le_fn()(s1[0], s1[k2]));
            } else {
                lemma_leaf_le_total(x1, x1);
            }
        }
        lemma_leaf_le_antisym(x1, x2);
        let d1 = s1.drop_first();
        let d2 = s2.drop_first();
        assert(s1.remove(0) =~= d1);
        assert(s2.remove(0) =~= d2);
        assert(d1.to_multiset() =~= s1.to_multiset().remove(x1));
        assert(d2.to_multiset() =~= s2.to_multiset().remove(x2));
        assert(sorted_by(d1, leaf_le_fn())) by {
            assert forall|p: int, q: int| 0 <= p < q < d1.len() implies #[trigger] leaf_le_fn()(
                d1[p],
                d1[q],
            ) by {
                assert(leaf_le_fn()(s1[p + 1], s1[q + 1]));
            }
        }
        assert(sorted_by(d2, leaf_le_fn())) by {
            assert forall|p: int, q: int| 0 <= p < q < d2.len() implies #[trigger] leaf_le_fn()(
                d2[p],
                d2[q],
            ) by {
                assert(leaf_le_fn()(s2[p + 1], s2[q + 1]));
            }
        }
        lemma_sorted_unique(d1, d2);
        assert(s1 =~= s2) by {
            assert(forall|i: int| 1 <= i < s1.len() ==> s1[i] == d1[i - 1] && s2[i] == d2[i - 1]);
        }
    }
}

/// Encodes a tree payload: the entries sorted by path (then mode, then
/// digest) and concatenated, so that the same entry set always yields the
/// same bytes.
pub fn tree_serialize(entries: &Vec<GitTreeLeaf>) -> (r: Vec<u8>)
    ensures
        r@ == tree_encode_spec(leaves_model(entries@)),
{
    let ghost all = leaves_model(entries@);
    let mut sorted_v: Vec<GitTreeLeaf> = Vec::new();
    let mut idx: usize = 0;
    proof {
        assert(leaves_model(sorted_v@) =~= Seq::<TreeLeafModel>::empty());
        assert(leaves_model(entries@.subrange(0, 0)) =~= Seq::<TreeLeafModel>::empty());
        Seq::<TreeLeafModel>::empty().to_multiset_ensures();
    }
    while idx < entries.len()
        invariant
            idx <= entries@.len(),
            all == leaves_model(entries@),
            all.len() == entries@.len(),
            sorted_by(leaves_model(sorted_v@), leaf_le_fn()),
            leaves_model(sorted_v@).to_multiset() == leaves_model(
                entries@.subrange(0, idx as int),
            ).to_multiset(),
        decreases entries@.len() - idx,
    {
        let item = leaf_copy(&entries[idx]);
        let ghost sm = leaves_model(sorted_v@);
        let j = insert_pos(&sorted_v, &item);
        sorted_v.insert(j, item);
        proof {
            let m = item.model();
            assert(leaves_model(sorted_v@) =~= sm.insert(j as int, m));
            // Sortedness is preserved around the insertion point.
            assert forall|p: int, q: int|
                0 <= p < q < leaves_model(sorted_v@).len() implies #[trigger] leaf_le_fn()(
                leaves_model(sorted_v@)[p],
                leaves_model(sorted_v@)[q],
            ) by {
                let sv = leaves_model(sorted_v@);
                let jj = j as int;
                if p < jj && q < jj {
                    assert(leaf_le_fn()(sm[p], sm[q]));
                } else if p < jj && q == jj {
                    lemma_leaf_le_total(m, sm[p]);
                } else if p < jj && q > jj {
                    assert(leaf_le_fn()(sm[p], sm[q - 1]));
                } else if p == jj && q > jj {
                    assert(leaf_le(m, sm[jj]));
                    if q - 1 > jj {
                        assert(leaf_le_fn()(sm[jj], sm[q - 1]));
                        lemma_leaf_le_trans(m, sm[jj], sm[q - 1]);
                    }
                } else {
                    assert(p > jj && q > jj);
                    assert(leaf_le_fn()(sm[p - 1], sm[q - 1]));
                }
            }
            lemma_insert_multiset(sm, j as int, m);
            broadcast use vstd::multiset::group_multiset_axioms;

            let prev = leaves_model(entries@.subrange(0, idx as int));
            let cur = leaves_model(entries@.subrange(0, idx + 1));
            assert(cur =~= prev.push(m));
            prev.to_multiset_ensures();
            assert(cur.to_multiset() =~= prev.to_multiset().insert(m));
        }
        idx = idx + 1;
    }
    proof {
        assert(entries@.subrange(0, entries@.len() as int) =~= entries@);
        lemma_leaf_le_total_ordering();
        all.lemma_sort_by_ensures(leaf_le_fn());
        lemma_sorted_unique(leaves_model(sorted_v@), all.sort_by(leaf_le_fn()));
    }
    // Emit the sorted entries.
    let ghost sm = leaves_model(sorted_v@);
    let mut out: Vec<u8> = Vec::new();
    let mut i: usize = 0;
    proof {
        assert(sm.skip(0) =~= sm);
        assert(out@ + leaves_enc(sm) =~= leaves_enc(sm));
    }
    while i < sorted_v.len()
        invariant
            i <= sorted_v@.len(),
            sm == leaves_model(sorted_v@),
            sm.len() == sorted_v@.len(),
            leaves_enc(sm) == out@ + leaves_enc(sm.skip(i as int)),
        decreases sorted_v@.len() - i,
    {
        let ghost pre = out@;
        let ghost lsub = sm.skip(i as int);
        let ghost lm = sm[i as int];
        proof {
            assert(lsub[0] == lm);
            assert(lsub.skip(1) =~= sm.skip(i + 1));
            assert(leaves_enc(lsub) == leaf_enc(lm) + leaves_enc(sm.skip(i + 1)));
            assert(sorted_v@[i as int].model() == lm);
        }
        let entry = &sorted_v[i];
        append_bytes(&mut out, &entry.mode);
        out.push(0x20);
        append_bytes(&mut out, &entry.path);
        out.push(0x00);
        append_bytes(&mut out, &entry.sha);
        proof {
            assert(out@ =~= pre + leaf_enc(lm));
            assert(pre + (leaf_enc(lm) + leaves_enc(sm.skip(i + 1))) =~= (pre + leaf_enc(lm))
                + leaves_enc(sm.skip(i + 1)));
        }
        i = i + 1;
    }
    proof {
        assert(sm.skip(sm.len() as int).len() == 0);
        assert(leaves_enc(sm.skip(sm.len() as int)) =~= Seq::<u8>::empty());
        assert(out@ =~= leaves_enc(sm));
    }
    out
}

impl GitTreeLeaf {
    /// Parses one entry beginning at `start`, returning the index just past
    /// it; `MalformedTree` when the mode field is misplaced or the entry is
    /// truncated.
    pub fn tree_parse_one(raw: &Vec<u8>, start: usize) -> (r: Result<(usize, GitTreeLeaf), GitError>)
        requires
            start <= raw@.len(),
        ensures
            ({
                let sub = raw@.subrange(start as int, raw@.len() as int);
                match r {
                    Ok(p) => tree_parse_one_spec(sub) matches Some(sp) && sp.0 == p.0 - start
                        && sp.1 == p.1.model() && start < p.0 <= raw@.len(),
                    Err(e) => e == GitError::MalformedTree && tree_parse_one_spec(sub) is None,
                }
            }),
    {
        let ghost sub = raw@.subrange(start as int, raw@.len() as int);
        proof {
            assert(forall|k: int| 0 <= k < sub.len() ==> #[trigger] sub[k] == raw@[start + k]);
        }
        let x = match find_byte(raw, 0x20, start) {
            Some(x) => x,
            None => {
                proof {
                    lemma_find_from_none(sub, 0x20, 0);
                }
                return Err(GitError::MalformedTree);
            },
        };
        proof {
            lemma_find_from_at(sub, 0x20, 0, x - start);
        }
        if x - start != 5 && x - start != 6 {
            return Err(GitError::MalformedTree);
        }
        let rlen = raw.len();
        proof {
            assert(x < rlen);
        }
        let y = match find_byte(raw, 0x00, x + 1) {
            Some(y) => y,
            None => {
                proof {
                    lemma_find_from_none(sub, 0x00, x - start + 1);
                }
                return Err(GitError::MalformedTree);
            },
        };
        proof {
            lemma_find_from_at(sub, 0x00, x - start + 1, y - start);
        }
        if raw.len() - (y + 1) < 20 {
            proof {
                assert(y - start + 21 > sub.len());
            }
            return Err(GitError::MalformedTree);
        }
        let leaf = GitTreeLeaf {
            mode: copy_range(raw, start, x),
            path: copy_range(raw, x + 1, y),
            sha: copy_range(raw, y + 1, y + 21),
        };
        proof {
            assert(y - start + 21 <= sub.len());
            assert(leaf.mode@ =~= sub.subrange(0, x - start));
            assert(leaf.path@ =~= sub.subrange(x - start + 1, y - start));
            assert(leaf.sha@ =~= sub.subrange(y - start + 1, y - start + 21));
            assert(tree_parse_one_spec(sub) matches Some(sp) && sp.0 == y + 21 - start && sp.1
                =~= leaf.model());
        }
        Ok((y + 21, leaf))
    }
}

/// Parses a whole tree payload into its entry list, entries in encoding
/// order; `MalformedTree` exactly when the payload is not a concatenation
/// of well-formed entries.
pub fn tree_parse(raw: &Vec<u8>) -> (r: Result<Vec<GitTreeLeaf>, GitError>)
    ensures
        match r {
            Ok(v) => tree_parse_spec(raw@) == Some(leaves_model(v@)),
            Err(e) => e == GitError::MalformedTree && tree_parse_spec(raw@) is None,
        },
{
    let mut pos: usize = 0;
    let mut out: Vec<GitTreeLeaf> = Vec::new();
    proof {
        assert(raw@.subrange(0, raw@.len() as int) =~= raw@);
        assert(leaves_model(out@) =~= Seq::<TreeLeafModel>::empty());
    }
    while pos < raw.len()
        invariant
            pos <= raw@.len(),
            (tree_parse_spec(raw@) is Some) == (tree_parse_spec(
                raw@.subrange(pos as int, raw@.len() as int),
            ) is Some),
            tree_parse_spec(raw@) is Some ==> tree_parse_spec(raw@)->Some_0 == leaves_model(out@)
                + tree_parse_spec(raw@.subrange(pos as int, raw@.len() as int))->Some_0,
        decreases raw@.len() - pos,
    {
        let ghost sub = raw@.subrange(pos as int, raw@.len() as int);
        match GitTreeLeaf::tree_parse_one(raw, pos) {
            Err(e) => {
                proof {
                    assert(sub.len() > 0);
                    assert(tree_parse_spec(sub) is None);
                }
                return Err(e);
            },
            Ok((next, leaf)) => {
                let ghost m = leaf.model();
                let ghost pre = leaves_model(out@);
                out.push(leaf);
                proof {
                    assert(leaves_model(out@) =~= pre.push(m));
                    let sub2 = raw@.subrange(next as int, raw@.len() as int);
                    assert(sub.subrange(next - pos, sub.len() as int) =~= sub2);
                    assert(tree_parse_spec(sub) matches Some(v) ==> v == seq![m] + tree_parse_spec(
                        sub2,
                    )->Some_0);
                    if tree_parse_spec(raw@) is Some {
                        assert(pre + (seq![m] + tree_parse_spec(sub2)->Some_0) =~= pre.push(m)
                            + tree_parse_spec(sub2)->Some_0);
                    }
                }
                pos = next;
            },
        }
    }
    proof {
        let sub = raw@.subrange(pos as int, raw@.len() as int);
        assert(sub.len() == 0);
        assert(tree_parse_spec(sub) == Some(Seq::<TreeLeafModel>::empty()));
        assert(leaves_model(out@) + Seq::<TreeLeafModel>::empty() =~= leaves_model(out@));
    }
    Ok(out)
}

/// Parsing the encoding of well-formed entries yields them back, one entry
/// per encoded entry, in encoded order.
proof fn lemma_parse_leaves_enc(ls: Seq<TreeLeafModel>)
    requires
        forall|i: int| 0 <= i < ls.len() ==> leaf_wf(#[trigger] ls[i]),
    ensures
        tree_parse_spec(leaves_enc(ls)) == Some(ls),
    decreases ls.len(),
{
    if ls.len() == 0 {
        assert(leaves_enc(ls).len() == 0);
        assert(ls =~= Seq::<TreeLeafModel>::empty());
    } else {
        let l = ls[0];
        assert(leaf_wf(l));
        let raw = leaves_enc(ls);
        let rest = leaves_enc(ls.skip(1));
        assert(raw == leaf_enc(l) + rest);
        let ml = l.mode.len() as int;
        let y = ml + 1 + l.path.len() as int;
        let next = y + 21;
        assert(raw.len() == next + rest.len());
        assert(forall|k: int| 0 <= k < ml ==> raw[k] == l.mode[k]);
        assert(raw[ml] == 0x20);
        assert(forall|k: int| ml + 1 <= k < y ==> raw[k] == l.path[k - (ml + 1)]);
        assert(raw[y] == 0x00);
        assert(forall|k: int| y + 1 <= k < next ==> raw[k] == l.sha[k - (y + 1)]);
        lemma_find_from_at(raw, 0x20, 0, ml);
        lemma_find_from_at(raw, 0x00, ml + 1, y);
        assert(raw.subrange(0, ml) =~= l.mode);
        assert(raw.subrange(ml + 1, y) =~= l.path);
        assert(raw.subrange(y + 1, next) =~= l.sha);
        assert(tree_parse_one_spec(raw) matches Some(sp) && sp.0 == next && sp.1 =~= l);
        assert(raw.subrange(next, raw.len() as int) =~= rest);
        assert(forall|i: int| 0 <= i < ls.skip(1).len() ==> ls.skip(1)[i] == ls[i + 1]);
        lemma_parse_leaves_enc(ls.skip(1));
        assert(seq![l] + ls.skip(1) =~= ls);
    }
}

/// Round-trip law: decoding an encoded tree yields exactly the encoded
/// entry list, which is the input as reordered by the byte-wise sort.
pub proof fn lemma_tree_round_trip(ls: Seq<TreeLeafModel>)
    requires
        forall|i: int| 0 <= i < ls.len() ==> leaf_wf(#[trigger] ls[i]),
    ensures
        tree_parse_spec(tree_encode_spec(ls)) == Some(ls.sort_by(leaf_le_fn())),
{
    lemma_leaf_le_total_ordering();
    ls.lemma_sort_by_ensures(leaf_le_fn());
    let sorted = ls.sort_by(leaf_le_fn());
    assert forall|i: int| 0 <= i < sorted.len() implies leaf_wf(#[trigger] sorted[i]) by {
        assert(sorted.contains(sorted[i]));
        assert(ls.contains(sorted[i]));
        let k = choose|k: int| 0 <= k < ls.len() && ls[k] == sorted[i];
        assert(leaf_wf(ls[k]));
    }
    lemma_parse_leaves_enc(sorted);
}

/// Order-independence law: two entry lists holding the same entries encode
/// to byte-identical payloads, whatever order they were assembled in.
pub proof fn lemma_tree_encode_order_independent(ls1: Seq<TreeLeafModel>, ls2: Seq<TreeLeafModel>)
    requires
        ls1.to_multiset() == ls2.to_multiset(),
    ensures
        tree_encode_spec(ls1) == tree_encode_spec(ls2),
{
    lemma_leaf_le_total_ordering();
    ls1.lemma_sort_by_ensures(leaf_le_fn());
    ls2.lemma_sort_by_ensures(leaf_le_fn());
    lemma_sorted_unique(ls1.sort_by(leaf_le_fn()), ls2.sort_by(leaf_le_fn()));
}

} // verus!
