//! The object model: a typed payload framed as `<tag><SP><len><NUL><payload>`,
//! identified by the SHA-1 digest of exactly those framed bytes, and stored
//! zlib-compressed under a path derived from the digest.
use vstd::prelude::*;
use vstd::string::StringExecFns;
use crate::GitError;
use crate::bytes::append_bytes;
use crate::bytes::bytes_eq;
use crate::bytes::copy_range;
use crate::bytes::dec_digits;
use crate::bytes::dec_value;
use crate::bytes::find_byte;
use crate::bytes::find_from;
use crate::bytes::is_digits;
use crate::bytes::lemma_dec_digits_props;
use crate::bytes::lemma_find_from_at;
use crate::bytes::lemma_find_from_none;
use crate::bytes::parse_decimal;
use crate::bytes::usize_to_decimal;
use crate::compress::deflate_of;
use crate::compress::inflate_of;
use crate::compress::zlib_compress;
use crate::hashing::sha1_hex;
use crate::hashing::sha1_hex_of;
use crate::kvlm::Kvlm;
use crate::kvlm::KvlmModel;
use crate::kvlm::kvlm_decode_spec;
use crate::kvlm::kvlm_encode_spec;
use crate::kvlm::kvlm_parse;
use crate::kvlm::kvlm_serialize;
use crate::tree::GitTreeLeaf;
use crate::tree::TreeLeafModel;
use crate::tree::leaves_model;
use crate::tree::tree_encode_spec;
use crate::tree::tree_parse;
use crate::tree::tree_parse_spec;
use crate::tree::tree_serialize;

verus! {

/// The closed set of object kinds. The kind selects the payload codec and
/// its lowercase tag is part of the on-disk framing.
#[derive(Clone, Copy, Debug, PartialEq, Eq, Structural)]
pub enum GitObjectType {
    Commit,
    Tree,
    Tag,
    Blob,
}

/// The framing tag of each kind, as raw bytes.
pub open spec fn type_tag(t: GitObjectType) -> Seq<u8> {
    match t {
        GitObjectType::Commit => seq![0x63u8, 0x6fu8, 0x6du8, 0x6du8, 0x69u8, 0x74u8],
        GitObjectType::Tree => seq![0x74u8, 0x72u8, 0x65u8, 0x65u8],
        GitObjectType::Tag => seq![0x74u8, 0x61u8, 0x67u8],
        GitObjectType::Blob => seq![0x62u8, 0x6cu8, 0x6fu8, 0x62u8],
    }
}

/// The framing tag of each kind, as text.
pub open spec fn type_tag_chars(t: GitObjectType) -> Seq<char> {
    match t {
        GitObjectType::Commit => seq!['c', 'o', 'm', 'm', 'i', 't'],
        GitObjectType::Tree => seq!['t', 'r', 'e', 'e'],
        GitObjectType::Tag => seq!['t', 'a', 'g'],
        GitObjectType::Blob => seq!['b', 'l', 'o', 'b'],
    }
}

/// The kind whose tag is `s`, if any.
pub open spec fn tag_type(s: Seq<u8>) -> Option<GitObjectType> {
    if s == type_tag(GitObjectType::Commit) {
        Some(GitObjectType::Commit)
    } else if s == type_tag(GitObjectType::Tree) {
        Some(GitObjectType::Tree)
    } else if s == type_tag(GitObjectType::Tag) {
        Some(GitObjectType::Tag)
    } else if s == type_tag(GitObjectType::Blob) {
        Some(GitObjectType::Blob)
    } else {
        None
    }
}

pub proof fn lemma_tag_type_inverse(t: GitObjectType)
    ensures
        tag_type(type_tag(t)) == Some(t),
{
    match t {
        GitObjectType::Commit => {},
        GitObjectType::Tree => {
            assert(type_tag(GitObjectType::Tree) != type_tag(GitObjectType::Commit));
        },
        GitObjectType::Tag => {},
        GitObjectType::Blob => {
            assert(type_tag(GitObjectType::Blob)[0] == 0x62);
            assert(type_tag(GitObjectType::Tree)[0] == 0x74);
        },
    }
}

impl GitObjectType {
    /// The tag as a fresh byte vector.
    pub fn tag_bytes(&self) -> (r: Vec<u8>)
        ensures
            r@ == type_tag(*self),
    {
        let mut r: Vec<u8> = Vec::new();
        match self {
            GitObjectType::Commit => {
                r.push(0x63);
                r.push(0x6f);
                r.push(0x6d);
                r.push(0x6d);
                r.push(0x69);
                r.push(0x74);
            },
            GitObjectType::Tree => {
                r.push(0x74);
                r.push(0x72);
                r.push(0x65);
                r.push(0x65);
            },
            GitObjectType::Tag => {
                r.push(0x74);
                r.push(0x61);
                r.push(0x67);
            },
            GitObjectType::Blob => {
                r.push(0x62);
                r.push(0x6c);
                r.push(0x6f);
                r.push(0x62);
            },
        }
        proof {
            assert(r@ =~= type_tag(*self));
        }
        r
    }

    /// The tag in its display form.
    pub fn fmt(&self) -> (r: String)
        ensures
            r@ == type_tag_chars(*self),
    {
        match self {
            GitObjectType::Commit => {
                let r = String::from_str("commit");
                proof {
                    reveal_strlit("commit");
                    assert(r@ =~= type_tag_chars(*self));
                }
                r
            },
            GitObjectType::Tree => {
                let r = String::from_str("tree");
                proof {
                    reveal_strlit("tree");
                    assert(r@ =~= type_tag_chars(*self));
                }
                r
            },
            GitObjectType::Tag => {
                let r = String::from_str("tag");
                proof {
                    reveal_strlit("tag");
                    assert(r@ =~= type_tag_chars(*self));
                }
                r
            },
            GitObjectType::Blob => {
                let r = String::from_str("blob");
                proof {
                    reveal_strlit("blob");
                    assert(r@ =~= type_tag_chars(*self));
                }
                r
            },
        }
    }

    /// The kind named by `s`; `MalformedObject` for any other text.
    pub fn from_str(s: &str) -> (r: Result<GitObjectType, GitError>)
        ensures
            match r {
                Ok(t) => s@ == type_tag_chars(t),
                Err(e) => e == GitError::MalformedObject && forall|t: GitObjectType|
                    s@ != type_tag_chars(t),
            },
    {
        let owned = s.to_owned();
        proof {
            reveal_strlit("commit");
            reveal_strlit("tree");
            reveal_strlit("tag");
            reveal_strlit("blob");
        }
        if owned == String::from_str("commit") {
            proof {
                assert(s@ =~= type_tag_chars(GitObjectType::Commit));
            }
            Ok(GitObjectType::Commit)
        } else if owned == String::from_str("tree") {
            proof {
                assert(s@ =~= type_tag_chars(GitObjectType::Tree));
            }
            Ok(GitObjectType::Tree)
        } else if owned == String::from_str("tag") {
            proof {
                assert(s@ =~= type_tag_chars(GitObjectType::Tag));
            }
            Ok(GitObjectType::Tag)
        } else if owned == String::from_str("blob") {
            proof {
                assert(s@ =~= type_tag_chars(GitObjectType::Blob));
            }
            Ok(GitObjectType::Blob)
        } else {
            proof {
                assert forall|t: GitObjectType| s@ != type_tag_chars(t) by {
                    match t {
                        GitObjectType::Commit => {
                            assert("commit"@ =~= type_tag_chars(GitObjectType::Commit));
                            assert(s@ != "commit"@);
                        },
                        GitObjectType::Tree => {
                            assert("tree"@ =~= type_tag_chars(GitObjectType::Tree));
                            assert(s@ != "tree"@);
                        },
                        GitObjectType::Tag => {
                            assert("tag"@ =~= type_tag_chars(GitObjectType::Tag));
                            assert(s@ != "tag"@);
                        },
                        GitObjectType::Blob => {
                            assert("blob"@ =~= type_tag_chars(GitObjectType::Blob));
                            assert(s@ != "blob"@);
                        },
                    }
                }
            }
            Err(GitError::MalformedObject)
        }
    }
}

/// An object: a typed, structured payload.
#[derive(Debug, PartialEq, Eq)]
pub enum GitObject {
    Blob(Vec<u8>),
    Commit(Kvlm),
    Tree(Vec<GitTreeLeaf>),
    Tag(Kvlm),
}

/// The mathematical content of an object.
#[verifier::ext_equal]
pub ghost enum GitObjectModel {
    Blob(Seq<u8>),
    Commit(KvlmModel),
    Tree(Seq<TreeLeafModel>),
    Tag(KvlmModel),
}

/// The kind of an object.
pub open spec fn model_type(m: GitObjectModel) -> GitObjectType {
    match m {
        GitObjectModel::Blob(_) => GitObjectType::Blob,
        GitObjectModel::Commit(_) => GitObjectType::Commit,
        GitObjectModel::Tree(_) => GitObjectType::Tree,
        GitObjectModel::Tag(_) => GitObjectType::Tag,
    }
}

/// The payload encoding of each kind: identity for blobs, the
/// key-value-list encoding for commits and tags, the sorted binary entry
/// encoding for trees.
pub open spec fn serialize_spec(m: GitObjectModel) -> Seq<u8> {
    match m {
        GitObjectModel::Blob(d) => d,
        GitObjectModel::Commit(k) => kvlm_encode_spec(k),
        GitObjectModel::Tree(ls) => tree_encode_spec(ls),
        GitObjectModel::Tag(k) => kvlm_encode_spec(k),
    }
}

/// The inverse dispatch: what a payload means under each kind.
pub open spec fn deserialize_spec(t: GitObjectType, p: Seq<u8>) -> Option<GitObjectModel> {
    match t {
        GitObjectType::Blob => Some(GitObjectModel::Blob(p)),
        GitObjectType::Commit => match kvlm_decode_spec(p) {
            Some(k) => Some(GitObjectModel::Commit(k)),
            None => None,
        },
        GitObjectType::Tree => match tree_parse_spec(p) {
            Some(ls) => Some(GitObjectModel::Tree(ls)),
            None => None,
        },
        GitObjectType::Tag => match kvlm_decode_spec(p) {
            Some(k) => Some(GitObjectModel::Tag(k)),
            None => None,
        },
    }
}

/// The error a failing payload decode reports, per kind.
pub open spec fn deserialize_err(t: GitObjectType) -> GitError {
    match t {
        GitObjectType::Tree => GitError::MalformedTree,
        _ => GitError::IncompleteKvlm,
    }
}

impl GitObject {
    pub open spec fn model(&self) -> GitObjectModel {
        match self {
            GitObject::Blob(d) => GitObjectModel::Blob(d@),
            GitObject::Commit(k) => GitObjectModel::Commit(k.model()),
            GitObject::Tree(ls) => GitObjectModel::Tree(leaves_model(ls@)),
            GitObject::Tag(k) => GitObjectModel::Tag(k.model()),
        }
    }

    /// The kind of this object.
    pub fn object_type(&self) -> (t: GitObjectType)
        ensures
            t == model_type(self.model()),
    {
        match self {
            GitObject::Blob(_) => GitObjectType::Blob,
            GitObject::Commit(_) => GitObjectType::Commit,
            GitObject::Tree(_) => GitObjectType::Tree,
            GitObject::Tag(_) => GitObjectType::Tag,
        }
    }

    /// Interprets a payload under the given kind. Equivalent to
    /// `deserialize`; this is the constructor form.
    pub fn new(object_type: GitObjectType, data: &Vec<u8>) -> (r: Result<GitObject, GitError>)
        ensures
            match r {
                Ok(o) => deserialize_spec(object_type, data@) == Some(o.model()),
                Err(e) => deserialize_spec(object_type, data@) is None && e == deserialize_err(
                    object_type,
                ),
            },
    {
        GitObject::deserialize(object_type, data)
    }

    /// Encodes this object's payload: blobs pass through unchanged,
    /// commits and tags use the key-value-list encoding, trees the sorted
    /// binary entry encoding.
    pub fn serialize(&self) -> (r: Vec<u8>)
        ensures
            r@ == serialize_spec(self.model()),
    {
        match self {
            GitObject::Blob(d) => {
                let r = copy_range(d, 0, d.len());
                proof {
                    assert(d@.subrange(0, d@.len() as int) =~= d@);
                }
                r
            },
            GitObject::Commit(k) => kvlm_serialize(k),
            GitObject::Tree(ls) => tree_serialize(ls),
            GitObject::Tag(k) => kvlm_serialize(k),
        }
    }

    /// Decodes a payload under the given kind; the failure, if any, names
    /// the codec that rejected the payload.
    pub fn deserialize(t: GitObjectType, payload: &Vec<u8>) -> (r: Result<GitObject, GitError>)
        ensures
            match r {
                Ok(o) => deserialize_spec(t, payload@) == Some(o.model()),
                Err(e) => deserialize_spec(t, payload@) is None && e == deserialize_err(t),
            },
    {
        match t {
            GitObjectType::Blob => {
                let r = copy_range(payload, 0, payload.len());
                proof {
                    assert(payload@.subrange(0, payload@.len() as int) =~= payload@);
                }
                Ok(GitObject::Blob(r))
            },
            GitObjectType::Commit => match kvlm_parse(payload) {
                Ok(k) => Ok(GitObject::Commit(k)),
                Err(e) => Err(e),
            },
            GitObjectType::Tree => match tree_parse(payload) {
                Ok(ls) => Ok(GitObject::Tree(ls)),
                Err(e) => Err(e),
            },
            GitObjectType::Tag => match kvlm_parse(payload) {
                Ok(k) => Ok(GitObject::Tag(k)),
                Err(e) => Err(e),
            },
        }
    }
}

/// The framed byte stream hashed to produce an object's identity:
/// `<tag><SP><decimal length><NUL><payload>`.
pub open spec fn frame_spec(t: GitObjectType, p: Seq<u8>) -> Seq<u8> {
    type_tag(t) + seq![0x20u8] + dec_digits(p.len()) + seq![0x00u8] + p
}

/// The digest of an object: always the hash of the framed bytes, never of
/// the payload alone.
pub open spec fn object_digest_spec(t: GitObjectType, p: Seq<u8>) -> Seq<u8> {
    sha1_hex_of(frame_spec(t, p))
}

/// The bytes at rest for an object: the framed bytes, compressed.
pub open spec fn stored_bytes_spec(t: GitObjectType, p: Seq<u8>) -> Seq<u8> {
    deflate_of(frame_spec(t, p))
}

/// Builds the framed byte stream for a payload.
pub fn frame_payload(t: GitObjectType, payload: &Vec<u8>) -> (r: Vec<u8>)
    ensures
        r@ == frame_spec(t, payload@),
{
    let mut r = t.tag_bytes();
    r.push(0x20);
    let digits = usize_to_decimal(payload.len());
    append_bytes(&mut r, &digits);
    r.push(0x00);
    append_bytes(&mut r, payload);
    proof {
        assert(r@ =~= frame_spec(t, payload@));
    }
    r
}

/// Locates the first space and the first NUL after it, reads the decimal
/// length between them, and yields the kind and payload — exactly when the
/// tag is known and the declared length matches the actual payload length.
pub open spec fn parse_frame_spec(raw: Seq<u8>) -> Option<(GitObjectType, Seq<u8>)> {
    match find_from(raw, 0x20, 0) {
        None => None,
        Some(x) => match tag_type(raw.subrange(0, x)) {
            None => None,
            Some(t) => match find_from(raw, 0x00, x + 1) {
                None => None,
                Some(y) => if !is_digits(raw.subrange(x + 1, y)) {
                    None
                } else if dec_value(raw.subrange(x + 1, y)) != raw.len() - y - 1 {
                    None
                } else {
                    Some((t, raw.subrange(y + 1, raw.len() as int)))
                },
            },
        },
    }
}

/// Splits a framed byte stream into its kind and payload.
///
/// Fails with `MalformedObject` exactly when the framing is invalid: no
/// space, an unrecognized tag, no NUL, a non-decimal length field, or a
/// declared length that does not match the payload — the integrity guard.
pub fn parse_frame(raw: &Vec<u8>) -> (r: Result<(GitObjectType, Vec<u8>), GitError>)
    ensures
        match r {
            Ok(p) => parse_frame_spec(raw@) matches Some(sp) && sp.0 == p.0 && sp.1 == p.1@,
            Err(e) => e == GitError::MalformedObject && parse_frame_spec(raw@) is None,
        },
{
    let x = match find_byte(raw, 0x20, 0) {
        Some(x) => x,
        None => {
            proof {
                lemma_find_from_none(raw@, 0x20, 0);
            }
            return Err(GitError::MalformedObject);
        },
    };
    proof {
        lemma_find_from_at(raw@, 0x20, 0, x as int);
    }
    let tag = copy_range(raw, 0, x);
    let t = if bytes_eq(&tag, &GitObjectType::Commit.tag_bytes()) {
        GitObjectType::Commit
    } else if bytes_eq(&tag, &GitObjectType::Tree.tag_bytes()) {
        GitObjectType::Tree
    } else if bytes_eq(&tag, &GitObjectType::Tag.tag_bytes()) {
        GitObjectType::Tag
    } else if bytes_eq(&tag, &GitObjectType::Blob.tag_bytes()) {
        GitObjectType::Blob
    } else {
        proof {
            assert(tag_type(raw@.subrange(0, x as int)) is None);
        }
        return Err(GitError::MalformedObject);
    };
    proof {
        assert(tag_type(raw@.subrange(0, x as int)) == Some(t));
    }
    let rlen = raw.len();
    let y = match find_byte(raw, 0x00, x + 1) {
        Some(y) => y,
        None => {
            proof {
                lemma_find_from_none(raw@, 0x00, x + 1);
            }
            return Err(GitError::MalformedObject);
        },
    };
    proof {
        lemma_find_from_at(raw@, 0x00, x + 1, y as int);
    }
    let declared = match parse_decimal(raw, x + 1, y) {
        Some(n) => n,
        None => {
            proof {
                if is_digits(raw@.subrange(x + 1, y as int)) {
                    crate::bytes::lemma_dec_value_prefix_le(raw@.subrange(x + 1, y as int), 0);
                    assert(dec_value(raw@.subrange(x + 1, y as int)) > usize::MAX);
                    assert(raw@.len() - y - 1 < usize::MAX);
                }
            }
            return Err(GitError::MalformedObject);
        },
    };
    if declared != rlen - y - 1 {
        return Err(GitError::MalformedObject);
    }
    let payload = copy_range(raw, y + 1, rlen);
    Ok((t, payload))
}

/// The outcome of preparing an object for storage: its framed bytes, their
/// digest as 40 lowercase hex characters, the compressed bytes to put at
/// rest, and the store-relative path derived from the digest.
#[derive(Debug, PartialEq, Eq)]
pub struct ObjectWriteOutcome {
    pub sha: Vec<u8>,
    pub framed: Vec<u8>,
    pub compressed: Vec<u8>,
    pub rel_path: Vec<u8>,
}

/// The store-relative path of a digest: `objects/<2 hex>/<38 hex>`.
pub open spec fn object_path_spec(digest: Seq<u8>) -> Seq<u8> {
    seq![0x6fu8, 0x62u8, 0x6au8, 0x65u8, 0x63u8, 0x74u8, 0x73u8, 0x2fu8] + digest.subrange(0, 2)
        + seq![0x2fu8] + digest.subrange(2, 40)
}

/// Splits a 40-character digest into the sharded store path.
pub fn object_locate(digest: &Vec<u8>) -> (r: Vec<u8>)
    requires
        digest@.len() == 40,
    ensures
        r@ == object_path_spec(digest@),
{
    let mut r: Vec<u8> = Vec::new();
    r.push(0x6f);
    r.push(0x62);
    r.push(0x6a);
    r.push(0x65);
    r.push(0x63);
    r.push(0x74);
    r.push(0x73);
    r.push(0x2f);
    let prefix = copy_range(digest, 0, 2);
    append_bytes(&mut r, &prefix);
    r.push(0x2f);
    let rest = copy_range(digest, 2, 40);
    append_bytes(&mut r, &rest);
    proof {
        assert(r@ =~= object_path_spec(digest@));
    }
    r
}

impl GitObject {
    /// Prepares this object for storage: encodes the payload, frames it,
    /// hashes the framed bytes into the object's identity, compresses them,
    /// and derives the sharded path. Whether the result is persisted is the
    /// caller's choice; the digest is the same either way.
    pub fn object_write(&self) -> (r: ObjectWriteOutcome)
        ensures
            r.framed@ == frame_spec(model_type(self.model()), serialize_spec(self.model())),
            r.sha@ == object_digest_spec(model_type(self.model()), serialize_spec(self.model())),
            r.sha@.len() == 40,
            r.compressed@ == stored_bytes_spec(
                model_type(self.model()),
                serialize_spec(self.model()),
            ),
            inflate_of(r.compressed@) == Some(r.framed@),
            r.rel_path@ == object_path_spec(r.sha@),
    {
        let payload = self.serialize();
        let t = self.object_type();
        let framed = frame_payload(t, &payload);
        let sha = sha1_hex(&framed);
        let compressed = zlib_compress(&framed);
        let rel_path = object_locate(&sha);
        ObjectWriteOutcome { sha, framed, compressed, rel_path }
    }

    /// Parses a decompressed framed stream and decodes its payload.
    pub fn object_read(raw: &Vec<u8>) -> (r: Result<GitObject, GitError>)
        ensures
            match r {
                Ok(o) => parse_frame_spec(raw@) matches Some(tp) && deserialize_spec(tp.0, tp.1)
                    == Some(o.model()),
                Err(e) => (parse_frame_spec(raw@) is None && e == GitError::MalformedObject) || (
                parse_frame_spec(raw@) matches Some(tp) && deserialize_spec(tp.0, tp.1) is None && e
                    == deserialize_err(tp.0)),
            },
    {
        let (t, payload) = match parse_frame(raw) {
            Ok(p) => p,
            Err(e) => {
                return Err(e);
            },
        };
        match GitObject::deserialize(t, &payload) {
            Ok(o) => Ok(o),
            Err(e) => Err(e),
        }
    }
}

/// Integrity-guard law: a frame whose declared length does not match its
/// payload is rejected outright; no truncated or extended payload is ever
/// returned.
pub proof fn lemma_integrity_guard(t: GitObjectType, payload: Seq<u8>, decl: Seq<u8>)
    requires
        is_digits(decl),
        dec_value(decl) != payload.len(),
    ensures
        parse_frame_spec(type_tag(t) + seq![0x20u8] + decl + seq![0x00u8] + payload) is None,
{
    let raw = type_tag(t) + seq![0x20u8] + decl + seq![0x00u8] + payload;
    let tl = type_tag(t).len() as int;
    let y = tl + 1 + decl.len() as int;
    assert(forall|k: int| 0 <= k < tl ==> raw[k] == type_tag(t)[k]);
    assert(raw[tl] == 0x20);
    assert(forall|k: int| tl + 1 <= k < y ==> raw[k] == decl[k - (tl + 1)]);
    assert(raw[y] == 0x00);
    lemma_type_tag_bytes(t);
    assert forall|k: int| 0 <= k < tl implies raw[k] != 0x20 by {
        assert(type_tag(t)[k] != 0x20);
    }
    lemma_find_from_at(raw, 0x20, 0, tl);
    assert(raw.subrange(0, tl) =~= type_tag(t));
    lemma_tag_type_inverse(t);
    assert forall|k: int| tl + 1 <= k < y implies raw[k] != 0x00 by {
        assert(0x30 <= decl[k - (tl + 1)] <= 0x39);
    }
    lemma_find_from_at(raw, 0x00, tl + 1, y);
    assert(raw.subrange(tl + 1, y) =~= decl);
    assert(raw.len() - y - 1 == payload.len());
}

/// Every tag consists of lowercase letters: no space and no NUL.
proof fn lemma_type_tag_bytes(t: GitObjectType)
    ensures
        forall|k: int|
            0 <= k < type_tag(t).len() ==> #[trigger] type_tag(t)[k] != 0x20 && type_tag(t)[k]
                != 0x00,
{
    match t {
        GitObjectType::Commit => {},
        GitObjectType::Tree => {},
        GitObjectType::Tag => {},
        GitObjectType::Blob => {},
    }
}

/// Framing round-trip law: parsing a well-built frame recovers the kind
/// and payload exactly.
pub proof fn lemma_frame_round_trip(t: GitObjectType, p: Seq<u8>)
    ensures
        parse_frame_spec(frame_spec(t, p)) == Some((t, p)),
{
    let raw = frame_spec(t, p);
    let decl = dec_digits(p.len());
    lemma_dec_digits_props(p.len());
    let tl = type_tag(t).len() as int;
    let y = tl + 1 + decl.len() as int;
    assert(forall|k: int| 0 <= k < tl ==> raw[k] == type_tag(t)[k]);
    assert(raw[tl] == 0x20);
    assert(forall|k: int| tl + 1 <= k < y ==> raw[k] == decl[k - (tl + 1)]);
    assert(raw[y] == 0x00);
    lemma_type_tag_bytes(t);
    assert forall|k: int| 0 <= k < tl implies raw[k] != 0x20 by {
        assert(type_tag(t)[k] != 0x20);
    }
    lemma_find_from_at(raw, 0x20, 0, tl);
    assert(raw.subrange(0, tl) =~= type_tag(t));
    lemma_tag_type_inverse(t);
    assert forall|k: int| tl + 1 <= k < y implies raw[k] != 0x00 by {
        assert(0x30 <= decl[k - (tl + 1)] <= 0x39);
    }
    lemma_find_from_at(raw, 0x00, tl + 1, y);
    assert(raw.subrange(tl + 1, y) =~= decl);
    assert(raw.len() - y - 1 == p.len());
    assert(raw.subrange(y + 1, raw.len() as int) =~= p);
}

/// What reading back a written object yields: the object itself, except
/// that a tree's entries come back in the canonical sorted order the
/// encoder imposed.
pub open spec fn normal_model(m: GitObjectModel) -> GitObjectModel {
    match m {
        GitObjectModel::Tree(ls) => GitObjectModel::Tree(ls.sort_by(crate::tree::leaf_le_fn())),
        _ => m,
    }
}

/// Validity of an object's content: commit and tag metadata is a
/// well-formed key-value list, and every tree entry is decodable.
pub open spec fn object_wf(m: GitObjectModel) -> bool {
    match m {
        GitObjectModel::Blob(_) => true,
        GitObjectModel::Commit(k) => crate::kvlm::kvlm_wf(k),
        GitObjectModel::Tag(k) => crate::kvlm::kvlm_wf(k),
        GitObjectModel::Tree(ls) => forall|i: int|
            0 <= i < ls.len() ==> crate::tree::leaf_wf(#[trigger] ls[i]),
    }
}

/// Round-trip law: un-framing and decoding what `object_write` frames and
/// encodes yields the object back — bit-for-bit for blobs, commits and
/// tags, and up to the canonical entry order for trees.
pub proof fn lemma_object_round_trip(m: GitObjectModel)
    requires
        object_wf(m),
    ensures
        parse_frame_spec(frame_spec(model_type(m), serialize_spec(m))) == Some(
            (model_type(m), serialize_spec(m)),
        ),
        deserialize_spec(model_type(m), serialize_spec(m)) == Some(normal_model(m)),
{
    lemma_frame_round_trip(model_type(m), serialize_spec(m));
    match m {
        GitObjectModel::Blob(_) => {},
        GitObjectModel::Commit(k) => {
            crate::kvlm::lemma_kvlm_round_trip(k);
        },
        GitObjectModel::Tag(k) => {
            crate::kvlm::lemma_kvlm_round_trip(k);
        },
        GitObjectModel::Tree(ls) => {
            crate::tree::lemma_tree_round_trip(ls);
        },
    }
}

/// Re-encoding law: an object read back from the store encodes to the very
/// payload it was read from, so the bytes at rest are a fixed point of a
/// read-write cycle.
pub proof fn lemma_object_reencode(m: GitObjectModel)
    requires
        object_wf(m),
    ensures
        serialize_spec(normal_model(m)) == serialize_spec(m),
{
    match m {
        GitObjectModel::Tree(ls) => {
            crate::tree::lemma_leaf_le_total_ordering();
            let leq = crate::tree::leaf_le_fn();
            let s1 = ls.sort_by(leq);
            ls.lemma_sort_by_ensures(leq);
            s1.lemma_sort_by_ensures(leq);
            crate::tree::lemma_sorted_unique(s1.sort_by(leq), s1);
        },
        _ => {},
    }
}

/// Digest-determinism law: the digest and the stored bytes of an object
/// are functions of its kind and payload alone, so writing the same pair
/// twice yields the same digest and byte-identical store content.
pub proof fn lemma_digest_deterministic(
    t: GitObjectType,
    p: Seq<u8>,
    d1: Seq<u8>,
    c1: Seq<u8>,
    d2: Seq<u8>,
    c2: Seq<u8>,
)
    requires
        d1 == object_digest_spec(t, p),
        c1 == stored_bytes_spec(t, p),
        d2 == object_digest_spec(t, p),
        c2 == stored_bytes_spec(t, p),
    ensures
        d1 == d2,
        c1 == c2,
{
}

} // verus!
