//! The key-value-list-with-message codec used by commit and tag payloads:
//! an ordered mapping from key to a list of values, each value possibly
//! spanning continuation lines, followed by a blank line and a free-text
//! message. Keys keep their insertion order across a round trip.
use vstd::prelude::*;
use crate::GitError;
use crate::bytes::copy_range;
use crate::bytes::append_bytes;
use crate::bytes::bytes_eq;
use crate::bytes::find_byte;
use crate::bytes::find_from;
use crate::bytes::lemma_find_from_at;
use crate::bytes::lemma_find_from_none;
use crate::bytes::lemma_find_from_props;

verus! {

/// One key together with its ordered, non-empty list of values.
#[derive(Debug, PartialEq, Eq)]
pub struct KvlmEntry {
    pub key: Vec<u8>,
    pub values: Vec<Vec<u8>>,
}

/// An ordered key-value list plus the distinguished trailing message.
#[derive(Debug, PartialEq, Eq)]
pub struct Kvlm {
    pub entries: Vec<KvlmEntry>,
    pub message: Vec<u8>,
}

/// The mathematical content of a key-value list: key/value-list pairs in
/// order, and the message bytes.
#[verifier::ext_equal]
pub ghost struct KvlmModel {
    pub pairs: Seq<(Seq<u8>, Seq<Seq<u8>>)>,
    pub message: Seq<u8>,
}

pub open spec fn values_model(vs: Seq<Vec<u8>>) -> Seq<Seq<u8>> {
    vs.map_values(|v: Vec<u8>| v@)
}

pub open spec fn entry_model(e: KvlmEntry) -> (Seq<u8>, Seq<Seq<u8>>) {
    (e.key@, values_model(e.values@))
}

pub open spec fn entries_model(es: Seq<KvlmEntry>) -> Seq<(Seq<u8>, Seq<Seq<u8>>)> {
    es.map_values(|e: KvlmEntry| entry_model(e))
}

impl Kvlm {
    pub open spec fn model(&self) -> KvlmModel {
        KvlmModel { pairs: entries_model(self.entries@), message: self.message@ }
    }
}

/// A key is non-empty and contains neither a space nor a newline, so that
/// the line structure of the encoding can be decoded unambiguously.
pub open spec fn key_wf(k: Seq<u8>) -> bool {
    k.len() > 0 && forall|i: int| 0 <= i < k.len() ==> #[trigger] k[i] != 0x20 && k[i] != 0x0a
}

/// Well-formedness of a key-value list: every key is valid and occurs once,
/// and every key carries at least one value.
pub open spec fn kvlm_wf(m: KvlmModel) -> bool {
    &&& forall|i: int| 0 <= i < m.pairs.len() ==> key_wf(#[trigger] m.pairs[i].0)
    &&& forall|i: int| 0 <= i < m.pairs.len() ==> (#[trigger] m.pairs[i].1).len() > 0
    &&& forall|i: int, j: int|
        0 <= i < j < m.pairs.len() ==> (#[trigger] m.pairs[i]).0 != (#[trigger] m.pairs[j]).0
}

/// Continuation-line escaping: every newline inside a value is emitted as a
/// newline followed by one space.
pub open spec fn escape(v: Seq<u8>) -> Seq<u8>
    decreases v.len(),
{
    if v.len() == 0 {
        Seq::empty()
    } else if v[0] == 0x0a {
        seq![0x0au8, 0x20u8] + escape(v.skip(1))
    } else {
        seq![v[0]] + escape(v.skip(1))
    }
}

/// The inverse of `escape`: every newline-space pair collapses back to a
/// newline.
pub open spec fn unescape(s: Seq<u8>) -> Seq<u8>
    decreases s.len(),
{
    if s.len() == 0 {
        Seq::empty()
    } else if s.len() >= 2 && s[0] == 0x0a && s[1] == 0x20 {
        seq![0x0au8] + unescape(s.skip(2))
    } else {
        seq![s[0]] + unescape(s.skip(1))
    }
}

/// Continuation-line escaping round-trips: decoding an encoded value
/// reproduces the value exactly, embedded newlines included.
pub proof fn lemma_unescape_escape(v: Seq<u8>)
    ensures
        unescape(escape(v)) == v,
    decreases v.len(),
{
    if v.len() == 0 {
        assert(unescape(escape(v)) =~= v);
    } else {
        lemma_unescape_escape(v.skip(1));
        let rest = escape(v.skip(1));
        if v[0] == 0x0a {
            let s = seq![0x0au8, 0x20u8] + rest;
            assert(s[0] == 0x0a && s[1] == 0x20);
            assert(s.skip(2) =~= rest);
            assert(unescape(s) =~= v);
        } else {
            let s = seq![v[0]] + rest;
            assert(s[0] == v[0]);
            if s.len() >= 2 && s[0] == 0x0a && s[1] == 0x20 {
                assert(false);
            }
            assert(s.skip(1) =~= rest);
            assert(unescape(s) =~= v);
        }
    }
}

/// Inside an escaped value, every newline is followed by a space.
pub proof fn lemma_escape_spaced(v: Seq<u8>)
    ensures
        forall|i: int|
            0 <= i < escape(v).len() && #[trigger] escape(v)[i] == 0x0a ==> i + 1 < escape(v).len()
                && escape(v)[i + 1] == 0x20,
    decreases v.len(),
{
    if v.len() > 0 {
        lemma_escape_spaced(v.skip(1));
        let rest = escape(v.skip(1));
        let head: Seq<u8> = if v[0] == 0x0a {
            seq![0x0au8, 0x20u8]
        } else {
            seq![v[0]]
        };
        assert(escape(v) == head + rest);
        assert forall|i: int|
            0 <= i < escape(v).len() && #[trigger] escape(v)[i] == 0x0a implies i + 1 < escape(
            v,
        ).len() && escape(v)[i + 1] == 0x20 by {
            if i >= head.len() {
                assert(escape(v)[i] == rest[i - head.len()]);
                assert(rest[i - head.len()] == 0x0a ==> i - head.len() + 1 < rest.len() && rest[i
                    - head.len() + 1] == 0x20);
            }
        }
    }
}

/// One encoded line: `<key><SP><escaped value><LF>`.
pub open spec fn value_line(key: Seq<u8>, v: Seq<u8>) -> Seq<u8> {
    key + seq![0x20u8] + escape(v) + seq![0x0au8]
}

/// All lines of one key, one line per value.
pub open spec fn entry_lines(key: Seq<u8>, vs: Seq<Seq<u8>>) -> Seq<u8>
    decreases vs.len(),
{
    if vs.len() == 0 {
        Seq::empty()
    } else {
        value_line(key, vs[0]) + entry_lines(key, vs.skip(1))
    }
}

/// All lines of a key-value list, keys in order.
pub open spec fn pairs_lines(ps: Seq<(Seq<u8>, Seq<Seq<u8>>)>) -> Seq<u8>
    decreases ps.len(),
{
    if ps.len() == 0 {
        Seq::empty()
    } else {
        entry_lines(ps[0].0, ps[0].1) + pairs_lines(ps.skip(1))
    }
}

/// The full encoding: the key-value lines, a blank line, then the message.
pub open spec fn kvlm_encode_spec(m: KvlmModel) -> Seq<u8> {
    pairs_lines(m.pairs) + seq![0x0au8] + m.message
}

/// The first position at or after `from` where a value ends: a newline whose
/// successor is not a space (or the end of the input).
pub open spec fn value_end(s: Seq<u8>, from: int) -> int
    decreases s.len() - from,
{
    if from < 0 || from >= s.len() {
        s.len() as int
    } else if s[from] == 0x0a && (from + 1 == s.len() || s[from + 1] != 0x20) {
        from
    } else {
        value_end(s, from + 1)
    }
}

pub proof fn lemma_value_end_at(s: Seq<u8>, from: int, e: int)
    requires
        0 <= from <= e <= s.len(),
        e < s.len() ==> s[e] == 0x0a && (e + 1 == s.len() || s[e + 1] != 0x20),
        forall|k: int|
            from <= k < e ==> !(#[trigger] s[k] == 0x0a && (k + 1 == s.len() || s[k + 1] != 0x20)),
    ensures
        value_end(s, from) == e,
    decreases e - from,
{
    if from < e {
        lemma_value_end_at(s, from + 1, e);
    }
}

pub proof fn lemma_value_end_props(s: Seq<u8>, from: int)
    requires
        0 <= from,
    ensures
        value_end(s, from) <= s.len(),
        from <= s.len() ==> from <= value_end(s, from),
        value_end(s, from) < s.len() ==> s[value_end(s, from)] == 0x0a && (value_end(s, from) + 1
            == s.len() || s[value_end(s, from) + 1] != 0x20),
        forall|k: int|
            from <= k < value_end(s, from) ==> !(#[trigger] s[k] == 0x0a && (k + 1 == s.len() || s[k
                + 1] != 0x20)),
    decreases s.len() - from,
{
    if from < s.len() && !(s[from] == 0x0a && (from + 1 == s.len() || s[from + 1] != 0x20)) {
        lemma_value_end_props(s, from + 1);
    }
}

/// Whether a decoding step at the start of `raw` sees the blank line (or
/// bare remainder) that introduces the trailing message.
pub open spec fn at_message(spc: Option<int>, nl: Option<int>) -> bool {
    match (spc, nl) {
        (None, _) => true,
        (Some(s), Some(n)) => n < s,
        (Some(_), None) => false,
    }
}

/// Index of the entry holding `key`, if one exists.
pub open spec fn find_key(ps: Seq<(Seq<u8>, Seq<Seq<u8>>)>, key: Seq<u8>) -> Option<int>
    decreases ps.len(),
{
    if ps.len() == 0 {
        None
    } else if ps[0].0 == key {
        Some(0int)
    } else {
        match find_key(ps.skip(1), key) {
            Some(i) => Some(i + 1),
            None => None,
        }
    }
}

pub proof fn lemma_find_key_at(ps: Seq<(Seq<u8>, Seq<Seq<u8>>)>, key: Seq<u8>, i: int)
    requires
        0 <= i < ps.len(),
        ps[i].0 == key,
        forall|j: int| 0 <= j < i ==> (#[trigger] ps[j]).0 != key,
    ensures
        find_key(ps, key) == Some(i),
    decreases i,
{
    if i > 0 {
        assert(forall|j: int| 0 <= j < i - 1 ==> ps.skip(1)[j] == ps[j + 1]);
        lemma_find_key_at(ps.skip(1), key, i - 1);
    }
}

pub proof fn lemma_find_key_none(ps: Seq<(Seq<u8>, Seq<Seq<u8>>)>, key: Seq<u8>)
    requires
        forall|j: int| 0 <= j < ps.len() ==> (#[trigger] ps[j]).0 != key,
    ensures
        find_key(ps, key) is None,
    decreases ps.len(),
{
    if ps.len() > 0 {
        assert(forall|j: int| 0 <= j < ps.len() - 1 ==> ps.skip(1)[j] == ps[j + 1]);
        lemma_find_key_none(ps.skip(1), key);
    }
}

/// Appends one decoded value: onto the entry already holding `key`, or as a
/// new trailing entry.
pub open spec fn acc_add(ps: Seq<(Seq<u8>, Seq<Seq<u8>>)>, key: Seq<u8>, v: Seq<u8>) -> Seq<
    (Seq<u8>, Seq<Seq<u8>>),
> {
    match find_key(ps, key) {
        Some(i) => ps.update(i, (key, ps[i].1.push(v))),
        None => ps.push((key, seq![v])),
    }
}

/// One decoding pass over `raw` with the pairs decoded so far in `acc`:
/// reads key-value lines until the message is reached; `None` when the input
/// ends without a message section.
pub open spec fn kvlm_decode_pairs(raw: Seq<u8>, acc: Seq<(Seq<u8>, Seq<Seq<u8>>)>) -> Option<
    KvlmModel,
>
    decreases raw.len(),
    via kvlm_decode_pairs_dec
{
    let spc = find_from(raw, 0x20, 0);
    let nl = find_from(raw, 0x0a, 0);
    if at_message(spc, nl) {
        if raw.len() == 0 {
            None
        } else {
            Some(KvlmModel { pairs: acc, message: raw.subrange(1, raw.len() as int) })
        }
    } else {
        let s = spc->Some_0;
        let e = value_end(raw, s + 1);
        let key = raw.subrange(0, s);
        let v = unescape(raw.subrange(s + 1, e));
        let next = if e == raw.len() {
            e
        } else {
            e + 1
        };
        kvlm_decode_pairs(raw.subrange(next, raw.len() as int), acc_add(acc, key, v))
    }
}

#[via_fn]
proof fn kvlm_decode_pairs_dec(raw: Seq<u8>, acc: Seq<(Seq<u8>, Seq<Seq<u8>>)>) {
    lemma_find_from_props(raw, 0x20, 0);
    lemma_find_from_props(raw, 0x0a, 0);
    match find_from(raw, 0x20, 0) {
        Some(s) => {
            lemma_value_end_props(raw, s + 1);
        },
        None => {},
    }
}

/// The meaning of a raw payload as a key-value-list-with-message.
pub open spec fn kvlm_decode_spec(raw: Seq<u8>) -> Option<KvlmModel> {
    kvlm_decode_pairs(raw, Seq::empty())
}

/// The pairs a decoder has accumulated once it has consumed entries
/// `0..i` in full plus the first `j` values of entry `i`.
pub open spec fn acc_prefix(ps: Seq<(Seq<u8>, Seq<Seq<u8>>)>, i: int, j: int) -> Seq<
    (Seq<u8>, Seq<Seq<u8>>),
> {
    if 0 <= i < ps.len() && j > 0 {
        ps.subrange(0, i) + seq![(ps[i].0, ps[i].1.subrange(0, j))]
    } else {
        ps.subrange(0, i)
    }
}

/// The portion of an encoding that remains to be consumed at state `(i, j)`.
pub open spec fn rest_enc(m: KvlmModel, i: int, j: int) -> Seq<u8> {
    if 0 <= i < m.pairs.len() {
        entry_lines(m.pairs[i].0, m.pairs[i].1.skip(j)) + pairs_lines(m.pairs.skip(i + 1)) + seq![
            0x0au8,
        ] + m.message
    } else {
        seq![0x0au8] + m.message
    }
}

/// At every decoder state the unconsumed encoding starts with a byte other
/// than a space: a key's first byte, or the blank line before the message.
proof fn lemma_rest_head(m: KvlmModel, i: int, j: int)
    requires
        kvlm_wf(m),
        0 <= i <= m.pairs.len(),
        i < m.pairs.len() ==> 0 <= j < m.pairs[i].1.len(),
    ensures
        rest_enc(m, i, j).len() > 0,
        rest_enc(m, i, j)[0] != 0x20,
{
    if i < m.pairs.len() {
        let key = m.pairs[i].0;
        let vs = m.pairs[i].1.skip(j);
        assert(vs.len() > 0);
        assert(entry_lines(key, vs) == value_line(key, vs[0]) + entry_lines(key, vs.skip(1)));
        assert(key_wf(key));
        assert(value_line(key, vs[0])[0] == key[0]);
        assert(rest_enc(m, i, j)[0] == key[0]);
    } else {
        assert(rest_enc(m, i, j)[0] == 0x0a);
    }
}

/// Decoding resumed at state `(i, j)` of a well-formed encoding completes
/// to exactly the encoded key-value list.
#[verifier::rlimit(100)]
proof fn lemma_decode_rest(m: KvlmModel, i: int, j: int)
    requires
        kvlm_wf(m),
        0 <= i <= m.pairs.len(),
        i < m.pairs.len() ==> 0 <= j < m.pairs[i].1.len(),
        i == m.pairs.len() ==> j == 0,
    ensures
        kvlm_decode_pairs(rest_enc(m, i, j), acc_prefix(m.pairs, i, j)) == Some(m),
    decreases m.pairs.len() - i, (if i < m.pairs.len() {
        m.pairs[i].1.len() - j
    } else {
        0
    }),
{
    let ps = m.pairs;
    let acc = acc_prefix(ps, i, j);
    let raw = rest_enc(m, i, j);
    if i == ps.len() {
        // The blank line, then the message.
        assert(raw == seq![0x0au8] + m.message);
        assert(raw[0] == 0x0a);
        lemma_find_from_at(raw, 0x0a, 0, 0);
        lemma_find_from_props(raw, 0x20, 0);
        match find_from(raw, 0x20, 0) {
            Some(sp) => {
                assert(raw[sp] == 0x20);
                assert(sp != 0);
                assert(at_message(Some(sp), Some(0int)));
            },
            None => {},
        }
        assert(raw.subrange(1, raw.len() as int) =~= m.message);
        assert(acc =~= ps);
        assert(kvlm_decode_pairs(raw, acc) == Some(KvlmModel { pairs: acc, message: m.message }));
        assert(KvlmModel { pairs: acc, message: m.message } =~= m);
    } else {
        let key = ps[i].0;
        let vals = ps[i].1;
        let v = vals[j];
        let esc = escape(v);
        let kl = key.len() as int;
        let el = esc.len() as int;
        let t = kl + 1 + el;
        let rest: Seq<u8> = if j + 1 < vals.len() {
            rest_enc(m, i, j + 1)
        } else {
            rest_enc(m, i + 1, 0)
        };
        // The head of the encoding is one value line.
        assert(vals.skip(j)[0] == v);
        assert(vals.skip(j).skip(1) =~= vals.skip(j + 1));
        assert(entry_lines(key, vals.skip(j)) == value_line(key, v) + entry_lines(
            key,
            vals.skip(j + 1),
        ));
        if j + 1 < vals.len() {
            assert(raw =~= value_line(key, v) + rest);
        } else {
            assert(vals.skip(j + 1).len() == 0);
            assert(entry_lines(key, vals.skip(j + 1)) =~= Seq::<u8>::empty());
            if i + 1 < ps.len() {
                assert(ps.skip(i + 1)[0] == ps[i + 1]);
                assert(ps.skip(i + 1).skip(1) =~= ps.skip(i + 2));
                assert(pairs_lines(ps.skip(i + 1)) == entry_lines(ps[i + 1].0, ps[i + 1].1)
                    + pairs_lines(ps.skip(i + 2)));
                assert(ps[i + 1].1.skip(0) =~= ps[i + 1].1);
                assert(raw =~= value_line(key, v) + rest);
            } else {
                assert(ps.skip(i + 1).len() == 0);
                assert(pairs_lines(ps.skip(i + 1)) =~= Seq::<u8>::empty());
                assert(raw =~= value_line(key, v) + rest);
            }
        }
        if j + 1 < vals.len() {
            lemma_rest_head(m, i, j + 1);
        } else if i + 1 < ps.len() {
            lemma_rest_head(m, i + 1, 0);
        } else {
            lemma_rest_head(m, i + 1, 0);
        }
        assert(rest.len() > 0 && rest[0] != 0x20);
        // Index facts over the concatenation.
        assert(key_wf(key));
        assert(raw.len() == t + 1 + rest.len());
        assert(forall|k: int| 0 <= k < kl ==> raw[k] == key[k]);
        assert(raw[kl] == 0x20);
        assert(forall|k: int| kl + 1 <= k < t ==> raw[k] == esc[k - (kl + 1)]);
        assert(raw[t] == 0x0a);
        assert(raw[t + 1] == rest[0]);
        // The first space ends the key.
        lemma_find_from_at(raw, 0x20, 0, kl);
        // The first newline comes after the space, so this is a key line.
        lemma_escape_spaced(v);
        lemma_find_from_props(raw, 0x0a, 0);
        match find_from(raw, 0x0a, 0) {
            Some(n) => {
                assert(raw[n] == 0x0a);
                assert(n > kl);
                assert(!at_message(Some(kl), Some(n)));
            },
            None => {
                assert(raw[t] == 0x0a);
                assert(false);
            },
        }
        // The value ends exactly at the terminating newline.
        assert forall|k: int| kl + 1 <= k < t implies !(#[trigger] raw[k] == 0x0a && (k + 1
            == raw.len() || raw[k + 1] != 0x20)) by {
            if raw[k] == 0x0a {
                assert(esc[k - (kl + 1)] == 0x0a);
                assert(k - (kl + 1) + 1 < el && esc[k - (kl + 1) + 1] == 0x20);
                assert(raw[k + 1] == 0x20);
            }
        }
        lemma_value_end_at(raw, kl + 1, t);
        // The consumed line yields this entry's key and value.
        assert(raw.subrange(0, kl) =~= key);
        assert(raw.subrange(kl + 1, t) =~= esc);
        lemma_unescape_escape(v);
        assert(raw.subrange(t + 1, raw.len() as int) =~= rest);
        // The accumulator advances by one value.
        let acc2 = acc_add(acc, key, v);
        if j == 0 {
            assert(acc =~= ps.subrange(0, i));
            assert forall|j2: int| 0 <= j2 < acc.len() implies (#[trigger] acc[j2]).0 != key by {
                assert(acc[j2] == ps[j2]);
            }
            lemma_find_key_none(acc, key);
            assert(acc2 == acc.push((key, seq![v])));
            assert(seq![v] =~= vals.subrange(0, j + 1));
        } else {
            assert(acc.len() == i + 1);
            assert(acc[i] == (key, vals.subrange(0, j)));
            assert forall|j2: int| 0 <= j2 < i implies (#[trigger] acc[j2]).0 != key by {
                assert(acc[j2] == ps[j2]);
            }
            lemma_find_key_at(acc, key, i);
            assert(acc2 == acc.update(i, (key, vals.subrange(0, j).push(v))));
            assert(vals.subrange(0, j).push(v) =~= vals.subrange(0, j + 1));
        }
        if j + 1 < vals.len() {
            assert(acc2 =~~= acc_prefix(ps, i, j + 1));
            lemma_decode_rest(m, i, j + 1);
        } else {
            assert(vals.subrange(0, j + 1) =~= vals);
            assert((key, vals) == ps[i]);
            assert(acc2 =~~= ps.subrange(0, i + 1));
            assert(acc2 =~= acc_prefix(ps, i + 1, 0));
            lemma_decode_rest(m, i + 1, 0);
        }
        assert(kvlm_decode_pairs(raw, acc) == kvlm_decode_pairs(
            raw.subrange(t + 1, raw.len() as int),
            acc2,
        ));
    }
}

/// Round-trip law: decoding the encoding of any well-formed
/// key-value-list-with-message yields it back exactly — keys in order,
/// values in order, continuation lines unfolded, message verbatim.
pub proof fn lemma_kvlm_round_trip(m: KvlmModel)
    requires
        kvlm_wf(m),
    ensures
        kvlm_decode_spec(kvlm_encode_spec(m)) == Some(m),
{
    let ps = m.pairs;
    if ps.len() == 0 {
        assert(pairs_lines(ps) =~= Seq::<u8>::empty());
        assert(rest_enc(m, 0, 0) =~= kvlm_encode_spec(m));
        assert(acc_prefix(ps, 0, 0) =~= Seq::<(Seq<u8>, Seq<Seq<u8>>)>::empty());
        lemma_decode_rest(m, 0, 0);
    } else {
        assert(ps.skip(0)[0] == ps[0]);
        assert(ps.skip(0) =~= ps);
        assert(pairs_lines(ps) == entry_lines(ps[0].0, ps[0].1) + pairs_lines(ps.skip(1)));
        assert(ps[0].1.skip(0) =~= ps[0].1);
        assert(rest_enc(m, 0, 0) =~= kvlm_encode_spec(m));
        assert(acc_prefix(ps, 0, 0) =~= Seq::<(Seq<u8>, Seq<Seq<u8>>)>::empty());
        lemma_decode_rest(m, 0, 0);
    }
}

/// Escapes `v` for embedding in a value line.
pub fn escape_bytes(v: &Vec<u8>) -> (r: Vec<u8>)
    ensures
        r@ == escape(v@),
{
    let mut out: Vec<u8> = Vec::new();
    let mut i: usize = 0;
    proof {
        assert(v@.skip(0) =~= v@);
        assert(out@ + escape(v@) =~= escape(v@));
    }
    while i < v.len()
        invariant
            i <= v@.len(),
            escape(v@) == out@ + escape(v@.skip(i as int)),
        decreases v@.len() - i,
    {
        let ghost pre = out@;
        let ghost sub = v@.skip(i as int);
        proof {
            assert(sub[0] == v@[i as int]);
            assert(sub.skip(1) =~= v@.skip(i + 1));
        }
        let b = v[i];
        out.push(b);
        if b == 0x0a {
            out.push(0x20);
            proof {
                assert(out@ =~= pre + seq![0x0au8, 0x20u8]);
                assert(escape(sub) == seq![0x0au8, 0x20u8] + escape(v@.skip(i + 1)));
                assert(pre + (seq![0x0au8, 0x20u8] + escape(v@.skip(i + 1))) =~= (pre + seq![
                    0x0au8, 0x20u8]) + escape(v@.skip(i + 1)));
            }
        } else {
            proof {
                assert(out@ =~= pre + seq![b]);
                assert(escape(sub) == seq![b] + escape(v@.skip(i + 1)));
                assert(pre + (seq![b] + escape(v@.skip(i + 1))) =~= (pre + seq![b]) + escape(
                    v@.skip(i + 1)));
            }
        }
        i = i + 1;
    }
    proof {
        assert(v@.skip(v@.len() as int).len() == 0);
        assert(out@ + escape(v@.skip(v@.len() as int)) =~= out@);
    }
    out
}

/// Collapses continuation escapes in a raw value span.
pub fn unescape_bytes(v: &Vec<u8>) -> (r: Vec<u8>)
    ensures
        r@ == unescape(v@),
{
    let mut out: Vec<u8> = Vec::new();
    let mut i: usize = 0;
    proof {
        assert(v@.skip(0) =~= v@);
        assert(out@ + unescape(v@) =~= unescape(v@));
    }
    while i < v.len()
        invariant
            i <= v@.len(),
            unescape(v@) == out@ + unescape(v@.skip(i as int)),
        decreases v@.len() - i,
    {
        let ghost pre = out@;
        let ghost sub = v@.skip(i as int);
        proof {
            assert(sub[0] == v@[i as int]);
            if sub.len() >= 2 {
                assert(sub[1] == v@[i + 1]);
            }
            assert(sub.skip(1) =~= v@.skip(i + 1));
            if sub.len() >= 2 {
                assert(sub.skip(2) =~= v@.skip(i + 2));
            }
        }
        let b = v[i];
        if b == 0x0a && i + 1 < v.len() && v[i + 1] == 0x20 {
            out.push(0x0a);
            proof {
                assert(out@ =~= pre + seq![0x0au8]);
                assert(unescape(sub) == seq![0x0au8] + unescape(v@.skip(i + 2)));
                assert(pre + (seq![0x0au8] + unescape(v@.skip(i + 2))) =~= (pre + seq![0x0au8])
                    + unescape(v@.skip(i + 2)));
            }
            i = i + 2;
        } else {
            out.push(b);
            proof {
                assert(out@ =~= pre + seq![b]);
                assert(unescape(sub) == seq![b] + unescape(v@.skip(i + 1)));
                assert(pre + (seq![b] + unescape(v@.skip(i + 1))) =~= (pre + seq![b]) + unescape(
                    v@.skip(i + 1)));
            }
            i = i + 1;
        }
    }
    proof {
        assert(v@.skip(v@.len() as int).len() == 0);
        assert(out@ + unescape(v@.skip(v@.len() as int)) =~= out@);
    }
    out
}

/// The end of the value beginning at `from`, as `value_end` defines it.
fn scan_value_end(raw: &Vec<u8>, from: usize) -> (e: usize)
    requires
        from <= raw@.len(),
    ensures
        e as int == value_end(raw@, from as int),
        from <= e <= raw@.len(),
{
    let mut e: usize = from;
    loop
        invariant
            from <= e <= raw@.len(),
            value_end(raw@, from as int) == value_end(raw@, e as int),
        decreases raw@.len() - e,
    {
        if e >= raw.len() {
            return e;
        }
        if raw[e] == 0x0a && (e + 1 == raw.len() || raw[e + 1] != 0x20) {
            return e;
        }
        e = e + 1;
    }
}

/// Appends one decoded value into the entry list, as `acc_add` describes.
fn kvlm_add(entries: &mut Vec<KvlmEntry>, key: Vec<u8>, value: Vec<u8>)
    ensures
        entries_model(final(entries)@) == acc_add(entries_model(old(entries)@), key@, value@),
{
    let ghost old_pairs = entries_model(old(entries)@);
    let mut idx: usize = 0;
    while idx < entries.len()
        invariant
            idx <= entries@.len(),
            entries@ == old(entries)@,
            old_pairs == entries_model(entries@),
            forall|j: int| 0 <= j < idx ==> (#[trigger] entries@[j]).key@ != key@,
        decreases entries@.len() - idx,
    {
        if bytes_eq(&entries[idx].key, &key) {
            proof {
                assert(old_pairs.len() == old(entries)@.len());
                assert(old_pairs[idx as int] == entry_model(old(entries)@[idx as int]));
                assert forall|j: int| 0 <= j < idx implies (#[trigger] old_pairs[j]).0 != key@ by {
                    assert(old_pairs[j] == entry_model(old(entries)@[j]));
                }
                lemma_find_key_at(old_pairs, key@, idx as int);
            }
            let mut ent = entries.remove(idx);
            ent.values.push(value);
            entries.insert(idx, ent);
            proof {
                assert(entries@ =~= old(entries)@.update(idx as int, entries@[idx as int]));
                assert(values_model(entries@[idx as int].values@) =~= old_pairs[idx as int].1.push(
                    value@,
                ));
                assert(entries_model(entries@) =~= acc_add(old_pairs, key@, value@));
            }
            return ;
        }
        idx = idx + 1;
    }
    proof {
        assert(old_pairs.len() == old(entries)@.len());
        assert forall|j: int| 0 <= j < old_pairs.len() implies (#[trigger] old_pairs[j]).0
            != key@ by {
            assert(old_pairs[j] == entry_model(old(entries)@[j]));
        }
        lemma_find_key_none(old_pairs, key@);
    }
    let mut vs: Vec<Vec<u8>> = Vec::new();
    vs.push(value);
    let ghost vmodel = values_model(vs@);
    proof {
        assert(vmodel =~= seq![value@]);
    }
    entries.push(KvlmEntry { key, values: vs });
    proof {
        assert(entries_model(entries@) =~= acc_add(old_pairs, key@, value@));
    }
}

/// Decodes a key-value-list-with-message payload.
///
/// Returns exactly what the decoding relation `kvlm_decode_spec` yields;
/// the one failure, `IncompleteKvlm`, comes when the input ends without a
/// message section.
pub fn kvlm_parse(raw: &Vec<u8>) -> (r: Result<Kvlm, GitError>)
    ensures
        match r {
            Ok(k) => kvlm_decode_spec(raw@) == Some(k.model()),
            Err(e) => e == GitError::IncompleteKvlm && kvlm_decode_spec(raw@) is None,
        },
{
    let mut entries: Vec<KvlmEntry> = Vec::new();
    let mut off: usize = 0;
    proof {
        assert(raw@.subrange(0, raw@.len() as int) =~= raw@);
        assert(entries_model(entries@) =~= Seq::<(Seq<u8>, Seq<Seq<u8>>)>::empty());
    }
    loop
        invariant
            off <= raw@.len(),
            kvlm_decode_pairs(
                raw@.subrange(off as int, raw@.len() as int),
                entries_model(entries@),
            ) == kvlm_decode_spec(raw@),
        decreases raw@.len() - off,
    {
        let ghost sub = raw@.subrange(off as int, raw@.len() as int);
        proof {
            assert(forall|k: int| 0 <= k < sub.len() ==> #[trigger] sub[k] == raw@[off + k]);
        }
        let spc = find_byte(raw, 0x20, off);
        let nl = find_byte(raw, 0x0a, off);
        let ghost spec_spc = find_from(sub, 0x20, 0);
        let ghost spec_nl = find_from(sub, 0x0a, 0);
        proof {
            match spc {
                Some(s) => lemma_find_from_at(sub, 0x20, 0, s - off),
                None => lemma_find_from_none(sub, 0x20, 0),
            }
            match nl {
                Some(n) => lemma_find_from_at(sub, 0x0a, 0, n - off),
                None => lemma_find_from_none(sub, 0x0a, 0),
            }
        }
        let is_msg = match (spc, nl) {
            (None, _) => true,
            (Some(s), Some(n)) => n < s,
            (Some(_), None) => false,
        };
        if is_msg {
            proof {
                assert(at_message(spec_spc, spec_nl));
            }
            if off == raw.len() {
                proof {
                    assert(sub.len() == 0);
                }
                return Err(GitError::IncompleteKvlm);
            }
            let message = copy_range(raw, off + 1, raw.len());
            proof {
                assert(sub.subrange(1, sub.len() as int) =~= raw@.subrange(
                    off + 1,
                    raw@.len() as int,
                ));
            }
            let k = Kvlm { entries, message };
            proof {
                assert(k.model() =~= KvlmModel {
                    pairs: entries_model(k.entries@),
                    message: sub.subrange(1, sub.len() as int),
                });
            }
            return Ok(k);
        }
        let s = match spc {
            Some(s) => s,
            None => {
                proof {
                    assert(false);
                }
                0
            },
        };
        proof {
            assert(!at_message(spec_spc, spec_nl));
            assert(spec_spc == Some(s - off));
        }
        let rlen = raw.len();
        proof {
            assert(s < rlen);
        }
        let e = scan_value_end(raw, s + 1);
        let ghost e_rel = e - off;
        proof {
            lemma_value_end_props(raw@, s + 1);
            assert forall|k: int| s - off + 1 <= k < e_rel implies !(#[trigger] sub[k] == 0x0a && (k
                + 1 == sub.len() || sub[k + 1] != 0x20)) by {
                assert(!(raw@[off + k] == 0x0a && (off + k + 1 == raw@.len() || raw@[off + k + 1]
                    != 0x20)));
            }
            if e < raw.len() {
                lemma_value_end_at(sub, s - off + 1, e_rel);
            } else {
                lemma_value_end_at(sub, s - off + 1, sub.len() as int);
            }
            assert(value_end(sub, s - off + 1) == e_rel);
        }
        let key = copy_range(raw, off, s);
        let raw_value = copy_range(raw, s + 1, e);
        let value = unescape_bytes(&raw_value);
        proof {
            assert(key@ =~= sub.subrange(0, s - off));
            assert(raw_value@ =~= sub.subrange(s - off + 1, e_rel));
        }
        let ghost pre_pairs = entries_model(entries@);
        kvlm_add(&mut entries, key, value);
        let next = if e == raw.len() {
            e
        } else {
            e + 1
        };
        proof {
            let spec_next: int = if e_rel == sub.len() {
                e_rel
            } else {
                e_rel + 1
            };
            assert(spec_next == next - off);
            assert(sub.subrange(next - off, sub.len() as int) =~= raw@.subrange(
                next as int,
                raw@.len() as int,
            ));
            assert(kvlm_decode_pairs(sub, pre_pairs) == kvlm_decode_pairs(
                raw@.subrange(next as int, raw@.len() as int),
                entries_model(entries@),
            ));
        }
        off = next;
    }
}

/// The digests of a commit's parents: the values listed under the `parent`
/// key, in order; empty for an initial commit. Drives history traversal.
pub fn commit_parents(k: &Kvlm) -> (r: Vec<Vec<u8>>)
    ensures
        ({
            let key: Seq<u8> = seq![0x70u8, 0x61u8, 0x72u8, 0x65u8, 0x6eu8, 0x74u8];
            match find_key(k.model().pairs, key) {
                Some(i) => values_model(r@) == k.model().pairs[i].1,
                None => r@.len() == 0,
            }
        }),
{
    let mut key: Vec<u8> = Vec::new();
    key.push(0x70);
    key.push(0x61);
    key.push(0x72);
    key.push(0x65);
    key.push(0x6e);
    key.push(0x74);
    proof {
        assert(key@ =~= seq![0x70u8, 0x61u8, 0x72u8, 0x65u8, 0x6eu8, 0x74u8]);
    }
    let ghost pairs = entries_model(k.entries@);
    let mut i: usize = 0;
    while i < k.entries.len()
        invariant
            i <= k.entries@.len(),
            key@ == seq![0x70u8, 0x61u8, 0x72u8, 0x65u8, 0x6eu8, 0x74u8],
            pairs == entries_model(k.entries@),
            pairs.len() == k.entries@.len(),
            forall|j: int| 0 <= j < i ==> (#[trigger] k.entries@[j]).key@ != key@,
        decreases k.entries@.len() - i,
    {
        if bytes_eq(&k.entries[i].key, &key) {
            proof {
                assert(pairs[i as int] == entry_model(k.entries@[i as int]));
                assert forall|j: int| 0 <= j < i implies (#[trigger] pairs[j]).0 != key@ by {
                    assert(pairs[j] == entry_model(k.entries@[j]));
                }
                lemma_find_key_at(pairs, key@, i as int);
            }
            let vs = &k.entries[i].values;
            let ghost vm = values_model(vs@);
            let mut out: Vec<Vec<u8>> = Vec::new();
            let mut j: usize = 0;
            proof {
                assert(values_model(out@) =~= vm.subrange(0, 0));
            }
            while j < vs.len()
                invariant
                    j <= vs@.len(),
                    vs == &k.entries@[i as int].values,
                    i < k.entries@.len(),
                    vm == values_model(vs@),
                    vm.len() == vs@.len(),
                    values_model(out@) == vm.subrange(0, j as int),
                decreases vs@.len() - j,
            {
                let v = copy_range(&vs[j], 0, vs[j].len());
                proof {
                    assert(v@ =~= vs@[j as int]@);
                }
                let ghost pre = out@;
                out.push(v);
                proof {
                    assert(values_model(pre).len() == pre.len());
                    assert(pre.len() == j as int);
                    assert(out@ == pre.push(v));
                    assert forall|q: int| 0 <= q < j + 1 implies values_model(out@)[q]
                        == vm.subrange(0, j + 1)[q] by {
                        assert(values_model(out@)[q] == out@[q]@);
                        if q < j {
                            assert(out@[q] == pre[q]);
                            assert(values_model(pre)[q] == pre[q]@);
                        } else {
                            assert(out@[q] == v);
                            assert(vm[q] == vs@[q]@);
                        }
                    }
                    assert(values_model(out@) =~= vm.subrange(0, j + 1));
                }
                j = j + 1;
            }
            proof {
                assert(vm.subrange(0, vm.len() as int) =~= vm);
            }
            return out;
        }
        i = i + 1;
    }
    proof {
        assert forall|j: int| 0 <= j < pairs.len() implies (#[trigger] pairs[j]).0 != key@ by {
            assert(pairs[j] == entry_model(k.entries@[j]));
        }
        lemma_find_key_none(pairs, key@);
    }
    Vec::new()
}

/// Encodes a key-value-list-with-message: one line per value in key order,
/// a blank line, then the message verbatim.
pub fn kvlm_serialize(k: &Kvlm) -> (r: Vec<u8>)
    ensures
        r@ == kvlm_encode_spec(k.model()),
{
    let ghost pairs = entries_model(k.entries@);
    let mut out: Vec<u8> = Vec::new();
    let mut i: usize = 0;
    proof {
        assert(pairs.skip(0) =~= pairs);
        assert(out@ + pairs_lines(pairs) =~= pairs_lines(pairs));
    }
    while i < k.entries.len()
        invariant
            i <= k.entries@.len(),
            pairs == entries_model(k.entries@),
            pairs.len() == k.entries@.len(),
            pairs_lines(pairs) == out@ + pairs_lines(pairs.skip(i as int)),
        decreases k.entries@.len() - i,
    {
        let ghost outer_pre = out@;
        let ghost psub = pairs.skip(i as int);
        let ghost key_spec = pairs[i as int].0;
        let ghost vals = pairs[i as int].1;
        proof {
            assert(psub[0] == pairs[i as int]);
            assert(psub.skip(1) =~= pairs.skip(i + 1));
            assert(pairs_lines(psub) == entry_lines(key_spec, vals) + pairs_lines(
                pairs.skip(i + 1),
            ));
        }
        let entry = &k.entries[i];
        proof {
            assert(entry_model(k.entries@[i as int]) == pairs[i as int]);
            assert(entry.key@ == key_spec);
            assert(values_model(entry.values@) == vals);
            assert(vals.len() == entry.values@.len());
        }
        let mut j: usize = 0;
        proof {
            assert(vals.skip(0) =~= vals);
            assert(outer_pre + entry_lines(key_spec, vals) =~= outer_pre + entry_lines(
                key_spec,
                vals.skip(0),
            ));
        }
        while j < entry.values.len()
            invariant
                j <= entry.values@.len(),
                entry == &k.entries@[i as int],
                key_spec == entry.key@,
                vals == values_model(entry.values@),
                vals.len() == entry.values@.len(),
                outer_pre + entry_lines(key_spec, vals) == out@ + entry_lines(
                    key_spec,
                    vals.skip(j as int),
                ),
            decreases entry.values@.len() - j,
        {
            let ghost pre = out@;
            let ghost vsub = vals.skip(j as int);
            proof {
                assert(vsub[0] == vals[j as int]);
                assert(vals[j as int] == entry.values@[j as int]@);
                assert(vsub.skip(1) =~= vals.skip(j + 1));
                assert(entry_lines(key_spec, vsub) == value_line(key_spec, vals[j as int])
                    + entry_lines(key_spec, vals.skip(j + 1)));
            }
            append_bytes(&mut out, &entry.key);
            out.push(0x20);
            let esc = escape_bytes(&entry.values[j]);
            append_bytes(&mut out, &esc);
            out.push(0x0a);
            proof {
                assert(out@ =~= pre + value_line(key_spec, vals[j as int]));
                assert(pre + (value_line(key_spec, vals[j as int]) + entry_lines(
                    key_spec,
                    vals.skip(j + 1),
                )) =~= (pre + value_line(key_spec, vals[j as int])) + entry_lines(
                    key_spec,
                    vals.skip(j + 1),
                ));
            }
            j = j + 1;
        }
        proof {
            assert(vals.skip(vals.len() as int).len() == 0);
            assert(entry_lines(key_spec, vals.skip(vals.len() as int)) =~= Seq::<u8>::empty());
            assert(out@ =~= outer_pre + entry_lines(key_spec, vals));
            assert(pairs_lines(pairs) == outer_pre + (entry_lines(key_spec, vals) + pairs_lines(
                pairs.skip(i + 1),
            )));
            assert(outer_pre + (entry_lines(key_spec, vals) + pairs_lines(pairs.skip(i + 1))) =~= (
            outer_pre + entry_lines(key_spec, vals)) + pairs_lines(pairs.skip(i + 1)));
        }
        i = i + 1;
    }
    proof {
        assert(pairs.skip(pairs.len() as int).len() == 0);
        assert(pairs_lines(pairs.skip(pairs.len() as int)) =~= Seq::<u8>::empty());
        assert(out@ =~= pairs_lines(pairs));
    }
    out.push(0x0a);
    append_bytes(&mut out, &k.message);
    proof {
        assert(out@ =~= kvlm_encode_spec(k.model()));
    }
    out
}

} // verus!
