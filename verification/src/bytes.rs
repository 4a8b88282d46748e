//! Byte-level helpers shared by the codecs: first-occurrence search,
//! byte-sequence equality and lexicographic order, and the ASCII decimal
//! encoding used by the object framing header.
use vstd::prelude::*;

verus! {

/// Index of the first occurrence of `b` in `s` at or after `from`, if any.
pub open spec fn find_from(s: Seq<u8>, b: u8, from: int) -> Option<int>
    decreases s.len() - from,
{
    if from < 0 || from >= s.len() {
        None
    } else if s[from] == b {
        Some(from)
    } else {
        find_from(s, b, from + 1)
    }
}

pub proof fn lemma_find_from_at(s: Seq<u8>, b: u8, from: int, i: int)
    requires
        0 <= from <= i < s.len(),
        s[i] == b,
        forall|j: int| from <= j < i ==> s[j] != b,
    ensures
        find_from(s, b, from) == Some(i),
    decreases i - from,
{
    if from < i {
        lemma_find_from_at(s, b, from + 1, i);
    }
}

pub proof fn lemma_find_from_none(s: Seq<u8>, b: u8, from: int)
    requires
        0 <= from,
        forall|j: int| from <= j < s.len() ==> s[j] != b,
    ensures
        find_from(s, b, from) is None,
    decreases s.len() - from,
{
    if from < s.len() {
        lemma_find_from_none(s, b, from + 1);
    }
}

pub proof fn lemma_find_from_props(s: Seq<u8>, b: u8, from: int)
    requires
        0 <= from,
    ensures
        match find_from(s, b, from) {
            Some(i) => from <= i < s.len() && s[i] == b && forall|j: int|
                from <= j < i ==> s[j] != b,
            None => forall|j: int| from <= j < s.len() ==> s[j] != b,
        },
    decreases s.len() - from,
{
    if from < s.len() && s[from] != b {
        lemma_find_from_props(s, b, from + 1);
    }
}

/// First occurrence of `b` in `v` at or after `from`.
pub fn find_byte(v: &Vec<u8>, b: u8, from: usize) -> (r: Option<usize>)
    requires
        from <= v@.len(),
    ensures
        match r {
            Some(i) => from <= i < v@.len() && v@[i as int] == b && forall|j: int|
                from <= j < i ==> v@[j] != b,
            None => forall|j: int| from <= j < v@.len() ==> v@[j] != b,
        },
{
    let mut i: usize = from;
    while i < v.len()
        invariant
            from <= i <= v@.len(),
            forall|j: int| from <= j < i ==> v@[j] != b,
        decreases v@.len() - i,
    {
        if v[i] == b {
            return Some(i);
        }
        i = i + 1;
    }
    None
}

/// A copy of `v[from..to]` as a fresh vector.
pub fn copy_range(v: &Vec<u8>, from: usize, to: usize) -> (r: Vec<u8>)
    requires
        from <= to <= v@.len(),
    ensures
        r@ == v@.subrange(from as int, to as int),
{
    let mut r: Vec<u8> = Vec::new();
    let mut i: usize = from;
    proof {
        assert(r@ =~= v@.subrange(from as int, from as int));
    }
    while i < to
        invariant
            from <= i <= to <= v@.len(),
            r@ == v@.subrange(from as int, i as int),
        decreases to - i,
    {
        r.push(v[i]);
        proof {
            assert(r@ =~= v@.subrange(from as int, i + 1));
        }
        i = i + 1;
    }
    r
}

/// Appends all of `v` to `out`.
pub fn append_bytes(out: &mut Vec<u8>, v: &Vec<u8>)
    ensures
        final(out)@ == old(out)@ + v@,
{
    let mut i: usize = 0;
    proof {
        assert(out@ =~= old(out)@ + v@.subrange(0, 0));
    }
    while i < v.len()
        invariant
            i <= v@.len(),
            out@ == old(out)@ + v@.subrange(0, i as int),
        decreases v@.len() - i,
    {
        out.push(v[i]);
        proof {
            assert(old(out)@ + v@.subrange(0, i + 1) =~= (old(out)@ + v@.subrange(0, i as int)).push(
                v@[i as int]));
        }
        i = i + 1;
    }
    proof {
        assert(v@.subrange(0, v@.len() as int) =~= v@);
    }
}

/// Byte-for-byte equality of two byte vectors.
pub fn bytes_eq(a: &Vec<u8>, b: &Vec<u8>) -> (r: bool)
    ensures
        r <==> a@ == b@,
{
    if a.len() != b.len() {
        return false;
    }
    let mut i: usize = 0;
    while i < a.len()
        invariant
            a@.len() == b@.len(),
            i <= a@.len(),
            forall|j: int| 0 <= j < i ==> a@[j] == b@[j],
        decreases a@.len() - i,
    {
        if a[i] != b[i] {
            return false;
        }
        i = i + 1;
    }
    proof {
        assert(a@ =~= b@);
    }
    true
}

/// Lexicographic order on raw byte sequences; `true` when `a` sorts at or
/// before `b`.
pub open spec fn lex_le(a: Seq<u8>, b: Seq<u8>) -> bool
    decreases a.len(),
{
    if a.len() == 0 {
        true
    } else if b.len() == 0 {
        false
    } else if a[0] < b[0] {
        true
    } else if a[0] > b[0] {
        false
    } else {
        lex_le(a.skip(1), b.skip(1))
    }
}

pub proof fn lemma_lex_le_total(a: Seq<u8>, b: Seq<u8>)
    ensures
        lex_le(a, b) || lex_le(b, a),
    decreases a.len(),
{
    if a.len() > 0 && b.len() > 0 && a[0] == b[0] {
        lemma_lex_le_total(a.skip(1), b.skip(1));
    }
}

pub proof fn lemma_lex_le_antisymmetric(a: Seq<u8>, b: Seq<u8>)
    requires
        lex_le(a, b),
        lex_le(b, a),
    ensures
        a == b,
    decreases a.len(),
{
    if a.len() == 0 {
        assert(b.len() == 0);
        assert(a =~= b);
    } else {
        lemma_lex_le_antisymmetric(a.skip(1), b.skip(1));
        assert(a =~= seq![a[0]] + a.skip(1));
        assert(b =~= seq![b[0]] + b.skip(1));
    }
}

pub proof fn lemma_lex_le_transitive(a: Seq<u8>, b: Seq<u8>, c: Seq<u8>)
    requires
        lex_le(a, b),
        lex_le(b, c),
    ensures
        lex_le(a, c),
    decreases a.len(),
{
    if a.len() > 0 && b.len() > 0 && c.len() > 0 && a[0] == b[0] && b[0] == c[0] {
        lemma_lex_le_transitive(a.skip(1), b.skip(1), c.skip(1));
    }
}

/// Decides `lex_le` on two byte vectors.
pub fn bytes_le(a: &Vec<u8>, b: &Vec<u8>) -> (r: bool)
    ensures
        r == lex_le(a@, b@),
{
    let mut i: usize = 0;
    proof {
        assert(a@.skip(0) =~= a@);
        assert(b@.skip(0) =~= b@);
    }
    loop
        invariant
            i <= a@.len(),
            i <= b@.len(),
            forall|j: int| 0 <= j < i ==> a@[j] == b@[j],
            lex_le(a@, b@) == lex_le(a@.skip(i as int), b@.skip(i as int)),
        decreases a@.len() - i,
    {
        if i >= a.len() {
            proof {
                assert(a@.skip(i as int).len() == 0);
            }
            return true;
        }
        if i >= b.len() {
            proof {
                assert(b@.skip(i as int).len() == 0);
                assert(a@.skip(i as int).len() > 0);
            }
            return false;
        }
        let x = a[i];
        let y = b[i];
        proof {
            assert(a@.skip(i as int)[0] == a@[i as int]);
            assert(b@.skip(i as int)[0] == b@[i as int]);
            assert(a@.skip(i as int).skip(1) =~= a@.skip(i + 1));
            assert(b@.skip(i as int).skip(1) =~= b@.skip(i + 1));
        }
        if x < y {
            return true;
        }
        if x > y {
            return false;
        }
        i = i + 1;
    }
}

/// True when `b` is an ASCII lowercase hexadecimal digit.
pub open spec fn is_hex_lower(b: u8) -> bool {
    (0x30 <= b <= 0x39) || (0x61 <= b <= 0x66)
}

/// True when `s` is a non-empty run of ASCII decimal digits.
pub open spec fn is_digits(s: Seq<u8>) -> bool {
    s.len() > 0 && forall|i: int| 0 <= i < s.len() ==> 0x30 <= #[trigger] s[i] <= 0x39
}

/// The numeric value of one ASCII decimal digit; other bytes count as zero.
pub open spec fn digit_val(b: u8) -> nat {
    if 0x30 <= b <= 0x39 {
        (b - 0x30) as nat
    } else {
        0
    }
}

/// The numeric value of a run of ASCII decimal digits.
pub open spec fn dec_value(s: Seq<u8>) -> nat
    decreases s.len(),
{
    if s.len() == 0 {
        0
    } else {
        dec_value(s.drop_last()) * 10 + digit_val(s.last())
    }
}

/// Parses `v[from..to]` as a non-negative decimal integer; `None` when the
/// span is not all digits or the value overflows `usize`.
pub fn parse_decimal(v: &Vec<u8>, from: usize, to: usize) -> (r: Option<usize>)
    requires
        from <= to <= v@.len(),
    ensures
        match r {
            Some(n) => is_digits(v@.subrange(from as int, to as int)) && n == dec_value(
                v@.subrange(from as int, to as int),
            ),
            None => !is_digits(v@.subrange(from as int, to as int)) || dec_value(
                v@.subrange(from as int, to as int),
            ) > usize::MAX,
        },
{
    if from == to {
        proof {
            assert(!is_digits(v@.subrange(from as int, to as int)));
        }
        return None;
    }
    let mut acc: usize = 0;
    let mut i: usize = from;
    while i < to
        invariant
            from <= i <= to <= v@.len(),
            is_digits(v@.subrange(from as int, i as int)) || i == from,
            acc == dec_value(v@.subrange(from as int, i as int)),
        decreases to - i,
    {
        let d = v[i];
        if d < 0x30 || d > 0x39 {
            proof {
                let s = v@.subrange(from as int, to as int);
                assert(s[i - from] == d);
                assert(!is_digits(s));
            }
            return None;
        }
        let digit = (d - 0x30) as usize;
        proof {
            let s2 = v@.subrange(from as int, i + 1);
            assert(s2.drop_last() =~= v@.subrange(from as int, i as int));
            assert(s2.last() == d);
        }
        let overflowed: bool = match acc.checked_mul(10) {
            Some(m) => {
                match m.checked_add(digit) {
                    Some(n) => {
                        acc = n;
                        false
                    },
                    None => true,
                }
            },
            None => true,
        };
        if overflowed {
            proof {
                let s = v@.subrange(from as int, to as int);
                let s2 = v@.subrange(from as int, i + 1);
                assert(dec_value(s2) > usize::MAX);
                lemma_dec_value_prefix_le(s, i + 1 - from);
                assert(s.subrange(0, i + 1 - from) =~= s2);
            }
            return None;
        }
        i = i + 1;
    }
    proof {
        assert(v@.subrange(from as int, i as int) =~= v@.subrange(from as int, to as int));
    }
    Some(acc)
}

/// The value of a byte run is at least the value of any of its prefixes.
pub proof fn lemma_dec_value_prefix_le(s: Seq<u8>, k: int)
    requires
        0 <= k <= s.len(),
    ensures
        dec_value(s) >= dec_value(s.subrange(0, k)),
    decreases s.len() - k,
{
    if k < s.len() {
        lemma_dec_value_prefix_le(s, k + 1);
        let p = s.subrange(0, k + 1);
        assert(p.drop_last() =~= s.subrange(0, k));
        assert(dec_value(p) == dec_value(s.subrange(0, k)) * 10 + digit_val(p.last()));
        assert(dec_value(s.subrange(0, k)) * 10 >= dec_value(s.subrange(0, k))) by (nonlinear_arith);
    } else {
        assert(s.subrange(0, k) =~= s);
    }
}

/// The canonical ASCII decimal rendering of `n`: no leading zeros.
pub open spec fn dec_digits(n: nat) -> Seq<u8>
    decreases n,
{
    if n < 10 {
        seq![(0x30 + n) as u8]
    } else {
        dec_digits(n / 10).push((0x30 + n % 10) as u8)
    }
}

/// The canonical rendering is all digits, has no leading zero, and reads
/// back as the number it renders.
pub proof fn lemma_dec_digits_props(n: nat)
    ensures
        is_digits(dec_digits(n)),
        dec_value(dec_digits(n)) == n,
        dec_digits(n)[0] == 0x30 ==> n == 0,
    decreases n,
{
    if n < 10 {
        let s = dec_digits(n);
        assert(s.drop_last() =~= Seq::<u8>::empty());
        assert(dec_value(Seq::<u8>::empty()) == 0);
        assert(dec_value(s) == digit_val(s.last()));
    } else {
        assert(n / 10 < n) by (nonlinear_arith)
            requires
                n >= 10,
        ;
        assert(n / 10 >= 1) by (nonlinear_arith)
            requires
                n >= 10,
        ;
        lemma_dec_digits_props(n / 10);
        let p = dec_digits(n / 10);
        let s = dec_digits(n);
        assert(s.drop_last() =~= p);
        assert(s.last() == (0x30 + n % 10) as u8);
        assert(n % 10 < 10);
        assert(digit_val(s.last()) == n % 10);
        assert(dec_value(s) == (n / 10) * 10 + n % 10);
        assert((n / 10) * 10 + n % 10 == n);
        assert(s[0] == p[0]);
    }
}

/// Renders `n` as ASCII decimal digits with no leading zeros.
pub fn usize_to_decimal(n: usize) -> (r: Vec<u8>)
    ensures
        r@ == dec_digits(n as nat),
        is_digits(r@),
        dec_value(r@) == n,
        r@[0] == 0x30 ==> r@.len() == 1,
    decreases n,
{
    if n < 10 {
        let d: u8 = 0x30 + n as u8;
        let mut r: Vec<u8> = Vec::new();
        r.push(d);
        proof {
            assert(r@.drop_last() =~= Seq::<u8>::empty());
            assert(r@.last() == d);
            assert(digit_val(d) == n);
            assert(dec_value(r@.drop_last()) == 0);
            assert(dec_value(r@) == n);
        }
        r
    } else {
        proof {
            assert(n / 10 < n) by (nonlinear_arith)
                requires n >= 10;
            assert(n % 10 < 10);
            assert(n / 10 >= 1) by (nonlinear_arith)
                requires n >= 10;
        }
        let mut r = usize_to_decimal(n / 10);
        let d = 0x30 + (n % 10) as u8;
        let ghost prefix = r@;
        r.push(d);
        proof {
            assert(r@.drop_last() =~= prefix);
            assert(r@.last() == d);
            assert(dec_value(prefix) == n / 10);
            assert(n / 10 * 10 + n % 10 == n);
            assert(dec_value(r@) == n);
            assert(r@[0] == prefix[0]);
            assert(dec_value(prefix) >= 1);
            assert(prefix[0] != 0x30) by {
                if prefix.len() == 1 {
                    assert(dec_value(prefix) == dec_value(prefix.drop_last()) * 10 + (
                    prefix.last() - 0x30));
                    assert(prefix.drop_last() =~= Seq::<u8>::empty());
                }
            }
        }
        r
    }
}

} // verus!
