//! Byte-sequence primitives shared by every stage: the read alphabet,
//! substring extraction and comparison, and a lexicographic order on byte
//! strings used to give the edge table its stable output order.

use vstd::prelude::*;

verus! {

/// A valid base is one of the four nucleotide letters `A`, `C`, `G`, `T`.
pub open spec fn valid_base(b: u8) -> bool {
    b == 65u8 || b == 67u8 || b == 71u8 || b == 84u8
}

/// A valid read sequence is non-empty and drawn entirely from the
/// four-letter alphabet.
pub open spec fn valid_sequence(s: Seq<u8>) -> bool {
    s.len() > 0 && forall|i: int| 0 <= i < s.len() ==> valid_base(s[i])
}

/// Executable check of the read-sequence invariant.
pub fn is_valid_sequence(s: &Vec<u8>) -> (r: bool)
    ensures
        r <==> valid_sequence(s@),
{
    if s.len() == 0 {
        return false;
    }
    let mut i: usize = 0;
    while i < s.len()
        invariant
            0 <= i <= s@.len(),
            forall|j: int| 0 <= j < i ==> valid_base(s@[j]),
        decreases s.len() - i,
    {
        let b = s[i];
        if !(b == 65 || b == 67 || b == 71 || b == 84) {
            return false;
        }
        i += 1;
    }
    true
}

/// Copy of a byte vector.
pub fn clone_bytes(v: &Vec<u8>) -> (r: Vec<u8>)
    ensures
        r@ == v@,
{
    let mut r: Vec<u8> = Vec::new();
    let mut i: usize = 0;
    while i < v.len()
        invariant
            0 <= i <= v@.len(),
            r@.len() == i,
            forall|j: int| 0 <= j < i ==> r@[j] == v@[j],
        decreases v.len() - i,
    {
        r.push(v[i]);
        i += 1;
    }
    proof {
        assert(r@ =~= v@);
    }
    r
}

/// Exact equality of two byte vectors.
pub fn bytes_eq(a: &Vec<u8>, b: &Vec<u8>) -> (r: bool)
    ensures
        r <==> a@ == b@,
{
    if a.len() != b.len() {
        assert(a@ != b@);
        return false;
    }
    let mut i: usize = 0;
    while i < a.len()
        invariant
            0 <= i <= a.len(),
            a.len() == b.len(),
            forall|j: int| 0 <= j < i ==> a@[j] == b@[j],
        decreases a.len() - i,
    {
        if a[i] != b[i] {
            return false;
        }
        i += 1;
    }
    proof {
        assert(a@ =~= b@);
    }
    true
}

/// Whether the bytes of `pat` occur in `text` starting at offset `at`.
pub open spec fn occurs_at(text: Seq<u8>, pat: Seq<u8>, at: int) -> bool {
    0 <= at && at + pat.len() <= text.len() && text.subrange(at, at + pat.len()) == pat
}

/// Exact check that `pat` occurs in `text` at offset `at`.
pub fn matches_at(text: &Vec<u8>, pat: &Vec<u8>, at: usize) -> (r: bool)
    requires
        at + pat@.len() <= text@.len(),
    ensures
        r <==> occurs_at(text@, pat@, at as int),
{
    let text_len = text.len();
    let mut i: usize = 0;
    while i < pat.len()
        invariant
            0 <= i <= pat.len(),
            at + pat@.len() <= text@.len(),
            text@.len() == text_len,
            forall|j: int| 0 <= j < i ==> text@[at + j] == pat@[j],
        decreases pat.len() - i,
    {
        if text[at + i] != pat[i] {
            assert(text@.subrange(at as int, at + pat@.len())[i as int] != pat@[i as int]);
            return false;
        }
        i += 1;
    }
    proof {
        assert(text@.subrange(at as int, at + pat@.len()) =~= pat@);
    }
    true
}

/// Copy of the byte range `[start, start + len)` of `a`.
pub fn extract(a: &Vec<u8>, start: usize, len: usize) -> (r: Vec<u8>)
    requires
        start + len <= a@.len(),
    ensures
        r@ == a@.subrange(start as int, start + len),
{
    let mut r: Vec<u8> = Vec::new();
    let a_len = a.len();
    let mut i: usize = 0;
    while i < len
        invariant
            0 <= i <= len,
            start + len <= a@.len(),
            a@.len() == a_len,
            r@.len() == i,
            forall|j: int| 0 <= j < i ==> r@[j] == a@[start + j],
        decreases len - i,
    {
        r.push(a[start + i]);
        i += 1;
    }
    proof {
        assert(r@ =~= a@.subrange(start as int, start + len));
    }
    r
}

/// Strict lexicographic order on byte strings: `a` comes before `b` when at
/// the first position where they differ `a` holds the smaller byte, or when
/// `a` is a proper prefix of `b`.
pub open spec fn lex_lt(a: Seq<u8>, b: Seq<u8>) -> bool
    decreases a.len(),
{
    if b.len() == 0 {
        false
    } else if a.len() == 0 {
        true
    } else if a[0] < b[0] {
        true
    } else if a[0] > b[0] {
        false
    } else {
        lex_lt(a.skip(1), b.skip(1))
    }
}

/// The lexicographic order is irreflexive and total: two byte strings are
/// equal, or exactly one of them comes first.
pub proof fn lemma_lex_trichotomy(a: Seq<u8>, b: Seq<u8>)
    ensures
        a == b || lex_lt(a, b) || lex_lt(b, a),
        !(a == b && lex_lt(a, b)),
        !(lex_lt(a, b) && lex_lt(b, a)),
    decreases a.len(),
{
    if a.len() == 0 || b.len() == 0 {
        if a.len() == 0 && b.len() == 0 {
            assert(a =~= b);
        }
    } else if a[0] == b[0] {
        lemma_lex_trichotomy(a.skip(1), b.skip(1));
        if a.skip(1) == b.skip(1) {
            assert(a.len() == b.len());
            assert forall|i: int| 0 <= i < a.len() implies a[i] == b[i] by {
                if i > 0 {
                    assert(a[i] == a.skip(1)[i - 1]);
                    assert(b[i] == b.skip(1)[i - 1]);
                }
            }
            assert(a =~= b);
        }
        if a == b {
            assert(a.skip(1) =~= b.skip(1));
        }
    } else {
        assert(a != b) by {
            if a == b {
                assert(a[0] == b[0]);
            }
        }
    }
}

/// The lexicographic order is transitive.
pub proof fn lemma_lex_transitive(a: Seq<u8>, b: Seq<u8>, c: Seq<u8>)
    requires
        lex_lt(a, b),
        lex_lt(b, c),
    ensures
        lex_lt(a, c),
    decreases a.len(),
{
    if a.len() == 0 {
        assert(b.len() > 0);
        assert(c.len() > 0);
    } else {
        assert(b.len() > 0);
        assert(c.len() > 0);
        if a[0] == b[0] && b[0] == c[0] {
            lemma_lex_transitive(a.skip(1), b.skip(1), c.skip(1));
        }
    }
}

/// Executable comparison deciding the lexicographic order.
pub fn lex_less(a: &Vec<u8>, b: &Vec<u8>) -> (r: bool)
    ensures
        r <==> lex_lt(a@, b@),
{
    let mut i: usize = 0;
    proof {
        assert(a@.skip(0) =~= a@);
        assert(b@.skip(0) =~= b@);
    }
    while i < a.len() && i < b.len()
        invariant
            0 <= i <= a.len(),
            0 <= i <= b.len(),
            forall|j: int| 0 <= j < i ==> a@[j] == b@[j],
            lex_lt(a@, b@) <==> lex_lt(a@.skip(i as int), b@.skip(i as int)),
        decreases a.len() - i,
    {
        let x = a[i];
        let y = b[i];
        if x < y {
            assert(lex_lt(a@.skip(i as int), b@.skip(i as int)));
            return true;
        }
        if x > y {
            assert(!lex_lt(a@.skip(i as int), b@.skip(i as int)));
            return false;
        }
        proof {
            assert(a@.skip(i as int)[0] == a@[i as int]);
            assert(b@.skip(i as int)[0] == b@[i as int]);
            assert(a@.skip(i as int).skip(1) =~= a@.skip(i + 1));
            assert(b@.skip(i as int).skip(1) =~= b@.skip(i + 1));
        }
        i += 1;
    }
    let r = a.len() < b.len();
    proof {
        let sa = a@.skip(i as int);
        let sb = b@.skip(i as int);
        if a.len() < b.len() {
            assert(sa.len() == 0 && sb.len() > 0);
            assert(lex_lt(sa, sb));
        } else {
            assert(sb.len() == 0);
            assert(!lex_lt(sa, sb));
        }
    }
    r
}

} // verus!
