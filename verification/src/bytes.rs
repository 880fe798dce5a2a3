//! Lexicographic order on byte strings, with executable comparison and
//! equality, and the small `Vec<u8>` building blocks the rest of the crate
//! shares.

use vstd::prelude::*;

verus! {

/// ASCII '.', the package-path separator.
pub const DOT: u8 = 46;

/// ASCII '\n', the line separator.
pub const NEWLINE: u8 = 10;

/// ASCII ' ', the column separator of diagnostic listings.
pub const SPACE: u8 = 32;

/// ASCII ':', the path separator of the target namespace.
pub const COLON: u8 = 58;

/// Strict lexicographic order on byte sequences: `a` comes before `b` when,
/// at the first position where they differ, `a` has the smaller byte, or when
/// `a` is a strict prefix of `b`.
pub open spec fn lex_lt(a: Seq<u8>, b: Seq<u8>) -> bool
    decreases a.len(),
{
    if b.len() == 0 {
        false
    } else if a.len() == 0 {
        true
    } else if a[0] != b[0] {
        a[0] < b[0]
    } else {
        lex_lt(a.drop_first(), b.drop_first())
    }
}

/// Reflexive closure of `lex_lt`.
pub open spec fn lex_leq(a: Seq<u8>, b: Seq<u8>) -> bool {
    lex_lt(a, b) || a == b
}

proof fn lemma_eq_parts(a: Seq<u8>, b: Seq<u8>)
    requires
        a.len() > 0,
        b.len() > 0,
        a[0] == b[0],
        a.drop_first() == b.drop_first(),
    ensures
        a == b,
{
    assert(a.drop_first().len() == a.len() - 1);
    assert(b.drop_first().len() == b.len() - 1);
    assert(a.len() == b.len());
    assert forall|i: int| 0 <= i < a.len() implies a[i] == b[i] by {
        if i > 0 {
            assert(a.drop_first()[i - 1] == a[i]);
            assert(b.drop_first()[i - 1] == b[i]);
            assert(a.drop_first()[i - 1] == b.drop_first()[i - 1]);
        }
    }
    assert(a =~= b);
}

/// Any two byte sequences are comparable: the order is strongly connected.
pub proof fn lemma_lex_connected(a: Seq<u8>, b: Seq<u8>)
    ensures
        lex_lt(a, b) || lex_lt(b, a) || a == b,
    decreases a.len(),
{
    if a.len() == 0 && b.len() == 0 {
        assert(a =~= b);
    } else if a.len() > 0 && b.len() > 0 && a[0] == b[0] {
        lemma_lex_connected(a.drop_first(), b.drop_first());
        if a.drop_first() == b.drop_first() {
            lemma_eq_parts(a, b);
        }
    }
}

/// Nothing is ordered before itself.
pub proof fn lemma_lex_irreflexive(a: Seq<u8>)
    ensures
        !lex_lt(a, a),
    decreases a.len(),
{
    if a.len() > 0 {
        lemma_lex_irreflexive(a.drop_first());
    }
}

/// The order is asymmetric, hence also irreflexive.
pub proof fn lemma_lex_asymmetric(a: Seq<u8>, b: Seq<u8>)
    requires
        lex_lt(a, b),
    ensures
        !lex_lt(b, a),
        a != b,
    decreases a.len(),
{
    if a.len() > 0 && b.len() > 0 && a[0] == b[0] {
        lemma_lex_asymmetric(a.drop_first(), b.drop_first());
        if a == b {
            assert(a.drop_first() == b.drop_first());
        }
    } else if a == b {
        assert(a.len() == b.len());
    }
}

/// The order is transitive.
pub proof fn lemma_lex_transitive(a: Seq<u8>, b: Seq<u8>, c: Seq<u8>)
    requires
        lex_lt(a, b),
        lex_lt(b, c),
    ensures
        lex_lt(a, c),
    decreases a.len(),
{
    if a.len() > 0 && b.len() > 0 && c.len() > 0 {
        if a[0] == b[0] && b[0] == c[0] {
            lemma_lex_transitive(a.drop_first(), b.drop_first(), c.drop_first());
        }
    }
}

/// Equal prefixes do not affect the comparison of what follows them.
pub proof fn lemma_lex_skip(a: Seq<u8>, b: Seq<u8>, i: int)
    requires
        0 <= i <= a.len(),
        0 <= i <= b.len(),
        forall|j: int| 0 <= j < i ==> a[j] == b[j],
    ensures
        lex_lt(a, b) == lex_lt(a.skip(i), b.skip(i)),
    decreases i,
{
    if i > 0 {
        assert(a[0] == b[0]);
        assert(a.drop_first().skip(i - 1) =~= a.skip(i));
        assert(b.drop_first().skip(i - 1) =~= b.skip(i));
        lemma_lex_skip(a.drop_first(), b.drop_first(), i - 1);
    } else {
        assert(a.skip(0) =~= a);
        assert(b.skip(0) =~= b);
    }
}

/// Index of the first occurrence of `sep` in `s`, or -1 when absent.
pub open spec fn find_first(s: Seq<u8>, sep: u8) -> int
    decreases s.len(),
{
    if s.len() == 0 {
        -1
    } else if s[0] == sep {
        0
    } else if find_first(s.drop_first(), sep) < 0 {
        -1
    } else {
        find_first(s.drop_first(), sep) + 1
    }
}

/// What `find_first` returns: the position of the first occurrence, or -1
/// when there is none.
pub proof fn lemma_find_first(s: Seq<u8>, sep: u8)
    ensures
        find_first(s, sep) >= 0 ==> {
            let r = find_first(s, sep);
            &&& 0 <= r < s.len()
            &&& s[r] == sep
            &&& forall|j: int| 0 <= j < r ==> s[j] != sep
        },
        find_first(s, sep) < 0 ==> forall|j: int| 0 <= j < s.len() ==> s[j] != sep,
    decreases s.len(),
{
    if s.len() > 0 && s[0] != sep {
        lemma_find_first(s.drop_first(), sep);
        let t = s.drop_first();
        if find_first(s, sep) < 0 {
            assert forall|j: int| 0 <= j < s.len() implies s[j] != sep by {
                if j > 0 {
                    assert(t[j - 1] == s[j]);
                    assert(t[j - 1] != sep);
                }
            }
        } else {
            let r = find_first(s, sep);
            assert(t[r - 1] == s[r]);
            assert forall|j: int| 0 <= j < r implies s[j] != sep by {
                if j > 0 {
                    assert(t[j - 1] == s[j]);
                    assert(t[j - 1] != sep);
                }
            }
        }
    }
}

/// Index of the last occurrence of `sep` in `s`, or -1 when absent.
pub open spec fn find_last(s: Seq<u8>, sep: u8) -> int
    decreases s.len(),
{
    if s.len() == 0 {
        -1
    } else if s.last() == sep {
        s.len() - 1
    } else {
        find_last(s.drop_last(), sep)
    }
}

/// What `find_last` returns: the position of the last occurrence, or -1 when
/// there is none.
pub proof fn lemma_find_last(s: Seq<u8>, sep: u8)
    ensures
        find_last(s, sep) >= 0 ==> {
            let r = find_last(s, sep);
            &&& 0 <= r < s.len()
            &&& s[r] == sep
            &&& forall|j: int| r < j < s.len() ==> s[j] != sep
        },
        find_last(s, sep) < 0 ==> forall|j: int| 0 <= j < s.len() ==> s[j] != sep,
    decreases s.len(),
{
    if s.len() > 0 && s.last() != sep {
        lemma_find_last(s.drop_last(), sep);
        let t = s.drop_last();
        if find_last(s, sep) < 0 {
            assert forall|j: int| 0 <= j < s.len() implies s[j] != sep by {
                if j < s.len() - 1 {
                    assert(t[j] == s[j]);
                    assert(t[j] != sep);
                }
            }
        } else {
            let r = find_last(s, sep);
            assert(t[r] == s[r]);
            assert forall|j: int| r < j < s.len() implies s[j] != sep by {
                if j < s.len() - 1 {
                    assert(t[j] == s[j]);
                    assert(t[j] != sep);
                }
            }
        }
    }
}

/// The pieces of `s` between occurrences of `sep`: always one more piece than
/// there are separators, so an empty `s` gives one empty piece.
pub open spec fn split_on(s: Seq<u8>, sep: u8) -> Seq<Seq<u8>>
    decreases s.len(),
{
    let r = find_first(s, sep);
    if r < 0 || r >= s.len() {
        seq![s]
    } else {
        seq![s.take(r)] + split_on(s.skip(r + 1), sep)
    }
}

/// Executable search for the first occurrence of `sep`.
pub fn find_byte(s: &Vec<u8>, sep: u8) -> (r: Option<usize>)
    ensures
        match r {
            Some(k) => find_first(s@, sep) == k,
            None => find_first(s@, sep) < 0,
        },
{
    proof {
        lemma_find_first(s@, sep);
    }
    let mut i: usize = 0;
    while i < s.len()
        invariant
            0 <= i <= s@.len(),
            forall|j: int| 0 <= j < i ==> s@[j] != sep,
            find_first(s@, sep) >= 0 ==> {
                let r = find_first(s@, sep);
                &&& 0 <= r < s@.len()
                &&& s@[r] == sep
                &&& forall|j: int| 0 <= j < r ==> s@[j] != sep
            },
            find_first(s@, sep) < 0 ==> forall|j: int| 0 <= j < s@.len() ==> s@[j] != sep,
        decreases s@.len() - i,
    {
        if s[i] == sep {
            return Some(i);
        }
        i = i + 1;
    }
    None
}

/// Executable search for the last occurrence of `sep`.
pub fn rfind_byte(s: &Vec<u8>, sep: u8) -> (r: Option<usize>)
    ensures
        match r {
            Some(k) => find_last(s@, sep) == k,
            None => find_last(s@, sep) < 0,
        },
{
    proof {
        lemma_find_last(s@, sep);
    }
    let mut i: usize = s.len();
    while i > 0
        invariant
            0 <= i <= s@.len(),
            forall|j: int| i <= j < s@.len() ==> s@[j] != sep,
            find_last(s@, sep) >= 0 ==> {
                let r = find_last(s@, sep);
                &&& 0 <= r < s@.len()
                &&& s@[r] == sep
                &&& forall|j: int| r < j < s@.len() ==> s@[j] != sep
            },
            find_last(s@, sep) < 0 ==> forall|j: int| 0 <= j < s@.len() ==> s@[j] != sep,
        decreases i,
    {
        i = i - 1;
        if s[i] == sep {
            return Some(i);
        }
    }
    None
}

/// Executable copy of `s[from..to]`.
pub fn subrange_vec(s: &Vec<u8>, from: usize, to: usize) -> (r: Vec<u8>)
    requires
        from <= to <= s@.len(),
    ensures
        r@ == s@.subrange(from as int, to as int),
{
    let mut r: Vec<u8> = Vec::new();
    let mut i: usize = from;
    while i < to
        invariant
            from <= i <= to <= s@.len(),
            r@ == s@.subrange(from as int, i as int),
        decreases to - i,
    {
        r.push(s[i]);
        proof {
            assert(s@.subrange(from as int, i + 1) =~= s@.subrange(
                from as int,
                i as int,
            ).push(s@[i as int]));
        }
        i = i + 1;
    }
    r
}

/// Executable copy of a byte string.
pub fn copy_bytes(s: &Vec<u8>) -> (r: Vec<u8>)
    ensures
        r@ == s@,
{
    let r = subrange_vec(s, 0, s.len());
    proof {
        assert(s@.subrange(0, s@.len() as int) =~= s@);
    }
    r
}

/// The views of a sequence of byte vectors.
pub open spec fn byte_views(s: Seq<Vec<u8>>) -> Seq<Seq<u8>> {
    Seq::new(s.len(), |i: int| s[i]@)
}

/// Executable split of `s` on a separator byte.
pub fn split_bytes(s: &Vec<u8>, sep: u8) -> (r: Vec<Vec<u8>>)
    ensures
        byte_views(r@) == split_on(s@, sep),
{
    let mut r: Vec<Vec<u8>> = Vec::new();
    let mut start: usize = 0;
    let mut i: usize = 0;
    proof {
        assert(s@.skip(0) =~= s@);
        assert(byte_views(r@) + split_on(s@.skip(0), sep) =~= split_on(s@, sep));
    }
    while i < s.len()
        invariant
            0 <= start <= i <= s@.len(),
            forall|j: int| start <= j < i ==> s@[j] != sep,
            split_on(s@, sep) =~= byte_views(r@) + split_on(s@.skip(start as int), sep),
        decreases s@.len() - i,
    {
        if s[i] == sep {
            let piece = subrange_vec(s, start, i);
            proof {
                lemma_split_step(s@, sep, start as int, i as int);
                lemma_deep_view_push(r@, piece);
            }
            r.push(piece);
            start = i + 1;
        }
        i = i + 1;
    }
    let piece = subrange_vec(s, start, s.len());
    proof {
        lemma_split_end(s@, sep, start as int);
        lemma_deep_view_push(r@, piece);
    }
    r.push(piece);
    r
}

/// Pushing onto a vector of byte strings pushes the pushed view onto the
/// sequence of views.
proof fn lemma_deep_view_push(r: Seq<Vec<u8>>, piece: Vec<u8>)
    ensures
        byte_views(r.push(piece)) =~= byte_views(r).push(piece@),
{
    let lhs = byte_views(r.push(piece));
    let rhs = byte_views(r).push(piece@);
    assert forall|k: int| 0 <= k < lhs.len() implies lhs[k] == rhs[k] by {
        if k < r.len() {
            assert(r.push(piece)[k] == r[k]);
        }
    }
}

/// One splitting step: a separator at `i`, none between `start` and `i`.
proof fn lemma_split_step(s: Seq<u8>, sep: u8, start: int, i: int)
    requires
        0 <= start <= i < s.len(),
        forall|j: int| start <= j < i ==> s[j] != sep,
        s[i] == sep,
    ensures
        split_on(s.skip(start), sep) =~= seq![s.subrange(start, i)] + split_on(
            s.skip(i + 1),
            sep,
        ),
{
    let t = s.skip(start);
    lemma_find_first(t, sep);
    assert(forall|j: int| 0 <= j < t.len() ==> t[j] == s[start + j]);
    assert(t[i - start] == sep);
    assert(forall|j: int| 0 <= j < i - start ==> t[j] != sep);
    let r = find_first(t, sep);
    if r < 0 {
        assert(t[i - start] != sep);
        assert(false);
    }
    if r < i - start {
        assert(t[r] != sep);
        assert(false);
    }
    if r > i - start {
        assert(t[i - start] != sep);
        assert(false);
    }
    assert(r == i - start);
    assert(t.take(r) =~= s.subrange(start, i));
    assert(t.skip(r + 1) =~= s.skip(i + 1));
}

/// The final splitting step: no separator from `start` on.
proof fn lemma_split_end(s: Seq<u8>, sep: u8, start: int)
    requires
        0 <= start <= s.len(),
        forall|j: int| start <= j < s.len() ==> s[j] != sep,
    ensures
        split_on(s.skip(start), sep) =~= seq![s.skip(start)],
{
    let t = s.skip(start);
    lemma_find_first(t, sep);
    assert(forall|j: int| 0 <= j < t.len() ==> t[j] == s[start + j]);
    if find_first(t, sep) >= 0 {
        let r = find_first(t, sep);
        assert(t[r] == sep);
        assert(s[start + r] == sep);
        assert(false);
    }
}

/// Executable strict lexicographic comparison of two byte strings.
pub fn lex_lt_bytes(a: &Vec<u8>, b: &Vec<u8>) -> (r: bool)
    ensures
        r == lex_lt(a@, b@),
{
    let mut i: usize = 0;
    loop
        invariant
            0 <= i <= a@.len(),
            0 <= i <= b@.len(),
            forall|j: int| 0 <= j < i ==> a@[j] == b@[j],
        decreases a@.len() - i,
    {
        proof {
            lemma_lex_skip(a@, b@, i as int);
        }
        if i == b.len() {
            return false;
        }
        if i == a.len() {
            return true;
        }
        if a[i] != b[i] {
            return a[i] < b[i];
        }
        i = i + 1;
    }
}

/// Executable equality of two byte strings.
pub fn eq_bytes(a: &Vec<u8>, b: &Vec<u8>) -> (r: bool)
    ensures
        r == (a@ == b@),
{
    if a.len() != b.len() {
        return false;
    }
    let mut i: usize = 0;
    while i < a.len()
        invariant
            0 <= i <= a@.len(),
            a@.len() == b@.len(),
            forall|j: int| 0 <= j < i ==> a@[j] == b@[j],
        decreases a@.len() - i,
    {
        if a[i] != b[i] {
            return false;
        }
        i = i + 1;
    }
    proof {
        assert(a@ =~= b@);
    }
    true
}

/// Appends the bytes of `src` to `dst`.
pub fn push_all(dst: &mut Vec<u8>, src: &Vec<u8>)
    ensures
        final(dst)@ == old(dst)@ + src@,
{
    let mut i: usize = 0;
    while i < src.len()
        invariant
            0 <= i <= src@.len(),
            dst@ == old(dst)@ + src@.take(i as int),
        decreases src@.len() - i,
    {
        dst.push(src[i]);
        proof {
            assert(src@.take(i + 1) =~= src@.take(i as int).push(src@[i as int]));
        }
        i = i + 1;
    }
    proof {
        assert(src@.take(src@.len() as int) =~= src@);
    }
}

} // verus!
