//! Resolution of declared symbol names into extern-path mappings.
//!
//! The input is the diagnostic listing text of each schema file: one line per
//! declared type, the type's absolute dotted name first, separated by a space
//! from trailing data this crate ignores.  Each name yields one mapping line
//! `.absolute=crate_name::path`, where the path is the dotted name with `::`
//! for `.`.  A name that appears twice is a fatal error: two declarations
//! cannot share one absolute name.

use vstd::prelude::*;

use crate::bytes::DOT;
use crate::bytes::SPACE;
use crate::bytes::NEWLINE;
use crate::bytes::COLON;
use crate::bytes::find_first;
use crate::bytes::find_last;
use crate::bytes::split_on;
use crate::bytes::byte_views;
use crate::bytes::lex_lt;

verus! {

/// ASCII '=', between source key and target path.
pub const EQUALS: u8 = 61;

/// Bytes that count as blank when a line is trimmed.
pub open spec fn is_space(b: u8) -> bool {
    b == 32 || b == 9 || b == 10 || b == 11 || b == 12 || b == 13
}

/// Index of the first non-blank byte, or -1 when the whole text is blank.
pub open spec fn first_mark(s: Seq<u8>) -> int
    decreases s.len(),
{
    if s.len() == 0 {
        -1
    } else if !is_space(s[0]) {
        0
    } else if first_mark(s.drop_first()) < 0 {
        -1
    } else {
        first_mark(s.drop_first()) + 1
    }
}

/// Index of the last non-blank byte, or -1 when the whole text is blank.
pub open spec fn last_mark(s: Seq<u8>) -> int
    decreases s.len(),
{
    if s.len() == 0 {
        -1
    } else if !is_space(s.last()) {
        s.len() - 1
    } else {
        last_mark(s.drop_last())
    }
}

/// What `first_mark` returns.
pub proof fn lemma_first_mark(s: Seq<u8>)
    ensures
        first_mark(s) >= 0 ==> {
            let r = first_mark(s);
            &&& 0 <= r < s.len()
            &&& !is_space(s[r])
            &&& forall|j: int| 0 <= j < r ==> is_space(s[j])
        },
        first_mark(s) < 0 ==> forall|j: int| 0 <= j < s.len() ==> is_space(s[j]),
    decreases s.len(),
{
    if s.len() > 0 && is_space(s[0]) {
        lemma_first_mark(s.drop_first());
        let t = s.drop_first();
        if first_mark(s) < 0 {
            assert forall|j: int| 0 <= j < s.len() implies is_space(s[j]) by {
                if j > 0 {
                    assert(t[j - 1] == s[j]);
                    assert(is_space(t[j - 1]));
                }
            }
        } else {
            let r = first_mark(s);
            assert(t[r - 1] == s[r]);
            assert forall|j: int| 0 <= j < r implies is_space(s[j]) by {
                if j > 0 {
                    assert(t[j - 1] == s[j]);
                    assert(is_space(t[j - 1]));
                }
            }
        }
    }
}

/// What `last_mark` returns.
pub proof fn lemma_last_mark(s: Seq<u8>)
    ensures
        last_mark(s) >= 0 ==> {
            let r = last_mark(s);
            &&& 0 <= r < s.len()
            &&& !is_space(s[r])
            &&& forall|j: int| r < j < s.len() ==> is_space(s[j])
        },
        last_mark(s) < 0 ==> forall|j: int| 0 <= j < s.len() ==> is_space(s[j]),
    decreases s.len(),
{
    if s.len() > 0 && is_space(s.last()) {
        lemma_last_mark(s.drop_last());
        let t = s.drop_last();
        if last_mark(s) < 0 {
            assert forall|j: int| 0 <= j < s.len() implies is_space(s[j]) by {
                if j < s.len() - 1 {
                    assert(t[j] == s[j]);
                    assert(is_space(t[j]));
                }
            }
        } else {
            let r = last_mark(s);
            assert(t[r] == s[r]);
            assert forall|j: int| r < j < s.len() implies is_space(s[j]) by {
                if j < s.len() - 1 {
                    assert(t[j] == s[j]);
                    assert(is_space(t[j]));
                }
            }
        }
    }
}

/// `s` without leading and trailing blank bytes.
pub open spec fn trim(s: Seq<u8>) -> Seq<u8> {
    if first_mark(s) < 0 {
        Seq::empty()
    } else {
        s.subrange(first_mark(s), last_mark(s) + 1)
    }
}

/// A blank byte before a non-blank one cannot be the last mark.
pub proof fn lemma_marks_ordered(s: Seq<u8>)
    requires
        first_mark(s) >= 0,
    ensures
        first_mark(s) <= last_mark(s) < s.len(),
{
    lemma_first_mark(s);
    lemma_last_mark(s);
    if last_mark(s) < first_mark(s) {
        assert(is_space(s[first_mark(s)]));
    }
}

/// Executable trim.
pub fn trim_bytes(s: &Vec<u8>) -> (r: Vec<u8>)
    ensures
        r@ == trim(s@),
{
    proof {
        lemma_first_mark(s@);
        lemma_last_mark(s@);
    }
    let mut lo: usize = 0;
    loop
        invariant
            0 <= lo <= s@.len(),
            forall|j: int| 0 <= j < lo ==> is_space(s@[j]),
            first_mark(s@) >= 0 ==> {
                let r = first_mark(s@);
                &&& 0 <= r < s@.len()
                &&& !is_space(s@[r])
                &&& forall|j: int| 0 <= j < r ==> is_space(s@[j])
            },
            first_mark(s@) < 0 ==> forall|j: int| 0 <= j < s@.len() ==> is_space(s@[j]),
        ensures
            0 <= lo < s@.len(),
            !is_space(s@[lo as int]),
            forall|j: int| 0 <= j < lo ==> is_space(s@[j]),
        decreases s@.len() - lo,
    {
        if lo == s.len() {
            proof {
                if first_mark(s@) >= 0 {
                    assert(is_space(s@[first_mark(s@)]));
                }
            }
            return Vec::new();
        }
        let b = s[lo];
        if !(b == 32 || b == 9 || b == 10 || b == 11 || b == 12 || b == 13) {
            break;
        }
        lo = lo + 1;
    }
    proof {
        assert(!is_space(s@[lo as int]));
        assert(first_mark(s@) == lo);
        lemma_marks_ordered(s@);
    }
    let mut hi: usize = s.len();
    loop
        invariant
            lo < hi <= s@.len(),
            !is_space(s@[lo as int]),
            forall|j: int| hi <= j < s@.len() ==> is_space(s@[j]),
            first_mark(s@) == lo,
            lo <= last_mark(s@) < s@.len(),
            !is_space(s@[last_mark(s@) as int]),
            forall|j: int| last_mark(s@) < j < s@.len() ==> is_space(s@[j]),
        ensures
            hi == last_mark(s@) + 1,
            lo < hi <= s@.len(),
        decreases hi,
    {
        let b = s[hi - 1];
        if !(b == 32 || b == 9 || b == 10 || b == 11 || b == 12 || b == 13) {
            proof {
                assert(!is_space(s@[hi - 1]));
                assert(last_mark(s@) == hi - 1);
            }
            break;
        }
        proof {
            if hi - 1 == lo {
                assert(is_space(s@[lo as int]));
            }
        }
        hi = hi - 1;
    }
    crate::bytes::subrange_vec(s, lo, hi)
}

/// The text with `::` in place of every `.`.
pub open spec fn with_colons(s: Seq<u8>) -> Seq<u8>
    decreases s.len(),
{
    if s.len() == 0 {
        s
    } else if s.last() == DOT {
        with_colons(s.drop_last()) + seq![COLON, COLON]
    } else {
        with_colons(s.drop_last()) + seq![s.last()]
    }
}

/// Executable counterpart of `with_colons`.
pub fn with_colons_bytes(s: &Vec<u8>) -> (r: Vec<u8>)
    ensures
        r@ == with_colons(s@),
{
    let mut r: Vec<u8> = Vec::new();
    let mut i: usize = 0;
    proof {
        assert(s@.take(0) =~= Seq::<u8>::empty());
    }
    while i < s.len()
        invariant
            0 <= i <= s@.len(),
            r@ == with_colons(s@.take(i as int)),
        decreases s@.len() - i,
    {
        proof {
            assert(s@.take(i + 1).drop_last() =~= s@.take(i as int));
            assert(s@.take(i + 1).last() == s@[i as int]);
        }
        if s[i] == DOT {
            r.push(COLON);
            r.push(COLON);
        } else {
            r.push(s[i]);
        }
        i = i + 1;
    }
    proof {
        assert(s@.take(s@.len() as int) =~= s@);
    }
    r
}

/// The extern-path mapping line of one absolute symbol name:
/// `.absolute=crate_name::package-with-colons::local`, with the package part
/// absent when the name has a single segment.
pub open spec fn extern_line(absolute: Seq<u8>, crate_name: Seq<u8>) -> Seq<u8> {
    let cut = find_last(absolute, DOT);
    if cut < 0 {
        seq![DOT] + absolute + seq![EQUALS] + crate_name + seq![COLON, COLON] + absolute
    } else {
        seq![DOT] + absolute + seq![EQUALS] + crate_name + seq![COLON, COLON] + with_colons(
            absolute.take(cut),
        ) + seq![COLON, COLON] + absolute.skip(cut + 1)
    }
}

/// Executable counterpart of `extern_line`.
pub fn extern_line_bytes(absolute: &Vec<u8>, crate_name: &Vec<u8>) -> (r: Vec<u8>)
    ensures
        r@ == extern_line(absolute@, crate_name@),
{
    let mut r: Vec<u8> = Vec::new();
    r.push(DOT);
    crate::bytes::push_all(&mut r, absolute);
    r.push(EQUALS);
    crate::bytes::push_all(&mut r, crate_name);
    r.push(COLON);
    r.push(COLON);
    match crate::bytes::rfind_byte(absolute, DOT) {
        None => {
            crate::bytes::push_all(&mut r, absolute);
            proof {
                assert(r@ =~= extern_line(absolute@, crate_name@));
            }
        },
        Some(cut) => {
            let n = absolute.len();
            proof {
                crate::bytes::lemma_find_last(absolute@, DOT);
                assert(cut < n);
            }
            let package = crate::bytes::subrange_vec(absolute, 0, cut);
            let local = crate::bytes::subrange_vec(absolute, cut + 1, n);
            let colons = with_colons_bytes(&package);
            crate::bytes::push_all(&mut r, &colons);
            r.push(COLON);
            r.push(COLON);
            crate::bytes::push_all(&mut r, &local);
            proof {
                assert(package@ == absolute@.take(cut as int));
                assert(local@ == absolute@.skip(cut + 1));
                assert(r@ =~= extern_line(absolute@, crate_name@));
            }
        },
    }
    r
}

/// All diagnostic lines of all listings: each listing split on newlines, in
/// listing order.
pub open spec fn all_lines(listings: Seq<Seq<u8>>) -> Seq<Seq<u8>>
    decreases listings.len(),
{
    if listings.len() == 0 {
        Seq::empty()
    } else {
        split_on(listings.first(), NEWLINE) + all_lines(listings.drop_first())
    }
}

/// What resolving a line sequence yields: the full set of mapping lines, or
/// the first failure, lines processed in order.
pub ghost enum Resolution {
    /// Every line resolved; the set of mapping lines produced.
    Resolved(Set<Seq<u8>>),
    /// A non-blank line with no space, shown trimmed: no absolute name can
    /// be cut from it.
    Malformed(Seq<u8>),
    /// A mapping line that was produced twice.
    Duplicate(Seq<u8>),
}

/// Resolves the lines in order against the already-produced set `acc`: blank
/// lines are skipped, each other line contributes the mapping of its first
/// column, and the first malformed line or repeated mapping stops the run.
pub open spec fn resolve_lines(
    lines: Seq<Seq<u8>>,
    crate_name: Seq<u8>,
    acc: Set<Seq<u8>>,
) -> Resolution
    decreases lines.len(),
{
    if lines.len() == 0 {
        Resolution::Resolved(acc)
    } else {
        let t = trim(lines.first());
        if t.len() == 0 {
            resolve_lines(lines.drop_first(), crate_name, acc)
        } else if find_first(t, SPACE) < 0 {
            Resolution::Malformed(t)
        } else {
            let e = extern_line(t.take(find_first(t, SPACE)), crate_name);
            if acc.contains(e) {
                Resolution::Duplicate(e)
            } else {
                resolve_lines(lines.drop_first(), crate_name, acc.insert(e))
            }
        }
    }
}

/// The resolution of a whole listing set, starting from nothing.
pub open spec fn resolve_listings(listings: Seq<Seq<u8>>, crate_name: Seq<u8>) -> Resolution {
    resolve_lines(all_lines(listings), crate_name, Set::empty())
}

/// The reasons symbol resolution stops.
#[derive(Debug)]
pub enum SymbolError {
    /// A non-blank diagnostic line without a space, trimmed: no absolute
    /// name can be cut from it.
    MalformedLine(Vec<u8>),
    /// The extern-path mapping line that was produced a second time: two
    /// declarations share one absolute name.
    DuplicateSymbol(Vec<u8>),
}

/// Strict lexicographic order along the sequence: sorted, without repeats.
pub open spec fn strictly_sorted(s: Seq<Seq<u8>>) -> bool {
    forall|i: int, j: int| 0 <= i < j < s.len() ==> lex_lt(s[i], s[j])
}

/// Where `x` belongs in a sorted vector: the first slot whose entry is not
/// below `x`.
fn locate_sorted(vec: &Vec<Vec<u8>>, x: &Vec<u8>) -> (k: usize)
    requires
        strictly_sorted(byte_views(vec@)),
    ensures
        0 <= k <= vec@.len(),
        forall|t: int| 0 <= t < k ==> lex_lt(byte_views(vec@)[t], x@),
        k < vec@.len() ==> !lex_lt(byte_views(vec@)[k as int], x@),
{
    let mut k: usize = 0;
    while k < vec.len()
        invariant
            0 <= k <= vec@.len(),
            forall|t: int| 0 <= t < k ==> lex_lt(byte_views(vec@)[t], x@),
        decreases vec@.len() - k,
    {
        if !crate::bytes::lex_lt_bytes(&vec[k], x) {
            proof {
                assert(byte_views(vec@)[k as int] == vec@[k as int]@);
            }
            return k;
        }
        k = k + 1;
    }
    k
}

/// Inserting a view into the view sequence mirrors inserting the vector.
proof fn lemma_views_insert(s: Seq<Vec<u8>>, k: int, x: Vec<u8>)
    requires
        0 <= k <= s.len(),
    ensures
        byte_views(s.insert(k, x)) =~= byte_views(s).insert(k, x@),
{
    s.insert_ensures(k, x);
    byte_views(s).insert_ensures(k, x@);
    assert forall|t: int| 0 <= t < s.len() + 1 implies byte_views(s.insert(k, x))[t] == byte_views(
        s,
    ).insert(k, x@)[t] by {
        if t < k {
            assert(s.insert(k, x)[t] == s[t]);
            assert(byte_views(s).insert(k, x@)[t] == byte_views(s)[t]);
        } else if t == k {
            assert(s.insert(k, x)[t] == x);
            assert(byte_views(s).insert(k, x@)[t] == x@);
        } else {
            assert(s.insert(k, x)[t] == s[t - 1]);
            assert(byte_views(s).insert(k, x@)[t] == byte_views(s)[t - 1]);
        }
    }
}

/// Inserting an element anywhere adds exactly it to the set of elements.
proof fn lemma_insert_to_set(bv: Seq<Seq<u8>>, k: int, e: Seq<u8>)
    requires
        0 <= k <= bv.len(),
    ensures
        bv.insert(k, e).to_set() =~= bv.to_set().insert(e),
{
    bv.insert_ensures(k, e);
    let ins = bv.insert(k, e);
    assert forall|a: Seq<u8>| ins.to_set().contains(a) implies bv.to_set().insert(e).contains(
        a,
    ) by {
        let t = choose|t: int| 0 <= t < ins.len() && ins[t] == a;
        if t < k {
            assert(bv[t] == a);
        } else if t > k {
            assert(bv[t - 1] == a);
        }
    }
    assert forall|a: Seq<u8>| bv.to_set().insert(e).contains(a) implies ins.to_set().contains(
        a,
    ) by {
        if a == e {
            assert(ins[k] == a);
        } else {
            let t = choose|t: int| 0 <= t < bv.len() && bv[t] == a;
            if t < k {
                assert(ins[t] == a);
            } else {
                assert(ins[t + 1] == a);
            }
        }
    }
}

/// Computes the sorted extern-path mapping lines of a listing set: one line
/// per declared symbol, or the first failure.  `Ok` holds exactly the
/// resolved mapping set, in strictly ascending byte order.
pub fn compute_proto_package_info(listings: &Vec<Vec<u8>>, crate_name: &Vec<u8>) -> (r: Result<
    Vec<Vec<u8>>,
    SymbolError,
>)
    ensures
        match r {
            Ok(v) => {
                &&& resolve_listings(byte_views(listings@), crate_name@) == Resolution::Resolved(
                    byte_views(v@).to_set(),
                )
                &&& strictly_sorted(byte_views(v@))
            },
            Err(SymbolError::MalformedLine(l)) => resolve_listings(byte_views(listings@), crate_name@)
                == Resolution::Malformed(l@),
            Err(SymbolError::DuplicateSymbol(e)) => resolve_listings(byte_views(listings@), crate_name@)
                == Resolution::Duplicate(e@),
        },
{
    let ghost lviews = byte_views(listings@);
    let mut out: Vec<Vec<u8>> = Vec::new();
    proof {
        assert(lviews.skip(0) =~= lviews);
        assert(byte_views(out@).to_set() =~= Set::<Seq<u8>>::empty());
    }
    let mut li: usize = 0;
    while li < listings.len()
        invariant
            0 <= li <= listings@.len(),
            lviews == byte_views(listings@),
            strictly_sorted(byte_views(out@)),
            resolve_lines(all_lines(lviews), crate_name@, Set::empty()) == resolve_lines(
                all_lines(lviews.skip(li as int)),
                crate_name@,
                byte_views(out@).to_set(),
            ),
        decreases listings@.len() - li,
    {
        let lines = crate::bytes::split_bytes(&listings[li], NEWLINE);
        let ghost tail = all_lines(lviews.skip(li + 1));
        proof {
            assert(lviews.skip(li as int).first() == listings@[li as int]@);
            assert(lviews.skip(li as int).drop_first() =~= lviews.skip(li + 1));
            assert(all_lines(lviews.skip(li as int)) == byte_views(lines@) + tail);
        }
        let mut j: usize = 0;
        proof {
            assert(byte_views(lines@).skip(0) =~= byte_views(lines@));
            assert(byte_views(lines@).skip(0) + tail =~= byte_views(lines@) + tail);
        }
        while j < lines.len()
            invariant
                0 <= j <= lines@.len(),
                lviews == byte_views(listings@),
                byte_views(lines@) + tail == all_lines(lviews.skip(li as int)),
                tail == all_lines(lviews.skip(li + 1)),
                strictly_sorted(byte_views(out@)),
                resolve_lines(all_lines(lviews), crate_name@, Set::empty()) == resolve_lines(
                    byte_views(lines@).skip(j as int) + tail,
                    crate_name@,
                    byte_views(out@).to_set(),
                ),
            decreases lines@.len() - j,
        {
            let ghost rest = byte_views(lines@).skip(j as int) + tail;
            proof {
                assert(rest.len() > 0);
                assert(rest.first() == byte_views(lines@)[j as int]);
                assert(rest.first() == lines@[j as int]@);
                assert(rest.drop_first() =~= byte_views(lines@).skip(j + 1) + tail);
            }
            let t = trim_bytes(&lines[j]);
            if t.len() > 0 {
                match crate::bytes::find_byte(&t, SPACE) {
                    None => {
                        return Err(SymbolError::MalformedLine(t));
                    },
                    Some(cut) => {
                        proof {
                            crate::bytes::lemma_find_first(t@, SPACE);
                        }
                        let absolute = crate::bytes::subrange_vec(&t, 0, cut);
                        proof {
                            assert(absolute@ =~= t@.take(cut as int));
                        }
                        let e = extern_line_bytes(&absolute, crate_name);
                        let ghost acc = byte_views(out@).to_set();
                        let k = locate_sorted(&out, &e);
                        let dup = k < out.len() && crate::bytes::eq_bytes(&out[k], &e);
                        proof {
                            assert(k < out@.len() ==> byte_views(out@)[k as int] == out@[k as int]@);
                        }
                        if dup {
                            proof {
                                assert(byte_views(out@)[k as int] == e@);
                                assert(acc.contains(e@));
                            }
                            return Err(SymbolError::DuplicateSymbol(e));
                        }
                        proof {
                            assert forall|tt: int|
                                0 <= tt < byte_views(out@).len() implies byte_views(out@)[tt]
                                != e@ by {
                                if tt < k {
                                    if byte_views(out@)[tt] == e@ {
                                        crate::bytes::lemma_lex_irreflexive(e@);
                                    }
                                } else if tt > k {
                                    if byte_views(out@)[tt] == e@ {
                                        assert(lex_lt(
                                            byte_views(out@)[k as int],
                                            byte_views(out@)[tt],
                                        ));
                                    }
                                }
                            }
                            assert(!acc.contains(e@));
                            assert forall|t2: int|
                                k < t2 < byte_views(out@).len() implies lex_lt(
                                e@,
                                byte_views(out@)[t2],
                            ) by {
                                crate::bytes::lemma_lex_connected(e@, byte_views(out@)[k as int]);
                                if lex_lt(byte_views(out@)[k as int], byte_views(out@)[t2]) {
                                    crate::bytes::lemma_lex_transitive(
                                        e@,
                                        byte_views(out@)[k as int],
                                        byte_views(out@)[t2],
                                    );
                                }
                            }
                            if k < byte_views(out@).len() {
                                crate::bytes::lemma_lex_connected(e@, byte_views(out@)[k as int]);
                            }
                        }
                        let ghost opre = out@;
                        out.insert(k, e);
                        proof {
                            lemma_views_insert(opre, k as int, e);
                            lemma_insert_to_set(byte_views(opre), k as int, e@);
                            byte_views(opre).insert_ensures(k as int, e@);
                            assert(byte_views(out@) =~= byte_views(opre).insert(k as int, e@));
                            assert(byte_views(out@).to_set() =~= acc.insert(e@));
                            assert(strictly_sorted(byte_views(out@))) by {
                                let bv = byte_views(opre).insert(k as int, e@);
                                assert forall|i1: int, j1: int|
                                    0 <= i1 < j1 < bv.len() implies lex_lt(bv[i1], bv[j1]) by {
                                    if i1 < k && j1 == k {
                                        assert(bv[i1] == byte_views(opre)[i1]);
                                    } else if i1 == k && j1 > k {
                                        assert(bv[j1] == byte_views(opre)[j1 - 1]);
                                    } else if i1 < k && j1 > k {
                                        assert(bv[i1] == byte_views(opre)[i1]);
                                        assert(bv[j1] == byte_views(opre)[j1 - 1]);
                                        if j1 - 1 == i1 {
                                            crate::bytes::lemma_lex_transitive(
                                                byte_views(opre)[i1],
                                                e@,
                                                e@,
                                            );
                                        }
                                    } else if i1 > k || j1 < k {
                                        assert(bv[i1] == if i1 < k {
                                            byte_views(opre)[i1]
                                        } else {
                                            byte_views(opre)[i1 - 1]
                                        });
                                    }
                                }
                            }
                        }
                    },
                }
            }
            j = j + 1;
        }
        proof {
            assert(byte_views(lines@).skip(lines@.len() as int) =~= Seq::<Seq<u8>>::empty());
            assert(byte_views(lines@).skip(lines@.len() as int) + tail =~= tail);
        }
        li = li + 1;
    }
    proof {
        assert(lviews.skip(listings@.len() as int) =~= Seq::<Seq<u8>>::empty());
        assert(all_lines(lviews.skip(listings@.len() as int)).len() == 0);
    }
    Ok(out)
}

/// The lines joined with single newlines: no trailing newline, nothing
/// between the lines but the separator.
pub open spec fn joined_lines(s: Seq<Seq<u8>>) -> Seq<u8>
    decreases s.len(),
{
    if s.len() == 0 {
        Seq::empty()
    } else if s.len() == 1 {
        s[0]
    } else {
        joined_lines(s.drop_last()) + seq![NEWLINE] + s.last()
    }
}

/// Joins the mapping lines into the package-info output text.
pub fn join_lines(v: &Vec<Vec<u8>>) -> (r: Vec<u8>)
    ensures
        r@ == joined_lines(byte_views(v@)),
{
    let mut r: Vec<u8> = Vec::new();
    let mut i: usize = 0;
    proof {
        assert(byte_views(v@).take(0) =~= Seq::<Seq<u8>>::empty());
    }
    while i < v.len()
        invariant
            0 <= i <= v@.len(),
            r@ == joined_lines(byte_views(v@).take(i as int)),
        decreases v@.len() - i,
    {
        proof {
            assert(byte_views(v@).take(i + 1).drop_last() =~= byte_views(v@).take(i as int));
            assert(byte_views(v@).take(i + 1).last() == v@[i as int]@);
            assert(byte_views(v@).take(i + 1)[0] == v@[0]@);
        }
        if i > 0 {
            r.push(NEWLINE);
        }
        crate::bytes::push_all(&mut r, &v[i]);
        i = i + 1;
    }
    proof {
        assert(byte_views(v@).take(v@.len() as int) =~= byte_views(v@));
    }
    r
}

} // verus!
