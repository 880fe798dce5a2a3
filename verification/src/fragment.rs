//! Fragments of generated source text, one per schema file output, and their
//! reconciliation into exactly one canonical fragment per package.

use vstd::prelude::*;

use crate::bytes::lex_lt;
use crate::bytes::NEWLINE;
use crate::bytes::eq_bytes;

verus! {

/// Which of the two possible outputs of one schema file a fragment is.
pub enum FragmentKind {
    /// The plain message/type output.
    Primary,
    /// The service/RPC output, emitted under the service naming convention.
    Service,
}

/// One generated output as discovered, keyed by its package name.
pub struct RawFragment {
    /// Normalized dotted package key.
    pub package: Vec<u8>,
    /// Kind, inferred from the file naming convention by the caller.
    pub kind: FragmentKind,
    /// The raw generated text.
    pub content: Vec<u8>,
}

/// The single reconciled fragment of one package.
pub struct CanonicalFragment {
    /// Normalized dotted package key; doubles as the module path.
    pub module_name: Vec<u8>,
    /// The file stem the surviving output file must carry.
    pub output_stem: Vec<u8>,
    /// The reconciled text.
    pub content: Vec<u8>,
}

/// The (package, content) pair a fragment contributes to the module tree.
pub open spec fn frag_pair(f: CanonicalFragment) -> (Seq<u8>, Seq<u8>) {
    (f.module_name@, f.content@)
}

/// The (package, content) pairs of a fragment sequence.
pub open spec fn frag_pairs(s: Seq<CanonicalFragment>) -> Seq<(Seq<u8>, Seq<u8>)> {
    Seq::new(s.len(), |i: int| frag_pair(s[i]))
}

/// Order on (package, content) pairs: by package, then by content.
pub open spec fn pair_leq(a: (Seq<u8>, Seq<u8>), b: (Seq<u8>, Seq<u8>)) -> bool {
    ||| lex_lt(a.0, b.0)
    ||| (a.0 == b.0 && (lex_lt(a.1, b.1) || a.1 == b.1))
}

/// The order handed to `sort_by`: one shared closure value, so that equal
/// sorts are stated over one relation.
pub open spec fn pair_order() -> spec_fn((Seq<u8>, Seq<u8>), (Seq<u8>, Seq<u8>)) -> bool {
    |a: (Seq<u8>, Seq<u8>), b: (Seq<u8>, Seq<u8>)| pair_leq(a, b)
}

/// `pair_order` is a total ordering, so sorting by it is canonical.
pub proof fn lemma_pair_order_total()
    ensures
        vstd::relations::total_ordering(pair_order()),
{
    let r = pair_order();
    assert forall|a: (Seq<u8>, Seq<u8>)| #[trigger] r(a, a) by {
        assert(pair_leq(a, a));
    }
    assert forall|a: (Seq<u8>, Seq<u8>), b: (Seq<u8>, Seq<u8>)| #[trigger] r(a, b) && #[trigger] r(
        b,
        a,
    ) implies a == b by {
        if lex_lt(a.0, b.0) {
            crate::bytes::lemma_lex_asymmetric(a.0, b.0);
        } else if lex_lt(a.1, b.1) {
            crate::bytes::lemma_lex_asymmetric(a.1, b.1);
        }
    }
    assert forall|a: (Seq<u8>, Seq<u8>), b: (Seq<u8>, Seq<u8>), c: (Seq<u8>, Seq<u8>)|
        #[trigger] r(a, b) && #[trigger] r(b, c) implies r(a, c) by {
        if lex_lt(a.0, b.0) && lex_lt(b.0, c.0) {
            crate::bytes::lemma_lex_transitive(a.0, b.0, c.0);
        }
        if a.0 == b.0 && b.0 == c.0 && lex_lt(a.1, b.1) && lex_lt(b.1, c.1) {
            crate::bytes::lemma_lex_transitive(a.1, b.1, c.1);
        }
    }
    assert forall|a: (Seq<u8>, Seq<u8>), b: (Seq<u8>, Seq<u8>)| #[trigger] r(a, b) || #[trigger] r(
        b,
        a,
    ) by {
        crate::bytes::lemma_lex_connected(a.0, b.0);
        if a.0 == b.0 {
            crate::bytes::lemma_lex_connected(a.1, b.1);
        }
    }
}

/// The module-path view of a fragment's package key.
pub open spec fn raw_pkg(f: RawFragment) -> Seq<u8> {
    f.package@
}

/// Whether a fragment is the primary (message) output.
pub open spec fn is_primary(f: RawFragment) -> bool {
    match f.kind {
        FragmentKind::Primary => true,
        FragmentKind::Service => false,
    }
}

/// At most one primary and at most one service fragment per package.
pub open spec fn one_per_kind(raw: Seq<RawFragment>) -> bool {
    forall|i: int, j: int|
        0 <= i < j < raw.len() && raw_pkg(#[trigger] raw[i]) == raw_pkg(#[trigger] raw[j])
            ==> is_primary(raw[i]) != is_primary(raw[j])
}

/// Some fragment of this package and kind exists.
pub open spec fn has_kind(raw: Seq<RawFragment>, p: Seq<u8>, primary: bool) -> bool {
    exists|i: int| 0 <= i < raw.len() && raw_pkg(raw[i]) == p && is_primary(raw[i]) == primary
}

/// The content of the fragment of this package and kind; under
/// `one_per_kind` there is at most one.
pub open spec fn kind_content(raw: Seq<RawFragment>, p: Seq<u8>, primary: bool) -> Seq<u8> {
    let i = choose|i: int|
        0 <= i < raw.len() && raw_pkg(raw[i]) == p && is_primary(raw[i]) == primary;
    raw[i].content@
}

/// The bytes of `".tonic"`: the service naming marker carried by a stem.
pub open spec fn service_marker() -> Seq<u8> {
    seq![46u8, 116u8, 111u8, 110u8, 105u8, 99u8]
}

/// The (module_name, output_stem, content) view of one canonical fragment.
pub open spec fn canon_view(f: CanonicalFragment) -> (Seq<u8>, Seq<u8>, Seq<u8>) {
    (f.module_name@, f.output_stem@, f.content@)
}

/// The views of a canonical fragment sequence.
pub open spec fn canon_views(s: Seq<CanonicalFragment>) -> Seq<(Seq<u8>, Seq<u8>, Seq<u8>)> {
    Seq::new(s.len(), |i: int| canon_view(s[i]))
}

/// The one canonical fragment of package `p`: primary content first, then a
/// newline and the service content when both exist, either alone otherwise;
/// in service mode the surviving stem always carries the service marker.
pub open spec fn recon_entry(raw: Seq<RawFragment>, p: Seq<u8>, service_mode: bool) -> (
    Seq<u8>,
    Seq<u8>,
    Seq<u8>,
) {
    let stem = if service_mode {
        p + service_marker()
    } else {
        p
    };
    let content = if has_kind(raw, p, true) && has_kind(raw, p, false) {
        kind_content(raw, p, true) + seq![NEWLINE] + kind_content(raw, p, false)
    } else if has_kind(raw, p, true) {
        kind_content(raw, p, true)
    } else {
        kind_content(raw, p, false)
    };
    (p, stem, content)
}

/// A package already occurs before index `i`.
pub open spec fn seen_before(raw: Seq<RawFragment>, i: int) -> bool {
    exists|j: int| 0 <= j < i && raw_pkg(raw[j]) == raw_pkg(raw[i])
}

/// The canonical fragments of the first `i` raw fragments: one entry per
/// package, at its first occurrence.
pub open spec fn spec_reconcile_upto(raw: Seq<RawFragment>, service_mode: bool, i: int) -> Seq<(
    Seq<u8>,
    Seq<u8>,
    Seq<u8>,
)>
    decreases i,
{
    if i <= 0 {
        Seq::empty()
    } else if seen_before(raw, i - 1) {
        spec_reconcile_upto(raw, service_mode, i - 1)
    } else {
        spec_reconcile_upto(raw, service_mode, i - 1).push(
            recon_entry(raw, raw_pkg(raw[i - 1]), service_mode),
        )
    }
}

/// The canonical fragment set of the whole raw set.
pub open spec fn spec_reconcile(raw: Seq<RawFragment>, service_mode: bool) -> Seq<(
    Seq<u8>,
    Seq<u8>,
    Seq<u8>,
)> {
    spec_reconcile_upto(raw, service_mode, raw.len() as int)
}

/// Finds the content of the fragment of package `p` and the given kind.
fn find_kind(raw: &Vec<RawFragment>, p: &Vec<u8>, primary: bool) -> (r: Option<Vec<u8>>)
    requires
        one_per_kind(raw@),
    ensures
        match r {
            Some(c) => has_kind(raw@, p@, primary) && c@ == kind_content(raw@, p@, primary),
            None => !has_kind(raw@, p@, primary),
        },
{
    let mut i: usize = 0;
    while i < raw.len()
        invariant
            0 <= i <= raw@.len(),
            one_per_kind(raw@),
            forall|t: int|
                0 <= t < i ==> !(raw_pkg(#[trigger] raw@[t]) == p@ && is_primary(raw@[t])
                    == primary),
        decreases raw@.len() - i,
    {
        let f = &raw[i];
        let matches_kind = match f.kind {
            FragmentKind::Primary => primary,
            FragmentKind::Service => !primary,
        };
        if matches_kind && eq_bytes(&f.package, p) {
            proof {
                assert(raw_pkg(raw@[i as int]) == p@ && is_primary(raw@[i as int]) == primary);
                let w = choose|w: int|
                    0 <= w < raw@.len() && raw_pkg(raw@[w]) == p@ && is_primary(raw@[w])
                        == primary;
                if w != i {
                    assert(is_primary(raw@[w]) != is_primary(raw@[i as int]));
                }
            }
            return Some(crate::bytes::copy_bytes(&f.content));
        }
        i = i + 1;
    }
    None
}

/// Reconciles the discovered fragments: exactly one canonical fragment per
/// package, primary and service content merged, emitted in order of each
/// package's first occurrence.
pub fn reconcile_fragments(raw: &Vec<RawFragment>, service_mode: bool) -> (out: Vec<
    CanonicalFragment,
>)
    requires
        one_per_kind(raw@),
    ensures
        canon_views(out@) == spec_reconcile(raw@, service_mode),
{
    let mut out: Vec<CanonicalFragment> = Vec::new();
    proof {
        assert(canon_views(out@) =~= spec_reconcile_upto(raw@, service_mode, 0));
    }
    let mut i: usize = 0;
    while i < raw.len()
        invariant
            0 <= i <= raw@.len(),
            one_per_kind(raw@),
            canon_views(out@) == spec_reconcile_upto(raw@, service_mode, i as int),
        decreases raw@.len() - i,
    {
        let f = &raw[i];
        let mut seen = false;
        let mut j: usize = 0;
        while j < i
            invariant
                0 <= j <= i < raw@.len(),
                f.package@ == raw_pkg(raw@[i as int]),
                seen == exists|t: int| 0 <= t < j && raw_pkg(raw@[t]) == raw_pkg(raw@[i as int]),
            decreases i - j,
        {
            let g = &raw[j];
            if eq_bytes(&g.package, &f.package) {
                proof {
                    assert(raw_pkg(raw@[j as int]) == raw_pkg(raw@[i as int]));
                }
                seen = true;
            }
            j = j + 1;
        }
        if !seen {
            let primary = find_kind(raw, &f.package, true);
            let service = find_kind(raw, &f.package, false);
            let content: Vec<u8> = match (primary, service) {
                (Some(pc), Some(sc)) => {
                    let mut c = pc;
                    c.push(NEWLINE);
                    crate::bytes::push_all(&mut c, &sc);
                    c
                },
                (Some(pc), None) => pc,
                (None, Some(sc)) => sc,
                (None, None) => {
                    proof {
                        assert(raw_pkg(raw@[i as int]) == f.package@ && (is_primary(raw@[i as int])
                            || !is_primary(raw@[i as int])));
                        assert(has_kind(raw@, f.package@, true) || has_kind(
                            raw@,
                            f.package@,
                            false,
                        ));
                    }
                    Vec::new()
                },
            };
            let mut stem = crate::bytes::copy_bytes(&f.package);
            if service_mode {
                stem.push(46);
                stem.push(116);
                stem.push(111);
                stem.push(110);
                stem.push(105);
                stem.push(99);
                proof {
                    assert(stem@ =~= f.package@ + service_marker());
                }
            }
            let entry = CanonicalFragment {
                module_name: crate::bytes::copy_bytes(&f.package),
                output_stem: stem,
                content,
            };
            let ghost opre = out@;
            out.push(entry);
            proof {
                assert(canon_view(entry) == recon_entry(raw@, raw_pkg(raw@[i as int]), service_mode));
                assert(canon_views(out@) =~= canon_views(opre).push(canon_view(entry)));
            }
        }
        i = i + 1;
    }
    out
}

/// In the reconciled set the package names are pairwise distinct: each
/// package's entry is emitted only at its first occurrence.
pub proof fn lemma_reconcile_distinct(raw: Seq<RawFragment>, service_mode: bool, i: int)
    requires
        0 <= i <= raw.len(),
    ensures
        forall|a: int, b: int|
            0 <= a < b < spec_reconcile_upto(raw, service_mode, i).len() ==> (
            #[trigger] spec_reconcile_upto(raw, service_mode, i)[a]).0 != (
            #[trigger] spec_reconcile_upto(raw, service_mode, i)[b]).0,
        forall|a: int|
            0 <= a < spec_reconcile_upto(raw, service_mode, i).len() ==> exists|t: int|
                0 <= t < i && raw_pkg(raw[t]) == (#[trigger] spec_reconcile_upto(
                    raw,
                    service_mode,
                    i,
                )[a]).0,
    decreases i,
{
    if i > 0 {
        lemma_reconcile_distinct(raw, service_mode, i - 1);
        let pre = spec_reconcile_upto(raw, service_mode, i - 1);
        let cur = spec_reconcile_upto(raw, service_mode, i);
        if !seen_before(raw, i - 1) {
            assert forall|a: int, b: int| 0 <= a < b < cur.len() implies (#[trigger] cur[a]).0 != (
            #[trigger] cur[b]).0 by {
                if b == cur.len() - 1 {
                    assert(cur[a] == pre[a]);
                    let t = choose|t: int|
                        0 <= t < i - 1 && raw_pkg(raw[t]) == (#[trigger] pre[a]).0;
                    if pre[a].0 == raw_pkg(raw[i - 1]) {
                        assert(seen_before(raw, i - 1));
                    }
                } else {
                    assert(cur[a] == pre[a] && cur[b] == pre[b]);
                }
            }
        }
    }
}

/// Entries already emitted stay where they are, and every package that
/// occurs among the first `i` raw fragments has its entry.
proof fn lemma_reconcile_covers(raw: Seq<RawFragment>, service_mode: bool, i: int)
    requires
        0 <= i <= raw.len(),
    ensures
        forall|t: int|
            0 <= t < i ==> exists|a: int|
                0 <= a < spec_reconcile_upto(raw, service_mode, i).len()
                    && #[trigger] spec_reconcile_upto(raw, service_mode, i)[a] == recon_entry(
                    raw,
                    raw_pkg(#[trigger] raw[t]),
                    service_mode,
                ),
    decreases i,
{
    if i > 0 {
        lemma_reconcile_covers(raw, service_mode, i - 1);
        let pre = spec_reconcile_upto(raw, service_mode, i - 1);
        let cur = spec_reconcile_upto(raw, service_mode, i);
        assert forall|t: int| 0 <= t < i implies exists|a: int|
            0 <= a < cur.len() && #[trigger] cur[a] == recon_entry(
            raw,
            raw_pkg(#[trigger] raw[t]),
            service_mode,
        ) by {
            if t < i - 1 {
                let a = choose|a: int|
                    0 <= a < pre.len() && pre[a] == recon_entry(
                        raw,
                        raw_pkg(raw[t]),
                        service_mode,
                    );
                assert(cur[a] == pre[a]);
            } else {
                if seen_before(raw, i - 1) {
                    let j = choose|j: int| 0 <= j < i - 1 && raw_pkg(#[trigger] raw[j]) == raw_pkg(raw[i - 1]);
                    let a = choose|a: int|
                        0 <= a < pre.len() && pre[a] == recon_entry(
                            raw,
                            raw_pkg(raw[j]),
                            service_mode,
                        );
                    assert(cur[a] == pre[a]);
                    assert(cur[a] == recon_entry(raw, raw_pkg(raw[i - 1]), service_mode));
                } else {
                    assert(cur[cur.len() - 1] == recon_entry(
                        raw,
                        raw_pkg(raw[i - 1]),
                        service_mode,
                    ));
                }
            }
        }
    }
}

/// Reconciliation, summed up: every package that has any fragment gets
/// exactly one canonical fragment, named by the package; a primary-only
/// package keeps its primary content unchanged; a service-only package its
/// service content; a package with both gets the primary content, a newline,
/// then the service content.
pub proof fn lemma_reconcile_canonical(raw: Seq<RawFragment>, service_mode: bool, p: Seq<u8>)
    requires
        one_per_kind(raw),
        exists|t: int| 0 <= t < raw.len() && raw_pkg(#[trigger] raw[t]) == p,
    ensures
        exists|a: int|
            0 <= a < spec_reconcile(raw, service_mode).len() && #[trigger] spec_reconcile(
                raw,
                service_mode,
            )[a] == recon_entry(raw, p, service_mode),
        forall|a: int, b: int|
            0 <= a < b < spec_reconcile(raw, service_mode).len() ==> (#[trigger] spec_reconcile(
                raw,
                service_mode,
            )[a]).0 != (#[trigger] spec_reconcile(raw, service_mode)[b]).0,
        recon_entry(raw, p, service_mode).0 == p,
        has_kind(raw, p, true) && !has_kind(raw, p, false) ==> recon_entry(
            raw,
            p,
            service_mode,
        ).2 == kind_content(raw, p, true),
        !has_kind(raw, p, true) && has_kind(raw, p, false) ==> recon_entry(
            raw,
            p,
            service_mode,
        ).2 == kind_content(raw, p, false),
        has_kind(raw, p, true) && has_kind(raw, p, false) ==> recon_entry(
            raw,
            p,
            service_mode,
        ).2 == kind_content(raw, p, true) + seq![NEWLINE] + kind_content(raw, p, false),
{
    let t = choose|t: int| 0 <= t < raw.len() && raw_pkg(#[trigger] raw[t]) == p;
    lemma_reconcile_covers(raw, service_mode, raw.len() as int);
    lemma_reconcile_distinct(raw, service_mode, raw.len() as int);
    let a = choose|a: int|
        0 <= a < spec_reconcile(raw, service_mode).len() && spec_reconcile(raw, service_mode)[a]
            == recon_entry(raw, raw_pkg(raw[t]), service_mode);
    assert(spec_reconcile(raw, service_mode)[a] == recon_entry(raw, p, service_mode));
}

/// The reconciled set names each package once: its fragments can feed the
/// module-tree builder.
pub proof fn lemma_reconcile_distinct_names(raw: Seq<RawFragment>, service_mode: bool)
    ensures
        forall|a: int, b: int|
            0 <= a < b < spec_reconcile(raw, service_mode).len() ==> (#[trigger] spec_reconcile(
                raw,
                service_mode,
            )[a]).0 != (#[trigger] spec_reconcile(raw, service_mode)[b]).0,
{
    lemma_reconcile_distinct(raw, service_mode, raw.len() as int);
}

/// Whether a discovered file stem carries the service naming marker.
pub open spec fn stem_is_service(stem: Seq<u8>, service_mode: bool) -> bool {
    service_mode && stem.len() >= 6 && stem.skip(stem.len() - 6) == service_marker()
}

/// Classifies a discovered file stem: in service mode a stem ending in the
/// service marker is the service output of the package the rest names; any
/// other stem is the primary output of the package it names whole.
pub fn split_stem(stem: &Vec<u8>, service_mode: bool) -> (r: (Vec<u8>, FragmentKind))
    ensures
        stem_is_service(stem@, service_mode) ==> (r.0@ == stem@.take(stem@.len() - 6) && r.1
            is Service),
        !stem_is_service(stem@, service_mode) ==> (r.0@ == stem@ && r.1 is Primary),
{
    let n = stem.len();
    if service_mode && n >= 6 {
        let tail = crate::bytes::subrange_vec(stem, n - 6, n);
        let mut marker: Vec<u8> = Vec::new();
        marker.push(46);
        marker.push(116);
        marker.push(111);
        marker.push(110);
        marker.push(105);
        marker.push(99);
        proof {
            assert(marker@ =~= service_marker());
            assert(tail@ == stem@.skip(n - 6));
        }
        if eq_bytes(&tail, &marker) {
            let package = crate::bytes::subrange_vec(stem, 0, n - 6);
            proof {
                assert(package@ == stem@.take(stem@.len() - 6));
            }
            return (package, FragmentKind::Service);
        }
    }
    (crate::bytes::copy_bytes(stem), FragmentKind::Primary)
}

} // verus!
