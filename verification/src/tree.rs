//! The module tree: a trie over dotted package-name segments.
//!
//! Each canonical fragment names a dotted package; the tree holds one node per
//! package and per strict prefix of a package, with the fragment's text at the
//! package's node and empty text at pure grouping nodes.  Children are kept
//! sorted by name, so the tree built from a fragment set is canonical: it
//! depends only on which fragments were given, not on their order.

use vstd::prelude::*;
use vstd::multiset::Multiset;

use crate::bytes::lex_lt;
use crate::bytes::lex_lt_bytes;
use crate::bytes::eq_bytes;
use crate::fragment::CanonicalFragment;
use crate::fragment::frag_pair;
use crate::fragment::frag_pairs;
use crate::fragment::pair_order;
use crate::fragment::lemma_pair_order_total;

verus! {

/// The package names of a fragment sequence are pairwise distinct: exactly
/// one canonical fragment per package.
pub open spec fn distinct_names(s: Seq<CanonicalFragment>) -> bool {
    forall|i: int, j: int|
        0 <= i < j < s.len() ==> (#[trigger] s[i]).module_name@ != (#[trigger] s[j]).module_name@
}

/// One level of the output namespace tree.
pub struct ModuleNode {
    /// The path segment this node answers to; empty only at the root.
    pub name: Vec<u8>,
    /// The fragment text attached directly at this node.
    pub content: Vec<u8>,
    /// Child nodes, strictly sorted by name.
    pub children: Vec<ModuleNode>,
}

/// The mathematical shape of a `ModuleNode`.
#[verifier::ext_equal]
pub ghost struct SpecNode {
    pub name: Seq<u8>,
    pub content: Seq<u8>,
    pub children: Seq<SpecNode>,
}

pub open spec fn node_view(n: ModuleNode) -> SpecNode
    decreases n,
{
    SpecNode {
        name: n.name@,
        content: n.content@,
        children: ({
            proof {
                assert(decreases_to!(n => n.children));
                assert(decreases_to!(n.children => n.children@));
            }
            views_of(n.children@)
        }),
    }
}

pub open spec fn views_of(cs: Seq<ModuleNode>) -> Seq<SpecNode>
    decreases cs,
{
    if cs.len() == 0 {
        Seq::empty()
    } else {
        ({
            proof {
                assert(decreases_to!(cs => cs[0]));
            }
            seq![node_view(cs[0])]
        }) + ({
            proof {
                assert(decreases_to!(cs => cs.drop_first()));
            }
            views_of(cs.drop_first())
        })
    }
}

impl View for ModuleNode {
    type V = SpecNode;

    open spec fn view(&self) -> SpecNode {
        node_view(*self)
    }
}

/// Indexing into `views_of` is indexing into the underlying nodes.
pub proof fn lemma_views_of(cs: Seq<ModuleNode>)
    ensures
        views_of(cs).len() == cs.len(),
        forall|i: int| 0 <= i < cs.len() ==> views_of(cs)[i] == node_view(cs[i]),
    decreases cs.len(),
{
    if cs.len() > 0 {
        lemma_views_of(cs.drop_first());
        assert forall|i: int| 0 <= i < cs.len() implies views_of(cs)[i] == node_view(cs[i]) by {
            if i > 0 {
                assert(views_of(cs.drop_first())[i - 1] == node_view(cs.drop_first()[i - 1]));
                assert(cs.drop_first()[i - 1] == cs[i]);
            }
        }
    }
}

/// Children are strictly sorted by name, every child's name is non-empty, and
/// the same holds below.
pub open spec fn node_wf(n: SpecNode) -> bool
    decreases n,
{
    &&& (forall|i: int, j: int|
        0 <= i < j < n.children.len() ==> lex_lt(n.children[i].name, n.children[j].name))
    &&& (forall|i: int| 0 <= i < n.children.len() ==> (#[trigger] n.children[i]).name.len() > 0)
    &&& (forall|i: int| 0 <= i < n.children.len() ==> node_wf(#[trigger] n.children[i]))
}

/// The tree with no fragments in it: a bare root.
pub open spec fn empty_root() -> SpecNode {
    SpecNode { name: Seq::empty(), content: Seq::empty(), children: Seq::empty() }
}

/// A straight line of nodes for the given segments, with `content` at the
/// deepest one and empty content above it.
pub open spec fn chain(path: Seq<Seq<u8>>, content: Seq<u8>) -> SpecNode
    recommends
        path.len() > 0,
    decreases path.len(),
{
    if path.len() <= 1 {
        SpecNode { name: path[0], content, children: Seq::empty() }
    } else {
        SpecNode {
            name: path[0],
            content: Seq::empty(),
            children: seq![chain(path.drop_first(), content)],
        }
    }
}

/// The tree `n` with `content` placed at `path`, every missing node on the
/// way created with empty content, and children kept sorted by name.
pub open spec fn spec_insert(n: SpecNode, path: Seq<Seq<u8>>, content: Seq<u8>) -> SpecNode
    decreases path.len(), n.children.len(), 1int,
{
    if path.len() == 0 {
        SpecNode { name: n.name, content, children: n.children }
    } else {
        SpecNode { name: n.name, content: n.content, children: insert_child(n.children, path, content) }
    }
}

/// `spec_insert`, at the level of a sorted child list.
pub open spec fn insert_child(cs: Seq<SpecNode>, path: Seq<Seq<u8>>, content: Seq<u8>) -> Seq<SpecNode>
    recommends
        path.len() > 0,
    decreases path.len(), cs.len(), 0int,
    when path.len() > 0
{
    if cs.len() == 0 {
        seq![chain(path, content)]
    } else if cs[0].name == path[0] {
        seq![spec_insert(cs[0], path.drop_first(), content)] + cs.drop_first()
    } else if lex_lt(path[0], cs[0].name) {
        seq![chain(path, content)] + cs
    } else {
        seq![cs[0]] + insert_child(cs.drop_first(), path, content)
    }
}

/// Executable counterpart of `chain`.
fn make_chain(segs: &Vec<Vec<u8>>, i: usize, content: &Vec<u8>) -> (n: ModuleNode)
    requires
        i < segs@.len(),
    ensures
        node_view(n) == chain(crate::bytes::byte_views(segs@).skip(i as int), content@),
    decreases segs@.len() - i,
{
    let ghost path = crate::bytes::byte_views(segs@).skip(i as int);
    let count = segs.len();
    let name = crate::bytes::copy_bytes(&segs[i]);
    if i == count - 1 {
        let n = ModuleNode { name, content: crate::bytes::copy_bytes(content), children: Vec::new() };
        proof {
            assert(path.len() == 1);
            assert(path[0] == segs@[i as int]@);
            assert(node_view(n) =~= chain(path, content@));
        }
        n
    } else {
        let child = make_chain(segs, i + 1, content);
        let mut children: Vec<ModuleNode> = Vec::new();
        children.push(child);
        let n = ModuleNode { name, content: Vec::new(), children };
        proof {
            assert(path.len() > 1);
            assert(path[0] == segs@[i as int]@);
            assert(path.drop_first() =~= crate::bytes::byte_views(segs@).skip(i + 1));
            lemma_views_of(n.children@);
            assert(n.children@.len() == 1);
            assert(views_of(n.children@) =~= seq![node_view(child)]);
            assert(node_view(n) =~= chain(path, content@));
        }
        n
    }
}

/// Executable counterpart of `spec_insert`: places `content` at the path
/// `segs[i..]` below `n`.
fn insert_node(n: ModuleNode, segs: &Vec<Vec<u8>>, i: usize, content: &Vec<u8>) -> (r: ModuleNode)
    requires
        i <= segs@.len(),
    ensures
        node_view(r) == spec_insert(
            node_view(n),
            crate::bytes::byte_views(segs@).skip(i as int),
            content@,
        ),
    decreases segs@.len() - i, n.children@.len(), 1int,
{
    let ghost path = crate::bytes::byte_views(segs@).skip(i as int);
    let ModuleNode { name, content: own, children } = n;
    if i == segs.len() {
        proof {
            assert(path.len() == 0);
        }
        let r = ModuleNode { name, content: crate::bytes::copy_bytes(content), children };
        proof {
            assert(node_view(r) =~= spec_insert(node_view(n), path, content@));
        }
        r
    } else {
        let new_children = insert_into_children(children, segs, i, content);
        let r = ModuleNode { name, content: own, children: new_children };
        proof {
            assert(node_view(r) =~= spec_insert(node_view(n), path, content@));
        }
        r
    }
}

/// Executable counterpart of `insert_child`.
fn insert_into_children(
    mut cs: Vec<ModuleNode>,
    segs: &Vec<Vec<u8>>,
    i: usize,
    content: &Vec<u8>,
) -> (r: Vec<ModuleNode>)
    requires
        i < segs@.len(),
    ensures
        views_of(r@) == insert_child(
            views_of(cs@),
            crate::bytes::byte_views(segs@).skip(i as int),
            content@,
        ),
    decreases segs@.len() - i, cs@.len(), 0int,
{
    let ghost path = crate::bytes::byte_views(segs@).skip(i as int);
    let ghost cs0 = cs@;
    proof {
        assert(path[0] == segs@[i as int]@);
    }
    if cs.len() == 0 {
        let mut r: Vec<ModuleNode> = Vec::new();
        r.push(make_chain(segs, i, content));
        proof {
            lemma_views_of(r@);
            lemma_views_of(cs0);
            assert(views_of(r@) =~= seq![node_view(r@[0])]);
            assert(views_of(cs0) =~= Seq::<SpecNode>::empty());
            assert(views_of(r@) =~= insert_child(views_of(cs0), path, content@));
        }
        r
    } else {
        let first = cs.remove(0);
        proof {
            assert(cs0[0] == first);
            assert(cs@ =~= cs0.drop_first());
            lemma_views_of(cs0);
            lemma_views_of(cs@);
            assert(views_of(cs0).drop_first() =~= views_of(cs@));
        }
        if eq_bytes(&first.name, &segs[i]) {
            let count = segs.len();
            proof {
                assert(i < count);
                assert(views_of(cs0)[0] == node_view(first));
                assert(node_view(first).name == path[0]);
                assert(path.drop_first() =~= crate::bytes::byte_views(segs@).skip(i + 1));
            }
            let nf = insert_node(first, segs, i + 1, content);
            cs.insert(0, nf);
            proof {
                lemma_views_of(cs@);
                assert(cs@ =~= seq![nf] + cs0.drop_first());
                assert forall|k: int| 0 <= k < cs@.len() implies views_of(cs@)[k] == (seq![
                    node_view(nf),
                ] + views_of(cs0).drop_first())[k] by {
                    if k > 0 {
                        assert(cs@[k] == cs0.drop_first()[k - 1]);
                        assert(views_of(cs0).drop_first()[k - 1] == views_of(cs0)[k]);
                        assert(views_of(cs0)[k] == node_view(cs0[k]));
                    }
                }
                assert(views_of(cs@) =~= seq![node_view(nf)] + views_of(cs0).drop_first());
                assert(views_of(cs@) =~= insert_child(views_of(cs0), path, content@));
            }
            cs
        } else if lex_lt_bytes(&segs[i], &first.name) {
            cs.insert(0, first);
            let link = make_chain(segs, i, content);
            cs.insert(0, link);
            proof {
                lemma_views_of(cs@);
                assert(cs@ =~= seq![link] + cs0);
                assert forall|k: int| 0 <= k < cs@.len() implies views_of(cs@)[k] == (seq![
                    node_view(link),
                ] + views_of(cs0))[k] by {
                    if k > 0 {
                        assert(cs@[k] == cs0[k - 1]);
                        assert(views_of(cs0)[k - 1] == node_view(cs0[k - 1]));
                    }
                }
                assert(views_of(cs@) =~= seq![node_view(link)] + views_of(cs0));
                assert(views_of(cs@) =~= insert_child(views_of(cs0), path, content@));
            }
            cs
        } else {
            proof {
                assert(node_view(first).name != path[0]);
                assert(!lex_lt(path[0], node_view(first).name));
            }
            let mut rest = insert_into_children(cs, segs, i, content);
            let ghost rest0 = rest@;
            rest.insert(0, first);
            proof {
                lemma_views_of(rest0);
                lemma_views_of(rest@);
                assert(rest@ =~= seq![first] + rest0);
                assert forall|k: int| 0 <= k < rest@.len() implies views_of(rest@)[k] == (seq![
                    node_view(first),
                ] + views_of(rest0))[k] by {
                    if k > 0 {
                        assert(rest@[k] == rest0[k - 1]);
                        assert(views_of(rest0)[k - 1] == node_view(rest0[k - 1]));
                    }
                }
                assert(views_of(rest@) =~= seq![node_view(first)] + views_of(rest0));
                assert(views_of(rest@) =~= insert_child(views_of(cs0), path, content@));
            }
            rest
        }
    }
}

/// The tree that a fragment sequence builds, one insertion per non-empty
/// package name, in sequence order.
pub open spec fn spec_build(frags: Seq<(Seq<u8>, Seq<u8>)>) -> SpecNode
    decreases frags.len(),
{
    if frags.len() == 0 {
        empty_root()
    } else {
        let prev = spec_build(frags.drop_last());
        let f = frags.last();
        if f.0.len() == 0 {
            prev
        } else {
            spec_insert(prev, crate::bytes::split_on(f.0, crate::bytes::DOT), f.1)
        }
    }
}

/// The tree of a fragment set: insertions in canonical (sorted) order, so the
/// result is a function of the set of pairs alone, not of their order.
pub open spec fn sorted_build(frags: Seq<(Seq<u8>, Seq<u8>)>) -> SpecNode {
    spec_build(frags.sort_by(pair_order()))
}

/// Sorts the fragments by package name.  With the names distinct this is the
/// one sorted arrangement of the (package, content) pairs.
fn sort_fragments(work: Vec<CanonicalFragment>) -> (r: Vec<CanonicalFragment>)
    requires
        distinct_names(work@),
    ensures
        frag_pairs(r@) == frag_pairs(work@).sort_by(pair_order()),
{
    broadcast use vstd::seq_lib::group_to_multiset_ensures;
    broadcast use vstd::multiset::group_multiset_axioms;

    let ghost input = work@;
    let mut work = work;
    let mut result: Vec<CanonicalFragment> = Vec::new();
    proof {
        assert(frag_pairs(result@).to_multiset().add(frag_pairs(work@).to_multiset()) =~= frag_pairs(
            input,
        ).to_multiset());
    }
    while work.len() > 0
        invariant
            distinct_names(work@),
            forall|t1: int, t2: int|
                0 <= t1 < t2 < result@.len() ==> lex_lt(
                    (#[trigger] result@[t1]).module_name@,
                    (#[trigger] result@[t2]).module_name@,
                ),
            forall|t: int, u: int|
                0 <= t < result@.len() && 0 <= u < work@.len() ==> lex_lt(
                    (#[trigger] result@[t]).module_name@,
                    (#[trigger] work@[u]).module_name@,
                ),
            frag_pairs(result@).to_multiset().add(frag_pairs(work@).to_multiset())
                == frag_pairs(input).to_multiset(),
        decreases work@.len(),
    {
        let mut m: usize = 0;
        let mut u: usize = 1;
        proof {
            crate::bytes::lemma_lex_irreflexive(work@[0].module_name@);
        }
        while u < work.len()
            invariant
                0 < work@.len(),
                0 <= m < u <= work@.len(),
                forall|t: int|
                    0 <= t < u ==> !lex_lt(
                        (#[trigger] work@[t]).module_name@,
                        work@[m as int].module_name@,
                    ),
            decreases work@.len() - u,
        {
            if lex_lt_bytes(&work[u].module_name, &work[m].module_name) {
                proof {
                    let old_m = m as int;
                    assert forall|t: int| 0 <= t < u + 1 implies !lex_lt(
                        (#[trigger] work@[t]).module_name@,
                        work@[u as int].module_name@,
                    ) by {
                        if t < u && lex_lt(work@[t].module_name@, work@[u as int].module_name@) {
                            crate::bytes::lemma_lex_transitive(
                                work@[t].module_name@,
                                work@[u as int].module_name@,
                                work@[old_m].module_name@,
                            );
                        }
                        if t == u {
                            crate::bytes::lemma_lex_irreflexive(work@[u as int].module_name@);
                        }
                    }
                }
                m = u;
            }
            u = u + 1;
        }
        proof {
            assert forall|t: int| 0 <= t < work@.len() && t != m implies lex_lt(
                work@[m as int].module_name@,
                (#[trigger] work@[t]).module_name@,
            ) by {
                crate::bytes::lemma_lex_connected(
                    work@[m as int].module_name@,
                    work@[t].module_name@,
                );
            }
        }
        let ghost wpre = work@;
        let ghost rpre = result@;
        let f = work.remove(m);
        result.push(f);
        proof {
            let p = frag_pair(f);
            assert(frag_pairs(wpre)[m as int] == p);
            assert(frag_pairs(work@) =~= frag_pairs(wpre).remove(m as int)) by {
                frag_pairs(wpre).remove_ensures(m as int);
                assert(work@ =~= wpre.remove(m as int));
                wpre.remove_ensures(m as int);
            }
            assert(frag_pairs(result@) =~= frag_pairs(rpre).push(p));
            assert(frag_pairs(wpre).contains(p)) by {
                assert(frag_pairs(wpre)[m as int] == p);
            }
            frag_pairs(wpre).to_multiset_ensures();
            vstd::seq_lib::to_multiset_build(frag_pairs(rpre), p);
            vstd::seq_lib::to_multiset_remove(frag_pairs(wpre), m as int);
            assert(frag_pairs(wpre).to_multiset().count(p) > 0);
            assert(frag_pairs(rpre).push(p).to_multiset() =~= frag_pairs(rpre).to_multiset().insert(
                p,
            ));
            assert(frag_pairs(wpre).remove(m as int).to_multiset() =~= frag_pairs(
                wpre,
            ).to_multiset().remove(frag_pairs(wpre)[m as int]));
            assert(frag_pairs(result@).to_multiset() =~= frag_pairs(rpre).to_multiset().insert(p));
            assert(frag_pairs(work@).to_multiset() =~= frag_pairs(wpre).to_multiset().remove(p));
            assert(frag_pairs(result@).to_multiset().add(frag_pairs(work@).to_multiset())
                =~= frag_pairs(input).to_multiset());
        }
    }
    proof {
        lemma_pair_order_total();
        assert(frag_pairs(work@).to_multiset() =~= Multiset::empty());
        assert(frag_pairs(result@).to_multiset() =~= frag_pairs(input).to_multiset());
        frag_pairs(input).lemma_sort_by_ensures(pair_order());
        assert(vstd::relations::sorted_by(frag_pairs(result@), pair_order())) by {
            assert forall|i: int, j: int|
                0 <= i <= j < frag_pairs(result@).len() implies pair_order()(
                frag_pairs(result@)[i],
                frag_pairs(result@)[j],
            ) by {
                if i < j {
                    assert(lex_lt(result@[i].module_name@, result@[j].module_name@));
                }
            }
        }
        vstd::seq_lib::lemma_sorted_unique(
            frag_pairs(result@),
            frag_pairs(input).sort_by(pair_order()),
            pair_order(),
        );
    }
    result
}

/// Builds the module tree of a canonical fragment set: one node per package,
/// one per strict prefix of a package, the fragment's text at its package's
/// node.  The result is the canonical tree of the fragment set: fragments in
/// another order build the same tree.
pub fn build_module_tree(fragments: Vec<CanonicalFragment>) -> (root: ModuleNode)
    requires
        distinct_names(fragments@),
    ensures
        node_view(root) == sorted_build(frag_pairs(fragments@)),
{
    let sorted = sort_fragments(fragments);
    let mut root = ModuleNode { name: Vec::new(), content: Vec::new(), children: Vec::new() };
    proof {
        lemma_views_of(root.children@);
        assert(frag_pairs(sorted@).take(0) =~= Seq::empty());
        assert(node_view(root) =~= spec_build(frag_pairs(sorted@).take(0)));
    }
    let mut k: usize = 0;
    while k < sorted.len()
        invariant
            0 <= k <= sorted@.len(),
            node_view(root) == spec_build(frag_pairs(sorted@).take(k as int)),
        decreases sorted@.len() - k,
    {
        let ghost pairs = frag_pairs(sorted@);
        proof {
            assert(pairs.take(k + 1).drop_last() =~= pairs.take(k as int));
            assert(pairs.take(k + 1).last() == pairs[k as int]);
        }
        let frag = &sorted[k];
        if frag.module_name.len() > 0 {
            let segs = crate::bytes::split_bytes(&frag.module_name, crate::bytes::DOT);
            proof {
                assert(crate::bytes::byte_views(segs@).skip(0) =~= crate::bytes::byte_views(segs@));
            }
            root = insert_node(root, &segs, 0, &frag.content);
        }
        k = k + 1;
    }
    proof {
        assert(frag_pairs(sorted@).take(sorted@.len() as int) =~= frag_pairs(sorted@));
    }
    root
}

/// The child of this name, if any.
pub open spec fn find_child(cs: Seq<SpecNode>, name: Seq<u8>) -> Option<SpecNode>
    decreases cs.len(),
{
    if cs.len() == 0 {
        Option::None
    } else if cs[0].name == name {
        Option::Some(cs[0])
    } else {
        find_child(cs.drop_first(), name)
    }
}

/// The node reached by walking the segments of `q` down from `n`.
pub open spec fn subnode_at(n: SpecNode, q: Seq<Seq<u8>>) -> Option<SpecNode>
    decreases q.len(),
{
    if q.len() == 0 {
        Option::Some(n)
    } else {
        match find_child(n.children, q[0]) {
            Option::Some(c) => subnode_at(c, q.drop_first()),
            Option::None => Option::None,
        }
    }
}

/// A node exists at path `q` below `n`.
pub open spec fn has_path(n: SpecNode, q: Seq<Seq<u8>>) -> bool {
    subnode_at(n, q) is Some
}

/// The content at path `q` below `n`; empty where no node stands.
pub open spec fn content_at(n: SpecNode, q: Seq<Seq<u8>>) -> Seq<u8> {
    match subnode_at(n, q) {
        Option::Some(m) => m.content,
        Option::None => Seq::empty(),
    }
}

/// Every segment of the path is non-empty.
pub open spec fn valid_segments(p: Seq<Seq<u8>>) -> bool {
    forall|i: int| 0 <= i < p.len() ==> (#[trigger] p[i]).len() > 0
}

/// What `find_child` returns: the child of that name where one exists.
proof fn lemma_find_child(cs: Seq<SpecNode>, name: Seq<u8>)
    ensures
        match find_child(cs, name) {
            Option::Some(c) => c.name == name && exists|i: int|
                0 <= i < cs.len() && cs[i] == c,
            Option::None => forall|i: int| 0 <= i < cs.len() ==> (#[trigger] cs[i]).name != name,
        },
    decreases cs.len(),
{
    if cs.len() > 0 && cs[0].name != name {
        lemma_find_child(cs.drop_first(), name);
        let t = cs.drop_first();
        match find_child(cs, name) {
            Option::Some(c) => {
                let i = choose|i: int| 0 <= i < t.len() && t[i] == c;
                assert(cs[i + 1] == c);
            },
            Option::None => {
                assert forall|i: int| 0 <= i < cs.len() implies (#[trigger] cs[i]).name
                    != name by {
                    if i > 0 {
                        assert(t[i - 1] == cs[i]);
                        assert(t[i - 1].name != name);
                    }
                }
            },
        }
    }
}

/// In a sorted child list a name below the first child is absent.
proof fn lemma_find_child_absent(cs: Seq<SpecNode>, name: Seq<u8>)
    requires
        forall|i: int, j: int|
            0 <= i < j < cs.len() ==> lex_lt(cs[i].name, cs[j].name),
        cs.len() > 0,
        lex_lt(name, cs[0].name),
    ensures
        find_child(cs, name) is None,
{
    lemma_find_child(cs, name);
    if find_child(cs, name) is Some {
        let c = find_child(cs, name)->Some_0;
        let i = choose|i: int| 0 <= i < cs.len() && cs[i] == c;
        if i == 0 {
            crate::bytes::lemma_lex_asymmetric(name, cs[0].name);
        } else {
            crate::bytes::lemma_lex_transitive(name, cs[0].name, cs[i].name);
            crate::bytes::lemma_lex_irreflexive(name);
        }
    }
}

/// The paths and contents below a fresh chain: exactly the prefixes of its
/// remaining segments, all empty but the deepest, which holds the content.
proof fn lemma_chain_model(path: Seq<Seq<u8>>, c: Seq<u8>, q: Seq<Seq<u8>>)
    requires
        path.len() > 0,
    ensures
        has_path(chain(path, c), q) <==> q.is_prefix_of(path.drop_first()),
        content_at(chain(path, c), q) == if q =~= path.drop_first() {
            c
        } else {
            Seq::<u8>::empty()
        },
    decreases path.len(), q.len(),
{
    let n = chain(path, c);
    let pd = path.drop_first();
    if q.len() == 0 {
        assert(q.is_prefix_of(pd));
        if path.len() <= 1 {
            assert(pd =~= q);
            assert(content_at(n, q) == c);
        } else {
            assert(pd.len() > 0);
            assert(!(q =~= pd));
            assert(content_at(n, q) == Seq::<u8>::empty());
        }
    } else {
        if path.len() <= 1 {
            assert(n.children.len() == 0);
            assert(find_child(n.children, q[0]) is None);
            assert(!has_path(n, q));
            assert(pd.len() == 0);
            assert(!q.is_prefix_of(pd));
            assert(!(q =~= pd));
        } else {
            let sub = chain(pd, c);
            assert(n.children =~= seq![sub]);
            if q[0] == sub.name {
                assert(find_child(n.children, q[0]) == Option::Some(sub));
                lemma_chain_model(pd, c, q.drop_first());
                assert(subnode_at(n, q) == subnode_at(sub, q.drop_first()));
                assert(sub.name == pd[0]);
                assert(q.is_prefix_of(pd) <==> q.drop_first().is_prefix_of(pd.drop_first())) by {
                    if q.drop_first().is_prefix_of(pd.drop_first()) {
                        assert(q.len() <= pd.len());
                        assert forall|t: int| 0 <= t < q.len() implies q[t] == pd[t] by {
                            if t > 0 {
                                assert(q.drop_first()[t - 1] == pd.drop_first()[t - 1]);
                            }
                        }
                        assert(q =~= pd.take(q.len() as int));
                    }
                    if q.is_prefix_of(pd) {
                        assert(q =~= pd.take(q.len() as int));
                        assert forall|t: int|
                            0 <= t < q.drop_first().len() implies q.drop_first()[t]
                            == pd.drop_first()[t] by {
                            assert(q[t + 1] == pd.take(q.len() as int)[t + 1]);
                        }
                        assert(q.drop_first() =~= pd.drop_first().take(q.drop_first().len() as int));
                    }
                }
                assert((q =~= pd) <==> (q.drop_first() =~= pd.drop_first())) by {
                    if q.drop_first() =~= pd.drop_first() && q.len() == pd.len() {
                        assert forall|t: int| 0 <= t < q.len() implies q[t] == pd[t] by {
                            if t > 0 {
                                assert(q.drop_first()[t - 1] == pd.drop_first()[t - 1]);
                            }
                        }
                        assert(q =~= pd);
                    }
                    if q.len() != pd.len() {
                        assert(!(q =~= pd));
                    }
                }
            } else {
                assert(n.children[0] == sub);
                assert(n.children[0].name != q[0]);
                assert(n.children.drop_first() =~= Seq::<SpecNode>::empty());
                assert(find_child(n.children.drop_first(), q[0]) is None);
                assert(find_child(n.children, q[0]) is None);
                assert(!has_path(n, q));
                assert(!q.is_prefix_of(pd)) by {
                    if q.is_prefix_of(pd) {
                        assert(q =~= pd.take(q.len() as int));
                        assert(q[0] == pd[0]);
                    }
                }
                assert(!(q =~= pd)) by {
                    if q =~= pd {
                        assert(q[0] == pd[0]);
                    }
                }
            }
        }
    }
}

/// Names in a child list are strictly sorted.
pub open spec fn sorted_children(cs: Seq<SpecNode>) -> bool {
    forall|i: int, j: int| 0 <= i < j < cs.len() ==> lex_lt(cs[i].name, cs[j].name)
}

/// A fresh chain is well-formed and answers to the first segment.
proof fn lemma_chain_wf(path: Seq<Seq<u8>>, c: Seq<u8>)
    requires
        path.len() > 0,
        valid_segments(path),
    ensures
        node_wf(chain(path, c)),
        chain(path, c).name == path[0],
    decreases path.len(),
{
    if path.len() > 1 {
        assert(valid_segments(path.drop_first())) by {
            assert forall|i: int|
                0 <= i < path.drop_first().len() implies (#[trigger] path.drop_first()[i]).len()
                > 0 by {
                assert(path.drop_first()[i] == path[i + 1]);
            }
        }
        lemma_chain_wf(path.drop_first(), c);
        let n = chain(path, c);
        assert(n.children.len() == 1);
        assert(n.children[0] == chain(path.drop_first(), c));
        assert(n.children[0].name.len() > 0);
    }
}

/// How a child lookup reads through an insertion: the inserted path's head
/// answers with the updated or fresh child, every other name as before.
proof fn lemma_find_child_insert(cs: Seq<SpecNode>, path: Seq<Seq<u8>>, c: Seq<u8>, name: Seq<u8>)
    requires
        path.len() > 0,
        valid_segments(path),
        sorted_children(cs),
    ensures
        name == path[0] ==> find_child(insert_child(cs, path, c), name) == (match find_child(
            cs,
            path[0],
        ) {
            Option::Some(ch) => Option::Some(spec_insert(ch, path.drop_first(), c)),
            Option::None => Option::Some(chain(path, c)),
        }),
        name != path[0] ==> find_child(insert_child(cs, path, c), name) == find_child(cs, name),
    decreases cs.len(),
{
    let r = insert_child(cs, path, c);
    lemma_chain_wf(path, c);
    if cs.len() == 0 {
        assert(r =~= seq![chain(path, c)]);
        assert(r[0].name == path[0]);
        if name == path[0] {
            assert(find_child(r, name) == Option::Some(chain(path, c)));
        } else {
            assert(r.drop_first() =~= Seq::<SpecNode>::empty());
            assert(find_child(r.drop_first(), name) is None);
            assert(find_child(r, name) is None);
        }
    } else if cs[0].name == path[0] {
        let upd = spec_insert(cs[0], path.drop_first(), c);
        assert(upd.name == cs[0].name);
        assert(r =~= seq![upd] + cs.drop_first());
        assert(r[0] == upd);
        assert(r.drop_first() =~= cs.drop_first());
        if name == path[0] {
            assert(find_child(cs, path[0]) == Option::Some(cs[0]));
            assert(find_child(r, name) == Option::Some(upd));
        } else {
            assert(find_child(r, name) == find_child(cs.drop_first(), name));
            assert(find_child(cs, name) == find_child(cs.drop_first(), name));
        }
    } else if lex_lt(path[0], cs[0].name) {
        assert(r =~= seq![chain(path, c)] + cs);
        assert(r[0] == chain(path, c));
        assert(r[0].name == path[0]);
        assert(r.drop_first() =~= cs);
        if name == path[0] {
            assert(find_child(r, name) == Option::Some(chain(path, c)));
            lemma_find_child_absent(cs, path[0]);
        } else {
            assert(find_child(r, name) == find_child(cs, name));
        }
    } else {
        crate::bytes::lemma_lex_connected(path[0], cs[0].name);
        assert(lex_lt(cs[0].name, path[0]));
        let tailins = insert_child(cs.drop_first(), path, c);
        assert(r =~= seq![cs[0]] + tailins);
        assert(r[0] == cs[0]);
        assert(r.drop_first() =~= tailins);
        assert(sorted_children(cs.drop_first())) by {
            assert forall|i: int, j: int|
                0 <= i < j < cs.drop_first().len() implies lex_lt(
                cs.drop_first()[i].name,
                cs.drop_first()[j].name,
            ) by {
                assert(cs.drop_first()[i] == cs[i + 1]);
                assert(cs.drop_first()[j] == cs[j + 1]);
            }
        }
        lemma_find_child_insert(cs.drop_first(), path, c, name);
        if name == path[0] {
            assert(cs[0].name != name);
            assert(find_child(r, name) == find_child(tailins, name));
            assert(find_child(cs, name) == find_child(cs.drop_first(), name));
        } else if name == cs[0].name {
            assert(find_child(r, name) == Option::Some(cs[0]));
            assert(find_child(cs, name) == Option::Some(cs[0]));
        } else {
            assert(find_child(r, name) == find_child(tailins, name));
            assert(find_child(cs, name) == find_child(cs.drop_first(), name));
        }
    }
}

/// Every name in an inserted child list is the inserted head segment or a
/// name that was already there.
proof fn lemma_insert_child_names(cs: Seq<SpecNode>, path: Seq<Seq<u8>>, c: Seq<u8>)
    requires
        path.len() > 0,
    ensures
        forall|k: int|
            0 <= k < insert_child(cs, path, c).len() ==> ((#[trigger] insert_child(cs, path, c)[k]).name
                == path[0] || exists|i: int|
                0 <= i < cs.len() && cs[i].name == insert_child(cs, path, c)[k].name),
    decreases cs.len(),
{
    let r = insert_child(cs, path, c);
    if cs.len() == 0 {
        assert(r =~= seq![chain(path, c)]);
        assert(r[0].name == path[0]);
    } else if cs[0].name == path[0] {
        assert(r =~= seq![spec_insert(cs[0], path.drop_first(), c)] + cs.drop_first());
        assert forall|k: int| 0 <= k < r.len() implies ((#[trigger] r[k]).name == path[0] || exists|
            i: int,
        | 0 <= i < cs.len() && cs[i].name == r[k].name) by {
            if k == 0 {
                assert(r[0].name == cs[0].name);
            } else {
                assert(r[k] == cs[k]);
                assert(cs[k].name == r[k].name);
            }
        }
    } else if lex_lt(path[0], cs[0].name) {
        assert(r =~= seq![chain(path, c)] + cs);
        assert forall|k: int| 0 <= k < r.len() implies ((#[trigger] r[k]).name == path[0] || exists|
            i: int,
        | 0 <= i < cs.len() && cs[i].name == r[k].name) by {
            if k == 0 {
                assert(r[0].name == path[0]);
            } else {
                assert(r[k] == cs[k - 1]);
                assert(cs[k - 1].name == r[k].name);
            }
        }
    } else {
        lemma_insert_child_names(cs.drop_first(), path, c);
        let tailins = insert_child(cs.drop_first(), path, c);
        assert(r =~= seq![cs[0]] + tailins);
        assert forall|k: int| 0 <= k < r.len() implies ((#[trigger] r[k]).name == path[0] || exists|
            i: int,
        | 0 <= i < cs.len() && cs[i].name == r[k].name) by {
            if k == 0 {
                assert(cs[0].name == r[0].name);
            } else {
                assert(r[k] == tailins[k - 1]);
                if tailins[k - 1].name != path[0] {
                    let i = choose|i: int|
                        0 <= i < cs.drop_first().len() && cs.drop_first()[i].name == tailins[k
                            - 1].name;
                    assert(cs[i + 1].name == r[k].name);
                }
            }
        }
    }
}

/// Insertion keeps the tree well-formed.
proof fn lemma_insert_wf(n: SpecNode, path: Seq<Seq<u8>>, c: Seq<u8>)
    requires
        node_wf(n),
        path.len() > 0,
        valid_segments(path),
    ensures
        node_wf(spec_insert(n, path, c)),
        spec_insert(n, path, c).name == n.name,
        spec_insert(n, path, c).content == n.content,
    decreases path.len(), n.children.len(),
{
    let cs = n.children;
    let r = insert_child(cs, path, c);
    lemma_chain_wf(path, c);
    lemma_insert_child_wf(cs, path, c);
    assert(node_wf(spec_insert(n, path, c)));
}

/// Insertion keeps a child list well-formed.
proof fn lemma_insert_child_wf(cs: Seq<SpecNode>, path: Seq<Seq<u8>>, c: Seq<u8>)
    requires
        sorted_children(cs),
        forall|i: int| 0 <= i < cs.len() ==> (#[trigger] cs[i]).name.len() > 0,
        forall|i: int| 0 <= i < cs.len() ==> node_wf(#[trigger] cs[i]),
        path.len() > 0,
        valid_segments(path),
    ensures
        sorted_children(insert_child(cs, path, c)),
        forall|i: int|
            0 <= i < insert_child(cs, path, c).len() ==> (#[trigger] insert_child(cs, path, c)[i]).name.len()
                > 0,
        forall|i: int|
            0 <= i < insert_child(cs, path, c).len() ==> node_wf(
                #[trigger] insert_child(cs, path, c)[i],
            ),
    decreases path.len(), cs.len(),
{
    let r = insert_child(cs, path, c);
    lemma_chain_wf(path, c);
    if cs.len() == 0 {
        assert(r =~= seq![chain(path, c)]);
    } else if cs[0].name == path[0] {
        let pd = path.drop_first();
        if pd.len() == 0 {
            assert(spec_insert(cs[0], pd, c).children == cs[0].children);
            assert(node_wf(spec_insert(cs[0], pd, c)));
        } else {
            assert(valid_segments(pd)) by {
                assert forall|i: int| 0 <= i < pd.len() implies (#[trigger] pd[i]).len() > 0 by {
                    assert(pd[i] == path[i + 1]);
                }
            }
            lemma_insert_child_wf(cs[0].children, pd, c);
            assert(node_wf(spec_insert(cs[0], pd, c)));
        }
        let upd = spec_insert(cs[0], pd, c);
        assert(r =~= seq![upd] + cs.drop_first());
        assert forall|i: int, j: int| 0 <= i < j < r.len() implies lex_lt(
            r[i].name,
            r[j].name,
        ) by {
            if i == 0 {
                assert(r[j] == cs[j]);
            } else {
                assert(r[i] == cs[i] && r[j] == cs[j]);
            }
        }
    } else if lex_lt(path[0], cs[0].name) {
        assert(r =~= seq![chain(path, c)] + cs);
        assert forall|i: int, j: int| 0 <= i < j < r.len() implies lex_lt(
            r[i].name,
            r[j].name,
        ) by {
            if i == 0 {
                assert(r[j] == cs[j - 1]);
                if j > 1 {
                    crate::bytes::lemma_lex_transitive(path[0], cs[0].name, cs[j - 1].name);
                }
            } else {
                assert(r[i] == cs[i - 1] && r[j] == cs[j - 1]);
            }
        }
    } else {
        crate::bytes::lemma_lex_connected(path[0], cs[0].name);
        assert(lex_lt(cs[0].name, path[0]));
        assert(sorted_children(cs.drop_first())) by {
            assert forall|i: int, j: int|
                0 <= i < j < cs.drop_first().len() implies lex_lt(
                cs.drop_first()[i].name,
                cs.drop_first()[j].name,
            ) by {
                assert(cs.drop_first()[i] == cs[i + 1]);
                assert(cs.drop_first()[j] == cs[j + 1]);
            }
        }
        assert(forall|i: int|
            0 <= i < cs.drop_first().len() ==> (#[trigger] cs.drop_first()[i]).name.len() > 0);
        assert(forall|i: int|
            0 <= i < cs.drop_first().len() ==> node_wf(#[trigger] cs.drop_first()[i]));
        lemma_insert_child_wf(cs.drop_first(), path, c);
        lemma_insert_child_names(cs.drop_first(), path, c);
        let tailins = insert_child(cs.drop_first(), path, c);
        assert(r =~= seq![cs[0]] + tailins);
        assert forall|i: int, j: int| 0 <= i < j < r.len() implies lex_lt(
            r[i].name,
            r[j].name,
        ) by {
            if i == 0 {
                assert(r[j] == tailins[j - 1]);
                if tailins[j - 1].name == path[0] {
                } else {
                    let w = choose|w: int|
                        0 <= w < cs.drop_first().len() && cs.drop_first()[w].name == tailins[j
                            - 1].name;
                    assert(cs.drop_first()[w] == cs[w + 1]);
                    assert(lex_lt(cs[0].name, cs[w + 1].name));
                }
            } else {
                assert(r[i] == tailins[i - 1] && r[j] == tailins[j - 1]);
            }
        }
    }
}

/// A shared first segment reduces prefix and equality questions to the rest.
proof fn lemma_prefix_step(q: Seq<Seq<u8>>, p: Seq<Seq<u8>>)
    requires
        q.len() > 0,
        p.len() > 0,
        q[0] == p[0],
    ensures
        q.is_prefix_of(p) <==> q.drop_first().is_prefix_of(p.drop_first()),
        (q == p) <==> (q.drop_first() == p.drop_first()),
{
    let qd = q.drop_first();
    let pd = p.drop_first();
    if qd.is_prefix_of(pd) {
        assert(q.len() <= p.len());
        assert forall|t: int| 0 <= t < q.len() implies q[t] == p.take(q.len() as int)[t] by {
            if t > 0 {
                assert(qd[t - 1] == pd.take(qd.len() as int)[t - 1]);
            }
        }
        assert(q =~= p.take(q.len() as int));
    }
    if q.is_prefix_of(p) {
        assert forall|t: int| 0 <= t < qd.len() implies qd[t] == pd.take(qd.len() as int)[t] by {
            assert(q[t + 1] == p.take(q.len() as int)[t + 1]);
        }
        assert(qd =~= pd.take(qd.len() as int));
    }
    if qd == pd {
        assert forall|t: int| 0 <= t < q.len() implies q[t] == p[t] by {
            if t > 0 {
                assert(qd[t - 1] == pd[t - 1]);
            }
        }
        assert(q =~= p);
    }
    if q == p {
        assert(qd =~= pd);
    }
}

/// Different first segments: no prefix, no equality.
proof fn lemma_prefix_mismatch(q: Seq<Seq<u8>>, p: Seq<Seq<u8>>)
    requires
        q.len() > 0,
        p.len() > 0,
        q[0] != p[0],
    ensures
        !q.is_prefix_of(p),
        q != p,
{
    if q.is_prefix_of(p) {
        assert(q[0] == p.take(q.len() as int)[0]);
    }
}

/// The segments after the first of a valid path are valid.
proof fn lemma_valid_drop(p: Seq<Seq<u8>>)
    requires
        valid_segments(p),
        p.len() > 0,
    ensures
        valid_segments(p.drop_first()),
{
    assert forall|i: int|
        0 <= i < p.drop_first().len() implies (#[trigger] p.drop_first()[i]).len() > 0 by {
        assert(p.drop_first()[i] == p[i + 1]);
    }
}

/// How one insertion changes the path map: afterwards a path leads to a node
/// exactly when it did before or lies along the inserted path, and only the
/// inserted path's own content changes, to the inserted content.
proof fn lemma_insert_model(n: SpecNode, path: Seq<Seq<u8>>, c: Seq<u8>, q: Seq<Seq<u8>>)
    requires
        node_wf(n),
        path.len() > 0,
        valid_segments(path),
    ensures
        has_path(spec_insert(n, path, c), q) <==> (has_path(n, q) || q.is_prefix_of(path)),
        content_at(spec_insert(n, path, c), q) == if q == path {
            c
        } else {
            content_at(n, q)
        },
    decreases path.len(), q.len(),
{
    let ins = spec_insert(n, path, c);
    assert(ins.children == insert_child(n.children, path, c));
    if q.len() == 0 {
        assert(has_path(ins, q) && has_path(n, q));
        assert(q != path);
        assert(content_at(ins, q) == ins.content);
        assert(ins.content == n.content);
    } else {
        lemma_find_child_insert(n.children, path, c, q[0]);
        lemma_find_child(n.children, q[0]);
        let qd = q.drop_first();
        if q[0] == path[0] {
            lemma_prefix_step(q, path);
            let pd = path.drop_first();
            match find_child(n.children, path[0]) {
                Option::Some(ch) => {
                    assert(node_wf(ch)) by {
                        let i = choose|i: int| 0 <= i < n.children.len() && n.children[i] == ch;
                        assert(node_wf(n.children[i]));
                    }
                    let upd = spec_insert(ch, pd, c);
                    assert(find_child(ins.children, q[0]) == Option::Some(upd));
                    assert(subnode_at(ins, q) == subnode_at(upd, qd));
                    assert(subnode_at(n, q) == subnode_at(ch, qd));
                    if pd.len() == 0 {
                        assert(upd.children == ch.children);
                        assert(upd.content == c);
                        if qd.len() == 0 {
                            assert(q == path);
                            assert(subnode_at(upd, qd) == Option::Some(upd));
                            assert(content_at(ins, q) == c);
                            assert(has_path(ins, q) && q.is_prefix_of(path));
                        } else {
                            assert(subnode_at(upd, qd) == subnode_at(ch, qd)) by {
                                assert(subnode_at(upd, qd) == (match find_child(
                                    upd.children,
                                    qd[0],
                                ) {
                                    Option::Some(cc) => subnode_at(cc, qd.drop_first()),
                                    Option::None => Option::None::<SpecNode>,
                                }));
                                assert(subnode_at(ch, qd) == (match find_child(
                                    ch.children,
                                    qd[0],
                                ) {
                                    Option::Some(cc) => subnode_at(cc, qd.drop_first()),
                                    Option::None => Option::None::<SpecNode>,
                                }));
                            }
                            assert(!qd.is_prefix_of(pd));
                            assert(q != path);
                        }
                    } else {
                        lemma_valid_drop(path);
                        lemma_insert_model(ch, pd, c, qd);
                    }
                },
                Option::None => {
                    assert(find_child(ins.children, q[0]) == Option::Some(chain(path, c)));
                    assert(subnode_at(ins, q) == subnode_at(chain(path, c), qd));
                    lemma_chain_model(path, c, qd);
                    assert(subnode_at(n, q) is None);
                    assert(!has_path(n, q));
                    if qd =~= pd {
                        assert(q == path);
                        assert(content_at(ins, q) == c);
                    } else {
                        assert(q != path);
                        assert(content_at(ins, q) == Seq::<u8>::empty());
                        assert(content_at(n, q) == Seq::<u8>::empty());
                    }
                },
            }
        } else {
            lemma_prefix_mismatch(q, path);
            assert(find_child(ins.children, q[0]) == find_child(n.children, q[0]));
            assert(subnode_at(ins, q) == subnode_at(n, q)) by {
                assert(subnode_at(ins, q) == (match find_child(ins.children, q[0]) {
                    Option::Some(cc) => subnode_at(cc, qd),
                    Option::None => Option::None::<SpecNode>,
                }));
                assert(subnode_at(n, q) == (match find_child(n.children, q[0]) {
                    Option::Some(cc) => subnode_at(cc, qd),
                    Option::None => Option::None::<SpecNode>,
                }));
            }
        }
    }
}

/// The dotted name's segments: what the builder keys a fragment's node by.
pub open spec fn frag_path(name: Seq<u8>) -> Seq<Seq<u8>> {
    crate::bytes::split_on(name, crate::bytes::DOT)
}

/// A usable package name: splitting on dots yields no empty segment.
pub open spec fn valid_name(name: Seq<u8>) -> bool {
    valid_segments(frag_path(name))
}

/// Splitting always yields at least one piece.
proof fn lemma_split_nonempty(s: Seq<u8>, sep: u8)
    ensures
        crate::bytes::split_on(s, sep).len() > 0,
{
}

/// The full map of the built tree: a non-empty path has a node exactly when
/// it lies along some fragment's package path; a fragment's own path holds
/// its content, every other path holds nothing; the root is bare; the tree
/// is well-formed.
proof fn lemma_build_model(frags: Seq<(Seq<u8>, Seq<u8>)>, q: Seq<Seq<u8>>)
    requires
        forall|i: int|
            0 <= i < frags.len() ==> ((#[trigger] frags[i]).0.len() > 0 ==> valid_name(
                frags[i].0,
            )),
        forall|i: int, j: int|
            0 <= i < frags.len() && 0 <= j < frags.len() && (#[trigger] frags[i]).0.len() > 0 && (
            #[trigger] frags[j]).0.len() > 0 && frag_path(frags[i].0) == frag_path(frags[j].0)
                ==> frags[i].1 == frags[j].1,
        q.len() > 0,
    ensures
        node_wf(spec_build(frags)),
        spec_build(frags).name == Seq::<u8>::empty(),
        spec_build(frags).content == Seq::<u8>::empty(),
        has_path(spec_build(frags), q) <==> exists|i: int|
            0 <= i < frags.len() && (#[trigger] frags[i]).0.len() > 0 && q.is_prefix_of(
                frag_path(frags[i].0),
            ),
        forall|i: int|
            0 <= i < frags.len() && (#[trigger] frags[i]).0.len() > 0 && frag_path(frags[i].0)
                == q ==> content_at(spec_build(frags), q) == frags[i].1,
        (forall|i: int|
            0 <= i < frags.len() ==> !((#[trigger] frags[i]).0.len() > 0 && frag_path(frags[i].0)
                == q)) ==> content_at(spec_build(frags), q) == Seq::<u8>::empty(),
    decreases frags.len(),
{
    if frags.len() == 0 {
        assert(subnode_at(spec_build(frags), q) is None);
    } else {
        let pre = frags.drop_last();
        let f = frags.last();
        lemma_build_model(pre, q);
        let prev = spec_build(pre);
        assert(forall|i: int| 0 <= i < pre.len() ==> pre[i] == frags[i]);
        if f.0.len() == 0 {
            assert(spec_build(frags) == prev);
            assert(has_path(prev, q) <==> exists|i: int|
                0 <= i < frags.len() && (#[trigger] frags[i]).0.len() > 0 && q.is_prefix_of(
                    frag_path(frags[i].0),
                )) by {
                if exists|i: int|
                    0 <= i < frags.len() && (#[trigger] frags[i]).0.len() > 0 && q.is_prefix_of(
                        frag_path(frags[i].0),
                    ) {
                    let i = choose|i: int|
                        0 <= i < frags.len() && (#[trigger] frags[i]).0.len() > 0
                            && q.is_prefix_of(frag_path(frags[i].0));
                    assert(i < pre.len() && pre[i] == frags[i]);
                }
            }
        } else {
            let fp = frag_path(f.0);
            lemma_split_nonempty(f.0, crate::bytes::DOT);
            assert(valid_segments(fp)) by {
                assert(frags[frags.len() - 1] == f);
            }
            assert(spec_build(frags) == spec_insert(prev, fp, f.1));
            lemma_insert_wf(prev, fp, f.1);
            lemma_insert_model(prev, fp, f.1, q);
            let cur = spec_build(frags);
            assert(has_path(cur, q) <==> exists|i: int|
                0 <= i < frags.len() && (#[trigger] frags[i]).0.len() > 0 && q.is_prefix_of(
                    frag_path(frags[i].0),
                )) by {
                if has_path(cur, q) {
                    if has_path(prev, q) {
                        let i = choose|i: int|
                            0 <= i < pre.len() && (#[trigger] pre[i]).0.len() > 0
                                && q.is_prefix_of(frag_path(pre[i].0));
                        assert(frags[i].0.len() > 0 && q.is_prefix_of(frag_path(frags[i].0)));
                    } else {
                        assert(frags[frags.len() - 1].0.len() > 0 && q.is_prefix_of(
                            frag_path(frags[frags.len() - 1].0),
                        ));
                    }
                }
                if exists|i: int|
                    0 <= i < frags.len() && (#[trigger] frags[i]).0.len() > 0 && q.is_prefix_of(
                        frag_path(frags[i].0),
                    ) {
                    let i = choose|i: int|
                        0 <= i < frags.len() && (#[trigger] frags[i]).0.len() > 0
                            && q.is_prefix_of(frag_path(frags[i].0));
                    if i < pre.len() {
                        assert(pre[i].0.len() > 0 && q.is_prefix_of(frag_path(pre[i].0)));
                        assert(has_path(prev, q));
                    } else {
                        assert(q.is_prefix_of(fp));
                    }
                    assert(has_path(cur, q));
                }
            }
            assert forall|i: int|
                0 <= i < frags.len() && (#[trigger] frags[i]).0.len() > 0 && frag_path(
                    frags[i].0,
                ) == q implies content_at(cur, q) == frags[i].1 by {
                if i < frags.len() - 1 {
                    assert(pre[i].0.len() > 0 && frag_path(pre[i].0) == q);
                    if q == fp {
                        assert(frags[frags.len() - 1] == f);
                        assert(frags[i].1 == f.1);
                        assert(content_at(cur, q) == f.1);
                    } else {
                        assert(content_at(cur, q) == content_at(prev, q));
                    }
                } else {
                    assert(frags[frags.len() - 1] == f);
                    assert(q == fp);
                    assert(content_at(cur, q) == f.1);
                }
            }
            if forall|i: int|
                0 <= i < frags.len() ==> !((#[trigger] frags[i]).0.len() > 0 && frag_path(
                    frags[i].0,
                ) == q) {
                assert(!(f.0.len() > 0 && frag_path(f.0) == q)) by {
                    assert(frags[frags.len() - 1] == f);
                }
                assert(q != fp);
                assert forall|i: int|
                    0 <= i < pre.len() implies !((#[trigger] pre[i]).0.len() > 0 && frag_path(
                    pre[i].0,
                ) == q) by {
                    assert(pre[i] == frags[i]);
                }
                assert(content_at(cur, q) == content_at(prev, q));
            }
        }
    }
}

/// Splitting is injective: texts that split alike are alike.
proof fn lemma_split_injective(a: Seq<u8>, b: Seq<u8>, sep: u8)
    requires
        crate::bytes::split_on(a, sep) == crate::bytes::split_on(b, sep),
    ensures
        a == b,
    decreases a.len(),
{
    let ra = crate::bytes::find_first(a, sep);
    let rb = crate::bytes::find_first(b, sep);
    crate::bytes::lemma_find_first(a, sep);
    crate::bytes::lemma_find_first(b, sep);
    let sa = crate::bytes::split_on(a, sep);
    let sb = crate::bytes::split_on(b, sep);
    if ra < 0 && rb < 0 {
        assert(sa[0] == a && sb[0] == b);
        assert(a == b);
    } else if ra < 0 {
        lemma_split_nonempty(b.skip(rb + 1), sep);
        assert(sa.len() == 1);
        assert(sb.len() >= 2);
    } else if rb < 0 {
        lemma_split_nonempty(a.skip(ra + 1), sep);
        assert(sb.len() == 1);
        assert(sa.len() >= 2);
    } else {
        assert(sa[0] == a.take(ra));
        assert(sb[0] == b.take(rb));
        assert(a.take(ra).len() == ra && b.take(rb).len() == rb);
        assert(ra == rb);
        assert(sa.drop_first() =~= crate::bytes::split_on(a.skip(ra + 1), sep));
        assert(sb.drop_first() =~= crate::bytes::split_on(b.skip(rb + 1), sep));
        lemma_split_injective(a.skip(ra + 1), b.skip(rb + 1), sep);
        assert forall|t: int| 0 <= t < a.len() implies a[t] == b[t] by {
            if t < ra {
                assert(a.take(ra)[t] == a[t]);
                assert(b.take(rb)[t] == b[t]);
            } else if t > ra {
                assert(a.skip(ra + 1)[t - ra - 1] == a[t]);
                assert(b.skip(rb + 1)[t - ra - 1] == b[t]);
            }
        }
        assert(a.len() == ra + 1 + a.skip(ra + 1).len());
        assert(b.len() == rb + 1 + b.skip(rb + 1).len());
        assert(a =~= b);
    }
}

/// Fragment package names are pairwise distinct where non-empty.
pub open spec fn distinct_pair_names(frags: Seq<(Seq<u8>, Seq<u8>)>) -> bool {
    forall|i: int, j: int|
        0 <= i < j < frags.len() && (#[trigger] frags[i]).0.len() > 0 && (
        #[trigger] frags[j]).0.len() > 0 ==> frags[i].0 != frags[j].0
}

/// Every fragment's package name splits into non-empty segments.
pub open spec fn valid_pair_names(frags: Seq<(Seq<u8>, Seq<u8>)>) -> bool {
    forall|i: int|
        0 <= i < frags.len() ==> ((#[trigger] frags[i]).0.len() > 0 ==> valid_name(frags[i].0))
}

/// The map of the canonical tree of a fragment set, stated over the set as
/// given: a non-empty path has a node exactly when it lies along some
/// fragment's package path (no spurious nodes); a fragment's path holds its
/// content; a path that is no fragment's own (a pure grouping ancestor)
/// holds nothing; the root is bare and the whole tree well-formed.
pub proof fn lemma_sorted_build_model(frags: Seq<(Seq<u8>, Seq<u8>)>, q: Seq<Seq<u8>>)
    requires
        valid_pair_names(frags),
        distinct_pair_names(frags),
        q.len() > 0,
    ensures
        node_wf(sorted_build(frags)),
        sorted_build(frags).name == Seq::<u8>::empty(),
        sorted_build(frags).content == Seq::<u8>::empty(),
        has_path(sorted_build(frags), q) <==> exists|i: int|
            0 <= i < frags.len() && (#[trigger] frags[i]).0.len() > 0 && q.is_prefix_of(
                frag_path(frags[i].0),
            ),
        forall|i: int|
            0 <= i < frags.len() && (#[trigger] frags[i]).0.len() > 0 && frag_path(frags[i].0)
                == q ==> content_at(sorted_build(frags), q) == frags[i].1,
        (forall|i: int|
            0 <= i < frags.len() ==> !((#[trigger] frags[i]).0.len() > 0 && frag_path(frags[i].0)
                == q)) ==> content_at(sorted_build(frags), q) == Seq::<u8>::empty(),
{
    let sorted = frags.sort_by(pair_order());
    lemma_pair_order_total();
    frags.lemma_sort_by_ensures(pair_order());
    frags.to_multiset_ensures();
    sorted.to_multiset_ensures();
    assert forall|x: (Seq<u8>, Seq<u8>)| #[trigger] sorted.contains(x) implies frags.contains(
        x,
    ) by {
        assert(sorted.to_multiset().count(x) > 0);
    }
    assert forall|x: (Seq<u8>, Seq<u8>)| #[trigger] frags.contains(x) implies sorted.contains(
        x,
    ) by {
        assert(frags.to_multiset().count(x) > 0);
    }
    assert forall|k: int|
        0 <= k < sorted.len() implies ((#[trigger] sorted[k]).0.len() > 0 ==> valid_name(
        sorted[k].0,
    )) by {
        assert(sorted.contains(sorted[k]));
        let i = choose|i: int| 0 <= i < frags.len() && frags[i] == sorted[k];
        assert(frags[i].0.len() > 0 ==> valid_name(frags[i].0));
    }
    assert forall|a: int, b: int|
        0 <= a < sorted.len() && 0 <= b < sorted.len() && (#[trigger] sorted[a]).0.len() > 0 && (
        #[trigger] sorted[b]).0.len() > 0 && frag_path(sorted[a].0) == frag_path(sorted[b].0) implies
        sorted[a].1 == sorted[b].1 by {
        lemma_split_injective(sorted[a].0, sorted[b].0, crate::bytes::DOT);
        assert(sorted.contains(sorted[a]));
        assert(sorted.contains(sorted[b]));
        let i = choose|i: int| 0 <= i < frags.len() && frags[i] == sorted[a];
        let j = choose|j: int| 0 <= j < frags.len() && frags[j] == sorted[b];
        if i != j {
            assert(frags[i].0 == frags[j].0);
        }
    }
    lemma_build_model(sorted, q);
    assert(has_path(sorted_build(frags), q) <==> exists|i: int|
        0 <= i < frags.len() && (#[trigger] frags[i]).0.len() > 0 && q.is_prefix_of(
            frag_path(frags[i].0),
        )) by {
        if has_path(sorted_build(frags), q) {
            let k = choose|k: int|
                0 <= k < sorted.len() && (#[trigger] sorted[k]).0.len() > 0 && q.is_prefix_of(
                    frag_path(sorted[k].0),
                );
            assert(sorted.contains(sorted[k]));
            let i = choose|i: int| 0 <= i < frags.len() && frags[i] == sorted[k];
            assert(frags[i].0.len() > 0 && q.is_prefix_of(frag_path(frags[i].0)));
        }
        if exists|i: int|
            0 <= i < frags.len() && (#[trigger] frags[i]).0.len() > 0 && q.is_prefix_of(
                frag_path(frags[i].0),
            ) {
            let i = choose|i: int|
                0 <= i < frags.len() && (#[trigger] frags[i]).0.len() > 0 && q.is_prefix_of(
                    frag_path(frags[i].0),
                );
            assert(frags.contains(frags[i]));
            let k = choose|k: int| 0 <= k < sorted.len() && sorted[k] == frags[i];
            assert(sorted[k].0.len() > 0 && q.is_prefix_of(frag_path(sorted[k].0)));
            assert(has_path(sorted_build(frags), q));
        }
    }
    assert forall|i: int|
        0 <= i < frags.len() && (#[trigger] frags[i]).0.len() > 0 && frag_path(frags[i].0)
            == q implies content_at(sorted_build(frags), q) == frags[i].1 by {
        assert(frags.contains(frags[i]));
        let k = choose|k: int| 0 <= k < sorted.len() && sorted[k] == frags[i];
        assert(sorted[k].0.len() > 0 && frag_path(sorted[k].0) == q);
        assert(content_at(sorted_build(frags), q) == sorted[k].1);
    }
    if forall|i: int|
        0 <= i < frags.len() ==> !((#[trigger] frags[i]).0.len() > 0 && frag_path(frags[i].0)
            == q) {
        assert forall|k: int|
            0 <= k < sorted.len() implies !((#[trigger] sorted[k]).0.len() > 0 && frag_path(
            sorted[k].0,
        ) == q) by {
            assert(sorted.contains(sorted[k]));
            let i = choose|i: int| 0 <= i < frags.len() && frags[i] == sorted[k];
            assert(!(frags[i].0.len() > 0 && frag_path(frags[i].0) == q));
        }
    }
}

/// No spurious nodes: a non-empty path stands in the built tree exactly when
/// it is some fragment's package path or a prefix of one.
pub proof fn lemma_no_spurious_nodes(frags: Seq<(Seq<u8>, Seq<u8>)>, q: Seq<Seq<u8>>)
    requires
        valid_pair_names(frags),
        distinct_pair_names(frags),
        q.len() > 0,
    ensures
        has_path(sorted_build(frags), q) <==> exists|i: int|
            0 <= i < frags.len() && (#[trigger] frags[i]).0.len() > 0 && q.is_prefix_of(
                frag_path(frags[i].0),
            ),
{
    lemma_sorted_build_model(frags, q);
}

/// Pure grouping ancestors: a strict prefix of a fragment's package path that
/// is no fragment's own path still has a node, and that node is empty.
pub proof fn lemma_grouping_ancestors(frags: Seq<(Seq<u8>, Seq<u8>)>, q: Seq<Seq<u8>>)
    requires
        valid_pair_names(frags),
        distinct_pair_names(frags),
        q.len() > 0,
        exists|i: int|
            0 <= i < frags.len() && (#[trigger] frags[i]).0.len() > 0 && q.is_prefix_of(
                frag_path(frags[i].0),
            ),
        forall|i: int|
            0 <= i < frags.len() ==> !((#[trigger] frags[i]).0.len() > 0 && frag_path(frags[i].0)
                == q),
    ensures
        has_path(sorted_build(frags), q),
        content_at(sorted_build(frags), q) == Seq::<u8>::empty(),
{
    lemma_sorted_build_model(frags, q);
}

/// Each fragment's own package path holds exactly that fragment's content.
pub proof fn lemma_fragment_content_placed(frags: Seq<(Seq<u8>, Seq<u8>)>, i: int)
    requires
        valid_pair_names(frags),
        distinct_pair_names(frags),
        0 <= i < frags.len(),
        frags[i].0.len() > 0,
    ensures
        has_path(sorted_build(frags), frag_path(frags[i].0)),
        content_at(sorted_build(frags), frag_path(frags[i].0)) == frags[i].1,
{
    lemma_split_nonempty(frags[i].0, crate::bytes::DOT);
    lemma_sorted_build_model(frags, frag_path(frags[i].0));
    assert(frag_path(frags[i].0).is_prefix_of(frag_path(frags[i].0))) by {
        assert(frag_path(frags[i].0) =~= frag_path(frags[i].0).take(
            frag_path(frags[i].0).len() as int,
        ));
    }
}

} // verus!
