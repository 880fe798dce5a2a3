//! Serialization of a module tree into one flat text output.
//!
//! Depth-first pre-order: each named node wraps its own text and its
//! descendants' text in an opening and closing scope marker at its depth; the
//! node named with the anonymous marker contributes its text without any
//! wrapping scope.  Children appear in their stored order, which the builder
//! keeps sorted by name, so the whole output is a function of the fragment
//! set alone.

use vstd::prelude::*;

use crate::bytes::SPACE;
use crate::fragment::CanonicalFragment;
use crate::fragment::RawFragment;
use crate::fragment::one_per_kind;
use crate::fragment::canon_views;
use crate::fragment::spec_reconcile;
use crate::fragment::reconcile_fragments;
use crate::fragment::lemma_reconcile_distinct_names;
use crate::fragment::frag_pairs;
use crate::fragment::pair_order;
use crate::fragment::lemma_pair_order_total;
use crate::tree::ModuleNode;
use crate::tree::SpecNode;
use crate::tree::node_view;
use crate::tree::views_of;
use crate::tree::lemma_views_of;
use crate::tree::sorted_build;
use crate::tree::build_module_tree;
use crate::tree::distinct_names;

verus! {

/// The bytes of `"pub mod "`.
pub open spec fn mod_keyword() -> Seq<u8> {
    seq![112u8, 117u8, 98u8, 32u8, 109u8, 111u8, 100u8, 32u8]
}

/// The bytes of `" {\n"`.
pub open spec fn open_suffix() -> Seq<u8> {
    seq![32u8, 123u8, 10u8]
}

/// The bytes of `"}\n"`.
pub open spec fn close_suffix() -> Seq<u8> {
    seq![125u8, 10u8]
}

/// The bytes of `"// @generated\n\n"`, the fixed first line of the output.
pub open spec fn output_header() -> Seq<u8> {
    seq![
        47u8, 47u8, 32u8, 64u8, 103u8, 101u8, 110u8, 101u8, 114u8, 97u8, 116u8, 101u8, 100u8,
        10u8, 10u8,
    ]
}

/// The bytes of `"_"`: the reserved name of a node that contributes content
/// but no wrapping scope.
pub open spec fn anon_name() -> Seq<u8> {
    seq![95u8]
}

/// One indentation step: two spaces.
pub open spec fn two_spaces() -> Seq<u8> {
    seq![32u8, 32u8]
}

/// The indentation of a node at the given depth.
pub open spec fn sp_indent(depth: nat) -> Seq<u8> {
    Seq::new(2 * depth, |i: int| SPACE)
}

/// The opening scope marker of a module, at the given indentation.
pub open spec fn mod_open(name: Seq<u8>, ind: Seq<u8>) -> Seq<u8> {
    ind + mod_keyword() + name + open_suffix()
}

/// The closing scope marker, at the given indentation.
pub open spec fn mod_close(ind: Seq<u8>) -> Seq<u8> {
    ind + close_suffix()
}

/// The serialized text of one node at the given indentation: its scope
/// markers around its own content and its children's text, or, for the
/// anonymous node, content and children's text alone.
pub open spec fn spec_write_node(n: SpecNode, ind: Seq<u8>) -> Seq<u8>
    decreases n,
{
    let inner = n.content + ({
        proof {
            assert(decreases_to!(n => n.children));
        }
        spec_write_children(n.children, ind + two_spaces())
    });
    if n.name == anon_name() {
        inner
    } else {
        mod_open(n.name, ind) + inner + mod_close(ind)
    }
}

/// The concatenated text of a child list, in stored order.
pub open spec fn spec_write_children(cs: Seq<SpecNode>, ind: Seq<u8>) -> Seq<u8>
    decreases cs,
{
    if cs.len() == 0 {
        Seq::empty()
    } else {
        ({
            proof {
                assert(decreases_to!(cs => cs[0]));
            }
            spec_write_node(cs[0], ind)
        }) + ({
            proof {
                assert(decreases_to!(cs => cs.drop_first()));
            }
            spec_write_children(cs.drop_first(), ind)
        })
    }
}

/// Serializing one more child appends that child's text.
pub proof fn lemma_write_children_snoc(cs: Seq<SpecNode>, x: SpecNode, ind: Seq<u8>)
    ensures
        spec_write_children(cs.push(x), ind) == spec_write_children(cs, ind) + spec_write_node(
            x,
            ind,
        ),
    decreases cs.len(),
{
    if cs.len() == 0 {
        let s = cs.push(x);
        assert(s.len() == 1);
        assert(s[0] == x);
        assert(s.drop_first() =~= Seq::<SpecNode>::empty());
        assert(spec_write_children(s.drop_first(), ind) =~= Seq::<u8>::empty());
        assert(spec_write_children(s, ind) =~= spec_write_node(s[0], ind) + spec_write_children(
            s.drop_first(),
            ind,
        ));
        assert(spec_write_node(x, ind) + Seq::<u8>::empty() =~= spec_write_node(x, ind));
        assert(spec_write_children(cs, ind) =~= Seq::<u8>::empty());
        assert(spec_write_children(cs, ind) + spec_write_node(x, ind) =~= spec_write_node(x, ind));
    } else {
        assert(cs.push(x)[0] == cs[0]);
        assert(cs.push(x).drop_first() =~= cs.drop_first().push(x));
        lemma_write_children_snoc(cs.drop_first(), x, ind);
        assert(spec_write_children(cs.push(x), ind) =~= spec_write_node(cs[0], ind)
            + (spec_write_children(cs.drop_first(), ind) + spec_write_node(x, ind)));
        assert(spec_write_node(cs[0], ind) + (spec_write_children(cs.drop_first(), ind)
            + spec_write_node(x, ind)) =~= (spec_write_node(cs[0], ind) + spec_write_children(
            cs.drop_first(),
            ind,
        )) + spec_write_node(x, ind));
    }
}

/// The anonymous node is spliced, not wrapped: its serialized text is its
/// content followed by its children's text, with no scope markers and at any
/// indentation.
pub proof fn lemma_anonymous_node_unwrapped(n: SpecNode, ind: Seq<u8>)
    requires
        n.name == anon_name(),
    ensures
        spec_write_node(n, ind) == n.content + spec_write_children(n.children, ind + two_spaces()),
{
}

/// Appends `2 * depth` spaces to a fresh vector.
fn make_indent(depth: usize) -> (r: Vec<u8>)
    ensures
        r@ == sp_indent(depth as nat),
{
    let mut r: Vec<u8> = Vec::new();
    let mut k: usize = 0;
    while k < depth
        invariant
            0 <= k <= depth,
            r@ == sp_indent(k as nat),
        decreases depth - k,
    {
        r.push(SPACE);
        r.push(SPACE);
        proof {
            assert(r@ =~= sp_indent((k + 1) as nat));
        }
        k = k + 1;
    }
    r
}

/// Writes one module and all of its submodules: the scope markers at this
/// node's indentation, its own content verbatim, and each child one
/// indentation step deeper — except that the anonymous node gets no markers.
pub fn write_module(out: &mut Vec<u8>, node: &ModuleNode, depth: usize)
    ensures
        final(out)@ == old(out)@ + spec_write_node(node@, sp_indent(depth as nat)),
{
    let ind = make_indent(depth);
    write_module_at(out, node, &ind);
}

/// `write_module`, with the indentation carried as text.
fn write_module_at(out: &mut Vec<u8>, node: &ModuleNode, ind: &Vec<u8>)
    ensures
        final(out)@ == old(out)@ + spec_write_node(node@, ind@),
    decreases *node,
{
    let transparent = node.name.len() == 1 && node.name[0] == 95;
    proof {
        if transparent {
            assert(node.name@ =~= anon_name());
        } else {
            assert(node.name@ != anon_name());
        }
    }
    if !transparent {
        crate::bytes::push_all(out, ind);
        out.push(112);
        out.push(117);
        out.push(98);
        out.push(32);
        out.push(109);
        out.push(111);
        out.push(100);
        out.push(32);
        crate::bytes::push_all(out, &node.name);
        out.push(32);
        out.push(123);
        out.push(10);
        proof {
            assert(out@ =~= old(out)@ + mod_open(node.name@, ind@));
        }
    }
    crate::bytes::push_all(out, &node.content);
    let mut cind = crate::bytes::copy_bytes(ind);
    cind.push(SPACE);
    cind.push(SPACE);
    proof {
        assert(cind@ =~= ind@ + two_spaces());
    }
    let ghost base = out@;
    let mut k: usize = 0;
    while k < node.children.len()
        invariant
            0 <= k <= node.children@.len(),
            cind@ == ind@ + two_spaces(),
            out@ == base + spec_write_children(views_of(node.children@.take(k as int)), cind@),
        decreases node.children@.len() - k,
    {
        proof {
            assert(decreases_to!(*node => node.children));
            assert(decreases_to!(node.children => node.children@));
            assert(decreases_to!(node.children@ => node.children@[k as int]));
        }
        let child = &node.children[k];
        write_module_at(out, child, &cind);
        proof {
            let pre = node.children@.take(k as int);
            let post = node.children@.take(k + 1);
            assert(post =~= pre.push(node.children@[k as int]));
            lemma_views_of(pre);
            lemma_views_of(post);
            assert(views_of(post) =~= views_of(pre).push(node_view(node.children@[k as int])));
            lemma_write_children_snoc(
                views_of(pre),
                node_view(node.children@[k as int]),
                cind@,
            );
        }
        k = k + 1;
    }
    proof {
        assert(node.children@.take(node.children@.len() as int) =~= node.children@);
    }
    if !transparent {
        crate::bytes::push_all(out, ind);
        out.push(125);
        out.push(10);
    }
    proof {
        assert(out@ =~= old(out)@ + spec_write_node(node@, ind@));
    }
}

/// The full serialized output of a fragment set: the fixed header, then the
/// canonical module tree's top-level modules in name order, each at depth 1.
pub open spec fn spec_generate(frags: Seq<(Seq<u8>, Seq<u8>)>) -> Seq<u8> {
    output_header() + spec_write_children(sorted_build(frags).children, sp_indent(1))
}

/// Builds the module tree of the fragments and serializes it, all in one:
/// the assembled single source text.
pub fn generate_lib_rs(fragments: Vec<CanonicalFragment>) -> (out: Vec<u8>)
    requires
        distinct_names(fragments@),
    ensures
        out@ == spec_generate(frag_pairs(fragments@)),
{
    let ghost pairs = frag_pairs(fragments@);
    let root = build_module_tree(fragments);
    let mut out: Vec<u8> = Vec::new();
    out.push(47);
    out.push(47);
    out.push(32);
    out.push(64);
    out.push(103);
    out.push(101);
    out.push(110);
    out.push(101);
    out.push(114);
    out.push(97);
    out.push(116);
    out.push(101);
    out.push(100);
    out.push(10);
    out.push(10);
    proof {
        assert(out@ =~= output_header());
    }
    let ind = make_indent(1);
    let ghost base = out@;
    let mut k: usize = 0;
    while k < root.children.len()
        invariant
            0 <= k <= root.children@.len(),
            ind@ == sp_indent(1),
            node_view(root) == sorted_build(pairs),
            base == output_header(),
            out@ == base + spec_write_children(views_of(root.children@.take(k as int)), ind@),
        decreases root.children@.len() - k,
    {
        let child = &root.children[k];
        write_module_at(&mut out, child, &ind);
        proof {
            let pre = root.children@.take(k as int);
            let post = root.children@.take(k + 1);
            assert(post =~= pre.push(root.children@[k as int]));
            lemma_views_of(pre);
            lemma_views_of(post);
            assert(views_of(post) =~= views_of(pre).push(node_view(root.children@[k as int])));
            lemma_write_children_snoc(views_of(pre), node_view(root.children@[k as int]), ind@);
        }
        k = k + 1;
    }
    proof {
        assert(root.children@.take(root.children@.len() as int) =~= root.children@);
        assert(node_view(root).children == views_of(root.children@));
    }
    out
}

/// Building and serializing is a function of the fragment set alone: two
/// fragment sequences holding the same fragments, in any two orders, produce
/// byte-identical output.
pub proof fn lemma_generate_insertion_order_irrelevant(
    f1: Seq<(Seq<u8>, Seq<u8>)>,
    f2: Seq<(Seq<u8>, Seq<u8>)>,
)
    requires
        f1.to_multiset() == f2.to_multiset(),
    ensures
        spec_generate(f1) == spec_generate(f2),
{
    lemma_pair_order_total();
    f1.lemma_sort_by_ensures(pair_order());
    f2.lemma_sort_by_ensures(pair_order());
    assert(f1.sort_by(pair_order()).to_multiset() == f2.sort_by(pair_order()).to_multiset());
    vstd::seq_lib::lemma_sorted_unique(
        f1.sort_by(pair_order()),
        f2.sort_by(pair_order()),
        pair_order(),
    );
}

/// The (package, content) pairs of a reconciled entry sequence.
pub open spec fn reconciled_pairs(entries: Seq<(Seq<u8>, Seq<u8>, Seq<u8>)>) -> Seq<(
    Seq<u8>,
    Seq<u8>,
)> {
    Seq::new(entries.len(), |i: int| (entries[i].0, entries[i].2))
}

/// The whole assembly in one step: reconciles the discovered fragments and
/// serializes their canonical module tree into the single output text.
pub fn assemble_lib_rs(raw: &Vec<RawFragment>, service_mode: bool) -> (out: Vec<u8>)
    requires
        one_per_kind(raw@),
    ensures
        out@ == spec_generate(reconciled_pairs(spec_reconcile(raw@, service_mode))),
{
    let frags = reconcile_fragments(raw, service_mode);
    proof {
        lemma_reconcile_distinct_names(raw@, service_mode);
        let entries = spec_reconcile(raw@, service_mode);
        assert(canon_views(frags@) == entries);
        assert forall|a: int, b: int|
            0 <= a < b < frags@.len() implies (#[trigger] frags@[a]).module_name@ != (
        #[trigger] frags@[b]).module_name@ by {
            assert(canon_views(frags@)[a] == entries[a]);
            assert(canon_views(frags@)[b] == entries[b]);
            assert(entries[a].0 != entries[b].0);
        }
        assert(frag_pairs(frags@) =~= reconciled_pairs(entries)) by {
            assert forall|k: int|
                0 <= k < frags@.len() implies frag_pairs(frags@)[k] == reconciled_pairs(
                entries,
            )[k] by {
                assert(canon_views(frags@)[k] == entries[k]);
            }
        }
    }
    generate_lib_rs(frags)
}

} // verus!
