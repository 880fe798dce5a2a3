use proto_assembly::fragment::CanonicalFragment;
use proto_assembly::fragment::FragmentKind;
use proto_assembly::fragment::RawFragment;
use proto_assembly::fragment::reconcile_fragments;
use proto_assembly::fragment::split_stem;
use proto_assembly::tree::build_module_tree;
use proto_assembly::writer::generate_lib_rs;
use proto_assembly::writer::write_module;
use proto_assembly::writer::assemble_lib_rs;

fn mt_bytes(s: &str) -> Vec<u8> {
    s.as_bytes().to_vec()
}

fn frag(name: &str, content: &str) -> CanonicalFragment {
    CanonicalFragment {
        module_name: mt_bytes(name),
        output_stem: mt_bytes(name),
        content: mt_bytes(content),
    }
}

fn raw(pkg: &str, kind: FragmentKind, content: &str) -> RawFragment {
    RawFragment { package: mt_bytes(pkg), kind, content: mt_bytes(content) }
}

#[test]
fn nested_packages_render_nested_modules() {
    let out = generate_lib_rs(vec![frag("a.b", "B\n"), frag("a.b.c", "C\n")]);
    let expected = "// @generated\n\n  pub mod a {\n    pub mod b {\nB\n      pub mod c {\nC\n      }\n    }\n  }\n";
    assert_eq!(String::from_utf8(out).unwrap(), expected);
}

#[test]
fn grouping_ancestor_is_created_empty() {
    // packages a.b and a.b.c but none for a: `a` still appears, with no
    // content of its own between its opening marker and b's.
    let out = generate_lib_rs(vec![frag("a.b.c", "C\n"), frag("a.b", "B\n")]);
    let text = String::from_utf8(out).unwrap();
    assert!(text.contains("  pub mod a {\n    pub mod b {\n"));
}

#[test]
fn output_is_insertion_order_independent() {
    let one = generate_lib_rs(vec![
        frag("z", "Z\n"),
        frag("a.b", "B\n"),
        frag("a", "A\n"),
        frag("m.n.o", "O\n"),
    ]);
    let two = generate_lib_rs(vec![
        frag("m.n.o", "O\n"),
        frag("a", "A\n"),
        frag("z", "Z\n"),
        frag("a.b", "B\n"),
    ]);
    assert_eq!(one, two);
}

#[test]
fn running_twice_is_byte_identical() {
    let fragments = || vec![frag("a.b", "B\n"), frag("a.b.c", "C\n"), frag("z", "Z\n")];
    assert_eq!(generate_lib_rs(fragments()), generate_lib_rs(fragments()));
}

#[test]
fn anonymous_fragment_is_spliced_without_scope() {
    let out = generate_lib_rs(vec![frag("_", "anon\n"), frag("z", "Z\n")]);
    let expected = "// @generated\n\nanon\n  pub mod z {\nZ\n  }\n";
    assert_eq!(String::from_utf8(out).unwrap(), expected);
}

#[test]
fn empty_module_name_contributes_nothing() {
    let out = generate_lib_rs(vec![frag("", "dropped\n"), frag("z", "Z\n")]);
    let expected = "// @generated\n\n  pub mod z {\nZ\n  }\n";
    assert_eq!(String::from_utf8(out).unwrap(), expected);
}

#[test]
fn empty_fragment_set_gives_bare_header() {
    let out = generate_lib_rs(Vec::new());
    assert_eq!(String::from_utf8(out).unwrap(), "// @generated\n\n");
}

#[test]
fn write_module_indents_by_depth() {
    let tree = build_module_tree(vec![frag("top", "T\n")]);
    let mut shallow: Vec<u8> = Vec::new();
    write_module(&mut shallow, &tree.children[0], 0);
    assert_eq!(String::from_utf8(shallow).unwrap(), "pub mod top {\nT\n}\n");
    let mut deep: Vec<u8> = Vec::new();
    write_module(&mut deep, &tree.children[0], 2);
    assert_eq!(
        String::from_utf8(deep).unwrap(),
        "    pub mod top {\nT\n    }\n"
    );
}

#[test]
fn reconcile_primary_only_keeps_content() {
    let out = reconcile_fragments(&vec![raw("p", FragmentKind::Primary, "P\n")], true);
    assert_eq!(out.len(), 1);
    assert_eq!(out[0].module_name, mt_bytes("p"));
    assert_eq!(out[0].output_stem, mt_bytes("p.tonic"));
    assert_eq!(out[0].content, mt_bytes("P\n"));
}

#[test]
fn reconcile_merges_primary_and_service() {
    let out = reconcile_fragments(
        &vec![
            raw("p", FragmentKind::Primary, "P"),
            raw("p", FragmentKind::Service, "S"),
        ],
        true,
    );
    assert_eq!(out.len(), 1);
    assert_eq!(out[0].module_name, mt_bytes("p"));
    assert_eq!(out[0].content, mt_bytes("P\nS"));
}

#[test]
fn reconcile_service_only_keeps_content() {
    let out = reconcile_fragments(&vec![raw("p", FragmentKind::Service, "S")], true);
    assert_eq!(out.len(), 1);
    assert_eq!(out[0].content, mt_bytes("S"));
}

#[test]
fn reconcile_without_service_mode_keeps_stem() {
    let out = reconcile_fragments(&vec![raw("p", FragmentKind::Primary, "P")], false);
    assert_eq!(out.len(), 1);
    assert_eq!(out[0].output_stem, mt_bytes("p"));
}

#[test]
fn split_stem_recognizes_service_marker() {
    let (pkg, kind) = split_stem(&mt_bytes("a.b.tonic"), true);
    assert_eq!(pkg, mt_bytes("a.b"));
    assert!(matches!(kind, FragmentKind::Service));
    let (pkg2, kind2) = split_stem(&mt_bytes("a.b"), true);
    assert_eq!(pkg2, mt_bytes("a.b"));
    assert!(matches!(kind2, FragmentKind::Primary));
    let (pkg3, kind3) = split_stem(&mt_bytes("a.b.tonic"), false);
    assert_eq!(pkg3, mt_bytes("a.b.tonic"));
    assert!(matches!(kind3, FragmentKind::Primary));
}

#[test]
fn assemble_runs_the_whole_pipeline() {
    let out = assemble_lib_rs(
        &vec![
            raw("p", FragmentKind::Primary, "P\n"),
            raw("p", FragmentKind::Service, "S\n"),
            raw("q", FragmentKind::Primary, "Q\n"),
        ],
        true,
    );
    let expected = "// @generated\n\n  pub mod p {\nP\n\nS\n  }\n  pub mod q {\nQ\n  }\n";
    assert_eq!(String::from_utf8(out).unwrap(), expected);
}
