use proto_assembly::args::ParsedArg;
use proto_assembly::args::classify_arg;
use proto_assembly::args::extern_path_flag;

fn arg_bytes(s: &str) -> Vec<u8> {
    s.as_bytes().to_vec()
}

#[test]
fn bare_argument_is_a_proto_file() {
    match classify_arg(&arg_bytes("foo/bar.proto")) {
        ParsedArg::ProtoFile(p) => assert_eq!(p, arg_bytes("foo/bar.proto")),
        _ => panic!("expected a proto file"),
    }
}

#[test]
fn include_flag_is_stripped() {
    match classify_arg(&arg_bytes("-Isome/dir")) {
        ParsedArg::Include(d) => assert_eq!(d, arg_bytes("some/dir")),
        _ => panic!("expected an include directory"),
    }
}

#[test]
fn tonic_switch_is_recognized() {
    assert!(matches!(
        classify_arg(&arg_bytes("--is_tonic")),
        ParsedArg::TonicFlag
    ));
}

#[test]
fn dashed_argument_without_equals_passes_through() {
    match classify_arg(&arg_bytes("--experimental_allow_proto3_optional")) {
        ParsedArg::Plain(a) => {
            assert_eq!(a, arg_bytes("--experimental_allow_proto3_optional"))
        }
        _ => panic!("expected a pass-through argument"),
    }
}

#[test]
fn key_value_argument_splits_at_first_equals() {
    match classify_arg(&arg_bytes("--package_info_output=name=path/to/file")) {
        ParsedArg::KeyValue(k, v) => {
            assert_eq!(k, arg_bytes("--package_info_output"));
            assert_eq!(v, arg_bytes("name=path/to/file"));
        }
        _ => panic!("expected a key=value argument"),
    }
}

#[test]
fn extern_path_flag_wraps_a_mapping() {
    let flag = extern_path_flag(&arg_bytes(".a.B=dep::a::B"));
    assert_eq!(
        String::from_utf8(flag).unwrap(),
        "--prost_opt=extern_path=.a.B=dep::a::B"
    );
}
