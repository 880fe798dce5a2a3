use proto_assembly::symbols::SymbolError;
use proto_assembly::symbols::compute_proto_package_info;
use proto_assembly::symbols::join_lines;

fn pi_bytes(s: &str) -> Vec<u8> {
    s.as_bytes().to_vec()
}

fn pi_strings(v: Vec<Vec<u8>>) -> Vec<String> {
    v.into_iter().map(|x| String::from_utf8(x).unwrap()).collect()
}

#[test]
fn compute_proto_package_info_test() {
    // Example output from running `protoc --print_free_field_numbers` on
    // https://github.com/protocolbuffers/protobuf/blob/v23.3/src/google/protobuf/descriptor.proto
    let free_field_numbers_output = r"
google.protobuf.FileDescriptorSet   free: 2-INF
google.protobuf.FileDescriptorProto free: 13-INF
google.protobuf.DescriptorProto.ExtensionRange free: 4-INF
google.protobuf.DescriptorProto.ReservedRange free: 3-INF
google.protobuf.DescriptorProto     free: 11-INF
"
    .to_owned();
    let inputs: Vec<(&str, String)> = vec![(
        "/tmp/google/protobuf/descriptor.proto",
        free_field_numbers_output,
    )];
    let listings: Vec<Vec<u8>> = inputs.iter().map(|(_, text)| pi_bytes(text)).collect();
    let package_infos = compute_proto_package_info(&listings, &pi_bytes("crate_name")).unwrap();

    assert_eq!(pi_strings(package_infos), [
        ".google.protobuf.DescriptorProto.ExtensionRange=crate_name::google::protobuf::DescriptorProto::ExtensionRange",
        ".google.protobuf.DescriptorProto.ReservedRange=crate_name::google::protobuf::DescriptorProto::ReservedRange",
        ".google.protobuf.DescriptorProto=crate_name::google::protobuf::DescriptorProto",
        ".google.protobuf.FileDescriptorProto=crate_name::google::protobuf::FileDescriptorProto",
        ".google.protobuf.FileDescriptorSet=crate_name::google::protobuf::FileDescriptorSet"
    ].iter().map(|s| s.to_string()).collect::<Vec<String>>()
    );
}

#[test]
fn file_descriptor_proto_line_resolves() {
    let listings = vec![pi_bytes("google.protobuf.FileDescriptorProto free: 13-INF")];
    let r = compute_proto_package_info(&listings, &pi_bytes("crate_name")).unwrap();
    assert_eq!(
        pi_strings(r),
        vec![".google.protobuf.FileDescriptorProto=crate_name::google::protobuf::FileDescriptorProto".to_string()]
    );
}

#[test]
fn nested_type_line_resolves() {
    let listings = vec![pi_bytes(
        "google.protobuf.DescriptorProto.ExtensionRange free: 4-INF",
    )];
    let r = compute_proto_package_info(&listings, &pi_bytes("crate_name")).unwrap();
    assert_eq!(
        pi_strings(r),
        vec![".google.protobuf.DescriptorProto.ExtensionRange=crate_name::google::protobuf::DescriptorProto::ExtensionRange".to_string()]
    );
}

#[test]
fn single_segment_symbol_has_no_package() {
    let listings = vec![pi_bytes("Standalone free: 2-INF")];
    let r = compute_proto_package_info(&listings, &pi_bytes("c")).unwrap();
    assert_eq!(pi_strings(r), vec![".Standalone=c::Standalone".to_string()]);
}

#[test]
fn duplicate_symbol_across_files_fails() {
    let listings = vec![
        pi_bytes("pkg.Message free: 2-INF"),
        pi_bytes("pkg.Message free: 2-INF"),
    ];
    match compute_proto_package_info(&listings, &pi_bytes("crate_name")) {
        Err(SymbolError::DuplicateSymbol(e)) => {
            assert_eq!(
                String::from_utf8(e).unwrap(),
                ".pkg.Message=crate_name::pkg::Message"
            );
        }
        _ => panic!("expected a duplicate-symbol error"),
    }
}

#[test]
fn malformed_line_fails() {
    let listings = vec![pi_bytes("justonetoken\n")];
    match compute_proto_package_info(&listings, &pi_bytes("crate_name")) {
        Err(SymbolError::MalformedLine(l)) => {
            assert_eq!(String::from_utf8(l).unwrap(), "justonetoken");
        }
        _ => panic!("expected a malformed-line error"),
    }
}

#[test]
fn blank_lines_and_padding_are_ignored() {
    let listings = vec![pi_bytes("\n\n   \n  a.B free: 1-INF  \r\n\n")];
    let r = compute_proto_package_info(&listings, &pi_bytes("k")).unwrap();
    assert_eq!(pi_strings(r), vec![".a.B=k::a::B".to_string()]);
}

#[test]
fn output_is_sorted_across_listings() {
    let listings = vec![
        pi_bytes("zeta.Last free: 1-INF"),
        pi_bytes("alpha.First free: 1-INF"),
    ];
    let r = compute_proto_package_info(&listings, &pi_bytes("k")).unwrap();
    assert_eq!(
        pi_strings(r),
        vec![
            ".alpha.First=k::alpha::First".to_string(),
            ".zeta.Last=k::zeta::Last".to_string(),
        ]
    );
}

#[test]
fn join_lines_separates_without_trailing_newline() {
    let lines = vec![pi_bytes("first"), pi_bytes("second"), pi_bytes("third")];
    assert_eq!(
        String::from_utf8(join_lines(&lines)).unwrap(),
        "first\nsecond\nthird"
    );
    assert_eq!(join_lines(&Vec::new()), Vec::<u8>::new());
}
