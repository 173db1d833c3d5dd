use prost::Message;
use prost_types::FileDescriptorProto;
use prost_types::FileDescriptorSet;
use tonic_proto_transpiler::cli::transpile;
use tonic_proto_transpiler::cli::Inputs;
use tonic_proto_transpiler::cli::Opt;
use tonic_proto_transpiler::descriptor::parse_descriptor_set;
use tonic_proto_transpiler::descriptor::DescriptorSet;
use tonic_proto_transpiler::error::ErrorKind;
use tonic_proto_transpiler::generator::assemble;
use tonic_proto_transpiler::generator::fragment_file_name;
use tonic_proto_transpiler::generator::generate_cargo_workspace;
use tonic_proto_transpiler::generator::generate_librs;
use tonic_proto_transpiler::generator::rustfmt_arguments;
use tonic_proto_transpiler::generator::rustfmt_outcome;
use tonic_proto_transpiler::generator::Fragment;

fn set(packages: &[Option<&str>]) -> DescriptorSet {
    DescriptorSet { packages: packages.iter().map(|p| p.map(|s| s.to_string())).collect() }
}

fn encoded(packages: &[Option<&str>]) -> Vec<u8> {
    let mut files = Vec::new();
    for (i, package) in packages.iter().enumerate() {
        let mut file = FileDescriptorProto::default();
        file.name = Some(format!("file{}.proto", i));
        file.package = package.map(|s| s.to_string());
        files.push(file);
    }
    FileDescriptorSet { file: files }.encode_to_vec()
}

fn fragment(file_name: &str, contents: &str) -> Fragment {
    Fragment { file_name: file_name.to_string(), contents: contents.to_string() }
}

fn fragments() -> Vec<Fragment> {
    vec![fragment("x.y.rs", "// x.y"), fragment("z.rs", "// z"), fragment("w.rs", "// w")]
}

const ORDERED: &str =
    "pub mod w {\n// w\n}\npub mod x {\npub mod y {\n// x.y\n}\n\n}\npub mod z {\n// z\n}\n";

fn opt() -> Opt {
    Opt {
        name: "echo".to_string(),
        edition: "2018".to_string(),
        direct_sources: vec!["echo.proto".to_string()],
        transitive_proto_path: vec![".".to_string()],
        direct_descriptor_set: "direct.bin".to_string(),
        transitive_descriptor_sets: vec!["t1.bin".to_string(), "t2.bin".to_string()],
        output_librs: "out/lib.rs".to_string(),
        output_cargo_toml: "out/Cargo.toml".to_string(),
    }
}

#[test]
fn transitive_sets_then_direct_set_in_lexicographic_order() {
    let transitive = vec![set(&[Some("x.y")]), set(&[Some("z")])];
    let direct = set(&[Some("x.y"), Some("w")]);
    let tree = assemble(&transitive, &direct, &fragments()).unwrap();
    assert_eq!(tree.serialize().unwrap(), ORDERED);
}

#[test]
fn a_package_met_twice_is_materialized_once() {
    let transitive = vec![set(&[Some("p")])];
    let direct = set(&[Some("p"), Some("p")]);
    let found = vec![fragment("p.rs", "// p")];
    let tree = assemble(&transitive, &direct, &found).unwrap();
    assert_eq!(tree.serialize().unwrap(), "pub mod p {\n// p\n}\n");
}

#[test]
fn no_descriptor_gives_an_empty_library() {
    let tree = assemble(&Vec::new(), &set(&[]), &Vec::new()).unwrap();
    assert_eq!(tree.serialize().unwrap(), "");
}

#[test]
fn a_file_without_package_is_fatal() {
    let transitive = vec![set(&[Some("z")])];
    let direct = set(&[Some("w"), None]);
    let err = assemble(&transitive, &direct, &fragments()).unwrap_err();
    assert_eq!(err.kind, ErrorKind::MissingPackage);
    assert_eq!(err.message(), "No package specified");
}

#[test]
fn a_missing_fragment_is_fatal_and_named() {
    let direct = set(&[Some("w"), Some("q")]);
    let err = assemble(&Vec::new(), &direct, &fragments()).unwrap_err();
    assert_eq!(err.kind, ErrorKind::FragmentNotFound);
    assert_eq!(err.message(), "q.rs");
}

#[test]
fn the_first_error_in_iteration_order_wins() {
    let transitive = vec![set(&[Some("q")])];
    let direct = set(&[None]);
    let err = assemble(&transitive, &direct, &fragments()).unwrap_err();
    assert_eq!(err.kind, ErrorKind::FragmentNotFound);
    let transitive = vec![set(&[None, Some("q")])];
    let err = assemble(&transitive, &set(&[]), &fragments()).unwrap_err();
    assert_eq!(err.kind, ErrorKind::MissingPackage);
}

#[test]
fn a_seen_package_is_skipped_before_its_fragment_is_looked_up() {
    let direct = set(&[Some("w"), Some("w")]);
    let found = vec![fragment("w.rs", "// w")];
    assert!(assemble(&Vec::new(), &direct, &found).is_ok());
}

#[test]
fn an_empty_package_name_is_an_invalid_path() {
    let direct = set(&[Some("")]);
    let found = vec![fragment(".rs", "// nothing")];
    let err = assemble(&Vec::new(), &direct, &found).unwrap_err();
    assert_eq!(err.kind, ErrorKind::InvalidPath);
}

#[test]
fn the_first_fragment_of_a_name_is_taken() {
    let found = vec![fragment("w.rs", "// one"), fragment("w.rs", "// two")];
    let tree = assemble(&Vec::new(), &set(&[Some("w")]), &found).unwrap();
    assert_eq!(tree.serialize().unwrap(), "pub mod w {\n// one\n}\n");
}

#[test]
fn fragment_file_name_appends_the_extension() {
    assert_eq!(fragment_file_name("q"), "q.rs");
    assert_eq!(fragment_file_name("google.protobuf"), "google.protobuf.rs");
    assert_eq!(fragment_file_name(""), ".rs");
}

#[test]
fn parse_descriptor_set_reads_the_packages() {
    let bytes = encoded(&[Some("x.y"), None, Some("w")]);
    let parsed = parse_descriptor_set(&bytes).unwrap();
    assert_eq!(
        parsed.packages,
        vec![Some("x.y".to_string()), None, Some("w".to_string())]
    );
}

#[test]
fn parse_descriptor_set_of_no_bytes_is_empty() {
    let parsed = parse_descriptor_set(&Vec::new()).unwrap();
    assert!(parsed.packages.is_empty());
}

#[test]
fn parse_descriptor_set_refuses_malformed_bytes() {
    let err = parse_descriptor_set(&vec![0xff, 0xff, 0xff]).unwrap_err();
    assert_eq!(err.kind, ErrorKind::Decode);
    assert!(!err.message().is_empty());
}

#[test]
fn generate_librs_from_encoded_sets() {
    let transitive = vec![encoded(&[Some("x.y")]), encoded(&[Some("z")])];
    let direct = encoded(&[Some("x.y"), Some("w")]);
    assert_eq!(generate_librs(&direct, &transitive, &fragments()).unwrap(), ORDERED);
}

#[test]
fn generate_librs_is_deterministic() {
    let transitive = vec![encoded(&[Some("x.y")]), encoded(&[Some("z")])];
    let direct = encoded(&[Some("x.y"), Some("w")]);
    let first = generate_librs(&direct, &transitive, &fragments()).unwrap();
    let second = generate_librs(&direct, &transitive, &fragments()).unwrap();
    assert_eq!(first, second);
}

#[test]
fn generate_librs_refuses_a_malformed_transitive_set() {
    let transitive = vec![encoded(&[Some("z")]), vec![0x0a, 0x05, 0x01]];
    let direct = encoded(&[Some("w")]);
    let err = generate_librs(&direct, &transitive, &fragments()).unwrap_err();
    assert_eq!(err.kind, ErrorKind::Decode);
}

#[test]
fn generate_librs_aborts_on_a_missing_package() {
    let direct = encoded(&[None]);
    let err = generate_librs(&direct, &Vec::new(), &fragments()).unwrap_err();
    assert_eq!(err.kind, ErrorKind::MissingPackage);
}

#[test]
fn generate_cargo_workspace_renders_the_template() {
    assert_eq!(
        generate_cargo_workspace(&opt()),
        "\n[package]\nname = \"echo\"\nversion = \"1.0.0\"\nedition = \"2018\"\n\n[lib]\npath = \"lib.rs\"\n\n[dependencies]\ntonic = \"0\"\nprost = \"0\"\n    "
    );
}

#[test]
fn transpile_gives_library_and_manifest() {
    let inputs = Inputs {
        direct_descriptor_set: encoded(&[Some("x.y"), Some("w")]),
        transitive_descriptor_sets: vec![encoded(&[Some("x.y")]), encoded(&[Some("z")])],
        fragments: fragments(),
    };
    let outputs = transpile(&opt(), &inputs).unwrap();
    assert_eq!(outputs.librs, ORDERED);
    assert_eq!(outputs.cargo_toml, generate_cargo_workspace(&opt()));
}

#[test]
fn transpile_fails_without_a_fragment() {
    let inputs = Inputs {
        direct_descriptor_set: encoded(&[Some("q")]),
        transitive_descriptor_sets: Vec::new(),
        fragments: fragments(),
    };
    let err = transpile(&opt(), &inputs).unwrap_err();
    assert_eq!(err.kind, ErrorKind::FragmentNotFound);
    assert_eq!(err.message(), "q.rs");
}

#[test]
fn rustfmt_arguments_are_edition_then_file() {
    assert_eq!(rustfmt_arguments("out/lib.rs", "2018"), vec!["--edition=2018", "out/lib.rs"]);
}

#[test]
fn a_formatter_that_succeeds_is_no_error() {
    assert!(rustfmt_outcome(true, "", "warning").is_ok());
}

#[test]
fn a_formatter_failure_carries_its_text() {
    let err = rustfmt_outcome(false, "", "syntax error").unwrap_err();
    assert_eq!(err.kind, ErrorKind::FormatterFailure);
    assert_eq!(err.message(), "Failed to run RUSTFMT:\nstdout:\n\nstderr:\nsyntax error");
}
