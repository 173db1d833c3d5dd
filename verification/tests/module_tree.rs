use tonic_proto_transpiler::error::ErrorKind;
use tonic_proto_transpiler::module_tree::RustModule;
use tonic_proto_transpiler::text::split_path;
use tonic_proto_transpiler::text::str_lt;

fn text(tree: &RustModule) -> String {
    tree.serialize().expect("serialization never fails")
}

#[test]
fn new_module_serializes_to_nothing() {
    assert_eq!(text(&RustModule::new()), "");
}

#[test]
fn insert_creates_empty_wrappers_and_one_terminal_block() {
    let mut tree = RustModule::new();
    tree.insert_module("a.b.c", "// c".to_string()).unwrap();
    assert_eq!(
        text(&tree),
        "pub mod a {\npub mod b {\npub mod c {\n// c\n}\n\n}\n\n}\n"
    );
}

#[test]
fn insert_again_replaces_the_contents() {
    let mut tree = RustModule::new();
    tree.insert_module("a.b.c", "// first".to_string()).unwrap();
    tree.insert_module("a.b.c", "// second".to_string()).unwrap();
    assert_eq!(
        text(&tree),
        "pub mod a {\npub mod b {\npub mod c {\n// second\n}\n\n}\n\n}\n"
    );
}

#[test]
fn insert_at_single_segment() {
    let mut tree = RustModule::new();
    tree.insert_module("pkg", "fn f() {}".to_string()).unwrap();
    assert_eq!(text(&tree), "pub mod pkg {\nfn f() {}\n}\n");
}

#[test]
fn insert_at_empty_path_is_refused_and_changes_nothing() {
    let mut tree = RustModule::new();
    tree.insert_module("a", "// a".to_string()).unwrap();
    let before = text(&tree);
    let err = tree.insert_module("", "// lost".to_string()).unwrap_err();
    assert_eq!(err.kind, ErrorKind::InvalidPath);
    assert_eq!(err.message(), "");
    assert_eq!(text(&tree), before);
}

#[test]
fn children_are_emitted_in_lexicographic_order() {
    let mut tree = RustModule::new();
    tree.insert_module("z", "// z".to_string()).unwrap();
    tree.insert_module("a", "// a".to_string()).unwrap();
    tree.insert_module("m", "// m".to_string()).unwrap();
    assert_eq!(
        text(&tree),
        "pub mod a {\n// a\n}\npub mod m {\n// m\n}\npub mod z {\n// z\n}\n"
    );
}

#[test]
fn insertion_order_does_not_show_in_the_text() {
    let paths = [("x.y", "// x.y"), ("z", "// z"), ("w", "// w"), ("x", "// x"), ("x.a", "// x.a")];
    let mut forward = RustModule::new();
    for (path, contents) in paths.iter() {
        forward.insert_module(path, contents.to_string()).unwrap();
    }
    let mut backward = RustModule::new();
    for (path, contents) in paths.iter().rev() {
        backward.insert_module(path, contents.to_string()).unwrap();
    }
    assert_eq!(text(&forward), text(&backward));
    assert_eq!(
        text(&forward),
        "pub mod w {\n// w\n}\npub mod x {\npub mod a {\n// x.a\n}\npub mod y {\n// x.y\n}\n// x\n}\npub mod z {\n// z\n}\n"
    );
}

#[test]
fn an_intermediate_module_keeps_its_contents() {
    let mut tree = RustModule::new();
    tree.insert_module("a", "// a".to_string()).unwrap();
    tree.insert_module("a.b", "// b".to_string()).unwrap();
    assert_eq!(text(&tree), "pub mod a {\npub mod b {\n// b\n}\n// a\n}\n");
}

#[test]
fn a_prefix_comes_before_its_extensions() {
    let mut tree = RustModule::new();
    tree.insert_module("ab", "2".to_string()).unwrap();
    tree.insert_module("a", "1".to_string()).unwrap();
    tree.insert_module("B", "0".to_string()).unwrap();
    assert_eq!(
        text(&tree),
        "pub mod B {\n0\n}\npub mod a {\n1\n}\npub mod ab {\n2\n}\n"
    );
}

#[test]
fn str_lt_is_the_order_of_strings() {
    let words = ["", "a", "ab", "b", "B", "a.b", "é", "z", "zz", "日本"];
    for a in words.iter() {
        for b in words.iter() {
            assert_eq!(str_lt(a, b), a < b, "{:?} {:?}", a, b);
        }
    }
}

#[test]
fn split_path_splits_on_dots() {
    assert_eq!(split_path("a.b.c"), vec!["a", "b", "c"]);
    assert_eq!(split_path("abc"), vec!["abc"]);
    assert_eq!(split_path(""), vec![""]);
    assert_eq!(split_path("a..b"), vec!["a", "", "b"]);
    assert_eq!(split_path(".a."), vec!["", "a", ""]);
    assert_eq!(split_path("é.日本"), vec!["é", "日本"]);
}

#[test]
fn split_path_agrees_with_str_split() {
    for path in ["", ".", "..", "a", "a.", ".a", "google.protobuf", "a.b.c.d.e"].iter() {
        let expected: Vec<String> = path.split('.').map(|s| s.to_string()).collect();
        assert_eq!(split_path(path), expected);
    }
}
