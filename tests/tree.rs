use grpc_build::tree::Tree;

fn tree_of(names: &[&str]) -> Tree {
    let names: Vec<String> = names.iter().map(|n| n.to_string()).collect();
    Tree::from_names(&names).unwrap()
}

fn leaf() -> Tree {
    Tree::new()
}

#[test]
fn build_tree() {
    let tree = tree_of(&[
        "grpc_build.client.helloworld.rs",
        "grpc_build.request.helloworld.rs",
        "grpc_build.response.helloworld.rs",
        "google.protobuf.foo.rs",
        "google.protobuf.bar.rs",
    ]);

    let expected = Tree::new()
        .with_child(
            "grpc_build",
            Tree::new()
                .with_child("client", Tree::new().with_child("helloworld", leaf()))
                .with_child("request", Tree::new().with_child("helloworld", leaf()))
                .with_child("response", Tree::new().with_child("helloworld", leaf())),
        )
        .with_child(
            "google",
            Tree::new().with_child(
                "protobuf",
                Tree::new().with_child("foo", leaf()).with_child("bar", leaf()),
            ),
        );

    assert!(tree.same_paths(&expected));
}

#[test]
fn generate_module_returns_at_current_level() {
    let tree = tree_of(&[
        "grpc_build.client.helloworld.rs",
        "grpc_build.request.helloworld.rs",
        "grpc_build.response.helloworld.rs",
        "google.protobuf.foo.rs",
        "google.protobuf.bar.rs",
        "alphabet.foo.rs",
        "hello.rs",
    ]);

    let expected = "// Module generated with `grpc_build`
pub mod alphabet;
pub mod google;
pub mod grpc_build;
pub mod hello;

";

    assert_eq!(tree.generate_module(), expected);
}

#[test]
fn generate_module_returns_at_current_level_nested() {
    let tree = tree_of(&[
        "grpc_build.client.helloworld.rs",
        "grpc_build.request.helloworld.rs",
        "grpc_build.response.helloworld.rs",
        "google.protobuf.foo.rs",
        "google.protobuf.bar.rs",
        "alphabet.foo.rs",
        "hello.rs",
    ]);

    let inner_tree = tree.get("grpc_build").unwrap();
    let expected = "// Module generated with `grpc_build`
pub mod client;
pub mod request;
pub mod response;

";

    assert_eq!(inner_tree.generate_module(), expected);
}

#[test]
fn insertion_order_does_not_change_the_tree() {
    let a = tree_of(&["b.c.rs", "a.rs", "b.d.rs", "a.x.y.rs"]);
    let b = tree_of(&["a.x.y.rs", "b.d.rs", "a.rs", "b.c.rs", "a.rs"]);
    assert!(a.same_paths(&b));
    assert!(b.same_paths(&a));
    assert_eq!(a.generate_module(), b.generate_module());
    assert_eq!(
        a.get("b").unwrap().generate_module(),
        b.get("b").unwrap().generate_module()
    );
}

#[test]
fn different_trees_are_told_apart() {
    let a = tree_of(&["a.b.rs", "c.rs"]);
    let b = tree_of(&["a.b.rs", "c.d.rs"]);
    let c = tree_of(&["a.b.rs"]);
    assert!(!a.same_paths(&b));
    assert!(!a.same_paths(&c));
    assert!(!c.same_paths(&a));
}

#[test]
fn inserting_a_name_twice_changes_nothing() {
    let mut t = tree_of(&["a.b.c.rs"]);
    let before = tree_of(&["a.b.c.rs"]);
    t.insert_path("a.b.c.rs").unwrap();
    assert!(t.same_paths(&before));
    assert_eq!(t.children.len(), 1);
}

#[test]
fn generate_module_is_repeatable() {
    let t = tree_of(&["zeta.rs", "alpha.beta.rs", "mid.rs"]);
    let first = t.generate_module();
    let second = t.generate_module();
    assert_eq!(first, second);
    assert_eq!(
        first,
        "// Module generated with `grpc_build`\npub mod alpha;\npub mod mid;\npub mod zeta;\n\n"
    );
}

#[test]
fn generate_module_of_a_leaf_has_no_entries() {
    let t = Tree::new();
    assert!(t.is_leaf());
    assert_eq!(t.generate_module(), "// Module generated with `grpc_build`\n\n");
}

#[test]
fn top_level_index_lists_alphabet_and_hello_only() {
    let t = tree_of(&["alphabet.foo.x", "hello.x"]);
    assert_eq!(
        t.generate_module(),
        "// Module generated with `grpc_build`\npub mod alphabet;\npub mod hello;\n\n"
    );
    assert_eq!(t.child_names(), vec!["alphabet".to_string(), "hello".to_string()]);
}

#[test]
fn malformed_names_are_refused() {
    let mut t = Tree::new();
    let err = t.insert_path("a..b.rs").unwrap_err();
    assert_eq!(
        err,
        grpc_build::error::Error::MalformedName { name: "a..b.rs".to_string() }
    );
    assert!(t.is_leaf());
    assert!(t.insert_path(".rs").is_err());
    assert!(t.insert_path("").is_err());
    let names = vec!["ok.rs".to_string(), "bad..rs".to_string()];
    assert_eq!(
        Tree::from_names(&names).unwrap_err(),
        grpc_build::error::Error::MalformedName { name: "bad..rs".to_string() }
    );
}

#[test]
fn names_without_extension_are_their_own_stem() {
    let t = tree_of(&["hello"]);
    assert_eq!(t.child_names(), vec!["hello".to_string()]);
    assert!(t.get("hello").unwrap().is_leaf());
    assert!(t.get("missing").is_none());
}

#[test]
fn child_names_sort_by_code_point() {
    let t = tree_of(&["b.rs", "B.rs", "a_b.rs", "ab.rs", "a.rs"]);
    assert_eq!(t.child_names(), vec!["B", "a", "a_b", "ab", "b"]);
}

#[test]
fn inserting_marks_the_last_segment() {
    let t = tree_of(&["a.b.rs", "a.rs", "c.d.rs"]);
    assert!(!t.has_file);
    assert!(t.get("a").unwrap().has_file);
    assert!(t.get("a").unwrap().get("b").unwrap().has_file);
    assert!(!t.get("c").unwrap().has_file);
    assert!(t.get("c").unwrap().get("d").unwrap().has_file);
}
