use std::collections::BTreeMap;

use grpc_build::error::Error;
use grpc_build::relocate::{check_merge, plan_refactor, select_namespace_files, FileOp};
use grpc_build::tree::Tree;

/// Carries out a plan on an in-memory directory: path to contents.
fn run(files: &mut BTreeMap<String, String>, ops: &[FileOp]) {
    for op in ops {
        match op {
            FileOp::Move { from, to } => {
                let contents = files.remove(from).expect("moved file exists");
                files.insert(to.clone(), contents);
            }
            FileOp::Write { path, contents } => {
                files.insert(path.clone(), contents.clone());
            }
            FileOp::Merge { from, to } => {
                check_merge(from, to).unwrap();
                let contents = files.remove(from).expect("merged file exists");
                files.get_mut(to).expect("merge target exists").push_str(&contents);
            }
        }
    }
}

fn flat_dir(names: &[&str]) -> BTreeMap<String, String> {
    names
        .iter()
        .map(|n| (n.to_string(), format!("// {} contents", n)))
        .collect()
}

fn refactor_in_memory(files: &mut BTreeMap<String, String>, ext: &str) {
    let names: Vec<String> = files.keys().cloned().collect();
    let ops = plan_refactor(&names, ext, &format!("mod.{}", ext)).unwrap();
    run(files, &ops);
}

#[test]
fn refactor_test_moves_files_to_correct_place() {
    let files = vec![
        "root.pak.a1.rs",
        "root.pak.a2.rs",
        "root.pak.rs",
        "root.now.deeply.nested.rs",
        "root.rs",
        "other.rs",
    ];
    let mut dir = flat_dir(&files);

    let expected_file_contents = vec![
        ("root/pak/a1.rs", vec!["// root.pak.a1.rs contents"]),
        ("root/pak/a2.rs", vec!["// root.pak.a2.rs content"]),
        (
            "root/pak.rs",
            vec!["pub mod a1;", "pub mod a2;", "// root.pak.rs contents"],
        ),
        ("root/now.rs", vec!["pub mod deeply;"]),
        ("root/now/deeply.rs", vec!["pub mod nested;"]),
        (
            "root/now/deeply/nested.rs",
            vec!["// root.now.deeply.nested.rs contents"],
        ),
        (
            "root.rs",
            vec!["pub mod pak;", "pub mod now;", "// root.rs contents"],
        ),
        ("mod.rs", vec!["pub mod other;", "pub mod root;"]),
        ("other.rs", vec!["// other.rs contents"]),
    ];

    refactor_in_memory(&mut dir, "rs");

    for (file, contents) in &expected_file_contents {
        let content = dir.get(*file).unwrap_or_else(|| panic!("{} is missing", file));
        for line in contents {
            assert!(
                content.contains(line),
                "{} does not contain {}",
                content,
                line
            );
        }
    }
}

#[test]
fn nested_layout_of_grpc_and_google_namespaces() {
    let mut dir = flat_dir(&[
        "grpc_build.client.helloworld.x",
        "grpc_build.request.helloworld.x",
        "grpc_build.response.helloworld.x",
        "google.protobuf.foo.x",
        "google.protobuf.bar.x",
    ]);
    refactor_in_memory(&mut dir, "x");

    let mut paths: Vec<&str> = dir.keys().map(|k| k.as_str()).collect();
    paths.sort();
    assert_eq!(
        paths,
        vec![
            "google.x",
            "google/protobuf.x",
            "google/protobuf/bar.x",
            "google/protobuf/foo.x",
            "grpc_build.x",
            "grpc_build/client.x",
            "grpc_build/client/helloworld.x",
            "grpc_build/request.x",
            "grpc_build/request/helloworld.x",
            "grpc_build/response.x",
            "grpc_build/response/helloworld.x",
            "mod.x",
        ]
    );
    assert_eq!(
        dir["mod.x"],
        "// Module generated with `grpc_build`\npub mod google;\npub mod grpc_build;\n\n"
    );
    assert_eq!(
        dir["grpc_build.x"],
        "// Module generated with `grpc_build`\npub mod client;\npub mod request;\npub mod response;\n\n"
    );
    assert_eq!(
        dir["grpc_build/client.x"],
        "// Module generated with `grpc_build`\npub mod helloworld;\n\n"
    );
    assert_eq!(
        dir["google/protobuf.x"],
        "// Module generated with `grpc_build`\npub mod bar;\npub mod foo;\n\n"
    );
    assert_eq!(
        dir["google/protobuf/foo.x"],
        "// google.protobuf.foo.x contents"
    );
}

#[test]
fn top_level_index_of_alphabet_and_hello() {
    let mut dir = flat_dir(&["alphabet.foo.x", "hello.x"]);
    refactor_in_memory(&mut dir, "x");
    assert_eq!(
        dir["mod.x"],
        "// Module generated with `grpc_build`\npub mod alphabet;\npub mod hello;\n\n"
    );
    assert_eq!(dir["hello.x"], "// hello.x contents");
    assert_eq!(dir["alphabet/foo.x"], "// alphabet.foo.x contents");
}

#[test]
fn self_merge_is_refused() {
    let mut dir = flat_dir(&["a.rs"]);
    let err = check_merge("a.rs", "a.rs").unwrap_err();
    assert_eq!(err, Error::SelfMerge { path: "a.rs".to_string() });
    assert!(err.message().contains("same"));
    assert_eq!(dir["a.rs"], "// a.rs contents");
    assert!(check_merge("a.rs", "a.tmp.rs").is_ok());
    assert!(check_merge("d/./f.rs", "d/f.rs").is_err());
    assert!(check_merge("d//f.rs", "./d/f.rs").is_err());
    assert!(check_merge("d/f.rs/", "d/f.rs").is_err());
    assert!(check_merge("/d/f.rs", "d/f.rs").is_ok());
    assert!(check_merge("d/../f.rs", "f.rs").is_ok());
    dir.clear();
}

#[test]
fn dual_role_index_keeps_own_bytes_after_exports() {
    let mut dir = flat_dir(&["root.rs", "root.a.rs", "root.b.c.rs"]);
    refactor_in_memory(&mut dir, "rs");
    assert_eq!(
        dir["root.rs"],
        "// Module generated with `grpc_build`\npub mod a;\npub mod b;\n\n// root.rs contents"
    );
    assert_eq!(
        dir["root/b.rs"],
        "// Module generated with `grpc_build`\npub mod c;\n\n"
    );
    assert!(!dir.contains_key("root.tmp.rs"));
    assert!(!dir.contains_key("root.b.c.rs"));
}

#[test]
fn leaf_files_keep_their_bytes() {
    let mut dir = flat_dir(&["a.b.c.rs"]);
    refactor_in_memory(&mut dir, "rs");
    assert_eq!(dir["a/b/c.rs"], "// a.b.c.rs contents");
    assert!(!dir.contains_key("a.b.c.rs"));
}

#[test]
fn plan_moves_children_before_writing_parent_index() {
    let names = vec!["p.q.rs".to_string(), "p.rs".to_string()];
    let t = Tree::from_names(&names).unwrap();
    let ops = t.plan_relocation("rs", "mod.rs");
    assert_eq!(ops.len(), 5);
    match &ops[0] {
        FileOp::Move { from, to } => {
            assert_eq!(from, "p.q.rs");
            assert_eq!(to, "p/q.rs");
        }
        other => panic!("unexpected {:?}", other),
    }
    match &ops[1] {
        FileOp::Write { path, contents } => {
            assert_eq!(path, "p.tmp.rs");
            assert_eq!(contents, "// Module generated with `grpc_build`\npub mod q;\n\n");
        }
        other => panic!("unexpected {:?}", other),
    }
    match &ops[2] {
        FileOp::Merge { from, to } => {
            assert_eq!(from, "p.rs");
            assert_eq!(to, "p.tmp.rs");
        }
        other => panic!("unexpected {:?}", other),
    }
    match &ops[3] {
        FileOp::Move { from, to } => {
            assert_eq!(from, "p.tmp.rs");
            assert_eq!(to, "p.rs");
        }
        other => panic!("unexpected {:?}", other),
    }
    match &ops[4] {
        FileOp::Write { path, .. } => assert_eq!(path, "mod.rs"),
        other => panic!("unexpected {:?}", other),
    }
}

#[test]
fn empty_tree_only_writes_the_top_index() {
    let ops = Tree::new().plan_relocation("rs", "mod.rs");
    assert_eq!(ops.len(), 1);
    match &ops[0] {
        FileOp::Write { path, contents } => {
            assert_eq!(path, "mod.rs");
            assert_eq!(contents, "// Module generated with `grpc_build`\n\n");
        }
        other => panic!("unexpected {:?}", other),
    }
}

#[test]
fn selection_skips_index_and_other_extensions() {
    let names: Vec<String> = ["a.rs", "mod.rs", "b.txt", ".rs", "c.d.rs", "rs"]
        .iter()
        .map(|s| s.to_string())
        .collect();
    assert_eq!(
        select_namespace_files(&names, "rs", "mod.rs"),
        vec!["a.rs".to_string(), "c.d.rs".to_string()]
    );
}

#[test]
fn refactor_plan_refuses_malformed_names() {
    let names = vec!["a..b.rs".to_string()];
    assert_eq!(
        plan_refactor(&names, "rs", "mod.rs").unwrap_err(),
        Error::MalformedName { name: "a..b.rs".to_string() }
    );
}

#[test]
fn tmp_segment_does_not_clash_with_scratch_file() {
    let mut dir = flat_dir(&["a.rs", "a.tmp.rs", "a.b.rs"]);
    refactor_in_memory(&mut dir, "rs");
    assert_eq!(dir["a/tmp.rs"], "// a.tmp.rs contents");
    assert_eq!(dir["a/b.rs"], "// a.b.rs contents");
    assert_eq!(
        dir["a.rs"],
        "// Module generated with `grpc_build`\npub mod b;\npub mod tmp;\n\n// a.rs contents"
    );
    assert!(!dir.contains_key("a.tmp.rs"));
    assert_eq!(dir.len(), 4);
}

#[test]
fn namespace_without_own_file_gets_its_index_directly() {
    let names = vec!["p.q.rs".to_string()];
    let t = Tree::from_names(&names).unwrap();
    assert!(!t.get("p").unwrap().has_file);
    let ops = t.plan_relocation("rs", "mod.rs");
    assert_eq!(ops.len(), 3);
    match &ops[1] {
        FileOp::Write { path, contents } => {
            assert_eq!(path, "p.rs");
            assert_eq!(contents, "// Module generated with `grpc_build`\npub mod q;\n\n");
        }
        other => panic!("unexpected {:?}", other),
    }
}

#[test]
fn path_components_drop_dots_and_empty_pieces() {
    let comps = grpc_build::relocate::components_of("./a//b/./c/");
    let expected: Vec<Vec<char>> = vec![vec!['a'], vec!['b'], vec!['c']];
    assert_eq!(comps, expected);
}
