use grpc_build::error::Error;
use grpc_build::pipeline::{build, is_proto_file, BuildAction};

#[test]
fn existing_output_is_refused_without_force() {
    let err = build("in", "out", true, true, false, true).unwrap_err();
    assert_eq!(err, Error::DestinationExists { path: "out".to_string() });
    assert_eq!(err.message(), "the output directory already exists: out");
}

#[test]
fn build_stages_in_order() {
    for (force, exists) in [(true, true), (true, false), (false, false)] {
        let actions = build("protos", "gen", false, true, force, exists).unwrap();
        assert_eq!(actions.len(), 3);
        assert!(matches!(&actions[0], BuildAction::PrepareOutDir { out_dir } if out_dir == "gen"));
        assert!(matches!(
            &actions[1],
            BuildAction::Compile { in_dir, out_dir, build_server: false, build_client: true }
                if in_dir == "protos" && out_dir == "gen"
        ));
        assert!(matches!(&actions[2], BuildAction::Refactor { out_dir } if out_dir == "gen"));
    }
}

#[test]
fn proto_files_are_recognised_by_extension() {
    assert!(is_proto_file("hello.proto"));
    assert!(is_proto_file("a.b.proto"));
    assert!(!is_proto_file("proto"));
    assert!(!is_proto_file(".proto"));
    assert!(!is_proto_file("hello.proto.bak"));
    assert!(!is_proto_file("hello.rs"));
}

#[test]
fn main_build() {
    let actions = build(
        "tests/protos/grpc_build",
        "tests/compile_test/protos",
        true,
        true,
        true,
        true,
    )
    .unwrap();
    assert_eq!(actions.len(), 3);
    assert!(matches!(
        &actions[0],
        BuildAction::PrepareOutDir { out_dir } if out_dir == "tests/compile_test/protos"
    ));
    assert!(matches!(
        &actions[1],
        BuildAction::Compile { in_dir, out_dir, build_server: true, build_client: true }
            if in_dir == "tests/protos/grpc_build" && out_dir == "tests/compile_test/protos"
    ));
    assert!(matches!(
        &actions[2],
        BuildAction::Refactor { out_dir } if out_dir == "tests/compile_test/protos"
    ));
}
