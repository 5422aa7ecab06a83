use grpc_build::naming::{
    escape_self_ident, full_proto_name_annotation, fully_qualified_name,
    named_message_annotation, to_upper_camel,
};
use grpc_build::named::NamedMessage;

#[test]
fn fully_qualified_name_joins_package_and_message() {
    assert_eq!(fully_qualified_name("grpc_build.client", "Hello"), "grpc_build.client.Hello");
    assert_eq!(fully_qualified_name(".grpc_build.client", "Hello"), "grpc_build.client.Hello");
    assert_eq!(fully_qualified_name("..a", "B"), "a.B");
    assert_eq!(fully_qualified_name("", "Hello"), "Hello");
    assert_eq!(fully_qualified_name("...", "Hello"), "Hello");
}

#[test]
fn upper_camel_conversion() {
    assert_eq!(to_upper_camel("snake_case"), "SnakeCase");
    assert_eq!(to_upper_camel("hello_world_request"), "HelloWorldRequest");
    assert_eq!(to_upper_camel("self"), "Self_");
    assert_eq!(to_upper_camel("Self"), "Self_");
    assert_eq!(to_upper_camel(""), "");
}

#[test]
fn escape_self_only_touches_the_keyword() {
    assert_eq!(escape_self_ident("Self".to_string()), "Self_");
    assert_eq!(escape_self_ident("Selfish".to_string()), "Selfish");
    assert_eq!(escape_self_ident("SELF".to_string()), "SELF");
}

#[test]
fn named_message_attribute_text() {
    let (full, attr) = named_message_annotation("pkg.sub", "Msg");
    assert_eq!(full, "pkg.sub.Msg");
    assert_eq!(
        attr,
        "#[derive(::grpc_build_core::NamedMessage)] #[name = \"pkg.sub.Msg\"]"
    );
}

#[test]
fn full_proto_name_impl_text() {
    let (full, text) = full_proto_name_annotation("pkg", "my_msg");
    assert_eq!(full, "pkg.my_msg");
    assert_eq!(
        text,
        "impl MyMsg {
                    pub fn full_proto_name() -> &'static str { \"pkg.my_msg\" }
                }"
    );
}

#[test]
fn well_known_names() {
    assert_eq!(<bool as NamedMessage>::NAME, "google.protobuf.BoolValue");
    assert_eq!(<String as NamedMessage>::NAME, "google.protobuf.StringValue");
    assert_eq!(<() as NamedMessage>::NAME, "google.protobuf.Empty");
    assert_eq!(<Vec<u8> as NamedMessage>::NAME, "google.protobuf.BytesValue");
    assert_eq!(<u64 as NamedMessage>::NAME, "google.protobuf.UInt64Value");
}

#[test]
fn well_known_type_names() {
    assert_eq!(<bytes::Bytes as NamedMessage>::NAME, "google.protobuf.BytesValue");
    assert_eq!(<prost_types::Any as NamedMessage>::NAME, "google.protobuf.Any");
    assert_eq!(<prost_types::Timestamp as NamedMessage>::NAME, "google.protobuf.Timestamp");
    assert_eq!(<prost_types::Value as NamedMessage>::NAME, "google.protobuf.Value");
}
