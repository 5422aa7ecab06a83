//! A static name for each message type.
use vstd::prelude::*;

verus! {

/// A trait to provide a static reference to the message's name.
pub trait NamedMessage {
    const NAME: &'static str;
}

impl NamedMessage for bool {
    const NAME: &'static str = "google.protobuf.BoolValue";
}

/// `bytes::Bytes`, declared so that it can carry its name.
#[verifier::external_type_specification]
#[verifier::external_body]
pub struct ExBytes(bytes::Bytes);

impl NamedMessage for bytes::Bytes {
    const NAME: &'static str = "google.protobuf.BytesValue";
}

impl NamedMessage for Vec<u8> {
    const NAME: &'static str = "google.protobuf.BytesValue";
}

impl NamedMessage for () {
    const NAME: &'static str = "google.protobuf.Empty";
}

impl NamedMessage for i32 {
    const NAME: &'static str = "google.protobuf.Int32Value";
}

impl NamedMessage for i64 {
    const NAME: &'static str = "google.protobuf.Int64Value";
}

impl NamedMessage for String {
    const NAME: &'static str = "google.protobuf.StringValue";
}

impl NamedMessage for u32 {
    const NAME: &'static str = "google.protobuf.UInt32Value";
}

impl NamedMessage for u64 {
    const NAME: &'static str = "google.protobuf.UInt64Value";
}

// The well-known message types of `prost_types`, declared so that they can
// carry their names. Nothing is assumed of them beyond their existence.
#[verifier::external_type_specification]
#[verifier::external_body]
pub struct ExAny(prost_types::Any);

#[verifier::external_type_specification]
#[verifier::external_body]
pub struct ExApi(prost_types::Api);

#[verifier::external_type_specification]
#[verifier::external_body]
pub struct ExDescriptorProto(prost_types::DescriptorProto);

#[verifier::external_type_specification]
#[verifier::external_body]
pub struct ExDuration(prost_types::Duration);

#[verifier::external_type_specification]
#[verifier::external_body]
pub struct ExEnum(prost_types::Enum);

#[verifier::external_type_specification]
#[verifier::external_body]
pub struct ExEnumDescriptorProto(prost_types::EnumDescriptorProto);

#[verifier::external_type_specification]
#[verifier::external_body]
pub struct ExEnumOptions(prost_types::EnumOptions);

#[verifier::external_type_specification]
#[verifier::external_body]
pub struct ExEnumValue(prost_types::EnumValue);

#[verifier::external_type_specification]
#[verifier::external_body]
pub struct ExEnumValueDescriptorProto(prost_types::EnumValueDescriptorProto);

#[verifier::external_type_specification]
#[verifier::external_body]
pub struct ExEnumValueOptions(prost_types::EnumValueOptions);

#[verifier::external_type_specification]
#[verifier::external_body]
pub struct ExExtensionRangeOptions(prost_types::ExtensionRangeOptions);

#[verifier::external_type_specification]
#[verifier::external_body]
pub struct ExField(prost_types::Field);

#[verifier::external_type_specification]
#[verifier::external_body]
pub struct ExFieldDescriptorProto(prost_types::FieldDescriptorProto);

#[verifier::external_type_specification]
#[verifier::external_body]
pub struct ExFieldMask(prost_types::FieldMask);

#[verifier::external_type_specification]
#[verifier::external_body]
pub struct ExFieldOptions(prost_types::FieldOptions);

#[verifier::external_type_specification]
#[verifier::external_body]
pub struct ExGeneratedCodeInfo(prost_types::GeneratedCodeInfo);

#[verifier::external_type_specification]
#[verifier::external_body]
pub struct ExListValue(prost_types::ListValue);

#[verifier::external_type_specification]
#[verifier::external_body]
pub struct ExMessageOptions(prost_types::MessageOptions);

#[verifier::external_type_specification]
#[verifier::external_body]
pub struct ExMethod(prost_types::Method);

#[verifier::external_type_specification]
#[verifier::external_body]
pub struct ExMethodDescriptorProto(prost_types::MethodDescriptorProto);

#[verifier::external_type_specification]
#[verifier::external_body]
pub struct ExMethodOptions(prost_types::MethodOptions);

#[verifier::external_type_specification]
#[verifier::external_body]
pub struct ExMixin(prost_types::Mixin);

#[verifier::external_type_specification]
#[verifier::external_body]
pub struct ExOneofDescriptorProto(prost_types::OneofDescriptorProto);

#[verifier::external_type_specification]
#[verifier::external_body]
pub struct ExOneofOptions(prost_types::OneofOptions);

#[verifier::external_type_specification]
#[verifier::external_body]
pub struct ExOption(prost_types::Option);

#[verifier::external_type_specification]
#[verifier::external_body]
pub struct ExServiceDescriptorProto(prost_types::ServiceDescriptorProto);

#[verifier::external_type_specification]
#[verifier::external_body]
pub struct ExServiceOptions(prost_types::ServiceOptions);

#[verifier::external_type_specification]
#[verifier::external_body]
pub struct ExSourceCodeInfo(prost_types::SourceCodeInfo);

#[verifier::external_type_specification]
#[verifier::external_body]
pub struct ExSourceContext(prost_types::SourceContext);

#[verifier::external_type_specification]
#[verifier::external_body]
pub struct ExStruct(prost_types::Struct);

#[verifier::external_type_specification]
#[verifier::external_body]
pub struct ExTimestamp(prost_types::Timestamp);

#[verifier::external_type_specification]
#[verifier::external_body]
pub struct ExType(prost_types::Type);

#[verifier::external_type_specification]
#[verifier::external_body]
pub struct ExUninterpretedOption(prost_types::UninterpretedOption);

#[verifier::external_type_specification]
#[verifier::external_body]
pub struct ExValue(prost_types::Value);

impl NamedMessage for prost_types::Any {
    const NAME: &'static str = "google.protobuf.Any";
}

impl NamedMessage for prost_types::Api {
    const NAME: &'static str = "google.protobuf.Api";
}

impl NamedMessage for prost_types::DescriptorProto {
    const NAME: &'static str = "google.protobuf.DescriptorProto";
}

impl NamedMessage for prost_types::Duration {
    const NAME: &'static str = "google.protobuf.Duration";
}

impl NamedMessage for prost_types::Enum {
    const NAME: &'static str = "google.protobuf.Enum";
}

impl NamedMessage for prost_types::EnumDescriptorProto {
    const NAME: &'static str = "google.protobuf.EnumDescriptorProto";
}

impl NamedMessage for prost_types::EnumOptions {
    const NAME: &'static str = "google.protobuf.EnumOptions";
}

impl NamedMessage for prost_types::EnumValue {
    const NAME: &'static str = "google.protobuf.EnumValue";
}

impl NamedMessage for prost_types::EnumValueDescriptorProto {
    const NAME: &'static str = "google.protobuf.EnumValueDescriptorProto";
}

impl NamedMessage for prost_types::EnumValueOptions {
    const NAME: &'static str = "google.protobuf.EnumValueOptions";
}

impl NamedMessage for prost_types::ExtensionRangeOptions {
    const NAME: &'static str = "google.protobuf.ExtensionRangeOptions";
}

impl NamedMessage for prost_types::Field {
    const NAME: &'static str = "google.protobuf.Field";
}

impl NamedMessage for prost_types::FieldDescriptorProto {
    const NAME: &'static str = "google.protobuf.FieldDescriptorProto";
}

impl NamedMessage for prost_types::FieldMask {
    const NAME: &'static str = "google.protobuf.FieldMask";
}

impl NamedMessage for prost_types::FieldOptions {
    const NAME: &'static str = "google.protobuf.FieldOptions";
}

impl NamedMessage for prost_types::GeneratedCodeInfo {
    const NAME: &'static str = "google.protobuf.GeneratedCodeInfo";
}

impl NamedMessage for prost_types::ListValue {
    const NAME: &'static str = "google.protobuf.ListValue";
}

impl NamedMessage for prost_types::MessageOptions {
    const NAME: &'static str = "google.protobuf.MessageOptions";
}

impl NamedMessage for prost_types::Method {
    const NAME: &'static str = "google.protobuf.Method";
}

impl NamedMessage for prost_types::MethodDescriptorProto {
    const NAME: &'static str = "google.protobuf.MethodDescriptorProto";
}

impl NamedMessage for prost_types::MethodOptions {
    const NAME: &'static str = "google.protobuf.MethodOptions";
}

impl NamedMessage for prost_types::Mixin {
    const NAME: &'static str = "google.protobuf.Mixin";
}

impl NamedMessage for prost_types::OneofDescriptorProto {
    const NAME: &'static str = "google.protobuf.OneofDescriptorProto";
}

impl NamedMessage for prost_types::OneofOptions {
    const NAME: &'static str = "google.protobuf.OneofOptions";
}

impl NamedMessage for prost_types::Option {
    const NAME: &'static str = "google.protobuf.Option";
}

impl NamedMessage for prost_types::ServiceDescriptorProto {
    const NAME: &'static str = "google.protobuf.ServiceDescriptorProto";
}

impl NamedMessage for prost_types::ServiceOptions {
    const NAME: &'static str = "google.protobuf.ServiceOptions";
}

impl NamedMessage for prost_types::SourceCodeInfo {
    const NAME: &'static str = "google.protobuf.SourceCodeInfo";
}

impl NamedMessage for prost_types::SourceContext {
    const NAME: &'static str = "google.protobuf.SourceContext";
}

impl NamedMessage for prost_types::Struct {
    const NAME: &'static str = "google.protobuf.Struct";
}

impl NamedMessage for prost_types::Timestamp {
    const NAME: &'static str = "google.protobuf.Timestamp";
}

impl NamedMessage for prost_types::Type {
    const NAME: &'static str = "google.protobuf.Type";
}

impl NamedMessage for prost_types::UninterpretedOption {
    const NAME: &'static str = "google.protobuf.UninterpretedOption";
}

impl NamedMessage for prost_types::Value {
    const NAME: &'static str = "google.protobuf.Value";
}

} // verus!
