//! Names of generated items: fully qualified message names, Rust type
//! identifiers, and the annotations attached to generated messages.
use vstd::prelude::*;
use vstd::string::StringExecFns;

use crate::segment::{chars_of, string_of};

verus! {

/// `s` without its leading characters `c`.
pub open spec fn trim_leading(s: Seq<char>, c: char) -> Seq<char>
    decreases s.len(),
{
    if s.len() > 0 && s[0] == c {
        trim_leading(s.drop_first(), c)
    } else {
        s
    }
}

/// The full name of message `name` in package `namespace` (leading dots of
/// the package dropped): `namespace.name`, or `name` alone where no package
/// is left.
pub open spec fn full_name(namespace: Seq<char>, name: Seq<char>) -> Seq<char> {
    let ns = trim_leading(namespace, '.');
    if ns.len() == 0 {
        name
    } else {
        ns + seq!['.'] + name
    }
}

/// The full name of message `name` in package `namespace`.
pub fn fully_qualified_name(namespace: &str, name: &str) -> (r: String)
    ensures
        r@ == full_name(namespace@, name@),
{
    let ns = chars_of(namespace);
    let mut i: usize = 0;
    assert(ns@.skip(0) =~= ns@);
    while i < ns.len() && ns[i] == '.'
        invariant
            i <= ns@.len(),
            trim_leading(ns@, '.') == trim_leading(ns@.skip(i as int), '.'),
        decreases ns@.len() - i,
    {
        assert(ns@.skip(i as int).drop_first() =~= ns@.skip(i + 1));
        i = i + 1;
    }
    if i < ns.len() {
        assert(ns@.skip(i as int)[0] == ns@[i as int]);
    }
    assert(trim_leading(ns@, '.') == ns@.skip(i as int));
    if i == ns.len() {
        assert(ns@.skip(i as int).len() == 0);
        return name.to_owned();
    }
    let mut out: Vec<char> = Vec::new();
    let mut j: usize = i;
    while j < ns.len()
        invariant
            i <= j <= ns@.len(),
            out@ == ns@.subrange(i as int, j as int),
        decreases ns@.len() - j,
    {
        out.push(ns[j]);
        assert(ns@.subrange(i as int, j + 1) =~= ns@.subrange(i as int, j as int).push(ns@[j as int]));
        j = j + 1;
    }
    assert(out@ =~= ns@.skip(i as int));
    out.push('.');
    let mut full = string_of(&out);
    full.append(name);
    assert(full@ =~= full_name(namespace@, name@));
    full
}

/// What heck's upper camel case conversion returns for `s`.
pub uninterp spec fn upper_camel_of(s: Seq<char>) -> Seq<char>;

/// Relies on `heck::ToUpperCamelCase::to_upper_camel_case` for `str`: the
/// result depends on the characters of `s` alone, and an empty string stays
/// empty.
#[verifier::external_body]
fn upper_camel(s: &str) -> (r: String)
    ensures
        r@ == upper_camel_of(s@),
        s@.len() == 0 ==> r@.len() == 0,
{
    heck::ToUpperCamelCase::to_upper_camel_case(s)
}

/// `ident`, with an underscore added where it is the keyword `Self`, which
/// cannot be written as a raw identifier.
pub open spec fn escape_self(ident: Seq<char>) -> Seq<char> {
    if ident == "Self"@ {
        "Self_"@
    } else {
        ident
    }
}

/// Escapes the keyword `Self` in an upper camel case identifier.
pub fn escape_self_ident(ident: String) -> (r: String)
    ensures
        r@ == escape_self(ident@),
{
    let keyword = String::from_str("Self");
    if ident == keyword {
        let mut escaped = ident;
        escaped.append("_");
        proof {
            reveal_strlit("Self");
            reveal_strlit("_");
            reveal_strlit("Self_");
        }
        assert(escaped@ =~= "Self_"@);
        escaped
    } else {
        ident
    }
}

/// Converts a `snake_case` identifier to an `UpperCamel` case Rust type
/// identifier.
pub fn to_upper_camel(s: &str) -> (r: String)
    ensures
        r@ == escape_self(upper_camel_of(s@)),
{
    let ident = upper_camel(s);
    escape_self_ident(ident)
}

/// The attribute text that names message `name` of package `namespace`.
pub open spec fn named_message_attribute(full: Seq<char>) -> Seq<char> {
    "#[derive(::grpc_build_core::NamedMessage)] #[name = \""@ + full + "\"]"@
}

/// For message `name` of package `namespace`: its full name, and the
/// attribute that derives its `NamedMessage` name from it.
pub fn named_message_annotation(namespace: &str, name: &str) -> (r: (String, String))
    ensures
        r.0@ == full_name(namespace@, name@),
        r.1@ == named_message_attribute(full_name(namespace@, name@)),
{
    let full = fully_qualified_name(namespace, name);
    let mut attr = String::from_str("#[derive(::grpc_build_core::NamedMessage)] #[name = \"");
    attr.append(full.as_str());
    attr.append("\"]");
    (full, attr)
}

/// The impl block that gives the type `item` a `full_proto_name` function
/// returning `full`.
pub open spec fn full_proto_name_impl(item: Seq<char>, full: Seq<char>) -> Seq<char> {
    "impl "@ + item + " {\n                    pub fn full_proto_name() -> &'static str { \""@ + full
        + "\" }\n                }"@
}

/// For message `name` of package `namespace`: its full name, and an impl
/// block on its generated type that returns that name.
pub fn full_proto_name_annotation(namespace: &str, name: &str) -> (r: (String, String))
    ensures
        r.0@ == full_name(namespace@, name@),
        r.1@ == full_proto_name_impl(
            escape_self(upper_camel_of(name@)),
            full_name(namespace@, name@),
        ),
{
    let full = fully_qualified_name(namespace, name);
    let item = to_upper_camel(name);
    let mut text = String::from_str("impl ");
    text.append(item.as_str());
    text.append(" {\n                    pub fn full_proto_name() -> &'static str { \"");
    text.append(full.as_str());
    text.append("\" }\n                }");
    (full, text)
}

} // verus!
