use grpc_build::segment::{
    chars_equal, check_segments, has_extension, lex_less, segments_of_name, split_chars,
};

fn chars(s: &str) -> Vec<char> {
    s.chars().collect()
}

#[test]
fn split_keeps_empty_pieces() {
    assert_eq!(
        split_chars(&chars("a..b."), '.'),
        vec![chars("a"), vec![], chars("b"), vec![]]
    );
    assert_eq!(split_chars(&chars(""), '.'), vec![Vec::<char>::new()]);
}

#[test]
fn segments_drop_the_extension() {
    assert_eq!(
        segments_of_name("grpc_build.client.helloworld.rs"),
        vec![chars("grpc_build"), chars("client"), chars("helloworld")]
    );
    assert_eq!(segments_of_name("hello"), vec![chars("hello")]);
    assert!(check_segments(&segments_of_name("a.b.rs")));
    assert!(!check_segments(&segments_of_name("a..rs")));
    assert!(!check_segments(&Vec::new()));
}

#[test]
fn extension_follows_the_last_dot() {
    assert!(has_extension("a.b.rs", "rs"));
    assert!(!has_extension(".rs", "rs"));
    assert!(has_extension("..rs", "rs"));
    assert!(has_extension("a.", ""));
    assert!(!has_extension("rs", "rs"));
}

#[test]
fn lexicographic_order() {
    assert!(lex_less(&chars("a"), &chars("b")));
    assert!(lex_less(&chars("ab"), &chars("abc")));
    assert!(!lex_less(&chars("abc"), &chars("ab")));
    assert!(!lex_less(&chars("x"), &chars("x")));
    assert!(lex_less(&chars("Z"), &chars("a")));
    assert!(chars_equal(&chars("same"), &chars("same")));
    assert!(!chars_equal(&chars("same"), &chars("sam")));
}
