use manifest_pipeline::lexical::str_eq;
use manifest_pipeline::lexical::str_lex_lt;

#[test]
fn lex_order_on_plain_strings() {
    assert!(str_lex_lt("a/y", "b/x"));
    assert!(!str_lex_lt("b/x", "a/y"));
    assert!(!str_lex_lt("a/y", "a/y"));
}

#[test]
fn lex_order_prefix_comes_first() {
    assert!(str_lex_lt("assets", "assets/props"));
    assert!(!str_lex_lt("assets/props", "assets"));
    assert!(str_lex_lt("", "a"));
    assert!(!str_lex_lt("", ""));
}

#[test]
fn string_equality_by_characters() {
    assert!(str_eq("DownloadedManifestHash", "DownloadedManifestHash"));
    assert!(!str_eq("ue", "eu"));
    assert!(!str_eq("ue", "ueue"));
    assert!(str_eq("", ""));
}
