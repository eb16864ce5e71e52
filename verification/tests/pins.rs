use tack::pins::{
    add_input, document_text, has_input, inputs, parse_document, remove_alias, remove_input,
    set_alias, shorturls, PinsError,
};
use tack::shorturl::expand;
use toml_edit::DocumentMut;

const DOC: &str = r#"# my pins
[shorturls]
gh = "github:{path}"
bad = 3

[inputs.nixpkgs]
url = "gh:NixOS/nixpkgs/nixos-unstable"

[inputs.foo]
url = "git+https://x.y/a/b/c/d"
submodules = true
"#;

fn doc(text: &str) -> DocumentMut {
    match parse_document(text) {
        Ok(d) => d,
        Err(_) => panic!("parse failed"),
    }
}

fn names_urls(d: &DocumentMut) -> Vec<(String, String, bool)> {
    match inputs(d) {
        Ok(v) => v.into_iter().map(|i| (i.name, i.url, i.submodules)).collect(),
        Err(_) => panic!("inputs failed"),
    }
}

#[test]
fn reads_inputs_in_order() {
    let d = doc(DOC);
    assert_eq!(
        names_urls(&d),
        vec![
            ("nixpkgs".to_string(), "gh:NixOS/nixpkgs/nixos-unstable".to_string(), false),
            ("foo".to_string(), "git+https://x.y/a/b/c/d".to_string(), true),
        ]
    );
    assert!(has_input(&d, "foo"));
    assert!(!has_input(&d, "bar"));
}

#[test]
fn reads_only_string_aliases() {
    let d = doc(DOC);
    let s = shorturls(&d);
    assert_eq!(expand("gh:a/b", &s), "github:a/b");
    assert_eq!(expand("bad:x", &s), "bad:x");
}

#[test]
fn refuses_bad_inputs() {
    assert!(matches!(parse_document("x = ["), Err(PinsError::Parse(_))));
    let d = doc("[inputs]\na = 1\n");
    match inputs(&d) {
        Err(PinsError::NotATable(n)) => assert_eq!(n, "a"),
        _ => panic!("expected a table error"),
    }
    let d = doc("[inputs.a]\nflake = false\n");
    match inputs(&d) {
        Err(PinsError::NoUrl(n)) => assert_eq!(n, "a"),
        _ => panic!("expected a url error"),
    }
    let d = doc("[inputs]\na = { url = \"u\", submodules = true }\n");
    assert_eq!(names_urls(&d), vec![("a".to_string(), "u".to_string(), true)]);
    assert!(names_urls(&doc("")).is_empty());
}

#[test]
fn add_then_read_back() {
    let mut d = doc(DOC);
    let follows = vec![("a".to_string(), "b".to_string()), ("c".to_string(), "c".to_string())];
    add_input(&mut d, "bar", "gh:x/y", false, Some("sub"), true, &follows);
    assert!(has_input(&d, "bar"));
    let v = names_urls(&d);
    assert_eq!(v.len(), 3);
    assert_eq!(v[2], ("bar".to_string(), "gh:x/y".to_string(), true));
    let text = document_text(&d);
    assert!(text.starts_with("# my pins\n[shorturls]\ngh = \"github:{path}\""));
    let again = doc(&text);
    let t = again["inputs"]["bar"].as_table().unwrap();
    assert_eq!(t.get("flake").and_then(|i| i.as_bool()), Some(false));
    assert_eq!(t.get("dir").and_then(|i| i.as_str()), Some("sub"));
    assert_eq!(t.get("submodules").and_then(|i| i.as_bool()), Some(true));
    assert_eq!(t["follows"]["a"].as_str(), Some("b"));
    assert_eq!(t["follows"]["c"].as_str(), Some("c"));
}

#[test]
fn add_plain_flake_writes_url_only() {
    let mut d = doc("");
    add_input(&mut d, "np", "github:NixOS/nixpkgs", true, None, false, &[]);
    let again = doc(&document_text(&d));
    let t = again["inputs"]["np"].as_table().unwrap();
    assert_eq!(t.len(), 1);
    assert_eq!(t["url"].as_str(), Some("github:NixOS/nixpkgs"));
}

#[test]
fn add_replaces_in_place() {
    let mut d = doc(DOC);
    add_input(&mut d, "nixpkgs", "github:other/nixpkgs", true, None, false, &[]);
    let v = names_urls(&d);
    assert_eq!(v[0], ("nixpkgs".to_string(), "github:other/nixpkgs".to_string(), false));
    assert_eq!(v.len(), 2);
}

#[test]
fn remove_input_and_alias() {
    let mut d = doc(DOC);
    assert!(remove_input(&mut d, "nixpkgs"));
    assert!(!remove_input(&mut d, "nixpkgs"));
    assert_eq!(names_urls(&d).len(), 1);
    assert!(remove_alias(&mut d, "gh"));
    assert!(!remove_alias(&mut d, "gh"));
    assert_eq!(expand("gh:a", &shorturls(&d)), "gh:a");
}

#[test]
fn set_alias_then_expand() {
    let mut d = doc("");
    set_alias(&mut d, "gh", "github:{path}");
    assert_eq!(expand("gh:o/r", &shorturls(&d)), "github:o/r");
    set_alias(&mut d, "gh", "gitlab:{path}");
    assert_eq!(expand("gh:o/r", &shorturls(&d)), "gitlab:o/r");
    let mut d = doc("shorturls = 5\n");
    set_alias(&mut d, "s", "sourcehut:{path}");
    assert_eq!(expand("s:x", &shorturls(&d)), "sourcehut:x");
}

#[test]
fn edits_keep_the_rest_of_the_document() {
    let text = "title = \"mine\"\n[shorturls]\ngh = \"github:{path}\"\n\n[inputs.a]\nurl = \"u\"\n\n[other]\nk = 1\n";
    let mut d = doc(text);
    assert!(!remove_input(&mut d, "zzz"));
    assert!(!remove_alias(&mut d, "zzz"));
    assert_eq!(document_text(&d), text);
    add_input(&mut d, "b", "v", true, None, false, &[]);
    set_alias(&mut d, "gl", "gitlab:{path}");
    let again = doc(&document_text(&d));
    assert_eq!(again["title"].as_str(), Some("mine"));
    assert_eq!(again["other"]["k"].as_integer(), Some(1));
    assert_eq!(names_urls(&again).iter().map(|t| t.0.clone()).collect::<Vec<_>>(), vec!["a", "b"]);
}

#[test]
fn pins_error_messages() {
    match parse_document("x = [") {
        Err(e) => assert!(e.message().contains("x = [")),
        Ok(_) => panic!("expected a parse error"),
    }
    assert_eq!(PinsError::NoUrl("a".to_string()).message(), "input 'a' has no url");
}
