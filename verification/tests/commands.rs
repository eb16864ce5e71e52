use tack::commands::{add, alias, pin_status, plan, relock, rm, select, short, CommandError};
use tack::pins::{has_input, inputs, parse_document, Input, PinsError};
use tack::ui::PinStatus;
use toml_edit::DocumentMut;

fn doc(text: &str) -> DocumentMut {
    match parse_document(text) {
        Ok(d) => d,
        Err(_) => panic!("parse failed"),
    }
}

fn input(name: &str) -> Input {
    Input { name: name.into(), url: format!("u-{name}"), submodules: false }
}

#[test]
fn short_revisions() {
    assert_eq!(short("0123456789abcdef"), "0123456");
    assert_eq!(short("abc"), "abc");
    assert_eq!(short(""), "");
}

#[test]
fn select_all_or_named() {
    let ins = vec![input("a"), input("b"), input("c")];
    let (all, missing) = select(&ins, &[]);
    assert_eq!(all.iter().map(|i| i.name.as_str()).collect::<Vec<_>>(), vec!["a", "b", "c"]);
    assert!(missing.is_empty());
    let names = vec!["c".to_string(), "zz".to_string(), "a".to_string()];
    let (some, missing) = select(&ins, &names);
    assert_eq!(some.iter().map(|i| i.name.as_str()).collect::<Vec<_>>(), vec!["c", "a"]);
    assert_eq!(missing, vec!["zz".to_string()]);
}

#[test]
fn plan_expands_selected() {
    let d = doc("[shorturls]\ngh = \"github:{path}\"\n[inputs.a]\nurl = \"gh:o/a\"\n[inputs.b]\nurl = \"x:y\"\nsubmodules = true\n");
    let p = match plan(&d, &["b".to_string(), "q".to_string()]) {
        Ok(p) => p,
        Err(_) => panic!("plan failed"),
    };
    assert_eq!(p.pins, vec![("b".to_string(), "x:y".to_string(), true)]);
    assert_eq!(p.missing, vec!["q".to_string()]);
    let p = match plan(&d, &[]) {
        Ok(p) => p,
        Err(_) => panic!("plan failed"),
    };
    assert_eq!(p.pins[0], ("a".to_string(), "github:o/a".to_string(), false));
    assert!(matches!(plan(&doc("[inputs]\na = 1\n"), &[]), Err(CommandError::Pins(_))));
}

#[test]
fn add_refuses_existing_and_expands() {
    let mut d = doc("[shorturls]\ngh = \"github:{path}\"\n");
    match add(&mut d, "n", "gh:o/r", true, None, false, &[]) {
        Ok(u) => assert_eq!(u, "github:o/r"),
        Err(_) => panic!("add failed"),
    }
    assert!(has_input(&d, "n"));
    match add(&mut d, "n", "other", true, None, false, &[]) {
        Err(CommandError::AlreadyExists(n)) => assert_eq!(n, "n"),
        _ => panic!("expected refusal"),
    }
    match inputs(&d) {
        Ok(v) => assert_eq!(v[0].url, "gh:o/r"),
        Err(_) => panic!("inputs failed"),
    }
}

#[test]
fn rm_refuses_unknown() {
    let mut d = doc("[inputs.a]\nurl = \"u\"\n");
    assert!(rm(&mut d, "a").is_ok());
    match rm(&mut d, "a") {
        Err(CommandError::NoInput(n)) => assert_eq!(n, "a"),
        _ => panic!("expected refusal"),
    }
}

#[test]
fn alias_requires_path_placeholder() {
    let mut d = doc("");
    assert!(matches!(alias(&mut d, "gh", Some("github:"), false), Err(CommandError::TemplateWithoutPath)));
    assert!(alias(&mut d, "gh", Some("github:{path}"), false).is_ok());
    assert!(alias(&mut d, "gh", None, true).is_ok());
    match alias(&mut d, "gh", None, true) {
        Err(CommandError::NoAlias(n)) => assert_eq!(n, "gh"),
        _ => panic!("expected refusal"),
    }
}

#[test]
fn statuses_from_fetches() {
    let (st, relock) = pin_status(Some("abcdef0123"), Ok("abcdef0123"));
    assert!(matches!(st, PinStatus::NoChange) && !relock);
    let (st, relock) = pin_status(Some("abcdef0123"), Ok("9999999999"));
    match st {
        PinStatus::Updated { old, new } => {
            assert_eq!(old, "abcdef0");
            assert_eq!(new, "9999999");
        }
        _ => panic!("expected update"),
    }
    assert!(relock);
    let (st, relock) = pin_status(None, Ok("1234567890"));
    match st {
        PinStatus::Updated { old, new } => {
            assert_eq!(old, "NEW");
            assert_eq!(new, "1234567");
        }
        _ => panic!("expected update"),
    }
    assert!(relock);
    let (st, relock) = pin_status(Some("a"), Err("network down"));
    match st {
        PinStatus::Failed(m) => assert_eq!(m, "network down"),
        _ => panic!("expected failure"),
    }
    assert!(!relock);
}

#[test]
fn command_error_messages() {
    assert_eq!(CommandError::AlreadyExists("a".to_string()).message(), "input 'a' already exists");
    assert_eq!(CommandError::NoInput("a".to_string()).message(), "no input 'a'");
    assert_eq!(CommandError::NoAlias("gh".to_string()).message(), "no alias 'gh'");
    assert_eq!(CommandError::TemplateWithoutPath.message(), "alias template must contain '{path}'");
    assert_eq!(
        CommandError::Pins(PinsError::NotATable("x".to_string())).message(),
        "input 'x' is not a table"
    );
    match plan(&doc("[inputs.a]\nflake = false\n"), &[]) {
        Err(e) => assert_eq!(e.message(), "input 'a' has no url"),
        Ok(_) => panic!("expected an error"),
    }
}

#[test]
fn relock_pairs_names_with_new_nodes() {
    let names = vec!["a".to_string(), "b".to_string(), "c".to_string()];
    let w = relock(&names, vec![Some(1), None, Some(3)]);
    assert_eq!(w, vec![("a".to_string(), 1), ("c".to_string(), 3)]);
    assert!(relock(&names, vec![None::<i32>, None, None]).is_empty());
    assert_eq!(relock(&names[..1], vec![Some(7), Some(8)]), vec![("a".to_string(), 7)]);
}
