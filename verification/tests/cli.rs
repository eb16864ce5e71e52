use tack::cli::{parse, parse_follows, CliArg, CliError, Command};

fn run(args: &[&str]) -> Result<Command, CliError> {
    parse(lexopt::Parser::from_args(args.iter().copied()))
}

#[test]
fn no_arguments_is_help() {
    assert!(matches!(run(&[]), Ok(Command::Help)));
}

#[test]
fn unknown_subcommand_is_help() {
    assert!(matches!(run(&["frobnicate", "--whatever"]), Ok(Command::Help)));
}

#[test]
fn option_before_subcommand_is_refused() {
    match run(&["--force"]) {
        Err(CliError::Unexpected(CliArg::Long(o))) => assert_eq!(o, "force"),
        _ => panic!("expected an unexpected option"),
    }
}

#[test]
fn init_force() {
    assert!(matches!(run(&["init"]), Ok(Command::Init { force: false })));
    assert!(matches!(run(&["init", "--force"]), Ok(Command::Init { force: true })));
    assert!(matches!(run(&["init", "x"]), Err(CliError::Unexpected(CliArg::Value(Some(_))))));
}

#[test]
fn update_names_and_accept() {
    match run(&["update", "a", "--accept", "b"]) {
        Ok(Command::Update { names, accept }) => {
            assert_eq!(names, vec!["a".to_string(), "b".to_string()]);
            assert!(accept);
        }
        _ => panic!("expected update"),
    }
}

#[test]
fn look_refuses_accept() {
    match run(&["look", "a"]) {
        Ok(Command::Look { names }) => assert_eq!(names, vec!["a".to_string()]),
        _ => panic!("expected look"),
    }
    assert!(matches!(run(&["look", "--accept"]), Err(CliError::Unexpected(CliArg::Long(_)))));
}

#[test]
fn add_with_options() {
    match run(&["add", "np", "github:NixOS/nixpkgs", "--no-flake", "--dir", "sub", "--submodules", "--follows", "a=b", "--follows=c"]) {
        Ok(Command::Add { name, url, flake, dir, submodules, follows }) => {
            assert_eq!(name, "np");
            assert_eq!(url, "github:NixOS/nixpkgs");
            assert!(!flake);
            assert_eq!(dir.as_deref(), Some("sub"));
            assert!(submodules);
            assert_eq!(
                follows,
                vec![("a".to_string(), "b".to_string()), ("c".to_string(), "c".to_string())]
            );
        }
        _ => panic!("expected add"),
    }
}

#[test]
fn add_defaults_and_errors() {
    match run(&["add", "n", "u"]) {
        Ok(Command::Add { flake, dir, submodules, follows, .. }) => {
            assert!(flake && dir.is_none() && !submodules && follows.is_empty());
        }
        _ => panic!("expected add"),
    }
    assert!(matches!(run(&["add"]), Err(CliError::AddMissingName)));
    assert!(matches!(run(&["add", "n"]), Err(CliError::AddMissingUrl)));
    assert!(matches!(run(&["add", "n", "u", "v"]), Err(CliError::AddTooMany)));
    assert!(matches!(run(&["add", "n", "u", "--dir"]), Err(CliError::Lexopt(_))));
}

#[test]
fn rm_takes_one_name() {
    match run(&["rm", "np"]) {
        Ok(Command::Rm { name }) => assert_eq!(name, "np"),
        _ => panic!("expected rm"),
    }
    assert!(matches!(run(&["rm"]), Err(CliError::RmMissingName)));
    assert!(matches!(run(&["rm", "a", "b"]), Err(CliError::Unexpected(CliArg::Value(Some(_))))));
}

#[test]
fn alias_forms() {
    match run(&["alias", "gh", "github:{path}"]) {
        Ok(Command::Alias { name, template, rm }) => {
            assert_eq!(name, "gh");
            assert_eq!(template.as_deref(), Some("github:{path}"));
            assert!(!rm);
        }
        _ => panic!("expected alias"),
    }
    assert!(matches!(run(&["alias", "--rm", "gh"]), Ok(Command::Alias { rm: true, template: None, .. })));
    assert!(matches!(run(&["alias", "gh"]), Err(CliError::AliasMissingTemplate)));
    assert!(matches!(run(&["alias"]), Err(CliError::AliasMissingName)));
    assert!(matches!(run(&["alias", "a", "b", "c"]), Err(CliError::AliasTooMany)));
}

#[test]
fn follows_pairs() {
    assert_eq!(parse_follows("child=parent"), ("child".to_string(), "parent".to_string()));
    assert_eq!(parse_follows("same"), ("same".to_string(), "same".to_string()));
    assert_eq!(parse_follows("a=b=c"), ("a".to_string(), "b=c".to_string()));
    assert_eq!(parse_follows("=x"), ("".to_string(), "x".to_string()));
}

fn message_of(args: &[&str]) -> String {
    match run(args) {
        Err(e) => e.message(),
        Ok(_) => panic!("expected an error"),
    }
}

#[test]
fn error_messages() {
    assert_eq!(message_of(&["init", "--bogus"]), "invalid option '--bogus'");
    assert_eq!(message_of(&["init", "-x"]), "invalid option '-x'");
    assert_eq!(message_of(&["init", "stray"]), "unexpected argument \"stray\"");
    assert_eq!(message_of(&["add", "a"]), "add: missing <url>");
    assert_eq!(message_of(&["add", "a", "b", "c"]), "add takes at most <name> <url>");
    assert_eq!(message_of(&["rm"]), "rm: missing <name>");
    assert_eq!(message_of(&["alias", "gh"]), "alias: missing <template> (or pass --rm)");
    assert_eq!(message_of(&["add", "a", "b", "--dir"]), "missing argument for option '--dir'");
    assert_eq!(CliError::Unexpected(CliArg::Value(None)).message(), "unexpected argument (not valid unicode)");
}
