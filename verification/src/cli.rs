//! The command line: subcommands and their options, read through `lexopt`.
use vstd::prelude::*;
use vstd::string::*;

use crate::text::{chars_of, find, find_exec, occurs_at, opt_view, split_once, str_eq, string_of};

verus! {

#[verifier::external_type_specification]
#[verifier::external_body]
pub struct ExParser(lexopt::Parser);

#[verifier::external_type_specification]
#[verifier::external_body]
pub struct ExLexoptError(lexopt::Error);

/// What the user asked for.
pub enum Command {
    Init { force: bool },
    Update { names: Vec<String>, accept: bool },
    Look { names: Vec<String> },
    Add {
        name: String,
        url: String,
        flake: bool,
        dir: Option<String>,
        submodules: bool,
        follows: Vec<(String, String)>,
    },
    Rm { name: String },
    Alias { name: String, template: Option<String>, rm: bool },
    Help,
}

/// One argument as the parser hands it out; a positional value that is not valid
/// unicode is `Value(None)`.
pub enum CliArg {
    Short(char),
    Long(String),
    Value(Option<String>),
}

/// Why the command line was refused.
pub enum CliError {
    /// `lexopt` itself refused the command line.
    Lexopt(lexopt::Error),
    /// An option or argument that this place does not take.
    Unexpected(CliArg),
    InvalidSubcommand,
    BadName,
    BadArgument,
    BadDir,
    BadFollows,
    AddTooMany,
    AddMissingName,
    AddMissingUrl,
    RmMissingName,
    AliasTooMany,
    AliasMissingName,
    AliasMissingTemplate,
}

/// A subcommand whose arguments are being read.
pub enum CliState {
    Init { force: bool },
    /// `update` (with `update` set) or `look`.
    List { update: bool, names: Vec<String>, accept: bool },
    Add {
        name: Option<String>,
        url: Option<String>,
        flake: bool,
        dir: Option<String>,
        submodules: bool,
        follows: Vec<(String, String)>,
    },
    Rm { name: Option<String> },
    Alias { name: Option<String>, template: Option<String>, rm: bool },
}

/// The option of `add` that is waiting for its value.
pub enum Wanted {
    Dir,
    Follows,
}

/// What reading one more argument leads to.
pub enum Step {
    /// Read the next argument.
    Next(CliState),
    /// Read the value of an option.
    Value(CliState, Wanted),
    /// Parsing is over.
    Done(Result<Command, CliError>),
}

/// A measure of what a parser still has to read: the arguments not yet taken, the rest
/// of a `-abc` group and a value still pending after `--option=` (an empty one too). Every
/// argument or value handed out lowers it.
pub uninterp spec fn parser_left(p: lexopt::Parser) -> nat;

/// An argument by its view: a short option's character, a long option's name, or a
/// positional value (`None` where it is not valid unicode); exactly one of the three.
pub type ArgView = (Option<char>, Option<Seq<char>>, Option<Option<Seq<char>>>);

/// The view of an argument.
pub open spec fn arg_view(a: CliArg) -> ArgView {
    match a {
        CliArg::Short(c) => (Some(c), None, None),
        CliArg::Long(s) => (None, Some(s@), None),
        CliArg::Value(v) => (None, None, Some(opt_view(v))),
    }
}

/// The view of an argument or of the end of the command line.
pub open spec fn next_view(a: Option<CliArg>) -> Option<ArgView> {
    match a {
        Some(x) => Some(arg_view(x)),
        None => None,
    }
}

/// What `lexopt::Parser::next` gives for a parser, the argument by its view, and the
/// parser it leaves.
pub uninterp spec fn parser_next(p: lexopt::Parser) -> (Result<Option<ArgView>, lexopt::Error>, lexopt::Parser);

/// What `lexopt::Parser::value` gives for a parser, the value by its view (`None` where it
/// is not valid unicode), and the parser it leaves.
pub uninterp spec fn parser_value(p: lexopt::Parser) -> (Result<Option<Seq<char>>, lexopt::Error>, lexopt::Parser);

/// `lexopt::Parser::next`, the argument converted to a `CliArg`; an argument handed out
/// leaves the parser with less to read.
#[verifier::external_body]
fn next_arg(p: &mut lexopt::Parser) -> (r: Result<Option<CliArg>, lexopt::Error>)
    ensures
        match r {
            Ok(a) => parser_next(*old(p)).0 == Ok::<Option<ArgView>, lexopt::Error>(next_view(a)),
            Err(e) => parser_next(*old(p)).0 == Err::<Option<ArgView>, lexopt::Error>(e),
        },
        *final(p) == parser_next(*old(p)).1,
        r matches Ok(Some(_)) ==> parser_left(*final(p)) < parser_left(*old(p)),
{
    match p.next() {
        Ok(Some(lexopt::Arg::Short(c))) => Ok(Some(CliArg::Short(c))),
        Ok(Some(lexopt::Arg::Long(s))) => Ok(Some(CliArg::Long(s.to_string()))),
        Ok(Some(lexopt::Arg::Value(v))) => Ok(Some(CliArg::Value(v.into_string().ok()))),
        Ok(None) => Ok(None),
        Err(e) => Err(e),
    }
}

/// `lexopt::Parser::value`, the value converted to a `String` (`None` where it is not
/// valid unicode); a value handed out leaves the parser with less to read.
#[verifier::external_body]
fn next_value(p: &mut lexopt::Parser) -> (r: Result<Option<String>, lexopt::Error>)
    ensures
        match r {
            Ok(v) => parser_value(*old(p)).0 == Ok::<Option<Seq<char>>, lexopt::Error>(opt_view(v)),
            Err(e) => parser_value(*old(p)).0 == Err::<Option<Seq<char>>, lexopt::Error>(e),
        },
        *final(p) == parser_value(*old(p)).1,
        r is Ok ==> parser_left(*final(p)) < parser_left(*old(p)),
{
    match p.value() {
        Ok(v) => Ok(v.into_string().ok()),
        Err(e) => Err(e),
    }
}

/// The message `lexopt` gives for one of its errors (`lexopt::Error`'s `Display`).
pub uninterp spec fn lexopt_error_message(e: lexopt::Error) -> Seq<char>;

/// The message of the error that `lexopt::Arg::unexpected` makes of an argument, by view.
pub uninterp spec fn unexpected_message(a: ArgView) -> Seq<char>;

/// `lexopt::Error::to_string`.
#[verifier::external_body]
fn lexopt_error_text(e: &lexopt::Error) -> (r: String)
    ensures
        r@ == lexopt_error_message(*e),
{
    e.to_string()
}

/// `lexopt::Arg::Short(c).unexpected()`, as text.
#[verifier::external_body]
fn unexpected_short(c: char) -> (r: String)
    ensures
        r@ == unexpected_message((Some(c), None, None)),
{
    lexopt::Arg::Short(c).unexpected().to_string()
}

/// `lexopt::Arg::Long(s).unexpected()`, as text.
#[verifier::external_body]
fn unexpected_long(s: &str) -> (r: String)
    ensures
        r@ == unexpected_message((None, Some(s@), None)),
{
    lexopt::Arg::Long(s).unexpected().to_string()
}

/// `lexopt::Arg::Value(v).unexpected()`, as text.
#[verifier::external_body]
fn unexpected_value(v: &str) -> (r: String)
    ensures
        r@ == unexpected_message((None, None, Some(Some(v@)))),
{
    lexopt::Arg::Value(v.into()).unexpected().to_string()
}

/// The message shown for a command-line error. A stray positional argument that is not
/// valid unicode is named as such, its bytes being no longer at hand.
pub open spec fn cli_error_text(e: CliError) -> Seq<char> {
    match e {
        CliError::Lexopt(x) => lexopt_error_message(x),
        CliError::Unexpected(a) => match a {
            CliArg::Value(None) => "unexpected argument (not valid unicode)"@,
            _ => unexpected_message(arg_view(a)),
        },
        CliError::InvalidSubcommand => "invalid subcommand"@,
        CliError::BadName => "bad name"@,
        CliError::BadArgument => "bad argument"@,
        CliError::BadDir => "bad dir"@,
        CliError::BadFollows => "bad follows"@,
        CliError::AddTooMany => "add takes at most <name> <url>"@,
        CliError::AddMissingName => "add: missing <name>"@,
        CliError::AddMissingUrl => "add: missing <url>"@,
        CliError::RmMissingName => "rm: missing <name>"@,
        CliError::AliasTooMany => "alias takes at most <name> <template>"@,
        CliError::AliasMissingName => "alias: missing <name>"@,
        CliError::AliasMissingTemplate => "alias: missing <template> (or pass --rm)"@,
    }
}

impl CliError {
    /// The message shown for this error.
    pub fn message(&self) -> (r: String)
        ensures
            r@ == cli_error_text(*self),
    {
        match self {
            CliError::Lexopt(x) => lexopt_error_text(x),
            CliError::Unexpected(a) => match a {
                CliArg::Short(c) => unexpected_short(*c),
                CliArg::Long(o) => unexpected_long(o.as_str()),
                CliArg::Value(Some(v)) => unexpected_value(v.as_str()),
                CliArg::Value(None) => String::from_str("unexpected argument (not valid unicode)"),
            },
            CliError::InvalidSubcommand => String::from_str("invalid subcommand"),
            CliError::BadName => String::from_str("bad name"),
            CliError::BadArgument => String::from_str("bad argument"),
            CliError::BadDir => String::from_str("bad dir"),
            CliError::BadFollows => String::from_str("bad follows"),
            CliError::AddTooMany => String::from_str("add takes at most <name> <url>"),
            CliError::AddMissingName => String::from_str("add: missing <name>"),
            CliError::AddMissingUrl => String::from_str("add: missing <url>"),
            CliError::RmMissingName => String::from_str("rm: missing <name>"),
            CliError::AliasTooMany => String::from_str("alias takes at most <name> <template>"),
            CliError::AliasMissingName => String::from_str("alias: missing <name>"),
            CliError::AliasMissingTemplate => String::from_str(
                "alias: missing <template> (or pass --rm)",
            ),
        }
    }
}

/// `child=parent` follows `parent`; a bare `child` follows the pin of the same name.
pub open spec fn follows_spec(s: Seq<char>) -> (Seq<char>, Seq<char>) {
    match split_once(s, seq!['=']) {
        Some((c, p)) => (c, p),
        None => (s, s),
    }
}

/// Split a `--follows` value into child and parent.
pub fn parse_follows(s: &str) -> (r: (String, String))
    ensures
        (r.0@, r.1@) == follows_spec(s@),
{
    let cs = chars_of(s);
    let eq: [char; 1] = ['='];
    assert(eq@ =~= seq!['=']);
    match find_exec(cs.as_slice(), &eq) {
        Some(i) => {
            assert(occurs_at(cs@, eq@, i as int));
            let n = cs.len();
            assert(i + 1 <= n);
            let c = string_of(&cs.as_slice()[0..i]);
            let p = string_of(&cs.as_slice()[i + 1..n]);
            assert(c@ =~= cs@.take(i as int));
            assert(p@ =~= cs@.skip(i + 1));
            (c, p)
        },
        None => (String::from_str(s), String::from_str(s)),
    }
}

/// The subcommand named by the first argument: no argument asks for help, as does a name
/// that is no subcommand.
pub open spec fn start_rel(first: Option<CliArg>, r: Step) -> bool {
    match first {
        None => r == Step::Done(Ok(Command::Help)),
        Some(CliArg::Value(None)) => r == Step::Done(Err(CliError::InvalidSubcommand)),
        Some(CliArg::Value(Some(s))) => {
            if s@ == "init"@ {
                r == Step::Next(CliState::Init { force: false })
            } else if s@ == "update"@ || s@ == "look"@ {
                r matches Step::Next(CliState::List { update, names, accept }) && update == (s@
                    == "update"@) && names@ == Seq::<String>::empty() && !accept
            } else if s@ == "add"@ {
                r matches Step::Next(
                    CliState::Add { name, url, flake, dir, submodules, follows },
                ) && name is None && url is None && flake && dir is None && !submodules
                    && follows@ == Seq::<(String, String)>::empty()
            } else if s@ == "rm"@ {
                r == Step::Next(CliState::Rm { name: None })
            } else if s@ == "alias"@ {
                r == Step::Next(CliState::Alias { name: None, template: None, rm: false })
            } else {
                r == Step::Done(Ok(Command::Help))
            }
        },
        Some(a) => r == Step::Done(Err(CliError::Unexpected(a))),
    }
}

/// Reads the subcommand.
pub fn start(first: Option<CliArg>) -> (r: Step)
    ensures
        start_rel(first, r),
        !(r is Value),
{
    match first {
        None => Step::Done(Ok(Command::Help)),
        Some(CliArg::Value(None)) => Step::Done(Err(CliError::InvalidSubcommand)),
        Some(CliArg::Value(Some(s))) => {
            if str_eq(s.as_str(), "init") {
                Step::Next(CliState::Init { force: false })
            } else if str_eq(s.as_str(), "update") {
                Step::Next(CliState::List { update: true, names: Vec::new(), accept: false })
            } else if str_eq(s.as_str(), "look") {
                Step::Next(CliState::List { update: false, names: Vec::new(), accept: false })
            } else if str_eq(s.as_str(), "add") {
                Step::Next(
                    CliState::Add {
                        name: None,
                        url: None,
                        flake: true,
                        dir: None,
                        submodules: false,
                        follows: Vec::new(),
                    },
                )
            } else if str_eq(s.as_str(), "rm") {
                Step::Next(CliState::Rm { name: None })
            } else if str_eq(s.as_str(), "alias") {
                Step::Next(CliState::Alias { name: None, template: None, rm: false })
            } else {
                Step::Done(Ok(Command::Help))
            }
        },
        Some(a) => Step::Done(Err(CliError::Unexpected(a))),
    }
}

/// The transition of `init`: `--force` and nothing else.
pub open spec fn init_rel(force: bool, arg: Option<CliArg>, r: Step) -> bool {
    match arg {
        None => r == Step::Done(Ok(Command::Init { force })),
        Some(a) => if a matches CliArg::Long(o) && o@ == "force"@ {
            r == Step::Next(CliState::Init { force: true })
        } else {
            r == Step::Done(Err(CliError::Unexpected(a)))
        },
    }
}

/// The transition of `update` and `look`: names, and `--accept` for `update` alone.
pub open spec fn list_rel(
    update: bool,
    names: Seq<String>,
    accept: bool,
    arg: Option<CliArg>,
    r: Step,
) -> bool {
    match arg {
        None => if update {
            r matches Step::Done(Ok(Command::Update { names: n, accept: a })) && n@ == names
                && a == accept
        } else {
            r matches Step::Done(Ok(Command::Look { names: n })) && n@ == names
        },
        Some(CliArg::Value(None)) => r == Step::Done(Err(CliError::BadName)),
        Some(CliArg::Value(Some(v))) => r matches Step::Next(
            CliState::List { update: u, names: n, accept: a },
        ) && u == update && a == accept && n@ == names.push(v),
        Some(a) => if update && (a matches CliArg::Long(o) && o@ == "accept"@) {
            r matches Step::Next(CliState::List { update: u, names: n, accept: a2 }) && u
                && n@ == names && a2
        } else {
            r == Step::Done(Err(CliError::Unexpected(a)))
        },
    }
}

/// The transition of `add`: `<name> <url>`, `--no-flake`, `--submodules`, and the options
/// `--dir` and `--follows`, whose values are read next.
pub open spec fn add_rel(s: CliState, arg: Option<CliArg>, r: Step) -> bool {
    match s {
        CliState::Add { name, url, flake, dir, submodules, follows } => match arg {
            None => match (name, url) {
                (None, _) => r == Step::Done(Err(CliError::AddMissingName)),
                (Some(_), None) => r == Step::Done(Err(CliError::AddMissingUrl)),
                (Some(n), Some(u)) => r == Step::Done(
                    Ok(Command::Add { name: n, url: u, flake, dir, submodules, follows }),
                ),
            },
            Some(CliArg::Value(None)) => r == Step::Done(Err(CliError::BadArgument)),
            Some(CliArg::Value(Some(v))) => if name is None {
                r == Step::Next(
                    CliState::Add { name: Some(v), url, flake, dir, submodules, follows },
                )
            } else if url is None {
                r == Step::Next(
                    CliState::Add { name, url: Some(v), flake, dir, submodules, follows },
                )
            } else {
                r == Step::Done(Err(CliError::AddTooMany))
            },
            Some(a) => if a matches CliArg::Long(o) && o@ == "no-flake"@ {
                r == Step::Next(
                    CliState::Add { name, url, flake: false, dir, submodules, follows },
                )
            } else if a matches CliArg::Long(o) && o@ == "submodules"@ {
                r == Step::Next(
                    CliState::Add { name, url, flake, dir, submodules: true, follows },
                )
            } else if a matches CliArg::Long(o) && o@ == "dir"@ {
                r == Step::Value(s, Wanted::Dir)
            } else if a matches CliArg::Long(o) && o@ == "follows"@ {
                r == Step::Value(s, Wanted::Follows)
            } else {
                r == Step::Done(Err(CliError::Unexpected(a)))
            },
        },
        _ => false,
    }
}

/// The transition of `rm`: exactly one name.
pub open spec fn rm_rel(name: Option<String>, arg: Option<CliArg>, r: Step) -> bool {
    match arg {
        None => match name {
            None => r == Step::Done(Err(CliError::RmMissingName)),
            Some(n) => r == Step::Done(Ok(Command::Rm { name: n })),
        },
        Some(a) => if name is None && a is Value {
            match a {
                CliArg::Value(None) => r == Step::Done(Err(CliError::BadName)),
                CliArg::Value(Some(v)) => r == Step::Next(CliState::Rm { name: Some(v) }),
                _ => false,
            }
        } else {
            r == Step::Done(Err(CliError::Unexpected(a)))
        },
    }
}

/// The transition of `alias`: `<name> [<template>]` and `--rm`; a template is needed
/// unless `--rm` is given.
pub open spec fn alias_rel(
    name: Option<String>,
    template: Option<String>,
    rm: bool,
    arg: Option<CliArg>,
    r: Step,
) -> bool {
    match arg {
        None => match name {
            None => r == Step::Done(Err(CliError::AliasMissingName)),
            Some(n) => if !rm && template is None {
                r == Step::Done(Err(CliError::AliasMissingTemplate))
            } else {
                r == Step::Done(Ok(Command::Alias { name: n, template, rm }))
            },
        },
        Some(CliArg::Value(None)) => r == Step::Done(Err(CliError::BadArgument)),
        Some(CliArg::Value(Some(v))) => if name is None {
            r == Step::Next(CliState::Alias { name: Some(v), template, rm })
        } else if template is None {
            r == Step::Next(CliState::Alias { name, template: Some(v), rm })
        } else {
            r == Step::Done(Err(CliError::AliasTooMany))
        },
        Some(a) => if a matches CliArg::Long(o) && o@ == "rm"@ {
            r == Step::Next(CliState::Alias { name, template, rm: true })
        } else {
            r == Step::Done(Err(CliError::Unexpected(a)))
        },
    }
}

/// The transition of a subcommand on one more argument, or on the end of the command
/// line (`None`).
pub open spec fn step_rel(s: CliState, arg: Option<CliArg>, r: Step) -> bool {
    match s {
        CliState::Init { force } => init_rel(force, arg, r),
        CliState::List { update, names, accept } => list_rel(update, names@, accept, arg, r),
        CliState::Add { .. } => add_rel(s, arg, r),
        CliState::Rm { name } => rm_rel(name, arg, r),
        CliState::Alias { name, template, rm } => alias_rel(name, template, rm, arg, r),
    }
}

fn is_long(a: &CliArg, o: &str) -> (r: bool)
    ensures
        r == (a matches CliArg::Long(x) && x@ == o@),
{
    match a {
        CliArg::Long(x) => str_eq(x.as_str(), o),
        _ => false,
    }
}

/// Reads one more argument of a subcommand.
pub fn step(s: CliState, arg: Option<CliArg>) -> (r: Step)
    ensures
        step_rel(s, arg, r),
        arg is None ==> r is Done,
        r matches Step::Value(s2, _) ==> s2 is Add,
{
    match s {
        CliState::Init { force } => match arg {
            None => Step::Done(Ok(Command::Init { force })),
            Some(a) => if is_long(&a, "force") {
                Step::Next(CliState::Init { force: true })
            } else {
                Step::Done(Err(CliError::Unexpected(a)))
            },
        },
        CliState::List { update, names, accept } => match arg {
            None => if update {
                Step::Done(Ok(Command::Update { names, accept }))
            } else {
                Step::Done(Ok(Command::Look { names }))
            },
            Some(CliArg::Value(None)) => Step::Done(Err(CliError::BadName)),
            Some(CliArg::Value(Some(v))) => {
                let mut names = names;
                names.push(v);
                Step::Next(CliState::List { update, names, accept })
            },
            Some(a) => if update && is_long(&a, "accept") {
                Step::Next(CliState::List { update, names, accept: true })
            } else {
                Step::Done(Err(CliError::Unexpected(a)))
            },
        },
        CliState::Add { name, url, flake, dir, submodules, follows } => match arg {
            None => match (name, url) {
                (None, _) => Step::Done(Err(CliError::AddMissingName)),
                (Some(_), None) => Step::Done(Err(CliError::AddMissingUrl)),
                (Some(n), Some(u)) => Step::Done(
                    Ok(Command::Add { name: n, url: u, flake, dir, submodules, follows }),
                ),
            },
            Some(CliArg::Value(None)) => Step::Done(Err(CliError::BadArgument)),
            Some(CliArg::Value(Some(v))) => if name.is_none() {
                Step::Next(CliState::Add { name: Some(v), url, flake, dir, submodules, follows })
            } else if url.is_none() {
                Step::Next(CliState::Add { name, url: Some(v), flake, dir, submodules, follows })
            } else {
                Step::Done(Err(CliError::AddTooMany))
            },
            Some(a) => if is_long(&a, "no-flake") {
                Step::Next(CliState::Add { name, url, flake: false, dir, submodules, follows })
            } else if is_long(&a, "submodules") {
                Step::Next(CliState::Add { name, url, flake, dir, submodules: true, follows })
            } else if is_long(&a, "dir") {
                Step::Value(
                    CliState::Add { name, url, flake, dir, submodules, follows },
                    Wanted::Dir,
                )
            } else if is_long(&a, "follows") {
                Step::Value(
                    CliState::Add { name, url, flake, dir, submodules, follows },
                    Wanted::Follows,
                )
            } else {
                Step::Done(Err(CliError::Unexpected(a)))
            },
        },
        CliState::Rm { name } => match arg {
            None => match name {
                None => Step::Done(Err(CliError::RmMissingName)),
                Some(n) => Step::Done(Ok(Command::Rm { name: n })),
            },
            Some(a) => {
                if name.is_none() {
                    match a {
                        CliArg::Value(None) => Step::Done(Err(CliError::BadName)),
                        CliArg::Value(Some(v)) => Step::Next(CliState::Rm { name: Some(v) }),
                        a => Step::Done(Err(CliError::Unexpected(a))),
                    }
                } else {
                    Step::Done(Err(CliError::Unexpected(a)))
                }
            },
        },
        CliState::Alias { name, template, rm } => match arg {
            None => match name {
                None => Step::Done(Err(CliError::AliasMissingName)),
                Some(n) => if !rm && template.is_none() {
                    Step::Done(Err(CliError::AliasMissingTemplate))
                } else {
                    Step::Done(Ok(Command::Alias { name: n, template, rm }))
                },
            },
            Some(CliArg::Value(None)) => Step::Done(Err(CliError::BadArgument)),
            Some(CliArg::Value(Some(v))) => if name.is_none() {
                Step::Next(CliState::Alias { name: Some(v), template, rm })
            } else if template.is_none() {
                Step::Next(CliState::Alias { name, template: Some(v), rm })
            } else {
                Step::Done(Err(CliError::AliasTooMany))
            },
            Some(a) => if is_long(&a, "rm") {
                Step::Next(CliState::Alias { name, template, rm: true })
            } else {
                Step::Done(Err(CliError::Unexpected(a)))
            },
        },
    }
}

/// The value of `--dir` or `--follows` given to `add`: `--dir` sets the directory, each
/// `--follows` adds one follows pair; a value that is not valid unicode is refused.
pub open spec fn value_rel(s: CliState, w: Wanted, v: Option<String>, r: Result<
    CliState,
    CliError,
>) -> bool {
    match s {
        CliState::Add { name, url, flake, dir, submodules, follows } => match (w, v) {
            (Wanted::Dir, None) => r == Err::<CliState, CliError>(CliError::BadDir),
            (Wanted::Follows, None) => r == Err::<CliState, CliError>(CliError::BadFollows),
            (Wanted::Dir, Some(d)) => r == Ok::<CliState, CliError>(
                CliState::Add { name, url, flake, dir: Some(d), submodules, follows },
            ),
            (Wanted::Follows, Some(f)) => r matches Ok(
                CliState::Add {
                    name: n2,
                    url: u2,
                    flake: f2,
                    dir: d2,
                    submodules: s2,
                    follows: fs2,
                },
            ) && n2 == name && u2 == url && f2 == flake && d2 == dir && s2 == submodules
                && fs2@.len() == follows@.len() + 1 && fs2@.take(follows@.len() as int)
                == follows@ && (fs2@.last().0@, fs2@.last().1@) == follows_spec(f@),
        },
        _ => false,
    }
}

/// Takes the value of an option of `add`.
pub fn give_value(s: CliState, w: Wanted, v: Option<String>) -> (r: Result<CliState, CliError>)
    requires
        s is Add,
    ensures
        value_rel(s, w, v, r),
        r matches Ok(s2) ==> s2 is Add,
{
    match s {
        CliState::Add { name, url, flake, dir, submodules, follows } => match (w, v) {
            (Wanted::Dir, None) => Err(CliError::BadDir),
            (Wanted::Follows, None) => Err(CliError::BadFollows),
            (Wanted::Dir, Some(d)) => Ok(
                CliState::Add { name, url, flake, dir: Some(d), submodules, follows },
            ),
            (Wanted::Follows, Some(f)) => {
                let pair = parse_follows(f.as_str());
                let mut follows = follows;
                let ghost before = follows@;
                follows.push(pair);
                assert(follows@.take(before.len() as int) =~= before);
                Ok(CliState::Add { name, url, flake, dir, submodules, follows })
            },
        },
        _ => {
            assert(false);
            Err(CliError::BadArgument)
        },
    }
}

/// `update` starts without `--accept`: reading the subcommand `update` gives an `update`
/// with no names and the flag unset.
pub proof fn law_update_starts_unaccepted(first: Option<CliArg>, r: Step)
    requires
        start_rel(first, r),
        first matches Some(CliArg::Value(Some(s))) && s@ == "update"@,
    ensures
        r matches Step::Next(CliState::List { update, names, accept }) && update && !accept
            && names@.len() == 0,
{
    reveal_strlit("update");
    reveal_strlit("init");
    assert("update"@[0] != "init"@[0]);
}

/// Only `--accept` sets the flag: one more argument of `update` or `look` sets it exactly
/// when that argument is `--accept` (otherwise it stays as it was), and the command read
/// at the end carries the flag as it stands.
pub proof fn law_accept_only_by_flag(
    update: bool,
    names: Seq<String>,
    accept: bool,
    arg: Option<CliArg>,
    r: Step,
)
    requires
        list_rel(update, names, accept, arg, r),
    ensures
        r matches Step::Next(CliState::List { accept: a2, .. }) ==> a2 == (accept || (arg matches Some(
            CliArg::Long(o),
        ) && o@ == "accept"@)),
        r matches Step::Done(Ok(Command::Update { accept: a2, .. })) ==> a2 == accept && arg is None,
        !(r is Value),
{
}

/// Whether a parsed command is one the commands can run: `alias` has a template unless it
/// removes.
pub open spec fn command_wf(c: Command) -> bool {
    c matches Command::Alias { template, rm, .. } ==> rm || template is Some
}

/// The arguments of a subcommand in state `s`, read from `p` one by one (options of `add`
/// taking their values), come to `r`.
pub open spec fn runs_to(s: CliState, p: lexopt::Parser, r: Result<Command, CliError>) -> bool
    decreases parser_left(p),
{
    let (a, p1) = parser_next(p);
    match a {
        Err(e) => r == Err::<Command, CliError>(CliError::Lexopt(e)),
        Ok(av) => exists|arg: Option<CliArg>, st: Step|
            #![trigger step_rel(s, arg, st)]
            next_view(arg) == av && step_rel(s, arg, st) && match st {
                Step::Done(x) => r == x,
                Step::Next(s2) => parser_left(p1) < parser_left(p) && runs_to(s2, p1, r),
                Step::Value(s2, w) => {
                    let (v, p2) = parser_value(p1);
                    match v {
                        Err(e) => r == Err::<Command, CliError>(CliError::Lexopt(e)),
                        Ok(vv) => exists|val: Option<String>, res: Result<CliState, CliError>|
                            #![trigger value_rel(s2, w, val, res)]
                            opt_view(val) == vv && value_rel(s2, w, val, res) && match res {
                                Err(e) => r == Err::<Command, CliError>(e),
                                Ok(s3) => parser_left(p2) < parser_left(p) && runs_to(s3, p2, r),
                            },
                    }
                },
            },
    }
}

/// The command line read from `p` comes to `r`: the first argument names the subcommand,
/// whose arguments follow.
pub open spec fn parse_spec(p: lexopt::Parser, r: Result<Command, CliError>) -> bool {
    let (a, p1) = parser_next(p);
    match a {
        Err(e) => r == Err::<Command, CliError>(CliError::Lexopt(e)),
        Ok(av) => exists|arg: Option<CliArg>, st: Step|
            #![trigger start_rel(arg, st)]
            next_view(arg) == av && start_rel(arg, st) && match st {
                Step::Done(x) => r == x,
                Step::Next(s) => runs_to(s, p1, r),
                Step::Value(..) => false,
            },
    }
}

/// Reads the command line: the subcommand, then its arguments one by one, options taking
/// their values where they need one.
pub fn parse(parser: lexopt::Parser) -> (r: Result<Command, CliError>)
    ensures
        parse_spec(parser, r),
        r matches Ok(c) ==> command_wf(c),
{
    let ghost p0 = parser;
    let mut p = parser;
    let first = match next_arg(&mut p) {
        Ok(a) => a,
        Err(e) => {
            return Err(CliError::Lexopt(e));
        },
    };
    let ghost gfirst = first;
    let st0 = start(first);
    let ghost gst0 = st0;
    let mut state = match st0 {
        Step::Next(s) => s,
        Step::Done(r) => {
            assert(start_rel(gfirst, gst0));
            return r;
        },
        Step::Value(s, _) => {
            assert(false);
            return Err(CliError::BadArgument);
        },
    };
    assert(start_rel(gfirst, gst0));
    loop
        invariant
            p0 == parser,
            forall|r: Result<Command, CliError>| #[trigger] runs_to(state, p, r) ==> parse_spec(p0, r),
        decreases parser_left(p),
    {
        let ghost p_old = p;
        let ghost s_old = state;
        let a = match next_arg(&mut p) {
            Ok(a) => a,
            Err(e) => {
                assert(runs_to(s_old, p_old, Err(CliError::Lexopt(e))));
                return Err(CliError::Lexopt(e));
            },
        };
        let ghost ga = a;
        let st = step(state, a);
        let ghost gst = st;
        assert(step_rel(s_old, ga, gst));
        match st {
            Step::Next(s) => {
                state = s;
                assert forall|r: Result<Command, CliError>| #[trigger] runs_to(state, p, r) implies parse_spec(p0, r) by {
                    assert(runs_to(s_old, p_old, r));
                }
            },
            Step::Value(s, w) => {
                let ghost p1 = p;
                let ghost gs = s;
                let ghost gw = w;
                let v = match next_value(&mut p) {
                    Ok(v) => v,
                    Err(e) => {
                        assert(runs_to(s_old, p_old, Err(CliError::Lexopt(e))));
                        return Err(CliError::Lexopt(e));
                    },
                };
                let ghost gv = v;
                let res = give_value(s, w, v);
                let ghost gres = res;
                assert(value_rel(gs, gw, gv, gres));
                match res {
                    Ok(s2) => {
                        state = s2;
                        assert forall|r: Result<Command, CliError>| #[trigger] runs_to(state, p, r) implies parse_spec(p0, r) by {
                            assert(runs_to(s_old, p_old, r));
                        }
                    },
                    Err(e) => {
                        assert(runs_to(s_old, p_old, Err(e)));
                        return Err(e);
                    },
                }
            },
            Step::Done(r) => {
                assert(runs_to(s_old, p_old, r));
                return r;
            },
        }
    }
}

} // verus!
