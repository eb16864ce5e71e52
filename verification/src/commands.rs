//! What the subcommands decide, apart from reading and writing files and fetching: which
//! inputs to work on, how the pins document changes, and what each pin's status becomes.
use vstd::prelude::*;
use vstd::string::*;
use toml_edit::DocumentMut;

use crate::pins::{
    doc_ok, other_items, section_or_empty, upsert, add_input, aliases_of, has_input, has_key, inputs, inputs_spec, inputs_view, input_view, inputs_views,
    law_alias_read_back, remove_alias, remove_input, set_alias, set_once, shorturls, shorturls_view, without,
    new_input_fields, dir_view, pins_error_text, FieldsView, Input, PinsError,
};
use crate::shorturl::{expand, expand_spec, lemma_split_scheme, normalize_spec, path_pat};
use crate::text::{chars_of, contains, find_exec, replace, str_eq, string_of};
use crate::ui::PinStatus;

verus! {

/// Why a subcommand could not do what was asked.
pub enum CommandError {
    Pins(PinsError),
    /// `add` of a name that is already an input.
    AlreadyExists(String),
    /// `rm` of a name that is no input.
    NoInput(String),
    /// `alias --rm` of a name that is no alias.
    NoAlias(String),
    /// An alias template without `{path}`.
    TemplateWithoutPath,
}

/// The message shown for a command error.
pub open spec fn command_error_text(e: CommandError) -> Seq<char> {
    match e {
        CommandError::Pins(p) => pins_error_text(p),
        CommandError::AlreadyExists(n) => "input '"@ + n@ + "' already exists"@,
        CommandError::NoInput(n) => "no input '"@ + n@ + "'"@,
        CommandError::NoAlias(n) => "no alias '"@ + n@ + "'"@,
        CommandError::TemplateWithoutPath => "alias template must contain '{path}'"@,
    }
}

/// `prefix`, then `name`, then `suffix`.
fn quoted(prefix: &str, name: &str, suffix: &str) -> (r: String)
    ensures
        r@ == prefix@ + name@ + suffix@,
{
    let mut s = String::from_str(prefix);
    s.append(name);
    s.append(suffix);
    s
}

impl CommandError {
    /// The message shown for this error.
    pub fn message(&self) -> (r: String)
        ensures
            r@ == command_error_text(*self),
    {
        match self {
            CommandError::Pins(p) => p.message(),
            CommandError::AlreadyExists(n) => quoted("input '", n.as_str(), "' already exists"),
            CommandError::NoInput(n) => quoted("no input '", n.as_str(), "'"),
            CommandError::NoAlias(n) => quoted("no alias '", n.as_str(), "'"),
            CommandError::TemplateWithoutPath => String::from_str("alias template must contain '{path}'"),
        }
    }
}

/// The first seven characters of a revision.
pub open spec fn short_spec(rev: Seq<char>) -> Seq<char> {
    if rev.len() <= 7 {
        rev
    } else {
        rev.take(7)
    }
}

/// The abbreviated revision shown to the user.
pub fn short(rev: &str) -> (r: String)
    ensures
        r@ == short_spec(rev@),
{
    let cs = chars_of(rev);
    let n = if cs.len() < 7 {
        cs.len()
    } else {
        7
    };
    let r = string_of(&cs.as_slice()[0..n]);
    assert(r@ =~= short_spec(rev@));
    r
}

/// The abbreviated revision is the revision's first seven characters (all of a shorter
/// one): a prefix of the revision, of length `min(7, |rev|)`.
pub proof fn law_short_is_prefix(rev: Seq<char>)
    ensures
        short_spec(rev).len() == if rev.len() < 7 {
            rev.len()
        } else {
            7
        },
        forall|i: int| 0 <= i < short_spec(rev).len() ==> #[trigger] short_spec(rev)[i] == rev[i],
{
}

/// The names of inputs.
pub open spec fn names_of(ins: Seq<Input>) -> Seq<Seq<char>> {
    ins.map_values(|i: Input| i.name@)
}

/// `i` is the first of the input names `ns` that is `n`.
pub open spec fn first_named(ns: Seq<Seq<char>>, n: Seq<char>, i: int) -> bool {
    &&& 0 <= i < ns.len()
    &&& ns[i] == n
    &&& forall|j: int| 0 <= j < i ==> ns[j] != n
}

/// Inputs picked by names (indices into `ins`) and the names that pick none, for the
/// first `k` names.
pub open spec fn select_named(ins: Seq<Seq<char>>, names: Seq<String>, k: int) -> (
    Seq<int>,
    Seq<Seq<char>>,
)
    decreases k,
{
    if k <= 0 {
        (Seq::empty(), Seq::empty())
    } else {
        let (picked, missing) = select_named(ins, names, k - 1);
        let n = names[k - 1]@;
        if exists|i: int| first_named(ins, n, i) {
            (picked.push(choose|i: int| first_named(ins, n, i)), missing)
        } else {
            (picked, missing.push(n))
        }
    }
}

/// The inputs to work on: all of them when no names are given; else, for each name in
/// order, the first input of that name, and the names that match none.
pub open spec fn select_spec(ins: Seq<Seq<char>>, names: Seq<String>) -> (Seq<int>, Seq<Seq<char>>) {
    if names.len() == 0 {
        (Seq::new(ins.len(), |i: int| i), Seq::empty())
    } else {
        select_named(ins, names, names.len() as int)
    }
}

proof fn lemma_select_named_bounds(ns: Seq<Seq<char>>, names: Seq<String>, k: int)
    ensures
        forall|m: int|
            0 <= m < select_named(ns, names, k).0.len() ==> 0 <= #[trigger] select_named(
                ns,
                names,
                k,
            ).0[m] < ns.len(),
    decreases k,
{
    if k > 0 {
        lemma_select_named_bounds(ns, names, k - 1);
        let prev = select_named(ns, names, k - 1);
        let cur = select_named(ns, names, k);
        let n = names[k - 1]@;
        if exists|i: int| first_named(ns, n, i) {
            let c = choose|i: int| first_named(ns, n, i);
            assert(0 <= c < ns.len());
            assert(cur.0 == prev.0.push(c));
        } else {
            assert(cur.0 == prev.0);
        }
        assert forall|m: int| 0 <= m < cur.0.len() implies 0 <= #[trigger] cur.0[m] < ns.len() by {
            if m < prev.0.len() {
                assert(cur.0[m] == prev.0[m]);
            }
        }
    }
}

proof fn lemma_select_bounds(ns: Seq<Seq<char>>, names: Seq<String>)
    ensures
        forall|m: int|
            0 <= m < select_spec(ns, names).0.len() ==> 0 <= #[trigger] select_spec(ns, names).0[m]
                < ns.len(),
{
    if names.len() > 0 {
        lemma_select_named_bounds(ns, names, names.len() as int);
    }
}

/// A name that some input has is the name of a first such input.
proof fn lemma_first_exists(ns: Seq<Seq<char>>, n: Seq<char>, h: int)
    requires
        0 <= h < ns.len(),
        ns[h] == n,
    ensures
        exists|i: int| first_named(ns, n, i),
    decreases h,
{
    if exists|g: int| 0 <= g < h && ns[g] == n {
        let g = choose|g: int| 0 <= g < h && ns[g] == n;
        lemma_first_exists(ns, n, g);
    } else {
        assert(first_named(ns, n, h));
    }
}

proof fn lemma_select_named_exact(ns: Seq<Seq<char>>, names: Seq<String>, k: int)
    requires
        0 <= k <= names.len(),
    ensures
        select_named(ns, names, k).0.len() + select_named(ns, names, k).1.len() == k,
        forall|m: int|
            0 <= m < select_named(ns, names, k).0.len() ==> {
                let i = #[trigger] select_named(ns, names, k).0[m];
                &&& 0 <= i < ns.len()
                &&& exists|j: int|
                    0 <= j < k && ns[i] == names[j]@ && forall|h: int| 0 <= h < i ==> ns[h] != names[j]@
            },
        forall|m: int|
            0 <= m < select_named(ns, names, k).1.len() ==> {
                let x = #[trigger] select_named(ns, names, k).1[m];
                &&& exists|j: int| 0 <= j < k && x == names[j]@
                &&& forall|h: int| 0 <= h < ns.len() ==> ns[h] != x
            },
    decreases k,
{
    if k > 0 {
        lemma_select_named_exact(ns, names, k - 1);
        let prev = select_named(ns, names, k - 1);
        let cur = select_named(ns, names, k);
        let n = names[k - 1]@;
        if exists|i: int| first_named(ns, n, i) {
            let c = choose|i: int| first_named(ns, n, i);
            assert(cur == (prev.0.push(c), prev.1));
            assert forall|m: int| 0 <= m < cur.0.len() implies {
                let i = #[trigger] cur.0[m];
                &&& 0 <= i < ns.len()
                &&& exists|j: int|
                    0 <= j < k && ns[i] == names[j]@ && forall|h: int| 0 <= h < i ==> ns[h] != names[j]@
            } by {
                if m < prev.0.len() {
                    assert(cur.0[m] == prev.0[m]);
                    let i = prev.0[m];
                    let j = choose|j: int|
                        0 <= j < k - 1 && ns[i] == names[j]@ && forall|h: int| 0 <= h < i ==> ns[h] != names[j]@;
                    assert(0 <= j < k);
                } else {
                    assert(cur.0[m] == c);
                    assert(ns[c] == names[k - 1]@);
                }
            }
            assert forall|m: int| 0 <= m < cur.1.len() implies {
                let x = #[trigger] cur.1[m];
                &&& exists|j: int| 0 <= j < k && x == names[j]@
                &&& forall|h: int| 0 <= h < ns.len() ==> ns[h] != x
            } by {
                assert(cur.1[m] == prev.1[m]);
                let x = prev.1[m];
                let j = choose|j: int| 0 <= j < k - 1 && x == names[j]@;
                assert(0 <= j < k && x == names[j]@);
            }
        } else {
            assert(cur == (prev.0, prev.1.push(n)));
            assert forall|m: int| 0 <= m < cur.0.len() implies {
                let i = #[trigger] cur.0[m];
                &&& 0 <= i < ns.len()
                &&& exists|j: int|
                    0 <= j < k && ns[i] == names[j]@ && forall|h: int| 0 <= h < i ==> ns[h] != names[j]@
            } by {
                assert(cur.0[m] == prev.0[m]);
                let i = prev.0[m];
                let j = choose|j: int|
                    0 <= j < k - 1 && ns[i] == names[j]@ && forall|h: int| 0 <= h < i ==> ns[h] != names[j]@;
                assert(0 <= j < k);
            }
            assert forall|m: int| 0 <= m < cur.1.len() implies {
                let x = #[trigger] cur.1[m];
                &&& exists|j: int| 0 <= j < k && x == names[j]@
                &&& forall|h: int| 0 <= h < ns.len() ==> ns[h] != x
            } by {
                if m < prev.1.len() {
                    assert(cur.1[m] == prev.1[m]);
                    let x = prev.1[m];
                    let j = choose|j: int| 0 <= j < k - 1 && x == names[j]@;
                    assert(0 <= j < k && x == names[j]@);
                } else {
                    assert(cur.1[m] == n);
                    assert forall|h: int| 0 <= h < ns.len() implies ns[h] != n by {
                        if ns[h] == n {
                            lemma_first_exists(ns, n, h);
                        }
                    }
                }
            }
        }
    }
}

/// Names pick inputs by equality: with names given, each picked input is, for one of the
/// names, the first input called exactly that; each name reported missing is one of the
/// names, and no input is called that; every name either picks or is reported.
pub proof fn law_select_exact(ns: Seq<Seq<char>>, names: Seq<String>)
    requires
        names.len() > 0,
    ensures
        select_spec(ns, names).0.len() + select_spec(ns, names).1.len() == names.len(),
        forall|m: int|
            0 <= m < select_spec(ns, names).0.len() ==> {
                let i = #[trigger] select_spec(ns, names).0[m];
                &&& 0 <= i < ns.len()
                &&& exists|j: int|
                    0 <= j < names.len() && ns[i] == names[j]@ && forall|h: int|
                        0 <= h < i ==> ns[h] != names[j]@
            },
        forall|m: int|
            0 <= m < select_spec(ns, names).1.len() ==> {
                let x = #[trigger] select_spec(ns, names).1[m];
                &&& exists|j: int| 0 <= j < names.len() && x == names[j]@
                &&& forall|h: int| 0 <= h < ns.len() ==> ns[h] != x
            },
{
    lemma_select_named_exact(ns, names, names.len() as int);
}

fn find_named(ins: &[Input], n: &str) -> (r: Option<usize>)
    ensures
        match r {
            Some(i) => first_named(names_of(ins@), n@, i as int),
            None => !exists|i: int| first_named(names_of(ins@), n@, i),
        },
{
    let mut i: usize = 0;
    while i < ins.len()
        invariant
            i <= ins@.len(),
            forall|j: int| 0 <= j < i ==> names_of(ins@)[j] != n@,
        decreases ins@.len() - i,
    {
        if str_eq(ins[i].name.as_str(), n) {
            assert(names_of(ins@)[i as int] == n@);
            return Some(i);
        }
        assert(names_of(ins@)[i as int] != n@);
        i = i + 1;
    }
    None
}

/// The selected inputs, and the names that select none.
pub fn select<'a>(inputs: &'a [Input], names: &[String]) -> (r: (Vec<&'a Input>, Vec<String>))
    ensures
        r.0@.len() == select_spec(names_of(inputs@), names@).0.len(),
        forall|k: int|
            0 <= k < r.0@.len() ==> {
                let i = select_spec(names_of(inputs@), names@).0[k];
                0 <= i < inputs@.len() && *(#[trigger] r.0@[k]) == inputs@[i]
            },
        r.1@.map_values(|s: String| s@) == select_spec(names_of(inputs@), names@).1,
{
    let mut picked: Vec<&'a Input> = Vec::new();
    let mut missing: Vec<String> = Vec::new();
    if names.len() == 0 {
        let mut i: usize = 0;
        while i < inputs.len()
            invariant
                i <= inputs@.len(),
                picked@.len() == i,
                forall|k: int| 0 <= k < i ==> *picked@[k] == inputs@[k],
            decreases inputs@.len() - i,
        {
            picked.push(&inputs[i]);
            i = i + 1;
        }
        assert(missing@.map_values(|s: String| s@) =~= Seq::<Seq<char>>::empty());
        return (picked, missing);
    }
    let mut k: usize = 0;
    assert(missing@.map_values(|s: String| s@) =~= Seq::<Seq<char>>::empty());
    while k < names.len()
        invariant
            k <= names@.len(),
            names@.len() > 0,
            picked@.len() == select_named(names_of(inputs@), names@, k as int).0.len(),
            forall|m: int|
                0 <= m < picked@.len() ==> {
                    let i = select_named(names_of(inputs@), names@, k as int).0[m];
                    0 <= i < inputs@.len() && *(#[trigger] picked@[m]) == inputs@[i]
                },
            missing@.map_values(|s: String| s@) == select_named(names_of(inputs@), names@, k as int).1,
        decreases names@.len() - k,
    {
        let ghost ns = names_of(inputs@);
        let ghost prev = select_named(ns, names@, k as int);
        let ghost old_picked = picked@;
        proof {
            lemma_select_named_bounds(ns, names@, k + 1);
            assert(ns.len() == inputs@.len());
        }
        match find_named(inputs, names[k].as_str()) {
            Some(i) => {
                proof {
                    let c = choose|j: int| first_named(ns, names@[k as int]@, j);
                    if c < i {
                        assert(ns[c] != names@[k as int]@);
                    } else if c > i {
                        assert(ns[i as int] != names@[k as int]@);
                    }
                    assert(select_named(ns, names@, k + 1) == (prev.0.push(i as int), prev.1));
                }
                picked.push(&inputs[i]);
                proof {
                    assert forall|m: int| 0 <= m < picked@.len() implies {
                        let j = select_named(ns, names@, k + 1).0[m];
                        0 <= j < inputs@.len() && *(#[trigger] picked@[m]) == inputs@[j]
                    } by {
                        if m < old_picked.len() {
                            assert(picked@[m] == old_picked[m]);
                        }
                    }
                }
            },
            None => {
                proof {
                    assert(select_named(ns, names@, k + 1) == (prev.0, prev.1.push(names@[k as int]@)));
                    assert forall|m: int| 0 <= m < picked@.len() implies {
                        let j = select_named(ns, names@, k + 1).0[m];
                        0 <= j < inputs@.len() && *(#[trigger] picked@[m]) == inputs@[j]
                    } by {
                        assert(select_named(ns, names@, k + 1).0[m] == prev.0[m]);
                    }
                }
                let ghost before = missing@;
                missing.push(names[k].clone());
                assert(missing@.map_values(|s: String| s@) =~= before.map_values(|s: String| s@).push(
                    names@[k as int]@,
                ));
            },
        }
        k = k + 1;
    }
    proof {
        lemma_select_named_bounds(names_of(inputs@), names@, names@.len() as int);
    }
    assert(select_spec(names_of(inputs@), names@) == select_named(
        names_of(inputs@),
        names@,
        names@.len() as int,
    ));
    (picked, missing)
}

/// What `update` and `look` work through: each selected input's name, url (short urls
/// expanded) and whether it wants submodules; and the names that select none.
pub struct Plan {
    pub pins: Vec<(String, String, bool)>,
    pub missing: Vec<String>,
}

/// The index of the `m`-th selected input.
pub open spec fn sel_index(ins: Seq<Input>, names: Seq<String>, m: int) -> int {
    select_spec(names_of(ins), names).0[m]
}

/// The aliases of a document, none without a `shorturls` table.
pub open spec fn doc_aliases(doc: DocumentMut) -> Map<Seq<char>, Seq<char>> {
    match shorturls_view(doc) {
        Some(es) => aliases_of(es),
        None => Map::empty(),
    }
}

/// The inputs listed in a document, by their views (none when they cannot be read).
pub open spec fn doc_inputs(doc: DocumentMut) -> Seq<(Seq<char>, Seq<char>, bool)> {
    match inputs_view(doc) {
        Some(es) => match inputs_spec(es) {
            Ok(v) => v,
            Err(_) => Seq::empty(),
        },
        None => Seq::empty(),
    }
}

/// Reads the inputs of the document and selects those named (all when no names are
/// given), their urls expanded through the document's aliases.
pub fn plan(doc: &DocumentMut, names: &[String]) -> (r: Result<Plan, CommandError>)
    requires
        doc_ok(*doc),
    ensures
        match r {
            Ok(p) => inputs_view(*doc) matches Some(es) ==> inputs_spec(es) is Ok,
            Err(e) => inputs_view(*doc) matches Some(es) && match inputs_spec(es) {
                Err((true, k)) => e matches CommandError::Pins(PinsError::NotATable(n)) && n@ == k,
                Err((false, k)) => e matches CommandError::Pins(PinsError::NoUrl(n)) && n@ == k,
                Ok(_) => false,
            },
        },
        r matches Ok(p) ==> {
            let ins = doc_inputs(*doc);
            let sel = select_spec(ins.map_values(|t: (Seq<char>, Seq<char>, bool)| t.0), names@);
            &&& p.pins@.len() == sel.0.len()
            &&& forall|k: int|
                0 <= k < p.pins@.len() ==> {
                    let i = sel.0[k];
                    &&& 0 <= i < ins.len()
                    &&& (#[trigger] p.pins@[k]).0@ == ins[i].0
                    &&& p.pins@[k].1@ == expand_spec(ins[i].1, doc_aliases(*doc))
                    &&& p.pins@[k].2 == ins[i].2
                }
            &&& p.missing@.map_values(|s: String| s@) == sel.1
        },
{
    let aliases = shorturls(doc);
    let all = match inputs(doc) {
        Ok(v) => v,
        Err(e) => {
            return Err(CommandError::Pins(e));
        },
    };
    let ghost ins = doc_inputs(*doc);
    assert(names_of(all@) =~= ins.map_values(|t: (Seq<char>, Seq<char>, bool)| t.0)) by {
        assert(inputs_views(all@) == ins);
        assert forall|j: int| 0 <= j < all@.len() implies names_of(all@)[j] == ins[j].0 by {
            assert(ins[j] == input_view(all@[j]));
        }
    }
    assert(inputs_views(all@) =~= doc_inputs(*doc));
    let all_slice = all.as_slice();
    let sel = select(all_slice, names);
    let selected = sel.0;
    let missing = sel.1;
    assert(all_slice@ == all@);
    assert forall|m: int| 0 <= m < selected@.len() implies 0 <= #[trigger] sel_index(all@, names@, m) < all@.len() && *selected@[m] == all@[sel_index(all@, names@, m)] by {
        lemma_select_bounds(names_of(all@), names@);
        let i = select_spec(names_of(all_slice@), names@).0[m];
        assert(names_of(all@).len() == all@.len());
        assert(0 <= i < all_slice@.len() && *selected@[m] == all_slice@[i]);
    }
    let mut pins: Vec<(String, String, bool)> = Vec::new();
    let mut k: usize = 0;
    while k < selected.len()
        invariant
            k <= selected@.len(),
            pins@.len() == k,
            aliases@ == doc_aliases(*doc),
            inputs_views(all@) == doc_inputs(*doc),
            forall|m: int| 0 <= m < selected@.len() ==> 0 <= #[trigger] sel_index(all@, names@, m) < all@.len() && *selected@[m] == all@[sel_index(all@, names@, m)],
            forall|m: int|
                0 <= m < k ==> {
                    &&& (#[trigger] pins@[m]).0@ == selected@[m].name@
                    &&& pins@[m].1@ == expand_spec(selected@[m].url@, aliases@)
                    &&& pins@[m].2 == selected@[m].submodules
                },
        decreases selected@.len() - k,
    {
        let inp = selected[k];
        let u = expand(inp.url.as_str(), &aliases);
        pins.push((inp.name.clone(), u, inp.submodules));
        k = k + 1;
    }
    proof {
        lemma_select_bounds(names_of(all@), names@);
        assert(names_of(all@).len() == doc_inputs(*doc).len());
    }
    Ok(Plan { pins, missing })
}

/// What `add` does to the document: refuses a name that is already an input, else adds
/// the input and gives its url with short urls expanded, ready to be fetched.
pub fn add(
    doc: &mut DocumentMut,
    name: &str,
    url: &str,
    flake: bool,
    dir: Option<&str>,
    submodules: bool,
    follows: &[(String, String)],
) -> (r: Result<String, CommandError>)
    requires
        doc_ok(*old(doc)),
    ensures
        doc_ok(*final(doc)),
        other_items(*final(doc)) == other_items(*old(doc)),
        (inputs_view(*old(doc)) matches Some(s) && has_key(s, name@)) <==> r is Err,
        r matches Err(e) ==> e == CommandError::AlreadyExists(
            e->AlreadyExists_0,
        ) && e->AlreadyExists_0@ == name@ && *final(doc) == *old(doc),
        r matches Ok(u) ==> {
            &&& inputs_view(*final(doc)) == Some(
                upsert(
                    section_or_empty(inputs_view(*old(doc))),
                    name@,
                    Some(new_input_fields(url@, flake, dir_view(dir), submodules, follows@)),
                ),
            )
            &&& set_once(inputs_view(*final(doc)), inputs_view(*old(doc)), name@, Some(new_input_fields(url@, flake, dir_view(dir), submodules, follows@)))
            &&& shorturls_view(*final(doc)) == shorturls_view(*old(doc))
            &&& u@ == expand_spec(url@, doc_aliases(*final(doc)))
        },
{
    if has_input(doc, name) {
        return Err(CommandError::AlreadyExists(String::from_str(name)));
    }
    add_input(doc, name, url, flake, dir, submodules, follows);
    let aliases = shorturls(doc);
    Ok(expand(url, &aliases))
}

/// What `rm` does to the document: removes the input, or refuses a name that is none.
pub fn rm(doc: &mut DocumentMut, name: &str) -> (r: Result<(), CommandError>)
    requires
        doc_ok(*old(doc)),
    ensures
        (inputs_view(*old(doc)) matches Some(s) && has_key(s, name@)) <==> r is Ok,
        r matches Err(e) ==> e == CommandError::NoInput(e->NoInput_0) && e->NoInput_0@ == name@
            && *final(doc) == *old(doc),
        other_items(*final(doc)) == other_items(*old(doc)),
        doc_ok(*final(doc)),
        inputs_view(*final(doc)) == match inputs_view(*old(doc)) {
            Some(s) => Some(without(s, name@)),
            None => None,
        },
        shorturls_view(*final(doc)) == shorturls_view(*old(doc)),
{
    if !remove_input(doc, name) {
        return Err(CommandError::NoInput(String::from_str(name)));
    }
    Ok(())
}

/// What `alias` does to the document: with `remove`, removes the alias or refuses a name
/// that is none; else sets it, refusing a template without `{path}`.
pub fn alias(doc: &mut DocumentMut, name: &str, template: Option<&str>, remove: bool) -> (r:
    Result<(), CommandError>)
    requires
        doc_ok(*old(doc)),
        remove || template is Some,
    ensures
        doc_ok(*final(doc)),
        inputs_view(*final(doc)) == inputs_view(*old(doc)),
        other_items(*final(doc)) == other_items(*old(doc)),
        remove ==> {
            &&& (shorturls_view(*old(doc)) matches Some(s) && has_key(s, name@)) <==> r is Ok
            &&& r matches Err(e) ==> e == CommandError::NoAlias(e->NoAlias_0) && e->NoAlias_0@ == name@
                && *final(doc) == *old(doc)
            &&& shorturls_view(*final(doc)) == match shorturls_view(*old(doc)) {
                Some(s) => Some(without(s, name@)),
                None => None,
            }
        },
        !remove ==> {
            &&& (r is Ok <==> contains(template->0@, path_pat()))
            &&& r matches Err(e) ==> e == CommandError::TemplateWithoutPath && *final(doc) == *old(doc)
            &&& r is Ok ==> set_once(shorturls_view(*final(doc)), shorturls_view(*old(doc)), name@, Some(template->0@))
            &&& r is Ok ==> shorturls_view(*final(doc)) == Some(
                upsert(section_or_empty(shorturls_view(*old(doc))), name@, Some(template->0@)),
            )
        },
{
    if remove {
        if !remove_alias(doc, name) {
            return Err(CommandError::NoAlias(String::from_str(name)));
        }
        Ok(())
    } else {
        let t = match template {
            Some(t) => t,
            None => {
                return Err(CommandError::TemplateWithoutPath);
            },
        };
        let tc = chars_of(t);
        let pat: [char; 6] = ['{', 'p', 'a', 't', 'h', '}'];
        assert(pat@ =~= path_pat());
        if find_exec(tc.as_slice(), &pat).is_none() {
            return Err(CommandError::TemplateWithoutPath);
        }
        set_alias(doc, name, t);
        Ok(())
    }
}

/// What a fetch of a pin leads to: unchanged when the fetched revision is the locked
/// one; updated (old revision abbreviated, or `NEW` when none was locked) otherwise;
/// failed with the error's message. The flag says whether the lock takes the fetched node.
pub fn pin_status(old: Option<&str>, fetched: Result<&str, &str>) -> (r: (PinStatus, bool))
    ensures
        match fetched {
            Ok(rev) => if old matches Some(o) && o@ == rev@ {
                r.0 == PinStatus::NoChange && !r.1
            } else {
                &&& r.0 matches PinStatus::Updated { old: o, new: n }
                &&& o@ == match old {
                    Some(x) => short_spec(x@),
                    None => "NEW"@,
                }
                &&& n@ == short_spec(rev@)
                &&& r.1
            },
            Err(msg) => r.0 matches PinStatus::Failed(m) && m@ == msg@ && !r.1,
        },
{
    match fetched {
        Ok(rev) => {
            let same = match old {
                Some(o) => str_eq(o, rev),
                None => false,
            };
            if same {
                (PinStatus::NoChange, false)
            } else {
                let o = match old {
                    Some(o) => short(o),
                    None => String::from_str("NEW"),
                };
                (PinStatus::Updated { old: o, new: short(rev) }, true)
            }
        },
        Err(msg) => (PinStatus::Failed(String::from_str(msg)), false),
    }
}

/// The lock entries an update writes, in order: each selected pin whose fetch gave a node
/// to lock, by name, with that node; names and fetch results are paired up to the shorter
/// of the two.
pub open spec fn relock_spec<N>(names: Seq<Seq<char>>, nodes: Seq<Option<N>>) -> Seq<(Seq<char>, N)>
    decreases nodes.len(),
{
    if names.len() == 0 || nodes.len() == 0 {
        Seq::empty()
    } else {
        let rest = relock_spec(names.drop_first(), nodes.drop_first());
        match nodes[0] {
            Some(n) => seq![(names[0], n)] + rest,
            None => rest,
        }
    }
}

/// The lock entries an update writes; the lock file is rewritten only when there is one.
pub fn relock<N>(names: &[String], nodes: Vec<Option<N>>) -> (r: Vec<(String, N)>)
    ensures
        r@.map_values(|p: (String, N)| (p.0@, p.1)) == relock_spec(
            names@.map_values(|s: String| s@),
            nodes@,
        ),
{
    let ghost ns = names@.map_values(|s: String| s@);
    let ghost orig = nodes@;
    let mut rest = nodes;
    let mut out: Vec<(String, N)> = Vec::new();
    let mut k: usize = 0;
    assert(ns.skip(0) =~= ns);
    assert(out@.map_values(|p: (String, N)| (p.0@, p.1)) =~= Seq::<(Seq<char>, N)>::empty());
    while k < names.len() && rest.len() > 0
        invariant
            k <= names@.len(),
            ns == names@.map_values(|s: String| s@),
            out@.map_values(|p: (String, N)| (p.0@, p.1)) + relock_spec(ns.skip(k as int), rest@)
                == relock_spec(ns, orig),
        decreases names@.len() - k,
    {
        let ghost before = rest@;
        let ghost done = out@.map_values(|p: (String, N)| (p.0@, p.1));
        assert(ns.skip(k as int).drop_first() =~= ns.skip(k + 1));
        assert(ns.skip(k as int)[0] == names@[k as int]@);
        let n = rest.remove(0);
        assert(before.drop_first() =~= rest@);
        match n {
            Some(x) => {
                let name = names[k].clone();
                out.push((name, x));
                assert(out@.map_values(|p: (String, N)| (p.0@, p.1)) =~= done + seq![(ns.skip(k as int)[0], x)]);
            },
            None => {
                assert(out@.map_values(|p: (String, N)| (p.0@, p.1)) =~= done);
            },
        }
        k = k + 1;
    }
    assert(out@.map_values(|p: (String, N)| (p.0@, p.1)) =~= relock_spec(ns, orig));
    out
}

/// An alias that was set is what expands its urls: after setting `name` (which holds no
/// `:`) to `template`, `name:rest` expands to `template` with `{path}` replaced by `rest`,
/// normalized.
pub proof fn law_alias_expands(
    new: Option<Seq<(Seq<char>, Option<Seq<char>>)>>,
    old: Option<Seq<(Seq<char>, Option<Seq<char>>)>>,
    name: Seq<char>,
    template: Seq<char>,
    rest: Seq<char>,
)
    requires
        set_once(new, old, name, Some(template)),
        !contains(name, seq![':']),
    ensures
        expand_spec(name + seq![':'] + rest, aliases_of(new->0)) == normalize_spec(
            replace(template, path_pat(), rest),
        ),
{
    law_alias_read_back(new, old, name, template);
    lemma_split_scheme(name, rest);
}

} // verus!
