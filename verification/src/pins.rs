//! The pins document (`pins.toml`): its `shorturls` and `inputs` tables, read and edited
//! through `toml_edit` so that the file keeps its formatting.
use vstd::prelude::*;
use vstd::string::*;
use toml_edit::{DocumentMut, Item, Table, value};

use crate::shorturl::ShortUrls;
use crate::text::{opt_view, str_eq};

verus! {

#[verifier::external_type_specification]
#[verifier::external_body]
pub struct ExDocumentMut(toml_edit::DocumentMut);

#[verifier::external_type_specification]
#[verifier::external_body]
pub struct ExTomlError(toml_edit::TomlError);

#[verifier::external_type_specification]
#[verifier::external_body]
pub struct ExTable(toml_edit::Table);

#[verifier::external_type_specification]
#[verifier::external_body]
pub struct ExItem(toml_edit::Item);

/// An input as the commands use it.
pub struct Input {
    pub name: String,
    pub url: String,
    pub submodules: bool,
}

/// Why the pins document could not be used.
pub enum PinsError {
    /// The text is no TOML document.
    Parse(toml_edit::TomlError),
    /// The entry of this input is not a table.
    NotATable(String),
    /// The entry of this input has no string `url`.
    NoUrl(String),
}

/// The message `toml_edit` gives for a parse error (`TomlError`'s `Display`).
pub uninterp spec fn toml_error_message(e: toml_edit::TomlError) -> Seq<char>;

/// `TomlError::to_string`.
#[verifier::external_body]
fn toml_error_text(e: &toml_edit::TomlError) -> (r: String)
    ensures
        r@ == toml_error_message(*e),
{
    e.to_string()
}

/// The message shown for a pins error.
pub open spec fn pins_error_text(e: PinsError) -> Seq<char> {
    match e {
        PinsError::Parse(t) => toml_error_message(t),
        PinsError::NotATable(n) => "input '"@ + n@ + "' is not a table"@,
        PinsError::NoUrl(n) => "input '"@ + n@ + "' has no url"@,
    }
}

impl PinsError {
    /// The message shown for this error.
    pub fn message(&self) -> (r: String)
        ensures
            r@ == pins_error_text(*self),
    {
        match self {
            PinsError::Parse(t) => toml_error_text(t),
            PinsError::NotATable(n) => {
                let mut s = String::from_str("input '");
                s.append(n.as_str());
                s.append("' is not a table");
                s
            },
            PinsError::NoUrl(n) => {
                let mut s = String::from_str("input '");
                s.append(n.as_str());
                s.append("' has no url");
                s
            },
        }
    }
}

/// The keys of an input's table that the document model follows: `url` (if a string),
/// `submodules` (if a boolean), `flake` (if a boolean), `dir` (if a string) and `follows`
/// (if a table: its keys, each with its value if that is a string).
pub type FieldsView = (
    Option<Seq<char>>,
    Option<bool>,
    Option<bool>,
    Option<Seq<char>>,
    Option<Seq<(Seq<char>, Option<Seq<char>>)>>,
);

/// The `shorturls` table of a document: `None` unless `shorturls` is a table; else its
/// entries in order, each key with its value if that is a string.
pub uninterp spec fn shorturls_view(doc: DocumentMut) -> Option<Seq<(Seq<char>, Option<Seq<char>>)>>;

/// The `inputs` table of a document: `None` unless `inputs` is a table; else its entries
/// in order, each key with `None` if its value is no table (inline or not), else with the
/// fields that `FieldsView` follows.
pub uninterp spec fn inputs_view(doc: DocumentMut) -> Option<Seq<(Seq<char>, Option<FieldsView>)>>;

/// A document as `toml_edit` parses it and as this library edits it: its root is a table,
/// and the tables under `inputs` and `shorturls`, where they are tables, hold no empty
/// (`Item::None`) entry.
pub uninterp spec fn doc_ok(doc: DocumentMut) -> bool;

/// The document's top-level entries other than `inputs` and `shorturls`, in order, each
/// key with its item.
pub uninterp spec fn other_items(doc: DocumentMut) -> Seq<(Seq<char>, toml_edit::Item)>;

/// `s` has an entry under `k`.
pub open spec fn has_key<V>(s: Seq<(Seq<char>, V)>, k: Seq<char>) -> bool {
    exists|i: int| 0 <= i < s.len() && s[i].0 == k
}

/// The entries of `s` under other keys than `k`, in order.
pub open spec fn without<V>(s: Seq<(Seq<char>, V)>, k: Seq<char>) -> Seq<(Seq<char>, V)> {
    s.filter(|e: (Seq<char>, V)| e.0 != k)
}

/// `s` has exactly one entry under `k`, and it holds `v`.
pub open spec fn maps_once<V>(s: Seq<(Seq<char>, V)>, k: Seq<char>, v: V) -> bool {
    exists|i: int|
        0 <= i < s.len() && s[i] == (k, v) && forall|j: int|
            0 <= j < s.len() && j != i ==> s[j].0 != k
}

/// `s` after setting `k` to `v` in a table that keeps its keys in order: an existing
/// entry (keys of a table are distinct) is updated where it stands, a new one goes last.
pub open spec fn upsert<V>(s: Seq<(Seq<char>, V)>, k: Seq<char>, v: V) -> Seq<(Seq<char>, V)> {
    if has_key(s, k) {
        s.map_values(|e: (Seq<char>, V)| if e.0 == k { (k, v) } else { e })
    } else {
        s.push((k, v))
    }
}

/// A table's entries, none counting as empty.
pub open spec fn section_or_empty<V>(s: Option<Seq<(Seq<char>, V)>>) -> Seq<(Seq<char>, V)> {
    match s {
        Some(e) => e,
        None => Seq::empty(),
    }
}

/// `new` is the table `old` (none counting as empty) with `k` set to `v` once and every
/// other entry kept in order.
pub open spec fn set_once<V>(
    new: Option<Seq<(Seq<char>, V)>>,
    old: Option<Seq<(Seq<char>, V)>>,
    k: Seq<char>,
    v: V,
) -> bool {
    let o = match old {
        Some(o) => o,
        None => Seq::empty(),
    };
    new matches Some(s) && without(s, k) == without(o, k) && maps_once(s, k, v)
}

/// The table built by setting each pair in turn.
pub open spec fn table_of(pairs: Seq<(String, String)>) -> Seq<(Seq<char>, Option<Seq<char>>)>
    decreases pairs.len(),
{
    if pairs.len() == 0 {
        Seq::empty()
    } else {
        upsert(table_of(pairs.drop_last()), pairs.last().0@, Some(pairs.last().1@))
    }
}

/// A value in a table, as far as the document model follows it: the string if it is one,
/// the boolean if it is one, and, if it is a table, its keys each with its value if that
/// is a string.
pub type ValueView = (Option<Seq<char>>, Option<bool>, Option<Seq<(Seq<char>, Option<Seq<char>>)>>);

/// The entries of a `toml_edit::Table`, in order, each key with its value.
pub uninterp spec fn table_view(t: Table) -> Seq<(Seq<char>, ValueView)>;

/// The entries of a table, each key with its value if that is a string.
pub open spec fn strings_of(es: Seq<(Seq<char>, ValueView)>) -> Seq<(Seq<char>, Option<Seq<char>>)> {
    es.map_values(|e: (Seq<char>, ValueView)| (e.0, e.1.0))
}

/// The value under `k` in table entries (whose keys are distinct).
pub open spec fn lookup(es: Seq<(Seq<char>, ValueView)>, k: Seq<char>) -> Option<ValueView>
    decreases es.len(),
{
    if es.len() == 0 {
        None
    } else if es.last().0 == k {
        Some(es.last().1)
    } else {
        lookup(es.drop_last(), k)
    }
}

/// The fields of an input that a table with entries `es` gives.
pub open spec fn fields_of(es: Seq<(Seq<char>, ValueView)>) -> FieldsView {
    (
        match lookup(es, "url"@) {
            Some(v) => v.0,
            None => None,
        },
        match lookup(es, "submodules"@) {
            Some(v) => v.1,
            None => None,
        },
        match lookup(es, "flake"@) {
            Some(v) => v.1,
            None => None,
        },
        match lookup(es, "dir"@) {
            Some(v) => v.0,
            None => None,
        },
        match lookup(es, "follows"@) {
            Some(v) => v.2,
            None => None,
        },
    )
}

/// An input's entry as it is read.
pub struct InputItem {
    pub url: Option<String>,
    pub submodules: Option<bool>,
}

/// The aliases of a `shorturls` table: each key whose value is a string, set in order.
pub open spec fn aliases_of(es: Seq<(Seq<char>, Option<Seq<char>>)>) -> Map<Seq<char>, Seq<char>>
    decreases es.len(),
{
    if es.len() == 0 {
        Map::empty()
    } else {
        match es.last().1 {
            Some(t) => aliases_of(es.drop_last()).insert(es.last().0, t),
            None => aliases_of(es.drop_last()),
        }
    }
}

// ---------------------------------------------------------------------------
// The calls into toml_edit
// ---------------------------------------------------------------------------

/// What `str::parse::<toml_edit::DocumentMut>` gives for a text.
pub uninterp spec fn toml_parse_spec(raw: Seq<char>) -> Result<DocumentMut, toml_edit::TomlError>;

/// The text that `DocumentMut::to_string` writes for a document.
pub uninterp spec fn toml_text(doc: DocumentMut) -> Seq<char>;

/// `str::parse::<toml_edit::DocumentMut>`.
#[verifier::external_body]
fn toml_parse(raw: &str) -> (r: Result<DocumentMut, toml_edit::TomlError>)
    ensures
        r == toml_parse_spec(raw@),
        r matches Ok(d) ==> doc_ok(d),
{
    raw.parse::<DocumentMut>()
}

/// `DocumentMut::to_string`: the document's text.
#[verifier::external_body]
fn toml_render(doc: &DocumentMut) -> (r: String)
    requires
        doc_ok(*doc),
    ensures
        r@ == toml_text(*doc),
{
    doc.to_string()
}

/// The table under `key` (`shorturls`) read with `DocumentMut::get`, `Item::as_table`,
/// `Table::iter` and `Item::as_str`: the entries in table order, each with its string value.
#[verifier::external_body]
fn read_shorturls(doc: &DocumentMut, key: &str) -> (r: Option<Vec<(String, Option<String>)>>)
    requires
        doc_ok(*doc),
        key@ == "shorturls"@,
    ensures
        match r {
            Some(v) => shorturls_view(*doc) == Some(
                v@.map_values(|e: (String, Option<String>)| (e.0@, opt_view(e.1))),
            ),
            None => shorturls_view(*doc) is None,
        },
{
    doc.get(key).and_then(Item::as_table).map(
        |t| t.iter().map(|(k, v)| (k.to_string(), v.as_str().map(str::to_string))).collect(),
    )
}

/// The table under `key` (`inputs`) read with `DocumentMut::get`, `Item::as_table`,
/// `Table::iter`, `Item::as_table_like`, `TableLike::get`, `Item::as_str` and
/// `Item::as_bool`: the entries in table order, each, where it is a table, with its string
/// under `url_key` (`url`) and its boolean under `sub_key` (`submodules`).
#[verifier::external_body]
fn read_inputs(doc: &DocumentMut, key: &str, url_key: &str, sub_key: &str) -> (r: Option<
    Vec<(String, Option<InputItem>)>,
>)
    requires
        doc_ok(*doc),
        key@ == "inputs"@,
        url_key@ == "url"@,
        sub_key@ == "submodules"@,
    ensures
        match r {
            Some(v) => inputs_view(*doc) matches Some(s) && s.len() == v@.len() && forall|i: int|
                0 <= i < s.len() ==> item_matches(#[trigger] v@[i], s[i]),
            None => inputs_view(*doc) is None,
        },
{
    doc.get(key).and_then(Item::as_table).map(|t| {
        t.iter().map(|(k, v)| (k.to_string(), v.as_table_like().map(|f| InputItem {
            url: f.get(url_key).and_then(Item::as_str).map(str::to_string),
            submodules: f.get(sub_key).and_then(Item::as_bool),
        }))).collect()
    })
}

/// A read entry agrees with the document's entry.
pub open spec fn item_matches(e: (String, Option<InputItem>), v: (Seq<char>, Option<FieldsView>)) -> bool {
    &&& e.0@ == v.0
    &&& match (e.1, v.1) {
        (None, None) => true,
        (Some(it), Some(f)) => opt_view(it.url) == f.0 && it.submodules == f.1,
        _ => false,
    }
}

/// `Table::contains_key` on the table under `key` (`inputs`), where that is a table.
#[verifier::external_body]
fn section_contains(doc: &DocumentMut, key: &str, name: &str) -> (r: bool)
    requires
        doc_ok(*doc),
        key@ == "inputs"@,
    ensures
        r == (inputs_view(*doc) matches Some(s) && has_key(s, name@)),
{
    doc.get(key).and_then(Item::as_table).is_some_and(|t| t.contains_key(name))
}

/// Whether `key` (`inputs` or `shorturls`) names a table, by `DocumentMut::get` and
/// `Item::as_table`.
#[verifier::external_body]
fn section_is_table(doc: &DocumentMut, key: &str) -> (r: bool)
    requires
        doc_ok(*doc),
    ensures
        key@ == "inputs"@ ==> r == inputs_view(*doc) is Some,
        key@ == "shorturls"@ ==> r == shorturls_view(*doc) is Some,
{
    doc.get(key).and_then(Item::as_table).is_some()
}

/// Assigning a new empty table (`Table::new`) to `key` (`inputs` or `shorturls`) by index.
#[verifier::external_body]
fn reset_section(doc: &mut DocumentMut, key: &str)
    requires
        doc_ok(*old(doc)),
    ensures
        doc_ok(*final(doc)),
        (key@ == "inputs"@ || key@ == "shorturls"@) ==> other_items(*final(doc)) == other_items(
            *old(doc),
        ),
        key@ == "inputs"@ ==> inputs_view(*final(doc)) == Some(
            Seq::<(Seq<char>, Option<FieldsView>)>::empty(),
        ) && shorturls_view(*final(doc)) == shorturls_view(*old(doc)),
        key@ == "shorturls"@ ==> shorturls_view(*final(doc)) == Some(
            Seq::<(Seq<char>, Option<Seq<char>>)>::empty(),
        ) && inputs_view(*final(doc)) == inputs_view(*old(doc)),
{
    doc[key] = Item::Table(Table::new());
}

/// `Table::new`: a table with no entries.
#[verifier::external_body]
fn table_new() -> (t: Table)
    ensures
        table_view(t) == Seq::<(Seq<char>, ValueView)>::empty(),
{
    Table::new()
}

/// `Table::set_implicit`, which changes only how an empty table is written.
#[verifier::external_body]
fn table_set_implicit(t: &mut Table, implicit: bool)
    ensures
        table_view(*final(t)) == table_view(*old(t)),
{
    t.set_implicit(implicit);
}

/// Assigning `t[k] = value(v)` for a string `v`.
#[verifier::external_body]
fn table_put_str(t: &mut Table, k: &str, v: &str)
    ensures
        table_view(*final(t)) == upsert(table_view(*old(t)), k@, (Some(v@), None, None)),
{
    t[k] = value(v);
}

/// Assigning `t[k] = value(b)` for a boolean `b`.
#[verifier::external_body]
fn table_put_bool(t: &mut Table, k: &str, b: bool)
    ensures
        table_view(*final(t)) == upsert(table_view(*old(t)), k@, (None, Some(b), None)),
{
    t[k] = value(b);
}

/// Assigning `t[k] = Item::Table(sub)`.
#[verifier::external_body]
fn table_put_table(t: &mut Table, k: &str, sub: Table)
    ensures
        table_view(*final(t)) == upsert(
            table_view(*old(t)),
            k@,
            (None, None, Some(strings_of(table_view(sub)))),
        ),
{
    t[k] = Item::Table(sub);
}

/// Assigning `doc[key][name] = Item::Table(t)` where `key` (`inputs`) names a table.
#[verifier::external_body]
fn put_input(doc: &mut DocumentMut, key: &str, name: &str, t: Table)
    requires
        doc_ok(*old(doc)),
        key@ == "inputs"@,
        inputs_view(*old(doc)) is Some,
    ensures
        inputs_view(*final(doc)) == Some(
            upsert(inputs_view(*old(doc))->0, name@, Some(fields_of(table_view(t)))),
        ),
        set_once(inputs_view(*final(doc)), inputs_view(*old(doc)), name@, Some(fields_of(table_view(t)))),
        shorturls_view(*final(doc)) == shorturls_view(*old(doc)),
        other_items(*final(doc)) == other_items(*old(doc)),
        doc_ok(*final(doc)),
{
    doc[key][name] = Item::Table(t);
}

/// Assigning `doc[key][name] = value(template)` where `key` (`shorturls`) names a table.
#[verifier::external_body]
fn put_shorturl(doc: &mut DocumentMut, key: &str, name: &str, template: &str)
    requires
        doc_ok(*old(doc)),
        key@ == "shorturls"@,
        shorturls_view(*old(doc)) is Some,
    ensures
        shorturls_view(*final(doc)) == Some(
            upsert(shorturls_view(*old(doc))->0, name@, Some(template@)),
        ),
        set_once(shorturls_view(*final(doc)), shorturls_view(*old(doc)), name@, Some(template@)),
        inputs_view(*final(doc)) == inputs_view(*old(doc)),
        other_items(*final(doc)) == other_items(*old(doc)),
        doc_ok(*final(doc)),
{
    doc[key][name] = value(template);
}

/// `Table::remove` of `name` from the table under `key` (`inputs` or `shorturls`), where
/// that is a table, by `DocumentMut::get_mut` and `Item::as_table_mut`; true exactly when
/// an entry was removed, and nothing changes otherwise.
#[verifier::external_body]
fn drop_entry(doc: &mut DocumentMut, key: &str, name: &str) -> (r: bool)
    requires
        doc_ok(*old(doc)),
    ensures
        doc_ok(*final(doc)),
        !r ==> *final(doc) == *old(doc),
        (key@ == "inputs"@ || key@ == "shorturls"@) ==> other_items(*final(doc)) == other_items(
            *old(doc),
        ),
        key@ == "inputs"@ ==> {
            &&& r == (inputs_view(*old(doc)) matches Some(s) && has_key(s, name@))
            &&& inputs_view(*final(doc)) == match inputs_view(*old(doc)) {
                Some(s) => Some(without(s, name@)),
                None => None,
            }
            &&& shorturls_view(*final(doc)) == shorturls_view(*old(doc))
        },
        key@ == "shorturls"@ ==> {
            &&& r == (shorturls_view(*old(doc)) matches Some(s) && has_key(s, name@))
            &&& shorturls_view(*final(doc)) == match shorturls_view(*old(doc)) {
                Some(s) => Some(without(s, name@)),
                None => None,
            }
            &&& inputs_view(*final(doc)) == inputs_view(*old(doc))
        },
{
    doc.get_mut(key).and_then(Item::as_table_mut).and_then(|t| t.remove(name)).is_some()
}

// ---------------------------------------------------------------------------
// Reading
// ---------------------------------------------------------------------------

/// Reads a pins document from its text.
pub fn parse_document(raw: &str) -> (r: Result<DocumentMut, PinsError>)
    ensures
        r == match toml_parse_spec(raw@) {
            Ok(doc) => Ok::<DocumentMut, PinsError>(doc),
            Err(e) => Err(PinsError::Parse(e)),
        },
        r matches Ok(d) ==> doc_ok(d),
{
    match toml_parse(raw) {
        Ok(doc) => Ok(doc),
        Err(e) => Err(PinsError::Parse(e)),
    }
}

/// The text of a pins document, formatting kept.
pub fn document_text(doc: &DocumentMut) -> (r: String)
    requires
        doc_ok(*doc),
    ensures
        r@ == toml_text(*doc),
{
    toml_render(doc)
}

/// The aliases of the document: each `shorturls` key whose value is a string.
pub fn shorturls(doc: &DocumentMut) -> (r: ShortUrls)
    requires
        doc_ok(*doc),
    ensures
        r@ == match shorturls_view(*doc) {
            Some(es) => aliases_of(es),
            None => Map::empty(),
        },
{
    let mut out = ShortUrls::new();
    match read_shorturls(doc, "shorturls") {
        None => out,
        Some(entries) => {
            let ghost es = entries@.map_values(|e: (String, Option<String>)| (e.0@, opt_view(e.1)));
            let mut i: usize = 0;
            assert(es.take(0) =~= Seq::<(Seq<char>, Option<Seq<char>>)>::empty());
            while i < entries.len()
                invariant
                    i <= entries@.len(),
                    es == entries@.map_values(|e: (String, Option<String>)| (e.0@, opt_view(e.1))),
                    out@ == aliases_of(es.take(i as int)),
                decreases entries@.len() - i,
            {
                assert(es.take(i + 1).drop_last() =~= es.take(i as int));
                assert(es.take(i + 1).last() == es[i as int]);
                match &entries[i].1 {
                    Some(t) => {
                        out.insert(entries[i].0.clone(), t.clone());
                    },
                    None => {},
                }
                i = i + 1;
            }
            assert(es.take(i as int) =~= es);
            out
        },
    }
}

/// The inputs of a table, in order, or the first entry that is no table or has no url.
pub open spec fn inputs_spec(es: Seq<(Seq<char>, Option<FieldsView>)>) -> Result<
    Seq<(Seq<char>, Seq<char>, bool)>,
    (bool, Seq<char>),
>
    decreases es.len(),
{
    if es.len() == 0 {
        Ok(Seq::empty())
    } else {
        match inputs_spec(es.drop_last()) {
            Err(e) => Err(e),
            Ok(v) => {
                let k = es.last().0;
                match es.last().1 {
                    None => Err((true, k)),
                    Some(f) => match f.0 {
                        None => Err((false, k)),
                        Some(u) => Ok(
                            v.push(
                                (
                                    k,
                                    u,
                                    match f.1 {
                                        Some(b) => b,
                                        None => false,
                                    },
                                ),
                            ),
                        ),
                    },
                }
            },
        }
    }
}

/// An input by its view.
pub open spec fn input_view(i: Input) -> (Seq<char>, Seq<char>, bool) {
    (i.name@, i.url@, i.submodules)
}

/// Inputs by their views.
pub open spec fn inputs_views(v: Seq<Input>) -> Seq<(Seq<char>, Seq<char>, bool)> {
    v.map_values(|i: Input| input_view(i))
}

/// The inputs listed in the document, in order: none without an `inputs` table; refused
/// at the first entry that is no table or has no string `url`; `submodules` is false
/// unless set to a boolean.
pub fn inputs(doc: &DocumentMut) -> (r: Result<Vec<Input>, PinsError>)
    requires
        doc_ok(*doc),
    ensures
        match inputs_view(*doc) {
            None => r matches Ok(v) && v@.len() == 0,
            Some(es) => match (inputs_spec(es), r) {
                (Ok(want), Ok(v)) => inputs_views(v@) == want,
                (Err((true, k)), Err(PinsError::NotATable(n))) => n@ == k,
                (Err((false, k)), Err(PinsError::NoUrl(n))) => n@ == k,
                _ => false,
            },
        },
{
    let mut out: Vec<Input> = Vec::new();
    let entries = match read_inputs(doc, "inputs", "url", "submodules") {
        None => {
            return Ok(out);
        },
        Some(v) => v,
    };
    let ghost es = inputs_view(*doc)->0;
    let mut i: usize = 0;
    assert(es.take(0) =~= Seq::<(Seq<char>, Option<FieldsView>)>::empty());
    assert(inputs_views(out@) =~= Seq::<(Seq<char>, Seq<char>, bool)>::empty());
    while i < entries.len()
        invariant
            i <= entries@.len(),
            inputs_view(*doc) == Some(es),
            es.len() == entries@.len(),
            forall|j: int| 0 <= j < es.len() ==> item_matches(#[trigger] entries@[j], es[j]),
            inputs_spec(es.take(i as int)) == Ok::<_, (bool, Seq<char>)>(
                inputs_views(out@),
            ),
        decreases entries@.len() - i,
    {
        assert(es.take(i + 1).drop_last() =~= es.take(i as int));
        assert(es.take(i + 1).last() == es[i as int]);
        assert(item_matches(entries@[i as int], es[i as int]));
        let name = &entries[i].0;
        match &entries[i].1 {
            None => {
                proof {
                    lemma_inputs_err_prefix(es, i as int + 1);
                }
                return Err(PinsError::NotATable(name.clone()));
            },
            Some(item) => match &item.url {
                None => {
                    proof {
                        lemma_inputs_err_prefix(es, i as int + 1);
                    }
                    return Err(PinsError::NoUrl(name.clone()));
                },
                Some(u) => {
                    let sub = match item.submodules {
                        Some(b) => b,
                        None => false,
                    };
                    let ghost before = out@;
                    out.push(Input { name: name.clone(), url: u.clone(), submodules: sub });
                    assert(inputs_views(out@) =~= inputs_views(before).push(input_view(out@.last())));
                },
            },
        }
        i = i + 1;
    }
    assert(es.take(i as int) =~= es);
    Ok(out)
}

proof fn lemma_inputs_err_prefix(es: Seq<(Seq<char>, Option<FieldsView>)>, k: int)
    requires
        0 <= k <= es.len(),
        inputs_spec(es.take(k)) is Err,
    ensures
        inputs_spec(es) == inputs_spec(es.take(k)),
    decreases es.len() - k,
{
    if k < es.len() {
        assert(es.take(k + 1).drop_last() =~= es.take(k));
        lemma_inputs_err_prefix(es, k + 1);
    } else {
        assert(es.take(k) =~= es);
    }
}

/// Whether the document lists an input named `name`.
pub fn has_input(doc: &DocumentMut, name: &str) -> (r: bool)
    requires
        doc_ok(*doc),
    ensures
        r == (inputs_view(*doc) matches Some(s) && has_key(s, name@)),
{
    section_contains(doc, "inputs", name)
}

// ---------------------------------------------------------------------------
// Editing
// ---------------------------------------------------------------------------

/// An optional directory by its view.
pub open spec fn dir_view(dir: Option<&str>) -> Option<Seq<char>> {
    match dir {
        Some(d) => Some(d@),
        None => None,
    }
}

/// The fields written for a new input: `url` always; `flake = false` for a non-flake;
/// `dir` if given; `submodules = true` if asked; a `follows` table if there are follows.
pub open spec fn new_input_fields(
    url: Seq<char>,
    flake: bool,
    dir: Option<Seq<char>>,
    submodules: bool,
    follows: Seq<(String, String)>,
) -> FieldsView {
    (
        Some(url),
        if submodules {
            Some(true)
        } else {
            None
        },
        if flake {
            None
        } else {
            Some(false)
        },
        dir,
        if follows.len() > 0 {
            Some(table_of(follows))
        } else {
            None
        },
    )
}

/// Setting a key that a table does not hold appends it.
proof fn lemma_upsert_fresh<V>(s: Seq<(Seq<char>, V)>, k: Seq<char>, v: V)
    requires
        forall|i: int| 0 <= i < s.len() ==> s[i].0 != k,
    ensures
        upsert(s, k, v) == s.push((k, v)),
{
}

/// Setting a string in a table and then keeping only the string values is setting it in
/// the string values.
proof fn lemma_strings_upsert(es: Seq<(Seq<char>, ValueView)>, k: Seq<char>, v: Seq<char>)
    ensures
        strings_of(upsert(es, k, (Some(v), None, None))) == upsert(strings_of(es), k, Some(v)),
{
    let ss = strings_of(es);
    if has_key(es, k) {
        let i = choose|i: int| 0 <= i < es.len() && es[i].0 == k;
        assert(ss[i].0 == k);
        assert(strings_of(upsert(es, k, (Some(v), None, None))) =~= upsert(ss, k, Some(v)));
    } else {
        assert forall|i: int| 0 <= i < ss.len() implies ss[i].0 != k by {
            assert(ss[i].0 == es[i].0);
        }
        assert(strings_of(es.push((k, (Some(v), None, None)))) =~= ss.push((k, Some(v))));
    }
}

/// The value under `k` after appending an entry.
proof fn lemma_lookup_push(es: Seq<(Seq<char>, ValueView)>, e: (Seq<char>, ValueView), k: Seq<char>)
    ensures
        lookup(es.push(e), k) == if e.0 == k {
            Some(e.1)
        } else {
            lookup(es, k)
        },
{
    assert(es.push(e).drop_last() =~= es);
}

/// The keys of an input's table differ from one another.
proof fn lemma_field_keys()
    ensures
        "url"@ != "flake"@,
        "url"@ != "dir"@,
        "url"@ != "submodules"@,
        "url"@ != "follows"@,
        "flake"@ != "dir"@,
        "flake"@ != "submodules"@,
        "flake"@ != "follows"@,
        "dir"@ != "submodules"@,
        "dir"@ != "follows"@,
        "submodules"@ != "follows"@,
{
    reveal_strlit("url");
    reveal_strlit("flake");
    reveal_strlit("dir");
    reveal_strlit("submodules");
    reveal_strlit("follows");
    assert("url"@[0] != "flake"@[0]);
    assert("url"@[0] != "dir"@[0]);
    assert("url"@[0] != "submodules"@[0]);
    assert("url"@[0] != "follows"@[0]);
    assert("flake"@[0] != "dir"@[0]);
    assert("flake"@[0] != "submodules"@[0]);
    assert("flake"@[1] != "follows"@[1]);
    assert("dir"@[0] != "submodules"@[0]);
    assert("dir"@[0] != "follows"@[0]);
    assert("submodules"@[0] != "follows"@[0]);
}

/// The entries of the table written for a new input, in the order they are set.
spec fn new_input_entries(
    url: Seq<char>,
    flake: bool,
    dir: Option<Seq<char>>,
    submodules: bool,
    follows: Seq<(String, String)>,
) -> Seq<(Seq<char>, ValueView)> {
    let a = Seq::<(Seq<char>, ValueView)>::empty().push(("url"@, (Some(url), None, None)));
    let b = if flake {
        a
    } else {
        a.push(("flake"@, (None, Some(false), None)))
    };
    let c = match dir {
        Some(d) => b.push(("dir"@, (Some(d), None, None))),
        None => b,
    };
    let d = if submodules {
        c.push(("submodules"@, (None, Some(true), None)))
    } else {
        c
    };
    if follows.len() > 0 {
        d.push(("follows"@, (None, None, Some(table_of(follows)))))
    } else {
        d
    }
}

proof fn lemma_new_input_table(
    url: Seq<char>,
    flake: bool,
    dir: Option<Seq<char>>,
    submodules: bool,
    follows: Seq<(String, String)>,
)
    ensures
        fields_of(new_input_entries(url, flake, dir, submodules, follows)) == new_input_fields(
            url,
            flake,
            dir,
            submodules,
            follows,
        ),
{
    lemma_field_keys();
    reveal_with_fuel(lookup, 6);
}

/// Adds (or replaces) the input `name`; an `inputs` entry that is no table becomes one.
/// Other inputs and the aliases are kept.
pub fn add_input(
    doc: &mut DocumentMut,
    name: &str,
    url: &str,
    flake: bool,
    dir: Option<&str>,
    submodules: bool,
    follows: &[(String, String)],
)
    requires
        doc_ok(*old(doc)),
    ensures
        inputs_view(*final(doc)) == Some(
            upsert(
                section_or_empty(inputs_view(*old(doc))),
                name@,
                Some(new_input_fields(url@, flake, dir_view(dir), submodules, follows@)),
            ),
        ),
        set_once(inputs_view(*final(doc)), inputs_view(*old(doc)), name@, Some(new_input_fields(url@, flake, dir_view(dir), submodules, follows@))),
        shorturls_view(*final(doc)) == shorturls_view(*old(doc)),
        other_items(*final(doc)) == other_items(*old(doc)),
        doc_ok(*final(doc)),
{
    proof {
        lemma_field_keys();
    }
    let mut t = table_new();
    table_set_implicit(&mut t, false);
    let ghost mut es: Seq<(Seq<char>, ValueView)> = Seq::empty();
    table_put_str(&mut t, "url", url);
    proof {
        lemma_upsert_fresh(es, "url"@, (Some(url@), None, None));
        es = es.push(("url"@, (Some(url@), None, None)));
    }
    if !flake {
        table_put_bool(&mut t, "flake", false);
        proof {
            lemma_upsert_fresh(es, "flake"@, (None, Some(false), None));
            es = es.push(("flake"@, (None, Some(false), None)));
        }
    }
    match dir {
        Some(d) => {
            table_put_str(&mut t, "dir", d);
            proof {
                lemma_upsert_fresh(es, "dir"@, (Some(d@), None, None));
                es = es.push(("dir"@, (Some(d@), None, None)));
            }
        },
        None => {},
    }
    if submodules {
        table_put_bool(&mut t, "submodules", true);
        proof {
            lemma_upsert_fresh(es, "submodules"@, (None, Some(true), None));
            es = es.push(("submodules"@, (None, Some(true), None)));
        }
    }
    assert(table_view(t) == es);
    if follows.len() > 0 {
        let mut ft = table_new();
        let mut i: usize = 0;
        assert(follows@.take(0) =~= Seq::<(String, String)>::empty());
        assert(strings_of(table_view(ft)) =~= table_of(follows@.take(0)));
        while i < follows.len()
            invariant
                i <= follows@.len(),
                strings_of(table_view(ft)) == table_of(follows@.take(i as int)),
            decreases follows@.len() - i,
        {
            proof {
                lemma_strings_upsert(table_view(ft), follows@[i as int].0@, follows@[i as int].1@);
                assert(follows@.take(i + 1).drop_last() =~= follows@.take(i as int));
            }
            table_put_str(&mut ft, follows[i].0.as_str(), follows[i].1.as_str());
            i = i + 1;
        }
        assert(follows@.take(i as int) =~= follows@);
        table_put_table(&mut t, "follows", ft);
        proof {
            lemma_upsert_fresh(es, "follows"@, (None, None, Some(table_of(follows@))));
            es = es.push(("follows"@, (None, None, Some(table_of(follows@)))));
        }
    }
    assert(table_view(t) == new_input_entries(url@, flake, dir_view(dir), submodules, follows@));
    proof {
        lemma_new_input_table(url@, flake, dir_view(dir), submodules, follows@);
    }
    if !section_is_table(doc, "inputs") {
        reset_section(doc, "inputs");
    }
    put_input(doc, "inputs", name, t);
}

/// Removes the input `name`; true exactly when it was listed, the document unchanged
/// otherwise. Other inputs, the aliases and the rest of the document are kept.
pub fn remove_input(doc: &mut DocumentMut, name: &str) -> (r: bool)
    requires
        doc_ok(*old(doc)),
    ensures
        r == (inputs_view(*old(doc)) matches Some(s) && has_key(s, name@)),
        !r ==> *final(doc) == *old(doc),
        other_items(*final(doc)) == other_items(*old(doc)),
        doc_ok(*final(doc)),
        inputs_view(*final(doc)) == match inputs_view(*old(doc)) {
            Some(s) => Some(without(s, name@)),
            None => None,
        },
        shorturls_view(*final(doc)) == shorturls_view(*old(doc)),
{
    drop_entry(doc, "inputs", name)
}

/// Sets the alias `name` to `template`; a `shorturls` entry that is no table becomes one.
/// Other aliases and the inputs are kept.
pub fn set_alias(doc: &mut DocumentMut, name: &str, template: &str)
    requires
        doc_ok(*old(doc)),
    ensures
        shorturls_view(*final(doc)) == Some(
            upsert(section_or_empty(shorturls_view(*old(doc))), name@, Some(template@)),
        ),
        other_items(*final(doc)) == other_items(*old(doc)),
        doc_ok(*final(doc)),
        set_once(shorturls_view(*final(doc)), shorturls_view(*old(doc)), name@, Some(template@)),
        inputs_view(*final(doc)) == inputs_view(*old(doc)),
{
    if !section_is_table(doc, "shorturls") {
        reset_section(doc, "shorturls");
    }
    put_shorturl(doc, "shorturls", name, template);
}

/// Removes the alias `name`; true exactly when it was set, the document unchanged
/// otherwise. Other aliases, the inputs and the rest of the document are kept.
pub fn remove_alias(doc: &mut DocumentMut, name: &str) -> (r: bool)
    requires
        doc_ok(*old(doc)),
    ensures
        r == (shorturls_view(*old(doc)) matches Some(s) && has_key(s, name@)),
        !r ==> *final(doc) == *old(doc),
        other_items(*final(doc)) == other_items(*old(doc)),
        doc_ok(*final(doc)),
        shorturls_view(*final(doc)) == match shorturls_view(*old(doc)) {
            Some(s) => Some(without(s, name@)),
            None => None,
        },
        inputs_view(*final(doc)) == inputs_view(*old(doc)),
{
    drop_entry(doc, "shorturls", name)
}

// ---------------------------------------------------------------------------
// Laws
// ---------------------------------------------------------------------------

proof fn lemma_without_push<V>(p: Seq<(Seq<char>, V)>, e: (Seq<char>, V), k: Seq<char>)
    ensures
        without(p.push(e), k) == if e.0 != k {
            without(p, k).push(e)
        } else {
            without(p, k)
        },
{
    reveal(Seq::filter);
    assert(p.push(e).drop_last() =~= p);
}

/// The aliases under other keys than `k` depend only on the entries under other keys.
proof fn lemma_aliases_without(s: Seq<(Seq<char>, Option<Seq<char>>)>, k: Seq<char>)
    ensures
        aliases_of(without(s, k)) == aliases_of(s).remove(k),
    decreases s.len(),
{
    if s.len() == 0 {
        reveal(Seq::filter);
        assert(aliases_of(s).remove(k) =~= Map::empty());
    } else {
        let p = s.drop_last();
        let e = s.last();
        assert(p.push(e) =~= s);
        lemma_without_push(p, e, k);
        lemma_aliases_without(p, k);
        if e.0 != k {
            let w = without(p, k);
            assert(w.push(e).drop_last() =~= w);
            match e.1 {
                Some(t) => {
                    assert(aliases_of(w.push(e)) == aliases_of(w).insert(e.0, t));
                    assert(aliases_of(s).remove(k) =~= aliases_of(p).remove(k).insert(e.0, t));
                },
                None => {
                    assert(aliases_of(w.push(e)) == aliases_of(w));
                },
            }
        } else {
            match e.1 {
                Some(t) => {
                    assert(aliases_of(s).remove(k) =~= aliases_of(p).remove(k));
                },
                None => {},
            }
        }
    }
}

/// An entry set once under `k` is the alias of `k`.
proof fn lemma_aliases_once(s: Seq<(Seq<char>, Option<Seq<char>>)>, k: Seq<char>, t: Seq<char>)
    requires
        maps_once(s, k, Some(t)),
    ensures
        aliases_of(s).contains_key(k),
        aliases_of(s)[k] == t,
    decreases s.len(),
{
    let i = choose|i: int|
        0 <= i < s.len() && s[i] == (k, Some(t)) && forall|j: int|
            0 <= j < s.len() && j != i ==> s[j].0 != k;
    let p = s.drop_last();
    if i < s.len() - 1 {
        assert(p[i] == s[i]);
        assert forall|j: int| 0 <= j < p.len() && j != i implies p[j].0 != k by {
            assert(p[j] == s[j]);
        }
        lemma_aliases_once(p, k, t);
    }
}

/// Setting an alias and reading the aliases back: `name` gives `template`, every other
/// alias is what it was.
pub proof fn law_alias_read_back(
    new: Option<Seq<(Seq<char>, Option<Seq<char>>)>>,
    old: Option<Seq<(Seq<char>, Option<Seq<char>>)>>,
    name: Seq<char>,
    template: Seq<char>,
)
    requires
        set_once(new, old, name, Some(template)),
    ensures
        aliases_of(new->0) == (match old {
            Some(o) => aliases_of(o),
            None => Map::empty(),
        }).insert(name, template),
{
    let s = new->0;
    let o = match old {
        Some(o) => o,
        None => Seq::empty(),
    };
    lemma_aliases_without(s, name);
    lemma_aliases_without(o, name);
    lemma_aliases_once(s, name, template);
    assert(aliases_of(Seq::<(Seq<char>, Option<Seq<char>>)>::empty()) =~= Map::empty());
    assert(aliases_of(s) =~= aliases_of(o).insert(name, template)) by {
        assert forall|x: Seq<char>| #[trigger] aliases_of(s).contains_key(x) == aliases_of(
            o,
        ).insert(name, template).contains_key(x) by {
            if x != name {
                assert(aliases_of(s).remove(name).contains_key(x) == aliases_of(s).contains_key(x));
            }
        }
        assert forall|x: Seq<char>| #[trigger] aliases_of(s).contains_key(x) implies aliases_of(
            s,
        )[x] == aliases_of(o).insert(name, template)[x] by {
            if x != name {
                assert(aliases_of(s).remove(name)[x] == aliases_of(s)[x]);
            }
        }
    }
}

/// Removing an alias: the aliases are the old ones without `name`.
pub proof fn law_alias_removed(s: Seq<(Seq<char>, Option<Seq<char>>)>, name: Seq<char>)
    ensures
        aliases_of(without(s, name)) == aliases_of(s).remove(name),
        !aliases_of(without(s, name)).contains_key(name),
{
    lemma_aliases_without(s, name);
}

/// Inputs by view under other names than `k`.
pub open spec fn other_inputs(v: Seq<(Seq<char>, Seq<char>, bool)>, k: Seq<char>) -> Seq<
    (Seq<char>, Seq<char>, bool),
> {
    v.filter(|e: (Seq<char>, Seq<char>, bool)| e.0 != k)
}

/// Reading the inputs commutes with leaving out the entries under `k`.
proof fn lemma_inputs_without(s: Seq<(Seq<char>, Option<FieldsView>)>, k: Seq<char>)
    requires
        inputs_spec(s) is Ok,
    ensures
        inputs_spec(without(s, k)) == Ok::<_, (bool, Seq<char>)>(other_inputs(inputs_spec(s)->Ok_0, k)),
    decreases s.len(),
{
    reveal(Seq::filter);
    if s.len() == 0 {
        assert(without(s, k) =~= s);
    } else {
        let p = s.drop_last();
        let e = s.last();
        assert(p.push(e) =~= s);
        lemma_without_push(p, e, k);
        lemma_inputs_without(p, k);
        let v = inputs_spec(p)->Ok_0;
        let f = e.1->Some_0;
        let item = (e.0, f.0->Some_0, match f.1 {
            Some(b) => b,
            None => false,
        });
        assert(inputs_spec(s)->Ok_0 == v.push(item));
        assert(v.push(item).drop_last() =~= v);
        if e.0 != k {
            let w = without(p, k);
            assert(w.push(e).drop_last() =~= w);
        }
    }
}

/// Inputs by view list `k` exactly once, with `url` and `submodules`.
pub open spec fn listed_once(v: Seq<(Seq<char>, Seq<char>, bool)>, k: Seq<char>, url: Seq<char>, submodules: bool) -> bool {
    exists|i: int|
        0 <= i < v.len() && v[i] == (k, url, submodules) && forall|j: int|
            0 <= j < v.len() && j != i ==> v[j].0 != k
}

proof fn lemma_inputs_once(s: Seq<(Seq<char>, Option<FieldsView>)>, k: Seq<char>, f: FieldsView)
    requires
        maps_once(s, k, Some(f)),
        f.0 is Some,
        inputs_spec(s) is Ok,
    ensures
        listed_once(inputs_spec(s)->Ok_0, k, f.0->Some_0, match f.1 {
            Some(b) => b,
            None => false,
        }),
    decreases s.len(),
{
    let i = choose|i: int|
        0 <= i < s.len() && s[i] == (k, Some(f)) && forall|j: int|
            0 <= j < s.len() && j != i ==> s[j].0 != k;
    let p = s.drop_last();
    let v = inputs_spec(p)->Ok_0;
    let e = s.last();
    let sub = match f.1 {
        Some(b) => b,
        None => false,
    };
    lemma_inputs_names(p);
    let fe = e.1->Some_0;
    let item = (e.0, fe.0->Some_0, match fe.1 {
        Some(b) => b,
        None => false,
    });
    let w = inputs_spec(s)->Ok_0;
    assert(inputs_spec(p) is Ok);
    assert(w == v.push(item));
    if i < s.len() - 1 {
        assert(p[i] == s[i]);
        assert forall|j: int| 0 <= j < p.len() && j != i implies p[j].0 != k by {
            assert(p[j] == s[j]);
        }
        lemma_inputs_once(p, k, f);
        let vi = choose|x: int|
            0 <= x < v.len() && v[x] == (k, f.0->Some_0, sub) && forall|j: int|
                0 <= j < v.len() && j != x ==> v[j].0 != k;
        assert(w[vi] == v[vi]);
        assert(e.0 != k);
        assert forall|j: int| 0 <= j < w.len() && j != vi implies w[j].0 != k by {
            if j < v.len() {
                assert(w[j] == v[j]);
            }
        }
    } else {
        assert(e == s[i]);
        assert(item == (k, f.0->Some_0, sub));
        assert(w[v.len() as int] == item);
        assert forall|j: int| 0 <= j < w.len() && j != v.len() implies w[j].0 != k by {
            assert(w[j] == v[j]);
            assert(p[j] == s[j]);
        }
    }
}

/// The names read are the names of the entries, in order.
proof fn lemma_inputs_names(s: Seq<(Seq<char>, Option<FieldsView>)>)
    requires
        inputs_spec(s) is Ok,
    ensures
        inputs_spec(s)->Ok_0.len() == s.len(),
        forall|j: int| 0 <= j < s.len() ==> (#[trigger] inputs_spec(s)->Ok_0[j]).0 == s[j].0,
    decreases s.len(),
{
    if s.len() > 0 {
        lemma_inputs_names(s.drop_last());
        let v = inputs_spec(s.drop_last())->Ok_0;
        assert forall|j: int| 0 <= j < s.len() implies (#[trigger] inputs_spec(s)->Ok_0[j]).0 == s[j].0 by {
            if j < s.len() - 1 {
                assert(inputs_spec(s)->Ok_0[j] == v[j]);
                assert(s.drop_last()[j] == s[j]);
            }
        }
    }
}

/// Adding an input and reading the inputs back: where they can be read, the new input is
/// listed once, with its url and submodules flag, and the other inputs are those read
/// before, in the same order.
pub proof fn law_input_read_back(
    new: Option<Seq<(Seq<char>, Option<FieldsView>)>>,
    old: Option<Seq<(Seq<char>, Option<FieldsView>)>>,
    name: Seq<char>,
    url: Seq<char>,
    flake: bool,
    dir: Option<Seq<char>>,
    submodules: bool,
    follows: Seq<(String, String)>,
)
    requires
        set_once(new, old, name, Some(new_input_fields(url, flake, dir, submodules, follows))),
        inputs_spec(new->0) is Ok,
    ensures
        listed_once(inputs_spec(new->0)->Ok_0, name, url, submodules),
        other_inputs(inputs_spec(new->0)->Ok_0, name) == inputs_spec(without(
            match old {
                Some(o) => o,
                None => Seq::empty(),
            },
            name,
        ))->Ok_0,
{
    let s = new->0;
    let o = match old {
        Some(o) => o,
        None => Seq::empty(),
    };
    let f = new_input_fields(url, flake, dir, submodules, follows);
    lemma_inputs_once(s, name, f);
    lemma_inputs_without(s, name);
}

/// Removing an input: where the inputs can be read, the input is no longer listed and the
/// others are listed as before.
pub proof fn law_input_removed(s: Seq<(Seq<char>, Option<FieldsView>)>, name: Seq<char>)
    requires
        inputs_spec(s) is Ok,
    ensures
        inputs_spec(without(s, name)) == Ok::<_, (bool, Seq<char>)>(other_inputs(inputs_spec(s)->Ok_0, name)),
        forall|j: int|
            0 <= j < other_inputs(inputs_spec(s)->Ok_0, name).len() ==> (#[trigger] other_inputs(
                inputs_spec(s)->Ok_0,
                name,
            )[j]).0 != name,
{
    broadcast use vstd::seq_lib::group_filter_ensures;

    lemma_inputs_without(s, name);
}

/// The table built from pairs holds, for each child, the parent of its last pair, and
/// only children of some pair.
proof fn lemma_table_of_pairs(pairs: Seq<(String, String)>)
    ensures
        forall|i: int|
            #![trigger pairs[i]]
            0 <= i < pairs.len() && (forall|j: int| i < j < pairs.len() ==> pairs[j].0@ != pairs[i].0@)
                ==> exists|t: int|
                0 <= t < table_of(pairs).len() && table_of(pairs)[t] == (pairs[i].0@, Some(pairs[i].1@)),
        forall|t: int|
            0 <= t < table_of(pairs).len() ==> exists|i: int|
                0 <= i < pairs.len() && #[trigger] table_of(pairs)[t].0 == pairs[i].0@,
    decreases pairs.len(),
{
    if pairs.len() > 0 {
        let p = pairs.drop_last();
        lemma_table_of_pairs(p);
        let prev = table_of(p);
        let tbl = table_of(pairs);
        let k = pairs.last().0@;
        let v = Some(pairs.last().1@);
        let last = pairs.len() - 1;
        assert(tbl == upsert(prev, k, v));
        if has_key(prev, k) {
            let c = choose|c: int| 0 <= c < prev.len() && prev[c].0 == k;
            assert(tbl[c] == (k, v));
        } else {
            assert(tbl[prev.len() as int] == (k, v));
        }
        assert forall|i: int|
            #![trigger pairs[i]]
            0 <= i < pairs.len() && (forall|j: int| i < j < pairs.len() ==> pairs[j].0@ != pairs[i].0@)
                implies exists|t: int|
                0 <= t < tbl.len() && tbl[t] == (pairs[i].0@, Some(pairs[i].1@)) by {
            if i < last {
                assert(pairs[last].0@ != pairs[i].0@);
                assert(p[i] == pairs[i]);
                assert forall|j: int| i < j < p.len() implies p[j].0@ != p[i].0@ by {
                    assert(p[j] == pairs[j]);
                }
                let t = choose|t: int| 0 <= t < prev.len() && prev[t] == (p[i].0@, Some(p[i].1@));
                assert(tbl[t] == prev[t]);
            }
        }
        assert forall|t: int| 0 <= t < tbl.len() implies exists|i: int|
            0 <= i < pairs.len() && #[trigger] tbl[t].0 == pairs[i].0@ by {
            if t < prev.len() {
                assert(tbl[t].0 == prev[t].0);
                let i = choose|i: int| 0 <= i < p.len() && prev[t].0 == p[i].0@;
                assert(p[i] == pairs[i]);
            } else {
                assert(tbl[t].0 == pairs[last].0@);
            }
        }
    }
}

/// Adding an input with follows writes a follows table, even for a single pair: each
/// child maps to the parent of its last `--follows`, and no other child is listed; with
/// no follows, none is written.
pub proof fn law_follows_written(
    url: Seq<char>,
    flake: bool,
    dir: Option<Seq<char>>,
    submodules: bool,
    follows: Seq<(String, String)>,
)
    ensures
        follows.len() == 0 <==> new_input_fields(url, flake, dir, submodules, follows).4 is None,
        follows.len() > 0 ==> {
            let t = new_input_fields(url, flake, dir, submodules, follows).4->0;
            &&& forall|i: int|
                #![trigger follows[i]]
                0 <= i < follows.len() && (forall|j: int| i < j < follows.len() ==> follows[j].0@ != follows[i].0@)
                    ==> exists|e: int| 0 <= e < t.len() && t[e] == (follows[i].0@, Some(follows[i].1@))
            &&& forall|e: int| 0 <= e < t.len() ==> exists|i: int|
                0 <= i < follows.len() && #[trigger] t[e].0 == follows[i].0@
        },
{
    lemma_table_of_pairs(follows);
    if follows.len() > 0 {
        let t = new_input_fields(url, flake, dir, submodules, follows).4->0;
        assert(t == table_of(follows));
        assert forall|e: int| 0 <= e < t.len() implies exists|i: int|
            0 <= i < follows.len() && #[trigger] t[e].0 == follows[i].0@ by {
            assert(table_of(follows)[e].0 == t[e].0);
        }
    }
}

/// A key set once is listed afterwards; a key removed is not.
pub proof fn law_set_then_has<V>(
    new: Option<Seq<(Seq<char>, V)>>,
    old: Option<Seq<(Seq<char>, V)>>,
    k: Seq<char>,
    v: V,
    s: Seq<(Seq<char>, V)>,
)
    requires
        set_once(new, old, k, v),
    ensures
        new matches Some(n) && has_key(n, k),
        !has_key(without(s, k), k),
{
    broadcast use vstd::seq_lib::group_filter_ensures;

    let n = new->0;
    let i = choose|i: int|
        0 <= i < n.len() && n[i] == (k, v) && forall|j: int| 0 <= j < n.len() && j != i ==> n[j].0 != k;
    assert(n[i].0 == k);
    let w = without(s, k);
    assert forall|j: int| 0 <= j < w.len() implies w[j].0 != k by {
        let f = |e: (Seq<char>, V)| e.0 != k;
        assert(f(w[j]));
    }
}

} // verus!
