//! Short-url aliases: `scheme:rest` expands through a template holding `{path}`.
use vstd::prelude::*;
use vstd::string::*;

use crate::text::{
    chars_eq, chars_of, contains, count_char, find, find_exec, first_at, last_at, occurs_at, occurs_at_exec,
    push_chars, replace, split_once, starts_with, string_of,
};

verus! {

/// The placeholder that a template's `rest` replaces.
pub open spec fn path_pat() -> Seq<char> {
    seq!['{', 'p', 'a', 't', 'h', '}']
}

/// The prefix that marks a git url.
pub open spec fn git_plus() -> Seq<char> {
    seq!['g', 'i', 't', '+']
}

/// The separator between a url's scheme and its authority.
pub open spec fn scheme_sep() -> Seq<char> {
    seq![':', '/', '/']
}

/// What stands before a git ref in a url's query.
pub open spec fn ref_query() -> Seq<char> {
    seq!['?', 'r', 'e', 'f', '=']
}

/// A git url whose path has at least four `/`-separated segments after `://` and no
/// query has its last segment moved to `?ref=`; every other url is left as it is.
pub open spec fn normalize_spec(u: Seq<char>) -> Seq<char> {
    if !starts_with(u, git_plus()) || contains(u, seq!['?']) {
        u
    } else {
        match find(u, scheme_sep()) {
            None => u,
            Some(i) => {
                if count_char(u.skip(i + 3), '/') < 3 {
                    u
                } else {
                    let j = choose|j: int| last_at(u, '/', j);
                    u.take(j) + ref_query() + u.skip(j + 1)
                }
            },
        }
    }
}

/// `scheme:rest` whose scheme is an alias expands to the alias's template with `{path}`
/// replaced by `rest`, then normalized; every other url passes through unchanged.
pub open spec fn expand_spec(url: Seq<char>, aliases: Map<Seq<char>, Seq<char>>) -> Seq<char> {
    match split_once(url, seq![':']) {
        None => url,
        Some((scheme, rest)) => {
            if aliases.contains_key(scheme) {
                normalize_spec(replace(aliases[scheme], path_pat(), rest))
            } else {
                url
            }
        },
    }
}

/// The alias table: names mapped to url templates, each name present at most once.
pub struct ShortUrls {
    entries: Vec<(String, String)>,
}

impl ShortUrls {
    #[verifier::type_invariant]
    spec fn names_distinct(self) -> bool {
        forall|i: int, j: int|
            0 <= i < j < self.entries@.len() ==> self.entries@[i].0@ != self.entries@[j].0@
    }

    spec fn has_at(self, k: Seq<char>, i: int) -> bool {
        0 <= i < self.entries@.len() && self.entries@[i].0@ == k
    }

    /// No aliases.
    pub fn new() -> (r: ShortUrls)
        ensures
            r@ == Map::<Seq<char>, Seq<char>>::empty(),
    {
        let r = ShortUrls { entries: Vec::new() };
        assert(r@ =~= Map::<Seq<char>, Seq<char>>::empty());
        r
    }

    fn position(&self, name: &[char]) -> (r: Option<usize>)
        ensures
            match r {
                Some(i) => self.has_at(name@, i as int),
                None => forall|i: int| !self.has_at(name@, i),
            },
    {
        let mut i: usize = 0;
        while i < self.entries.len()
            invariant
                i <= self.entries@.len(),
                forall|k: int| 0 <= k < i ==> !self.has_at(name@, k),
            decreases self.entries@.len() - i,
        {
            let key = chars_of(self.entries[i].0.as_str());
            if chars_eq(key.as_slice(), name) {
                return Some(i);
            }
            i = i + 1;
        }
        None
    }

    /// Sets `name` to `template`, replacing what it was set to before.
    pub fn insert(&mut self, name: String, template: String)
        ensures
            final(self)@ == old(self)@.insert(name@, template@),
    {
        proof {
            use_type_invariant(&*self);
        }
        let key = chars_of(name.as_str());
        let ghost old_entries = self.entries@;
        let ghost old_view = self@;
        match self.position(key.as_slice()) {
            Some(i) => {
                let mut entries: Vec<(String, String)> = Vec::new();
                std::mem::swap(&mut entries, &mut self.entries);
                entries.set(i, (name, template));
                self.entries = entries;
                proof {
                    use_type_invariant(&*self);
                    assert forall|k: Seq<char>| #[trigger] self@.contains_key(k) == old_view.insert(
                        key@,
                        template@,
                    ).contains_key(k) by {
                        if k == key@ {
                            assert(self.has_at(k, i as int));
                        } else if old_view.contains_key(k) {
                            let j = choose|j: int| old(self).has_at(k, j);
                            assert(self.has_at(k, j));
                        } else if self@.contains_key(k) {
                            let j = choose|j: int| self.has_at(k, j);
                            assert(old(self).has_at(k, j));
                        }
                    }
                    assert forall|k: Seq<char>| #[trigger] self@.contains_key(k) implies self@[k]
                        == old_view.insert(key@, template@)[k] by {
                        let j = choose|j: int| self.has_at(k, j);
                        if k == key@ {
                            assert(self.has_at(k, i as int));
                            assert(j == i);
                        } else {
                            assert(old(self).has_at(k, j));
                            let j0 = choose|j0: int| old(self).has_at(k, j0);
                            assert(j0 == j);
                        }
                    }
                    assert(self@ =~= old_view.insert(key@, template@));
                }
            },
            None => {
                let mut entries: Vec<(String, String)> = Vec::new();
                std::mem::swap(&mut entries, &mut self.entries);
                entries.push((name, template));
                proof {
                    assert forall|a: int, b: int|
                        0 <= a < b < entries@.len() implies entries@[a].0@ != entries@[b].0@ by {
                        if b == old_entries.len() {
                            assert(!old(self).has_at(key@, a));
                        }
                    }
                }
                self.entries = entries;
                proof {
                    use_type_invariant(&*self);
                    let n = old_entries.len() as int;
                    assert forall|k: Seq<char>| #[trigger] self@.contains_key(k) == old_view.insert(
                        key@,
                        template@,
                    ).contains_key(k) by {
                        if k == key@ {
                            assert(self.has_at(k, n));
                        } else if old_view.contains_key(k) {
                            let j = choose|j: int| old(self).has_at(k, j);
                            assert(self.has_at(k, j));
                        } else if self@.contains_key(k) {
                            let j = choose|j: int| self.has_at(k, j);
                            assert(old(self).has_at(k, j));
                        }
                    }
                    assert forall|k: Seq<char>| #[trigger] self@.contains_key(k) implies self@[k]
                        == old_view.insert(key@, template@)[k] by {
                        let j = choose|j: int| self.has_at(k, j);
                        if k == key@ {
                            assert(j == n);
                        } else {
                            assert(old(self).has_at(k, j));
                            let j0 = choose|j0: int| old(self).has_at(k, j0);
                            assert(j0 == j);
                        }
                    }
                    assert(self@ =~= old_view.insert(key@, template@));
                }
            },
        }
    }

    /// The template that `name` is set to, if any.
    pub fn get(&self, name: &[char]) -> (r: Option<&String>)
        ensures
            match r {
                Some(t) => self@.contains_key(name@) && t@ == self@[name@],
                None => !self@.contains_key(name@),
            },
    {
        proof {
            use_type_invariant(self);
        }
        match self.position(name) {
            Some(i) => {
                proof {
                    let j = choose|j: int| self.has_at(name@, j);
                    assert(j == i);
                }
                Some(&self.entries[i].1)
            },
            None => None,
        }
    }
}

impl View for ShortUrls {
    type V = Map<Seq<char>, Seq<char>>;

    closed spec fn view(&self) -> Map<Seq<char>, Seq<char>> {
        Map::new(
            |k: Seq<char>| exists|i: int| self.has_at(k, i),
            |k: Seq<char>| self.entries@[choose|i: int| self.has_at(k, i)].1@,
        )
    }
}

fn lit(cs: &[char]) -> (r: Vec<char>)
    ensures
        r@ == cs@,
{
    let mut v: Vec<char> = Vec::new();
    let mut i: usize = 0;
    while i < cs.len()
        invariant
            i <= cs.len(),
            v@ == cs@.take(i as int),
        decreases cs.len() - i,
    {
        v.push(cs[i]);
        i = i + 1;
        assert(v@ =~= cs@.take(i as int));
    }
    assert(cs@.take(i as int) =~= cs@);
    v
}

proof fn lemma_replace_step_plain(s: Seq<char>, p: Seq<char>, w: Seq<char>, i: int)
    requires
        0 <= i < s.len(),
        p.len() > 0,
        !occurs_at(s, p, i),
    ensures
        replace(s.skip(i), p, w) == seq![s[i]] + replace(s.skip(i + 1), p, w),
{
    let t = s.skip(i);
    assert(t.drop_first() =~= s.skip(i + 1));
    if t.len() >= p.len() {
        assert(t.take(p.len() as int) =~= s.subrange(i, i + p.len()));
    } else {
        assert(t =~= seq![s[i]] + s.skip(i + 1));
        assert(s.skip(i + 1).len() < p.len());
    }
}

proof fn lemma_replace_step_match(s: Seq<char>, p: Seq<char>, w: Seq<char>, i: int)
    requires
        p.len() > 0,
        occurs_at(s, p, i),
    ensures
        replace(s.skip(i), p, w) == w + replace(s.skip(i + p.len()), p, w),
{
    let t = s.skip(i);
    assert(t.take(p.len() as int) =~= s.subrange(i, i + p.len()));
    assert(t.skip(p.len() as int) =~= s.skip(i + p.len()));
}

/// `s` with every occurrence of the non-empty `p` replaced by `w`.
fn replace_chars(s: &[char], p: &[char], w: &[char]) -> (r: Vec<char>)
    requires
        p.len() > 0,
    ensures
        r@ == replace(s@, p@, w@),
{
    let mut out: Vec<char> = Vec::new();
    let mut i: usize = 0;
    assert(s@.skip(0) =~= s@);
    while i < s.len()
        invariant
            i <= s.len(),
            p.len() > 0,
            out@ + replace(s@.skip(i as int), p@, w@) == replace(s@, p@, w@),
        decreases s.len() - i,
    {
        if occurs_at_exec(s, p, i) {
            proof {
                lemma_replace_step_match(s@, p@, w@, i as int);
            }
            let ghost before = out@;
            let mut k: usize = 0;
            while k < w.len()
                invariant
                    k <= w.len(),
                    out@ == before + w@.take(k as int),
                decreases w.len() - k,
            {
                out.push(w[k]);
                k = k + 1;
                assert(out@ =~= before + w@.take(k as int));
            }
            assert(w@.take(k as int) =~= w@);
            assert(out@ + replace(s@.skip(i + p.len()), p@, w@) =~= before + (w@ + replace(
                s@.skip(i + p.len()),
                p@,
                w@,
            )));
            i = i + p.len();
        } else {
            proof {
                lemma_replace_step_plain(s@, p@, w@, i as int);
            }
            let ghost before = out@;
            out.push(s[i]);
            assert(out@ + replace(s@.skip(i + 1), p@, w@) =~= before + (seq![s@[i as int]]
                + replace(s@.skip(i + 1), p@, w@)));
            i = i + 1;
        }
    }
    assert(s@.skip(i as int) =~= Seq::<char>::empty());
    assert(out@ + Seq::<char>::empty() =~= out@);
    out
}

proof fn lemma_count_none(s: Seq<char>, c: char)
    requires
        forall|k: int| 0 <= k < s.len() ==> s[k] != c,
    ensures
        count_char(s, c) == 0,
    decreases s.len(),
{
    if s.len() > 0 {
        lemma_count_none(s.drop_last(), c);
    }
}

/// Remap the trailing segment of a deep git url path to `?ref=`.
pub fn normalize_git_ref(url: &str) -> (r: String)
    ensures
        r@ == normalize_spec(url@),
{
    let u = chars_of(url);
    let gp = lit(&['g', 'i', 't', '+']);
    assert(gp@ =~= git_plus());
    if !occurs_at_exec(u.as_slice(), gp.as_slice(), 0) {
        return String::from_str(url);
    }
    let q = lit(&['?']);
    assert(q@ =~= seq!['?']);
    if find_exec(u.as_slice(), q.as_slice()).is_some() {
        return String::from_str(url);
    }
    let sep = lit(&[':', '/', '/']);
    assert(sep@ =~= scheme_sep());
    let i = match find_exec(u.as_slice(), sep.as_slice()) {
        Some(i) => i,
        None => {
            return String::from_str(url);
        },
    };
    assert(occurs_at(u@, sep@, i as int));
    assert(sep@.len() == 3);
    let n = u.len();
    assert(i + 3 <= n);
    let start = i + 3;
    let mut count: usize = 0;
    let mut k: usize = start;
    assert(u@.subrange(start as int, start as int) =~= Seq::<char>::empty());
    while k < u.len()
        invariant
            start <= k <= u.len(),
            count <= k,
            count == count_char(u@.subrange(start as int, k as int), '/'),
        decreases u.len() - k,
    {
        assert(u@.subrange(start as int, k + 1).drop_last() =~= u@.subrange(start as int, k as int));
        if u[k] == '/' {
            count = count + 1;
        }
        k = k + 1;
    }
    assert(u@.subrange(start as int, u.len() as int) =~= u@.skip(start as int));
    if count < 3 {
        return String::from_str(url);
    }
    // the last '/'
    let mut j: usize = u.len();
    while j > start && u[j - 1] != '/'
        invariant
            start <= j <= u.len(),
            forall|m: int| j <= m < u.len() ==> u@[m] != '/',
        decreases j,
    {
        j = j - 1;
    }
    if j == start {
        proof {
            lemma_count_none(u@.skip(start as int), '/');
        }
        assert(false);
        return String::from_str(url);
    }
    let last = j - 1;
    proof {
        assert(last_at(u@, '/', last as int));
        let c = choose|x: int| last_at(u@, '/', x);
        if c < last {
            assert(u@[last as int] == '/');
        } else if c > last {
            assert(u@[c] == '/');
        }
    }
    let mut out = string_of(&u.as_slice()[0..last]);
    let rq = lit(&['?', 'r', 'e', 'f', '=']);
    push_chars(&mut out, rq.as_slice());
    push_chars(&mut out, &u.as_slice()[last + 1..u.len()]);
    proof {
        assert(u@.subrange(0, last as int) =~= u@.take(last as int));
        assert(u@.subrange(last + 1, u.len() as int) =~= u@.skip(last + 1));
        assert(rq@ =~= ref_query());
    }
    out
}

/// Expand `scheme:rest` through the `{path}` template of the alias named `scheme`;
/// urls whose scheme is no alias, and urls without `:`, pass through unchanged.
pub fn expand(url: &str, shorturls: &ShortUrls) -> (r: String)
    ensures
        r@ == expand_spec(url@, shorturls@),
{
    let u = chars_of(url);
    let colon = lit(&[':']);
    assert(colon@ =~= seq![':']);
    let i = match find_exec(u.as_slice(), colon.as_slice()) {
        Some(i) => i,
        None => {
            return String::from_str(url);
        },
    };
    assert(occurs_at(u@, colon@, i as int));
    let n = u.len();
    assert(i + 1 <= n);
    let scheme = &u.as_slice()[0..i];
    let rest = &u.as_slice()[i + 1..u.len()];
    assert(scheme@ =~= u@.take(i as int));
    assert(rest@ =~= u@.skip(i + 1));
    let template = match shorturls.get(scheme) {
        Some(t) => t,
        None => {
            return String::from_str(url);
        },
    };
    let tc = chars_of(template.as_str());
    let pat = lit(&['{', 'p', 'a', 't', 'h', '}']);
    assert(pat@ =~= path_pat());
    let replaced = replace_chars(tc.as_slice(), pat.as_slice(), rest);
    let s = string_of(replaced.as_slice());
    normalize_git_ref(s.as_str())
}

/// A character counted in `s` stands at some index.
proof fn lemma_count_some(s: Seq<char>, c: char) -> (k: int)
    requires
        count_char(s, c) > 0,
    ensures
        0 <= k < s.len(),
        s[k] == c,
    decreases s.len(),
{
    if s.last() == c {
        s.len() - 1
    } else {
        let k = lemma_count_some(s.drop_last(), c);
        assert(s.drop_last()[k] == s[k]);
        k
    }
}

/// A character that occurs in `s` has a last occurrence.
proof fn lemma_has_last(s: Seq<char>, c: char, k: int)
    requires
        0 <= k < s.len(),
        s[k] == c,
    ensures
        exists|j: int| last_at(s, c, j),
    decreases s.len(),
{
    if s.last() == c {
        assert(last_at(s, c, s.len() - 1));
    } else {
        let p = s.drop_last();
        assert(p[k] == c);
        lemma_has_last(p, c, k);
        let j = choose|j: int| last_at(p, c, j);
        assert(s[j] == p[j]);
        assert forall|m: int| j < m < s.len() implies s[m] != c by {
            if m < s.len() - 1 {
                assert(s[m] == p[m]);
            }
        }
        assert(last_at(s, c, j));
    }
}

/// A url without `:`, or whose scheme is no alias, passes through unchanged.
pub proof fn law_expand_passthrough(url: Seq<char>, aliases: Map<Seq<char>, Seq<char>>)
    requires
        match split_once(url, seq![':']) {
            None => true,
            Some((scheme, _)) => !aliases.contains_key(scheme),
        },
    ensures
        expand_spec(url, aliases) == url,
{
}

/// Normalizing twice is normalizing once (`normalize_git_ref` gives `normalize_spec`): a
/// remapped url holds a query, and a url with a query is left as it is.
pub proof fn law_normalize_idempotent(u: Seq<char>)
    ensures
        normalize_spec(normalize_spec(u)) == normalize_spec(u),
{
    let n = normalize_spec(u);
    if n != u {
        let i = find(u, scheme_sep())->Some_0;
        let r = u.skip(i + 3);
        let k = lemma_count_some(r, '/');
        lemma_has_last(u, '/', k + i + 3);
        let j = choose|j: int| last_at(u, '/', j);
        assert(n == u.take(j) + ref_query() + u.skip(j + 1));
        assert(n.subrange(j, j + 1) =~= seq!['?']);
        assert(occurs_at(n, seq!['?'], j));
    }
}

/// Where `name` holds no `:`, `name:rest` splits into `name` and `rest`.
pub proof fn lemma_split_scheme(name: Seq<char>, rest: Seq<char>)
    requires
        !contains(name, seq![':']),
    ensures
        split_once(name + seq![':'] + rest, seq![':']) == Some((name, rest)),
{
    let u = name + seq![':'] + rest;
    let k = name.len() as int;
    assert(u.subrange(k, k + 1) =~= seq![':']);
    assert forall|j: int| 0 <= j < k implies !occurs_at(u, seq![':'], j) by {
        if occurs_at(u, seq![':'], j) {
            assert(u.subrange(j, j + 1) == seq![':']);
            assert(u.subrange(j, j + 1)[0] == u[j]);
            assert(u[j] == ':');
            assert(name[j] == u[j]);
            assert(name.subrange(j, j + 1) =~= seq![':']);
            assert(occurs_at(name, seq![':'], j));
        }
    }
    assert(first_at(u, seq![':'], k));
    let c = choose|i: int| first_at(u, seq![':'], i);
    crate::text::lemma_first_at_unique(u, seq![':'], k, c);
    assert(u.take(k) =~= name);
    assert(u.skip(k + 1) =~= rest);
}

} // verus!
