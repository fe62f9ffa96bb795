//! Query anchors: `name?key=value&key=value`, the part of a directive that
//! names a structural query and the values bound into it.
use vstd::prelude::*;

use crate::scan::{alnum_end, alnum_end_from, find_char, find_char_from, is_alnum};
use crate::text::{chars_of, string_of};

verus! {

/// A map from binding names to values: each name at most once.
#[derive(Debug, PartialEq, Eq)]
pub struct Bindings {
    entries: Vec<(String, String)>,
}

impl Bindings {
    #[verifier::type_invariant]
    closed spec fn keys_unique(&self) -> bool {
        forall|i: int, j: int|
            0 <= i < j < self.entries@.len() ==> self.entries@[i].0@ != self.entries@[j].0@
    }

    closed spec fn key_at(&self, k: Seq<char>, i: int) -> bool {
        0 <= i < self.entries@.len() && self.entries@[i].0@ == k
    }

    /// The bindings as a map.
    pub closed spec fn view(&self) -> Map<Seq<char>, Seq<char>> {
        Map::new(
            |k: Seq<char>| exists|i: int| self.key_at(k, i),
            |k: Seq<char>| self.entries@[choose|i: int| self.key_at(k, i)].1@,
        )
    }

    /// No bindings.
    pub fn new() -> (r: Self)
        ensures
            r.view() == Map::<Seq<char>, Seq<char>>::empty(),
    {
        let r = Bindings { entries: Vec::new() };
        assert(r.view() =~= Map::<Seq<char>, Seq<char>>::empty());
        r
    }

    fn position(&self, key: &String) -> (r: Option<usize>)
        ensures
            match r {
                Some(i) => self.key_at(key@, i as int),
                None => forall|i: int| !self.key_at(key@, i),
            },
    {
        let mut i: usize = 0;
        while i < self.entries.len()
            invariant
                0 <= i <= self.entries@.len(),
                forall|j: int| 0 <= j < i ==> !self.key_at(key@, j),
            decreases self.entries@.len() - i,
        {
            if self.entries[i].0 == *key {
                return Some(i);
            }
            i = i + 1;
        }
        None
    }

    /// The value bound to `key`, if any.
    pub fn get(&self, key: &str) -> (r: Option<&String>)
        ensures
            match r {
                Some(v) => self.view().contains_key(key@) && self.view()[key@] == v@,
                None => !self.view().contains_key(key@),
            },
    {
        proof {
            use_type_invariant(self);
        }
        let k = key.to_owned();
        match self.position(&k) {
            Some(i) => {
                let ghost c = choose|j: int| self.key_at(key@, j);
                assert(self.key_at(key@, c));
                assert(c == i);
                Some(&self.entries[i].1)
            },
            None => None,
        }
    }

    /// Binds `key` to `value`, in place of any value it had.
    pub fn insert(&mut self, key: String, value: String)
        ensures
            final(self).view() == old(self).view().insert(key@, value@),
    {
        proof {
            use_type_invariant(&*self);
        }
        let ghost pre = *self;
        match self.position(&key) {
            Some(i) => {
                let ghost before = self.entries@;
                let entries = self.replaced(i, key, value);
                let ghost after = entries@;
                proof {
                    assert forall|a: int, b: int|
                        0 <= a < b < after.len() implies after[a].0@ != after[b].0@ by {
                        if a != i && b != i {
                            assert(after[a].0@ == before[a].0@ && after[b].0@ == before[b].0@);
                        } else if a == i {
                            assert(after[b].0@ == before[b].0@);
                        } else {
                            assert(after[a].0@ == before[a].0@);
                        }
                    }
                }
                *self = Bindings { entries };
                proof {
                    let nv = self.view();
                    let ov = pre.view().insert(key@, value@);
                    assert forall|k: Seq<char>| nv.contains_key(k) <==> ov.contains_key(k) by {
                        if nv.contains_key(k) {
                            let w = choose|j: int| self.key_at(k, j);
                            if w != i {
                                assert(pre.key_at(k, w));
                            }
                        }
                        if ov.contains_key(k) && k != key@ {
                            let w = choose|j: int| pre.key_at(k, j);
                            assert(self.key_at(k, w));
                        }
                        if k == key@ {
                            assert(self.key_at(k, i as int));
                        }
                    }
                    assert forall|k: Seq<char>| nv.contains_key(k) implies nv[k] == ov[k] by {
                        let w = choose|j: int| self.key_at(k, j);
                        if k == key@ {
                            assert(self.key_at(k, i as int));
                            assert(w == i);
                        } else {
                            let v = choose|j: int| pre.key_at(k, j);
                            assert(pre.key_at(k, v));
                            assert(w != i);
                            assert(pre.key_at(k, w));
                            assert(v == w);
                        }
                    }
                    assert(nv =~= ov);
                }
            },
            None => {
                let ghost before = self.entries@;
                let mut entries = self.copied();
                entries.push((key, value));
                let ghost after = entries@;
                let ghost n = before.len() as int;
                proof {
                    assert forall|a: int, b: int|
                        0 <= a < b < after.len() implies after[a].0@ != after[b].0@ by {
                        assert(after[a].0@ == before[a].0@);
                        if b < n {
                            assert(after[b].0@ == before[b].0@);
                        } else {
                            assert(!pre.key_at(key@, a));
                        }
                    }
                }
                *self = Bindings { entries };
                proof {
                    let nv = self.view();
                    let ov = pre.view().insert(key@, value@);
                    assert forall|k: Seq<char>| nv.contains_key(k) <==> ov.contains_key(k) by {
                        if nv.contains_key(k) {
                            let w = choose|j: int| self.key_at(k, j);
                            if w != n {
                                assert(pre.key_at(k, w));
                            }
                        }
                        if ov.contains_key(k) && k != key@ {
                            let w = choose|j: int| pre.key_at(k, j);
                            assert(self.key_at(k, w));
                        }
                        if k == key@ {
                            assert(self.key_at(k, n));
                        }
                    }
                    assert forall|k: Seq<char>| nv.contains_key(k) implies nv[k] == ov[k] by {
                        let w = choose|j: int| self.key_at(k, j);
                        if k == key@ {
                            assert(self.key_at(k, n));
                            assert(w == n);
                        } else {
                            let v = choose|j: int| pre.key_at(k, j);
                            assert(pre.key_at(k, v));
                            assert(w != n);
                            assert(pre.key_at(k, w));
                            assert(v == w);
                        }
                    }
                    assert(nv =~= ov);
                }
            },
        }
    }

    fn copied(&self) -> (r: Vec<(String, String)>)
        ensures
            forall|j: int| 0 <= j < r@.len() ==> (#[trigger] r@[j]).0@ == self.entries@[j].0@
                && r@[j].1@ == self.entries@[j].1@,
            r@.len() == self.entries@.len(),
    {
        let mut r: Vec<(String, String)> = Vec::new();
        let mut j: usize = 0;
        while j < self.entries.len()
            invariant
                0 <= j <= self.entries@.len(),
                r@.len() == j,
                forall|m: int| 0 <= m < j ==> (#[trigger] r@[m]).0@ == self.entries@[m].0@
                    && r@[m].1@ == self.entries@[m].1@,
            decreases self.entries@.len() - j,
        {
            r.push((self.entries[j].0.clone(), self.entries[j].1.clone()));
            j = j + 1;
        }
        r
    }

    fn replaced(&self, i: usize, key: String, value: String) -> (r: Vec<(String, String)>)
        requires
            i < self.entries@.len(),
        ensures
            r@.len() == self.entries@.len(),
            r@[i as int].0@ == key@ && r@[i as int].1@ == value@,
            forall|j: int| 0 <= j < r@.len() && j != i ==> (#[trigger] r@[j]).0@ == self.entries@[j].0@
                && r@[j].1@ == self.entries@[j].1@,
    {
        let mut r: Vec<(String, String)> = Vec::new();
        let mut j: usize = 0;
        let mut slot = Some((key, value));
        while j < self.entries.len()
            invariant
                0 <= j <= self.entries@.len(),
                i < self.entries@.len(),
                r@.len() == j,
                j <= i ==> slot == Some((key, value)),
                j > i ==> r@[i as int].0@ == key@ && r@[i as int].1@ == value@,
                forall|m: int| 0 <= m < j && m != i ==> (#[trigger] r@[m]).0@ == self.entries@[m].0@
                    && r@[m].1@ == self.entries@[m].1@,
            decreases self.entries@.len() - j,
        {
            if j == i {
                match slot.take() {
                    Some(p) => r.push(p),
                    None => r.push((String::new(), String::new())),
                }
            } else {
                r.push((self.entries[j].0.clone(), self.entries[j].1.clone()));
            }
            j = j + 1;
        }
        r
    }

    /// Whether nothing is bound.
    pub fn is_empty(&self) -> (r: bool)
        ensures
            r == (self.view() == Map::<Seq<char>, Seq<char>>::empty()),
    {
        if self.entries.len() == 0 {
            assert(self.view() =~= Map::<Seq<char>, Seq<char>>::empty());
            true
        } else {
            assert(self.key_at(self.entries@[0].0@, 0));
            assert(self.view().contains_key(self.entries@[0].0@));
            false
        }
    }

    /// Number of names bound.
    pub fn len(&self) -> (r: usize)
        ensures
            r == self.view().dom().len(),
    {
        proof {
            use_type_invariant(self);
            self.lemma_dom_len(self.entries@.len() as int);
        }
        self.entries.len()
    }

    proof fn lemma_dom_len(&self, n: int)
        requires
            self.keys_unique(),
            0 <= n <= self.entries@.len(),
        ensures
            Set::new(|k: Seq<char>| exists|i: int| 0 <= i < n && self.key_at(k, i)).finite(),
            Set::new(|k: Seq<char>| exists|i: int| 0 <= i < n && self.key_at(k, i)).len() == n,
            n == self.entries@.len() ==> self.view().dom() == Set::new(
                |k: Seq<char>| exists|i: int| 0 <= i < n && self.key_at(k, i),
            ),
        decreases n,
    {
        let s = Set::new(|k: Seq<char>| exists|i: int| 0 <= i < n && self.key_at(k, i));
        if n == 0 {
            assert(s =~= Set::empty());
        } else {
            self.lemma_dom_len(n - 1);
            let p = Set::new(|k: Seq<char>| exists|i: int| 0 <= i < n - 1 && self.key_at(k, i));
            let k0 = self.entries@[n - 1].0@;
            assert(self.key_at(k0, n - 1));
            assert(s =~= p.insert(k0));
            assert(!p.contains(k0)) by {
                if p.contains(k0) {
                    let w = choose|i: int| 0 <= i < n - 1 && self.key_at(k0, i);
                    assert(self.entries@[w].0@ != self.entries@[n - 1].0@);
                }
            }
        }
        if n == self.entries@.len() {
            assert(self.view().dom() =~= s);
        }
    }

    /// The bound pairs, as views, in the order in which their names were
    /// first bound.
    pub closed spec fn pair_views(&self) -> Seq<(Seq<char>, Seq<char>)> {
        pair_views(self.entries@)
    }

    /// The bound pairs, in the order in which their names were first bound.
    pub fn pairs(&self) -> (r: &Vec<(String, String)>)
        ensures
            pair_views(r@) == self.pair_views(),
            forall|i: int|
                0 <= i < r@.len() ==> self.view().contains_key(#[trigger] r@[i].0@)
                    && self.view()[r@[i].0@] == r@[i].1@,
            forall|k: Seq<char>|
                self.view().contains_key(k) ==> exists|i: int|
                    0 <= i < r@.len() && #[trigger] r@[i].0@ == k,
    {
        proof {
            use_type_invariant(self);
            assert forall|i: int| 0 <= i < self.entries@.len() implies self.view().contains_key(
                #[trigger] self.entries@[i].0@,
            ) && self.view()[self.entries@[i].0@] == self.entries@[i].1@ by {
                let k = self.entries@[i].0@;
                assert(self.key_at(k, i));
                let w = choose|j: int| self.key_at(k, j);
                assert(w == i);
            }
            assert forall|k: Seq<char>| self.view().contains_key(k) implies exists|i: int|
                0 <= i < self.entries@.len() && #[trigger] self.entries@[i].0@ == k by {
                let w = choose|j: int| self.key_at(k, j);
                assert(self.entries@[w].0@ == k);
            }
        }
        &self.entries
    }
}

impl Bindings {
    /// A copy with the same bindings.
    pub fn duplicate(&self) -> (r: Bindings)
        ensures
            r.view() == self.view(),
            r.pair_views() == self.pair_views(),
    {
        proof {
            use_type_invariant(self);
        }
        let entries = self.copied();
        let r = Bindings { entries };
        proof {
            assert forall|k: Seq<char>, i: int| r.key_at(k, i) == self.key_at(k, i) by {}
            assert(r.view() =~= self.view());
            assert(r.pair_views() =~= self.pair_views());
        }
        r
    }
}

impl QueryAnchor {
    /// A copy with the same name and bindings.
    pub fn duplicate(&self) -> (r: QueryAnchor)
        ensures
            r.name@ == self.name@,
            r.bindings.view() == self.bindings.view(),
            r.bindings.pair_views() == self.bindings.pair_views(),
    {
        QueryAnchor { name: self.name.clone(), bindings: self.bindings.duplicate() }
    }
}

impl Clone for Bindings {
    fn clone(&self) -> Self {
        proof {
            use_type_invariant(self);
        }
        let entries = self.copied();
        Bindings { entries }
    }
}

/// The views of pairs of strings.
pub open spec fn pair_views(v: Seq<(String, String)>) -> Seq<(Seq<char>, Seq<char>)> {
    v.map_values(|p: (String, String)| (p.0@, p.1@))
}

/// A named structural query and the values bound into its template.
#[derive(Clone, Debug, PartialEq, Eq)]
pub struct QueryAnchor {
    pub name: String,
    pub bindings: Bindings,
}

/// A query anchor that does not follow the grammar.
#[derive(Clone, Debug)]
pub struct ParseQueryAnchorError {
    /// the text that was parsed
    pub source: String,
    /// where parsing stopped
    pub remainder: String,
}

/// One of the marks that a value may hold as they are.
pub open spec fn is_mark(c: char) -> bool {
    c == '@' || c == '!' || c == '"' || c == '\'' || c == '$' || c == '%' || c == '^' || c
        == '*' || c == '_' || c == '-' || c == '+' || c == '(' || c == ')' || c == '<' || c
        == '>' || c == '[' || c == ']' || c == '{' || c == '}' || c == '/' || c == '|' || c
        == ';'
}

/// A character that a value may hold as it is.
pub open spec fn is_plain(c: char) -> bool {
    is_alnum(c) || c == ' ' || c == '\t' || is_mark(c)
}

/// A character that a value holds only after a backslash.
pub open spec fn is_escapable(c: char) -> bool {
    c == '\\' || c == '=' || c == '&' || c == '?' || c == '#' || c == ':'
}

/// Length of the piece of a value at `i`: one for a plain character, two for
/// an escape, zero where no piece starts.
pub open spec fn unit_len(s: Seq<char>, i: int) -> int {
    if 0 <= i < s.len() && is_plain(s[i]) {
        1
    } else if 0 <= i && i + 1 < s.len() && s[i] == '\\' && is_escapable(s[i + 1]) {
        2
    } else {
        0
    }
}

/// End of the value that starts at `i`.
pub open spec fn value_end(s: Seq<char>, i: int) -> int
    decreases s.len() - i,
{
    if unit_len(s, i) > 0 {
        value_end(s, i + unit_len(s, i))
    } else {
        i
    }
}

/// The text of the value that starts at `i`, with its escapes resolved.
pub open spec fn value_text(s: Seq<char>, i: int) -> Seq<char>
    decreases s.len() - i,
{
    if unit_len(s, i) > 0 {
        seq![s[i + unit_len(s, i) - 1]] + value_text(s, i + unit_len(s, i))
    } else {
        Seq::empty()
    }
}

/// Whether a binding `key=value` starts at `i`.
pub open spec fn binding_at(s: Seq<char>, i: int) -> bool {
    let k = alnum_end(s, i);
    &&& 0 <= i < k < s.len()
    &&& s[k] == '='
    &&& value_end(s, k + 1) > k + 1
}

/// Where the binding at `i` ends, with the `&` that follows it, if any.
pub open spec fn binding_next(s: Seq<char>, i: int) -> int {
    let e = value_end(s, alnum_end(s, i) + 1);
    if e < s.len() && s[e] == '&' {
        e + 1
    } else {
        e
    }
}

/// The bindings that follow one another from `i`, in order.
pub open spec fn bindings_from(s: Seq<char>, i: int) -> Seq<(Seq<char>, Seq<char>)>
    decreases s.len() - i,
{
    if binding_at(s, i) && i < binding_next(s, i) <= s.len() {
        let k = alnum_end(s, i);
        seq![(s.subrange(i, k), value_text(s, k + 1))] + bindings_from(s, binding_next(s, i))
    } else {
        Seq::empty()
    }
}

/// Where the bindings that follow one another from `i` end.
pub open spec fn bindings_end(s: Seq<char>, i: int) -> int
    decreases s.len() - i,
{
    if binding_at(s, i) && i < binding_next(s, i) <= s.len() {
        bindings_end(s, binding_next(s, i))
    } else {
        i
    }
}

/// `m` with the bindings `ps` added in order: a later binding of a name wins.
pub open spec fn pairs_map_from(
    m: Map<Seq<char>, Seq<char>>,
    ps: Seq<(Seq<char>, Seq<char>)>,
) -> Map<Seq<char>, Seq<char>>
    decreases ps.len(),
{
    if ps.len() == 0 {
        m
    } else {
        pairs_map_from(m, ps.drop_last()).insert(ps.last().0, ps.last().1)
    }
}

/// A list of bindings as a map: a later binding of a name wins.
pub open spec fn pairs_map(ps: Seq<(Seq<char>, Seq<char>)>) -> Map<Seq<char>, Seq<char>> {
    pairs_map_from(Map::empty(), ps)
}

/// Where a query anchor's name ends: at its first `?`, or at its end.
pub open spec fn query_name_end(s: Seq<char>) -> int {
    find_char(s, '?', 0)
}

/// Where parsing a query anchor stops; the whole text where it parses.
pub open spec fn query_stop(s: Seq<char>) -> int {
    let e = query_name_end(s);
    if e >= s.len() {
        s.len() as int
    } else {
        bindings_end(s, e + 1)
    }
}

/// Whether `s` is a query anchor.
pub open spec fn query_parses(s: Seq<char>) -> bool {
    query_stop(s) == s.len()
}

/// The name of the query anchor `s`.
pub open spec fn query_name(s: Seq<char>) -> Seq<char> {
    s.take(query_name_end(s))
}

/// The bindings of the query anchor `s`.
pub open spec fn query_bindings(s: Seq<char>) -> Map<Seq<char>, Seq<char>> {
    let e = query_name_end(s);
    if e >= s.len() {
        Map::empty()
    } else {
        pairs_map(bindings_from(s, e + 1))
    }
}

fn plain(c: char) -> (r: bool)
    ensures
        r == is_plain(c),
{
    ('a' <= c && c <= 'z') || ('A' <= c && c <= 'Z') || ('0' <= c && c <= '9') || c == ' '
        || c == '\t' || c == '@' || c == '!' || c == '"' || c == '\'' || c == '$' || c == '%'
        || c == '^' || c == '*' || c == '_' || c == '-' || c == '+' || c == '(' || c == ')' || c
        == '<' || c == '>' || c == '[' || c == ']' || c == '{' || c == '}' || c == '/' || c
        == '|' || c == ';'
}

fn escapable(c: char) -> (r: bool)
    ensures
        r == is_escapable(c),
{
    c == '\\' || c == '=' || c == '&' || c == '?' || c == '#' || c == ':'
}

fn unit_at(s: &[char], i: usize) -> (r: usize)
    ensures
        r == unit_len(s@, i as int),
        r <= 2,
        r > 0 ==> i + r <= s@.len(),
{
    if i < s.len() && plain(s[i]) {
        1
    } else if i < s.len() && s.len() - i > 1 && s[i] == '\\' && escapable(s[i + 1]) {
        2
    } else {
        0
    }
}

/// Scans the value at `i`: its end and its text.
fn scan_value(s: &[char], i: usize) -> (r: (usize, String))
    requires
        i <= s@.len(),
    ensures
        r.0 == value_end(s@, i as int),
        r.1@ == value_text(s@, i as int),
        i <= r.0 <= s@.len(),
{
    let n = s.len();
    let mut text = String::new();
    let mut j = i;
    loop
        invariant
            n == s@.len(),
            i <= j <= s@.len(),
            value_end(s@, i as int) == value_end(s@, j as int),
            value_text(s@, i as int) == text@ + value_text(s@, j as int),
        decreases s@.len() - j,
    {
        let u = unit_at(s, j);
        if u == 0 {
            assert(value_text(s@, j as int) == Seq::<char>::empty());
            assert(text@ + Seq::<char>::empty() =~= text@);
            return (j, text);
        }
        let ghost tail = value_text(s@, j + u);
        let pos = j + u;
        text.push(s[pos - 1]);
        assert(value_text(s@, j as int) == seq![s@[j + u - 1]] + tail);
        j = j + u;
        assert(value_text(s@, i as int) =~= text@ + value_text(s@, j as int));
    }
}

/// Parses the bindings that follow one another from `i` into `out`.
fn scan_bindings(s: &[char], i: usize, start_map: Bindings) -> (r: (usize, Bindings))
    requires
        i <= s@.len(),
    ensures
        r.0 == bindings_end(s@, i as int),
        r.1.view() == pairs_map_from(start_map.view(), bindings_from(s@, i as int)),
{
    let mut out = start_map;
    let ghost start = out.view();
    let ghost done: Seq<(Seq<char>, Seq<char>)> = Seq::empty();
    let mut j = i;
    loop
        invariant
            i <= j <= s@.len(),
            bindings_end(s@, i as int) == bindings_end(s@, j as int),
            bindings_from(s@, i as int) == done + bindings_from(s@, j as int),
            out.view() == pairs_map_from(start, done),
            start == start_map.view(),
        decreases s@.len() - j,
    {
        let k = alnum_end_from(s, j);
        proof {
            crate::scan::lemma_alnum_end_bounds(s@, j as int);
        }
        if k == j || k >= s.len() || s[k] != '=' {
            assert(bindings_from(s@, j as int) == Seq::<(Seq<char>, Seq<char>)>::empty());
            assert(done + Seq::<(Seq<char>, Seq<char>)>::empty() =~= done);
            assert(bindings_from(s@, i as int) == done);
            return (j, out);
        }
        let (e, value) = scan_value(s, k + 1);
        if e == k + 1 {
            assert(!binding_at(s@, j as int));
            assert(done + Seq::<(Seq<char>, Seq<char>)>::empty() =~= done);
            assert(bindings_from(s@, i as int) == done);
            return (j, out);
        }
        let next = if e < s.len() && s[e] == '&' {
            e + 1
        } else {
            e
        };
        assert(binding_at(s@, j as int) && binding_next(s@, j as int) == next);
        let key = string_of(s, j, k);
        let ghost pair = (key@, value@);
        proof {
            lemma_pairs_map_push(start, done, pair);
        }
        out.insert(key, value);
        proof {
            assert(bindings_from(s@, j as int) == seq![pair] + bindings_from(s@, next as int));
            assert(done + bindings_from(s@, j as int) =~= done.push(pair) + bindings_from(
                s@,
                next as int,
            ));
            done = done.push(pair);
        }
        j = next;
    }
}

proof fn lemma_pairs_map_push(
    m: Map<Seq<char>, Seq<char>>,
    ps: Seq<(Seq<char>, Seq<char>)>,
    p: (Seq<char>, Seq<char>),
)
    ensures
        pairs_map_from(m, ps.push(p)) == pairs_map_from(m, ps).insert(p.0, p.1),
{
    assert(ps.push(p).drop_last() =~= ps);
}

impl QueryAnchor {
    /// Parses `name` or `name?key=value&key=value...`. A value holds ASCII
    /// letters and digits, spaces, tabs, the marks of `is_mark` and the
    /// escapes `\\ \= \& \? \# \:`; an unescaped `&` ends it. Fails unless
    /// the whole text is read.
    pub fn parse(input: &str) -> (r: Result<QueryAnchor, ParseQueryAnchorError>)
        ensures
            r is Ok <==> query_parses(input@),
            r matches Ok(q) ==> q.name@ == query_name(input@) && q.bindings.view()
                == query_bindings(input@),
            r matches Err(e) ==> e.source@ == input@ && e.remainder@ == input@.skip(
                query_stop(input@),
            ),
    {
        let s = chars_of(input);
        match parse_query(s.as_slice()) {
            Ok(q) => Ok(q),
            Err(stop) => Err(
                ParseQueryAnchorError {
                    source: string_of(s.as_slice(), 0, s.len()),
                    remainder: string_of(s.as_slice(), stop, s.len()),
                },
            ),
        }
    }
}

/// Parses the query anchor `s`; on failure, where parsing stopped.
pub fn parse_query(s: &[char]) -> (r: Result<QueryAnchor, usize>)
    ensures
        r is Ok <==> query_parses(s@),
        r matches Ok(q) ==> q.name@ == query_name(s@) && q.bindings.view() == query_bindings(s@),
        r matches Err(stop) ==> stop == query_stop(s@) && stop <= s@.len(),
{
    let e = find_char_from(s, '?', 0);
    proof {
        crate::scan::lemma_find_char_bounds(s@, '?', 0);
    }
    let name = string_of(s, 0, e);
    assert(name@ =~= query_name(s@));
    let bindings = Bindings::new();
    if e == s.len() {
        return Ok(QueryAnchor { name, bindings });
    }
    let (stop, bindings) = scan_bindings(s, e + 1, bindings);
    proof {
        lemma_bindings_end_bound(s@, e + 1);
    }
    if stop == s.len() {
        Ok(QueryAnchor { name, bindings })
    } else {
        Err(stop)
    }
}

proof fn lemma_value_end_bound(s: Seq<char>, i: int)
    requires
        0 <= i <= s.len(),
    ensures
        i <= value_end(s, i) <= s.len(),
    decreases s.len() - i,
{
    if unit_len(s, i) > 0 {
        lemma_value_end_bound(s, i + unit_len(s, i));
    }
}

proof fn lemma_bindings_end_bound(s: Seq<char>, i: int)
    requires
        0 <= i <= s.len(),
    ensures
        i <= bindings_end(s, i) <= s.len(),
    decreases s.len() - i,
{
    if binding_at(s, i) && i < binding_next(s, i) <= s.len() {
        let k = alnum_end(s, i);
        lemma_value_end_bound(s, k + 1);
        lemma_bindings_end_bound(s, binding_next(s, i));
    }
}

} // verus!
