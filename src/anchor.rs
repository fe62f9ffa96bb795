//! Anchors: what a directive asks for, a path, a strategy that selects lines
//! of that file, and a decoration applied to them.
use vstd::prelude::*;

use crate::query_anchor::{
    parse_query, query_bindings, query_name, query_parses, query_stop, QueryAnchor,
};
use crate::scan::{
    alnum, alnum_end, alnum_end_from, digits_end, digits_end_from, find_char, find_char_from,
    is_alnum, is_digit, is_space, space, lemma_alnum_end_bounds, lemma_digits_end_bounds, lemma_find_char_bounds,
    lemma_spaces_end_bounds, spaces_end, spaces_end_from,
};
use crate::text::{chars_of, string_of};

verus! {

/// The name of a region of a source file, opened by a line holding
/// `ANCHOR: <name>` and closed by one holding `ANCHOR_END: <name>`.
#[derive(Debug, Clone, PartialEq, Eq)]
pub struct NamedAnchor(pub String);

/// A post-processing step applied to the selected text.
#[derive(Debug, Clone, PartialEq, Eq)]
pub enum Decoration {
    /// the text as it is
    Plain,
    /// the text without the indentation that all its lines share
    LeftShift,
    /// the text rendered through the registered template of this name
    Template(String),
}

/// Which lines of a file are selected; line numbers count from one.
#[derive(Debug, Clone, PartialEq, Eq)]
pub enum Strategy {
    /// the lines between the markers of a named region
    Named(NamedAnchor),
    /// the whole file
    Full,
    /// the lines from `start` to `end`, both included
    Between { start: usize, end: usize },
    /// this line and all that follow it
    HereDown(usize),
    /// from the first line down to this one
    DownTo(usize),
    /// this line alone
    ThisLine(usize),
    /// the lines of the first match of a structural query
    Query(QueryAnchor),
}

/// A path and the strategy that selects lines of it.
#[derive(Debug, Clone, PartialEq, Eq)]
pub struct Link {
    pub path: String,
    pub strategy: Strategy,
}

/// A parsed directive.
#[derive(Debug, Clone, PartialEq, Eq)]
pub struct Anchor {
    pub link: Link,
    pub decoration: Decoration,
}

/// The text selected from a file by a strategy.
#[derive(Debug, Clone, PartialEq, Eq)]
pub struct Selection {
    pub path: String,
    pub strategy: Strategy,
    pub data: String,
}

/// A directive body that does not follow the grammar.
#[derive(Debug, Clone)]
pub struct ParseError {
    /// the text that was parsed
    pub source: String,
    /// where parsing stopped
    pub remainder: String,
}

/// The mathematical value of a `Strategy`.
pub enum StrategyView {
    Named(Seq<char>),
    Full,
    Between(usize, usize),
    HereDown(usize),
    DownTo(usize),
    ThisLine(usize),
    Query(Seq<char>, Map<Seq<char>, Seq<char>>),
}

/// The mathematical value of a `Decoration`.
pub enum DecorationView {
    Plain,
    LeftShift,
    Template(Seq<char>),
}

impl View for Strategy {
    type V = StrategyView;

    open spec fn view(&self) -> StrategyView {
        match self {
            Strategy::Named(n) => StrategyView::Named(n.0@),
            Strategy::Full => StrategyView::Full,
            Strategy::Between { start, end } => StrategyView::Between(*start, *end),
            Strategy::HereDown(n) => StrategyView::HereDown(*n),
            Strategy::DownTo(n) => StrategyView::DownTo(*n),
            Strategy::ThisLine(n) => StrategyView::ThisLine(*n),
            Strategy::Query(q) => StrategyView::Query(q.name@, q.bindings.view()),
        }
    }
}

impl View for Decoration {
    type V = DecorationView;

    open spec fn view(&self) -> DecorationView {
        match self {
            Decoration::Plain => DecorationView::Plain,
            Decoration::LeftShift => DecorationView::LeftShift,
            Decoration::Template(t) => DecorationView::Template(t@),
        }
    }
}

/// `pat` occurs in `s` at `i`.
pub open spec fn occurs_at(s: Seq<char>, pat: Seq<char>, i: int) -> bool {
    0 <= i && i + pat.len() <= s.len() && s.subrange(i, i + pat.len()) == pat
}

/// The tag that opens a named region.
pub open spec fn start_tag() -> Seq<char> {
    seq!['A', 'N', 'C', 'H', 'O', 'R', ':']
}

/// The tag that closes a named region.
pub open spec fn end_tag() -> Seq<char> {
    seq!['A', 'N', 'C', 'H', 'O', 'R', '_', 'E', 'N', 'D', ':']
}

/// `tag` occurs in `line` at `i`, followed by spaces up to `j`, where
/// `name` starts.
pub open spec fn marked_at(line: Seq<char>, tag: Seq<char>, name: Seq<char>, i: int, j: int) -> bool {
    &&& occurs_at(line, tag, i)
    &&& i + tag.len() < j <= line.len()
    &&& forall|k: int| i + tag.len() <= k < j ==> is_space(line[k])
    &&& name.is_prefix_of(line.skip(j))
}

/// Whether `line` marks the region `name` with `tag`: somewhere on the line
/// `tag` is followed by one or more spaces and then by `name`.
pub open spec fn marks(line: Seq<char>, tag: Seq<char>, name: Seq<char>) -> bool {
    exists|i: int, j: int| marked_at(line, tag, name, i, j)
}

fn is_prefix(p: &[char], s: &[char], from: usize) -> (r: bool)
    requires
        from <= s@.len(),
    ensures
        r == p@.is_prefix_of(s@.skip(from as int)),
{
    let n = s.len();
    if p.len() > n - from {
        return false;
    }
    let mut k: usize = 0;
    while k < p.len()
        invariant
            0 <= k <= p@.len(),
            p@.len() <= n - from,
            n == s@.len(),
            from <= n,
            forall|j: int| 0 <= j < k ==> p@[j] == s@[from + j],
        decreases p@.len() - k,
    {
        if p[k] != s[from + k] {
            return false;
        }
        k = k + 1;
    }
    assert(p@ =~= s@.skip(from as int).take(p@.len() as int));
    true
}

fn line_marks(line: &[char], tag: &[char], name: &[char]) -> (r: bool)
    ensures
        r == marks(line@, tag@, name@),
{
    let n = line.len();
    let m = tag.len();
    if m > n {
        return false;
    }
    let mut i: usize = 0;
    while i < n && i <= n - m
        invariant
            n == line@.len(),
            m == tag@.len(),
            m <= n,
            0 <= i <= n,
            forall|a: int, b: int| 0 <= a < i ==> !marked_at(line@, tag@, name@, a, b),
        decreases n - m + 1 - i,
    {
        let here = is_prefix(tag, line, i);
        proof {
            assert(line@.skip(i as int).take(m as int) =~= line@.subrange(i as int, i + m));
            if occurs_at(line@, tag@, i as int) {
                assert(tag@.is_prefix_of(line@.skip(i as int)));
            }
        }
        if here {
            assert(occurs_at(line@, tag@, i as int));
            let mut j = i + m;
            while j < n && space(line[j])
                invariant
                    n == line@.len(),
                    m == tag@.len(),
                    i + m <= j <= n,
                    occurs_at(line@, tag@, i as int),
                    forall|k: int| i + m <= k < j ==> is_space(line@[k]),
                    forall|b: int| i + m < b <= j ==> !marked_at(line@, tag@, name@, i as int, b),
                decreases n - j,
            {
                j = j + 1;
                if is_prefix(name, line, j) {
                    assert(marked_at(line@, tag@, name@, i as int, j as int));
                    return true;
                }
            }
            assert forall|b: int| !marked_at(line@, tag@, name@, i as int, b) by {
                if b > j && marked_at(line@, tag@, name@, i as int, b) {
                    assert(is_space(line@[j as int]));
                }
            }
        }
        i = i + 1;
    }
    assert forall|a: int, b: int| !marked_at(line@, tag@, name@, a, b) by {
        if a >= i && marked_at(line@, tag@, name@, a, b) {
            assert(a + m < b <= n);
        }
    }
    false
}

impl NamedAnchor {
    pub fn new(value: &str) -> (r: Self)
        ensures
            r.0@ == value@,
    {
        NamedAnchor(value.to_owned())
    }

    /// Whether `line` does not open this region.
    pub fn missing_start(&self, line: &str) -> (r: bool)
        ensures
            r == !marks(line@, start_tag(), self.0@),
    {
        let l = chars_of(line);
        let tag = vec!['A', 'N', 'C', 'H', 'O', 'R', ':'];
        assert(tag@ =~= start_tag());
        self.missing_in(l.as_slice(), tag.as_slice())
    }

    /// Whether `line` does not close this region.
    pub fn missing_end(&self, line: &str) -> (r: bool)
        ensures
            r == !marks(line@, end_tag(), self.0@),
    {
        let l = chars_of(line);
        let tag = vec!['A', 'N', 'C', 'H', 'O', 'R', '_', 'E', 'N', 'D', ':'];
        assert(tag@ =~= end_tag());
        self.missing_in(l.as_slice(), tag.as_slice())
    }

    /// Whether `line` does not mark this region with `tag`.
    pub(crate) fn missing_in(&self, line: &[char], tag: &[char]) -> (r: bool)
        ensures
            r == !marks(line@, tag@, self.0@),
    {
        let name = chars_of(self.0.as_str());
        !line_marks(line, tag, name.as_slice())
    }
}

/// The number written by the digits `s[from..to]`.
pub open spec fn number(s: Seq<char>, from: int, to: int) -> nat
    decreases to - from,
{
    if to <= from {
        0
    } else {
        number(s, from, to - 1) * 10 + ((s[to - 1] as u32 - '0' as u32) as nat)
    }
}

/// Whether a number that fits in a `usize` starts at `i`.
pub open spec fn num_ok(s: Seq<char>, i: int) -> bool {
    0 <= i < digits_end(s, i) && number(s, i, digits_end(s, i)) <= usize::MAX
}

/// The number that starts at `i`.
pub open spec fn num_val(s: Seq<char>, i: int) -> usize {
    number(s, i, digits_end(s, i)) as usize
}

/// A letter, digit, `_` or `-`: what a region name is made of.
pub open spec fn is_name_char(c: char) -> bool {
    is_alnum(c) || c == '_' || c == '-'
}

/// End of the region name that starts at `i`.
pub open spec fn name_end(s: Seq<char>, i: int) -> int
    decreases s.len() - i,
{
    if 0 <= i < s.len() && is_name_char(s[i]) {
        name_end(s, i + 1)
    } else {
        i
    }
}

/// The decoration written at `p`, `(<)` or `(name)`, and where it ends; no
/// decoration where neither is written.
pub open spec fn decoration_at(s: Seq<char>, p: int) -> (DecorationView, int) {
    let a = alnum_end(s, p + 1);
    if 0 <= p && p + 2 < s.len() && s[p] == '(' && s[p + 1] == '<' && s[p + 2] == ')' {
        (DecorationView::LeftShift, p + 3)
    } else if 0 <= p < s.len() && s[p] == '(' && p + 1 < a < s.len() && s[a] == ')' {
        (DecorationView::Template(s.subrange(p + 1, a)), a + 1)
    } else {
        (DecorationView::Plain, p)
    }
}

/// The strategy written from `i` to the end of `s`: `#query`, `:n`, `::n`,
/// `:n:`, `:a:b` or `:name`, with nothing after it.
pub open spec fn strategy_at(s: Seq<char>, i: int) -> Option<StrategyView> {
    let t = s.skip(i + 1);
    if !(0 <= i < s.len()) {
        None
    } else if s[i] == '#' {
        if query_parses(t) {
            Some(StrategyView::Query(query_name(t), query_bindings(t)))
        } else {
            None
        }
    } else if s[i] != ':' {
        None
    } else if num_ok(s, i + 1) && digits_end(s, i + 1) == s.len() {
        Some(StrategyView::ThisLine(num_val(s, i + 1)))
    } else if i + 1 < s.len() && s[i + 1] == ':' && num_ok(s, i + 2) && digits_end(s, i + 2)
        == s.len() {
        Some(StrategyView::DownTo(num_val(s, i + 2)))
    } else if num_ok(s, i + 1) && digits_end(s, i + 1) + 1 == s.len() && s[s.len() - 1] == ':' {
        Some(StrategyView::HereDown(num_val(s, i + 1)))
    } else if num_ok(s, i + 1) && digits_end(s, i + 1) < s.len() && s[digits_end(s, i + 1)]
        == ':' && num_ok(s, digits_end(s, i + 1) + 1) && digits_end(s, digits_end(s, i + 1) + 1)
        == s.len() {
        let a = num_val(s, i + 1);
        let b = num_val(s, digits_end(s, i + 1) + 1);
        Some(
            if a <= b {
                StrategyView::Between(a, b)
            } else {
                StrategyView::Between(b, a)
            },
        )
    } else if name_end(s, i + 1) > i + 1 && name_end(s, i + 1) == s.len() {
        Some(StrategyView::Named(s.subrange(i + 1, s.len() as int)))
    } else {
        None
    }
}

/// First index at or after `i` that holds `:` or `#`, or `s.len()`.
pub open spec fn marker_at(s: Seq<char>, i: int) -> int
    decreases s.len() - i,
{
    if i < 0 || i >= s.len() {
        s.len() as int
    } else if s[i] == ':' || s[i] == '#' {
        i
    } else {
        marker_at(s, i + 1)
    }
}

/// A directive body: spaces, an optional decoration, spaces, a path, and a
/// strategy. The path runs up to the first `:` or `#` where one follows it;
/// else it runs up to the first space, and only spaces may follow (the
/// whole file is selected). `None` where the body does not follow this.
pub open spec fn directive(s: Seq<char>) -> Option<(DecorationView, Seq<char>, StrategyView)> {
    let lead = spaces_end(s, 0);
    let d = decoration_at(s, lead);
    let path_start = spaces_end(s, d.1);
    let e1 = marker_at(s, path_start);
    let e2 = find_char(s, ' ', path_start);
    if path_start < e1 < s.len() {
        match strategy_at(s, e1) {
            Some(st) => Some((d.0, s.subrange(path_start, e1), st)),
            None => None,
        }
    } else if path_start < e2 && spaces_end(s, e2) == s.len() {
        Some((d.0, s.subrange(path_start, e2), StrategyView::Full))
    } else {
        None
    }
}

/// Where parsing the strategy at `i` stops: after the longest part of it
/// that follows the grammar.
pub open spec fn strategy_stop(s: Seq<char>, i: int) -> int {
    if !(0 <= i < s.len()) {
        i
    } else if s[i] == '#' {
        i + 1 + query_stop(s.skip(i + 1))
    } else if s[i] != ':' {
        i
    } else if num_ok(s, i + 1) {
        let d = digits_end(s, i + 1);
        if d < s.len() && s[d] == ':' {
            if num_ok(s, d + 1) {
                digits_end(s, d + 1)
            } else {
                d + 1
            }
        } else {
            d
        }
    } else if i + 1 < s.len() && s[i + 1] == ':' && num_ok(s, i + 2) {
        digits_end(s, i + 2)
    } else {
        name_end(s, i + 1)
    }
}

/// Where parsing the directive body `s` stops (see `directive`).
pub open spec fn directive_stop(s: Seq<char>) -> int {
    let lead = spaces_end(s, 0);
    let path_start = spaces_end(s, decoration_at(s, lead).1);
    let e1 = marker_at(s, path_start);
    let e2 = find_char(s, ' ', path_start);
    if path_start < e1 < s.len() {
        strategy_stop(s, e1)
    } else if path_start < e2 {
        spaces_end(s, e2)
    } else {
        path_start
    }
}

fn stop_of(s: &[char]) -> (r: usize)
    ensures
        r == directive_stop(s@),
        r <= s@.len(),
{
    let n = s.len();
    let lead = spaces_end_from(s, 0);
    proof {
        lemma_spaces_end_bounds(s@, 0);
    }
    let (_, deco_end) = decoration_from(s, lead);
    let path_start = spaces_end_from(s, deco_end);
    proof {
        lemma_spaces_end_bounds(s@, deco_end as int);
    }
    let e1 = marker_from(s, path_start);
    if path_start < e1 && e1 < n {
        let i = e1;
        if s[i] == '#' {
            let (_, t) = s.split_at(i + 1);
            assert(t@ =~= s@.skip(i + 1));
            return match parse_query(t) {
                Ok(_) => n,
                Err(stop) => i + 1 + stop,
            };
        }
        if s[i] != ':' {
            return i;
        }
        if let Some((_, d)) = number_from(s, i + 1) {
            if d < n && s[d] == ':' {
                if let Some((_, e)) = number_from(s, d + 1) {
                    return e;
                }
                return d + 1;
            }
            return d;
        }
        if n - i > 1 && s[i + 1] == ':' {
            if let Some((_, d)) = number_from(s, i + 2) {
                return d;
            }
        }
        return name_end_from(s, i + 1);
    }
    let e2 = find_char_from(s, ' ', path_start);
    proof {
        lemma_find_char_bounds(s@, ' ', path_start as int);
    }
    if path_start < e2 {
        proof {
            lemma_spaces_end_bounds(s@, e2 as int);
        }
        return spaces_end_from(s, e2);
    }
    path_start
}

proof fn lemma_number_grows(s: Seq<char>, from: int, k: int, to: int)
    requires
        from <= k <= to,
        forall|j: int| from <= j < to ==> is_digit(s[j]),
    ensures
        number(s, from, k) <= number(s, from, to),
    decreases to - k,
{
    if k < to {
        lemma_number_grows(s, from, k, to - 1);
    }
}

fn number_from(s: &[char], i: usize) -> (r: Option<(usize, usize)>)
    requires
        i <= s@.len(),
    ensures
        match r {
            Some((n, d)) => num_ok(s@, i as int) && n == num_val(s@, i as int) && d
                == digits_end(s@, i as int),
            None => !num_ok(s@, i as int),
        },
        r matches Some((n, d)) ==> i < d <= s@.len(),
{
    let d = digits_end_from(s, i);
    proof {
        lemma_digits_end_bounds(s@, i as int);
    }
    if d == i {
        return None;
    }
    let mut acc: usize = 0;
    let mut k = i;
    while k < d
        invariant
            i <= k <= d <= s@.len(),
            d == digits_end(s@, i as int),
            forall|j: int| i <= j < d ==> is_digit(s@[j]),
            acc == number(s@, i as int, k as int),
        decreases d - k,
    {
        let dv = (s[k] as u32 - '0' as u32) as usize;
        assert(dv <= 9);
        if acc > (usize::MAX - dv) / 10 {
            proof {
                assert(acc * 10 + dv > usize::MAX) by (nonlinear_arith)
                    requires
                        acc > (usize::MAX - dv) / 10,
                        dv <= 9,
                ;
                assert(number(s@, i as int, k + 1) == acc * 10 + dv);
                lemma_number_grows(s@, i as int, k + 1, d as int);
            }
            return None;
        }
        assert(acc * 10 + dv <= usize::MAX) by (nonlinear_arith)
            requires
                acc <= (usize::MAX - dv) / 10,
                dv <= 9,
        ;
        acc = acc * 10 + dv;
        k = k + 1;
    }
    Some((acc, d))
}

fn name_end_from(s: &[char], i: usize) -> (r: usize)
    requires
        i <= s@.len(),
    ensures
        r == name_end(s@, i as int),
        i <= r <= s@.len(),
{
    let mut j = i;
    while j < s.len() && (alnum(s[j]) || s[j] == '_' || s[j] == '-')
        invariant
            i <= j <= s@.len(),
            name_end(s@, i as int) == name_end(s@, j as int),
        decreases s@.len() - j,
    {
        j = j + 1;
    }
    j
}

fn marker_from(s: &[char], i: usize) -> (r: usize)
    requires
        i <= s@.len(),
    ensures
        r == marker_at(s@, i as int),
        i <= r <= s@.len(),
{
    let mut j = i;
    while j < s.len() && s[j] != ':' && s[j] != '#'
        invariant
            i <= j <= s@.len(),
            marker_at(s@, i as int) == marker_at(s@, j as int),
        decreases s@.len() - j,
    {
        j = j + 1;
    }
    j
}

fn decoration_from(s: &[char], p: usize) -> (r: (Decoration, usize))
    requires
        p <= s@.len(),
    ensures
        (r.0@, r.1 as int) == decoration_at(s@, p as int),
        r.1 <= s@.len(),
{
    let n = s.len();
    if n - p > 2 && s[p] == '(' && s[p + 1] == '<' && s[p + 2] == ')' {
        return (Decoration::LeftShift, p + 3);
    }
    if p < n && s[p] == '(' {
        let a = alnum_end_from(s, p + 1);
        proof {
            lemma_alnum_end_bounds(s@, p + 1);
        }
        if a > p + 1 && a < n && s[a] == ')' {
            let name = string_of(s, p + 1, a);
            return (Decoration::Template(name), a + 1);
        }
    }
    (Decoration::Plain, p)
}

fn strategy_from(s: &[char], i: usize) -> (r: Option<Strategy>)
    requires
        i <= s@.len(),
    ensures
        match r {
            Some(st) => strategy_at(s@, i as int) == Some(st@),
            None => strategy_at(s@, i as int) is None,
        },
{
    let n = s.len();
    if i >= n {
        return None;
    }
    if s[i] == '#' {
        let (_, t) = s.split_at(i + 1);
        assert(t@ =~= s@.skip(i + 1));
        return match parse_query(t) {
            Ok(q) => Some(Strategy::Query(q)),
            Err(_) => None,
        };
    }
    if s[i] != ':' {
        return None;
    }
    let first = number_from(s, i + 1);
    if let Some((a, d)) = first {
        if d == n {
            return Some(Strategy::ThisLine(a));
        }
    }
    if n - i > 1 && s[i + 1] == ':' {
        if let Some((a, d)) = number_from(s, i + 2) {
            if d == n {
                return Some(Strategy::DownTo(a));
            }
        }
    }
    if let Some((a, d)) = first {
        if d + 1 == n && s[n - 1] == ':' {
            return Some(Strategy::HereDown(a));
        }
        if d < n && s[d] == ':' {
            if let Some((b, e)) = number_from(s, d + 1) {
                if e == n {
                    if a <= b {
                        return Some(Strategy::Between { start: a, end: b });
                    } else {
                        return Some(Strategy::Between { start: b, end: a });
                    }
                }
            }
        }
    }
    let e = name_end_from(s, i + 1);
    if e > i + 1 && e == n {
        return Some(Strategy::Named(NamedAnchor(string_of(s, i + 1, n))));
    }
    None
}

/// Parses the directive `s` (see `directive`).
pub fn parse_directive(s: &[char]) -> (r: Option<Anchor>)
    ensures
        match r {
            Some(a) => directive(s@) == Some((a.decoration@, a.link.path@, a.link.strategy@)),
            None => directive(s@) is None,
        },
{
    let n = s.len();
    let lead = spaces_end_from(s, 0);
    proof {
        lemma_spaces_end_bounds(s@, 0);
    }
    let (decoration, deco_end) = decoration_from(s, lead);
    let path_start = spaces_end_from(s, deco_end);
    proof {
        lemma_spaces_end_bounds(s@, deco_end as int);
    }
    let e1 = marker_from(s, path_start);
    if path_start < e1 && e1 < n {
        return match strategy_from(s, e1) {
            Some(strategy) => {
                let path = string_of(s, path_start, e1);
                Some(Anchor { link: Link { path, strategy }, decoration })
            },
            None => None,
        };
    }
    let e2 = find_char_from(s, ' ', path_start);
    proof {
        lemma_find_char_bounds(s@, ' ', path_start as int);
    }
    if path_start < e2 && spaces_end_from(s, e2) == n {
        let path = string_of(s, path_start, e2);
        return Some(Anchor { link: Link { path, strategy: Strategy::Full }, decoration });
    }
    None
}

impl Anchor {
    /// Parses a directive body (see `directive`).
    pub fn parse(source: &str) -> (r: Result<Anchor, ParseError>)
        ensures
            r is Ok <==> directive(source@) is Some,
            r matches Ok(a) ==> directive(source@) == Some(
                (a.decoration@, a.link.path@, a.link.strategy@),
            ),
            r matches Err(e) ==> e.source@ == source@ && e.remainder@ == source@.skip(
                directive_stop(source@),
            ),
    {
        let s = chars_of(source);
        match parse_directive(s.as_slice()) {
            Some(a) => Ok(a),
            None => Err(
                ParseError {
                    source: string_of(s.as_slice(), 0, s.len()),
                    remainder: string_of(s.as_slice(), stop_of(s.as_slice()), s.len()),
                },
            ),
        }
    }
}

impl Strategy {
    /// A copy of this strategy.
    pub fn duplicate(&self) -> (r: Strategy)
        ensures
            r@ == self@,
            self matches Strategy::Query(q) ==> (r matches Strategy::Query(q2)
                && q2.bindings.pair_views() == q.bindings.pair_views()),
    {
        match self {
            Strategy::Named(n) => Strategy::Named(NamedAnchor(n.0.clone())),
            Strategy::Full => Strategy::Full,
            Strategy::Between { start, end } => Strategy::Between { start: *start, end: *end },
            Strategy::HereDown(n) => Strategy::HereDown(*n),
            Strategy::DownTo(n) => Strategy::DownTo(*n),
            Strategy::ThisLine(n) => Strategy::ThisLine(*n),
            Strategy::Query(q) => Strategy::Query(q.duplicate()),
        }
    }
}

impl Decoration {
    /// A copy of this decoration.
    pub fn duplicate(&self) -> (r: Decoration)
        ensures
            r@ == self@,
    {
        match self {
            Decoration::Plain => Decoration::Plain,
            Decoration::LeftShift => Decoration::LeftShift,
            Decoration::Template(t) => Decoration::Template(t.clone()),
        }
    }
}

/// However its two numbers are ordered, a directive `path:a:b` is parsed
/// into the span from the smaller number to the larger.
pub proof fn law_between_is_ordered(s: Seq<char>)
    requires
        directive(s) matches Some((_, _, StrategyView::Between(_, _))),
    ensures
        ({
            let path_start = spaces_end(s, decoration_at(s, spaces_end(s, 0)).1);
            let e1 = marker_at(s, path_start);
            let a = num_val(s, e1 + 1);
            let b = num_val(s, digits_end(s, e1 + 1) + 1);
            directive(s) matches Some((_, _, StrategyView::Between(x, y))) && x <= y && x == (
            if a <= b {
                a
            } else {
                b
            }) && y == (if a <= b {
                b
            } else {
                a
            })
        }),
{
}

proof fn lemma_digits_run(s: Seq<char>, i: int, k: int)
    requires
        0 <= i <= k <= s.len(),
        forall|j: int| i <= j < k ==> is_digit(s[j]),
        k == s.len() || !is_digit(s[k]),
    ensures
        digits_end(s, i) == k,
    decreases k - i,
{
    if i < k {
        lemma_digits_run(s, i + 1, k);
    }
}

proof fn lemma_marker_run(s: Seq<char>, i: int, k: int)
    requires
        0 <= i <= k < s.len(),
        forall|j: int| i <= j < k ==> s[j] != ':' && s[j] != '#',
        s[k] == ':',
    ensures
        marker_at(s, i) == k,
    decreases k - i,
{
    if i < k {
        lemma_marker_run(s, i + 1, k);
    }
}

proof fn lemma_number_shift(s: Seq<char>, t: Seq<char>, off: int, to: int)
    requires
        0 <= to <= t.len(),
        0 <= off,
        off + to <= s.len(),
        forall|j: int| 0 <= j < to ==> s[off + j] == t[j],
    ensures
        number(s, off, off + to) == number(t, 0, to),
    decreases to,
{
    if to > 0 {
        lemma_number_shift(s, t, off, to - 1);
        assert(s[off + to - 1] == t[to - 1]);
    }
}

/// A directive `p:a:b`, where the path `p` holds no space, `:` or `#` and
/// does not start with `(`, and `a`, `b` are numbers that fit in a
/// `usize`, is parsed into the span from the smaller number to the larger,
/// whichever of the two is written first.
pub proof fn law_between_written_either_way(p: Seq<char>, da: Seq<char>, db: Seq<char>)
    requires
        p.len() > 0,
        p[0] != '(',
        forall|j: int| 0 <= j < p.len() ==> !is_space(#[trigger] p[j]) && p[j] != ':' && p[j] != '#',
        da.len() > 0,
        db.len() > 0,
        forall|j: int| 0 <= j < da.len() ==> is_digit(#[trigger] da[j]),
        forall|j: int| 0 <= j < db.len() ==> is_digit(#[trigger] db[j]),
        number(da, 0, da.len() as int) <= usize::MAX,
        number(db, 0, db.len() as int) <= usize::MAX,
    ensures
        ({
            let a = number(da, 0, da.len() as int) as usize;
            let b = number(db, 0, db.len() as int) as usize;
            directive(p + seq![':'] + da + seq![':'] + db) == Some(
                (
                    DecorationView::Plain,
                    p,
                    StrategyView::Between(
                        if a <= b {
                            a
                        } else {
                            b
                        },
                        if a <= b {
                            b
                        } else {
                            a
                        },
                    ),
                ),
            )
        }),
{
    let s = p + seq![':'] + da + seq![':'] + db;
    let e1 = p.len() as int;
    let d = e1 + 1 + da.len();
    let n = s.len() as int;
    assert(s[0] == p[0]);
    assert(spaces_end(s, 0) == 0);
    assert(decoration_at(s, 0) == (DecorationView::Plain, 0int));
    assert forall|j: int| 0 <= j < e1 implies s[j] != ':' && s[j] != '#' by {
        assert(s[j] == p[j]);
    }
    assert(s[e1] == ':');
    lemma_marker_run(s, 0, e1);
    assert forall|j: int| e1 + 1 <= j < d implies is_digit(s[j]) by {
        assert(s[j] == da[j - e1 - 1]);
    }
    assert(s[d] == ':');
    lemma_digits_run(s, e1 + 1, d);
    assert forall|j: int| d + 1 <= j < n implies is_digit(s[j]) by {
        assert(s[j] == db[j - d - 1]);
    }
    lemma_digits_run(s, d + 1, n);
    assert forall|j: int| 0 <= j < da.len() implies s[e1 + 1 + j] == da[j] by {}
    lemma_number_shift(s, da, e1 + 1, da.len() as int);
    assert forall|j: int| 0 <= j < db.len() implies s[d + 1 + j] == db[j] by {}
    lemma_number_shift(s, db, d + 1, db.len() as int);
    assert(is_digit(s[e1 + 1]));
    assert(s.subrange(0, e1) =~= p);
}

} // verus!
