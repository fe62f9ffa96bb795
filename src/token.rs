//! Splits document text into content and directives `{{#aa body}}`.
use vstd::prelude::*;

use crate::anchor::{Anchor, DecorationView, StrategyView};
use crate::text::{chars_of, string_of};

verus! {

/// A piece of a document, in the order of the text.
#[derive(Debug, Clone, PartialEq, Eq)]
pub enum Token {
    /// text that holds no directive
    Content(String),
    /// the body of a directive, not parsed yet
    RawAnchor(String),
    /// a parsed directive
    Anchor(Anchor),
}

/// The mathematical value of a `Token`.
pub enum TokenView {
    Content(Seq<char>),
    RawAnchor(Seq<char>),
    Anchor(DecorationView, Seq<char>, StrategyView),
}

impl View for Token {
    type V = TokenView;

    open spec fn view(&self) -> TokenView {
        match self {
            Token::Content(t) => TokenView::Content(t@),
            Token::RawAnchor(t) => TokenView::RawAnchor(t@),
            Token::Anchor(a) => TokenView::Anchor(a.decoration@, a.link.path@, a.link.strategy@),
        }
    }
}

/// The views of a sequence of tokens.
pub open spec fn token_views(ts: Seq<Token>) -> Seq<TokenView> {
    ts.map_values(|t: Token| t@)
}

/// What opens a directive: `{{#aa ` (with its space).
pub open spec fn opener() -> Seq<char> {
    seq!['{', '{', '#', 'a', 'a', ' ']
}

/// End of a directive's body that starts at `i`: the first `}` or line feed.
pub open spec fn body_end(s: Seq<char>, i: int) -> int
    decreases s.len() - i,
{
    if i < 0 || i >= s.len() {
        s.len() as int
    } else if s[i] == '}' || s[i] == '\n' {
        i
    } else {
        body_end(s, i + 1)
    }
}

/// Whether a directive starts at `i`: the opener, a body of at least one
/// character that holds neither `}` nor a line feed, and `}}`.
pub open spec fn directive_at(s: Seq<char>, i: int) -> bool {
    let b = body_end(s, i + 6);
    &&& 0 <= i
    &&& i + 6 <= s.len()
    &&& s.subrange(i, i + 6) == opener()
    &&& i + 6 < b
    &&& b + 1 < s.len()
    &&& s[b] == '}'
    &&& s[b + 1] == '}'
}

/// The first place at or after `i` where a directive starts, or `s.len()`.
pub open spec fn next_directive(s: Seq<char>, i: int) -> int
    decreases s.len() - i,
{
    if i < 0 || i >= s.len() {
        s.len() as int
    } else if directive_at(s, i) {
        i
    } else {
        next_directive(s, i + 1)
    }
}

/// The tokens of `s` from `i` on: a directive where one starts, else the
/// content up to the next place where one starts.
pub open spec fn tokens_from(s: Seq<char>, i: int) -> Seq<TokenView>
    decreases s.len() - i,
{
    if i < 0 || i >= s.len() {
        Seq::empty()
    } else if directive_at(s, i) {
        let b = body_end(s, i + 6);
        seq![TokenView::RawAnchor(s.subrange(i + 6, b))] + tokens_from(s, b + 2)
    } else {
        let j = next_directive(s, i + 1);
        if i < j <= s.len() {
            seq![TokenView::Content(s.subrange(i, j))] + tokens_from(s, j)
        } else {
            Seq::empty()
        }
    }
}

/// The tokens of a document.
pub open spec fn tokens_of(s: Seq<char>) -> Seq<TokenView> {
    tokens_from(s, 0)
}

proof fn lemma_body_end_bounds(s: Seq<char>, i: int)
    requires
        0 <= i <= s.len(),
    ensures
        i <= body_end(s, i) <= s.len(),
    decreases s.len() - i,
{
    if i < s.len() && s[i] != '}' && s[i] != '\n' {
        lemma_body_end_bounds(s, i + 1);
    }
}

proof fn lemma_next_directive_bounds(s: Seq<char>, i: int)
    requires
        0 <= i <= s.len(),
    ensures
        i <= next_directive(s, i) <= s.len(),
    decreases s.len() - i,
{
    if i < s.len() && !directive_at(s, i) {
        lemma_next_directive_bounds(s, i + 1);
    }
}

fn body_end_from(s: &[char], i: usize) -> (r: usize)
    requires
        i <= s@.len(),
    ensures
        r == body_end(s@, i as int),
        i <= r <= s@.len(),
{
    let mut j = i;
    while j < s.len() && s[j] != '}' && s[j] != '\n'
        invariant
            i <= j <= s@.len(),
            body_end(s@, i as int) == body_end(s@, j as int),
        decreases s@.len() - j,
    {
        j = j + 1;
    }
    j
}

/// Where the body of the directive at `i` ends, if one starts there.
fn directive_from(s: &[char], i: usize) -> (r: Option<usize>)
    requires
        i <= s@.len(),
    ensures
        r is Some <==> directive_at(s@, i as int),
        r matches Some(b) ==> b == body_end(s@, i + 6) && i + 6 < b && b + 2 <= s@.len(),
{
    let n = s.len();
    if n - i < 6 {
        return None;
    }
    if !(s[i] == '{' && s[i + 1] == '{' && s[i + 2] == '#' && s[i + 3] == 'a' && s[i + 4] == 'a'
        && s[i + 5] == ' ') {
        proof {
            if s@.subrange(i as int, i + 6) == opener() {
                assert(s@.subrange(i as int, i + 6)[0] == '{');
                assert(s@.subrange(i as int, i + 6)[1] == '{');
                assert(s@.subrange(i as int, i + 6)[2] == '#');
                assert(s@.subrange(i as int, i + 6)[3] == 'a');
                assert(s@.subrange(i as int, i + 6)[4] == 'a');
                assert(s@.subrange(i as int, i + 6)[5] == ' ');
            }
        }
        return None;
    }
    assert(s@.subrange(i as int, i + 6) =~= opener());
    let b = body_end_from(s, i + 6);
    if b > i + 6 && n - b > 1 && s[b] == '}' && s[b + 1] == '}' {
        Some(b)
    } else {
        None
    }
}

impl Token {
    /// Splits `source` into its tokens (see `tokens_of`): every text has
    /// them, and only content and raw directives appear.
    pub fn parse_tokens(source: &str) -> (r: Vec<Token>)
        ensures
            token_views(r@) == tokens_of(source@),
    {
        let s = chars_of(source);
        let n = s.len();
        let mut out: Vec<Token> = Vec::new();
        let mut i: usize = 0;
        while i < n
            invariant
                n == s@.len(),
                s@ == source@,
                0 <= i <= n,
                tokens_of(s@) == token_views(out@) + tokens_from(s@, i as int),
            decreases n - i,
        {
            let ghost before = out@;
            match directive_from(s.as_slice(), i) {
                Some(b) => {
                    out.push(Token::RawAnchor(string_of(s.as_slice(), i + 6, b)));
                    assert(token_views(out@) =~= token_views(before).push(
                        TokenView::RawAnchor(s@.subrange(i + 6, b as int)),
                    ));
                    assert(token_views(out@) + tokens_from(s@, b + 2) =~= token_views(before)
                        + tokens_from(s@, i as int));
                    i = b + 2;
                },
                None => {
                    let mut j = i + 1;
                    proof {
                        lemma_next_directive_bounds(s@, j as int);
                    }
                    while j < n && directive_from(s.as_slice(), j).is_none()
                        invariant
                            n == s@.len(),
                            i < j <= n,
                            next_directive(s@, i + 1) == next_directive(s@, j as int),
                        decreases n - j,
                    {
                        j = j + 1;
                    }
                    out.push(Token::Content(string_of(s.as_slice(), i, j)));
                    assert(token_views(out@) =~= token_views(before).push(
                        TokenView::Content(s@.subrange(i as int, j as int)),
                    ));
                    assert(token_views(out@) + tokens_from(s@, j as int) =~= token_views(before)
                        + tokens_from(s@, i as int));
                    i = j;
                },
            }
        }
        assert(token_views(out@) + tokens_from(s@, n as int) =~= token_views(out@));
        out
    }
}

proof fn lemma_no_directive_ahead(s: Seq<char>, i: int)
    requires
        0 <= i <= s.len(),
        forall|j: int| 0 <= j < s.len() ==> !directive_at(s, j),
    ensures
        next_directive(s, i) == s.len(),
    decreases s.len() - i,
{
    if i < s.len() {
        lemma_no_directive_ahead(s, i + 1);
    }
}

/// A text in which no directive starts is one content token: the whole
/// text.
pub proof fn law_plain_text_is_one_token(s: Seq<char>)
    requires
        s.len() > 0,
        forall|j: int| 0 <= j < s.len() ==> !directive_at(s, j),
    ensures
        tokens_of(s) == seq![TokenView::Content(s)],
{
    lemma_no_directive_ahead(s, 1);
    assert(s.subrange(0, s.len() as int) =~= s);
    assert(tokens_from(s, s.len() as int) == Seq::<TokenView>::empty());
    assert(seq![TokenView::Content(s)] + Seq::<TokenView>::empty() =~= seq![TokenView::Content(s)]);
}

} // verus!
