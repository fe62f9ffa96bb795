//! Documents: their text, split into tokens, with every directive parsed.
use vstd::prelude::*;

use crate::anchor::{directive, Anchor, ParseError};
use crate::query_anchor::ParseQueryAnchorError;
use crate::source::{share, SourceError};
use crate::text::{chars_of, push_chars};
use std::sync::Arc;
use crate::token::{
    body_end, directive_at, next_directive, token_views, tokens_from, tokens_of, Token, TokenView,
};

verus! {

/// Why a document could not be read.
#[derive(Debug, Clone)]
pub enum DocError {
    ParseAnchor(ParseError),
    ParseQueryAnchor(ParseQueryAnchorError),
    /// the document could not be read
    Io(SourceError),
    ListError(ListError),
}

/// Why a list of documents could not be made.
#[derive(Debug, Clone, PartialEq, Eq)]
pub enum ListError {
    /// the root is a file, not a directory
    RootIsFile(String),
    /// the root does not exist
    MissingDir(String),
}

/// A document that has been split into tokens, each directive parsed.
#[derive(Debug, Clone)]
pub struct DocFile {
    /// where the document is
    pub path: String,
    /// its text
    pub source: String,
    /// its tokens, in the order of the text
    pub ast: Vec<Token>,
}

/// Length of the directory part of a path: up to and with its last `/`.
pub open spec fn dir_len(p: Seq<char>) -> int
    decreases p.len(),
{
    if p.len() == 0 {
        0
    } else if p.last() == '/' {
        p.len() as int
    } else {
        dir_len(p.drop_last())
    }
}

/// A path that does not start at the root.
pub open spec fn is_relative(p: Seq<char>) -> bool {
    !(p.len() > 0 && p[0] == '/')
}

/// `p` as seen from the document at `doc`: a relative path is taken from
/// the document's directory.
pub open spec fn resolve(doc: Seq<char>, p: Seq<char>) -> Seq<char> {
    if is_relative(p) {
        doc.take(dir_len(doc)) + p
    } else {
        p
    }
}

/// A token of a document once its directive, if any, is parsed; `None`
/// where the directive does not parse.
pub open spec fn promoted(doc: Seq<char>, t: TokenView) -> Option<TokenView> {
    match t {
        TokenView::RawAnchor(b) => match directive(b) {
            Some((d, p, st)) => Some(TokenView::Anchor(d, resolve(doc, p), st)),
            None => None,
        },
        _ => Some(t),
    }
}

/// Whether every directive in `ts` parses.
pub open spec fn all_parse(doc: Seq<char>, ts: Seq<TokenView>) -> bool {
    forall|k: int| 0 <= k < ts.len() ==> (#[trigger] promoted(doc, ts[k])) is Some
}

proof fn lemma_dir_len(p: Seq<char>)
    ensures
        0 <= dir_len(p) <= p.len(),
    decreases p.len(),
{
    if p.len() > 0 && p.last() != '/' {
        lemma_dir_len(p.drop_last());
    }
}

fn dir_end(p: &[char]) -> (r: usize)
    ensures
        r == dir_len(p@),
{
    let mut k = p.len();
    assert(p@.take(p@.len() as int) =~= p@);
    while k > 0 && p[k - 1] != '/'
        invariant
            0 <= k <= p@.len(),
            dir_len(p@) == dir_len(p@.take(k as int)),
        decreases k,
    {
        assert(p@.take(k as int).drop_last() =~= p@.take(k - 1));
        k = k - 1;
    }
    assert(p@.take(p@.len() as int) =~= p@);
    proof {
        lemma_dir_end(p@, k as int);
    }
    k
}

proof fn lemma_dir_end(p: Seq<char>, k: int)
    requires
        0 <= k <= p.len(),
        k == 0 || p[k - 1] == '/',
    ensures
        dir_len(p.take(k)) == k,
{
    if k > 0 {
        assert(p.take(k).last() == p[k - 1]);
    }
}

fn resolve_path(doc: &[char], p: String) -> (r: String)
    ensures
        r@ == resolve(doc@, p@),
{
    let pc = chars_of(p.as_str());
    if pc.len() > 0 && pc[0] == '/' {
        return p;
    }
    let d = dir_end(doc);
    proof {
        lemma_dir_len(doc@);
    }
    let mut r = crate::text::string_of(doc, 0, d);
    push_chars(&mut r, pc.as_slice());
    assert(doc@.subrange(0, d as int) =~= doc@.take(dir_len(doc@)));
    r
}

proof fn lemma_scanned_tokens(s: Seq<char>, i: int, k: int)
    requires
        0 <= k < tokens_from(s, i).len(),
    ensures
        !(tokens_from(s, i)[k] is Anchor),
    decreases s.len() - i,
{
    if 0 <= i < s.len() {
        if directive_at(s, i) {
            if k > 0 {
                lemma_scanned_tokens(s, body_end(s, i + 6) + 2, k - 1);
            }
        } else {
            let j = next_directive(s, i + 1);
            if i < j <= s.len() && k > 0 {
                lemma_scanned_tokens(s, j, k - 1);
            }
        }
    }
}

impl DocFile {
    /// The document at `path` with text `source`: its tokens, each
    /// directive parsed and its path resolved against the document's
    /// directory. Fails where a directive does not parse.
    pub fn with_path_and_source(path: &str, source: &str) -> (r: Result<DocFile, DocError>)
        ensures
            r is Ok <==> all_parse(path@, tokens_of(source@)),
            r matches Ok(d) ==> d.path@ == path@ && d.source@ == source@ && token_views(d.ast@)
                == tokens_of(source@).map_values(
                |t: TokenView| promoted(path@, t)->0,
            ),
    {
        let tokens = Token::parse_tokens(source);
        let ghost tv = tokens_of(source@);
        let doc = chars_of(path);
        let mut ast: Vec<Token> = Vec::new();
        let mut k: usize = 0;
        while k < tokens.len()
            invariant
                0 <= k <= tokens@.len(),
                token_views(tokens@) == tv,
                tv == tokens_of(source@),
                doc@ == path@,
                all_parse(path@, tv.take(k as int)),
                token_views(ast@) == tv.take(k as int).map_values(
                    |t: TokenView| promoted(path@, t)->0,
                ),
            decreases tokens@.len() - k,
        {
            let ghost before = ast@;
            assert(tv[k as int] == tokens@[k as int]@);
            let t = match &tokens[k] {
                Token::RawAnchor(body) => match Anchor::parse(body.as_str()) {
                    Ok(a) => {
                        let Anchor { link, decoration } = a;
                        let path2 = resolve_path(doc.as_slice(), link.path);
                        Token::Anchor(
                            Anchor {
                                link: crate::anchor::Link { path: path2, strategy: link.strategy },
                                decoration,
                            },
                        )
                    },
                    Err(e) => {
                        assert(!all_parse(path@, tv)) by {
                            assert(promoted(path@, tv[k as int]) is None);
                        }
                        return Err(DocError::ParseAnchor(e));
                    },
                },
                Token::Content(c) => Token::Content(c.clone()),
                Token::Anchor(_) => {
                    proof {
                        lemma_scanned_tokens(source@, 0, k as int);
                        assert(false);
                    }
                    let e = ParseError { source: String::new(), remainder: String::new() };
                    return Err(DocError::ParseAnchor(e));
                },
            };
            assert(t@ == promoted(path@, tv[k as int])->0);
            ast.push(t);
            proof {
                assert(token_views(ast@) =~= token_views(before).push(t@));
                assert(tv.take(k + 1).drop_last() =~= tv.take(k as int));
                assert(token_views(ast@) =~= tv.take(k + 1).map_values(
                    |t: TokenView| promoted(path@, t)->0,
                ));
            }
            k = k + 1;
        }
        assert(tv.take(tv.len() as int) =~= tv);
        Ok(DocFile { path: path.to_owned(), source: source.to_owned(), ast })
    }
}

/// A document shared by all who fetched it.
pub type SharedDoc = Arc<DocFile>;

/// The documents read so far, by canonical path.
#[derive(Debug)]
pub struct DocList {
    files: Vec<SharedDoc>,
}

/// The index of the last document of `fs` with path `p`, or -1.
pub open spec fn last_doc(fs: Seq<SharedDoc>, p: Seq<char>) -> int
    decreases fs.len(),
{
    if fs.len() == 0 {
        -1
    } else if fs.last().path@ == p {
        fs.len() - 1
    } else {
        last_doc(fs.drop_last(), p)
    }
}

proof fn lemma_last_doc(fs: Seq<SharedDoc>, p: Seq<char>)
    ensures
        -1 <= last_doc(fs, p) < fs.len(),
        last_doc(fs, p) >= 0 ==> fs[last_doc(fs, p)].path@ == p,
    decreases fs.len(),
{
    if fs.len() > 0 {
        lemma_last_doc(fs.drop_last(), p);
    }
}

/// Whether `d` is the document at `path` with text `text`.
pub open spec fn doc_of(d: DocFile, path: Seq<char>, text: Seq<char>) -> bool {
    &&& d.path@ == path
    &&& d.source@ == text
    &&& all_parse(path, tokens_of(text))
    &&& token_views(d.ast@) == tokens_of(text).map_values(|t: TokenView| promoted(path, t)->0)
}

/// Whether reading `q` (the canonical path `c`) fails with `e`: `read`
/// fails, or the text it gives has a directive that does not parse.
pub open spec fn read_fails<R>(read: R, q: &str, c: Seq<char>, e: DocError) -> bool where
    R: Fn(&str) -> Result<String, SourceError>,
 {
    (exists|s: SourceError| e == DocError::Io(s) && #[trigger] read.ensures((q,), Err(s))) || (
    exists|t: String| #[trigger] read.ensures((q,), Ok(t)) && !all_parse(c, tokens_of(t@)))
}

/// What `DocList::fetch_with` does, from list `before` to list `after`. On
/// success: `canonical` gave the document's path, the list holds it under
/// that path and nothing else changed, and it is the one held before, or
/// else the document of the text `read` gave for that path. On failure: the
/// list is unchanged, and the error is `canonical`'s or `read`'s (as
/// `DocError::Io`), or the text read has a directive that does not parse.
pub open spec fn doc_fetched<C, R>(
    before: DocList,
    after: DocList,
    path: &str,
    canonical: C,
    read: R,
    r: Result<SharedDoc, DocError>,
) -> bool where C: Fn(&str) -> Result<String, SourceError>, R: Fn(&str) -> Result<String, SourceError> {
    match r {
        Err(e) => (forall|p: Seq<char>| #[trigger] after.lookup(p) == before.lookup(p)) && ((
        exists|s: SourceError| e == DocError::Io(s) && #[trigger] canonical.ensures((path,), Err(s)))
            || (exists|c: String, q: &str|
            #[trigger] canonical.ensures((path,), Ok(c)) && q@ == c@ && before.lookup(c@) is None
                && #[trigger] read_fails(read, q, c@, e))),
        Ok(f) => exists|c: String|
            #[trigger] canonical.ensures((path,), Ok(c)) && c@ == f.path@ && after.lookup(f.path@)
                == Some(*f) && (forall|p: Seq<char>|
                p != f.path@ ==> #[trigger] after.lookup(p) == before.lookup(p)) && match before.lookup(
                f.path@,
            ) {
                Some(g) => g == *f,
                None => exists|q: &str, t: String|
                    q@ == c@ && #[trigger] read.ensures((q,), Ok(t)) && doc_of(*f, c@, t@),
            },
    }
}

impl DocList {
    /// The document held under the canonical path `p`.
    pub closed spec fn lookup(&self, p: Seq<char>) -> Option<DocFile> {
        let i = last_doc(self.files@, p);
        if 0 <= i < self.files@.len() {
            Some(*self.files@[i])
        } else {
            None
        }
    }

    /// An empty list.
    pub fn new() -> (r: DocList)
        ensures
            forall|p: Seq<char>| r.lookup(p) is None,
    {
        DocList { files: Vec::new() }
    }

    /// The document held under the canonical path `path`, if any.
    pub fn get(&self, path: &str) -> (r: Option<SharedDoc>)
        ensures
            match r {
                Some(f) => self.lookup(path@) == Some(*f) && f.path@ == path@,
                None => self.lookup(path@) is None,
            },
    {
        let key = path.to_owned();
        let mut k = self.files.len();
        assert(self.files@.take(k as int) =~= self.files@);
        while k > 0
            invariant
                0 <= k <= self.files@.len(),
                key@ == path@,
                last_doc(self.files@, path@) == last_doc(self.files@.take(k as int), path@),
            decreases k,
        {
            assert(self.files@.take(k as int).drop_last() =~= self.files@.take(k - 1));
            if self.files[k - 1].path == key {
                return Some(share(&self.files[k - 1]));
            }
            k = k - 1;
        }
        None
    }

    /// Holds `doc` under its path.
    pub fn insert(&mut self, doc: SharedDoc)
        ensures
            final(self).lookup(doc.path@) == Some(*doc),
            forall|p: Seq<char>| p != doc.path@ ==> final(self).lookup(p) == old(self).lookup(p),
    {
        let ghost before = self.files@;
        self.files.push(doc);
        proof {
            assert(self.files@.drop_last() =~= before);
            assert forall|p: Seq<char>| p != doc.path@ implies self.lookup(p) == old(self).lookup(
                p,
            ) by {
                lemma_last_doc(before, p);
                let i = last_doc(before, p);
                if i >= 0 {
                    assert(self.files@[i] == before[i]);
                }
            }
        }
    }

    /// The document that `path` names (see `doc_fetched`): `canonical`
    /// gives its canonical path; a document held under it is returned and
    /// nothing is read; else `read` gives its text, which is parsed
    /// (`DocFile::with_path_and_source`), held and returned.
    pub fn fetch_with<C, R>(&mut self, path: &str, canonical: &C, read: &R) -> (r: Result<
        SharedDoc,
        DocError,
    >) where C: Fn(&str) -> Result<String, SourceError>, R: Fn(&str) -> Result<String, SourceError>
        requires
            forall|p: &str| canonical.requires((p,)),
            forall|p: &str| read.requires((p,)),
        ensures
            doc_fetched(*old(self), *final(self), path, *canonical, *read, r),
    {
        let c = match canonical(path) {
            Ok(c) => c,
            Err(e) => {
                assert(canonical.ensures((path,), Err::<String, SourceError>(e)));
                return Err(DocError::Io(e));
            },
        };
        match self.get(c.as_str()) {
            Some(f) => {
                assert(canonical.ensures((path,), Ok::<String, SourceError>(c)));
                return Ok(f);
            },
            None => {},
        }
        let q = c.as_str();
        let text = match read(q) {
            Ok(t) => t,
            Err(e) => {
                assert(read.ensures((q,), Err::<String, SourceError>(e)));
                assert(read_fails(*read, q, c@, DocError::Io(e)));
                assert(canonical.ensures((path,), Ok::<String, SourceError>(c)));
                return Err(DocError::Io(e));
            },
        };
        assert(read.ensures((q,), Ok::<String, SourceError>(text)));
        assert(canonical.ensures((path,), Ok::<String, SourceError>(c)));
        let doc = match DocFile::with_path_and_source(q, text.as_str()) {
            Ok(d) => d,
            Err(e) => {
                assert(read_fails(*read, q, c@, e));
                return Err(e);
            },
        };
        let doc = Arc::new(doc);
        self.insert(share(&doc));
        Ok(doc)
    }
}

} // verus!
