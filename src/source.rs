//! Source files: their text, language and syntax tree, and the cache that
//! keeps one of each by canonical path.
use vstd::prelude::*;

use crate::lang::{grammar_loads, language_of, Language, ParsedTree};
use crate::text::{chars_of, join_lines, join_range, lines_of, split_lines, views};
use std::sync::Arc;

verus! {

/// A source file that directives refer to.
#[derive(Debug)]
pub struct File {
    /// its canonical path
    pub path: String,
    /// its text
    pub contents: String,
    /// its language, where its extension names one
    pub language: Option<Language>,
    /// its syntax tree, where it has a language and parsing succeeded
    pub tree: Option<ParsedTree>,
}

/// A file shared by all the links to it.
pub type SharedFile = Arc<File>;

/// Why a source file could not be had.
#[derive(Debug, Clone, PartialEq, Eq)]
pub enum SourceError {
    /// it could not be read; the reason
    Io(String),
}

impl File {
    /// The file at `path` with text `contents`: its language from its
    /// extension, and its syntax tree where it has a language whose grammar
    /// loads.
    pub fn with_contents(path: &str, contents: String) -> (r: File)
        ensures
            r.path@ == path@,
            r.contents@ == contents@,
            r.language == language_of(path@),
            r.language is None ==> r.tree is None,
            r.tree matches Some(t) ==> t.text() == contents@ && r.language == Some(t.lang()),
            r.tree is Some <==> (r.language matches Some(l) && grammar_loads(l)),
    {
        let language = Language::determine_from_path(path);
        let mut file = File { path: path.to_owned(), contents, language, tree: None };
        file.recalculate_tree();
        file
    }

    /// Parses the contents again; the tree is absent where the language is
    /// unknown or its grammar does not load.
    pub fn recalculate_tree(&mut self)
        ensures
            final(self).path == old(self).path,
            final(self).contents == old(self).contents,
            final(self).language == old(self).language,
            final(self).language is None ==> final(self).tree is None,
            final(self).tree matches Some(t) ==> t.text() == final(self).contents@
                && final(self).language == Some(t.lang()),
            final(self).tree is Some <==> (final(self).language matches Some(l) && grammar_loads(l)),
    {
        match self.language {
            Some(lang) => {
                self.tree = match lang.parse(self.contents.as_str()) {
                    Ok(t) => t,
                    Err(_) => None,
                };
            },
            None => {
                self.tree = None;
            },
        }
    }
}

/// Lines numbered `first` to `last` (from one, both included) of `ls`, as
/// far as `ls` has them.
pub open spec fn lines_between(ls: Seq<Seq<char>>, first: int, last: int) -> Seq<Seq<char>> {
    let a = if first < 1 {
        0
    } else {
        first - 1
    };
    let b = if last > ls.len() {
        ls.len() as int
    } else {
        last
    };
    if a < b {
        ls.subrange(a, b)
    } else {
        Seq::empty()
    }
}

/// The lines numbered `first` to `last` of `contents`, joined by line feeds.
pub open spec fn text_between(contents: Seq<char>, first: int, last: int) -> Seq<char> {
    join_lines(lines_between(lines_of(contents), first, last))
}

/// `join_range` on the lines numbered `first` to `last`.
pub fn join_between(ls: &Vec<Vec<char>>, first: usize, last: usize) -> (r: String)
    ensures
        r@ == join_lines(lines_between(views(ls@), first as int, last as int)),
{
    let n = ls.len();
    let a = if first < 1 {
        0
    } else {
        first - 1
    };
    let b = if last > n {
        n
    } else {
        last
    };
    if a < b {
        join_range(ls, a, b)
    } else {
        assert(join_lines(Seq::<Seq<char>>::empty()) == Seq::<char>::empty());
        String::new()
    }
}

/// The lines numbered `first` to `last` of `contents`, joined by line feeds.
pub fn lines_of_range(contents: &str, first: usize, last: usize) -> (r: String)
    ensures
        r@ == text_between(contents@, first as int, last as int),
{
    let c = chars_of(contents);
    let ls = split_lines(c.as_slice());
    join_between(&ls, first, last)
}

/// An inclusive span of lines, numbered from one.
#[derive(Debug, Clone, Copy, Default, PartialEq, Eq, Structural)]
pub struct SourceRange {
    pub start: usize,
    pub end: usize,
}

impl SourceRange {
    /// The lines of `source` in this span, joined by line feeds; as far as
    /// the file has them.
    pub fn fetch_lines(&self, source: &File) -> (r: String)
        ensures
            r@ == text_between(source.contents@, self.start as int, self.end as int),
    {
        lines_of_range(source.contents.as_str(), self.start, self.end)
    }
}

/// Relies on `Arc::clone`: another handle to the same value.
#[verifier::external_body]
pub(crate) fn share<T>(f: &Arc<T>) -> (r: Arc<T>)
    ensures
        r == *f,
{
    Arc::clone(f)
}

/// The source files read so far, by canonical path.
#[derive(Debug)]
pub struct SourceList {
    files: Vec<SharedFile>,
}

/// The index of the last file of `fs` with path `p`, or -1.
pub open spec fn last_file(fs: Seq<SharedFile>, p: Seq<char>) -> int
    decreases fs.len(),
{
    if fs.len() == 0 {
        -1
    } else if fs.last().path@ == p {
        fs.len() - 1
    } else {
        last_file(fs.drop_last(), p)
    }
}

proof fn lemma_last_file(fs: Seq<SharedFile>, p: Seq<char>)
    ensures
        -1 <= last_file(fs, p) < fs.len(),
        last_file(fs, p) >= 0 ==> fs[last_file(fs, p)].path@ == p,
    decreases fs.len(),
{
    if fs.len() > 0 {
        lemma_last_file(fs.drop_last(), p);
    }
}

impl SourceList {
    /// The file cached under the canonical path `p`.
    pub closed spec fn lookup(&self, p: Seq<char>) -> Option<File> {
        let i = last_file(self.files@, p);
        if 0 <= i < self.files@.len() {
            Some(*self.files@[i])
        } else {
            None
        }
    }

    /// An empty cache.
    pub fn new() -> (r: SourceList)
        ensures
            forall|p: Seq<char>| r.lookup(p) is None,
    {
        SourceList { files: Vec::new() }
    }

    /// The file cached under the canonical path `path`, if any.
    pub fn get(&self, path: &str) -> (r: Option<SharedFile>)
        ensures
            match r {
                Some(f) => self.lookup(path@) == Some(*f) && f.path@ == path@,
                None => self.lookup(path@) is None,
            },
    {
        let key = path.to_owned();
        let mut k = self.files.len();
        assert(self.files@.take(k as int) =~= self.files@);
        while k > 0
            invariant
                0 <= k <= self.files@.len(),
                key@ == path@,
                last_file(self.files@, path@) == last_file(self.files@.take(k as int), path@),
            decreases k,
        {
            assert(self.files@.take(k as int).drop_last() =~= self.files@.take(k - 1));
            if self.files[k - 1].path == key {
                return Some(share(&self.files[k - 1]));
            }
            k = k - 1;
        }
        None
    }

    /// Caches `file` under its path.
    pub fn insert(&mut self, file: SharedFile)
        ensures
            final(self).lookup(file.path@) == Some(*file),
            forall|p: Seq<char>| p != file.path@ ==> final(self).lookup(p) == old(self).lookup(p),
    {
        let ghost before = self.files@;
        self.files.push(file);
        proof {
            assert(self.files@.drop_last() =~= before);
            assert forall|p: Seq<char>| p != file.path@ implies self.lookup(p) == old(self).lookup(
                p,
            ) by {
                lemma_last_file(before, p);
                let i = last_file(before, p);
                if i >= 0 {
                    assert(self.files@[i] == before[i]);
                }
            }
        }
    }

    /// The file that `path` names: `canonical` gives its canonical path;
    /// where a file is cached under it, that file, and nothing is read;
    /// else `read` gives its text, and the new file (see
    /// `File::with_contents`) is cached and returned. Fails, changing
    /// nothing, where `canonical` or `read` fails.
    pub fn fetch_with<C, R>(&mut self, path: &str, canonical: &C, read: &R) -> (r: Result<
        SharedFile,
        SourceError,
    >) where C: Fn(&str) -> Result<String, SourceError>, R: Fn(&str) -> Result<String, SourceError>
        requires
            forall|p: &str| canonical.requires((p,)),
            forall|p: &str| read.requires((p,)),
        ensures
            fetched(*old(self), *final(self), path, *canonical, *read, r),
    {
        let c = match canonical(path) {
            Ok(c) => c,
            Err(e) => {
                return Err(e);
            },
        };
        let ghost cached = self.lookup(c@);
        match self.get(c.as_str()) {
            Some(f) => {
                assert(canonical.ensures((path,), Ok::<String, SourceError>(c)));
                return Ok(f);
            },
            None => {},
        }
        let q = c.as_str();
        let contents = match read(q) {
            Ok(t) => t,
            Err(e) => {
                assert(canonical.ensures((path,), Ok::<String, SourceError>(c)) && q@ == c@
                    && old(self).lookup(c@) is None && read.ensures((q,), Err::<String, SourceError>(e)));
                return Err(e);
            },
        };
        let ghost t = contents;
        let file = Arc::new(File::with_contents(q, contents));
        assert(read.ensures((q,), Ok::<String, SourceError>(t)) && file.contents@ == t@);
        self.insert(share(&file));
        assert(canonical.ensures((path,), Ok::<String, SourceError>(c)));
        Ok(file)
    }
}

/// What `fetch_with` does, from cache `before` to cache `after`. On success:
/// `canonical` gave the file's path, the cache holds the file under it and
/// nothing else changed, and the file is the one cached before, or else a
/// new file whose text `read` gave for that path. On failure: the cache is
/// unchanged, and the error is `canonical`'s, or `read`'s for a canonical
/// path that was not cached.
pub open spec fn fetched<C, R>(
    before: SourceList,
    after: SourceList,
    path: &str,
    canonical: C,
    read: R,
    r: Result<SharedFile, SourceError>,
) -> bool where C: Fn(&str) -> Result<String, SourceError>, R: Fn(&str) -> Result<String, SourceError> {
    match r {
        Err(e) => (forall|p: Seq<char>| #[trigger] after.lookup(p) == before.lookup(p)) && (
        canonical.ensures((path,), Err(e)) || exists|c: String, q: &str|
            #[trigger] canonical.ensures((path,), Ok(c)) && q@ == c@ && before.lookup(c@) is None
                && #[trigger] read.ensures((q,), Err(e))),
        Ok(f) => exists|c: String|
            #[trigger] canonical.ensures((path,), Ok(c)) && c@ == f.path@ && after.lookup(f.path@)
                == Some(*f) && (forall|p: Seq<char>|
                p != f.path@ ==> #[trigger] after.lookup(p) == before.lookup(p)) && match before.lookup(
                f.path@,
            ) {
                Some(g) => g == *f,
                None => f.language == language_of(f.path@) && exists|q: &str, t: String|
                    q@ == c@ && #[trigger] read.ensures((q,), Ok(t)) && f.contents@ == t@,
            },
    }
}

/// A fetch of a path whose canonical path is cached succeeds with the
/// cached file and leaves the cache as it was, whatever `read` would do.
pub proof fn law_fetch_cached<C, R>(
    before: SourceList,
    after: SourceList,
    path: &str,
    canonical: C,
    read: R,
    r: Result<SharedFile, SourceError>,
    c: String,
) where C: Fn(&str) -> Result<String, SourceError>, R: Fn(&str) -> Result<String, SourceError>
    requires
        fetched(before, after, path, canonical, read, r),
        forall|x: Result<String, SourceError>|
            #[trigger] canonical.ensures((path,), x) ==> x == Ok::<String, SourceError>(c),
        before.lookup(c@) is Some,
    ensures
        r matches Ok(f) && before.lookup(c@) == Some(*f),
        forall|p: Seq<char>| #[trigger] after.lookup(p) == before.lookup(p),
{
    match r {
        Ok(f) => {
            let c2 = choose|c2: String|
                #[trigger] canonical.ensures((path,), Ok(c2)) && c2@ == f.path@ && after.lookup(f.path@)
                    == Some(*f) && (forall|p: Seq<char>|
                    p != f.path@ ==> #[trigger] after.lookup(p) == before.lookup(p)) && match before.lookup(
                    f.path@,
                ) {
                    Some(g) => g == *f,
                    None => f.language == language_of(f.path@) && exists|q: &str, t: String|
                        q@ == c2@ && #[trigger] read.ensures((q,), Ok(t)) && f.contents@ == t@,
                };
            assert(Ok::<String, SourceError>(c2) == Ok::<String, SourceError>(c));
            assert forall|p: Seq<char>| #[trigger] after.lookup(p) == before.lookup(p) by {
                if p == f.path@ {
                }
            }
        },
        Err(e) => {
            if canonical.ensures((path,), Err(e)) {
                assert(Err::<String, SourceError>(e) == Ok::<String, SourceError>(c));
            } else {
                let (c2, q) = choose|c2: String, q: &str|
                    #[trigger] canonical.ensures((path,), Ok(c2)) && q@ == c2@ && before.lookup(c2@) is None
                        && #[trigger] read.ensures((q,), Err(e));
                assert(Ok::<String, SourceError>(c2) == Ok::<String, SourceError>(c));
            }
        },
    }
}

} // verus!
