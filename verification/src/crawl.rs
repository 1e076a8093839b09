//! Crawling: which files go into an archive, and under which names.
//!
//! The walk over the file system is the caller's. This module decides what
//! the walk does with each path it meets (skip it, take it, follow it, or
//! look into it), and puts the paths that were found into the form in which
//! they are handed on. Paths are strings with `/` between their parts.

use vstd::prelude::*;
use regex::RegexSet;
use crate::name::{valid_name, EntryName, FileSource, MedusaNameFormatError};
use crate::plan::EntryModifications;
use crate::text::{chars_of, string_of, sub_chars, texts};
use crate::zip::{MedusaZip, Parallelism, ZipOutputOptions};

verus! {

/// A compiled set of regular expressions.
#[verifier::external_type_specification]
#[verifier::external_body]
pub struct ExRegexSet(RegexSet);

/// The expressions that a set was compiled from, in order.
pub uninterp spec fn regex_set_patterns(set: RegexSet) -> Seq<Seq<char>>;

/// Whether the set matches somewhere in the text. The answer is that of
/// the set as it was compiled: two sets of the same expressions may have
/// been compiled with different options and answer differently.
pub uninterp spec fn regex_set_matches(set: RegexSet, text: Seq<char>) -> bool;

/// Whether regex accepts these expressions as a set.
pub uninterp spec fn patterns_compile(patterns: Seq<Seq<char>>) -> bool;

/// Compiles the expressions with `RegexSet::new`.
///
/// Taken on trust from regex: whether the expressions are accepted depends
/// on the expressions alone; no expressions at all are accepted; and a set
/// that was made holds the expressions it was made from. Where regex
/// refuses, its message is handed on.
#[verifier::external_body]
fn compile_patterns(patterns: &Vec<String>) -> (r: Result<RegexSet, String>)
    ensures
        r is Ok <==> patterns_compile(texts(patterns@)),
        patterns@.len() == 0 ==> r is Ok,
        r matches Ok(set) ==> regex_set_patterns(set) == texts(patterns@),
{
    match RegexSet::new(patterns) {
        Ok(set) => Ok(set),
        Err(e) => Err(format!("{}", e)),
    }
}

/// Asks `RegexSet::is_match` whether the set matches somewhere in the text.
///
/// Taken on trust from regex: the answer depends only on the set and the
/// text, and a set without expressions matches nothing.
#[verifier::external_body]
fn set_matches(set: &RegexSet, text: &str) -> (r: bool)
    ensures
        r == regex_set_matches(*set, text@),
        regex_set_patterns(*set).len() == 0 ==> !r,
{
    set.is_match(text)
}

/// A path was not in the form that is handed on.
#[derive(Debug)]
pub enum MedusaCrawlFormatError {
    /// The path as it was met is absolute.
    PathWasAbsolute(String),
}

/// Why a crawl gives no result.
#[derive(Debug)]
pub enum MedusaCrawlError {
    /// An expression to ignore paths by was refused; the message says why.
    Pattern(String),
    /// A path was not in the form that is handed on.
    CrawlFormat(MedusaCrawlFormatError),
}

/// `s` starts with `./`.
pub open spec fn dot_slash_first(s: Seq<char>) -> bool {
    s.len() >= 2 && s[0] == '.' && s[1] == '/'
}

/// `s` without any `./` at its start.
pub open spec fn without_dot_slashes(s: Seq<char>) -> Seq<char>
    decreases s.len(),
{
    if dot_slash_first(s) {
        without_dot_slashes(s.skip(2))
    } else {
        s
    }
}

/// The path starts at the root.
pub open spec fn is_absolute(s: Seq<char>) -> bool {
    s.len() > 0 && s[0] == '/'
}

/// The path `child` as seen from `base`: `child` itself where it is
/// absolute or `base` is empty, else `base`, a slash unless `base` ends
/// with one, and `child`.
pub open spec fn joined(base: Seq<char>, child: Seq<char>) -> Seq<char> {
    if is_absolute(child) || base.len() == 0 {
        child
    } else if base.last() == '/' {
        base + child
    } else {
        base.push('/') + child
    }
}

/// The path of the directory that holds `s`: what stands before the last
/// slash; the root for a path directly below the root; nothing for a path
/// without a slash.
pub open spec fn parent_path(s: Seq<char>) -> Seq<char>
    decreases s.len(),
{
    if s.len() == 0 {
        s
    } else if s.last() == '/' {
        if s.len() == 1 {
            s
        } else {
            s.drop_last()
        }
    } else {
        parent_path(s.drop_last())
    }
}

/// `s` without any `./` at its start.
pub fn strip_dot_slashes(s: &str) -> (out: String)
    ensures
        out@ == without_dot_slashes(s@),
{
    let chars = chars_of(s);
    let mut from: usize = 0;
    proof {
        assert(chars@.skip(0) =~= chars@);
    }
    while chars.len() - from >= 2 && chars[from] == '.' && chars[from + 1] == '/'
        invariant
            from <= chars.len(),
            without_dot_slashes(chars@) == without_dot_slashes(chars@.skip(from as int)),
        decreases chars.len() - from,
    {
        proof {
            let rest = chars@.skip(from as int);
            assert(rest[0] == chars@[from as int]);
            assert(rest[1] == chars@[from as int + 1]);
            assert(rest.skip(2) =~= chars@.skip(from as int + 2));
        }
        from += 2;
    }
    proof {
        let rest = chars@.skip(from as int);
        if rest.len() >= 2 {
            assert(rest[0] == chars@[from as int]);
            assert(rest[1] == chars@[from as int + 1]);
        }
        assert(rest =~= chars@.subrange(from as int, chars.len() as int));
    }
    string_of(&sub_chars(&chars, from, chars.len()))
}

/// Whether the path starts at the root.
pub fn path_is_absolute(s: &str) -> (r: bool)
    ensures
        r == is_absolute(s@),
{
    let chars = chars_of(s);
    chars.len() > 0 && chars[0] == '/'
}

/// The path `child` as seen from `base`.
pub fn join_paths(base: &str, child: &str) -> (out: String)
    ensures
        out@ == joined(base@, child@),
{
    let b = chars_of(base);
    let c = chars_of(child);
    if (c.len() > 0 && c[0] == '/') || b.len() == 0 {
        return string_of(&c);
    }
    let mut out = b;
    if out[out.len() - 1] != '/' {
        out.push('/');
    }
    let ghost start = out@;
    let mut i: usize = 0;
    while i < c.len()
        invariant
            i <= c.len(),
            out@ == start + c@.take(i as int),
        decreases c.len() - i,
    {
        out.push(c[i]);
        proof {
            assert(c@.take(i as int + 1) =~= c@.take(i as int).push(c@[i as int]));
        }
        i += 1;
    }
    proof {
        assert(c@.take(c.len() as int) =~= c@);
    }
    string_of(&out)
}

/// The path of the directory that holds `s`.
pub fn parent_of_path(s: &str) -> (out: String)
    ensures
        out@ == parent_path(s@),
{
    let chars = chars_of(s);
    let mut end: usize = chars.len();
    proof {
        assert(chars@.take(end as int) =~= chars@);
    }
    while end > 0 && chars[end - 1] != '/'
        invariant
            end <= chars.len(),
            parent_path(chars@) == parent_path(chars@.take(end as int)),
        decreases end,
    {
        proof {
            assert(chars@.take(end as int).drop_last() =~= chars@.take(end as int - 1));
        }
        end -= 1;
    }
    let keep: usize = if end > 1 {
        end - 1
    } else {
        end
    };
    proof {
        let head = chars@.take(end as int);
        if end > 1 {
            assert(head.drop_last() =~= chars@.subrange(0, keep as int));
        } else {
            assert(head =~= chars@.subrange(0, keep as int));
        }
    }
    string_of(&sub_chars(&chars, 0, keep))
}

/// A path as it was met during the walk, and the same with every link on
/// the way followed.
#[derive(Debug)]
pub struct ResolvedPath {
    /// The path without any link followed.
    pub unresolved_path: String,
    /// The path with the links followed.
    pub resolved_path: String,
}

/// A resolved path by what it holds.
pub struct PathPair {
    pub unresolved: Seq<char>,
    pub resolved: Seq<char>,
}

impl View for ResolvedPath {
    type V = PathPair;

    open spec fn view(&self) -> PathPair {
        PathPair { unresolved: self.unresolved_path@, resolved: self.resolved_path@ }
    }
}

/// The resolved paths by what they hold.
pub open spec fn pair_views(paths: Seq<ResolvedPath>) -> Seq<PathPair> {
    Seq::new(paths.len(), |i: int| paths[i]@)
}

/// The pair in the form in which it is handed on: both paths without `./`
/// at their start, and the resolved one made absolute from `cwd`.
pub open spec fn cleaned(pair: PathPair, cwd: Seq<char>) -> PathPair {
    PathPair {
        unresolved: without_dot_slashes(pair.unresolved),
        resolved: joined(cwd, without_dot_slashes(pair.resolved)),
    }
}

impl ResolvedPath {
    /// A path that is met first: no link has been followed yet.
    pub fn from_path(path: String) -> (r: ResolvedPath)
        ensures
            r@ == (PathPair { unresolved: path@, resolved: path@ }),
    {
        ResolvedPath { unresolved_path: path.clone(), resolved_path: path }
    }

    /// A copy of this pair.
    pub fn duplicate(&self) -> (r: ResolvedPath)
        ensures
            r@ == self@,
    {
        ResolvedPath {
            unresolved_path: self.unresolved_path.clone(),
            resolved_path: self.resolved_path.clone(),
        }
    }

    /// Both paths continued by `path`.
    pub fn join(self, path: &str) -> (r: ResolvedPath)
        ensures
            r@ == (PathPair {
                unresolved: joined(self@.unresolved, path@),
                resolved: joined(self@.resolved, path@),
            }),
    {
        ResolvedPath {
            unresolved_path: join_paths(self.unresolved_path.as_str(), path),
            resolved_path: join_paths(self.resolved_path.as_str(), path),
        }
    }

    /// The pair for an entry named `file_name` of the directory that this
    /// pair stands for.
    pub fn resolve_child_dir_entry(self, file_name: &str) -> (r: ResolvedPath)
        ensures
            r@ == (PathPair {
                unresolved: joined(self@.unresolved, file_name@),
                resolved: joined(self@.resolved, file_name@),
            }),
    {
        self.join(file_name)
    }

    /// The pair for a link that points to `target`: met under the same
    /// path, and resolved to `target` as seen from the directory that holds
    /// the link.
    pub fn follow_link(self, target: &str) -> (r: ResolvedPath)
        ensures
            r@ == (PathPair {
                unresolved: self@.unresolved,
                resolved: joined(parent_path(self@.resolved), target@),
            }),
    {
        let parent = parent_of_path(self.resolved_path.as_str());
        ResolvedPath {
            unresolved_path: self.unresolved_path,
            resolved_path: join_paths(parent.as_str(), target),
        }
    }

    /// Puts the pair into the form in which it is handed on.
    ///
    /// Any `./` at the start of either path goes. The resolved path is made
    /// absolute from `cwd`. A path that was met as an absolute one is
    /// refused.
    pub fn clean_up_for_export(self, cwd: &str) -> (r: Result<ResolvedPath, MedusaCrawlFormatError>)
        ensures
            match r {
                Ok(p) => !is_absolute(without_dot_slashes(self@.unresolved)) && p@ == cleaned(
                    self@,
                    cwd@,
                ),
                Err(MedusaCrawlFormatError::PathWasAbsolute(p)) => is_absolute(
                    without_dot_slashes(self@.unresolved),
                ) && p@ == without_dot_slashes(self@.unresolved),
            },
    {
        let resolved = strip_dot_slashes(self.resolved_path.as_str());
        let resolved = join_paths(cwd, resolved.as_str());
        let unresolved = strip_dot_slashes(self.unresolved_path.as_str());
        if path_is_absolute(unresolved.as_str()) {
            return Err(MedusaCrawlFormatError::PathWasAbsolute(unresolved));
        }
        Ok(ResolvedPath { unresolved_path: unresolved, resolved_path: resolved })
    }
}

/// The expressions by which paths are left out of a crawl.
pub struct Ignores {
    patterns: RegexSet,
}

impl Ignores {
    /// The expressions that paths are tested against.
    pub closed spec fn pattern_texts(&self) -> Seq<Seq<char>> {
        regex_set_patterns(self.patterns)
    }

    /// Whether a path is left out: the compiled set matches somewhere in
    /// it.
    pub closed spec fn ignores(&self, path: Seq<char>) -> bool {
        regex_set_matches(self.patterns, path)
    }

    /// Ignores by a compiled set of expressions: a path is left out exactly
    /// if this set matches somewhere in it.
    pub fn new(patterns: RegexSet) -> (r: Ignores)
        ensures
            r.pattern_texts() == regex_set_patterns(patterns),
            forall|path: Seq<char>| #[trigger] r.ignores(path) == regex_set_matches(patterns, path),
    {
        Ignores { patterns }
    }

    /// Ignores by these expressions, compiled as regex compiles them
    /// without further options.
    ///
    /// It fails exactly where regex does not accept the expressions, with
    /// the message of regex; no expressions at all are always accepted.
    pub fn from_patterns(patterns: &Vec<String>) -> (r: Result<Ignores, MedusaCrawlError>)
        ensures
            r is Ok <==> patterns_compile(texts(patterns@)),
            patterns@.len() == 0 ==> r is Ok,
            r matches Ok(ignores) ==> ignores.pattern_texts() == texts(patterns@),
            r is Err ==> r matches Err(MedusaCrawlError::Pattern(_)),
    {
        match compile_patterns(patterns) {
            Ok(set) => Ok(Ignores { patterns: set }),
            Err(message) => Err(MedusaCrawlError::Pattern(message)),
        }
    }

    /// Whether `path` is left out. Without expressions nothing is left out.
    pub fn should_ignore(&self, path: &str) -> (r: bool)
        ensures
            r == self.ignores(path@),
            self.pattern_texts().len() == 0 ==> !r,
    {
        set_matches(&self.patterns, path)
    }
}

/// What the walk has found at a path.
#[derive(Clone, Copy, Debug, PartialEq, Eq, Structural)]
pub enum FileKind {
    Symlink,
    Directory,
    File,
}

/// A path together with what the walk has found there.
#[derive(Debug)]
pub enum Entry {
    Symlink(ResolvedPath),
    Directory(ResolvedPath),
    File(ResolvedPath),
}

/// What the walk looks at next.
#[derive(Debug)]
pub enum Input {
    /// A path, as it was given or as a link led to it.
    Path(ResolvedPath),
    /// The directory that the pair stands for, and the name of one of its
    /// entries.
    DirEntry(ResolvedPath, String),
}

/// What the walk does with an entry.
#[derive(Debug)]
pub enum CrawlStep {
    /// Leave the entry out, with everything below it.
    Skip,
    /// Take the file into the result.
    Emit(ResolvedPath),
    /// Read where the link at the resolved path points, and go on with
    /// `ResolvedPath::follow_link`.
    ReadLink(ResolvedPath),
    /// List the directory at the resolved path, and go on with each of its
    /// entries as an `Input::DirEntry`.
    ReadDir(ResolvedPath),
}

impl Entry {
    /// The pair of paths of this entry.
    pub open spec fn paths(&self) -> PathPair {
        match self {
            Entry::Symlink(p) => p@,
            Entry::Directory(p) => p@,
            Entry::File(p) => p@,
        }
    }

    /// The pair of paths of this entry.
    pub fn as_resolved_path(&self) -> (r: &ResolvedPath)
        ensures
            r@ == self.paths(),
    {
        match self {
            Entry::Symlink(p) => p,
            Entry::Directory(p) => p,
            Entry::File(p) => p,
        }
    }

    /// Whether the entry is left out. Only the path as it was met counts:
    /// a link to a place that is left out is not itself left out.
    pub fn should_ignore_this(&self, ignores: &Ignores) -> (r: bool)
        ensures
            r == ignores.ignores(self.paths().unresolved),
    {
        ignores.should_ignore(self.as_resolved_path().unresolved_path.as_str())
    }

    /// What the walk does with this entry: nothing if it is left out; else
    /// a file is taken, a link is followed, and a directory is listed.
    pub fn crawl_single(self, ignores: &Ignores) -> (step: CrawlStep)
        ensures
            ignores.ignores(self.paths().unresolved) ==> step is Skip,
            !ignores.ignores(self.paths().unresolved) ==> match self {
                Entry::File(p) => step matches CrawlStep::Emit(q) && q@ == p@,
                Entry::Symlink(p) => step matches CrawlStep::ReadLink(q) && q@ == p@,
                Entry::Directory(p) => step matches CrawlStep::ReadDir(q) && q@ == p@,
            },
    {
        if self.should_ignore_this(ignores) {
            return CrawlStep::Skip;
        }
        match self {
            Entry::File(p) => CrawlStep::Emit(p),
            Entry::Symlink(p) => CrawlStep::ReadLink(p),
            Entry::Directory(p) => CrawlStep::ReadDir(p),
        }
    }
}

impl Input {
    /// The pair of paths that this input stands for.
    pub open spec fn paths(&self) -> PathPair {
        match self {
            Input::Path(p) => p@,
            Input::DirEntry(parent, name) => PathPair {
                unresolved: joined(parent@.unresolved, name@),
                resolved: joined(parent@.resolved, name@),
            },
        }
    }

    /// The entry for this input, given what the walk found at its resolved
    /// path without following a link there.
    pub fn classify(self, kind: FileKind) -> (r: Entry)
        ensures
            r.paths() == self.paths(),
            match kind {
                FileKind::Symlink => r is Symlink,
                FileKind::Directory => r is Directory,
                FileKind::File => r is File,
            },
    {
        let path = match self {
            Input::Path(p) => p,
            Input::DirEntry(parent, name) => parent.resolve_child_dir_entry(name.as_str()),
        };
        match kind {
            FileKind::Symlink => Entry::Symlink(path),
            FileKind::Directory => Entry::Directory(path),
            FileKind::File => Entry::File(path),
        }
    }
}

/// The files that a crawl has found, in the order in which they are handed
/// on.
#[derive(Debug)]
pub struct CrawlResult {
    pub real_file_paths: Vec<ResolvedPath>,
}

impl View for CrawlResult {
    type V = Seq<PathPair>;

    open spec fn view(&self) -> Seq<PathPair> {
        pair_views(self.real_file_paths@)
    }
}

/// The results one after another.
pub open spec fn concatenated(results: Seq<CrawlResult>, n: nat) -> Seq<PathPair>
    decreases n,
{
    if n == 0 {
        Seq::empty()
    } else {
        concatenated(results, (n - 1) as nat) + results[n - 1]@
    }
}

/// The first path that is not an acceptable entry name, if there is one.
pub open spec fn first_refused(paths: Seq<PathPair>, k: int) -> bool {
    &&& 0 <= k < paths.len()
    &&& !valid_name(paths[k].unresolved)
    &&& forall|j: int| 0 <= j < k ==> valid_name(#[trigger] paths[j].unresolved)
}

impl CrawlResult {
    /// The result that holds nothing.
    pub fn empty() -> (r: CrawlResult)
        ensures
            r@ == Seq::<PathPair>::empty(),
    {
        let r = CrawlResult { real_file_paths: Vec::new() };
        proof {
            assert(r@ =~= Seq::<PathPair>::empty());
        }
        r
    }

    /// The result that holds one file.
    pub fn single(path: ResolvedPath) -> (r: CrawlResult)
        ensures
            r@ == seq![path@],
    {
        let mut real_file_paths: Vec<ResolvedPath> = Vec::new();
        real_file_paths.push(path);
        let r = CrawlResult { real_file_paths };
        proof {
            assert(r@ =~= seq![path@]);
        }
        r
    }

    /// The results one after another, as one result.
    pub fn merge(results: Vec<CrawlResult>) -> (r: CrawlResult)
        ensures
            r@ == concatenated(results@, results@.len()),
    {
        let mut merged: Vec<ResolvedPath> = Vec::new();
        let mut i: usize = 0;
        proof {
            assert(pair_views(merged@) =~= concatenated(results@, 0));
        }
        while i < results.len()
            invariant
                i <= results.len(),
                pair_views(merged@) == concatenated(results@, i as nat),
            decreases results.len() - i,
        {
            let ghost base = pair_views(merged@);
            let part = &results[i].real_file_paths;
            let mut k: usize = 0;
            proof {
                assert(pair_views(merged@) =~= base + pair_views(part@).take(0));
            }
            while k < part.len()
                invariant
                    k <= part.len(),
                    pair_views(merged@) == base + pair_views(part@).take(k as int),
                decreases part.len() - k,
            {
                let ghost before = pair_views(merged@);
                let copy = part[k].duplicate();
                merged.push(copy);
                proof {
                    assert(pair_views(merged@) =~= before.push(part@[k as int]@));
                    assert(pair_views(part@).take(k as int + 1) =~= pair_views(part@).take(
                        k as int,
                    ).push(part@[k as int]@));
                    assert(pair_views(merged@) =~= base + pair_views(part@).take(k as int + 1));
                }
                k += 1;
            }
            proof {
                assert(pair_views(part@).take(part.len() as int) =~= results@[i as int]@);
            }
            i += 1;
        }
        CrawlResult { real_file_paths: merged }
    }

    /// Puts every pair into the form in which it is handed on; the first
    /// path that was met as an absolute one is refused.
    pub fn clean_up_for_export(self, cwd: &str) -> (r: Result<CrawlResult, MedusaCrawlFormatError>)
        ensures
            match r {
                Ok(c) => {
                    &&& c@.len() == self@.len()
                    &&& forall|i: int|
                        0 <= i < self@.len() ==> !is_absolute(
                            without_dot_slashes(#[trigger] self@[i].unresolved),
                        )
                    &&& forall|i: int|
                        0 <= i < self@.len() ==> #[trigger] c@[i] == cleaned(self@[i], cwd@)
                },
                Err(MedusaCrawlFormatError::PathWasAbsolute(p)) => exists|k: int|
                    0 <= k < self@.len() && is_absolute(
                        without_dot_slashes(#[trigger] self@[k].unresolved),
                    ) && p@ == without_dot_slashes(self@[k].unresolved) && forall|j: int|
                        0 <= j < k ==> !is_absolute(
                            without_dot_slashes(#[trigger] self@[j].unresolved),
                        ),
            },
    {
        let ghost input = self@;
        let mut out: Vec<ResolvedPath> = Vec::new();
        let mut i: usize = 0;
        while i < self.real_file_paths.len()
            invariant
                i <= self.real_file_paths.len(),
                input == self@,
                out@.len() == i,
                forall|j: int|
                    0 <= j < i ==> !is_absolute(without_dot_slashes(#[trigger] input[j].unresolved)),
                forall|j: int| 0 <= j < i ==> #[trigger] pair_views(out@)[j] == cleaned(input[j], cwd@),
            decreases self.real_file_paths.len() - i,
        {
            let pair = self.real_file_paths[i].duplicate();
            assert(pair@ == input[i as int]);
            match pair.clean_up_for_export(cwd) {
                Err(e) => {
                    return Err(e);
                },
                Ok(clean) => {
                    let ghost before = pair_views(out@);
                    out.push(clean);
                    proof {
                        assert(pair_views(out@) =~= before.push(clean@));
                    }
                },
            }
            i += 1;
        }
        Ok(CrawlResult { real_file_paths: out })
    }

    /// The files of this result as the sources of an archive: each file
    /// goes in under the path by which it was met, and is read from its
    /// resolved path. The first path that is not an acceptable entry name
    /// is refused.
    pub fn medusa_zip(
        self,
        zip_options: ZipOutputOptions,
        modifications: EntryModifications,
        parallelism: Parallelism,
    ) -> (r: Result<MedusaZip, MedusaNameFormatError>)
        ensures
            match r {
                Ok(zip) => {
                    &&& zip.zip_options == zip_options
                    &&& zip.modifications == modifications
                    &&& zip.parallelism == parallelism
                    &&& zip.input_files@.len() == self@.len()
                    &&& forall|i: int|
                        0 <= i < self@.len() ==> valid_name(#[trigger] self@[i].unresolved)
                            && zip.input_files@[i].name@ == self@[i].unresolved
                            && zip.input_files@[i].source@ == self@[i].resolved
                },
                Err(e) => exists|k: int| first_refused(self@, k) && e.refuses(self@[k].unresolved),
            },
    {
        let ghost input = self@;
        let mut input_files: Vec<FileSource> = Vec::new();
        let mut i: usize = 0;
        while i < self.real_file_paths.len()
            invariant
                i <= self.real_file_paths.len(),
                input == self@,
                input_files@.len() == i,
                forall|j: int|
                    0 <= j < i ==> valid_name(#[trigger] input[j].unresolved)
                        && input_files@[j].name@ == input[j].unresolved && input_files@[j].source@
                        == input[j].resolved,
            decreases self.real_file_paths.len() - i,
        {
            let pair = &self.real_file_paths[i];
            assert(pair@ == input[i as int]);
            match EntryName::validate(pair.unresolved_path.clone()) {
                Err(e) => {
                    proof {
                        assert(first_refused(input, i as int));
                    }
                    return Err(e);
                },
                Ok(name) => {
                    input_files.push(FileSource { name, source: pair.resolved_path.clone() });
                },
            }
            i += 1;
        }
        Ok(MedusaZip { input_files, zip_options, modifications, parallelism })
    }
}

/// What to crawl, and what to leave out.
pub struct MedusaCrawl {
    pub paths_to_crawl: Vec<String>,
    pub ignores: Ignores,
}

impl MedusaCrawl {
    /// Where the walk starts: one input for each path to crawl, in order.
    pub fn crawl_paths(&self) -> (inputs: Vec<Input>)
        ensures
            inputs@.len() == self.paths_to_crawl@.len(),
            forall|i: int|
                0 <= i < inputs@.len() ==> (#[trigger] inputs@[i]).paths() == (PathPair {
                    unresolved: self.paths_to_crawl@[i]@,
                    resolved: self.paths_to_crawl@[i]@,
                }) && inputs@[i] is Path,
    {
        let mut inputs: Vec<Input> = Vec::new();
        let mut i: usize = 0;
        while i < self.paths_to_crawl.len()
            invariant
                i <= self.paths_to_crawl.len(),
                inputs@.len() == i,
                forall|j: int|
                    0 <= j < i ==> (#[trigger] inputs@[j]).paths() == (PathPair {
                        unresolved: self.paths_to_crawl@[j]@,
                        resolved: self.paths_to_crawl@[j]@,
                    }) && inputs@[j] is Path,
            decreases self.paths_to_crawl.len() - i,
        {
            inputs.push(Input::Path(ResolvedPath::from_path(self.paths_to_crawl[i].clone())));
            i += 1;
        }
        inputs
    }

    /// The result of the walk: what was found for each input, one after
    /// another, in the form in which it is handed on.
    pub fn finish(results: Vec<CrawlResult>, cwd: &str) -> (r: Result<CrawlResult, MedusaCrawlError>)
        ensures
            match r {
                Ok(c) => {
                    let all = concatenated(results@, results@.len());
                    &&& c@.len() == all.len()
                    &&& forall|i: int|
                        0 <= i < all.len() ==> !is_absolute(
                            without_dot_slashes(#[trigger] all[i].unresolved),
                        )
                    &&& forall|i: int| 0 <= i < all.len() ==> #[trigger] c@[i] == cleaned(all[i], cwd@)
                },
                Err(MedusaCrawlError::CrawlFormat(MedusaCrawlFormatError::PathWasAbsolute(p))) => {
                    let all = concatenated(results@, results@.len());
                    exists|k: int|
                        0 <= k < all.len() && is_absolute(
                            without_dot_slashes(#[trigger] all[k].unresolved),
                        ) && p@ == without_dot_slashes(all[k].unresolved) && forall|j: int|
                            0 <= j < k ==> !is_absolute(
                                without_dot_slashes(#[trigger] all[j].unresolved),
                            )
                },
                Err(MedusaCrawlError::Pattern(_)) => false,
            },
    {
        let merged = CrawlResult::merge(results);
        match merged.clean_up_for_export(cwd) {
            Ok(c) => Ok(c),
            Err(e) => Err(MedusaCrawlError::CrawlFormat(e)),
        }
    }
}

} // verus!
