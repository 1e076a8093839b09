use medusa_zip::crawl::{
    join_paths, parent_of_path, path_is_absolute, strip_dot_slashes, CrawlResult, CrawlStep, Entry,
    FileKind, Ignores, Input, MedusaCrawl, MedusaCrawlError, MedusaCrawlFormatError, ResolvedPath,
};
use medusa_zip::name::MedusaNameFormatError;
use medusa_zip::plan::EntryModifications;
use medusa_zip::zip::{Parallelism, ZipOutputOptions};

fn pair(unresolved: &str, resolved: &str) -> ResolvedPath {
    ResolvedPath {
        unresolved_path: unresolved.to_string(),
        resolved_path: resolved.to_string(),
    }
}

fn ignores(patterns: &[&str]) -> Ignores {
    Ignores::from_patterns(&patterns.iter().map(|p| p.to_string()).collect()).unwrap()
}

fn pairs_of(result: &CrawlResult) -> Vec<(String, String)> {
    result
        .real_file_paths
        .iter()
        .map(|p| (p.unresolved_path.clone(), p.resolved_path.clone()))
        .collect()
}

fn owned(pairs: &[(&str, &str)]) -> Vec<(String, String)> {
    pairs
        .iter()
        .map(|(a, b)| (a.to_string(), b.to_string()))
        .collect()
}

fn no_prefix() -> EntryModifications {
    EntryModifications {
        silent_external_prefix: None,
        own_prefix: None,
    }
}

#[test]
fn ignore_patterns() {
    let i = ignores(&[r"\.log$"]);
    assert!(i.should_ignore("x/drop.log"));
    assert!(!i.should_ignore("x/keep.txt"));
    assert!(!i.should_ignore("x/drop.log.txt"));
}

#[test]
fn any_pattern_may_match_anywhere() {
    let i = ignores(&[r"^\.git/", r"~$", r"target"]);
    assert!(i.should_ignore(".git/config"));
    assert!(i.should_ignore("a/b~"));
    assert!(i.should_ignore("a/target/b"));
    assert!(!i.should_ignore("a/.git/config"));
    assert!(!i.should_ignore("src/main.rs"));
}

#[test]
fn without_patterns_nothing_is_ignored() {
    let none = ignores(&[]);
    assert!(!none.should_ignore(""));
    assert!(!none.should_ignore("anything/at/all"));
    let also_none = Ignores::new(regex::RegexSet::empty());
    assert!(!also_none.should_ignore("anything"));
}

#[test]
fn an_unacceptable_pattern_is_refused() {
    match Ignores::from_patterns(&vec!["ok".to_string(), "(".to_string()]) {
        Err(MedusaCrawlError::Pattern(message)) => assert!(!message.is_empty()),
        _ => panic!("a broken expression was accepted"),
    }
}

#[test]
fn leading_dot_slashes_go() {
    assert_eq!(strip_dot_slashes("./a/b"), "a/b");
    assert_eq!(strip_dot_slashes("././a"), "a");
    assert_eq!(strip_dot_slashes("a/./b"), "a/./b");
    assert_eq!(strip_dot_slashes("./"), "");
    assert_eq!(strip_dot_slashes("."), ".");
    assert_eq!(strip_dot_slashes(".a/b"), ".a/b");
    assert_eq!(strip_dot_slashes("../a"), "../a");
    assert_eq!(strip_dot_slashes(""), "");
    assert_eq!(strip_dot_slashes("/./a"), "/./a");
}

#[test]
fn absolute_paths_start_at_the_root() {
    assert!(path_is_absolute("/"));
    assert!(path_is_absolute("/a/b"));
    assert!(!path_is_absolute(""));
    assert!(!path_is_absolute("a/b"));
    assert!(!path_is_absolute("./a"));
}

#[test]
fn joining_paths() {
    assert_eq!(join_paths("a", "b"), "a/b");
    assert_eq!(join_paths("a/", "b"), "a/b");
    assert_eq!(join_paths("/", "b"), "/b");
    assert_eq!(join_paths("", "b"), "b");
    assert_eq!(join_paths("a", "/b"), "/b");
    assert_eq!(join_paths("/home/me", "x/y.txt"), "/home/me/x/y.txt");
    assert_eq!(join_paths("a", ""), "a/");
    assert_eq!(join_paths("a", "../b"), "a/../b");
}

#[test]
fn parents_of_paths() {
    assert_eq!(parent_of_path("a/b/c"), "a/b");
    assert_eq!(parent_of_path("a/b"), "a");
    assert_eq!(parent_of_path("a"), "");
    assert_eq!(parent_of_path("/a"), "/");
    assert_eq!(parent_of_path("/a/b"), "/a");
    assert_eq!(parent_of_path(""), "");
    assert_eq!(parent_of_path("/"), "/");
    assert_eq!(parent_of_path("./link"), ".");
}

#[test]
fn a_path_is_first_met_unresolved() {
    let p = ResolvedPath::from_path("a/b".to_string());
    assert_eq!(p.unresolved_path, "a/b");
    assert_eq!(p.resolved_path, "a/b");
    let d = p.duplicate();
    assert_eq!(d.unresolved_path, "a/b");
    assert_eq!(d.resolved_path, "a/b");
}

#[test]
fn children_continue_both_paths() {
    let p = pair("link", "/real/dir").resolve_child_dir_entry("f.txt");
    assert_eq!(p.unresolved_path, "link/f.txt");
    assert_eq!(p.resolved_path, "/real/dir/f.txt");
    let q = pair("a", "b").join("c/d");
    assert_eq!(q.unresolved_path, "a/c/d");
    assert_eq!(q.resolved_path, "b/c/d");
}

#[test]
fn a_link_is_followed_from_the_directory_that_holds_it() {
    let p = pair("d/link", "d/link").follow_link("../target/f");
    assert_eq!(p.unresolved_path, "d/link");
    assert_eq!(p.resolved_path, "d/../target/f");
    let p = pair("d/link", "/x/y/link").follow_link("/abs/target");
    assert_eq!(p.unresolved_path, "d/link");
    assert_eq!(p.resolved_path, "/abs/target");
    let p = pair("link", "link").follow_link("other");
    assert_eq!(p.resolved_path, "other");
}

#[test]
fn pairs_are_cleaned_for_export() {
    let p = pair("./a/b", "./a/b").clean_up_for_export("/cwd").unwrap();
    assert_eq!(p.unresolved_path, "a/b");
    assert_eq!(p.resolved_path, "/cwd/a/b");
    let p = pair("a/link", "/real/f").clean_up_for_export("/cwd").unwrap();
    assert_eq!(p.unresolved_path, "a/link");
    assert_eq!(p.resolved_path, "/real/f");
}

#[test]
fn a_path_met_as_absolute_is_refused() {
    match pair("/abs/f", "/abs/f").clean_up_for_export("/cwd") {
        Err(MedusaCrawlFormatError::PathWasAbsolute(p)) => assert_eq!(p, "/abs/f"),
        other => panic!("unexpected: {:?}", other),
    }
}

#[test]
fn inputs_are_classified_by_what_is_found() {
    let e = Input::Path(pair("a", "a")).classify(FileKind::File);
    assert!(matches!(e, Entry::File(_)));
    assert_eq!(e.as_resolved_path().unresolved_path, "a");
    let e = Input::Path(pair("a", "a")).classify(FileKind::Directory);
    assert!(matches!(e, Entry::Directory(_)));
    let e = Input::DirEntry(pair("d", "/r/d"), "l".to_string()).classify(FileKind::Symlink);
    match e {
        Entry::Symlink(p) => {
            assert_eq!(p.unresolved_path, "d/l");
            assert_eq!(p.resolved_path, "/r/d/l");
        }
        other => panic!("unexpected: {:?}", other),
    }
}

#[test]
fn the_walk_takes_files_follows_links_and_lists_directories() {
    let none = ignores(&[]);
    match Entry::File(pair("a", "/r/a")).crawl_single(&none) {
        CrawlStep::Emit(p) => assert_eq!(p.resolved_path, "/r/a"),
        other => panic!("unexpected: {:?}", other),
    }
    match Entry::Symlink(pair("l", "/r/l")).crawl_single(&none) {
        CrawlStep::ReadLink(p) => assert_eq!(p.resolved_path, "/r/l"),
        other => panic!("unexpected: {:?}", other),
    }
    match Entry::Directory(pair("d", "/r/d")).crawl_single(&none) {
        CrawlStep::ReadDir(p) => assert_eq!(p.unresolved_path, "d"),
        other => panic!("unexpected: {:?}", other),
    }
}

#[test]
fn the_walk_skips_what_is_ignored_by_its_unresolved_path() {
    let logs = ignores(&[r"\.log$"]);
    assert!(matches!(
        Entry::File(pair("x/drop.log", "/r/x/drop.log")).crawl_single(&logs),
        CrawlStep::Skip
    ));
    assert!(matches!(
        Entry::Directory(pair("x.log", "/r/x")).crawl_single(&logs),
        CrawlStep::Skip
    ));
    assert!(matches!(
        Entry::Symlink(pair("x/keep", "/r/x/drop.log")).crawl_single(&logs),
        CrawlStep::ReadLink(_)
    ));
    assert!(Entry::File(pair("x/drop.log", "/r/keep.txt")).should_ignore_this(&logs));
    assert!(!Entry::File(pair("x/keep.txt", "/r/drop.log")).should_ignore_this(&logs));
}

#[test]
fn results_are_merged_in_order() {
    assert!(CrawlResult::empty().real_file_paths.is_empty());
    let one = CrawlResult::single(pair("a", "/a"));
    assert_eq!(pairs_of(&one), owned(&[("a", "/a")]));
    let merged = CrawlResult::merge(vec![
        CrawlResult {
            real_file_paths: vec![pair("a", "/a"), pair("b", "/b")],
        },
        CrawlResult::empty(),
        CrawlResult::single(pair("c", "/c")),
    ]);
    assert_eq!(
        pairs_of(&merged),
        owned(&[("a", "/a"), ("b", "/b"), ("c", "/c")])
    );
    assert!(CrawlResult::merge(Vec::new()).real_file_paths.is_empty());
}

#[test]
fn a_result_is_cleaned_pair_by_pair() {
    let result = CrawlResult {
        real_file_paths: vec![pair("./x/keep.txt", "./x/keep.txt"), pair("l", "/t")],
    };
    let clean = result.clean_up_for_export("/w").unwrap();
    assert_eq!(
        pairs_of(&clean),
        owned(&[("x/keep.txt", "/w/x/keep.txt"), ("l", "/t")])
    );
    let bad = CrawlResult {
        real_file_paths: vec![pair("a", "a"), pair("/b", "/b"), pair("/c", "/c")],
    };
    match bad.clean_up_for_export("/w") {
        Err(MedusaCrawlFormatError::PathWasAbsolute(p)) => assert_eq!(p, "/b"),
        other => panic!("unexpected: {:?}", other),
    }
}

#[test]
fn a_result_becomes_the_sources_of_an_archive() {
    let result = CrawlResult {
        real_file_paths: vec![pair("x/keep.txt", "/w/x/keep.txt"), pair("l", "/t")],
    };
    let zip = result
        .medusa_zip(
            ZipOutputOptions::default(),
            no_prefix(),
            Parallelism::Synchronous,
        )
        .unwrap();
    assert_eq!(zip.parallelism, Parallelism::Synchronous);
    assert_eq!(zip.zip_options, ZipOutputOptions::default());
    let files: Vec<(&str, &str)> = zip
        .input_files
        .iter()
        .map(|f| (f.name.as_str(), f.source.as_str()))
        .collect();
    assert_eq!(files, vec![("x/keep.txt", "/w/x/keep.txt"), ("l", "/t")]);
}

#[test]
fn a_path_that_is_no_entry_name_is_refused() {
    let result = CrawlResult {
        real_file_paths: vec![pair("ok", "/ok"), pair("a//b", "/x"), pair("/c", "/c")],
    };
    match result.medusa_zip(
        ZipOutputOptions::default(),
        no_prefix(),
        Parallelism::Synchronous,
    ) {
        Err(MedusaNameFormatError::NameHasDoubleSlash(s)) => assert_eq!(s, "a//b"),
        other => panic!("unexpected: {:?}", other.map(|_| ())),
    }
}

#[test]
fn the_walk_starts_at_the_given_paths() {
    let crawl = MedusaCrawl {
        paths_to_crawl: vec![".".to_string(), "other/dir".to_string()],
        ignores: ignores(&[]),
    };
    let inputs = crawl.crawl_paths();
    assert_eq!(inputs.len(), 2);
    match &inputs[1] {
        Input::Path(p) => {
            assert_eq!(p.unresolved_path, "other/dir");
            assert_eq!(p.resolved_path, "other/dir");
        }
        other => panic!("unexpected: {:?}", other),
    }
}

#[test]
fn finishing_merges_and_cleans() {
    let done = MedusaCrawl::finish(
        vec![
            CrawlResult::single(pair("./x/keep.txt", "./x/keep.txt")),
            CrawlResult::single(pair("./y", "/elsewhere/y")),
        ],
        "/w",
    )
    .unwrap();
    assert_eq!(
        pairs_of(&done),
        owned(&[("x/keep.txt", "/w/x/keep.txt"), ("y", "/elsewhere/y")])
    );
    match MedusaCrawl::finish(vec![CrawlResult::single(pair("/abs", "/abs"))], "/w") {
        Err(MedusaCrawlError::CrawlFormat(MedusaCrawlFormatError::PathWasAbsolute(p))) => {
            assert_eq!(p, "/abs")
        }
        other => panic!("unexpected: {:?}", other),
    }
}

#[test]
fn no_patterns_are_always_accepted() {
    assert!(Ignores::from_patterns(&Vec::new()).is_ok());
}

#[test]
fn a_set_answers_as_it_was_compiled() {
    let plain = Ignores::new(regex::RegexSet::new(["a"]).unwrap());
    let folded = Ignores::new(
        regex::RegexSetBuilder::new(["a"])
            .case_insensitive(true)
            .build()
            .unwrap(),
    );
    assert!(plain.should_ignore("a"));
    assert!(!plain.should_ignore("A"));
    assert!(folded.should_ignore("A"));
}
