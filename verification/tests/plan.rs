use medusa_zip::name::{EntryName, FileSource, MedusaNameFormatError};
use medusa_zip::plan::{
    calculate_new_rightmost_components, EntryModifications, EntrySpecificationList,
    InputConsistencyError, ZipEntrySpecification,
};

fn source(name: &str, path: &str) -> FileSource {
    FileSource {
        name: EntryName::validate(name.to_string()).unwrap(),
        source: path.to_string(),
    }
}

fn sources(names: &[&str]) -> Vec<FileSource> {
    names
        .iter()
        .map(|n| source(n, &format!("/src/{}", n)))
        .collect()
}

fn no_prefix() -> EntryModifications {
    EntryModifications {
        silent_external_prefix: None,
        own_prefix: None,
    }
}

fn prefixes(silent: Option<&str>, own: Option<&str>) -> EntryModifications {
    EntryModifications {
        silent_external_prefix: silent.map(|s| s.to_string()),
        own_prefix: own.map(|s| s.to_string()),
    }
}

fn names_of(list: &EntrySpecificationList) -> Vec<String> {
    list.0
        .iter()
        .map(|e| match e {
            ZipEntrySpecification::File(f) => f.name.as_str().to_string(),
            ZipEntrySpecification::Directory(n) => n.as_str().to_string(),
        })
        .collect()
}

fn kinds_of(list: &EntrySpecificationList) -> Vec<String> {
    list.0
        .iter()
        .map(|e| match e {
            ZipEntrySpecification::File(f) => format!("file {} from {}", f.name.as_str(), f.source),
            ZipEntrySpecification::Directory(n) => format!("dir {}", n.as_str()),
        })
        .collect()
}

fn plan(names: &[&str], modifications: EntryModifications) -> EntrySpecificationList {
    EntrySpecificationList::from_file_specs(sources(names), modifications).unwrap()
}

fn chars(parts: &[&str]) -> Vec<Vec<char>> {
    parts.iter().map(|p| p.chars().collect()).collect()
}

#[test]
fn sibling_ordering() {
    let list = plan(&["a.txt", "a/b.txt"], no_prefix());
    assert_eq!(names_of(&list), vec!["a", "a/b.txt", "a.txt"]);
    assert_eq!(
        kinds_of(&list),
        vec![
            "dir a",
            "file a/b.txt from /src/a/b.txt",
            "file a.txt from /src/a.txt"
        ]
    );
}

#[test]
fn nested_directory_synthesis() {
    let list = plan(&["x/y/z.txt"], no_prefix());
    assert_eq!(
        kinds_of(&list),
        vec!["dir x", "dir x/y", "file x/y/z.txt from /src/x/y/z.txt"]
    );
}

#[test]
fn shared_prefix_reuse() {
    let list = plan(&["a/b/c.txt", "a/b/d.txt", "a/e.txt"], no_prefix());
    assert_eq!(
        names_of(&list),
        vec!["a", "a/b", "a/b/c.txt", "a/b/d.txt", "a/e.txt"]
    );
}

#[test]
fn own_prefix_application() {
    let list = plan(&["x.txt"], prefixes(None, Some("deps")));
    assert_eq!(
        kinds_of(&list),
        vec!["dir deps", "file deps/x.txt from /src/x.txt"]
    );
}

#[test]
fn silent_prefix_goes_in_front_without_a_directory_of_its_own() {
    let list = plan(&["x.txt"], prefixes(Some("lib"), Some("deps")));
    assert_eq!(
        kinds_of(&list),
        vec!["dir lib/deps", "file lib/deps/x.txt from /src/x.txt"]
    );
}

#[test]
fn silent_prefix_alone_adds_no_directory() {
    let list = plan(&["x.txt", "d/y.txt"], prefixes(Some("lib/inner"), None));
    assert_eq!(
        kinds_of(&list),
        vec![
            "dir lib/inner/d",
            "file lib/inner/d/y.txt from /src/d/y.txt",
            "file lib/inner/x.txt from /src/x.txt"
        ]
    );
}

#[test]
fn own_prefix_of_several_levels_gives_a_directory_per_level() {
    let list = plan(&["d/y.txt"], prefixes(Some("s"), Some("o/p")));
    assert_eq!(
        names_of(&list),
        vec!["s/o", "s/o/p", "s/o/p/d", "s/o/p/d/y.txt"]
    );
}

#[test]
fn duplicate_detection() {
    let input = vec![source("a.txt", "/p1"), source("a.txt", "/p2")];
    match EntrySpecificationList::from_file_specs(input, no_prefix()) {
        Err(InputConsistencyError::DuplicateName(name, first, second)) => {
            assert_eq!(name.as_str(), "a.txt");
            assert_eq!(first, "/p1");
            assert_eq!(second, "/p2");
        }
        other => panic!("unexpected: {:?}", other),
    }
}

#[test]
fn duplicates_are_found_wherever_they_stand() {
    let input = vec![
        source("m.txt", "/1"),
        source("a.txt", "/2"),
        source("z/q.txt", "/3"),
        source("b.txt", "/4"),
        source("a.txt", "/5"),
    ];
    match EntrySpecificationList::from_file_specs(input, no_prefix()) {
        Err(InputConsistencyError::DuplicateName(name, first, second)) => {
            assert_eq!(name.as_str(), "a.txt");
            assert_eq!(first, "/2");
            assert_eq!(second, "/5");
        }
        other => panic!("unexpected: {:?}", other),
    }
}

#[test]
fn duplicates_come_before_prefix_errors() {
    let input = vec![source("a.txt", "/p1"), source("a.txt", "/p2")];
    assert!(matches!(
        EntrySpecificationList::from_file_specs(input, prefixes(None, Some("/bad"))),
        Err(InputConsistencyError::DuplicateName(_, _, _))
    ));
}

#[test]
fn an_unacceptable_silent_prefix_is_refused() {
    match EntrySpecificationList::from_file_specs(sources(&["a"]), prefixes(Some("x//y"), None)) {
        Err(InputConsistencyError::NameFormat(MedusaNameFormatError::NameHasDoubleSlash(s))) => {
            assert_eq!(s, "x//y")
        }
        other => panic!("unexpected: {:?}", other),
    }
}

#[test]
fn an_unacceptable_own_prefix_is_refused() {
    match EntrySpecificationList::from_file_specs(sources(&["a"]), prefixes(Some("ok"), Some("y/")))
    {
        Err(InputConsistencyError::NameFormat(MedusaNameFormatError::NameEndsWithSlash(s))) => {
            assert_eq!(s, "y/")
        }
        other => panic!("unexpected: {:?}", other),
    }
}

#[test]
fn the_silent_prefix_is_looked_at_first() {
    assert!(matches!(
        EntrySpecificationList::from_file_specs(sources(&["a"]), prefixes(Some(""), Some("/y"))),
        Err(InputConsistencyError::NameFormat(
            MedusaNameFormatError::NameIsEmpty
        ))
    ));
}

#[test]
fn a_silent_dot_takes_no_own_prefix() {
    match EntrySpecificationList::from_file_specs(
        sources(&["a"]),
        prefixes(Some("."), Some("deps/more")),
    ) {
        Err(InputConsistencyError::NameFormat(MedusaNameFormatError::NameStartsWithDotSlash(
            s,
        ))) => assert_eq!(s, "./deps"),
        other => panic!("unexpected: {:?}", other),
    }
}

#[test]
fn a_silent_dot_alone_is_put_in_front() {
    let list = plan(&["a"], prefixes(Some("."), None));
    assert_eq!(names_of(&list), vec!["./a"]);
}

#[test]
fn empty_input_gives_an_empty_plan() {
    let list = plan(&[], no_prefix());
    assert!(list.0.is_empty());
    let list = plan(&[], prefixes(Some("lib"), None));
    assert!(list.0.is_empty());
}

#[test]
fn empty_input_with_an_own_prefix_gives_only_its_directories() {
    let list = plan(&[], prefixes(None, Some("a/b")));
    assert_eq!(kinds_of(&list), vec!["dir a", "dir a/b"]);
}

#[test]
fn a_single_file_at_the_root_gets_no_directory() {
    let list = plan(&["x.txt"], no_prefix());
    assert_eq!(kinds_of(&list), vec!["file x.txt from /src/x.txt"]);
}

#[test]
fn the_order_of_the_input_does_not_matter() {
    let one = plan(
        &["b/2", "a/z/1", "c", "a/y", "b/1/x", "a/z/0", "aa", "a.txt"],
        no_prefix(),
    );
    let other = plan(
        &["a.txt", "aa", "a/z/0", "b/1/x", "a/y", "c", "a/z/1", "b/2"],
        no_prefix(),
    );
    let expected = vec![
        "dir a",
        "file a/y from /src/a/y",
        "dir a/z",
        "file a/z/0 from /src/a/z/0",
        "file a/z/1 from /src/a/z/1",
        "file a.txt from /src/a.txt",
        "file aa from /src/aa",
        "dir b",
        "dir b/1",
        "file b/1/x from /src/b/1/x",
        "file b/2 from /src/b/2",
        "file c from /src/c",
    ];
    assert_eq!(kinds_of(&one), expected);
    assert_eq!(kinds_of(&other), expected);
}

#[test]
fn many_sources_come_out_in_name_order() {
    let mut names: Vec<String> = Vec::new();
    for i in 0..500u32 {
        let k = (i * 7919) % 500;
        names.push(format!("d{}/f{}", k % 13, k));
    }
    let input: Vec<FileSource> = names.iter().map(|n| source(n, "/s")).collect();
    let list = EntrySpecificationList::from_file_specs(input, no_prefix()).unwrap();
    let mut files = 0;
    let mut dirs = 0;
    for pair in list.0.windows(2) {
        let name_of = |e: &ZipEntrySpecification| match e {
            ZipEntrySpecification::File(f) => f.name.duplicate(),
            ZipEntrySpecification::Directory(n) => n.duplicate(),
        };
        assert!(name_of(&pair[0]) < name_of(&pair[1]));
    }
    for e in list.0.iter() {
        match e {
            ZipEntrySpecification::File(_) => files += 1,
            ZipEntrySpecification::Directory(_) => dirs += 1,
        }
    }
    assert_eq!(files, 500);
    assert_eq!(dirs, 13);
}

#[test]
fn a_file_that_is_also_a_directory_gives_both_entries() {
    let list = plan(&["a/b", "a"], no_prefix());
    assert_eq!(
        kinds_of(&list),
        vec!["file a from /src/a", "dir a", "file a/b from /src/a/b"]
    );
}

#[test]
fn every_directory_on_the_way_precedes_its_file() {
    let list = plan(&["p/q/r/s.txt", "p/a.txt", "p/q/b.txt", "t.txt"], no_prefix());
    let names = names_of(&list);
    for (at, entry) in list.0.iter().enumerate() {
        if let ZipEntrySpecification::File(f) = entry {
            let parts = f.name.all_components();
            for m in 1..parts.len() {
                let dir = parts[..m].join("/");
                let found = list.0[..at].iter().any(|e| match e {
                    ZipEntrySpecification::Directory(n) => n.as_str() == dir,
                    _ => false,
                });
                assert!(found, "{} has no directory {} before it", names[at], dir);
            }
        }
    }
    let dirs: Vec<&String> = list
        .0
        .iter()
        .zip(names.iter())
        .filter(|(e, _)| matches!(e, ZipEntrySpecification::Directory(_)))
        .map(|(_, n)| n)
        .collect();
    assert_eq!(dirs, vec!["p", "p/q", "p/q/r"]);
}

#[test]
fn sort_and_deduplicate_sorts_in_place() {
    let mut input = sources(&["b", "a.txt", "a/c", "a/b"]);
    EntrySpecificationList::sort_and_deduplicate(&mut input).unwrap();
    let names: Vec<&str> = input.iter().map(|f| f.name.as_str()).collect();
    assert_eq!(names, vec!["a/b", "a/c", "a.txt", "b"]);
    let paths: Vec<&str> = input.iter().map(|f| f.source.as_str()).collect();
    assert_eq!(paths, vec!["/src/a/b", "/src/a/c", "/src/a.txt", "/src/b"]);
}

#[test]
fn new_rightmost_components_are_those_beyond_the_shared_start() {
    assert_eq!(
        calculate_new_rightmost_components(&chars(&[]), &chars(&["a", "b"])),
        vec![1, 2]
    );
    assert_eq!(
        calculate_new_rightmost_components(&chars(&["a", "b"]), &chars(&["a", "c"])),
        vec![2]
    );
    assert_eq!(
        calculate_new_rightmost_components(&chars(&["a", "b"]), &chars(&["a", "b"])),
        Vec::<usize>::new()
    );
    assert_eq!(
        calculate_new_rightmost_components(&chars(&["a", "b", "c"]), &chars(&["a"])),
        Vec::<usize>::new()
    );
    assert_eq!(
        calculate_new_rightmost_components(&chars(&["x"]), &chars(&["a", "b", "c"])),
        vec![1, 2, 3]
    );
    assert_eq!(
        calculate_new_rightmost_components(&chars(&["a", "x", "c"]), &chars(&["a", "b", "c"])),
        vec![2, 3]
    );
}

#[test]
fn the_first_duplicated_name_in_name_order_is_reported() {
    let input = vec![
        source("b", "/1"),
        source("a.txt", "/2"),
        source("b", "/3"),
        source("a/x", "/4"),
        source("a.txt", "/5"),
        source("c", "/6"),
        source("a/x", "/7"),
    ];
    match EntrySpecificationList::from_file_specs(input, no_prefix()) {
        Err(InputConsistencyError::DuplicateName(name, first, second)) => {
            assert_eq!(name.as_str(), "a/x");
            assert_eq!(first, "/4");
            assert_eq!(second, "/7");
        }
        other => panic!("unexpected: {:?}", other),
    }
}

#[test]
fn of_several_sources_of_one_name_the_first_two_are_reported() {
    let input = vec![
        source("z", "/0"),
        source("a", "/third-given-first"),
        source("b", "/1"),
        source("a", "/second"),
        source("a", "/last"),
    ];
    match EntrySpecificationList::from_file_specs(input, no_prefix()) {
        Err(InputConsistencyError::DuplicateName(name, first, second)) => {
            assert_eq!(name.as_str(), "a");
            assert_eq!(first, "/third-given-first");
            assert_eq!(second, "/second");
        }
        other => panic!("unexpected: {:?}", other),
    }
}

#[test]
fn sorting_keeps_sources_of_one_name_in_the_given_order() {
    let mut input: Vec<FileSource> = Vec::new();
    for i in 0..300u32 {
        let k = (i * 7919) % 300;
        input.push(source(&format!("n{}", k % 7), &format!("/{}", i)));
    }
    let given: Vec<(String, String)> = input
        .iter()
        .map(|f| (f.name.as_str().to_string(), f.source.clone()))
        .collect();
    assert!(EntrySpecificationList::sort_and_deduplicate(&mut input).is_err());
    for n in 0..7 {
        let name = format!("n{}", n);
        let before: Vec<&String> = given.iter().filter(|(m, _)| *m == name).map(|(_, s)| s).collect();
        let after: Vec<&String> = input
            .iter()
            .filter(|f| f.name.as_str() == name)
            .map(|f| &f.source)
            .collect();
        assert_eq!(before, after);
    }
    for pair in input.windows(2) {
        assert!(pair[0].name <= pair[1].name);
    }
}

#[test]
fn planning_the_files_of_a_plan_again_gives_the_same_listing() {
    let first = plan(
        &["b/2", "a/z/1", "c", "a/y", "b/1/x", "a", "a/z/0", "aa", "a.txt"],
        no_prefix(),
    );
    let mut again: Vec<FileSource> = Vec::new();
    for entry in first.0.iter() {
        if let ZipEntrySpecification::File(f) = entry {
            again.push(source(f.name.as_str(), &format!("/extracted/{}", f.name.as_str())));
        }
    }
    again.reverse();
    let second = EntrySpecificationList::from_file_specs(again, no_prefix()).unwrap();
    assert_eq!(names_of(&second), names_of(&first));
    let kind = |e: &ZipEntrySpecification| matches!(e, ZipEntrySpecification::File(_));
    let kinds_first: Vec<bool> = first.0.iter().map(kind).collect();
    let kinds_second: Vec<bool> = second.0.iter().map(kind).collect();
    assert_eq!(kinds_second, kinds_first);
}
