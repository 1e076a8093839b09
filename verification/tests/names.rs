use medusa_zip::name::{EntryName, FileSource, MedusaNameFormatError};
use medusa_zip::order::Rank;

fn name(text: &str) -> EntryName {
    EntryName::validate(text.to_string()).unwrap()
}

#[test]
fn validate_accepts_a_relative_path() {
    let n = name("a/b/c.txt");
    assert_eq!(n.as_str(), "a/b/c.txt");
    assert_eq!(n.into_string(), "a/b/c.txt");
}

#[test]
fn validate_accepts_a_single_dot() {
    assert_eq!(name(".").into_string(), ".");
}

#[test]
fn validate_accepts_names_beyond_ascii() {
    let n = name("données/été.txt");
    assert_eq!(n.all_components(), vec!["données".to_string(), "été.txt".to_string()]);
    assert_eq!(n.into_string(), "données/été.txt");
}

#[test]
fn validate_refuses_the_empty_name() {
    assert!(matches!(
        EntryName::validate(String::new()),
        Err(MedusaNameFormatError::NameIsEmpty)
    ));
}

#[test]
fn validate_refuses_a_leading_slash() {
    match EntryName::validate("/a".to_string()) {
        Err(MedusaNameFormatError::NameStartsWithSlash(s)) => assert_eq!(s, "/a"),
        other => panic!("unexpected: {:?}", other),
    }
}

#[test]
fn validate_refuses_a_leading_dot_slash() {
    match EntryName::validate("./a".to_string()) {
        Err(MedusaNameFormatError::NameStartsWithDotSlash(s)) => assert_eq!(s, "./a"),
        other => panic!("unexpected: {:?}", other),
    }
}

#[test]
fn validate_refuses_a_trailing_slash() {
    match EntryName::validate("a/".to_string()) {
        Err(MedusaNameFormatError::NameEndsWithSlash(s)) => assert_eq!(s, "a/"),
        other => panic!("unexpected: {:?}", other),
    }
}

#[test]
fn validate_refuses_a_double_slash() {
    match EntryName::validate("a//b".to_string()) {
        Err(MedusaNameFormatError::NameHasDoubleSlash(s)) => assert_eq!(s, "a//b"),
        other => panic!("unexpected: {:?}", other),
    }
}

#[test]
fn validate_reports_the_first_defect() {
    assert!(matches!(
        EntryName::validate("/a//b/".to_string()),
        Err(MedusaNameFormatError::NameStartsWithSlash(_))
    ));
    assert!(matches!(
        EntryName::validate("./a//b/".to_string()),
        Err(MedusaNameFormatError::NameStartsWithDotSlash(_))
    ));
    assert!(matches!(
        EntryName::validate("a//b/".to_string()),
        Err(MedusaNameFormatError::NameEndsWithSlash(_))
    ));
    assert!(matches!(
        EntryName::validate("/".to_string()),
        Err(MedusaNameFormatError::NameStartsWithSlash(_))
    ));
}

#[test]
fn components_are_the_pieces_between_slashes() {
    let n = name("a/b/c.txt");
    assert_eq!(
        n.all_components(),
        vec!["a".to_string(), "b".to_string(), "c.txt".to_string()]
    );
    assert_eq!(n.parent_components(), vec!["a".to_string(), "b".to_string()]);
    assert_eq!(name("x.txt").parent_components(), Vec::<String>::new());
}

#[test]
fn a_directory_comes_before_a_sibling_file_with_a_longer_name() {
    let dir_file = name("a/b");
    let sibling = name("a.txt");
    assert_eq!(dir_file.rank(&sibling), Rank::Before);
    assert_eq!(sibling.rank(&dir_file), Rank::After);
    assert!(dir_file < sibling);
    assert!("a.txt" < "a/b");
}

#[test]
fn a_name_comes_before_its_extensions() {
    assert_eq!(name("a").rank(&name("a/b")), Rank::Before);
    assert_eq!(name("a/b").rank(&name("a/b/c")), Rank::Before);
    assert_eq!(name("a/b/c").rank(&name("a/b")), Rank::After);
}

#[test]
fn names_are_ordered_by_code_point_within_a_component() {
    assert_eq!(name("a").rank(&name("b")), Rank::Before);
    assert_eq!(name("Z").rank(&name("a")), Rank::Before);
    assert_eq!(name("a").rank(&name("é")), Rank::Before);
    assert_eq!(name("ab").rank(&name("b")), Rank::Before);
}

#[test]
fn equal_names_rank_the_same() {
    let a = name("a/b");
    let b = name("a/b");
    assert_eq!(a.rank(&b), Rank::Same);
    assert!(a == b);
    assert!(a != name("a/c"));
    assert_eq!(a.partial_cmp(&b), Some(std::cmp::Ordering::Equal));
}

#[test]
fn the_order_is_total_and_transitive_on_a_sample() {
    let sample = ["a", "a/b", "a.txt", "a/b/c", "b", "a/c", "aa", "A", "a/b.txt"];
    for x in sample.iter() {
        for y in sample.iter() {
            let xy = name(x).rank(&name(y));
            let yx = name(y).rank(&name(x));
            match xy {
                Rank::Same => {
                    assert_eq!(x, y);
                    assert_eq!(yx, Rank::Same);
                }
                Rank::Before => assert_eq!(yx, Rank::After),
                Rank::After => assert_eq!(yx, Rank::Before),
            }
            for z in sample.iter() {
                if xy == Rank::Before && name(y).rank(&name(z)) == Rank::Before {
                    assert_eq!(name(x).rank(&name(z)), Rank::Before);
                }
            }
        }
    }
}

#[test]
fn add_prefix_joins_with_a_slash() {
    let mut n = name("x.txt");
    n.add_prefix(&name("lib/deps"));
    assert_eq!(n.as_str(), "lib/deps/x.txt");
    assert_eq!(
        n.all_components(),
        vec!["lib".to_string(), "deps".to_string(), "x.txt".to_string()]
    );
}

#[test]
fn from_parts_joins_the_leading_parts() {
    let parts: Vec<Vec<char>> = vec![
        "a".chars().collect(),
        "b".chars().collect(),
        "c.txt".chars().collect(),
    ];
    assert_eq!(EntryName::from_parts(&parts, 1).into_string(), "a");
    assert_eq!(EntryName::from_parts(&parts, 2).into_string(), "a/b");
    assert_eq!(EntryName::from_parts(&parts, 3).into_string(), "a/b/c.txt");
}

#[test]
fn duplicate_gives_an_equal_name() {
    let n = name("a/b");
    assert_eq!(n.duplicate().into_string(), "a/b");
}

#[test]
fn file_sources_are_ordered_by_name_alone() {
    let a = FileSource {
        name: name("a/b"),
        source: "/z".to_string(),
    };
    let b = FileSource {
        name: name("a.txt"),
        source: "/a".to_string(),
    };
    let c = FileSource {
        name: name("a/b"),
        source: "/other".to_string(),
    };
    assert!(a < b);
    assert!(b > c);
    assert_eq!(a.partial_cmp(&c), Some(std::cmp::Ordering::Equal));
    assert!(a != c);
    assert!(
        a == FileSource {
            name: name("a/b"),
            source: "/z".to_string(),
        }
    );
}

#[test]
fn names_put_together_have_no_empty_component() {
    let mut n = name("b/c.txt");
    n.add_prefix(&name("."));
    assert_eq!(n.as_str(), "./b/c.txt");
    for part in n.all_components() {
        assert!(!part.is_empty());
    }
}
