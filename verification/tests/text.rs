use medusa_zip::text::{
    append_parts, chars_of, copy_chars, join_chars, split_chars, string_of, sub_chars,
};

fn chars(text: &str) -> Vec<char> {
    text.chars().collect()
}

#[test]
fn chars_and_strings_convert_back_and_forth() {
    assert_eq!(chars_of("a/é"), vec!['a', '/', 'é']);
    assert_eq!(string_of(&vec!['a', '/', 'é']), "a/é");
    assert_eq!(string_of(&chars_of("")), "");
    assert_eq!(copy_chars(&chars("xyz")), chars("xyz"));
}

#[test]
fn split_gives_one_piece_more_than_separators() {
    assert_eq!(split_chars(&chars(""), '/'), vec![chars("")]);
    assert_eq!(split_chars(&chars("a"), '/'), vec![chars("a")]);
    assert_eq!(split_chars(&chars("a/b"), '/'), vec![chars("a"), chars("b")]);
    assert_eq!(
        split_chars(&chars("/a//b/"), '/'),
        vec![chars(""), chars("a"), chars(""), chars("b"), chars("")]
    );
}

#[test]
fn join_puts_the_separator_between_parts() {
    let parts = vec![chars("a"), chars("b"), chars("c")];
    assert_eq!(join_chars(&parts, 0, '/'), chars(""));
    assert_eq!(join_chars(&parts, 1, '/'), chars("a"));
    assert_eq!(join_chars(&parts, 2, '/'), chars("a/b"));
    assert_eq!(join_chars(&parts, 3, '/'), chars("a/b/c"));
}

#[test]
fn join_undoes_split() {
    for text in ["", "a", "a/b", "/a//b/", "x/y/z.txt"] {
        let parts = split_chars(&chars(text), '/');
        assert_eq!(join_chars(&parts, parts.len(), '/'), chars(text));
    }
}

#[test]
fn sub_chars_takes_a_range() {
    assert_eq!(sub_chars(&chars("+a/b/"), 1, 4), chars("a/b"));
    assert_eq!(sub_chars(&chars("abc"), 1, 1), chars(""));
}

#[test]
fn append_parts_copies_the_leading_parts() {
    let mut dst = vec![chars("p")];
    append_parts(&mut dst, &vec![chars("a"), chars("b")], 1);
    assert_eq!(dst, vec![chars("p"), chars("a")]);
}
