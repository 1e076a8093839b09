//! Character-level helpers shared by the rest of the crate.
//!
//! Strings are modelled by their sequence of `char`s. Everything that needs
//! to look inside a string first turns it into a `Vec<char>`, works on that,
//! and turns the result back into a `String` at the end. Splitting on a
//! separator and joining with one are defined here once, together with the
//! facts that make them inverse to each other.

use vstd::prelude::*;

verus! {

/// `String::push` appends exactly one character to the end of the string.
pub assume_specification[ String::push ](s: &mut String, c: char)
    ensures
        final(s)@ == old(s)@.push(c),
;

/// The characters of `s`, in order.
pub fn chars_of(s: &str) -> (out: Vec<char>)
    ensures
        out@ == s@,
{
    let mut out: Vec<char> = Vec::new();
    for c in it: s.chars()
        invariant
            it.seq() == s@,
            out@ == s@.take(it.index()),
    {
        out.push(c);
    }
    out
}

/// The string made of `chars`, in order.
pub fn string_of(chars: &Vec<char>) -> (out: String)
    ensures
        out@ == chars@,
{
    let mut out = String::new();
    let mut i: usize = 0;
    while i < chars.len()
        invariant
            i <= chars.len(),
            out@ == chars@.take(i as int),
        decreases chars.len() - i,
    {
        out.push(chars[i]);
        i += 1;
    }
    out
}

/// A copy of `chars`.
pub fn copy_chars(chars: &Vec<char>) -> (out: Vec<char>)
    ensures
        out@ == chars@,
{
    let mut out: Vec<char> = Vec::new();
    let mut i: usize = 0;
    while i < chars.len()
        invariant
            i <= chars.len(),
            out@ == chars@.take(i as int),
        decreases chars.len() - i,
    {
        out.push(chars[i]);
        i += 1;
    }
    out
}

/// The characters of `chars` from position `from` up to, not including, `to`.
pub fn sub_chars(chars: &Vec<char>, from: usize, to: usize) -> (out: Vec<char>)
    requires
        from <= to <= chars.len(),
    ensures
        out@ == chars@.subrange(from as int, to as int),
{
    let mut out: Vec<char> = Vec::new();
    let mut i: usize = from;
    while i < to
        invariant
            from <= i <= to <= chars.len(),
            out@ == chars@.subrange(from as int, i as int),
        decreases to - i,
    {
        out.push(chars[i]);
        proof {
            assert(chars@.subrange(from as int, i as int + 1) =~= chars@.subrange(
                from as int,
                i as int,
            ).push(chars@[i as int]));
        }
        i += 1;
    }
    out
}

/// The views of a sequence of strings.
pub open spec fn texts(v: Seq<String>) -> Seq<Seq<char>> {
    Seq::new(v.len(), |i: int| v[i]@)
}

/// The views of a sequence of character vectors.
pub open spec fn views(v: Seq<Vec<char>>) -> Seq<Seq<char>> {
    Seq::new(v.len(), |i: int| v[i]@)
}

/// `p` holds no occurrence of `sep`.
pub open spec fn sep_free(p: Seq<char>, sep: char) -> bool {
    forall|j: int| 0 <= j < p.len() ==> p[j] != sep
}

/// Every part of `parts` is free of `sep`.
pub open spec fn all_sep_free(parts: Seq<Seq<char>>, sep: char) -> bool {
    forall|i: int| 0 <= i < parts.len() ==> sep_free(#[trigger] parts[i], sep)
}

/// The pieces of `s` between occurrences of `sep`. There is always at least
/// one piece: the empty string splits into one empty piece, and `n`
/// separators give `n + 1` pieces.
pub open spec fn split_on(s: Seq<char>, sep: char) -> Seq<Seq<char>>
    decreases s.len(),
{
    if s.len() == 0 {
        seq![Seq::<char>::empty()]
    } else {
        let head = split_on(s.drop_last(), sep);
        if s.last() == sep {
            head.push(Seq::<char>::empty())
        } else {
            head.drop_last().push(head.last().push(s.last()))
        }
    }
}

/// The parts written one after another with `sep` between neighbours.
pub open spec fn join_with(parts: Seq<Seq<char>>, sep: char) -> Seq<char>
    decreases parts.len(),
{
    if parts.len() == 0 {
        Seq::<char>::empty()
    } else if parts.len() == 1 {
        parts[0]
    } else {
        join_with(parts.drop_last(), sep).push(sep) + parts.last()
    }
}

/// A split always yields at least one piece, and no piece holds the separator.
pub proof fn lemma_split_shape(s: Seq<char>, sep: char)
    ensures
        split_on(s, sep).len() >= 1,
        all_sep_free(split_on(s, sep), sep),
    decreases s.len(),
{
    if s.len() > 0 {
        lemma_split_shape(s.drop_last(), sep);
        let head = split_on(s.drop_last(), sep);
        if s.last() != sep {
            let out = split_on(s, sep);
            assert forall|i: int| 0 <= i < out.len() implies sep_free(#[trigger] out[i], sep) by {
                if i < out.len() - 1 {
                    assert(out[i] == head[i]);
                } else {
                    assert(sep_free(head.last(), sep));
                }
            }
        }
    }
}

/// A string without the separator is its own single piece.
pub proof fn lemma_split_sep_free(p: Seq<char>, sep: char)
    requires
        sep_free(p, sep),
    ensures
        split_on(p, sep) == seq![p],
    decreases p.len(),
{
    if p.len() == 0 {
        assert(p =~= Seq::<char>::empty());
    } else {
        lemma_split_sep_free(p.drop_last(), sep);
        assert(p.drop_last().push(p.last()) =~= p);
        assert(split_on(p, sep) =~= seq![p]);
    }
}

/// Splitting `a`, a separator, `b` gives the pieces of `a` followed by the
/// pieces of `b`.
pub proof fn lemma_split_concat(a: Seq<char>, b: Seq<char>, sep: char)
    ensures
        split_on(a.push(sep) + b, sep) == split_on(a, sep) + split_on(b, sep),
    decreases b.len(),
{
    let s = a.push(sep) + b;
    if b.len() == 0 {
        assert(s =~= a.push(sep));
        assert(s.drop_last() =~= a);
        assert(split_on(s, sep) =~= split_on(a, sep) + split_on(b, sep));
    } else {
        let b0 = b.drop_last();
        assert(s.drop_last() =~= a.push(sep) + b0);
        lemma_split_concat(a, b0, sep);
        lemma_split_shape(b0, sep);
        assert(s.last() == b.last());
        assert(split_on(s, sep) =~= split_on(a, sep) + split_on(b, sep));
    }
}

/// Joining the pieces of a split gives the string back.
pub proof fn lemma_join_split(s: Seq<char>, sep: char)
    ensures
        join_with(split_on(s, sep), sep) == s,
    decreases s.len(),
{
    if s.len() == 0 {
        assert(s =~= Seq::<char>::empty());
    } else {
        let s0 = s.drop_last();
        let head = split_on(s0, sep);
        lemma_join_split(s0, sep);
        lemma_split_shape(s0, sep);
        let out = split_on(s, sep);
        if s.last() == sep {
            assert(out.drop_last() =~= head);
            assert(join_with(out, sep) =~= s);
        } else {
            assert(s0.push(s.last()) =~= s);
            if head.len() == 1 {
                assert(out.len() == 1);
                assert(join_with(head, sep) == head[0]);
                assert(out[0] == head[0].push(s.last()));
            } else {
                assert(out.drop_last() =~= head.drop_last());
                assert(join_with(out, sep) =~= s);
            }
        }
    }
}

/// Splitting a join of separator-free parts gives the parts back.
pub proof fn lemma_split_join(parts: Seq<Seq<char>>, sep: char)
    requires
        parts.len() >= 1,
        all_sep_free(parts, sep),
    ensures
        split_on(join_with(parts, sep), sep) == parts,
    decreases parts.len(),
{
    if parts.len() == 1 {
        lemma_split_sep_free(parts[0], sep);
        assert(seq![parts[0]] =~= parts);
    } else {
        let init = parts.drop_last();
        assert forall|i: int| 0 <= i < init.len() implies sep_free(#[trigger] init[i], sep) by {
            assert(init[i] == parts[i]);
        }
        lemma_split_join(init, sep);
        lemma_split_concat(join_with(init, sep), parts.last(), sep);
        lemma_split_sep_free(parts.last(), sep);
        assert(init + seq![parts.last()] =~= parts);
    }
}

/// Joining two non-empty lists of parts one after the other is the join of
/// the first, a separator, and the join of the second.
pub proof fn lemma_join_concat(a: Seq<Seq<char>>, b: Seq<Seq<char>>, sep: char)
    requires
        a.len() >= 1,
        b.len() >= 1,
    ensures
        join_with(a + b, sep) == join_with(a, sep).push(sep) + join_with(b, sep),
    decreases b.len(),
{
    let ab = a + b;
    assert(ab.last() == b.last());
    if b.len() == 1 {
        assert(ab.drop_last() =~= a);
    } else {
        assert(ab.drop_last() =~= a + b.drop_last());
        lemma_join_concat(a, b.drop_last(), sep);
        assert(join_with(ab, sep) =~= join_with(a, sep).push(sep) + join_with(b, sep));
    }
}

/// A join starts with its first part; if there are more parts, a separator
/// follows directly.
pub proof fn lemma_join_starts(parts: Seq<Seq<char>>, sep: char)
    requires
        parts.len() >= 1,
    ensures
        join_with(parts, sep).len() >= parts[0].len(),
        forall|j: int| 0 <= j < parts[0].len() ==> join_with(parts, sep)[j] == parts[0][j],
        parts.len() >= 2 ==> join_with(parts, sep).len() > parts[0].len() && join_with(
            parts,
            sep,
        )[parts[0].len() as int] == sep,
    decreases parts.len(),
{
    if parts.len() >= 2 {
        let init = parts.drop_last();
        lemma_join_starts(init, sep);
        assert(init[0] == parts[0]);
    }
}

/// The first piece of a string that is not empty and does not start with the
/// separator is not empty.
pub proof fn lemma_split_first(s: Seq<char>, sep: char)
    requires
        s.len() > 0,
        s[0] != sep,
    ensures
        split_on(s, sep).len() >= 1,
        split_on(s, sep)[0].len() > 0,
{
    lemma_split_shape(s, sep);
    lemma_join_split(s, sep);
    lemma_join_starts(split_on(s, sep), sep);
}

/// The pieces of `s` between occurrences of `sep`.
pub fn split_chars(s: &Vec<char>, sep: char) -> (out: Vec<Vec<char>>)
    ensures
        views(out@) == split_on(s@, sep),
{
    let mut done: Vec<Vec<char>> = Vec::new();
    let mut cur: Vec<char> = Vec::new();
    let mut i: usize = 0;
    proof {
        assert(s@.take(0) =~= Seq::<char>::empty());
        assert(views(done@).push(cur@) =~= split_on(s@.take(0), sep));
    }
    while i < s.len()
        invariant
            i <= s.len(),
            views(done@).push(cur@) == split_on(s@.take(i as int), sep),
        decreases s.len() - i,
    {
        let c = s[i];
        proof {
            let t = s@.take(i as int + 1);
            assert(t.drop_last() =~= s@.take(i as int));
            assert(t.last() == c);
        }
        if c == sep {
            let ghost before = views(done@).push(cur@);
            done.push(cur);
            cur = Vec::new();
            proof {
                assert(views(done@) =~= before);
                assert(views(done@).push(cur@) =~= before.push(Seq::<char>::empty()));
            }
        } else {
            let ghost before = views(done@).push(cur@);
            cur.push(c);
            proof {
                assert(before.drop_last() =~= views(done@));
                assert(views(done@).push(cur@) =~= before.drop_last().push(before.last().push(c)));
            }
        }
        i += 1;
    }
    proof {
        assert(s@.take(i as int) =~= s@);
    }
    let ghost before = views(done@).push(cur@);
    done.push(cur);
    proof {
        assert(views(done@) =~= before);
    }
    done
}

/// The first `count` parts written one after another with `sep` between
/// neighbours.
pub fn join_chars(parts: &Vec<Vec<char>>, count: usize, sep: char) -> (out: Vec<char>)
    requires
        count <= parts.len(),
    ensures
        out@ == join_with(views(parts@).take(count as int), sep),
{
    let mut out: Vec<char> = Vec::new();
    let mut i: usize = 0;
    while i < count
        invariant
            i <= count <= parts.len(),
            out@ == join_with(views(parts@).take(i as int), sep),
        decreases count - i,
    {
        let ghost upto = views(parts@).take(i as int + 1);
        proof {
            assert(upto.drop_last() =~= views(parts@).take(i as int));
            assert(upto.last() == parts@[i as int]@);
        }
        if i > 0 {
            out.push(sep);
        }
        let part = &parts[i];
        let ghost base = out@;
        let mut j: usize = 0;
        while j < part.len()
            invariant
                j <= part.len(),
                out@ == base + part@.take(j as int),
            decreases part.len() - j,
        {
            out.push(part[j]);
            proof {
                assert(part@.take(j as int + 1) =~= part@.take(j as int).push(part@[j as int]));
            }
            j += 1;
        }
        proof {
            assert(part@.take(j as int) =~= part@);
            if i == 0 {
                assert(base =~= Seq::<char>::empty());
                assert(out@ =~= upto[0]);
            }
        }
        i += 1;
    }
    out
}

/// Appends copies of the first `count` parts of `src` to `dst`.
pub fn append_parts(dst: &mut Vec<Vec<char>>, src: &Vec<Vec<char>>, count: usize)
    requires
        count <= src.len(),
    ensures
        views(final(dst)@) == views(old(dst)@) + views(src@).take(count as int),
{
    let mut i: usize = 0;
    proof {
        assert(views(dst@) =~= views(old(dst)@) + views(src@).take(0));
    }
    while i < count
        invariant
            i <= count <= src.len(),
            views(dst@) == views(old(dst)@) + views(src@).take(i as int),
        decreases count - i,
    {
        let part = copy_chars(&src[i]);
        let ghost before = views(dst@);
        dst.push(part);
        proof {
            assert(views(dst@) =~= before.push(src@[i as int]@));
            assert(views(src@).take(i as int + 1) =~= views(src@).take(i as int).push(
                src@[i as int]@,
            ));
            assert(views(dst@) =~= views(old(dst)@) + views(src@).take(i as int + 1));
        }
        i += 1;
    }
}

} // verus!
