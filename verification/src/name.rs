//! Entry names: validated archive-internal paths.
//!
//! An entry name is a relative path with `/` between its components. It is
//! modelled by its characters; its components are the pieces between the
//! slashes. Names are ordered component by component, so that `a/b` comes
//! before `a.txt`: a directory's content stays together and ahead of the
//! sibling files whose names merely extend the directory's name.

use vstd::prelude::*;
use std::cmp::Ordering;
use crate::order::{
    lemma_parts_asymmetric, lemma_parts_irreflexive, lemma_parts_total, lemma_parts_transitive,
    parts_lt, parts_rank, rank_parts, Rank,
};
use crate::text::{
    all_sep_free, append_parts, chars_of, copy_chars, join_chars, join_with, lemma_join_concat,
    lemma_join_split, lemma_join_starts, lemma_split_first, lemma_split_join, lemma_split_shape,
    sep_free, split_chars, split_on, string_of, texts, views,
};

verus! {

/// The components of the name `s`.
pub open spec fn components_of(s: Seq<char>) -> Seq<Seq<char>> {
    split_on(s, '/')
}

/// The name whose components are `parts`.
pub open spec fn name_of(parts: Seq<Seq<char>>) -> Seq<char> {
    join_with(parts, '/')
}

/// `s` starts with `./`.
pub open spec fn starts_with_dot_slash(s: Seq<char>) -> bool {
    s.len() >= 2 && s[0] == '.' && s[1] == '/'
}

/// `s` holds two slashes in a row.
pub open spec fn has_double_slash(s: Seq<char>) -> bool {
    exists|i: int| 0 <= i < s.len() - 1 && s[i] == '/' && #[trigger] s[i + 1] == '/'
}

/// What validation accepts: a non-empty relative path that neither starts
/// with `/` or `./`, nor ends with `/`, nor holds `//`.
pub open spec fn valid_name(s: Seq<char>) -> bool {
    &&& s.len() > 0
    &&& s[0] != '/'
    &&& !starts_with_dot_slash(s)
    &&& s.last() != '/'
    &&& !has_double_slash(s)
}

/// What a component of an entry name is: not empty, and without a slash.
pub open spec fn part_ok(p: Seq<char>) -> bool {
    p.len() > 0 && sep_free(p, '/')
}

/// What a list of components must be to form an entry name: at least one
/// component, and each of them not empty and without a slash.
pub open spec fn well_formed_parts(parts: Seq<Seq<char>>) -> bool {
    parts.len() >= 1 && forall|i: int| 0 <= i < parts.len() ==> part_ok(#[trigger] parts[i])
}

/// What every entry name is, validated or put together from validated
/// names: none of its components is empty. So it is not empty, neither
/// starts nor ends with `/`, and holds no `//`.
pub open spec fn well_formed(s: Seq<char>) -> bool {
    well_formed_parts(components_of(s))
}

/// The name neither is empty, nor starts or ends with `/`, nor holds `//`.
pub open spec fn well_separated(s: Seq<char>) -> bool {
    &&& s.len() > 0
    &&& s[0] != '/'
    &&& s.last() != '/'
    &&& !has_double_slash(s)
}

/// The name `s` comes strictly before the name `t`, component by component.
pub open spec fn name_lt(s: Seq<char>, t: Seq<char>) -> bool {
    parts_lt(components_of(s), components_of(t))
}

/// Why a name was refused.
#[derive(Debug)]
pub enum MedusaNameFormatError {
    /// The name is empty.
    NameIsEmpty,
    /// The name starts with `/`.
    NameStartsWithSlash(String),
    /// The name starts with `./`.
    NameStartsWithDotSlash(String),
    /// The name ends with `/`.
    NameEndsWithSlash(String),
    /// The name holds `//`.
    NameHasDoubleSlash(String),
}

impl MedusaNameFormatError {
    /// This error is the one that validation gives for `s`: the first of the
    /// five defects that `s` has, carrying `s` itself.
    pub open spec fn refuses(&self, s: Seq<char>) -> bool {
        match self {
            MedusaNameFormatError::NameIsEmpty => s.len() == 0,
            MedusaNameFormatError::NameStartsWithSlash(t) => t@ == s && s.len() > 0 && s[0] == '/',
            MedusaNameFormatError::NameStartsWithDotSlash(t) => t@ == s && starts_with_dot_slash(s),
            MedusaNameFormatError::NameEndsWithSlash(t) => {
                &&& t@ == s
                &&& s.len() > 0
                &&& s[0] != '/'
                &&& !starts_with_dot_slash(s)
                &&& s.last() == '/'
            },
            MedusaNameFormatError::NameHasDoubleSlash(t) => {
                &&& t@ == s
                &&& s.len() > 0
                &&& s[0] != '/'
                &&& !starts_with_dot_slash(s)
                &&& s.last() != '/'
                &&& has_double_slash(s)
            },
        }
    }
}

/// In a string that does not start with `/` and holds no `//`, every piece
/// between slashes but the last is not empty; the last is not empty either
/// unless the string is empty or ends with `/`.
proof fn lemma_pieces_not_empty(s: Seq<char>)
    requires
        s.len() == 0 || s[0] != '/',
        !has_double_slash(s),
    ensures
        forall|i: int| 0 <= i < components_of(s).len() - 1 ==> (#[trigger] components_of(s)[i]).len() > 0,
        s.len() > 0 && s.last() != '/' ==> components_of(s).last().len() > 0,
    decreases s.len(),
{
    if s.len() > 0 {
        let init = s.drop_last();
        assert(!has_double_slash(init)) by {
            if has_double_slash(init) {
                let i = choose|i: int|
                    0 <= i < init.len() - 1 && init[i] == '/' && #[trigger] init[i + 1] == '/';
                assert(s[i] == '/' && #[trigger] s[i + 1] == '/');
            }
        }
        lemma_pieces_not_empty(init);
        lemma_split_shape(init, '/');
        let head = components_of(init);
        let out = components_of(s);
        if s.last() == '/' {
            assert(init.len() > 0);
            assert(init.last() != '/') by {
                if init.last() == '/' {
                    let i = s.len() - 2;
                    assert(s[i] == '/' && #[trigger] s[i + 1] == '/');
                }
            }
            assert forall|i: int| 0 <= i < out.len() - 1 implies (#[trigger] out[i]).len() > 0 by {
                assert(out[i] == head[i]);
            }
        } else {
            assert forall|i: int| 0 <= i < out.len() - 1 implies (#[trigger] out[i]).len() > 0 by {
                assert(out[i] == head[i]);
            }
        }
    }
}

/// A name that neither is empty, nor starts or ends with `/`, nor holds
/// `//` is well-formed. Every name that validation accepts is such a name.
pub proof fn lemma_well_separated_is_well_formed(s: Seq<char>)
    requires
        well_separated(s),
    ensures
        well_formed(s),
{
    lemma_pieces_not_empty(s);
    lemma_split_shape(s, '/');
    let parts = components_of(s);
    assert forall|i: int| 0 <= i < parts.len() implies part_ok(#[trigger] parts[i]) by {
        if i == parts.len() - 1 {
            assert(parts[i] == parts.last());
        }
    }
}

/// The pieces of a leading part of a string, but for the last of them, are
/// pieces of the whole string, at the same places.
proof fn lemma_pieces_persist(s: Seq<char>, k: int)
    requires
        0 <= k <= s.len(),
    ensures
        components_of(s.take(k)).len() <= components_of(s).len(),
        forall|j: int|
            0 <= j < components_of(s.take(k)).len() - 1 ==> components_of(s)[j] == components_of(
                s.take(k),
            )[j],
    decreases s.len(),
{
    if k == s.len() {
        assert(s.take(k) =~= s);
    } else {
        let init = s.drop_last();
        assert(init.take(k) =~= s.take(k));
        lemma_pieces_persist(init, k);
        lemma_split_shape(init, '/');
        lemma_split_shape(s.take(k), '/');
        let head = components_of(init);
        let out = components_of(s);
        assert forall|j: int| 0 <= j < components_of(s.take(k)).len() - 1 implies out[j]
            == components_of(s.take(k))[j] by {
            assert(out[j] == head[j]);
        }
    }
}

/// A well-formed name neither is empty, nor starts or ends with `/`, nor
/// holds `//`.
pub proof fn lemma_well_formed_is_well_separated(s: Seq<char>)
    requires
        well_formed(s),
    ensures
        well_separated(s),
{
    let parts = components_of(s);
    lemma_join_split(s, '/');
    lemma_join_starts(parts, '/');
    assert(part_ok(parts[0]));
    assert(s[0] == parts[0][0]);
    assert(s.last() != '/') by {
        if s.last() == '/' {
            lemma_split_shape(s.drop_last(), '/');
            assert(parts.last().len() == 0);
            assert(part_ok(parts[parts.len() - 1]));
        }
    }
    if has_double_slash(s) {
        let i = choose|i: int| 0 <= i < s.len() - 1 && s[i] == '/' && #[trigger] s[i + 1] == '/';
        let two = s.take(i + 2);
        let one = two.drop_last();
        assert(one =~= s.take(i + 1));
        assert(two.last() == '/');
        assert(one.last() == '/');
        lemma_split_shape(one.drop_last(), '/');
        lemma_split_shape(one, '/');
        let at = components_of(two).len() - 2;
        assert(components_of(one).last().len() == 0);
        assert(components_of(two)[at] == components_of(one).last());
        lemma_pieces_persist(s, i + 2);
        assert(parts[at] == components_of(two)[at]);
        assert(part_ok(parts[at]));
    }
}

/// The components of a well-formed name are well-formed parts, and the name
/// is their join.
pub proof fn lemma_components_well_formed(s: Seq<char>)
    requires
        well_formed(s),
    ensures
        well_formed_parts(components_of(s)),
        name_of(components_of(s)) == s,
{
    lemma_join_split(s, '/');
}

/// The join of well-formed parts is a well-formed name, and its components
/// are the parts.
pub proof fn lemma_name_of_well_formed(parts: Seq<Seq<char>>)
    requires
        well_formed_parts(parts),
    ensures
        well_formed(name_of(parts)),
        components_of(name_of(parts)) == parts,
{
    lemma_split_join(parts, '/');
}

/// Names with the same components are the same name.
pub proof fn law_components_tell_names_apart(s: Seq<char>, t: Seq<char>)
    requires
        components_of(s) == components_of(t),
    ensures
        s == t,
{
    lemma_join_split(s, '/');
    lemma_join_split(t, '/');
}

/// The order of names is a strict total order: no name comes before
/// itself, of two different names exactly one comes before the other, and
/// what comes before a name comes before everything after that name.
pub proof fn law_name_order(s: Seq<char>, t: Seq<char>, u: Seq<char>)
    ensures
        !name_lt(s, s),
        s == t || name_lt(s, t) || name_lt(t, s),
        !(name_lt(s, t) && name_lt(t, s)),
        name_lt(s, t) && name_lt(t, u) ==> name_lt(s, u),
{
    lemma_parts_irreflexive(components_of(s));
    lemma_parts_total(components_of(s), components_of(t));
    if components_of(s) == components_of(t) {
        law_components_tell_names_apart(s, t);
    }
    if name_lt(s, t) {
        lemma_parts_asymmetric(components_of(s), components_of(t));
        if name_lt(t, u) {
            lemma_parts_transitive(components_of(s), components_of(t), components_of(u));
        }
    }
}

/// An archive-internal path: one that validation has accepted, or one put
/// together from such paths. Its components are kept beside it.
#[derive(Debug)]
pub struct EntryName {
    name: String,
    components: Vec<Vec<char>>,
}

impl View for EntryName {
    type V = Seq<char>;

    closed spec fn view(&self) -> Seq<char> {
        self.name@
    }
}

impl EntryName {
    /// The name is well-formed, and the components kept beside it are its
    /// components.
    #[verifier::type_invariant]
    spec fn cached(&self) -> bool {
        well_formed(self.name@) && views(self.components@) == components_of(self.name@)
    }

    /// The components of this name.
    pub open spec fn components(&self) -> Seq<Seq<char>> {
        components_of(self@)
    }

    /// Checks `name` and, if it is acceptable, makes it an entry name.
    ///
    /// A name is refused for the first of these that holds: it is empty; it
    /// starts with `/`; it starts with `./`; it ends with `/`; it holds `//`.
    pub fn validate(name: String) -> (r: Result<EntryName, MedusaNameFormatError>)
        ensures
            match r {
                Ok(n) => valid_name(name@) && n@ == name@,
                Err(e) => !valid_name(name@) && e.refuses(name@),
            },
    {
        let chars = chars_of(name.as_str());
        let n = chars.len();
        if n == 0 {
            return Err(MedusaNameFormatError::NameIsEmpty);
        }
        if chars[0] == '/' {
            return Err(MedusaNameFormatError::NameStartsWithSlash(name));
        }
        if n >= 2 && chars[0] == '.' && chars[1] == '/' {
            return Err(MedusaNameFormatError::NameStartsWithDotSlash(name));
        }
        if chars[n - 1] == '/' {
            return Err(MedusaNameFormatError::NameEndsWithSlash(name));
        }
        let mut i: usize = 0;
        while i + 1 < n
            invariant
                chars@ == name@,
                n == chars.len(),
                i < n,
                name@[0] != '/',
                !starts_with_dot_slash(name@),
                name@.last() != '/',
                forall|j: int| 0 <= j < i ==> !(chars@[j] == '/' && #[trigger] chars@[j + 1] == '/'),
            decreases n - i,
        {
            if chars[i] == '/' && chars[i + 1] == '/' {
                proof {
                    let k = i as int;
                    assert(name@[k] == '/' && #[trigger] name@[k + 1] == '/');
                    assert(has_double_slash(name@));
                }
                return Err(MedusaNameFormatError::NameHasDoubleSlash(name));
            }
            i += 1;
        }
        let components = split_chars(&chars, '/');
        proof {
            lemma_well_separated_is_well_formed(name@);
        }
        Ok(EntryName { name, components })
    }

    /// The entry name whose components are the first `count` of `parts`.
    pub fn from_parts(parts: &Vec<Vec<char>>, count: usize) -> (n: EntryName)
        requires
            1 <= count <= parts.len(),
            well_formed_parts(views(parts@)),
        ensures
            n@ == name_of(views(parts@).take(count as int)),
            n.components() == views(parts@).take(count as int),
    {
        let ghost taken = views(parts@).take(count as int);
        proof {
            assert(well_formed_parts(taken)) by {
                assert forall|i: int| 0 <= i < taken.len() implies part_ok(#[trigger] taken[i]) by {
                    assert(taken[i] == views(parts@)[i]);
                }
            }
            lemma_name_of_well_formed(taken);
        }
        let chars = join_chars(parts, count, '/');
        let mut components: Vec<Vec<char>> = Vec::new();
        let mut i: usize = 0;
        while i < count
            invariant
                i <= count <= parts.len(),
                views(components@) == views(parts@).take(i as int),
            decreases count - i,
        {
            let part = copy_chars(&parts[i]);
            let ghost before = views(components@);
            components.push(part);
            proof {
                assert(views(components@) =~= before.push(parts@[i as int]@));
                assert(views(parts@).take(i as int + 1) =~= views(parts@).take(i as int).push(
                    parts@[i as int]@,
                ));
            }
            i += 1;
        }
        let name = string_of(&chars);
        EntryName { name, components }
    }

    /// The name as a string. It is not empty, neither starts nor ends with
    /// `/`, and holds no `//`.
    pub fn into_string(self) -> (s: String)
        ensures
            s@ == self@,
            well_formed(s@),
            well_separated(s@),
    {
        proof {
            use_type_invariant(&self);
            lemma_well_formed_is_well_separated(self@);
        }
        self.name
    }

    /// The name as a string slice. It is not empty, neither starts nor ends
    /// with `/`, and holds no `//`.
    pub fn as_str(&self) -> (s: &str)
        ensures
            s@ == self@,
            well_formed(s@),
            well_separated(s@),
    {
        proof {
            use_type_invariant(self);
            lemma_well_formed_is_well_separated(self@);
        }
        self.name.as_str()
    }

    /// The cached components, each as its characters.
    pub fn parts(&self) -> (parts: &Vec<Vec<char>>)
        ensures
            views(parts@) == self.components(),
            well_formed(self@),
            well_formed_parts(views(parts@)),
    {
        proof {
            use_type_invariant(self);
            lemma_components_well_formed(self@);
        }
        &self.components
    }

    /// A copy of this name.
    pub fn duplicate(&self) -> (n: EntryName)
        ensures
            n@ == self@,
    {
        let parts = self.parts();
        let n = EntryName::from_parts(parts, parts.len());
        proof {
            assert(views(parts@).take(parts.len() as int) =~= views(parts@));
            lemma_components_well_formed(self@);
        }
        n
    }

    /// Puts `prefix` and a slash in front of this name.
    pub fn add_prefix(&mut self, prefix: &EntryName)
        ensures
            final(self)@ == prefix@.push('/') + old(self)@,
            final(self).components() == prefix.components() + old(self).components(),
    {
        let before = self.parts();
        let front = prefix.parts();
        let ghost a = components_of(prefix@);
        let ghost b = components_of(self@);
        let mut all: Vec<Vec<char>> = Vec::new();
        append_parts(&mut all, front, front.len());
        append_parts(&mut all, before, before.len());
        proof {
            assert(views(front@).take(front.len() as int) =~= a);
            assert(views(before@).take(before.len() as int) =~= b);
            assert(views(all@) =~= a + b);
            lemma_components_well_formed(prefix@);
            lemma_components_well_formed(old(self)@);
            assert forall|i: int| 0 <= i < views(all@).len() implies part_ok(
                #[trigger] views(all@)[i],
            ) by {
                if i < a.len() {
                    assert(views(all@)[i] == a[i]);
                } else {
                    assert(views(all@)[i] == b[i - a.len()]);
                }
            }
            lemma_components_well_formed(prefix@);
            lemma_components_well_formed(self@);
            lemma_join_concat(a, b, '/');
            assert(views(all@).take(all.len() as int) =~= a + b);
        }
        let joined = EntryName::from_parts(&all, all.len());
        *self = joined;
    }

    /// The components of this name, in order.
    pub fn all_components(&self) -> (out: Vec<String>)
        ensures
            texts(out@) == self.components(),
    {
        let parts = self.parts();
        let mut out: Vec<String> = Vec::new();
        let mut i: usize = 0;
        while i < parts.len()
            invariant
                i <= parts.len(),
                texts(out@) == views(parts@).take(i as int),
            decreases parts.len() - i,
        {
            let ghost before = texts(out@);
            let part = string_of(&parts[i]);
            out.push(part);
            proof {
                assert(texts(out@) =~= before.push(parts@[i as int]@));
                assert(views(parts@).take(i as int + 1) =~= views(parts@).take(i as int).push(
                    parts@[i as int]@,
                ));
            }
            i += 1;
        }
        proof {
            assert(views(parts@).take(parts.len() as int) =~= views(parts@));
        }
        out
    }

    /// The components of the directory that holds this entry: all but the
    /// last, in order.
    pub fn parent_components(&self) -> (out: Vec<String>)
        ensures
            texts(out@) == self.components().drop_last(),
    {
        let parts = self.parts();
        let mut out: Vec<String> = Vec::new();
        let mut i: usize = 0;
        while i + 1 < parts.len()
            invariant
                i < parts.len(),
                texts(out@) == views(parts@).take(i as int),
            decreases parts.len() - i,
        {
            let ghost before = texts(out@);
            let part = string_of(&parts[i]);
            out.push(part);
            proof {
                assert(texts(out@) =~= before.push(parts@[i as int]@));
                assert(views(parts@).take(i as int + 1) =~= views(parts@).take(i as int).push(
                    parts@[i as int]@,
                ));
            }
            i += 1;
        }
        proof {
            assert(views(parts@).take(parts.len() as int - 1) =~= views(parts@).drop_last());
        }
        out
    }

    /// How this name stands to `other` in the component-wise order.
    pub fn rank(&self, other: &EntryName) -> (r: Rank)
        ensures
            r == parts_rank(self.components(), other.components()),
            (r == Rank::Same) == (self@ == other@),
            (r == Rank::Before) == name_lt(self@, other@),
            (r == Rank::After) == name_lt(other@, self@),
    {
        let a = self.parts();
        let b = other.parts();
        proof {
            lemma_components_well_formed(self@);
            lemma_components_well_formed(other@);
            lemma_parts_total(self.components(), other.components());
            if parts_lt(self.components(), other.components()) {
                lemma_parts_asymmetric(self.components(), other.components());
            }
            if parts_lt(other.components(), self.components()) {
                lemma_parts_asymmetric(other.components(), self.components());
            }
        }
        rank_parts(a, b)
    }
}

/// An entry name together with the file that holds the entry's content.
#[derive(Debug)]
pub struct FileSource {
    /// The name of the entry in the archive.
    pub name: EntryName,
    /// The path of the file on disk.
    pub source: String,
}

impl PartialEq for EntryName {
    fn eq(&self, other: &Self) -> (r: bool) {
        match self.rank(other) {
            Rank::Same => true,
            _ => false,
        }
    }
}

impl Eq for EntryName {

}

impl vstd::std_specs::cmp::PartialEqSpecImpl for EntryName {
    open spec fn obeys_eq_spec() -> bool {
        true
    }

    open spec fn eq_spec(&self, other: &Self) -> bool {
        self@ == other@
    }
}

impl PartialOrd for EntryName {
    fn partial_cmp(&self, other: &Self) -> (r: Option<Ordering>) {
        match self.rank(other) {
            Rank::Before => Some(Ordering::Less),
            Rank::Same => Some(Ordering::Equal),
            Rank::After => Some(Ordering::Greater),
        }
    }
}

impl vstd::std_specs::cmp::PartialOrdSpecImpl for EntryName {
    open spec fn obeys_partial_cmp_spec() -> bool {
        true
    }

    open spec fn partial_cmp_spec(&self, other: &Self) -> Option<Ordering> {
        if self@ == other@ {
            Some(Ordering::Equal)
        } else if name_lt(self@, other@) {
            Some(Ordering::Less)
        } else {
            Some(Ordering::Greater)
        }
    }
}

impl PartialEq for FileSource {
    fn eq(&self, other: &Self) -> (r: bool) {
        self.name == other.name && self.source == other.source
    }
}

impl Eq for FileSource {

}

impl vstd::std_specs::cmp::PartialEqSpecImpl for FileSource {
    open spec fn obeys_eq_spec() -> bool {
        true
    }

    open spec fn eq_spec(&self, other: &Self) -> bool {
        self.name@ == other.name@ && self.source@ == other.source@
    }
}

/// File sources are ordered by their names alone, so that they can be
/// sorted by name without looking at their paths.
impl PartialOrd for FileSource {
    fn partial_cmp(&self, other: &Self) -> (r: Option<Ordering>) {
        self.name.partial_cmp(&other.name)
    }
}

impl vstd::std_specs::cmp::PartialOrdSpecImpl for FileSource {
    open spec fn obeys_partial_cmp_spec() -> bool {
        true
    }

    open spec fn partial_cmp_spec(&self, other: &Self) -> Option<Ordering> {
        if self.name@ == other.name@ {
            Some(Ordering::Equal)
        } else if name_lt(self.name@, other.name@) {
            Some(Ordering::Less)
        } else {
            Some(Ordering::Greater)
        }
    }
}

} // verus!
