//! The entry plan: which entries an archive gets, and in which order.
//!
//! The file sources are sorted by name and checked for duplicates. Then the
//! plan is laid out: first one directory for each level of the prefix that
//! the archive shows as its own, then the files in order, each preceded by
//! the directories that lead to it and were not already open for the file
//! before it.

use vstd::prelude::*;
use vstd::seq_lib::group_to_multiset_ensures;
use std::cmp::Ordering;
use rayon::slice::ParallelSliceMut;
use crate::name::{
    components_of, name_lt, name_of, part_ok, starts_with_dot_slash, valid_name, well_formed,
    well_formed_parts, EntryName, FileSource, MedusaNameFormatError,
};
use crate::order::{
    lemma_parts_asymmetric, lemma_parts_irreflexive, lemma_parts_transitive, lemma_shared_len_at,
    rank_chars, shared_len, Rank,
};
use crate::plan_laws::law_plan_shape;
use crate::text::{append_parts, join_chars, lemma_join_starts, string_of, views};

verus! {

/// A silent prefix and a prefix that shows as directories, for every entry.
#[derive(Debug)]
pub struct EntryModifications {
    /// Put in front of every entry, without directory entries of its own.
    /// It always comes before `own_prefix`.
    pub silent_external_prefix: Option<String>,
    /// Put in front of every entry, with one directory entry per level.
    pub own_prefix: Option<String>,
}

/// Why the inputs do not make a plan.
#[derive(Debug)]
pub enum InputConsistencyError {
    /// Two sources have this name; their paths follow.
    DuplicateName(EntryName, String, String),
    /// A prefix is not an acceptable name.
    NameFormat(MedusaNameFormatError),
}

/// One entry of the plan.
#[derive(Debug)]
pub enum ZipEntrySpecification {
    /// A file, read from its source.
    File(FileSource),
    /// A directory, which exists only in the archive.
    Directory(EntryName),
}

/// A plan entry by what it holds: names and paths as character sequences.
pub enum PlanItem {
    File { name: Seq<char>, source: Seq<char> },
    Directory { name: Seq<char> },
}

impl PlanItem {
    /// The entry's name.
    pub open spec fn name(self) -> Seq<char> {
        match self {
            PlanItem::File { name, .. } => name,
            PlanItem::Directory { name } => name,
        }
    }
}

impl View for ZipEntrySpecification {
    type V = PlanItem;

    open spec fn view(&self) -> PlanItem {
        match self {
            ZipEntrySpecification::File(f) => PlanItem::File { name: f.name@, source: f.source@ },
            ZipEntrySpecification::Directory(n) => PlanItem::Directory { name: n@ },
        }
    }
}

/// The plan entries by what they hold.
pub open spec fn plan_view(entries: Seq<ZipEntrySpecification>) -> Seq<PlanItem> {
    Seq::new(entries.len(), |i: int| entries[i]@)
}

/// Two of the sources have the same name.
pub open spec fn has_duplicate_names(s: Seq<FileSource>) -> bool {
    exists|i: int, j: int| 0 <= i < j < s.len() && s[i].name@ == s[j].name@
}

/// No source comes before an earlier one.
pub open spec fn sorted_by_name(s: Seq<FileSource>) -> bool {
    forall|i: int, j: int| 0 <= i < j < s.len() ==> !name_lt(s[j].name@, s[i].name@)
}

/// Each source comes strictly before every later one.
pub open spec fn strictly_sorted(s: Seq<FileSource>) -> bool {
    forall|i: int, j: int| 0 <= i < j < s.len() ==> name_lt(s[i].name@, s[j].name@)
}

/// `sorted` holds the sources of `input`, each as often, in name order.
pub open spec fn arranged(input: Seq<FileSource>, sorted: Seq<FileSource>) -> bool {
    sorted.to_multiset() == input.to_multiset() && strictly_sorted(sorted)
}

/// The components of a plan entry's name.
pub open spec fn item_parts(x: PlanItem) -> Seq<Seq<char>> {
    components_of(x.name())
}

/// The two prefixes together are no components at all, or they form a name.
pub open spec fn prefix_ok(silent: Seq<Seq<char>>, own: Seq<Seq<char>>) -> bool {
    (silent + own).len() == 0 || well_formed_parts(silent + own)
}

/// Every source has a well-formed name, as every `EntryName` is.
pub open spec fn names_well_formed(files: Seq<FileSource>) -> bool {
    forall|i: int| 0 <= i < files.len() ==> well_formed(#[trigger] files[i].name@)
}

/// No entry of the plan comes before an earlier one.
pub open spec fn name_sorted(plan: Seq<PlanItem>) -> bool {
    forall|i: int, j: int|
        #![trigger plan[i], plan[j]]
        0 <= i < j < plan.len() ==> !name_lt(plan[j].name(), plan[i].name())
}

/// No directory of the plan has the name of a later entry.
pub open spec fn directories_once(plan: Seq<PlanItem>) -> bool {
    forall|i: int, j: int|
        #![trigger plan[i], plan[j]]
        0 <= i < j < plan.len() && plan[i] is Directory ==> plan[i].name() != plan[j].name()
}

/// A directory of this name stands in the plan before place `x`.
pub open spec fn has_directory_before(plan: Seq<PlanItem>, x: int, name: Seq<char>) -> bool {
    exists|d: int| 0 <= d < x && #[trigger] plan[d] == (PlanItem::Directory { name })
}

/// Every file of the plan comes after a directory for each leading part of
/// its name that has more than `silent_len` components.
pub open spec fn directories_before_files(plan: Seq<PlanItem>, silent_len: int) -> bool {
    forall|x: int, m: int|
        0 <= x < plan.len() && plan[x] is File && silent_len < m < item_parts(plan[x]).len()
            ==> #[trigger] has_directory_before(plan, x, name_of(item_parts(plan[x]).take(m)))
}

/// The sources named `n`, in the order in which they stand in `s`.
pub open spec fn with_name(s: Seq<FileSource>, n: Seq<char>) -> Seq<FileSource>
    decreases s.len(),
{
    if s.len() == 0 {
        s
    } else if s.last().name@ == n {
        with_name(s.drop_last(), n).push(s.last())
    } else {
        with_name(s.drop_last(), n)
    }
}

/// Place `k` is the first whose source has the same name as the source
/// before it.
pub open spec fn first_repeat(s: Seq<FileSource>, k: int) -> bool {
    &&& 1 <= k < s.len()
    &&& s[k - 1].name@ == s[k].name@
    &&& forall|m: int| 1 <= m < k ==> (#[trigger] s[m]).name@ != s[m - 1].name@
}

impl InputConsistencyError {
    /// This error names the duplicate in `s`: the reported name is the first
    /// in name order that two sources share, and the two reported paths are
    /// those of the first and of the second source of that name, in the
    /// order in which the sources stand in `s`.
    pub open spec fn reports_duplicate_in(&self, s: Seq<FileSource>) -> bool {
        match self {
            InputConsistencyError::DuplicateName(n, p, q) => {
                &&& with_name(s, n@).len() >= 2
                &&& p@ == with_name(s, n@)[0].source@
                &&& q@ == with_name(s, n@)[1].source@
                &&& forall|i: int, j: int|
                    #![trigger s[i], s[j]]
                    0 <= i < s.len() && 0 <= j < s.len() && i != j && s[i].name@ == s[j].name@
                        ==> !name_lt(s[i].name@, n@)
            },
            InputConsistencyError::NameFormat(_) => false,
        }
    }

    /// This error reports the sources at the places `k - 1` and `k` of `s`:
    /// the name of both, the path of the first, and the path of the second.
    pub open spec fn reports_repeat_at(&self, s: Seq<FileSource>, k: int) -> bool {
        match self {
            InputConsistencyError::DuplicateName(n, p, q) => {
                &&& n@ == s[k].name@
                &&& p@ == s[k - 1].source@
                &&& q@ == s[k].source@
            },
            InputConsistencyError::NameFormat(_) => false,
        }
    }
}

/// The sources of a given name in two sequences, one after the other, are
/// those in the first followed by those in the second.
proof fn lemma_with_name_add(a: Seq<FileSource>, b: Seq<FileSource>, n: Seq<char>)
    ensures
        with_name(a + b, n) == with_name(a, n) + with_name(b, n),
    decreases b.len(),
{
    if b.len() == 0 {
        assert(a + b =~= a);
        assert(with_name(a, n) + with_name(b, n) =~= with_name(a, n));
    } else {
        let ab = a + b;
        assert(ab.drop_last() =~= a + b.drop_last());
        assert(ab.last() == b.last());
        lemma_with_name_add(a, b.drop_last(), n);
        assert(with_name(ab, n) =~= with_name(a, n) + with_name(b, n));
    }
}

/// Where no source has a given name, there are no sources of that name.
proof fn lemma_with_name_none(a: Seq<FileSource>, n: Seq<char>)
    requires
        forall|i: int| 0 <= i < a.len() ==> (#[trigger] a[i]).name@ != n,
    ensures
        with_name(a, n).len() == 0,
    decreases a.len(),
{
    if a.len() > 0 {
        let init = a.drop_last();
        assert forall|i: int| 0 <= i < init.len() implies (#[trigger] init[i]).name@ != n by {
            assert(init[i] == a[i]);
        }
        lemma_with_name_none(init, n);
        assert(a.last() == a[a.len() - 1]);
    }
}

/// A value that occurs at two places of a sequence counts at least twice in
/// its multiset.
proof fn lemma_two_places_count<A>(s: Seq<A>, i: int, j: int)
    requires
        0 <= i < j < s.len(),
        s[i] == s[j],
    ensures
        s.to_multiset().count(s[i]) >= 2,
    decreases s.len(),
{
    broadcast use group_to_multiset_ensures;

    let init = s.drop_last();
    assert(init.push(s.last()) =~= s);
    if j == s.len() - 1 {
        assert(init[i] == s[i]);
        assert(init.contains(s[i]));
    } else {
        assert(init[i] == s[i] && init[j] == s[j]);
        lemma_two_places_count(init, i, j);
    }
}

/// A value that counts at least twice in the multiset of a sequence occurs
/// at two places.
proof fn lemma_count_two_places<A>(s: Seq<A>, v: A)
    requires
        s.to_multiset().count(v) >= 2,
    ensures
        exists|i: int, j: int| 0 <= i < j < s.len() && s[i] == v && s[j] == v,
    decreases s.len(),
{
    broadcast use group_to_multiset_ensures;

    if s.len() == 0 {
        assert(s.to_multiset().len() == 0);
        assert(false);
    } else {
        let init = s.drop_last();
        assert(init.push(s.last()) =~= s);
        if s.last() == v {
            assert(init.to_multiset().count(v) >= 1);
            assert(init.contains(v));
            let i = choose|i: int| 0 <= i < init.len() && init[i] == v;
            assert(s[i] == v && s[s.len() - 1] == v);
        } else {
            lemma_count_two_places(init, v);
            let (i, j) = choose|i: int, j: int|
                0 <= i < j < init.len() && init[i] == v && init[j] == v;
            assert(s[i] == v && s[j] == v);
        }
    }
}

/// Two places of a sequence have their values at two places of any
/// rearrangement of it.
proof fn lemma_places_transfer(a: Seq<FileSource>, b: Seq<FileSource>, i: int, j: int)
    requires
        a.to_multiset() == b.to_multiset(),
        0 <= i < a.len(),
        0 <= j < a.len(),
        i != j,
    ensures
        exists|x: int, y: int|
            0 <= x < b.len() && 0 <= y < b.len() && x != y && b[x] == a[i] && b[y] == a[j],
{
    broadcast use group_to_multiset_ensures;

    if a[i] == a[j] {
        if i < j {
            lemma_two_places_count(a, i, j);
        } else {
            lemma_two_places_count(a, j, i);
        }
        lemma_count_two_places(b, a[i]);
        let (x, y) = choose|x: int, y: int|
            0 <= x < y < b.len() && b[x] == a[i] && b[y] == a[i];
        assert(b[x] == a[i] && b[y] == a[j] && x != y);
    } else {
        assert(a.contains(a[i]));
        assert(a.contains(a[j]));
        assert(a.to_multiset().count(a[i]) > 0);
        assert(a.to_multiset().count(a[j]) > 0);
        assert(b.to_multiset().count(a[i]) > 0);
        assert(b.to_multiset().count(a[j]) > 0);
        assert(b.contains(a[i]));
        assert(b.contains(a[j]));
        let x = choose|x: int| 0 <= x < b.len() && b[x] == a[i];
        let y = choose|y: int| 0 <= y < b.len() && b[y] == a[j];
        assert(b[x] == a[i] && b[y] == a[j] && x != y);
    }
}

/// Rearranging the sources neither makes nor removes a duplicate name.
pub proof fn lemma_duplicates_transfer(a: Seq<FileSource>, b: Seq<FileSource>)
    requires
        a.to_multiset() == b.to_multiset(),
        has_duplicate_names(a),
    ensures
        has_duplicate_names(b),
{
    let (i, j) = choose|i: int, j: int| 0 <= i < j < a.len() && a[i].name@ == a[j].name@;
    lemma_places_transfer(a, b, i, j);
    let (x, y) = choose|x: int, y: int|
        0 <= x < b.len() && 0 <= y < b.len() && x != y && b[x] == a[i] && b[y] == a[j];
    if x < y {
        assert(b[x].name@ == b[y].name@);
    } else {
        assert(b[y].name@ == b[x].name@);
    }
}

/// Sources of which each comes strictly before the next come strictly before
/// every later one.
pub proof fn lemma_adjacent_strict(s: Seq<FileSource>, n: int)
    requires
        0 <= n <= s.len(),
        forall|k: int| 1 <= k < n ==> name_lt(#[trigger] s[k - 1].name@, s[k].name@),
    ensures
        forall|i: int, j: int| 0 <= i < j < n ==> name_lt(s[i].name@, s[j].name@),
    decreases n,
{
    if n >= 2 {
        lemma_adjacent_strict(s, n - 1);
        assert forall|i: int, j: int| 0 <= i < j < n implies name_lt(s[i].name@, s[j].name@) by {
            if j == n - 1 {
                assert(name_lt(s[n - 1 - 1].name@, s[n - 1].name@));
                if i < n - 2 {
                    assert(name_lt(s[i].name@, s[n - 2].name@));
                    lemma_parts_transitive(
                        components_of(s[i].name@),
                        components_of(s[n - 2].name@),
                        components_of(s[j].name@),
                    );
                }
            }
        }
    }
}

/// The sources in name order are determined by which sources there are:
/// two arrangements of the same sources, both strictly in name order, are
/// the same.
pub proof fn law_arrangement_unique(a: Seq<FileSource>, b: Seq<FileSource>)
    requires
        a.to_multiset() == b.to_multiset(),
        strictly_sorted(a),
        strictly_sorted(b),
    ensures
        a == b,
    decreases a.len(),
{
    broadcast use group_to_multiset_ensures;
    broadcast use vstd::multiset::group_multiset_axioms;

    assert(a.len() == b.len()) by {
        assert(a.to_multiset().len() == a.len());
        assert(b.to_multiset().len() == b.len());
    }
    if a.len() == 0 {
        assert(a =~= b);
    } else {
        let n = a.len() as int;
        let x = a[n - 1];
        let y = b[n - 1];
        assert(a.contains(x));
        assert(a.to_multiset().count(x) > 0);
        assert(b.to_multiset().count(x) > 0);
        assert(b.contains(x));
        let j = choose|j: int| 0 <= j < b.len() && b[j] == x;
        assert(b.contains(y));
        assert(b.to_multiset().count(y) > 0);
        assert(a.to_multiset().count(y) > 0);
        assert(a.contains(y));
        let i = choose|i: int| 0 <= i < a.len() && a[i] == y;
        if j < n - 1 {
            assert(name_lt(b[j].name@, b[n - 1].name@));
            if i == n - 1 {
                lemma_parts_irreflexive(components_of(x.name@));
            } else {
                assert(name_lt(a[i].name@, a[n - 1].name@));
                lemma_parts_asymmetric(
                    components_of(x.name@),
                    components_of(y.name@),
                );
            }
        }
        assert(x == y);
        let a0 = a.drop_last();
        let b0 = b.drop_last();
        assert(a0.push(x) =~= a);
        assert(b0.push(x) =~= b);
        assert(a0.to_multiset().insert(x) =~= b0.to_multiset().insert(x));
        assert(a0.to_multiset() =~= b0.to_multiset()) by {
            assert forall|v: FileSource| a0.to_multiset().count(v) == b0.to_multiset().count(
                v,
            ) by {
                assert(a0.to_multiset().insert(x).count(v) == b0.to_multiset().insert(x).count(v));
            }
        }
        assert(strictly_sorted(a0)) by {
            assert forall|i: int, j: int| 0 <= i < j < a0.len() implies name_lt(
                a0[i].name@,
                a0[j].name@,
            ) by {
                assert(a0[i] == a[i] && a0[j] == a[j]);
            }
        }
        assert(strictly_sorted(b0)) by {
            assert forall|i: int, j: int| 0 <= i < j < b0.len() implies name_lt(
                b0[i].name@,
                b0[j].name@,
            ) by {
                assert(b0[i] == b[i] && b0[j] == b[j]);
            }
        }
        law_arrangement_unique(a0, b0);
    }
}

/// The sources of `input` in name order. Where no two sources have the same
/// name there is exactly one such arrangement.
pub open spec fn in_name_order(input: Seq<FileSource>) -> Seq<FileSource> {
    choose|sorted: Seq<FileSource>| arranged(input, sorted)
}

/// The order in which the sources are given does not matter: two inputs
/// that hold the same sources, and can be put in name order, are the same
/// once they are in name order.
pub proof fn law_input_order_is_irrelevant(a: Seq<FileSource>, b: Seq<FileSource>)
    requires
        a.to_multiset() == b.to_multiset(),
        arranged(a, in_name_order(a)),
        arranged(b, in_name_order(b)),
    ensures
        in_name_order(a) == in_name_order(b),
{
    law_arrangement_unique(in_name_order(a), in_name_order(b));
}

/// In sorted sources, the first name that is the same as the one before it
/// is the first name in name order that two sources share, in any
/// arrangement of the sources.
proof fn lemma_first_duplicate_is_least(input: Seq<FileSource>, sorted: Seq<FileSource>, k: int)
    requires
        sorted.to_multiset() == input.to_multiset(),
        sorted_by_name(sorted),
        1 <= k < sorted.len(),
        sorted[k - 1].name@ == sorted[k].name@,
        forall|m: int| 1 <= m < k ==> name_lt(#[trigger] sorted[m - 1].name@, sorted[m].name@),
    ensures
        forall|i: int, j: int|
            #![trigger input[i], input[j]]
            0 <= i < input.len() && 0 <= j < input.len() && i != j && input[i].name@
                == input[j].name@ ==> !name_lt(input[i].name@, sorted[k].name@),
{
    lemma_adjacent_strict(sorted, k);
    assert forall|i: int, j: int|
        #![trigger input[i], input[j]]
        0 <= i < input.len() && 0 <= j < input.len() && i != j && input[i].name@
            == input[j].name@ implies !name_lt(input[i].name@, sorted[k].name@) by {
        lemma_places_transfer(input, sorted, i, j);
        let (x, y) = choose|x: int, y: int|
            0 <= x < sorted.len() && 0 <= y < sorted.len() && x != y && sorted[x] == input[i]
                && sorted[y] == input[j];
        let later = if x < y {
            y
        } else {
            x
        };
        let earlier = if x < y {
            x
        } else {
            y
        };
        assert(sorted[earlier].name@ == sorted[later].name@);
        if later < k {
            assert(name_lt(sorted[earlier].name@, sorted[later].name@));
            lemma_parts_irreflexive(components_of(sorted[later].name@));
        } else {
            assert(!name_lt(sorted[later].name@, sorted[k - 1].name@));
        }
    }
}

/// In sources of which each before place `k` comes strictly before the
/// next, and of which those at `k - 1` and `k` have the same name, these two
/// are the first and the second source of that name.
proof fn lemma_repeat_heads(s: Seq<FileSource>, k: int)
    requires
        1 <= k < s.len(),
        s[k - 1].name@ == s[k].name@,
        forall|m: int| 1 <= m < k ==> name_lt(#[trigger] s[m - 1].name@, s[m].name@),
    ensures
        with_name(s, s[k].name@).len() >= 2,
        with_name(s, s[k].name@)[0] == s[k - 1],
        with_name(s, s[k].name@)[1] == s[k],
{
    let n = s[k].name@;
    lemma_adjacent_strict(s, k);
    let a = s.take(k - 1);
    let mid = seq![s[k - 1], s[k]];
    let c = s.skip(k + 1);
    assert(s =~= a + mid + c);
    assert forall|i: int| 0 <= i < a.len() implies (#[trigger] a[i]).name@ != n by {
        assert(a[i] == s[i]);
        assert(name_lt(s[i].name@, s[k - 1].name@));
        lemma_parts_irreflexive(components_of(n));
    }
    lemma_with_name_none(a, n);
    let one = mid.drop_last();
    assert(one =~= seq![s[k - 1]]);
    assert(one.drop_last() =~= Seq::<FileSource>::empty());
    assert(with_name(one.drop_last(), n) =~= Seq::<FileSource>::empty());
    assert(with_name(one, n) =~= seq![s[k - 1]]);
    assert(with_name(mid, n) =~= mid);
    lemma_with_name_add(a, mid, n);
    lemma_with_name_add(a + mid, c, n);
    assert(with_name(a, n) =~= Seq::<FileSource>::empty());
    assert(with_name(s, n) =~= mid + with_name(c, n));
}

/// In the sorted sources, the first source with the name of the one before
/// it gives the duplicate to report: an error that reports the two sources
/// at that place reports the duplicate of the input.
proof fn lemma_repeat_is_reported(
    input: Seq<FileSource>,
    sorted: Seq<FileSource>,
    k: int,
    e: InputConsistencyError,
)
    requires
        sorted.to_multiset() == input.to_multiset(),
        sorted_by_name(sorted),
        forall|n: Seq<char>| #[trigger] with_name(sorted, n) == with_name(input, n),
        1 <= k < sorted.len(),
        sorted[k - 1].name@ == sorted[k].name@,
        forall|m: int| 1 <= m < k ==> name_lt(#[trigger] sorted[m - 1].name@, sorted[m].name@),
        e.reports_repeat_at(sorted, k),
    ensures
        has_duplicate_names(input),
        e.reports_duplicate_in(input),
        first_repeat(sorted, k),
{
    let n = sorted[k].name@;
    lemma_places_transfer(sorted, input, k - 1, k);
    let (x, y) = choose|x: int, y: int|
        0 <= x < input.len() && 0 <= y < input.len() && x != y && input[x] == sorted[k - 1]
            && input[y] == sorted[k];
    if x < y {
        assert(input[x].name@ == input[y].name@);
    } else {
        assert(input[y].name@ == input[x].name@);
    }
    lemma_first_duplicate_is_least(input, sorted, k);
    lemma_repeat_heads(sorted, k);
    assert(with_name(sorted, n) == with_name(input, n));
    assert forall|m: int| 1 <= m < k implies (#[trigger] sorted[m]).name@ != sorted[m - 1].name@ by {
        assert(name_lt(sorted[m - 1].name@, sorted[m].name@));
        lemma_parts_irreflexive(components_of(sorted[m].name@));
    }
}

/// How the name of `a` stands to the name of `b`, for sorting.
fn order_of(a: &FileSource, b: &FileSource) -> (r: Ordering)
    ensures
        (r == Ordering::Less) == name_lt(a.name@, b.name@),
        (r == Ordering::Equal) == (a.name@ == b.name@),
        (r == Ordering::Greater) == name_lt(b.name@, a.name@),
{
    match a.name.rank(&b.name) {
        Rank::Before => Ordering::Less,
        Rank::Same => Ordering::Equal,
        Rank::After => Ordering::Greater,
    }
}

/// Sorts the sources by name with rayon's `par_sort_by`.
///
/// Taken on trust from rayon: the vector afterwards holds the same sources
/// as before, each as often as before; none of them comes before an earlier
/// one; and the sort is stable, so the sources of one name stand in the
/// order in which they stood before. The comparison handed to rayon is
/// `order_of`, which is a total order on names.
#[verifier::external_body]
fn sort_sources(specs: &mut Vec<FileSource>)
    ensures
        final(specs)@.to_multiset() == old(specs)@.to_multiset(),
        sorted_by_name(final(specs)@),
        forall|n: Seq<char>| #[trigger] with_name(final(specs)@, n) == with_name(old(specs)@, n),
{
    specs.par_sort_by(|a, b| order_of(a, b));
}

/// The components of an optional prefix: none where it is absent.
pub open spec fn optional_parts(p: Option<String>) -> Seq<Seq<char>> {
    match p {
        None => Seq::empty(),
        Some(s) => components_of(s@),
    }
}

impl EntryModifications {
    /// The components of the silent prefix.
    pub open spec fn silent_parts(&self) -> Seq<Seq<char>> {
        optional_parts(self.silent_external_prefix)
    }

    /// The components of the own prefix.
    pub open spec fn own_parts(&self) -> Seq<Seq<char>> {
        optional_parts(self.own_prefix)
    }

    /// Both prefixes, where present, are acceptable names, and so is their
    /// combination: a silent prefix `.` takes no own prefix behind it.
    pub open spec fn acceptable(&self) -> bool {
        &&& self.silent_external_prefix is Some ==> valid_name(self.silent_external_prefix->0@)
        &&& self.own_prefix is Some ==> valid_name(self.own_prefix->0@)
        &&& !(self.silent_external_prefix is Some && self.own_prefix is Some
            && self.silent_parts() == seq![seq!['.']])
    }

    /// `e` is the error for these prefixes: that of the silent prefix if it
    /// is refused; else that of the own prefix; else that of `./` followed
    /// by the first component of the own prefix.
    pub open spec fn refused_with(&self, e: MedusaNameFormatError) -> bool {
        if self.silent_external_prefix is Some && !valid_name(self.silent_external_prefix->0@) {
            e.refuses(self.silent_external_prefix->0@)
        } else if self.own_prefix is Some && !valid_name(self.own_prefix->0@) {
            e.refuses(self.own_prefix->0@)
        } else {
            &&& self.silent_external_prefix is Some
            &&& self.own_prefix is Some
            &&& e.refuses(name_of(seq![seq!['.'], self.own_parts()[0]]))
        }
    }
}

/// The directories that `cur` needs and `prev` has not opened: one for each
/// leading part of `cur` that is longer than what `cur` shares with `prev`,
/// given by its number of components, shortest first.
pub open spec fn new_rightmost(prev: Seq<Seq<char>>, cur: Seq<Seq<char>>) -> Seq<int> {
    Seq::new(
        (cur.len() - shared_len(prev, cur)) as nat,
        |j: int| shared_len(prev, cur) + j + 1,
    )
}

/// All components but the last.
pub open spec fn parent_of(parts: Seq<Seq<char>>) -> Seq<Seq<char>> {
    parts.drop_last()
}

/// The directory entries for `new_rightmost(prev, cur)`, each under `prefix`.
pub open spec fn new_directories(
    prefix: Seq<Seq<char>>,
    prev: Seq<Seq<char>>,
    cur: Seq<Seq<char>>,
) -> Seq<PlanItem> {
    Seq::new(
        new_rightmost(prev, cur).len(),
        |j: int| PlanItem::Directory { name: name_of(prefix + cur.take(new_rightmost(prev, cur)[j])) },
    )
}

/// The directory of the file before file `i`; no components for the first.
pub open spec fn previous_parent(files: Seq<FileSource>, i: int) -> Seq<Seq<char>> {
    if i <= 0 {
        Seq::empty()
    } else {
        parent_of(components_of(files[i - 1].name@))
    }
}

/// What file `i` adds to the plan: its new directories, then the file.
pub open spec fn file_block(prefix: Seq<Seq<char>>, files: Seq<FileSource>, i: int) -> Seq<
    PlanItem,
> {
    new_directories(
        prefix,
        previous_parent(files, i),
        parent_of(components_of(files[i].name@)),
    ).push(
        PlanItem::File {
            name: name_of(prefix + components_of(files[i].name@)),
            source: files[i].source@,
        },
    )
}

/// What the first `n` files add to the plan.
pub open spec fn emitted(prefix: Seq<Seq<char>>, files: Seq<FileSource>, n: nat) -> Seq<PlanItem>
    decreases n,
{
    if n == 0 {
        Seq::empty()
    } else {
        emitted(prefix, files, (n - 1) as nat) + file_block(prefix, files, n - 1)
    }
}

/// One directory for each level of the own prefix, under the silent prefix.
pub open spec fn prefix_directories(silent: Seq<Seq<char>>, own: Seq<Seq<char>>) -> Seq<PlanItem> {
    Seq::new(own.len(), |j: int| PlanItem::Directory { name: name_of(silent + own.take(j + 1)) })
}

/// The plan for `files`, which are in their final order.
pub open spec fn plan_of(silent: Seq<Seq<char>>, own: Seq<Seq<char>>, files: Seq<FileSource>) -> Seq<
    PlanItem,
> {
    prefix_directories(silent, own) + emitted(silent + own, files, files.len())
}

/// The directories that `current` needs and `previous` has not opened.
///
/// Each is a leading part of `current` and is given by its number of
/// components, the shortest first. If `current` is a leading part of
/// `previous`, there is none.
pub fn calculate_new_rightmost_components(
    previous: &Vec<Vec<char>>,
    current: &Vec<Vec<char>>,
) -> (out: Vec<usize>)
    ensures
        out@.len() == new_rightmost(views(previous@), views(current@)).len(),
        forall|j: int|
            0 <= j < out@.len() ==> out@[j] as int == new_rightmost(
                views(previous@),
                views(current@),
            )[j],
        forall|j: int| 0 <= j < out@.len() ==> 1 <= #[trigger] out@[j] <= current.len(),
{
    let ghost prev = views(previous@);
    let ghost cur = views(current@);
    let mut shared: usize = 0;
    let mut differ = false;
    while !differ && shared < previous.len() && shared < current.len()
        invariant
            prev == views(previous@),
            cur == views(current@),
            shared <= previous.len(),
            shared <= current.len(),
            forall|j: int| 0 <= j < shared ==> prev[j] == cur[j],
            differ ==> shared < previous.len() && shared < current.len() && prev[shared as int]
                != cur[shared as int],
        decreases current.len() - shared + (if differ { 0int } else { 1int }),
    {
        match rank_chars(&previous[shared], &current[shared]) {
            Rank::Same => {
                shared += 1;
            },
            _ => {
                differ = true;
            },
        }
    }
    proof {
        lemma_shared_len_at(prev, cur, shared as int);
    }
    let mut out: Vec<usize> = Vec::new();
    let mut m: usize = shared;
    while m < current.len()
        invariant
            shared <= m <= current.len(),
            shared == shared_len(prev, cur),
            cur.len() == current.len(),
            out@.len() == m - shared,
            forall|j: int| 0 <= j < out@.len() ==> out@[j] as int == shared + j + 1,
        decreases current.len() - m,
    {
        out.push(m + 1);
        m += 1;
    }
    out
}

/// The entries of an archive, in the order in which they are written.
#[derive(Debug)]
pub struct EntrySpecificationList(pub Vec<ZipEntrySpecification>);

impl View for EntrySpecificationList {
    type V = Seq<PlanItem>;

    open spec fn view(&self) -> Seq<PlanItem> {
        plan_view(self.0@)
    }
}

/// Both prefixes as one list of components, silent first, and the number of
/// components of the silent one.
fn combined_prefix(modifications: EntryModifications) -> (r: Result<
    (Vec<Vec<char>>, usize),
    MedusaNameFormatError,
>)
    ensures
        match r {
            Ok((prefix, silent_len)) => {
                &&& modifications.acceptable()
                &&& views(prefix@) == modifications.silent_parts() + modifications.own_parts()
                &&& silent_len == modifications.silent_parts().len()
                &&& prefix.len() == 0 || well_formed_parts(views(prefix@))
            },
            Err(e) => !modifications.acceptable() && modifications.refused_with(e),
        },
{
    let ghost m = modifications;
    let EntryModifications { silent_external_prefix, own_prefix } = modifications;
    let mut prefix: Vec<Vec<char>> = Vec::new();
    let mut silent_is_dot = false;
    assert(views(prefix@) =~= Seq::<Seq<char>>::empty());
    match silent_external_prefix {
        None => {},
        Some(s) => {
            match EntryName::validate(s) {
                Err(e) => {
                    return Err(e);
                },
                Ok(n) => {
                    let parts = n.parts();
                    append_parts(&mut prefix, parts, parts.len());
                    proof {
                        assert(views(parts@).take(parts.len() as int) =~= views(parts@));
                        assert(views(prefix@) =~= m.silent_parts());
                    }
                    silent_is_dot = parts.len() == 1 && parts[0].len() == 1 && parts[0][0] == '.';
                    proof {
                        if silent_is_dot {
                            assert(views(parts@)[0] =~= seq!['.']);
                            assert(m.silent_parts() =~= seq![seq!['.']]);
                        }
                    }
                },
            }
        },
    }
    let silent_len = prefix.len();
    match own_prefix {
        None => {
            proof {
                assert(views(prefix@) =~= m.silent_parts() + m.own_parts());
            }
        },
        Some(o) => {
            match EntryName::validate(o) {
                Err(e) => {
                    return Err(e);
                },
                Ok(n) => {
                    let parts = n.parts();
                    let ghost before = views(prefix@);
                    append_parts(&mut prefix, parts, parts.len());
                    proof {
                        assert(views(parts@).take(parts.len() as int) =~= views(parts@));
                        assert(views(prefix@) =~= m.silent_parts() + m.own_parts());
                    }
                    if silent_is_dot {
                        let text = string_of(&join_chars(&prefix, 2, '/'));
                        proof {
                            let two = seq![seq!['.'], m.own_parts()[0]];
                            assert(views(prefix@).take(2) =~= two);
                            lemma_join_starts(two, '/');
                            assert(starts_with_dot_slash(name_of(two)));
                        }
                        return Err(MedusaNameFormatError::NameStartsWithDotSlash(text));
                    }
                },
            }
        },
    }
    proof {
        let all = views(prefix@);
        if all.len() > 0 {
            assert(all[0].len() > 0);
            assert forall|i: int| 0 <= i < all.len() implies part_ok(#[trigger] all[i]) by {
                if i < m.silent_parts().len() {
                    assert(all[i] == m.silent_parts()[i]);
                } else {
                    assert(all[i] == m.own_parts()[i - m.silent_parts().len()]);
                }
            }
        }
    }
    Ok((prefix, silent_len))
}

impl EntrySpecificationList {
    /// Sorts the sources by name and refuses them if two have the same name.
    ///
    /// The sort keeps sources of one name in the order in which they were
    /// given. The sorted sources are then looked through from the start; at
    /// the first source that has the name of the one before it, the name
    /// and the paths of these two are reported, the earlier path first.
    pub fn sort_and_deduplicate(specs: &mut Vec<FileSource>) -> (r: Result<
        (),
        InputConsistencyError,
    >)
        ensures
            final(specs)@.to_multiset() == old(specs)@.to_multiset(),
            sorted_by_name(final(specs)@),
            forall|n: Seq<char>| #[trigger] with_name(final(specs)@, n) == with_name(old(specs)@, n),
            match r {
                Ok(_) => !has_duplicate_names(old(specs)@) && strictly_sorted(final(specs)@),
                Err(e) => {
                    &&& has_duplicate_names(old(specs)@)
                    &&& e.reports_duplicate_in(old(specs)@)
                    &&& exists|k: int|
                        first_repeat(final(specs)@, k) && #[trigger] e.reports_repeat_at(
                            final(specs)@,
                            k,
                        )
                },
            },
    {
        sort_sources(specs);
        let mut k: usize = 1;
        while k < specs.len()
            invariant
                1 <= k,
                sorted_by_name(specs@),
                specs@.to_multiset() == old(specs)@.to_multiset(),
                forall|n: Seq<char>| #[trigger] with_name(specs@, n) == with_name(old(specs)@, n),
                forall|m: int|
                    1 <= m < k && m < specs@.len() ==> name_lt(
                        #[trigger] specs@[m - 1].name@,
                        specs@[m].name@,
                    ),
            decreases specs.len() - k,
        {
            match specs[k - 1].name.rank(&specs[k].name) {
                Rank::Same => {
                    let name = specs[k].name.duplicate();
                    let first = specs[k - 1].source.clone();
                    let second = specs[k].source.clone();
                    proof {
                        let e = InputConsistencyError::DuplicateName(name, first, second);
                        lemma_repeat_is_reported(old(specs)@, specs@, k as int, e);
                        assert(first_repeat(specs@, k as int) && e.reports_repeat_at(
                            specs@,
                            k as int,
                        ));
                    }
                    return Err(InputConsistencyError::DuplicateName(name, first, second));
                },
                Rank::Before => {},
                Rank::After => {
                    proof {
                        assert(!name_lt(specs@[k as int].name@, specs@[k as int - 1].name@));
                    }
                },
            }
            k += 1;
        }
        proof {
            lemma_adjacent_strict(specs@, specs@.len() as int);
            if has_duplicate_names(old(specs)@) {
                lemma_duplicates_transfer(old(specs)@, specs@);
                let (i, j) = choose|i: int, j: int|
                    0 <= i < j < specs@.len() && specs@[i].name@ == specs@[j].name@;
                assert(name_lt(specs@[i].name@, specs@[j].name@));
                lemma_parts_irreflexive(components_of(specs@[i].name@));
            }
        }
        Ok(())
    }

    /// Lays out the plan for `specs` under the prefixes of `modifications`.
    ///
    /// The sources are put in name order. Two sources with one name are
    /// refused, whatever the prefixes are: the first such name in name order
    /// is reported, with the paths of the first two sources of that name in
    /// the order in which they were given. Otherwise a prefix that is not
    /// an acceptable name is refused. The plan starts with the directories of
    /// the own prefix; then each file follows, after the directories that
    /// lead to it and that the file before it did not already need.
    pub fn from_file_specs(specs: Vec<FileSource>, modifications: EntryModifications) -> (r: Result<
        EntrySpecificationList,
        InputConsistencyError,
    >)
        ensures
            match r {
                Ok(list) => {
                    &&& !has_duplicate_names(specs@)
                    &&& modifications.acceptable()
                    &&& arranged(specs@, in_name_order(specs@))
                    &&& names_well_formed(in_name_order(specs@))
                    &&& prefix_ok(modifications.silent_parts(), modifications.own_parts())
                    &&& list@ == plan_of(
                        modifications.silent_parts(),
                        modifications.own_parts(),
                        in_name_order(specs@),
                    )
                    &&& name_sorted(list@)
                    &&& directories_once(list@)
                    &&& directories_before_files(
                        list@,
                        modifications.silent_parts().len() as int,
                    )
                },
                Err(InputConsistencyError::DuplicateName(n, p, q)) => {
                    &&& has_duplicate_names(specs@)
                    &&& InputConsistencyError::DuplicateName(n, p, q).reports_duplicate_in(specs@)
                },
                Err(InputConsistencyError::NameFormat(e)) => {
                    &&& !has_duplicate_names(specs@)
                    &&& !modifications.acceptable()
                    &&& modifications.refused_with(e)
                },
            },
    {
        let ghost silent = modifications.silent_parts();
        let ghost own = modifications.own_parts();
        let mut specs = specs;
        let ghost input = specs@;
        match Self::sort_and_deduplicate(&mut specs) {
            Err(e) => {
                return Err(e);
            },
            Ok(_) => {},
        }
        let (prefix, silent_len) = match combined_prefix(modifications) {
            Err(e) => {
                return Err(InputConsistencyError::NameFormat(e));
            },
            Ok(pair) => pair,
        };
        let ghost whole = silent + own;
        let mut ret: Vec<ZipEntrySpecification> = Vec::new();
        let mut level: usize = silent_len;
        proof {
            assert(views(prefix@).len() == prefix.len());
            assert(whole.len() == silent.len() + own.len());
            assert(plan_view(ret@) =~= prefix_directories(silent, own).take(0));
        }
        while level < prefix.len()
            invariant
                silent_len <= level <= prefix.len(),
                silent_len == silent.len(),
                views(prefix@) == silent + own,
                prefix.len() == 0 || well_formed_parts(views(prefix@)),
                plan_view(ret@) == prefix_directories(silent, own).take(level - silent_len),
            decreases prefix.len() - level,
        {
            let directory = EntryName::from_parts(&prefix, level + 1);
            let ghost before = plan_view(ret@);
            ret.push(ZipEntrySpecification::Directory(directory));
            proof {
                let j = level - silent_len;
                assert(views(prefix@).take(level as int + 1) =~= silent + own.take(j + 1));
                assert(plan_view(ret@) =~= before.push(PlanItem::Directory { name: directory@ }));
                assert(plan_view(ret@) =~= prefix_directories(silent, own).take(j + 1));
            }
            level += 1;
        }
        proof {
            assert(prefix_directories(silent, own).take(own.len() as int) =~= prefix_directories(
                silent,
                own,
            ));
            assert(plan_view(ret@) =~= prefix_directories(silent, own) + emitted(
                whole,
                specs@,
                0,
            ));
        }
        let mut previous: Vec<Vec<char>> = Vec::new();
        let mut i: usize = 0;
        proof {
            assert(views(previous@) =~= previous_parent(specs@, 0));
        }
        while i < specs.len()
            invariant
                i <= specs.len(),
                whole == silent + own,
                forall|j: int| 0 <= j < i ==> well_formed(#[trigger] specs@[j].name@),
                views(prefix@) == whole,
                prefix.len() == 0 || well_formed_parts(whole),
                views(previous@) == previous_parent(specs@, i as int),
                plan_view(ret@) == prefix_directories(silent, own) + emitted(
                    whole,
                    specs@,
                    i as nat,
                ),
            decreases specs.len() - i,
        {
            let ghost base = plan_view(ret@);
            let parts = specs[i].name.parts();
            let ghost comps = components_of(specs@[i as int].name@);
            let parent_len = parts.len() - 1;
            let mut parent: Vec<Vec<char>> = Vec::new();
            append_parts(&mut parent, parts, parent_len);
            let mut full: Vec<Vec<char>> = Vec::new();
            append_parts(&mut full, &prefix, prefix.len());
            append_parts(&mut full, parts, parts.len());
            proof {
                assert(views(parent@) =~= parent_of(comps));
                assert(views(full@) =~= whole + comps);
                let all = views(full@);
                assert(all[0].len() > 0) by {
                    if whole.len() > 0 {
                        assert(all[0] == whole[0]);
                    } else {
                        assert(all[0] == comps[0]);
                    }
                }
                assert forall|x: int| 0 <= x < all.len() implies part_ok(#[trigger] all[x]) by {
                    if x < whole.len() {
                        assert(all[x] == whole[x]);
                    } else {
                        assert(all[x] == comps[x - whole.len()]);
                    }
                }
            }
            proof {
                assert(views(full@).len() == full.len());
                assert(views(parent@).len() == parent.len());
                assert(views(prefix@).len() == prefix.len());
            }
            let lens = calculate_new_rightmost_components(&previous, &parent);
            let ghost dirs = new_directories(whole, views(previous@), views(parent@));
            let mut t: usize = 0;
            proof {
                assert(plan_view(ret@) =~= base + dirs.take(0));
            }
            while t < lens.len()
                invariant
                    t <= lens.len(),
                    lens@.len() == dirs.len(),
                    dirs == new_directories(whole, views(previous@), views(parent@)),
                    lens@.len() == new_rightmost(views(previous@), views(parent@)).len(),
                    forall|j: int|
                        0 <= j < lens@.len() ==> lens@[j] as int == new_rightmost(
                            views(previous@),
                            views(parent@),
                        )[j],
                    forall|j: int| 0 <= j < lens@.len() ==> 1 <= #[trigger] lens@[j] <= parent.len(),
                    views(full@) == whole + comps,
                    views(parent@) == parent_of(comps),
                    comps.len() >= 1,
                    whole.len() == prefix.len(),
                    full.len() == prefix.len() + parent.len() + 1,
                    well_formed_parts(views(full@)),
                    plan_view(ret@) == base + dirs.take(t as int),
                decreases lens.len() - t,
            {
                let count = lens[t];
                let directory = EntryName::from_parts(&full, prefix.len() + count);
                let ghost before = plan_view(ret@);
                ret.push(ZipEntrySpecification::Directory(directory));
                proof {
                    assert(views(full@).take(prefix.len() + count) =~= whole + views(parent@).take(
                        count as int,
                    ));
                    assert(plan_view(ret@) =~= before.push(PlanItem::Directory { name: directory@ }));
                    assert(dirs.take(t as int + 1) =~= dirs.take(t as int).push(dirs[t as int]));
                    assert(plan_view(ret@) =~= base + dirs.take(t as int + 1));
                }
                t += 1;
            }
            let name = EntryName::from_parts(&full, full.len());
            let source = specs[i].source.clone();
            let ghost before = plan_view(ret@);
            ret.push(ZipEntrySpecification::File(FileSource { name, source }));
            proof {
                assert(views(full@).take(full.len() as int) =~= whole + comps);
                assert(dirs.take(lens.len() as int) =~= dirs);
                let file = PlanItem::File { name: name@, source: source@ };
                assert(plan_view(ret@) =~= before.push(file));
                assert(dirs.push(file) == file_block(whole, specs@, i as int));
                assert(plan_view(ret@) =~= base + file_block(whole, specs@, i as int));
                assert(emitted(whole, specs@, (i + 1) as nat) == emitted(whole, specs@, i as nat)
                    + file_block(whole, specs@, i as int));
                assert(plan_view(ret@) =~= prefix_directories(silent, own) + emitted(
                    whole,
                    specs@,
                    (i + 1) as nat,
                ));
            }
            previous = parent;
            i += 1;
        }
        proof {
            assert(arranged(input, specs@));
            law_arrangement_unique(in_name_order(input), specs@);
            assert(plan_view(ret@) == plan_of(silent, own, specs@));
            law_plan_shape(silent, own, specs@);
        }
        Ok(EntrySpecificationList(ret))
    }
}

} // verus!
