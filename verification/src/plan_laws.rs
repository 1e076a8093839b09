//! What holds of every entry plan.
//!
//! The plan is in name order; a directory comes strictly before everything
//! after it, so no directory occurs twice; every directory that leads to a
//! file is in the plan before the file; and the plan depends only on which
//! sources there are, not on the order in which they were given.

use vstd::prelude::*;
use crate::name::{
    components_of, lemma_components_well_formed, lemma_name_of_well_formed, name_lt, name_of,
    part_ok, well_formed, well_formed_parts, FileSource,
};
use crate::order::{
    lemma_parts_asymmetric, lemma_parts_irreflexive, lemma_parts_le_lt, lemma_parts_le_transitive,
    lemma_parts_lt_le, lemma_prefix_before, lemma_prepend_keeps_order, lemma_shared_len_at,
    lemma_shared_len_props, parts_le, parts_lt, shared_len,
};
use crate::plan::{
    arranged, directories_before_files, directories_once, emitted, file_block,
    has_directory_before, has_duplicate_names, in_name_order, item_parts, law_arrangement_unique,
    name_sorted, names_well_formed, new_directories, new_rightmost, parent_of, plan_of,
    prefix_directories, prefix_ok, previous_parent, strictly_sorted, PlanItem,
};
use crate::text::lemma_join_split;

verus! {

/// `a` is `b` without some of its last components.
pub open spec fn proper_prefix(a: Seq<Seq<char>>, b: Seq<Seq<char>>) -> bool {
    a.len() < b.len() && a == b.take(a.len() as int)
}

/// No source's name is a directory on the way to another source.
pub open spec fn no_file_is_directory(files: Seq<FileSource>) -> bool {
    forall|i: int, j: int|
        0 <= i < files.len() && 0 <= j < files.len() ==> !proper_prefix(
            components_of(#[trigger] files[i].name@),
            components_of(#[trigger] files[j].name@),
        )
}

/// A leading part of a name, under a prefix, forms a name with exactly those
/// components.
pub proof fn lemma_prefixed_parts(p: Seq<Seq<char>>, c: Seq<Seq<char>>, m: int)
    requires
        p.len() == 0 || well_formed_parts(p),
        well_formed_parts(c),
        1 <= m <= c.len(),
    ensures
        well_formed_parts(p + c.take(m)),
        components_of(name_of(p + c.take(m))) == p + c.take(m),
{
    let all = p + c.take(m);
    assert(all[0].len() > 0) by {
        if p.len() > 0 {
            assert(all[0] == p[0]);
        } else {
            assert(all[0] == c[0]);
        }
    }
    assert forall|i: int| 0 <= i < all.len() implies part_ok(#[trigger] all[i]) by {
        if i < p.len() {
            assert(all[i] == p[i]);
        } else {
            assert(all[i] == c[i - p.len()]);
        }
    }
    lemma_name_of_well_formed(all);
}

/// After a name `a`, the directories that a later name `b` opens, and `b`
/// itself, do not come before `a`. They come strictly after it unless `a`
/// is itself a directory on the way to `b`.
pub proof fn lemma_opened_after(a: Seq<Seq<char>>, b: Seq<Seq<char>>, m: int)
    requires
        a.len() >= 1,
        b.len() >= 1,
        parts_lt(a, b),
        shared_len(parent_of(a), parent_of(b)) < m <= b.len(),
    ensures
        parts_le(a, b.take(m)),
        !proper_prefix(a, b) ==> parts_lt(a, b.take(m)),
{
    let pa = parent_of(a);
    let pb = parent_of(b);
    lemma_shared_len_props(pa, pb);
    lemma_shared_len_props(a, b);
    let sh = shared_len(pa, pb) as int;
    let k = shared_len(a, b) as int;
    assert forall|j: int| 0 <= j < sh implies a[j] == b[j] by {
        assert(pa[j] == pb[j]);
    }
    if m == b.len() {
        assert(b.take(m) =~= b);
    } else {
        let d = b.take(sh + 1);
        assert(sh + 1 <= b.len());
        if sh == a.len() - 1 {
            if k == a.len() {
                assert(a =~= d);
                assert(a =~= b.take(a.len() as int));
            } else {
                assert(k >= sh) by {
                    if k < sh {
                        assert(a[k] == b[k]);
                    }
                }
                assert(d[sh] == b[sh]);
                lemma_shared_len_at(a, d, sh);
            }
        } else {
            assert(pa[sh] == a[sh]);
            assert(pb[sh] == b[sh]);
            lemma_shared_len_at(a, b, sh);
            assert(d[sh] == b[sh]);
            lemma_shared_len_at(a, d, sh);
        }
        assert(parts_le(a, d));
        if m > sh + 1 {
            let e = b.take(m);
            assert forall|j: int| 0 <= j < d.len() implies d[j] == e[j] by {}
            lemma_prefix_before(d, e);
            lemma_parts_le_lt(a, d, e);
        }
    }
}

/// The shape of what file `i` adds to the plan: the directories that its
/// name opens beyond what it shares with the file before it, shortest
/// first, and then the file itself.
pub proof fn lemma_block(p: Seq<Seq<char>>, files: Seq<FileSource>, i: int)
    requires
        p.len() == 0 || well_formed_parts(p),
        names_well_formed(files),
        0 <= i < files.len(),
    ensures
        ({
            let f = components_of(files[i].name@);
            let sh = shared_len(previous_parent(files, i), parent_of(f)) as int;
            let b = file_block(p, files, i);
            &&& well_formed_parts(f)
            &&& sh <= f.len() - 1
            &&& b.len() == f.len() - sh
            &&& forall|t: int|
                0 <= t < b.len() ==> item_parts(#[trigger] b[t]) == p + f.take(sh + t + 1)
            &&& forall|t: int|
                0 <= t < b.len() - 1 ==> #[trigger] b[t] == (PlanItem::Directory {
                    name: name_of(p + f.take(sh + t + 1)),
                })
            &&& b[b.len() - 1] == (PlanItem::File {
                name: name_of(p + f),
                source: files[i].source@,
            })
        }),
{
    let f = components_of(files[i].name@);
    let prev = previous_parent(files, i);
    let parent = parent_of(f);
    let sh = shared_len(prev, parent) as int;
    let b = file_block(p, files, i);
    lemma_components_well_formed(files[i].name@);
    lemma_shared_len_props(prev, parent);
    let dirs = new_directories(p, prev, parent);
    assert(b == dirs.push(PlanItem::File { name: name_of(p + f), source: files[i].source@ }));
    assert(dirs.len() == parent.len() - sh);
    assert forall|t: int| 0 <= t < b.len() - 1 implies #[trigger] b[t] == (PlanItem::Directory {
        name: name_of(p + f.take(sh + t + 1)),
    }) by {
        assert(b[t] == dirs[t]);
        assert(new_rightmost(prev, parent)[t] == sh + t + 1);
        assert(parent.take(sh + t + 1) =~= f.take(sh + t + 1));
    }
    assert forall|t: int| 0 <= t < b.len() implies item_parts(#[trigger] b[t]) == p + f.take(
        sh + t + 1,
    ) by {
        lemma_prefixed_parts(p, f, sh + t + 1);
        if t == b.len() - 1 {
            assert(f.take(sh + t + 1) =~= f);
        } else {
            assert(b[t] == (PlanItem::Directory { name: name_of(p + f.take(sh + t + 1)) }));
        }
    }
}

/// The plan after the first `n` files.
pub open spec fn plan_upto(
    silent: Seq<Seq<char>>,
    own: Seq<Seq<char>>,
    files: Seq<FileSource>,
    n: nat,
) -> Seq<PlanItem> {
    prefix_directories(silent, own) + emitted(silent + own, files, n)
}

/// The greatest name in the plan after the first `n` files: that of file
/// `n - 1` under the prefix, or the prefix itself before any file.
pub open spec fn upper(p: Seq<Seq<char>>, files: Seq<FileSource>, n: nat) -> Seq<Seq<char>> {
    if n == 0 {
        p
    } else {
        p + components_of(files[n - 1].name@)
    }
}

/// The order within the plan after the first `n` files.
pub proof fn lemma_plan_order(
    silent: Seq<Seq<char>>,
    own: Seq<Seq<char>>,
    files: Seq<FileSource>,
    n: nat,
)
    requires
        prefix_ok(silent, own),
        names_well_formed(files),
        strictly_sorted(files),
        n <= files.len(),
    ensures
        ({
            let r = plan_upto(silent, own, files, n);
            let p = silent + own;
            &&& forall|i: int, j: int|
                #![trigger r[i], r[j]]
                0 <= i < j < r.len() ==> parts_le(item_parts(r[i]), item_parts(r[j]))
            &&& forall|i: int, j: int|
                #![trigger r[i], r[j]]
                0 <= i < j < r.len() && r[i] is Directory ==> parts_lt(
                    item_parts(r[i]),
                    item_parts(r[j]),
                )
            &&& no_file_is_directory(files) ==> forall|i: int, j: int|
                #![trigger r[i], r[j]]
                0 <= i < j < r.len() ==> parts_lt(item_parts(r[i]), item_parts(r[j]))
            &&& forall|i: int|
                0 <= i < r.len() ==> parts_le(item_parts(#[trigger] r[i]), upper(p, files, n))
            &&& n >= 1 ==> r.len() >= 1 && r[r.len() - 1] is File && item_parts(r[r.len() - 1])
                == upper(p, files, n)
        }),
    decreases n,
{
    let p = silent + own;
    let r = plan_upto(silent, own, files, n);
    if n == 0 {
        let dirs = prefix_directories(silent, own);
        assert(r =~= dirs);
        assert forall|i: int| 0 <= i < r.len() implies #[trigger] item_parts(r[i]) == p.take(
            silent.len() + i + 1,
        ) by {
            lemma_prefixed_parts(Seq::empty(), p, silent.len() + i + 1);
            assert(Seq::<Seq<char>>::empty() + p.take(silent.len() + i + 1) =~= p.take(
                silent.len() + i + 1,
            ));
            assert(silent + own.take(i + 1) =~= p.take(silent.len() + i + 1));
        }
        assert forall|i: int, j: int| #![trigger r[i], r[j]] 0 <= i < j < r.len() implies parts_lt(
            item_parts(r[i]),
            item_parts(r[j]),
        ) by {
            let a = p.take(silent.len() + i + 1);
            let b = p.take(silent.len() + j + 1);
            assert(item_parts(r[i]) == a);
            assert(item_parts(r[j]) == b);
            lemma_prefix_before(a, b);
        }
        assert forall|i: int| 0 <= i < r.len() implies parts_le(
            item_parts(#[trigger] r[i]),
            upper(p, files, n),
        ) by {
            let a = p.take(silent.len() + i + 1);
            assert(item_parts(r[i]) == a);
            if i == r.len() - 1 {
                assert(a =~= p);
            } else {
                lemma_prefix_before(a, p);
            }
        }
    } else {
        let m = (n - 1) as nat;
        let old_r = plan_upto(silent, own, files, m);
        let b = file_block(p, files, n - 1);
        let f = components_of(files[n - 1].name@);
        let sh = shared_len(previous_parent(files, n - 1), parent_of(f)) as int;
        let u = upper(p, files, m);
        lemma_plan_order(silent, own, files, m);
        lemma_block(p, files, n - 1);
        assert(r =~= old_r + b);
        assert forall|t: int| 0 <= t < b.len() implies parts_le(u, item_parts(#[trigger] b[t])) && ((m
            == 0 || !proper_prefix(components_of(files[m - 1].name@), f)) ==> parts_lt(
            u,
            item_parts(b[t]),
        )) by {
            let y = p + f.take(sh + t + 1);
            assert(item_parts(b[t]) == y);
            if m == 0 {
                lemma_prefix_before(p, y);
            } else {
                let a = components_of(files[m - 1].name@);
                lemma_components_well_formed(files[m - 1].name@);
                assert(name_lt(files[m - 1].name@, files[m as int].name@));
                lemma_opened_after(a, f, sh + t + 1);
                if a != f.take(sh + t + 1) {
                    lemma_prepend_keeps_order(p, a, f.take(sh + t + 1));
                }
            }
        }
        assert forall|s: int, t: int| 0 <= s < t < b.len() implies parts_lt(
            item_parts(#[trigger] b[s]),
            item_parts(#[trigger] b[t]),
        ) by {
            let x = p + f.take(sh + s + 1);
            let y = p + f.take(sh + t + 1);
            assert(item_parts(b[s]) == x);
            assert(item_parts(b[t]) == y);
            assert forall|k: int| 0 <= k < x.len() implies x[k] == y[k] by {}
            lemma_prefix_before(x, y);
        }
        assert forall|i: int, j: int| #![trigger r[i], r[j]] 0 <= i < j < r.len() implies parts_le(
            item_parts(r[i]),
            item_parts(r[j]),
        ) && (r[i] is Directory ==> parts_lt(item_parts(r[i]), item_parts(r[j]))) && (
        no_file_is_directory(files) ==> parts_lt(item_parts(r[i]), item_parts(r[j]))) by {
            if j < old_r.len() {
                assert(r[i] == old_r[i] && r[j] == old_r[j]);
            } else if i >= old_r.len() {
                let s = i - old_r.len();
                let t = j - old_r.len();
                assert(r[i] == b[s] && r[j] == b[t]);
            } else {
                let t = j - old_r.len();
                assert(r[i] == old_r[i] && r[j] == b[t]);
                assert(parts_le(item_parts(old_r[i]), u));
                assert(parts_le(u, item_parts(b[t])));
                lemma_parts_le_transitive(item_parts(r[i]), u, item_parts(r[j]));
                if r[i] is Directory {
                    if m == 0 {
                        lemma_parts_le_lt(item_parts(r[i]), u, item_parts(r[j]));
                    } else {
                        let last = old_r.len() - 1;
                        assert(old_r[last] is File);
                        assert(i < last);
                        assert(parts_lt(item_parts(old_r[i]), item_parts(old_r[last])));
                        lemma_parts_lt_le(item_parts(r[i]), u, item_parts(r[j]));
                    }
                }
                if no_file_is_directory(files) {
                    if m > 0 {
                        assert(!proper_prefix(
                            components_of(files[m - 1].name@),
                            components_of(files[m as int].name@),
                        ));
                    }
                    lemma_parts_le_lt(item_parts(r[i]), u, item_parts(r[j]));
                }
            }
        }
        assert forall|i: int| 0 <= i < r.len() implies parts_le(
            item_parts(#[trigger] r[i]),
            upper(p, files, n),
        ) by {
            let last = r.len() - 1;
            assert(r[last] == b[b.len() - 1]);
            assert(f.take(sh + (b.len() - 1) + 1) =~= f);
            assert(item_parts(r[last]) == upper(p, files, n));
            if i < last {
                assert(parts_le(item_parts(r[i]), item_parts(r[last])));
            }
        }
        assert(r[r.len() - 1] == b[b.len() - 1]);
        assert(f.take(sh + (b.len() - 1) + 1) =~= f);
    }
}

/// The plan is in name order: no entry comes before an earlier one.
pub proof fn law_plan_sorted(silent: Seq<Seq<char>>, own: Seq<Seq<char>>, files: Seq<FileSource>)
    requires
        prefix_ok(silent, own),
        names_well_formed(files),
        strictly_sorted(files),
    ensures
        forall|i: int, j: int|
            #![trigger plan_of(silent, own, files)[i], plan_of(silent, own, files)[j]]
            0 <= i < j < plan_of(silent, own, files).len() ==> !name_lt(
                plan_of(silent, own, files)[j].name(),
                plan_of(silent, own, files)[i].name(),
            ),
{
    let plan = plan_of(silent, own, files);
    lemma_plan_order(silent, own, files, files.len());
    assert forall|i: int, j: int| #![trigger plan[i], plan[j]] 0 <= i < j < plan.len() implies !name_lt(
        plan[j].name(),
        plan[i].name(),
    ) by {
        let a = item_parts(plan[i]);
        let b = item_parts(plan[j]);
        assert(parts_le(a, b));
        if a == b {
            lemma_parts_irreflexive(a);
        } else {
            lemma_parts_asymmetric(a, b);
        }
    }
}

/// Where no source is itself a directory on the way to another source, each
/// entry of the plan comes strictly before every later one, so no name
/// occurs twice.
pub proof fn law_plan_without_duplicates(
    silent: Seq<Seq<char>>,
    own: Seq<Seq<char>>,
    files: Seq<FileSource>,
)
    requires
        prefix_ok(silent, own),
        names_well_formed(files),
        strictly_sorted(files),
        no_file_is_directory(files),
    ensures
        forall|i: int, j: int|
            #![trigger plan_of(silent, own, files)[i], plan_of(silent, own, files)[j]]
            0 <= i < j < plan_of(silent, own, files).len() ==> name_lt(
                plan_of(silent, own, files)[i].name(),
                plan_of(silent, own, files)[j].name(),
            ) && plan_of(silent, own, files)[i].name() != plan_of(silent, own, files)[j].name(),
{
    let plan = plan_of(silent, own, files);
    lemma_plan_order(silent, own, files, files.len());
    assert forall|i: int, j: int| #![trigger plan[i], plan[j]] 0 <= i < j < plan.len() implies name_lt(
        plan[i].name(),
        plan[j].name(),
    ) && plan[i].name() != plan[j].name() by {
        lemma_parts_asymmetric(item_parts(plan[i]), item_parts(plan[j]));
    }
}

/// A directory comes strictly before every later entry of the plan, so no
/// directory occurs twice.
pub proof fn law_directories_once(
    silent: Seq<Seq<char>>,
    own: Seq<Seq<char>>,
    files: Seq<FileSource>,
)
    requires
        prefix_ok(silent, own),
        names_well_formed(files),
        strictly_sorted(files),
    ensures
        forall|i: int, j: int|
            #![trigger plan_of(silent, own, files)[i], plan_of(silent, own, files)[j]]
            0 <= i < j < plan_of(silent, own, files).len() && plan_of(
                silent,
                own,
                files,
            )[i] is Directory ==> name_lt(
                plan_of(silent, own, files)[i].name(),
                plan_of(silent, own, files)[j].name(),
            ) && plan_of(silent, own, files)[i].name() != plan_of(silent, own, files)[j].name(),
{
    let plan = plan_of(silent, own, files);
    lemma_plan_order(silent, own, files, files.len());
    assert forall|i: int, j: int|
        #![trigger plan[i], plan[j]]
        0 <= i < j < plan.len() && plan[i] is Directory implies name_lt(
            plan[i].name(),
            plan[j].name(),
        ) && plan[i].name() != plan[j].name() by {
        lemma_parts_asymmetric(item_parts(plan[i]), item_parts(plan[j]));
    }
}

/// The plan after `n` files is the start of the plan after more files.
pub proof fn lemma_upto_prefix(
    silent: Seq<Seq<char>>,
    own: Seq<Seq<char>>,
    files: Seq<FileSource>,
    n: nat,
    n2: nat,
)
    requires
        n <= n2,
    ensures
        plan_upto(silent, own, files, n).len() <= plan_upto(silent, own, files, n2).len(),
        forall|x: int|
            0 <= x < plan_upto(silent, own, files, n).len() ==> plan_upto(silent, own, files, n2)[x]
                == plan_upto(silent, own, files, n)[x],
    decreases n2,
{
    if n < n2 {
        lemma_upto_prefix(silent, own, files, n, (n2 - 1) as nat);
        assert(plan_upto(silent, own, files, n2) =~= plan_upto(silent, own, files, (n2 - 1) as nat)
            + file_block(silent + own, files, n2 - 1));
    }
}

/// Where file `i` stands in the plan.
pub open spec fn file_index(
    silent: Seq<Seq<char>>,
    own: Seq<Seq<char>>,
    files: Seq<FileSource>,
    i: int,
) -> int {
    plan_upto(silent, own, files, (i + 1) as nat).len() - 1
}

/// Each directory on the way to file `i`, below the prefix, stands in the
/// plan after the first `i + 1` files, before the file.
proof fn lemma_directory_in_upto(
    silent: Seq<Seq<char>>,
    own: Seq<Seq<char>>,
    files: Seq<FileSource>,
    i: int,
    k: int,
)
    requires
        prefix_ok(silent, own),
        names_well_formed(files),
        0 <= i < files.len(),
        1 <= k < components_of(files[i].name@).len(),
    ensures
        exists|d: int|
            0 <= d < plan_upto(silent, own, files, (i + 1) as nat).len() - 1 && #[trigger] plan_upto(
                silent,
                own,
                files,
                (i + 1) as nat,
            )[d] == (PlanItem::Directory {
                name: name_of((silent + own) + components_of(files[i].name@).take(k)),
            }),
    decreases i,
{
    let p = silent + own;
    let f = components_of(files[i].name@);
    let prev = previous_parent(files, i);
    let sh = shared_len(prev, parent_of(f)) as int;
    let before = plan_upto(silent, own, files, i as nat);
    let after = plan_upto(silent, own, files, (i + 1) as nat);
    let b = file_block(p, files, i);
    lemma_block(p, files, i);
    lemma_shared_len_props(prev, parent_of(f));
    assert(after =~= before + b);
    if k > sh {
        let t = k - sh - 1;
        let d = before.len() + t;
        assert(after[d] == b[t]);
    } else {
        assert(i >= 1);
        let g = components_of(files[i - 1].name@);
        lemma_components_well_formed(files[i - 1].name@);
        lemma_directory_in_upto(silent, own, files, i - 1, k);
        let d = choose|d: int|
            0 <= d < before.len() - 1 && #[trigger] before[d] == (PlanItem::Directory {
                name: name_of(p + g.take(k)),
            });
        assert(g.take(k) =~= f.take(k)) by {
            assert forall|x: int| 0 <= x < k implies g[x] == f[x] by {
                assert(prev[x] == parent_of(f)[x]);
            }
        }
        assert(after[d] == before[d]);
    }
}

/// Every file of the plan comes after a directory for each level of its
/// name that lies below the silent prefix.
pub proof fn law_directories_precede(
    silent: Seq<Seq<char>>,
    own: Seq<Seq<char>>,
    files: Seq<FileSource>,
    i: int,
    m: int,
)
    requires
        prefix_ok(silent, own),
        names_well_formed(files),
        0 <= i < files.len(),
        silent.len() < m < (silent + own).len() + components_of(files[i].name@).len(),
    ensures
        ({
            let plan = plan_of(silent, own, files);
            let at = file_index(silent, own, files, i);
            let whole = (silent + own) + components_of(files[i].name@);
            &&& 0 <= at < plan.len()
            &&& plan[at] == (PlanItem::File { name: name_of(whole), source: files[i].source@ })
            &&& exists|d: int|
                0 <= d < at && #[trigger] plan[d] == (PlanItem::Directory {
                    name: name_of(whole.take(m)),
                })
        }),
{
    let p = silent + own;
    let f = components_of(files[i].name@);
    let whole = p + f;
    let plan = plan_of(silent, own, files);
    let after = plan_upto(silent, own, files, (i + 1) as nat);
    let before = plan_upto(silent, own, files, i as nat);
    let at = file_index(silent, own, files, i);
    lemma_block(p, files, i);
    let b = file_block(p, files, i);
    assert(after =~= before + b);
    assert(after[at] == b[b.len() - 1]);
    lemma_upto_prefix(silent, own, files, (i + 1) as nat, files.len());
    lemma_upto_prefix(silent, own, files, 0, i as nat);
    assert(plan == plan_upto(silent, own, files, files.len()));
    assert(plan[at] == after[at]);
    if m <= p.len() {
        let d = m - silent.len() - 1;
        let first = plan_upto(silent, own, files, 0);
        assert(first =~= prefix_directories(silent, own));
        assert(whole.take(m) =~= silent + own.take(d + 1));
        assert(before[d] == first[d]);
        assert(after[d] == before[d]);
        assert(plan[d] == after[d]);
    } else {
        let k = m - p.len();
        lemma_directory_in_upto(silent, own, files, i, k);
        let d = choose|d: int|
            0 <= d < after.len() - 1 && #[trigger] after[d] == (PlanItem::Directory {
                name: name_of(p + f.take(k)),
            });
        assert(whole.take(m) =~= p + f.take(k));
        assert(plan[d] == after[d]);
    }
}

/// The names of the directories of a plan.
pub open spec fn directory_names(plan: Seq<PlanItem>) -> Set<Seq<char>> {
    Set::new(
        |s: Seq<char>|
            exists|x: int| 0 <= x < plan.len() && #[trigger] plan[x] == (PlanItem::Directory { name: s }),
    )
}

/// The names of the directories that lead to the files of a plan: for each
/// file, each leading part of its name that is neither empty nor the whole.
pub open spec fn parent_names(plan: Seq<PlanItem>) -> Set<Seq<char>> {
    Set::new(
        |s: Seq<char>|
            exists|x: int, m: int|
                0 <= x < plan.len() && #[trigger] plan[x] is File && 1 <= m < item_parts(plan[x]).len()
                    && s == name_of(#[trigger] item_parts(plan[x]).take(m)),
    )
}

/// Every entry of the plan after the directories of the prefix belongs to
/// what one of the files adds.
proof fn lemma_locate(
    silent: Seq<Seq<char>>,
    own: Seq<Seq<char>>,
    files: Seq<FileSource>,
    n: nat,
    x: int,
)
    requires
        own.len() <= x < plan_upto(silent, own, files, n).len(),
    ensures
        exists|i: int, t: int|
            0 <= i < n && 0 <= t < file_block(silent + own, files, i).len() && x == plan_upto(
                silent,
                own,
                files,
                i as nat,
            ).len() + t && plan_upto(silent, own, files, n)[x] == #[trigger] file_block(
                silent + own,
                files,
                i,
            )[t],
    decreases n,
{
    let p = silent + own;
    if n == 0 {
        assert(plan_upto(silent, own, files, 0) =~= prefix_directories(silent, own));
    } else {
        let before = plan_upto(silent, own, files, (n - 1) as nat);
        let b = file_block(p, files, n - 1);
        let after = plan_upto(silent, own, files, n);
        assert(after =~= before + b);
        if x < before.len() {
            lemma_locate(silent, own, files, (n - 1) as nat, x);
            let (i, t) = choose|i: int, t: int|
                0 <= i < n - 1 && 0 <= t < file_block(p, files, i).len() && x == plan_upto(
                    silent,
                    own,
                    files,
                    i as nat,
                ).len() + t && before[x] == #[trigger] file_block(p, files, i)[t];
            assert(after[x] == file_block(p, files, i)[t]);
        } else {
            let t = x - before.len();
            assert(after[x] == file_block(p, files, n - 1)[t]);
        }
    }
}

/// Every file of the plan comes after a directory for each level of its
/// name below the silent prefix; here the file is given by its place in the
/// plan.
pub proof fn law_file_has_its_directories(
    silent: Seq<Seq<char>>,
    own: Seq<Seq<char>>,
    files: Seq<FileSource>,
    x: int,
    m: int,
)
    requires
        prefix_ok(silent, own),
        names_well_formed(files),
        0 <= x < plan_of(silent, own, files).len(),
        plan_of(silent, own, files)[x] is File,
        silent.len() < m < item_parts(plan_of(silent, own, files)[x]).len(),
    ensures
        exists|d: int|
            0 <= d < x && #[trigger] plan_of(silent, own, files)[d] == (PlanItem::Directory {
                name: name_of(item_parts(plan_of(silent, own, files)[x]).take(m)),
            }),
{
    let p = silent + own;
    let plan = plan_of(silent, own, files);
    let n = files.len();
    assert(plan == plan_upto(silent, own, files, n));
    if x < own.len() {
        lemma_upto_prefix(silent, own, files, 0, n);
        assert(plan_upto(silent, own, files, 0) =~= prefix_directories(silent, own));
        assert(plan[x] == prefix_directories(silent, own)[x]);
    } else {
        lemma_locate(silent, own, files, n, x);
        let (i, t) = choose|i: int, t: int|
            0 <= i < n && 0 <= t < file_block(p, files, i).len() && x == plan_upto(
                silent,
                own,
                files,
                i as nat,
            ).len() + t && plan[x] == #[trigger] file_block(p, files, i)[t];
        lemma_block(p, files, i);
        let f = components_of(files[i].name@);
        let b = file_block(p, files, i);
        assert(t == b.len() - 1) by {
            if t < b.len() - 1 {
                assert(b[t] is Directory);
            }
        }
        lemma_prefixed_parts(p, f, f.len() as int);
        assert(f.take(f.len() as int) =~= f);
        assert(item_parts(plan[x]) == p + f);
        assert(plan_upto(silent, own, files, (i + 1) as nat) =~= plan_upto(
            silent,
            own,
            files,
            i as nat,
        ) + b);
        assert(x == file_index(silent, own, files, i));
        law_directories_precede(silent, own, files, i, m);
    }
}

/// Without a silent prefix, and with at least one source where there is an
/// own prefix, every directory of the plan leads to one of its files.
proof fn lemma_directory_is_parent(own: Seq<Seq<char>>, files: Seq<FileSource>, s: Seq<char>)
    requires
        prefix_ok(Seq::empty(), own),
        names_well_formed(files),
        own.len() == 0 || files.len() > 0,
        directory_names(plan_of(Seq::empty(), own, files)).contains(s),
    ensures
        parent_names(plan_of(Seq::empty(), own, files)).contains(s),
{
    let silent = Seq::<Seq<char>>::empty();
    let p = silent + own;
    assert(p =~= own);
    let plan = plan_of(silent, own, files);
    let n = files.len();
    assert(plan == plan_upto(silent, own, files, n));
    let x = choose|x: int|
        0 <= x < plan.len() && #[trigger] plan[x] == (PlanItem::Directory { name: s });
    if x < own.len() {
        lemma_upto_prefix(silent, own, files, 0, n);
        assert(plan_upto(silent, own, files, 0) =~= prefix_directories(silent, own));
        assert(plan[x] == prefix_directories(silent, own)[x]);
        let f = components_of(files[0].name@);
        lemma_components_well_formed(files[0].name@);
        law_directories_precede(silent, own, files, 0, x + 1);
        let at = file_index(silent, own, files, 0);
        let whole = p + f;
        lemma_prefixed_parts(p, f, f.len() as int);
        assert(f.take(f.len() as int) =~= f);
        assert(item_parts(plan[at]) == whole);
        assert(whole.take(x + 1) =~= silent + own.take(x + 1));
        assert(plan[at] is File && 1 <= x + 1 < item_parts(plan[at]).len() && s == name_of(
            item_parts(plan[at]).take(x + 1),
        ));
    } else {
        lemma_locate(silent, own, files, n, x);
        let (i, t) = choose|i: int, t: int|
            0 <= i < n && 0 <= t < file_block(p, files, i).len() && x == plan_upto(
                silent,
                own,
                files,
                i as nat,
            ).len() + t && plan[x] == #[trigger] file_block(p, files, i)[t];
        lemma_block(p, files, i);
        let f = components_of(files[i].name@);
        let sh = shared_len(previous_parent(files, i), parent_of(f)) as int;
        let b = file_block(p, files, i);
        assert(t < b.len() - 1);
        assert(b[t] == (PlanItem::Directory { name: name_of(p + f.take(sh + t + 1)) }));
        let m = p.len() + sh + t + 1;
        law_directories_precede(silent, own, files, i, m);
        let at = file_index(silent, own, files, i);
        let whole = p + f;
        lemma_prefixed_parts(p, f, f.len() as int);
        assert(f.take(f.len() as int) =~= f);
        assert(item_parts(plan[at]) == whole);
        assert(whole.take(m) =~= p + f.take(sh + t + 1));
        assert(plan[at] is File && 1 <= m < item_parts(plan[at]).len() && s == name_of(
            item_parts(plan[at]).take(m),
        ));
    }
}

/// Without a silent prefix, every directory that leads to a file of the
/// plan is in the plan.
proof fn lemma_parent_is_directory(own: Seq<Seq<char>>, files: Seq<FileSource>, s: Seq<char>)
    requires
        prefix_ok(Seq::empty(), own),
        names_well_formed(files),
        parent_names(plan_of(Seq::empty(), own, files)).contains(s),
    ensures
        directory_names(plan_of(Seq::empty(), own, files)).contains(s),
{
    let silent = Seq::<Seq<char>>::empty();
    let plan = plan_of(silent, own, files);
    let (x, m) = choose|x: int, m: int|
        0 <= x < plan.len() && #[trigger] plan[x] is File && 1 <= m < item_parts(plan[x]).len()
            && s == name_of(#[trigger] item_parts(plan[x]).take(m));
    law_file_has_its_directories(silent, own, files, x, m);
    let d = choose|d: int|
        0 <= d < x && #[trigger] plan[d] == (PlanItem::Directory {
            name: name_of(item_parts(plan[x]).take(m)),
        });
    assert(plan[d] == (PlanItem::Directory { name: s }));
}

/// Without a silent prefix, and with at least one source where there is an
/// own prefix, the directories of the plan are exactly the directories that
/// lead to its files.
pub proof fn law_directories_are_parents(own: Seq<Seq<char>>, files: Seq<FileSource>)
    requires
        prefix_ok(Seq::empty(), own),
        names_well_formed(files),
        own.len() == 0 || files.len() > 0,
    ensures
        directory_names(plan_of(Seq::empty(), own, files)) == parent_names(
            plan_of(Seq::empty(), own, files),
        ),
{
    let plan = plan_of(Seq::empty(), own, files);
    assert forall|s: Seq<char>| directory_names(plan).contains(s) implies parent_names(
        plan,
    ).contains(s) by {
        lemma_directory_is_parent(own, files, s);
    }
    assert forall|s: Seq<char>| parent_names(plan).contains(s) implies directory_names(
        plan,
    ).contains(s) by {
        lemma_parent_is_directory(own, files, s);
    }
    assert(directory_names(plan) =~= parent_names(plan));
}

/// The plan is in name order, no directory occurs twice, and every file
/// comes after the directories that lead to it below the silent prefix.
pub proof fn law_plan_shape(silent: Seq<Seq<char>>, own: Seq<Seq<char>>, files: Seq<FileSource>)
    requires
        prefix_ok(silent, own),
        names_well_formed(files),
        strictly_sorted(files),
    ensures
        name_sorted(plan_of(silent, own, files)),
        directories_once(plan_of(silent, own, files)),
        directories_before_files(plan_of(silent, own, files), silent.len() as int),
{
    let plan = plan_of(silent, own, files);
    law_plan_sorted(silent, own, files);
    law_directories_once(silent, own, files);
    assert forall|x: int, m: int|
        0 <= x < plan.len() && plan[x] is File && silent.len() < m < item_parts(plan[x]).len()
        implies #[trigger] has_directory_before(plan, x, name_of(item_parts(plan[x]).take(m))) by {
        law_file_has_its_directories(silent, own, files, x, m);
    }
}

/// Without sources and without an own prefix the plan is empty.
pub proof fn law_empty_plan(silent: Seq<Seq<char>>)
    ensures
        plan_of(silent, Seq::empty(), Seq::empty()) == Seq::<PlanItem>::empty(),
{
    assert(plan_of(silent, Seq::empty(), Seq::empty()) =~= Seq::<PlanItem>::empty());
}

/// A single source whose name has one component, without prefixes, gives a
/// plan of that file alone: no directory is added.
pub proof fn law_single_root_file(files: Seq<FileSource>)
    requires
        files.len() == 1,
        well_formed(files[0].name@),
        components_of(files[0].name@).len() == 1,
    ensures
        plan_of(Seq::empty(), Seq::empty(), files) == seq![
            PlanItem::File { name: files[0].name@, source: files[0].source@ },
        ],
{
    let none = Seq::<Seq<char>>::empty();
    let f = components_of(files[0].name@);
    let plan = plan_of(none, none, files);
    lemma_components_well_formed(files[0].name@);
    assert(none + none =~= none);
    assert(none + f =~= f);
    assert(emitted(none, files, 1) == emitted(none, files, 0) + file_block(none, files, 0));
    assert(parent_of(f) =~= none);
    assert(new_directories(none, previous_parent(files, 0), parent_of(f)).len() == 0);
    assert(plan =~= seq![PlanItem::File { name: files[0].name@, source: files[0].source@ }]);
}

/// The names of the files of a plan, in order.
pub open spec fn file_names(plan: Seq<PlanItem>) -> Seq<Seq<char>>
    decreases plan.len(),
{
    if plan.len() == 0 {
        Seq::empty()
    } else if plan.last() is File {
        file_names(plan.drop_last()).push(plan.last().name())
    } else {
        file_names(plan.drop_last())
    }
}

/// The names of the sources, in order.
pub open spec fn source_names(files: Seq<FileSource>) -> Seq<Seq<char>> {
    Seq::new(files.len(), |i: int| files[i].name@)
}

/// Two plans list the same names in the same order, files as files and
/// directories as directories.
pub open spec fn same_listing(a: Seq<PlanItem>, b: Seq<PlanItem>) -> bool {
    &&& a.len() == b.len()
    &&& forall|x: int| 0 <= x < a.len() ==> (#[trigger] a[x]).name() == b[x].name()
    &&& forall|x: int| 0 <= x < a.len() ==> ((#[trigger] a[x]) is File <==> b[x] is File)
}

/// The file names of two plans, one after the other, are those of the
/// first followed by those of the second.
proof fn lemma_file_names_add(a: Seq<PlanItem>, b: Seq<PlanItem>)
    ensures
        file_names(a + b) == file_names(a) + file_names(b),
    decreases b.len(),
{
    if b.len() == 0 {
        assert(a + b =~= a);
        assert(file_names(a) + file_names(b) =~= file_names(a));
    } else {
        let ab = a + b;
        assert(ab.drop_last() =~= a + b.drop_last());
        assert(ab.last() == b.last());
        lemma_file_names_add(a, b.drop_last());
        assert(file_names(ab) =~= file_names(a) + file_names(b));
    }
}

/// Directories alone have no file names.
proof fn lemma_file_names_of_directories(a: Seq<PlanItem>)
    requires
        forall|i: int| 0 <= i < a.len() ==> (#[trigger] a[i]) is Directory,
    ensures
        file_names(a).len() == 0,
    decreases a.len(),
{
    if a.len() > 0 {
        let init = a.drop_last();
        assert forall|i: int| 0 <= i < init.len() implies (#[trigger] init[i]) is Directory by {
            assert(init[i] == a[i]);
        }
        lemma_file_names_of_directories(init);
        assert(a.last() == a[a.len() - 1]);
    }
}

/// The files of what the first `n` sources add to the plan are these
/// sources, each under the prefix, in order.
proof fn lemma_emitted_file_names(p: Seq<Seq<char>>, files: Seq<FileSource>, n: nat)
    requires
        n <= files.len(),
    ensures
        file_names(emitted(p, files, n)) == Seq::new(
            n,
            |i: int| name_of(p + components_of(files[i].name@)),
        ),
    decreases n,
{
    let want = Seq::new(n, |i: int| name_of(p + components_of(files[i].name@)));
    if n == 0 {
        assert(file_names(emitted(p, files, 0)) =~= want);
    } else {
        let m = (n - 1) as nat;
        lemma_emitted_file_names(p, files, m);
        let block = file_block(p, files, n - 1);
        let dirs = new_directories(
            p,
            previous_parent(files, n - 1),
            parent_of(components_of(files[n - 1].name@)),
        );
        assert(block.drop_last() =~= dirs);
        lemma_file_names_of_directories(dirs);
        assert(file_names(block) =~= seq![name_of(p + components_of(files[n - 1].name@))]);
        lemma_file_names_add(emitted(p, files, m), block);
        assert(file_names(emitted(p, files, n)) =~= want);
    }
}

/// Without prefixes, the files of the plan are the sources, under their own
/// names and in their order.
pub proof fn law_plan_files_are_the_sources(files: Seq<FileSource>)
    ensures
        file_names(plan_of(Seq::empty(), Seq::empty(), files)) == source_names(files),
{
    let none = Seq::<Seq<char>>::empty();
    let p = none + none;
    assert(p =~= none);
    lemma_emitted_file_names(p, files, files.len());
    assert(prefix_directories(none, none) =~= Seq::<PlanItem>::empty());
    assert(plan_of(none, none, files) =~= emitted(p, files, files.len()));
    assert forall|i: int| 0 <= i < files.len() implies name_of(
        p + components_of(#[trigger] files[i].name@),
    ) == files[i].name@ by {
        assert(p + components_of(files[i].name@) =~= components_of(files[i].name@));
        lemma_join_split(files[i].name@, '/');
    }
    assert(file_names(plan_of(none, none, files)) =~= source_names(files));
}

/// What sources of the same names add to the plan lists the same names.
proof fn lemma_same_emitted(p: Seq<Seq<char>>, a: Seq<FileSource>, b: Seq<FileSource>, n: nat)
    requires
        source_names(a) == source_names(b),
        n <= a.len(),
    ensures
        same_listing(emitted(p, a, n), emitted(p, b, n)),
    decreases n,
{
    assert(a.len() == b.len()) by {
        assert(source_names(a).len() == a.len());
        assert(source_names(b).len() == b.len());
    }
    assert forall|i: int| 0 <= i < a.len() implies (#[trigger] a[i]).name@ == b[i].name@ by {
        assert(source_names(a)[i] == a[i].name@);
        assert(source_names(b)[i] == b[i].name@);
    }
    if n > 0 {
        let m = (n - 1) as nat;
        lemma_same_emitted(p, a, b, m);
        let before_a = emitted(p, a, m);
        let before_b = emitted(p, b, m);
        let block_a = file_block(p, a, n - 1);
        let block_b = file_block(p, b, n - 1);
        assert(a[n - 1].name@ == b[n - 1].name@);
        if n >= 2 {
            assert(a[n - 2].name@ == b[n - 2].name@);
        }
        assert(previous_parent(a, n - 1) == previous_parent(b, n - 1));
        let dirs = new_directories(
            p,
            previous_parent(a, n - 1),
            parent_of(components_of(a[n - 1].name@)),
        );
        assert(block_a.len() == block_b.len());
        assert forall|x: int| 0 <= x < block_a.len() implies (#[trigger] block_a[x]).name()
            == block_b[x].name() && (block_a[x] is File <==> block_b[x] is File) by {
            if x < dirs.len() {
                assert(block_a[x] == dirs[x]);
                assert(block_b[x] == dirs[x]);
            }
        }
        let out_a = emitted(p, a, n);
        let out_b = emitted(p, b, n);
        assert(out_a =~= before_a + block_a);
        assert(out_b =~= before_b + block_b);
        assert forall|x: int| 0 <= x < out_a.len() implies (#[trigger] out_a[x]).name()
            == out_b[x].name() && (out_a[x] is File <==> out_b[x] is File) by {
            if x < before_a.len() {
                assert(out_a[x] == before_a[x]);
                assert(out_b[x] == before_b[x]);
            } else {
                let t = x - before_a.len();
                assert(out_a[x] == block_a[t]);
                assert(out_b[x] == block_b[t]);
            }
        }
    }
}

/// The names that a plan lists, and their order, depend only on the names
/// of the sources, not on where the sources are read from.
pub proof fn law_plan_lists_names_only(
    silent: Seq<Seq<char>>,
    own: Seq<Seq<char>>,
    a: Seq<FileSource>,
    b: Seq<FileSource>,
)
    requires
        source_names(a) == source_names(b),
    ensures
        same_listing(plan_of(silent, own, a), plan_of(silent, own, b)),
{
    assert(a.len() == b.len()) by {
        assert(source_names(a).len() == a.len());
        assert(source_names(b).len() == b.len());
    }
    lemma_same_emitted(silent + own, a, b, a.len());
    let dirs = prefix_directories(silent, own);
    let plan_a = plan_of(silent, own, a);
    let plan_b = plan_of(silent, own, b);
    let rest_a = emitted(silent + own, a, a.len());
    let rest_b = emitted(silent + own, b, b.len());
    assert forall|x: int| 0 <= x < plan_a.len() implies (#[trigger] plan_a[x]).name()
        == plan_b[x].name() && (plan_a[x] is File <==> plan_b[x] is File) by {
        if x < dirs.len() {
            assert(plan_a[x] == dirs[x]);
            assert(plan_b[x] == dirs[x]);
        } else {
            let t = x - dirs.len();
            assert(plan_a[x] == rest_a[t]);
            assert(plan_b[x] == rest_b[t]);
        }
    }
}

/// Planning the files of a plan again gives the same listing: where the
/// sources `again` have the names of the files of the plan for `files`, in
/// the order of that plan, they are in name order without a duplicate, and
/// their plan lists the same names in the same order as the plan for
/// `files`, directories included. Both plans are without prefixes.
pub proof fn law_planning_again(files: Seq<FileSource>, again: Seq<FileSource>)
    requires
        strictly_sorted(files),
        source_names(again) == file_names(plan_of(Seq::empty(), Seq::empty(), files)),
    ensures
        strictly_sorted(again),
        !has_duplicate_names(again),
        in_name_order(again) == again,
        same_listing(
            plan_of(Seq::empty(), Seq::empty(), in_name_order(again)),
            plan_of(Seq::empty(), Seq::empty(), files),
        ),
{
    law_plan_files_are_the_sources(files);
    assert(again.len() == files.len()) by {
        assert(source_names(again).len() == again.len());
        assert(source_names(files).len() == files.len());
    }
    assert forall|i: int| 0 <= i < again.len() implies (#[trigger] again[i]).name@
        == files[i].name@ by {
        assert(source_names(again)[i] == again[i].name@);
        assert(source_names(files)[i] == files[i].name@);
    }
    assert forall|i: int, j: int| 0 <= i < j < again.len() implies name_lt(
        again[i].name@,
        again[j].name@,
    ) by {
        assert(name_lt(files[i].name@, files[j].name@));
    }
    if has_duplicate_names(again) {
        let (i, j) = choose|i: int, j: int|
            0 <= i < j < again.len() && again[i].name@ == again[j].name@;
        assert(name_lt(again[i].name@, again[j].name@));
        lemma_parts_irreflexive(components_of(again[i].name@));
    }
    assert(arranged(again, again));
    law_arrangement_unique(in_name_order(again), again);
    law_plan_lists_names_only(Seq::empty(), Seq::empty(), again, files);
}

} // verus!
