//! Merging existing archives under prefixes.
//!
//! The archives to merge come in groups, each with an optional prefix. The
//! groups are written on the command line as a flat list of tokens: a token
//! `+prefix/` opens a group, any other token is an archive of the group that
//! is open. The merge itself is a list of steps: for each group the
//! directories that its prefix opens beyond what it shares with the prefix of
//! the group before it, and then its archives in order.

use vstd::prelude::*;
use crate::name::{
    components_of, name_of, valid_name, well_formed_parts, EntryName, MedusaNameFormatError,
};
use crate::plan::{calculate_new_rightmost_components, new_rightmost};
use crate::order::{lemma_shared_len_props, shared_len};
use crate::text::{append_parts, chars_of, string_of, sub_chars, texts, views};

verus! {

/// Archives to merge, and the prefix under which their entries go.
#[derive(Debug)]
pub struct MergeGroup {
    /// The directory that the entries of the archives go under, if any.
    pub prefix: Option<EntryName>,
    /// The paths of the archives, in the order in which they are merged.
    pub sources: Vec<String>,
}

/// Why a list of tokens is not a list of groups.
#[derive(Debug)]
pub enum MergeArgParseError {
    /// The prefix of a group is not an acceptable name.
    NameFormat(MedusaNameFormatError),
}

/// The groups of a merge, in order.
#[derive(Debug)]
pub struct MedusaMerge {
    pub groups: Vec<MergeGroup>,
}

/// One step of a merge.
#[derive(Debug)]
pub enum IntermediateMergeEntry {
    /// Add a directory of this name to the output.
    AddDirectory(EntryName),
    /// Copy the entries of the archive at this path to the output.
    MergeZip(String),
}

/// A group by what it holds.
pub struct GroupView {
    pub prefix: Option<Seq<char>>,
    pub sources: Seq<Seq<char>>,
}

/// A merge step by what it holds.
pub enum MergeStep {
    AddDirectory { name: Seq<char> },
    MergeZip { source: Seq<char> },
}

impl View for MergeGroup {
    type V = GroupView;

    open spec fn view(&self) -> GroupView {
        GroupView {
            prefix: match self.prefix {
                None => None,
                Some(n) => Some(n@),
            },
            sources: texts(self.sources@),
        }
    }
}

impl View for IntermediateMergeEntry {
    type V = MergeStep;

    open spec fn view(&self) -> MergeStep {
        match self {
            IntermediateMergeEntry::AddDirectory(n) => MergeStep::AddDirectory { name: n@ },
            IntermediateMergeEntry::MergeZip(s) => MergeStep::MergeZip { source: s@ },
        }
    }
}

/// The groups by what they hold.
pub open spec fn group_views(groups: Seq<MergeGroup>) -> Seq<GroupView> {
    Seq::new(groups.len(), |i: int| groups[i]@)
}

/// The steps by what they hold.
pub open spec fn step_views(steps: Seq<IntermediateMergeEntry>) -> Seq<MergeStep> {
    Seq::new(steps.len(), |i: int| steps[i]@)
}

impl View for MedusaMerge {
    type V = Seq<GroupView>;

    open spec fn view(&self) -> Seq<GroupView> {
        group_views(self.groups@)
    }
}

/// The token opens a group: it starts with `+` and ends with `/`.
pub open spec fn opens_group(token: Seq<char>) -> bool {
    token.len() >= 2 && token[0] == '+' && token.last() == '/'
}

/// What stands between the `+` and the `/` of a token that opens a group.
pub open spec fn token_prefix(token: Seq<char>) -> Seq<char> {
    token.subrange(1, token.len() - 1)
}

/// The token opens a group with a prefix that is not an acceptable name.
pub open spec fn bad_token(token: Seq<char>) -> bool {
    opens_group(token) && token_prefix(token).len() > 0 && !valid_name(token_prefix(token))
}

/// The groups that are complete, and the group that is open, if any.
pub struct ParseState {
    pub done: Seq<GroupView>,
    pub open: Option<GroupView>,
}

/// The complete groups and the open group, one after another.
pub open spec fn all_groups(state: ParseState) -> Seq<GroupView> {
    match state.open {
        None => state.done,
        Some(g) => state.done.push(g),
    }
}

/// The state after one more token. A token that opens a group completes
/// the open group; any other token is an archive of the open group, or of
/// a group without prefix if none is open.
pub open spec fn after_token(state: ParseState, token: Seq<char>) -> ParseState {
    if opens_group(token) {
        ParseState {
            done: all_groups(state),
            open: Some(
                GroupView {
                    prefix: if token_prefix(token).len() == 0 {
                        None
                    } else {
                        Some(token_prefix(token))
                    },
                    sources: Seq::empty(),
                },
            ),
        }
    } else {
        ParseState {
            done: state.done,
            open: Some(
                match state.open {
                    None => GroupView { prefix: None, sources: seq![token] },
                    Some(g) => GroupView { prefix: g.prefix, sources: g.sources.push(token) },
                },
            ),
        }
    }
}

/// The state after the first `n` tokens.
pub open spec fn after_tokens(tokens: Seq<Seq<char>>, n: nat) -> ParseState
    decreases n,
{
    if n == 0 {
        ParseState { done: Seq::empty(), open: None }
    } else {
        after_token(after_tokens(tokens, (n - 1) as nat), tokens[n - 1])
    }
}

/// The groups that the tokens describe.
pub open spec fn groups_of_tokens(tokens: Seq<Seq<char>>) -> Seq<GroupView> {
    all_groups(after_tokens(tokens, tokens.len()))
}

/// The components of the prefix of group `i`; none for a group without
/// prefix, and none before the first group.
pub open spec fn group_parts(groups: Seq<GroupView>, i: int) -> Seq<Seq<char>> {
    if 0 <= i < groups.len() {
        match groups[i].prefix {
            None => Seq::empty(),
            Some(s) => components_of(s),
        }
    } else {
        Seq::empty()
    }
}

/// The directories that group `i` opens: one for each leading part of its
/// prefix that is longer than what the prefix shares with the prefix of the
/// group before it, shortest first.
pub open spec fn group_directories(groups: Seq<GroupView>, i: int) -> Seq<MergeStep> {
    Seq::new(
        new_rightmost(group_parts(groups, i - 1), group_parts(groups, i)).len(),
        |j: int|
            MergeStep::AddDirectory {
                name: name_of(
                    group_parts(groups, i).take(
                        new_rightmost(group_parts(groups, i - 1), group_parts(groups, i))[j],
                    ),
                ),
            },
    )
}

/// The archives of group `i`, in order.
pub open spec fn group_archives(groups: Seq<GroupView>, i: int) -> Seq<MergeStep> {
    Seq::new(groups[i].sources.len(), |j: int| MergeStep::MergeZip { source: groups[i].sources[j] })
}

/// The steps for the first `n` groups.
pub open spec fn merge_steps(groups: Seq<GroupView>, n: nat) -> Seq<MergeStep>
    decreases n,
{
    if n == 0 {
        Seq::empty()
    } else {
        merge_steps(groups, (n - 1) as nat) + group_directories(groups, n - 1) + group_archives(
            groups,
            n - 1,
        )
    }
}

/// Between two groups that follow each other, the directories added are
/// exactly the leading parts of the second prefix that the first prefix
/// does not share: one for each length above the shared length, up to the
/// whole prefix, and no other.
pub proof fn law_directories_between_groups(groups: Seq<GroupView>, i: int, m: int)
    requires
        0 <= i < groups.len(),
    ensures
        ({
            let shared = shared_len(group_parts(groups, i - 1), group_parts(groups, i)) as int;
            let dirs = group_directories(groups, i);
            &&& shared <= group_parts(groups, i).len()
            &&& dirs.len() == group_parts(groups, i).len() - shared
            &&& shared < m <= group_parts(groups, i).len() ==> dirs[m - shared - 1] == (
            MergeStep::AddDirectory { name: name_of(group_parts(groups, i).take(m)) })
            &&& forall|j: int|
                0 <= j < dirs.len() ==> #[trigger] dirs[j] == (MergeStep::AddDirectory {
                    name: name_of(group_parts(groups, i).take(shared + j + 1)),
                })
        }),
{
    lemma_shared_len_props(group_parts(groups, i - 1), group_parts(groups, i));
}

/// The parse state that the complete groups and the open group stand for.
pub open spec fn state_view(done: Seq<MergeGroup>, open: Option<MergeGroup>) -> ParseState {
    ParseState {
        done: group_views(done),
        open: match open {
            None => None,
            Some(g) => Some(g@),
        },
    }
}

impl MedusaMerge {
    /// Reads the groups from a flat list of tokens.
    ///
    /// A token that starts with `+` and ends with `/` opens a group whose
    /// prefix is what stands between the two; nothing between them means no
    /// prefix. Every other token is an archive of the group that is open;
    /// archives before the first such token form a group without prefix.
    /// The first prefix that is not an acceptable name is refused.
    pub fn parse_from_args(args: &Vec<String>) -> (r: Result<MedusaMerge, MergeArgParseError>)
        ensures
            match r {
                Ok(m) => {
                    &&& forall|i: int| 0 <= i < args@.len() ==> !bad_token(#[trigger] texts(args@)[i])
                    &&& m@ == groups_of_tokens(texts(args@))
                },
                Err(MergeArgParseError::NameFormat(e)) => exists|k: int|
                    0 <= k < args@.len() && bad_token(#[trigger] texts(args@)[k]) && e.refuses(
                        token_prefix(texts(args@)[k]),
                    ) && forall|j: int| 0 <= j < k ==> !bad_token(#[trigger] texts(args@)[j]),
            },
    {
        let ghost tokens = texts(args@);
        let mut done: Vec<MergeGroup> = Vec::new();
        let mut open: Option<MergeGroup> = None;
        let mut i: usize = 0;
        proof {
            assert(group_views(done@) =~= Seq::<GroupView>::empty());
        }
        while i < args.len()
            invariant
                i <= args.len(),
                tokens == texts(args@),
                forall|j: int| 0 <= j < i ==> !bad_token(#[trigger] tokens[j]),
                state_view(done@, open) == after_tokens(tokens, i as nat),
            decreases args.len() - i,
        {
            let ghost before = state_view(done@, open);
            let chars = chars_of(args[i].as_str());
            let ghost token = tokens[i as int];
            assert(chars@ == token);
            let n = chars.len();
            if n >= 2 && chars[0] == '+' && chars[n - 1] == '/' {
                let inner = sub_chars(&chars, 1, n - 1);
                let prefix: Option<EntryName> = if inner.len() == 0 {
                    None
                } else {
                    match EntryName::validate(string_of(&inner)) {
                        Err(e) => {
                            return Err(MergeArgParseError::NameFormat(e));
                        },
                        Ok(name) => Some(name),
                    }
                };
                let ghost old_done = done@;
                match open {
                    None => {},
                    Some(g) => {
                        done.push(g);
                        proof {
                            assert(group_views(done@) =~= group_views(old_done).push(g@));
                        }
                    },
                }
                open = Some(MergeGroup { prefix, sources: Vec::new() });
                proof {
                    let g = open->0;
                    assert(texts(g.sources@) =~= Seq::<Seq<char>>::empty());
                    assert(state_view(done@, open) == after_token(before, token));
                }
            } else {
                let mut group = match open {
                    None => MergeGroup { prefix: None, sources: Vec::new() },
                    Some(g) => g,
                };
                let ghost old_sources = group.sources@;
                let MergeGroup { prefix, sources } = group;
                let mut sources = sources;
                sources.push(args[i].clone());
                proof {
                    assert(texts(sources@) =~= texts(old_sources).push(token));
                    if before.open is None {
                        assert(texts(old_sources) =~= Seq::<Seq<char>>::empty());
                        assert(texts(sources@) =~= seq![token]);
                    }
                }
                open = Some(MergeGroup { prefix, sources });
                proof {
                    assert(state_view(done@, open) == after_token(before, token));
                }
            }
            i += 1;
        }
        let ghost old_done = done@;
        match open {
            None => {},
            Some(g) => {
                done.push(g);
                proof {
                    assert(group_views(done@) =~= group_views(old_done).push(g@));
                }
            },
        }
        Ok(MedusaMerge { groups: done })
    }

    /// The steps of this merge, in the order in which they are carried out.
    ///
    /// Each group contributes the directories that its prefix opens beyond
    /// what it shares with the prefix of the group before it, and then its
    /// archives.
    pub fn merge(&self) -> (steps: Vec<IntermediateMergeEntry>)
        ensures
            step_views(steps@) == merge_steps(self@, self.groups@.len()),
    {
        let ghost groups = self@;
        let mut steps: Vec<IntermediateMergeEntry> = Vec::new();
        let mut previous: Vec<Vec<char>> = Vec::new();
        let mut i: usize = 0;
        proof {
            assert(step_views(steps@) =~= merge_steps(groups, 0));
            assert(views(previous@) =~= group_parts(groups, -1));
        }
        while i < self.groups.len()
            invariant
                i <= self.groups.len(),
                groups == self@,
                groups.len() == self.groups@.len(),
                views(previous@) == group_parts(groups, i as int - 1),
                step_views(steps@) == merge_steps(groups, i as nat),
            decreases self.groups.len() - i,
        {
            let ghost base = step_views(steps@);
            let group = &self.groups[i];
            assert(groups[i as int] == group@);
            let mut current: Vec<Vec<char>> = Vec::new();
            match &group.prefix {
                None => {
                    proof {
                        assert(views(current@) =~= group_parts(groups, i as int));
                    }
                },
                Some(name) => {
                    let parts = name.parts();
                    append_parts(&mut current, parts, parts.len());
                    proof {
                        assert(views(parts@).take(parts.len() as int) =~= views(parts@));
                        assert(views(current@) =~= group_parts(groups, i as int));
                    }
                },
            }
            let lens = calculate_new_rightmost_components(&previous, &current);
            let ghost dirs = group_directories(groups, i as int);
            let mut t: usize = 0;
            proof {
                assert(step_views(steps@) =~= base + dirs.take(0));
            }
            while t < lens.len()
                invariant
                    t <= lens.len(),
                    lens@.len() == dirs.len(),
                    dirs == group_directories(groups, i as int),
                    views(current@) == group_parts(groups, i as int),
                    views(previous@) == group_parts(groups, i as int - 1),
                    lens@.len() > 0 ==> well_formed_parts(views(current@)),
                    forall|j: int|
                        0 <= j < lens@.len() ==> lens@[j] as int == new_rightmost(
                            views(previous@),
                            views(current@),
                        )[j],
                    forall|j: int| 0 <= j < lens@.len() ==> 1 <= #[trigger] lens@[j] <= current.len(),
                    step_views(steps@) == base + dirs.take(t as int),
                decreases lens.len() - t,
            {
                let directory = EntryName::from_parts(&current, lens[t]);
                let ghost before = step_views(steps@);
                steps.push(IntermediateMergeEntry::AddDirectory(directory));
                proof {
                    assert(step_views(steps@) =~= before.push(
                        MergeStep::AddDirectory { name: directory@ },
                    ));
                    assert(dirs.take(t as int + 1) =~= dirs.take(t as int).push(dirs[t as int]));
                    assert(step_views(steps@) =~= base + dirs.take(t as int + 1));
                }
                t += 1;
            }
            let ghost with_dirs = step_views(steps@);
            let ghost archives = group_archives(groups, i as int);
            let mut k: usize = 0;
            proof {
                assert(dirs.take(lens.len() as int) =~= dirs);
                assert(step_views(steps@) =~= base + dirs + archives.take(0));
            }
            while k < group.sources.len()
                invariant
                    k <= group.sources.len(),
                    archives == group_archives(groups, i as int),
                    groups[i as int] == group@,
                    archives.len() == group.sources@.len(),
                    step_views(steps@) == base + dirs + archives.take(k as int),
                decreases group.sources.len() - k,
            {
                let source = group.sources[k].clone();
                let ghost before = step_views(steps@);
                steps.push(IntermediateMergeEntry::MergeZip(source));
                proof {
                    assert(step_views(steps@) =~= before.push(MergeStep::MergeZip { source: source@ }));
                    assert(archives.take(k as int + 1) =~= archives.take(k as int).push(
                        archives[k as int],
                    ));
                    assert(step_views(steps@) =~= base + dirs + archives.take(k as int + 1));
                }
                k += 1;
            }
            proof {
                assert(archives.take(group.sources.len() as int) =~= archives);
                assert(merge_steps(groups, (i + 1) as nat) == merge_steps(groups, i as nat) + dirs
                    + archives);
            }
            previous = current;
            i += 1;
        }
        steps
    }
}

} // verus!
