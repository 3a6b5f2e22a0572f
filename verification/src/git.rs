//! Worktrees of a git repository as the sidebar lists them, and the project
//! a repository stands for.
use vstd::prelude::*;

use crate::paths::{self, dir_name_of, file_name, parent_of_named};

verus! {

/// Lines added and removed against HEAD.
#[derive(Debug, Clone, Copy, PartialEq, Eq, Structural)]
pub struct DiffStats {
    pub added: u32,
    pub removed: u32,
}

impl DiffStats {
    /// No line added nor removed.
    pub fn is_clean(&self) -> (r: bool)
        ensures
            r == (self.added == 0 && self.removed == 0),
    {
        self.added == 0 && self.removed == 0
    }
}

/// One checkout of the repository.
#[derive(Debug, PartialEq, Eq)]
pub struct Worktree {
    pub name: String,
    pub path: String,
    pub is_main: bool,
    /// Checked out branch, `None` when HEAD is detached.
    pub branch: Option<String>,
    pub diff: Option<DiffStats>,
    /// Committer time of the branch tip, in seconds since the Unix epoch.
    pub last_commit: Option<u64>,
}

impl Clone for Worktree {
    fn clone(&self) -> (r: Self)
        ensures
            r == *self,
    {
        Worktree {
            name: self.name.clone(),
            path: self.path.clone(),
            is_main: self.is_main,
            branch: match &self.branch {
                Some(b) => Some(b.clone()),
                None => None,
            },
            diff: self.diff,
            last_commit: self.last_commit,
        }
    }
}

/// Is `c` one of the characters that end a branch name's leading segment.
pub open spec fn is_segment_break(c: char) -> bool {
    c == '/' || c == '-' || c == '_'
}

/// Index of the first segment break of `s` at or after `i`, or its length.
pub open spec fn prefix_end(s: Seq<char>, i: int) -> int
    decreases s.len() - i,
{
    if i >= s.len() {
        s.len() as int
    } else if is_segment_break(s[i]) {
        i
    } else {
        prefix_end(s, i + 1)
    }
}

proof fn lemma_prefix_end_bounds(s: Seq<char>, i: int)
    requires
        0 <= i <= s.len(),
    ensures
        i <= prefix_end(s, i) <= s.len(),
    decreases s.len() - i,
{
    if i < s.len() && !is_segment_break(s[i]) {
        lemma_prefix_end_bounds(s, i + 1);
    }
}

impl Worktree {
    /// Leading branch name segment, like "feat" in "feat/lalala".
    pub fn branch_prefix(&self) -> (r: &str)
        ensures
            r@ == self.name@.subrange(0, prefix_end(self.name@, 0)),
    {
        let name = self.name.as_str();
        let len = name.unicode_len();
        let mut i: usize = 0;
        while i < len && !(name.get_char(i) == '/' || name.get_char(i) == '-' || name.get_char(i) == '_')
            invariant
                len == name@.len(),
                i <= len,
                prefix_end(name@, i as int) == prefix_end(name@, 0),
            decreases len - i,
        {
            i = i + 1;
        }
        name.substring_char(0, i)
    }

    /// A worktree known only by its path, not yet listed by git.
    pub fn placeholder(path: String) -> (r: Worktree)
        ensures
            r.name@ == dir_name_of(path@),
            r.path == path,
            !r.is_main,
            r.branch is None,
            r.diff is None,
            r.last_commit is None,
    {
        Worktree {
            name: paths::dir_name(path.as_str()),
            path,
            is_main: false,
            branch: None,
            diff: None,
            last_commit: None,
        }
    }
}

/// A repository's main worktree plus a stable identity: the marcgit root, or
/// the main worktree itself.
#[derive(Debug, PartialEq, Eq)]
pub struct ProjectInfo {
    pub root: String,
    pub main: String,
    pub name: String,
}

/// The project root of a main worktree: the folder around it when it is a
/// marcgit `trunk`, else the worktree itself.
pub open spec fn project_root_of(main: Seq<char>) -> Seq<char> {
    if file_name(main) == Some(seq!['t', 'r', 'u', 'n', 'k']) {
        parent_of_named(main)
    } else {
        main
    }
}

impl ProjectInfo {
    /// The project whose main worktree is `main`.
    pub fn from_main(main: String) -> (r: ProjectInfo)
        ensures
            r.main == main,
            r.root@ == project_root_of(main@),
            r.name@ == dir_name_of(project_root_of(main@)),
    {
        let root = match paths::file_name_of(main.as_str()) {
            Some(n) => {
                proof {
                    reveal_strlit("trunk");
                }
                let trunk = String::from_str("trunk");
                assert(trunk@ =~= seq!['t', 'r', 'u', 'n', 'k']);
                if n == trunk {
                    assert(n@ == seq!['t', 'r', 'u', 'n', 'k']);
                    paths::parent_of(main.as_str())
                } else {
                    assert(n@ != seq!['t', 'r', 'u', 'n', 'k']);
                    main.clone()
                }
            },
            None => main.clone(),
        };
        let name = paths::dir_name(root.as_str());
        ProjectInfo { root, main, name }
    }
}

/// Directory name of a path, or the whole path when it has none.
pub fn dir_name(path: &str) -> (r: String)
    ensures
        r@ == dir_name_of(path@),
{
    paths::dir_name(path)
}

/// Whether a worktree's diff stats are computed: not when every diff is
/// skipped, nor for a hidden row named in `skip_diffs`.
pub open spec fn wants_diff(name: Seq<char>, skip_diffs: Seq<String>, skip_all_diffs: bool) -> bool {
    !(skip_all_diffs || exists|k: int| 0 <= k < skip_diffs.len() && skip_diffs[k]@ == name)
}

/// Whether to compute the diff stats of worktree `name`.
pub fn diff_wanted(name: &String, skip_diffs: &Vec<String>, skip_all_diffs: bool) -> (r: bool)
    ensures
        r == wants_diff(name@, skip_diffs@, skip_all_diffs),
{
    if skip_all_diffs {
        return false;
    }
    let mut k: usize = 0;
    while k < skip_diffs.len()
        invariant
            k <= skip_diffs@.len(),
            forall|q: int| 0 <= q < k ==> skip_diffs@[q]@ != name@,
        decreases skip_diffs@.len() - k,
    {
        if skip_diffs[k] == *name {
            return false;
        }
        k = k + 1;
    }
    true
}

/// The committer time recorded for branch `branch`.
pub open spec fn commit_time(times: Seq<(String, u64)>, branch: Seq<char>) -> Option<u64> {
    match crate::seqs::first(times, branch_entry(branch)) {
        Some(i) => Some(times[i].1),
        None => None,
    }
}

/// The entry for branch `branch`.
pub open spec fn branch_entry(branch: Seq<char>) -> spec_fn((String, u64)) -> bool {
    |e: (String, u64)| e.0@ == branch
}

/// Completes listed worktrees with their diff stats, taken in order from
/// `diffs`, and the commit time of their branch's tip from `commit_times`.
pub fn attach_status(
    worktrees: Vec<Worktree>,
    diffs: &Vec<Option<DiffStats>>,
    commit_times: &Vec<(String, u64)>,
) -> (r: Vec<Worktree>)
    requires
        diffs@.len() == worktrees@.len(),
    ensures
        r@.len() == worktrees@.len(),
        forall|i: int|
            0 <= i < r@.len() ==> {
                let w = worktrees@[i];
                #[trigger] r@[i] == Worktree {
                    diff: diffs@[i],
                    last_commit: match w.branch {
                        Some(b) => commit_time(commit_times@, b@),
                        None => None,
                    },
                    ..w
                }
            },
{
    let ghost ws = worktrees@;
    let n = worktrees.len();
    let mut rest = worktrees;
    let mut out: Vec<Worktree> = Vec::new();
    let mut i: usize = 0;
    while rest.len() > 0
        invariant
            n == ws.len(),
            diffs@.len() == n,
            i <= n,
            rest@ == ws.skip(i as int),
            out@.len() == i,
            forall|j: int|
                0 <= j < i ==> {
                    let w = ws[j];
                    #[trigger] out@[j] == Worktree {
                        diff: diffs@[j],
                        last_commit: match w.branch {
                            Some(b) => commit_time(commit_times@, b@),
                            None => None,
                        },
                        ..w
                    }
                },
        decreases rest@.len(),
    {
        let mut w = rest.remove(0);
        proof {
            assert(ws.skip(i as int).remove(0) =~= ws.skip(i as int + 1));
            assert(w == ws[i as int]);
        }
        w.diff = diffs[i];
        w.last_commit = match &w.branch {
            Some(b) => lookup_commit_time(commit_times, b),
            None => None,
        };
        out.push(w);
        i = i + 1;
    }
    out
}

fn lookup_commit_time(times: &Vec<(String, u64)>, branch: &String) -> (r: Option<u64>)
    ensures
        r == commit_time(times@, branch@),
{
    let mut i: usize = 0;
    while i < times.len() && times[i].0 != *branch
        invariant
            i <= times@.len(),
            crate::seqs::first_from(times@, branch_entry(branch@), 0) == crate::seqs::first_from(
                times@,
                branch_entry(branch@),
                i as int,
            ),
        decreases times@.len() - i,
    {
        i = i + 1;
    }
    if i < times.len() {
        Some(times[i].1)
    } else {
        None
    }
}

} // verus!
