//! What the window does with news from outside: a terminal's new title or
//! output, a project being opened again, and a fresh listing of a
//! project's worktrees. Listening for the news is the caller's part.
use vstd::prelude::*;

use crate::git::Worktree;
use crate::panels::PanelId;
use crate::seqs::{first, first_from, lemma_first_from};
use crate::session::{filed_under, opt_text};
use crate::state::{
    clone_strings, lemma_projects_update_sound, lemma_update_sound, project_with_id,
    same_settings, tab_with_id, AppState, Project, ProjectId, Tab, TabId,
};

verus! {

/// What a worktree refresh asks git for: the main worktree to list from,
/// the rows whose diff stats are skipped, and whether every diff is.
#[derive(Debug, PartialEq)]
pub struct RefreshRequest {
    pub main: String,
    pub skip_diffs: Vec<String>,
    pub skip_all_diffs: bool,
}

/// Two worktrees say the same.
pub open spec fn same_worktree(a: Worktree, b: Worktree) -> bool {
    &&& a.name@ == b.name@
    &&& a.path@ == b.path@
    &&& a.is_main == b.is_main
    &&& opt_text(a.branch) == opt_text(b.branch)
    &&& a.diff == b.diff
    &&& a.last_commit == b.last_commit
}

/// Two worktree lists say the same, row by row.
pub open spec fn same_worktrees(a: Seq<Worktree>, b: Seq<Worktree>) -> bool {
    a.len() == b.len() && forall|i: int| 0 <= i < a.len() ==> same_worktree(#[trigger] a[i], b[i])
}

fn worktree_eq(a: &Worktree, b: &Worktree) -> (r: bool)
    ensures
        r == same_worktree(*a, *b),
{
    let branches = match (&a.branch, &b.branch) {
        (Some(x), Some(y)) => *x == *y,
        (None, None) => true,
        _ => false,
    };
    a.name == b.name && a.path == b.path && a.is_main == b.is_main && branches && a.diff == b.diff
        && a.last_commit == b.last_commit
}

fn worktrees_eq(a: &Vec<Worktree>, b: &Vec<Worktree>) -> (r: bool)
    ensures
        r == same_worktrees(a@, b@),
{
    if a.len() != b.len() {
        return false;
    }
    let mut i: usize = 0;
    while i < a.len()
        invariant
            a@.len() == b@.len(),
            i <= a@.len(),
            forall|j: int| 0 <= j < i ==> same_worktree(#[trigger] a@[j], b@[j]),
        decreases a@.len() - i,
    {
        if !worktree_eq(&a[i], &b[i]) {
            return false;
        }
        i = i + 1;
    }
    true
}

impl AppState {
    /// The terminal of panel `panel` in tab `tab_id` reported the title
    /// `title`: the tab takes it when that panel is its active one and the
    /// title is not empty.
    pub fn set_panel_title(&mut self, tab_id: TabId, panel: PanelId, title: String)
        requires
            old(self).wf(),
        ensures
            final(self).wf(),
            match first(old(self).tabs@, tab_with_id(tab_id)) {
                Some(i) => if old(self).tabs@[i].active_panel == panel && title@.len() > 0 {
                    final(self).tabs@ == old(self).tabs@.update(
                        i,
                        Tab { title: title, ..old(self).tabs@[i] },
                    )
                } else {
                    final(self).tabs == old(self).tabs
                },
                None => final(self).tabs == old(self).tabs,
            },
            final(self).active_tab == old(self).active_tab,
            final(self).projects == old(self).projects,
            same_settings(*final(self), *old(self)),
    {
        let i = match self.tab_index(tab_id) {
            Some(i) => i,
            None => return,
        };
        proof {
            lemma_first_from(self.tabs@, tab_with_id(tab_id), 0);
        }
        if self.tabs[i].active_panel != panel || title.as_str().unicode_len() == 0 {
            return;
        }
        let mut tab = self.tabs[i].clone();
        tab.title = title;
        proof {
            lemma_update_sound(self.tabs@, i as int, tab);
        }
        self.tabs.set(i, tab);
    }

    /// Marks tab `tab_id` as printing output, or as quiet again.
    pub fn set_outputting(&mut self, tab_id: TabId, on: bool)
        requires
            old(self).wf(),
        ensures
            final(self).wf(),
            match first(old(self).tabs@, tab_with_id(tab_id)) {
                Some(i) => final(self).tabs@ == old(self).tabs@.update(
                    i,
                    Tab { outputting: on, ..old(self).tabs@[i] },
                ),
                None => final(self).tabs == old(self).tabs,
            },
            final(self).active_tab == old(self).active_tab,
            final(self).projects == old(self).projects,
            same_settings(*final(self), *old(self)),
    {
        let i = match self.tab_index(tab_id) {
            Some(i) => i,
            None => return,
        };
        proof {
            lemma_first_from(self.tabs@, tab_with_id(tab_id), 0);
        }
        let mut tab = self.tabs[i].clone();
        tab.outputting = on;
        proof {
            lemma_update_sound(self.tabs@, i as int, tab);
        }
        self.tabs.set(i, tab);
    }

    /// Where a new plain tab starts. In project `project`: the shown
    /// panel's directory `active_cwd` when the shown tab is of that project
    /// and the directory is known, else the project's main worktree. As a
    /// loose tab: `active_cwd`.
    pub fn plain_tab_cwd(&self, project: Option<ProjectId>, active_cwd: Option<String>) -> (r: Option<String>)
        ensures
            r == match project {
                Some(id) => {
                    let from_tab = match self.active_id() {
                        Some(_) => if self.tabs@[self.active_tab as int].project == Some(id) {
                            active_cwd
                        } else {
                            None
                        },
                        None => None,
                    };
                    match from_tab {
                        Some(c) => Some(c),
                        None => match first(self.projects@, project_with_id(id)) {
                            Some(i) => Some(self.projects@[i].main),
                            None => None,
                        },
                    }
                },
                None => active_cwd,
            },
    {
        match project {
            None => active_cwd,
            Some(id) => {
                let in_project = match self.active_tab() {
                    Some(t) => t.project == Some(id),
                    None => false,
                };
                if in_project {
                    if let Some(c) = active_cwd {
                        return Some(c);
                    }
                }
                match self.project_index(id) {
                    Some(i) => {
                        proof {
                            lemma_first_from(self.projects@, project_with_id(id), 0);
                        }
                        Some(self.projects[i].main.clone())
                    },
                    None => None,
                }
            },
        }
    }

    /// The first tab filed under project `id`: the one to show when the
    /// project is opened again.
    pub fn first_tab_of(&self, id: ProjectId) -> (r: Option<TabId>)
        ensures
            r == match first(self.tabs@, filed_under(id)) {
                Some(i) => Some(self.tabs@[i].id),
                None => None::<TabId>,
            },
    {
        let mut i: usize = 0;
        while i < self.tabs.len() && self.tabs[i].project != Some(id)
            invariant
                i <= self.tabs@.len(),
                first_from(self.tabs@, filed_under(id), 0) == first_from(self.tabs@, filed_under(id), i as int),
            decreases self.tabs@.len() - i,
        {
            i = i + 1;
        }
        if i < self.tabs.len() {
            Some(self.tabs[i].id)
        } else {
            None
        }
    }

    /// What refreshing project `id`'s worktrees asks git for: list from its
    /// main worktree, skip the diff stats of its hidden archived rows, and
    /// of every row while the project is collapsed. `None` when there is no
    /// such project.
    pub fn refresh_request(&self, id: ProjectId) -> (r: Option<RefreshRequest>)
        ensures
            match first(self.projects@, project_with_id(id)) {
                Some(i) => r matches Some(q) && {
                    let p = self.projects@[i];
                    &&& q.main == p.main
                    &&& q.skip_diffs@ == if p.show_archived {
                        Seq::<String>::empty()
                    } else {
                        p.archived@
                    }
                    &&& q.skip_all_diffs == p.collapsed
                },
                None => r is None,
            },
    {
        match self.project_index(id) {
            Some(i) => {
                proof {
                    lemma_first_from(self.projects@, project_with_id(id), 0);
                }
                let p = &self.projects[i];
                let skip_diffs = if p.show_archived {
                    Vec::new()
                } else {
                    clone_strings(&p.archived)
                };
                Some(RefreshRequest {
                    main: p.main.clone(),
                    skip_diffs,
                    skip_all_diffs: p.collapsed,
                })
            },
            None => None,
        }
    }

    /// Takes what a refresh of project `id` found: a new listing replaces
    /// the project's worktrees when it says something else, an error
    /// becomes the notice. `true` when the worktrees changed.
    pub fn apply_refresh(&mut self, id: ProjectId, found: Result<Vec<Worktree>, String>) -> (r: bool)
        requires
            old(self).wf(),
        ensures
            final(self).wf(),
            final(self).tabs == old(self).tabs,
            final(self).active_tab == old(self).active_tab,
            match found {
                Ok(ws) => {
                    &&& final(self).notice == old(self).notice
                    &&& match first(old(self).projects@, project_with_id(id)) {
                        Some(i) => if same_worktrees(old(self).projects@[i].worktrees@, ws@) {
                            !r && final(self).projects == old(self).projects
                        } else {
                            &&& r
                            &&& final(self).projects@ == old(self).projects@.update(
                                i,
                                Project { worktrees: ws, ..old(self).projects@[i] },
                            )
                        },
                        None => !r && final(self).projects == old(self).projects,
                    }
                },
                Err(e) => !r && final(self).notice == Some(e) && final(self).projects
                    == old(self).projects,
            },
            final(self).shell == old(self).shell,
            final(self).sidebar_collapsed == old(self).sidebar_collapsed,
            final(self).modal == old(self).modal,
            final(self).started_at == old(self).started_at,
    {
        match found {
            Err(e) => {
                self.notice = Some(e);
                false
            },
            Ok(ws) => {
                let i = match self.project_index(id) {
                    Some(i) => i,
                    None => return false,
                };
                proof {
                    lemma_first_from(self.projects@, project_with_id(id), 0);
                }
                if worktrees_eq(&self.projects[i].worktrees, &ws) {
                    return false;
                }
                let mut p = self.projects.remove(i);
                p.worktrees = ws;
                self.projects.insert(i, p);
                proof {
                    assert(self.projects@ =~= old(self).projects@.update(i as int, p));
                    lemma_projects_update_sound(old(self).projects@, i as int, p);
                }
                true
            },
        }
    }
}

} // verus!
