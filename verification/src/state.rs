//! The window's tabs and projects, and every operation the sidebar, the
//! keyboard and the menus apply to them.
use vstd::prelude::*;

use crate::git::{DiffStats, ProjectInfo, Worktree};
use crate::panels::{Axis, NavDirection, PanelId, PanelNode};
use crate::paths::dir_name_of;
use crate::seqs::{
    distinct_by, first, first_from, keep, kept_by, lemma_first_from, lemma_keep_contains,
    lemma_keep_distinct_by, lemma_keep_element, lemma_keep_step, lemma_kept_by_keep,
    lemma_kept_by_step,
};
use crate::text::{decimal, push_decimal, same_text, text_le, text_le_str};

verus! {

/// Identity of a tab, unique for the run.
#[derive(Debug, Clone, Copy, PartialEq, Eq, Structural, Hash)]
pub struct TabId(pub usize);

/// Identity of an open project, unique for the run.
#[derive(Debug, Clone, Copy, PartialEq, Eq, Structural, Hash)]
pub struct ProjectId(pub usize);

/// An open project.
#[derive(Debug, PartialEq)]
pub struct Project {
    pub id: ProjectId,
    pub name: String,
    /// Stable identity: the marcgit root or the main worktree itself.
    pub root: String,
    /// The repository's main worktree (trunk for marcgit layouts).
    pub main: String,
    pub worktrees: Vec<Worktree>,
    /// Worktree names hidden from the sidebar, persisted per project root.
    pub archived: Vec<String>,
    /// Custom sidebar order of non-main worktree names.
    pub worktree_order: Vec<String>,
    pub collapsed: bool,
    /// Reveal archived worktrees in the sidebar (not persisted).
    pub show_archived: bool,
}

/// A copy of `v`, element by element.
pub fn clone_strings(v: &Vec<String>) -> (r: Vec<String>)
    ensures
        r@ == v@,
{
    let mut r: Vec<String> = Vec::new();
    let mut i: usize = 0;
    while i < v.len()
        invariant
            i <= v@.len(),
            r@ == v@.take(i as int),
        decreases v@.len() - i,
    {
        r.push(v[i].clone());
        i = i + 1;
        assert(r@ =~= v@.take(i as int));
    }
    assert(v@.take(v@.len() as int) =~= v@);
    r
}

/// A copy of `v`, element by element.
pub fn clone_worktrees(v: &Vec<Worktree>) -> (r: Vec<Worktree>)
    ensures
        r@ == v@,
{
    let mut r: Vec<Worktree> = Vec::new();
    let mut i: usize = 0;
    while i < v.len()
        invariant
            i <= v@.len(),
            r@ == v@.take(i as int),
        decreases v@.len() - i,
    {
        r.push(v[i].clone());
        i = i + 1;
        assert(r@ =~= v@.take(i as int));
    }
    assert(v@.take(v@.len() as int) =~= v@);
    r
}

fn clone_opt_string(s: &Option<String>) -> (r: Option<String>)
    ensures
        r == *s,
{
    match s {
        Some(t) => Some(t.clone()),
        None => None,
    }
}

impl Clone for Project {
    fn clone(&self) -> (r: Self)
        ensures
            r.id == self.id,
            r.name == self.name,
            r.root == self.root,
            r.main == self.main,
            r.worktrees@ == self.worktrees@,
            r.archived@ == self.archived@,
            r.worktree_order@ == self.worktree_order@,
            r.collapsed == self.collapsed,
            r.show_archived == self.show_archived,
    {
        Project {
            id: self.id,
            name: self.name.clone(),
            root: self.root.clone(),
            main: self.main.clone(),
            worktrees: clone_worktrees(&self.worktrees),
            archived: clone_strings(&self.archived),
            worktree_order: clone_strings(&self.worktree_order),
            collapsed: self.collapsed,
            show_archived: self.show_archived,
        }
    }
}

/// The test "is the name `name`" on strings.
pub open spec fn named(name: Seq<char>) -> spec_fn(String) -> bool {
    |s: String| s@ == name
}

/// Does the list of names hold `name`.
pub open spec fn lists(names: Seq<String>, name: Seq<char>) -> bool {
    first(names, named(name)) is Some
}

/// Where `name` first occurs in `names`.
pub fn position_of(names: &Vec<String>, name: &String) -> (r: Option<usize>)
    ensures
        match r {
            Some(i) => first(names@, named(name@)) == Some(i as int),
            None => first(names@, named(name@)) is None,
        },
{
    let mut i: usize = 0;
    while i < names.len() && names[i] != *name
        invariant
            i <= names@.len(),
            first_from(names@, named(name@), 0) == first_from(names@, named(name@), i as int),
        decreases names@.len() - i,
    {
        i = i + 1;
    }
    if i < names.len() {
        Some(i)
    } else {
        None
    }
}

/// The main worktree test.
pub open spec fn is_main_worktree() -> spec_fn(Worktree) -> bool {
    |w: Worktree| w.is_main
}

/// A worktree other than the main one whose name is first listed at
/// position `k` of `order`.
pub open spec fn listed_at(order: Seq<String>, k: int) -> spec_fn(Worktree) -> bool {
    |w: Worktree| !w.is_main && first(order, named(w.name@)) == Some(k)
}

/// A worktree other than the main one that `order` does not name.
pub open spec fn unlisted(order: Seq<String>) -> spec_fn(Worktree) -> bool {
    |w: Worktree| !w.is_main && first(order, named(w.name@)) is None
}

/// The worktrees listed at positions below `k` of `order`, by position.
pub open spec fn listed_upto(ws: Seq<Worktree>, order: Seq<String>, k: int) -> Seq<Worktree>
    decreases k,
{
    if k <= 0 {
        Seq::empty()
    } else {
        listed_upto(ws, order, k - 1) + keep(ws, listed_at(order, k - 1))
    }
}

/// `s` with `x` placed after the last element whose name sorts no later.
pub open spec fn insert_by_name(s: Seq<Worktree>, x: Worktree) -> Seq<Worktree>
    decreases s.len(),
{
    if s.len() == 0 {
        seq![x]
    } else if text_le(s.last().name@, x.name@) {
        s.push(x)
    } else {
        insert_by_name(s.drop_last(), x).push(s.last())
    }
}

/// `s` sorted by name, worktrees of equal names in their order in `s`.
pub open spec fn sort_by_name(s: Seq<Worktree>) -> Seq<Worktree>
    decreases s.len(),
{
    if s.len() == 0 {
        s
    } else {
        insert_by_name(sort_by_name(s.drop_last()), s.last())
    }
}

/// Main worktree first, then the custom order, then alphabetical.
pub open spec fn spec_sorted_worktrees(ws: Seq<Worktree>, order: Seq<String>) -> Seq<Worktree> {
    keep(ws, is_main_worktree()) + listed_upto(ws, order, order.len() as int) + sort_by_name(
        keep(ws, unlisted(order)),
    )
}

proof fn lemma_insert_at(s: Seq<Worktree>, x: Worktree, p: int)
    requires
        0 <= p <= s.len(),
        p == 0 || text_le(s[p - 1].name@, x.name@),
        forall|j: int| p <= j < s.len() ==> !text_le(#[trigger] s[j].name@, x.name@),
    ensures
        insert_by_name(s, x) == s.insert(p, x),
    decreases s.len(),
{
    if s.len() == 0 {
        assert(s.insert(p, x) =~= seq![x]);
    } else if p == s.len() {
        assert(text_le(s.last().name@, x.name@));
        assert(s.insert(p, x) =~= s.push(x));
    } else {
        assert(!text_le(s[s.len() - 1].name@, x.name@));
        let d = s.drop_last();
        assert forall|j: int| p <= j < d.len() implies !text_le(#[trigger] d[j].name@, x.name@) by {
            assert(d[j] == s[j]);
        }
        lemma_insert_at(d, x, p);
        assert(s.drop_last().insert(p, x).push(s.last()) =~= s.insert(p, x));
    }
}

/// Places `x` after the last worktree whose name sorts no later.
fn insert_sorted(v: &mut Vec<Worktree>, x: Worktree)
    ensures
        final(v)@ == insert_by_name(old(v)@, x),
{
    let mut p = v.len();
    while p > 0 && !text_le_str(v[p - 1].name.as_str(), x.name.as_str())
        invariant
            p <= v@.len(),
            v@ == old(v)@,
            forall|j: int| p <= j < v@.len() ==> !text_le(#[trigger] v@[j].name@, x.name@),
        decreases p,
    {
        p = p - 1;
    }
    proof {
        lemma_insert_at(v@, x, p as int);
    }
    v.insert(p, x);
}

/// Main worktree first, then the custom order, then alphabetical.
pub fn sorted_worktrees(worktrees: &Vec<Worktree>, order: &Vec<String>) -> (r: Vec<Worktree>)
    ensures
        r@ == spec_sorted_worktrees(worktrees@, order@),
{
    let ghost ws = worktrees@;
    let n = worktrees.len();
    let mut positions: Vec<Option<usize>> = Vec::new();
    let mut j: usize = 0;
    while j < n
        invariant
            n == ws.len(),
            ws == worktrees@,
            j <= n,
            positions@.len() == j,
            forall|i: int| 0 <= i < j ==> match #[trigger] positions@[i] {
                Some(k) => first(order@, named(ws[i].name@)) == Some(k as int),
                None => first(order@, named(ws[i].name@)) is None,
            },
        decreases n - j,
    {
        positions.push(position_of(order, &worktrees[j].name));
        j = j + 1;
    }
    let mut result: Vec<Worktree> = Vec::new();
    j = 0;
    while j < n
        invariant
            n == ws.len(),
            ws == worktrees@,
            j <= n,
            result@ == keep(ws.take(j as int), is_main_worktree()),
        decreases n - j,
    {
        proof {
            lemma_keep_step(ws, is_main_worktree(), j as int);
        }
        if worktrees[j].is_main {
            result.push(worktrees[j].clone());
        }
        j = j + 1;
    }
    assert(ws.take(n as int) =~= ws);
    let ghost mains = result@;
    let mut k: usize = 0;
    while k < order.len()
        invariant
            n == ws.len(),
            ws == worktrees@,
            positions@.len() == n,
            forall|i: int| 0 <= i < n ==> match #[trigger] positions@[i] {
                Some(k) => first(order@, named(ws[i].name@)) == Some(k as int),
                None => first(order@, named(ws[i].name@)) is None,
            },
            k <= order@.len(),
            result@ == mains + listed_upto(ws, order@, k as int),
        decreases order@.len() - k,
    {
        let ghost before = result@;
        j = 0;
        while j < n
            invariant
                n == ws.len(),
                ws == worktrees@,
                positions@.len() == n,
                forall|i: int| 0 <= i < n ==> match #[trigger] positions@[i] {
                    Some(k) => first(order@, named(ws[i].name@)) == Some(k as int),
                    None => first(order@, named(ws[i].name@)) is None,
                },
                k < order@.len(),
                j <= n,
                result@ == before + keep(ws.take(j as int), listed_at(order@, k as int)),
            decreases n - j,
        {
            proof {
                lemma_keep_step(ws, listed_at(order@, k as int), j as int);
            }
            let listed = match positions[j] {
                Some(pk) => pk == k,
                None => false,
            };
            assert(listed == (first(order@, named(ws[j as int].name@)) == Some(k as int)));
            if !worktrees[j].is_main && listed {
                result.push(worktrees[j].clone());
            }
            j = j + 1;
        }
        assert(ws.take(n as int) =~= ws);
        k = k + 1;
    }
    let mut rest: Vec<Worktree> = Vec::new();
    j = 0;
    while j < n
        invariant
            n == ws.len(),
            ws == worktrees@,
            positions@.len() == n,
            forall|i: int| 0 <= i < n ==> match #[trigger] positions@[i] {
                Some(k) => first(order@, named(ws[i].name@)) == Some(k as int),
                None => first(order@, named(ws[i].name@)) is None,
            },
            j <= n,
            rest@ == sort_by_name(keep(ws.take(j as int), unlisted(order@))),
        decreases n - j,
    {
        proof {
            lemma_keep_step(ws, unlisted(order@), j as int);
        }
        if !worktrees[j].is_main && positions[j].is_none() {
            let ghost kept = keep(ws.take(j as int), unlisted(order@));
            assert(kept.push(ws[j as int]).drop_last() =~= kept);
            insert_sorted(&mut rest, worktrees[j].clone());
        }
        j = j + 1;
    }
    result.append(&mut rest);
    result
}

/// A row of the sidebar for one of a project's worktrees.
#[derive(Debug, PartialEq)]
pub struct WorktreeEntry {
    pub worktree: Worktree,
    pub tab: Option<TabId>,
    pub archived: bool,
}

impl Clone for WorktreeEntry {
    fn clone(&self) -> (r: Self)
        ensures
            r == *self,
    {
        WorktreeEntry { worktree: self.worktree.clone(), tab: self.tab, archived: self.archived }
    }
}

/// A dialog shown over the window.
#[derive(Debug, Clone, Copy, PartialEq, Eq, Structural)]
pub enum Modal {
    AddProject,
}

/// One tab of the sidebar: a tree of terminal panels, one of them active.
#[derive(Debug, PartialEq)]
pub struct Tab {
    pub id: TabId,
    pub title: String,
    pub custom_title: Option<String>,
    pub panels: PanelNode,
    pub active_panel: PanelId,
    /// A panel of the tab printed output within the last second.
    pub outputting: bool,
    /// Project this tab is filed under, `None` for loose tabs.
    pub project: Option<ProjectId>,
    /// The worktree this tab represents, `Some` pins the tab to its project.
    pub worktree: Option<String>,
    /// Name of the tab group the tab belongs to, if any.
    pub group: Option<String>,
}

impl Clone for Tab {
    fn clone(&self) -> (r: Self)
        ensures
            r == *self,
    {
        Tab {
            id: self.id,
            title: self.title.clone(),
            custom_title: clone_opt_string(&self.custom_title),
            panels: self.panels.clone(),
            active_panel: self.active_panel,
            outputting: self.outputting,
            project: self.project,
            worktree: clone_opt_string(&self.worktree),
            group: clone_opt_string(&self.group),
        }
    }
}

/// The default title of a tab: "Terminal" and its number.
pub open spec fn default_title(id: TabId) -> Seq<char> {
    seq!['T', 'e', 'r', 'm', 'i', 'n', 'a', 'l', ' '] + decimal(id.0 as nat)
}

impl Tab {
    /// Its panel tree holds every panel once, the active one among them.
    pub open spec fn wf(self) -> bool {
        self.panels.wf() && self.panels.has(self.active_panel)
    }

    /// A tab of one panel.
    pub fn new(id: TabId, panel: PanelId, project: Option<ProjectId>, worktree: Option<String>) -> (r: Tab)
        ensures
            r.id == id,
            r.title@ == default_title(id),
            r.custom_title is None,
            r.panels == PanelNode::Leaf(panel),
            r.active_panel == panel,
            !r.outputting,
            r.project == project,
            r.worktree == worktree,
            r.group is None,
            r.wf(),
    {
        let r = Self::from_panels(id, PanelNode::Leaf(panel), panel, None, project, worktree);
        proof {
            assert(r.panels.spec_leaves() =~= seq![panel]);
        }
        r
    }

    /// A tab over an existing panel tree.
    pub fn from_panels(
        id: TabId,
        panels: PanelNode,
        active_panel: PanelId,
        custom_title: Option<String>,
        project: Option<ProjectId>,
        worktree: Option<String>,
    ) -> (r: Tab)
        ensures
            r.id == id,
            r.title@ == default_title(id),
            r.custom_title == custom_title,
            r.panels == panels,
            r.active_panel == active_panel,
            !r.outputting,
            r.project == project,
            r.worktree == worktree,
            r.group is None,
    {
        proof {
            reveal_strlit("Terminal ");
        }
        let mut title = String::from_str("Terminal ");
        assert(title@ =~= seq!['T', 'e', 'r', 'm', 'i', 'n', 'a', 'l', ' ']);
        push_decimal(&mut title, id.0 as u64);
        Tab {
            id,
            title,
            custom_title,
            panels,
            active_panel,
            outputting: false,
            project,
            worktree,
            group: None,
        }
    }

    /// The custom title when one is set and not empty, else the title.
    pub fn display_title(&self) -> (r: &str)
        ensures
            r@ == match self.custom_title {
                Some(t) => if t@.len() > 0 { t@ } else { self.title@ },
                None => self.title@,
            },
    {
        match &self.custom_title {
            Some(t) => {
                if !t.as_str().is_empty() {
                    t.as_str()
                } else {
                    self.title.as_str()
                }
            },
            None => self.title.as_str(),
        }
    }

    /// Takes the title the active panel's terminal reports, when it has a
    /// non-empty one.
    pub fn update_title_from_active_panel(&mut self, reported: Option<String>)
        ensures
            final(self).title == match reported {
                Some(t) => if t@.len() > 0 { t } else { old(self).title },
                None => old(self).title,
            },
            final(self).id == old(self).id,
            final(self).custom_title == old(self).custom_title,
            final(self).panels == old(self).panels,
            final(self).active_panel == old(self).active_panel,
            final(self).outputting == old(self).outputting,
            final(self).project == old(self).project,
            final(self).worktree == old(self).worktree,
            final(self).group == old(self).group,
    {
        if let Some(t) = reported {
            if !t.as_str().is_empty() {
                self.title = t;
            }
        }
    }
}

/// The tab with identity `id`.
pub open spec fn tab_with_id(id: TabId) -> spec_fn(Tab) -> bool {
    |t: Tab| t.id == id
}

/// The project with identity `id`.
pub open spec fn project_with_id(id: ProjectId) -> spec_fn(Project) -> bool {
    |p: Project| p.id == id
}

/// A tab's identity.
pub open spec fn tab_key() -> spec_fn(Tab) -> TabId {
    |t: Tab| t.id
}

/// A project's identity.
pub open spec fn project_key() -> spec_fn(Project) -> ProjectId {
    |p: Project| p.id
}

/// A tab of project `project` open on worktree `path`.
pub open spec fn of_project_on(project: ProjectId, path: Seq<char>) -> spec_fn(Tab) -> bool {
    |t: Tab| t.project == Some(project) && (t.worktree matches Some(w) && w@ == path)
}

/// A tab not open on worktree `path`.
pub open spec fn not_on(path: Seq<char>) -> spec_fn(Tab) -> bool {
    |t: Tab| !(t.worktree matches Some(w) && w@ == path)
}

/// The last index of a list of `n` tabs, 0 when there is none.
pub open spec fn last_index(n: int) -> int {
    if n == 0 {
        0
    } else {
        n - 1
    }
}

/// Where the tab `active` went in `tabs`, or the last tab when it is gone.
pub open spec fn restored_index(tabs: Seq<Tab>, active: Option<TabId>) -> int {
    match active {
        Some(id) => match first(tabs, tab_with_id(id)) {
            Some(i) => i,
            None => last_index(tabs.len() as int),
        },
        None => last_index(tabs.len() as int),
    }
}

/// The whole window: its tabs, which one is shown, and the open projects.
#[derive(Debug)]
pub struct AppState {
    pub tabs: Vec<Tab>,
    pub active_tab: usize,
    pub projects: Vec<Project>,
    pub shell: String,
    pub sidebar_collapsed: bool,
    pub modal: Option<Modal>,
    pub notice: Option<String>,
    /// Identifies this run in the sessions ring.
    pub started_at: u64,
}

/// The settings of two states agree: shell, sidebar, dialog, notice and run.
pub open spec fn same_settings(a: AppState, b: AppState) -> bool {
    &&& a.shell == b.shell
    &&& a.sidebar_collapsed == b.sidebar_collapsed
    &&& a.modal == b.modal
    &&& a.notice == b.notice
    &&& a.started_at == b.started_at
}

impl AppState {
    /// Tab and project identities are unique, every tab's panel tree is
    /// sound, and the active index points at a tab (or is 0 with none).
    pub open spec fn wf(&self) -> bool {
        &&& distinct_by(self.tabs@, tab_key())
        &&& distinct_by(self.projects@, project_key())
        &&& forall|i: int| 0 <= i < self.tabs@.len() ==> (#[trigger] self.tabs@[i]).wf()
        &&& (self.active_tab < self.tabs@.len() || (self.tabs@.len() == 0 && self.active_tab
            == 0))
    }

    /// The identity of the shown tab.
    pub open spec fn active_id(&self) -> Option<TabId> {
        if self.active_tab < self.tabs@.len() {
            Some(self.tabs@[self.active_tab as int].id)
        } else {
            None
        }
    }

    /// A window with no tab and no project.
    pub fn new(shell: String, started_at: u64) -> (r: AppState)
        ensures
            r.wf(),
            r.tabs@.len() == 0,
            r.active_tab == 0,
            r.projects@.len() == 0,
            r.shell == shell,
            !r.sidebar_collapsed,
            r.modal is None,
            r.notice is None,
            r.started_at == started_at,
    {
        AppState {
            tabs: Vec::new(),
            active_tab: 0,
            projects: Vec::new(),
            shell,
            sidebar_collapsed: false,
            modal: None,
            notice: None,
            started_at,
        }
    }

    /// Position of the tab `id`.
    pub fn tab_index(&self, id: TabId) -> (r: Option<usize>)
        ensures
            match r {
                Some(i) => first(self.tabs@, tab_with_id(id)) == Some(i as int),
                None => first(self.tabs@, tab_with_id(id)) is None,
            },
    {
        let mut i: usize = 0;
        while i < self.tabs.len() && self.tabs[i].id != id
            invariant
                i <= self.tabs@.len(),
                first_from(self.tabs@, tab_with_id(id), 0) == first_from(
                    self.tabs@,
                    tab_with_id(id),
                    i as int,
                ),
            decreases self.tabs@.len() - i,
        {
            i = i + 1;
        }
        if i < self.tabs.len() {
            Some(i)
        } else {
            None
        }
    }

    /// Position of the project `id`.
    pub fn project_index(&self, id: ProjectId) -> (r: Option<usize>)
        ensures
            match r {
                Some(i) => first(self.projects@, project_with_id(id)) == Some(i as int),
                None => first(self.projects@, project_with_id(id)) is None,
            },
    {
        let mut i: usize = 0;
        while i < self.projects.len() && self.projects[i].id != id
            invariant
                i <= self.projects@.len(),
                first_from(self.projects@, project_with_id(id), 0) == first_from(
                    self.projects@,
                    project_with_id(id),
                    i as int,
                ),
            decreases self.projects@.len() - i,
        {
            i = i + 1;
        }
        if i < self.projects.len() {
            Some(i)
        } else {
            None
        }
    }

    /// The project `id`.
    pub fn project(&self, id: ProjectId) -> (r: Option<&Project>)
        ensures
            match r {
                Some(p) => first(self.projects@, project_with_id(id)) matches Some(i) && *p
                    == self.projects@[i],
                None => first(self.projects@, project_with_id(id)) is None,
            },
    {
        match self.project_index(id) {
            Some(i) => {
                proof {
                    lemma_first_from(self.projects@, project_with_id(id), 0);
                }
                Some(&self.projects[i])
            },
            None => None,
        }
    }

    /// The shown tab.
    pub fn active_tab(&self) -> (r: Option<&Tab>)
        ensures
            match r {
                Some(t) => self.active_tab < self.tabs@.len() && *t == self.tabs@[self.active_tab as int],
                None => self.active_tab >= self.tabs@.len(),
            },
    {
        if self.active_tab < self.tabs.len() {
            Some(&self.tabs[self.active_tab])
        } else {
            None
        }
    }

    /// The tab of `project` open on worktree `path`.
    pub fn tab_for_worktree(&self, project: ProjectId, path: &str) -> (r: Option<&Tab>)
        ensures
            match r {
                Some(t) => first(self.tabs@, of_project_on(project, path@)) matches Some(i) && *t
                    == self.tabs@[i],
                None => first(self.tabs@, of_project_on(project, path@)) is None,
            },
    {
        let mut i: usize = 0;
        while i < self.tabs.len() && !tab_is_on(&self.tabs[i], project, path)
            invariant
                i <= self.tabs@.len(),
                first_from(self.tabs@, of_project_on(project, path@), 0) == first_from(
                    self.tabs@,
                    of_project_on(project, path@),
                    i as int,
                ),
            decreases self.tabs@.len() - i,
        {
            i = i + 1;
        }
        if i < self.tabs.len() {
            proof {
                lemma_first_from(self.tabs@, of_project_on(project, path@), i as int);
            }
            Some(&self.tabs[i])
        } else {
            None
        }
    }

    /// Shows or hides the sidebar.
    pub fn toggle_sidebar(&mut self)
        ensures
            final(self).sidebar_collapsed == !old(self).sidebar_collapsed,
            final(self).tabs == old(self).tabs,
            final(self).active_tab == old(self).active_tab,
            final(self).projects == old(self).projects,
            final(self).shell == old(self).shell,
            final(self).modal == old(self).modal,
            final(self).notice == old(self).notice,
            final(self).started_at == old(self).started_at,
    {
        self.sidebar_collapsed = !self.sidebar_collapsed;
    }

    /// The panel that should hold keyboard focus: the shown tab's active one.
    pub fn focus_active_panel(&self) -> (r: Option<PanelId>)
        ensures
            r == if self.active_tab < self.tabs@.len() {
                Some(self.tabs@[self.active_tab as int].active_panel)
            } else {
                None
            },
    {
        match self.active_tab() {
            Some(tab) => Some(tab.active_panel),
            None => None,
        }
    }

    /// Points the active index back at the tab `active`, or at the last tab
    /// when it is gone.
    fn restore_active(&mut self, active: Option<TabId>)
        ensures
            final(self).active_tab == restored_index(old(self).tabs@, active),
            final(self).tabs == old(self).tabs,
            final(self).projects == old(self).projects,
            same_settings(*final(self), *old(self)),
    {
        let idx = match active {
            Some(id) => self.tab_index(id),
            None => None,
        };
        self.active_tab = match idx {
            Some(i) => i,
            None => if self.tabs.len() == 0 { 0 } else { self.tabs.len() - 1 },
        };
    }

    /// Keeps the tabs whose flag is set, the shown tab staying shown when it
    /// is kept.
    fn retain_tabs(&mut self, flags: &Vec<bool>)
        requires
            old(self).wf(),
            flags@.len() == old(self).tabs@.len(),
        ensures
            final(self).wf(),
            final(self).tabs@ == kept_by(old(self).tabs@, flags@),
            final(self).active_tab == restored_index(final(self).tabs@, old(self).active_id()),
            final(self).projects == old(self).projects,
            same_settings(*final(self), *old(self)),
    {
        let active = match self.active_tab() {
            Some(t) => Some(t.id),
            None => None,
        };
        let ghost old_tabs = self.tabs@;
        let mut kept: Vec<Tab> = Vec::new();
        let mut i: usize = 0;
        while i < self.tabs.len()
            invariant
                self.tabs@ == old_tabs,
                flags@.len() == old_tabs.len(),
                i <= old_tabs.len(),
                kept@ == kept_by(old_tabs.take(i as int), flags@.take(i as int)),
            decreases old_tabs.len() - i,
        {
            proof {
                lemma_kept_by_step(old_tabs, flags@, i as int);
            }
            if flags[i] {
                kept.push(self.tabs[i].clone());
            }
            i = i + 1;
        }
        assert(old_tabs.take(old_tabs.len() as int) =~= old_tabs);
        assert(flags@.take(flags@.len() as int) =~= flags@);
        proof {
            lemma_kept_flags(old_tabs, flags@);
        }
        self.tabs = kept;
        self.restore_active(active);
        proof {
            restored_in_range(self.tabs@, active);
        }
    }

    /// Closes every tab open on worktree `path`.
    pub fn close_tabs_in_worktree(&mut self, path: &str)
        requires
            old(self).wf(),
        ensures
            final(self).wf(),
            final(self).tabs@ == keep(old(self).tabs@, not_on(path@)),
            final(self).active_tab == restored_index(final(self).tabs@, old(self).active_id()),
            final(self).projects == old(self).projects,
            same_settings(*final(self), *old(self)),
    {
        let mut flags: Vec<bool> = Vec::new();
        let mut i: usize = 0;
        while i < self.tabs.len()
            invariant
                i <= self.tabs@.len(),
                flags@.len() == i,
                forall|j: int| 0 <= j < i ==> flags@[j] == (not_on(path@))(self.tabs@[j]),
            decreases self.tabs@.len() - i,
        {
            let on = match &self.tabs[i].worktree {
                Some(w) => same_text(w.as_str(), path),
                None => false,
            };
            flags.push(!on);
            i = i + 1;
        }
        proof {
            lemma_kept_by_keep(self.tabs@, flags@, not_on(path@));
        }
        self.retain_tabs(&flags);
    }

    /// Closes the tab `tab_id`, keeping the active index in range.
    pub fn close_tab_by_id(&mut self, tab_id: TabId)
        requires
            old(self).wf(),
        ensures
            final(self).wf(),
            match first(old(self).tabs@, tab_with_id(tab_id)) {
                Some(i) => {
                    &&& final(self).tabs@ == old(self).tabs@.remove(i)
                    &&& final(self).active_tab == if old(self).active_tab >= final(self).tabs@.len() {
                        last_index(final(self).tabs@.len() as int) as usize
                    } else {
                        old(self).active_tab
                    }
                },
                None => final(self).tabs == old(self).tabs && final(self).active_tab == old(self).active_tab,
            },
            final(self).projects == old(self).projects,
            same_settings(*final(self), *old(self)),
    {
        if let Some(idx) = self.tab_index(tab_id) {
            proof {
                lemma_first_from(self.tabs@, tab_with_id(tab_id), 0);
                lemma_remove_sound(self.tabs@, idx as int);
            }
            self.tabs.remove(idx);
            if self.active_tab >= self.tabs.len() {
                self.active_tab = if self.tabs.len() == 0 { 0 } else { self.tabs.len() - 1 };
            }
        }
    }

    /// Closes the shown tab.
    pub fn close_active_tab(&mut self)
        requires
            old(self).wf(),
        ensures
            final(self).wf(),
            old(self).active_tab < old(self).tabs@.len() ==> {
                &&& final(self).tabs@ == old(self).tabs@.remove(old(self).active_tab as int)
                &&& final(self).active_tab == if old(self).active_tab >= final(self).tabs@.len() {
                    last_index(final(self).tabs@.len() as int) as usize
                } else {
                    old(self).active_tab
                }
            },
            old(self).active_tab >= old(self).tabs@.len() ==> final(self).tabs == old(self).tabs
                && final(self).active_tab == old(self).active_tab,
            final(self).projects == old(self).projects,
            same_settings(*final(self), *old(self)),
    {
        if self.active_tab < self.tabs.len() {
            let id = self.tabs[self.active_tab].id;
            proof {
                lemma_first_is_key(self.tabs@, self.active_tab as int);
            }
            self.close_tab_by_id(id);
        }
    }

    /// Sets the custom title of tab `tab_id`; an empty name clears it.
    pub fn rename_tab(&mut self, tab_id: TabId, name: String)
        requires
            old(self).wf(),
        ensures
            final(self).wf(),
            match first(old(self).tabs@, tab_with_id(tab_id)) {
                Some(i) => final(self).tabs@ == old(self).tabs@.update(
                    i,
                    Tab {
                        custom_title: if name@.len() == 0 { None } else { Some(name) },
                        ..old(self).tabs@[i]
                    },
                ),
                None => final(self).tabs == old(self).tabs,
            },
            final(self).active_tab == old(self).active_tab,
            final(self).projects == old(self).projects,
            same_settings(*final(self), *old(self)),
    {
        if let Some(idx) = self.tab_index(tab_id) {
            proof {
                lemma_first_from(self.tabs@, tab_with_id(tab_id), 0);
            }
            let mut tab = self.tabs[idx].clone();
            if name.as_str().is_empty() {
                tab.custom_title = None;
            } else {
                tab.custom_title = Some(name);
            }
            proof {
                lemma_update_sound(self.tabs@, idx as int, tab);
            }
            self.tabs.set(idx, tab);
        }
    }

    /// Shows the tab `tab_id`.
    pub fn switch_to_tab(&mut self, tab_id: TabId)
        requires
            old(self).wf(),
        ensures
            final(self).wf(),
            final(self).active_tab == match first(old(self).tabs@, tab_with_id(tab_id)) {
                Some(i) => i as usize,
                None => old(self).active_tab,
            },
            final(self).tabs == old(self).tabs,
            final(self).projects == old(self).projects,
            same_settings(*final(self), *old(self)),
    {
        if let Some(idx) = self.tab_index(tab_id) {
            proof {
                lemma_first_from(self.tabs@, tab_with_id(tab_id), 0);
            }
            self.active_tab = idx;
        }
    }

    /// Opens a tab of one panel at the end and shows it. The returned
    /// directory is where its terminal starts: `cwd`, else the worktree.
    pub fn new_tab_with(
        &mut self,
        tab_id: TabId,
        panel: PanelId,
        project: Option<ProjectId>,
        worktree: Option<String>,
        cwd: Option<String>,
    ) -> (r: (TabId, PanelId, Option<String>))
        requires
            old(self).wf(),
            first(old(self).tabs@, tab_with_id(tab_id)) is None,
        ensures
            final(self).wf(),
            final(self).tabs@.len() == old(self).tabs@.len() + 1,
            final(self).tabs@.drop_last() == old(self).tabs@,
            ({
                let t = final(self).tabs@.last();
                &&& t.id == tab_id
                &&& t.title@ == default_title(tab_id)
                &&& t.custom_title is None
                &&& t.panels == PanelNode::Leaf(panel)
                &&& t.active_panel == panel
                &&& !t.outputting
                &&& t.project == project
                &&& t.worktree == worktree
                &&& t.group is None
            }),
            final(self).active_tab == old(self).tabs@.len(),
            r.0 == tab_id,
            r.1 == panel,
            r.2 == match cwd {
                Some(c) => Some(c),
                None => worktree,
            },
            final(self).projects == old(self).projects,
            same_settings(*final(self), *old(self)),
    {
        let dir = match cwd {
            Some(c) => Some(c),
            None => clone_opt_string(&worktree),
        };
        let tab = Tab::new(tab_id, panel, project, worktree);
        proof {
            lemma_first_from(self.tabs@, tab_with_id(tab_id), 0);
            lemma_push_sound(self.tabs@, tab);
        }
        self.tabs.push(tab);
        self.active_tab = self.tabs.len() - 1;
        proof {
            assert(self.tabs@.drop_last() =~= old(self).tabs@);
        }
        (tab_id, panel, dir)
    }

    /// Opens a tab in the shown tab's project, if any; its terminal starts
    /// in `active_cwd`, the shown panel's directory.
    pub fn new_tab(&mut self, tab_id: TabId, panel: PanelId, active_cwd: Option<String>) -> (r: (
        TabId,
        PanelId,
        Option<String>,
    ))
        requires
            old(self).wf(),
            first(old(self).tabs@, tab_with_id(tab_id)) is None,
        ensures
            final(self).wf(),
            final(self).tabs@.drop_last() == old(self).tabs@,
            final(self).tabs@.len() == old(self).tabs@.len() + 1,
            final(self).tabs@.last().id == tab_id,
            final(self).tabs@.last().panels == PanelNode::Leaf(panel),
            final(self).tabs@.last().active_panel == panel,
            final(self).tabs@.last().project == match old(self).active_id() {
                Some(_) => old(self).tabs@[old(self).active_tab as int].project,
                None => None,
            },
            final(self).tabs@.last().worktree is None,
            final(self).active_tab == old(self).tabs@.len(),
            r == (tab_id, panel, active_cwd),
            final(self).projects == old(self).projects,
            same_settings(*final(self), *old(self)),
    {
        let project = match self.active_tab() {
            Some(t) => t.project,
            None => None,
        };
        self.new_tab_with(tab_id, panel, project, None, active_cwd)
    }

    /// Registers a project (once per root), seeded with its main worktree;
    /// `archived` and `worktree_order` are its saved sidebar preferences.
    pub fn add_project(
        &mut self,
        info: ProjectInfo,
        id: ProjectId,
        archived: Vec<String>,
        worktree_order: Vec<String>,
    ) -> (r: ProjectId)
        requires
            old(self).wf(),
            first(old(self).projects@, project_with_id(id)) is None,
        ensures
            final(self).wf(),
            match first(old(self).projects@, with_root(info.root@)) {
                Some(i) => r == old(self).projects@[i].id && final(self).projects == old(
                    self,
                ).projects,
                None => {
                    &&& r == id
                    &&& final(self).projects@.drop_last() == old(self).projects@
                    &&& final(self).projects@.len() == old(self).projects@.len() + 1
                    &&& ({
                        let p = final(self).projects@.last();
                        &&& p.id == id
                        &&& p.name == info.name
                        &&& p.root == info.root
                        &&& p.main == info.main
                        &&& p.worktrees@.len() == 1
                        &&& is_placeholder(p.worktrees@[0], info.main, true)
                        &&& p.archived == archived
                        &&& p.worktree_order == worktree_order
                        &&& !p.collapsed
                        &&& !p.show_archived
                    })
                },
            },
            final(self).tabs == old(self).tabs,
            final(self).active_tab == old(self).active_tab,
            same_settings(*final(self), *old(self)),
    {
        let mut i: usize = 0;
        while i < self.projects.len() && self.projects[i].root != info.root
            invariant
                i <= self.projects@.len(),
                first_from(self.projects@, with_root(info.root@), 0) == first_from(
                    self.projects@,
                    with_root(info.root@),
                    i as int,
                ),
            decreases self.projects@.len() - i,
        {
            i = i + 1;
        }
        if i < self.projects.len() {
            return self.projects[i].id;
        }
        let mut main_seed = Worktree::placeholder(info.main.clone());
        main_seed.is_main = true;
        let mut worktrees: Vec<Worktree> = Vec::new();
        worktrees.push(main_seed);
        let project = Project {
            id,
            name: info.name,
            root: info.root,
            main: info.main,
            worktrees,
            archived,
            worktree_order,
            collapsed: false,
            show_archived: false,
        };
        proof {
            lemma_first_from(self.projects@, project_with_id(id), 0);
        }
        self.projects.push(project);
        proof {
            assert(self.projects@.drop_last() =~= old(self).projects@);
            let ps = self.projects@;
            assert forall|a: int, b: int| 0 <= a < ps.len() && 0 <= b < ps.len() && a != b implies ps[a].id != ps[b].id by {
                if a < ps.len() - 1 && b < ps.len() - 1 {
                    assert(ps[a] == old(self).projects@[a]);
                    assert(ps[b] == old(self).projects@[b]);
                } else if a < ps.len() - 1 {
                    assert(ps[a] == old(self).projects@[a]);
                } else {
                    assert(ps[b] == old(self).projects@[b]);
                }
            }
        }
        id
    }

    /// Replaces a project's archived worktree list; `true` when there was
    /// such a project, whose preferences are then to be saved.
    pub fn set_archived(&mut self, id: ProjectId, archived: Vec<String>) -> (r: bool)
        requires
            old(self).wf(),
        ensures
            final(self).wf(),
            r == first(old(self).projects@, project_with_id(id)) is Some,
            match first(old(self).projects@, project_with_id(id)) {
                Some(i) => final(self).projects@ == old(self).projects@.update(
                    i,
                    Project { archived: archived, ..old(self).projects@[i] },
                ),
                None => final(self).projects == old(self).projects,
            },
            final(self).tabs == old(self).tabs,
            final(self).active_tab == old(self).active_tab,
            same_settings(*final(self), *old(self)),
    {
        match self.project_index(id) {
            Some(i) => {
                proof {
                    lemma_first_from(self.projects@, project_with_id(id), 0);
                }
                let mut p = self.projects.remove(i);
                p.archived = archived;
                self.projects.insert(i, p);
                proof {
                    assert(self.projects@ =~= old(self).projects@.update(i as int, p));
                    lemma_projects_update_sound(old(self).projects@, i as int, p);
                }
                true
            },
            None => false,
        }
    }

    /// Reveals or hides a project's archived rows, closing the tabs open on
    /// archived worktrees when hiding them.
    pub fn toggle_show_archived(&mut self, id: ProjectId)
        requires
            old(self).wf(),
        ensures
            final(self).wf(),
            match first(old(self).projects@, project_with_id(id)) {
                Some(i) => {
                    let p = old(self).projects@[i];
                    &&& final(self).projects@ == old(self).projects@.update(
                        i,
                        Project { show_archived: !p.show_archived, ..p },
                    )
                    &&& if p.show_archived {
                        &&& final(self).tabs@ == keep(old(self).tabs@, not_on_any(hidden_worktrees(p)))
                        &&& final(self).active_tab == restored_index(final(self).tabs@, old(self).active_id())
                    } else {
                        final(self).tabs == old(self).tabs && final(self).active_tab == old(self).active_tab
                    }
                },
                None => final(self).projects == old(self).projects && final(self).tabs == old(
                    self,
                ).tabs && final(self).active_tab == old(self).active_tab,
            },
            same_settings(*final(self), *old(self)),
    {
        let i = match self.project_index(id) {
            Some(i) => i,
            None => return,
        };
        proof {
            lemma_first_from(self.projects@, project_with_id(id), 0);
        }
        let ghost p0 = self.projects@[i as int];
        let mut p = self.projects.remove(i);
        p.show_archived = !p.show_archived;
        let now_shown = p.show_archived;
        let mut hidden: Vec<String> = Vec::new();
        if !now_shown {
            let mut j: usize = 0;
            while j < p.worktrees.len()
                invariant
                    j <= p.worktrees@.len(),
                    hidden@.len() == keep(p.worktrees@.take(j as int), archived_in(p.archived@)).len(),
                    forall|k: int| 0 <= k < hidden@.len() ==> hidden@[k]@ == keep(
                        p.worktrees@.take(j as int),
                        archived_in(p.archived@),
                    )[k].path@,
                decreases p.worktrees@.len() - j,
            {
                proof {
                    lemma_keep_step(p.worktrees@, archived_in(p.archived@), j as int);
                }
                if position_of(&p.archived, &p.worktrees[j].name).is_some() {
                    hidden.push(p.worktrees[j].path.clone());
                }
                j = j + 1;
            }
            assert(p.worktrees@.take(p.worktrees@.len() as int) =~= p.worktrees@);
        }
        self.projects.insert(i, p);
        proof {
            assert(self.projects@ =~= old(self).projects@.update(i as int, p));
            lemma_projects_update_sound(old(self).projects@, i as int, p);
        }
        if !now_shown {
            let ghost hw = hidden_worktrees(p0);
            assert(hw == keep(p.worktrees@, archived_in(p.archived@)));
            let mut flags: Vec<bool> = Vec::new();
            let mut t: usize = 0;
            while t < self.tabs.len()
                invariant
                    t <= self.tabs@.len(),
                    flags@.len() == t,
                    hidden@.len() == hw.len(),
                    forall|k: int| 0 <= k < hidden@.len() ==> hidden@[k]@ == hw[k].path@,
                    forall|k: int| 0 <= k < t ==> flags@[k] == (not_on_any(hw))(self.tabs@[k]),
                decreases self.tabs@.len() - t,
            {
                let on = match &self.tabs[t].worktree {
                    Some(w) => {
                        let mut found = false;
                        let mut h: usize = 0;
                        while h < hidden.len()
                            invariant
                                h <= hidden@.len(),
                                hidden@.len() == hw.len(),
                                forall|k: int| 0 <= k < hidden@.len() ==> hidden@[k]@ == hw[k].path@,
                                found == exists|k: int| 0 <= k < h && hw[k].path@ == w@,
                            decreases hidden@.len() - h,
                        {
                            if hidden[h] == *w {
                                found = true;
                            }
                            h = h + 1;
                        }
                        found
                    },
                    None => false,
                };
                flags.push(!on);
                t = t + 1;
            }
            proof {
                lemma_kept_by_keep(self.tabs@, flags@, not_on_any(hw));
            }
            self.retain_tabs(&flags);
        }
    }

    /// Closes a project and all of its tabs.
    pub fn remove_project(&mut self, id: ProjectId)
        requires
            old(self).wf(),
        ensures
            final(self).wf(),
            final(self).tabs@ == keep(old(self).tabs@, not_in_project(id)),
            final(self).active_tab == restored_index(final(self).tabs@, old(self).active_id()),
            match first(old(self).projects@, project_with_id(id)) {
                Some(i) => final(self).projects@ == old(self).projects@.remove(i),
                None => final(self).projects == old(self).projects,
            },
            same_settings(*final(self), *old(self)),
    {
        let mut flags: Vec<bool> = Vec::new();
        let mut t: usize = 0;
        while t < self.tabs.len()
            invariant
                t <= self.tabs@.len(),
                flags@.len() == t,
                forall|k: int| 0 <= k < t ==> flags@[k] == (not_in_project(id))(self.tabs@[k]),
            decreases self.tabs@.len() - t,
        {
            flags.push(self.tabs[t].project != Some(id));
            t = t + 1;
        }
        proof {
            lemma_kept_by_keep(self.tabs@, flags@, not_in_project(id));
        }
        self.retain_tabs(&flags);
        if let Some(i) = self.project_index(id) {
            proof {
                lemma_first_from(self.projects@, project_with_id(id), 0);
                let ps = self.projects@;
                let r = ps.remove(i as int);
                assert forall|a: int, b: int| 0 <= a < r.len() && 0 <= b < r.len() && a != b implies r[a].id != r[b].id by {
                    let oa = if a < i { a } else { a + 1 };
                    let ob = if b < i { b } else { b + 1 };
                    assert(r[a] == ps[oa]);
                    assert(r[b] == ps[ob]);
                }
            }
            self.projects.remove(i);
        }
    }

    /// The project's visible sidebar rows, in display order: its worktrees
    /// as git lists them, then its tabs open on worktrees git does not list.
    pub fn worktree_entries(&self, project: &Project) -> (r: Vec<WorktreeEntry>)
        ensures
            ({
                let listed = listed_rows(*project);
                let opened = keep(self.tabs@, opened_row(*project));
                &&& r@.len() == listed.len() + opened.len()
                &&& forall|i: int| 0 <= i < listed.len() ==> listed_entry(
                    #[trigger] r@[i],
                    listed[i],
                    self.tabs@,
                    *project,
                )
                &&& forall|i: int| 0 <= i < opened.len() ==> opened_entry(
                    #[trigger] r@[listed.len() + i],
                    opened[i],
                    *project,
                )
            }),
    {
        let sorted = sorted_worktrees(&project.worktrees, &project.worktree_order);
        let ghost ws = sorted@;
        let ghost vis = listed_visible(*project);
        let mut entries: Vec<WorktreeEntry> = Vec::new();
        let mut j: usize = 0;
        while j < sorted.len()
            invariant
                ws == sorted@,
                ws == spec_sorted_worktrees(project.worktrees@, project.worktree_order@),
                vis == listed_visible(*project),
                j <= ws.len(),
                entries@.len() == keep(ws.take(j as int), vis).len(),
                forall|i: int| 0 <= i < entries@.len() ==> listed_entry(
                    #[trigger] entries@[i],
                    keep(ws.take(j as int), vis)[i],
                    self.tabs@,
                    *project,
                ),
            decreases ws.len() - j,
        {
            proof {
                lemma_keep_step(ws, vis, j as int);
            }
            let wt = &sorted[j];
            let archived = position_of(&project.archived, &wt.name).is_some();
            if !(archived && !project.show_archived) {
                let tab = match self.tab_for_worktree(project.id, wt.path.as_str()) {
                    Some(t) => Some(t.id),
                    None => None,
                };
                entries.push(WorktreeEntry { worktree: wt.clone(), tab, archived });
            }
            j = j + 1;
        }
        assert(ws.take(ws.len() as int) =~= ws);
        let ghost listed_count = entries@.len();
        let ghost op = opened_row(*project);
        let mut t: usize = 0;
        while t < self.tabs.len()
            invariant
                op == opened_row(*project),
                listed_count == listed_rows(*project).len(),
                t <= self.tabs@.len(),
                entries@.len() == listed_count + keep(self.tabs@.take(t as int), op).len(),
                forall|i: int| 0 <= i < listed_count ==> listed_entry(
                    #[trigger] entries@[i],
                    listed_rows(*project)[i],
                    self.tabs@,
                    *project,
                ),
                forall|i: int| 0 <= i < keep(self.tabs@.take(t as int), op).len() ==> opened_entry(
                    #[trigger] entries@[listed_count + i],
                    keep(self.tabs@.take(t as int), op)[i],
                    *project,
                ),
            decreases self.tabs@.len() - t,
        {
            proof {
                lemma_keep_step(self.tabs@, op, t as int);
            }
            let tab = &self.tabs[t];
            if tab.project == Some(project.id) {
                if let Some(path) = &tab.worktree {
                    let mut listed = false;
                    let mut w: usize = 0;
                    while w < project.worktrees.len()
                        invariant
                            w <= project.worktrees@.len(),
                            listed == exists|k: int| 0 <= k < w && project.worktrees@[k].path@ == path@,
                        decreases project.worktrees@.len() - w,
                    {
                        if project.worktrees[w].path == *path {
                            listed = true;
                        }
                        w = w + 1;
                    }
                    if !listed {
                        let worktree = Worktree::placeholder(path.clone());
                        let archived = position_of(&project.archived, &worktree.name).is_some();
                        if !(archived && !project.show_archived) {
                            entries.push(WorktreeEntry { worktree, tab: Some(tab.id), archived });
                        }
                    }
                }
            }
            proof {
                let kk = keep(self.tabs@.take(t as int), op);
                let kn = keep(self.tabs@.take(t as int + 1), op);
                assert forall|i: int| 0 <= i < kn.len() implies opened_entry(
                    #[trigger] entries@[listed_count + i],
                    kn[i],
                    *project,
                ) by {
                    if i < kk.len() {
                        assert(kn[i] == kk[i]);
                    }
                }
            }
            t = t + 1;
        }
        assert(self.tabs@.take(self.tabs@.len() as int) =~= self.tabs@);
        entries
    }

    /// Tab identities in sidebar order: per project its worktree rows' tabs
    /// and its plain tabs, then the loose tabs.
    pub fn display_order(&self) -> (r: Vec<TabId>)
        ensures
            r@ == spec_display_order(*self),
    {
        let mut order: Vec<TabId> = Vec::new();
        let mut k: usize = 0;
        while k < self.projects.len()
            invariant
                k <= self.projects@.len(),
                order@ == projects_order(self.tabs@, self.projects@, k as int),
            decreases self.projects@.len() - k,
        {
            let project = &self.projects[k];
            let ghost before = order@;
            let sorted = sorted_worktrees(&project.worktrees, &project.worktree_order);
            let ghost ws = sorted@;
            let ghost vis = listed_visible(*project);
            let mut j: usize = 0;
            while j < sorted.len()
                invariant
                    ws == sorted@,
                    ws == spec_sorted_worktrees(project.worktrees@, project.worktree_order@),
                    vis == listed_visible(*project),
                    j <= ws.len(),
                    order@ == before + listed_tabs(self.tabs@, *project, keep(ws.take(j as int), vis)),
                decreases ws.len() - j,
            {
                proof {
                    lemma_keep_step(ws, vis, j as int);
                }
                let wt = &sorted[j];
                let archived = position_of(&project.archived, &wt.name).is_some();
                if !(archived && !project.show_archived) {
                    let ghost rows = keep(ws.take(j as int), vis);
                    assert(rows.push(ws[j as int]).drop_last() =~= rows);
                    match self.tab_for_worktree(project.id, wt.path.as_str()) {
                        Some(t) => {
                            order.push(t.id);
                        },
                        None => {},
                    }
                }
                j = j + 1;
            }
            assert(ws.take(ws.len() as int) =~= ws);
            let ghost mid = order@;
            let ghost op = opened_row(*project);
            let mut t: usize = 0;
            while t < self.tabs.len()
                invariant
                    op == opened_row(*project),
                    t <= self.tabs@.len(),
                    order@ == mid + tab_ids(keep(self.tabs@.take(t as int), op)),
                decreases self.tabs@.len() - t,
            {
                proof {
                    lemma_keep_step(self.tabs@, op, t as int);
                    lemma_tab_ids_push(keep(self.tabs@.take(t as int), op), self.tabs@[t as int]);
                }
                let tab = &self.tabs[t];
                if tab.project == Some(project.id) {
                    if let Some(path) = &tab.worktree {
                        let mut listed = false;
                        let mut w: usize = 0;
                        while w < project.worktrees.len()
                            invariant
                                w <= project.worktrees@.len(),
                                listed == exists|q: int| 0 <= q < w && project.worktrees@[q].path@ == path@,
                            decreases project.worktrees@.len() - w,
                        {
                            if project.worktrees[w].path == *path {
                                listed = true;
                            }
                            w = w + 1;
                        }
                        if !listed {
                            let name = crate::paths::dir_name(path.as_str());
                            let archived = position_of(&project.archived, &name).is_some();
                            if !(archived && !project.show_archived) {
                                order.push(tab.id);
                            }
                        }
                    }
                }
                t = t + 1;
            }
            assert(self.tabs@.take(self.tabs@.len() as int) =~= self.tabs@);
            let ghost mid2 = order@;
            let ghost pl = plain_in(project.id);
            t = 0;
            while t < self.tabs.len()
                invariant
                    pl == plain_in(project.id),
                    t <= self.tabs@.len(),
                    order@ == mid2 + tab_ids(keep(self.tabs@.take(t as int), pl)),
                decreases self.tabs@.len() - t,
            {
                proof {
                    lemma_keep_step(self.tabs@, pl, t as int);
                    lemma_tab_ids_push(keep(self.tabs@.take(t as int), pl), self.tabs@[t as int]);
                }
                if self.tabs[t].project == Some(project.id) && self.tabs[t].worktree.is_none() {
                    order.push(self.tabs[t].id);
                }
                t = t + 1;
            }
            assert(self.tabs@.take(self.tabs@.len() as int) =~= self.tabs@);
            proof {
                assert(order@ =~= before + project_order(self.tabs@, *project));
            }
            k = k + 1;
        }
        let ghost mid3 = order@;
        let mut t: usize = 0;
        while t < self.tabs.len()
            invariant
                t <= self.tabs@.len(),
                order@ == mid3 + tab_ids(keep(self.tabs@.take(t as int), loose_tab())),
            decreases self.tabs@.len() - t,
        {
            proof {
                lemma_keep_step(self.tabs@, loose_tab(), t as int);
                lemma_tab_ids_push(keep(self.tabs@.take(t as int), loose_tab()), self.tabs@[t as int]);
            }
            if self.tabs[t].project.is_none() {
                order.push(self.tabs[t].id);
            }
            t = t + 1;
        }
        assert(self.tabs@.take(self.tabs@.len() as int) =~= self.tabs@);
        order
    }

    /// Whether cycling may stop at tab `tab_id`: it exists and is not in a
    /// collapsed project.
    fn is_cyclable(&self, tab_id: TabId) -> (r: bool)
        ensures
            r == cyclable(*self, tab_id),
    {
        match self.tab_index(tab_id) {
            None => false,
            Some(i) => {
                proof {
                    lemma_first_from(self.tabs@, tab_with_id(tab_id), 0);
                }
                match self.tabs[i].project {
                    None => true,
                    Some(pid) => match self.project(pid) {
                        Some(p) => !p.collapsed,
                        None => true,
                    },
                }
            },
        }
    }

    /// Shows the next (or previous) cyclable tab in sidebar order, wrapping
    /// around.
    fn step_tab(&mut self, forward: bool)
        requires
            old(self).wf(),
        ensures
            final(self).wf(),
            final(self).active_tab == stepped(*old(self), forward),
            final(self).tabs == old(self).tabs,
            final(self).projects == old(self).projects,
            same_settings(*final(self), *old(self)),
    {
        let order = self.display_order();
        let len = order.len();
        if len == 0 {
            return;
        }
        let ghost os = order@;
        let active = match self.active_tab() {
            Some(t) => Some(t.id),
            None => None,
        };
        let mut current: usize = 0;
        if let Some(id) = active {
            let mut q: usize = 0;
            while q < len && order[q] != id
                invariant
                    len == os.len(),
                    os == order@,
                    q <= len,
                    first_from(os, is_tab(id), 0) == first_from(os, is_tab(id), q as int),
                decreases len - q,
            {
                q = q + 1;
            }
            if q < len {
                current = q;
            }
        }
        assert(current as int == current_position(*self, os));
        let mut done: usize = 0;
        while done < len
            invariant
                len == os.len(),
                os == order@,
                os == spec_display_order(*self),
                len > 0,
                current < len,
                current as int == current_position(*self, os),
                done <= len,
                self.wf(),
                *self == *old(self),
                first_cyclable_step(*self, os, current as int, forward, 1) == first_cyclable_step(
                    *self,
                    os,
                    current as int,
                    forward,
                    done as int + 1,
                ),
            decreases len - done,
        {
            let step = done + 1;
            let index = if forward {
                let room = len - current;
                if step < room {
                    current + step
                } else {
                    step - room
                }
            } else {
                if step <= current {
                    current - step
                } else {
                    let d = step - current;
                    if d == len {
                        0
                    } else {
                        len - d
                    }
                }
            };
            proof {
                lemma_step_index(current as int, len as int, step as int, forward, index as int);
            }
            if self.is_cyclable(order[index]) {
                self.switch_to_tab(order[index]);
                return;
            }
            done = step;
        }
    }

    /// Shows the next cyclable tab in sidebar order.
    pub fn next_tab(&mut self)
        requires
            old(self).wf(),
        ensures
            final(self).wf(),
            final(self).active_tab == stepped(*old(self), true),
            final(self).tabs == old(self).tabs,
            final(self).projects == old(self).projects,
            same_settings(*final(self), *old(self)),
    {
        self.step_tab(true);
    }

    /// Shows the previous cyclable tab in sidebar order.
    pub fn prev_tab(&mut self)
        requires
            old(self).wf(),
        ensures
            final(self).wf(),
            final(self).active_tab == stepped(*old(self), false),
            final(self).tabs == old(self).tabs,
            final(self).projects == old(self).projects,
            same_settings(*final(self), *old(self)),
    {
        self.step_tab(false);
    }

    /// Moves tab `from_id` to the place of tab `to_id`, filing it under that
    /// tab's project; a worktree tab never changes project, so it does not
    /// move across projects.
    pub fn move_tab(&mut self, from_id: TabId, to_id: TabId)
        requires
            old(self).wf(),
        ensures
            final(self).wf(),
            match (
                first(old(self).tabs@, tab_with_id(from_id)),
                first(old(self).tabs@, tab_with_id(to_id)),
            ) {
                (Some(f), Some(t)) => if from_id != to_id && !(old(self).tabs@[f].project != old(
                    self,
                ).tabs@[t].project && old(self).tabs@[f].worktree is Some) {
                    &&& final(self).tabs@ == old(self).tabs@.remove(f).insert(
                        t,
                        Tab { project: old(self).tabs@[t].project, ..old(self).tabs@[f] },
                    )
                    &&& final(self).active_id() == old(self).active_id()
                } else {
                    final(self).tabs == old(self).tabs && final(self).active_tab == old(
                        self,
                    ).active_tab
                },
                _ => final(self).tabs == old(self).tabs && final(self).active_tab == old(
                    self,
                ).active_tab,
            },
            final(self).tabs@.len() == old(self).tabs@.len(),
            forall|id: TabId|
                #![trigger first(final(self).tabs@, tab_with_id(id))]
                (first(final(self).tabs@, tab_with_id(id)) is Some) == (first(
                    old(self).tabs@,
                    tab_with_id(id),
                ) is Some),
            final(self).projects == old(self).projects,
            same_settings(*final(self), *old(self)),
    {
        if from_id == to_id {
            return;
        }
        let f = match self.tab_index(from_id) {
            Some(i) => i,
            None => return,
        };
        let t = match self.tab_index(to_id) {
            Some(i) => i,
            None => return,
        };
        proof {
            lemma_first_from(self.tabs@, tab_with_id(from_id), 0);
            lemma_first_from(self.tabs@, tab_with_id(to_id), 0);
        }
        let target_project = self.tabs[t].project;
        if self.tabs[f].project != target_project && self.tabs[f].worktree.is_some() {
            return;
        }
        let active_id = self.tabs[self.active_tab].id;
        let ghost old_tabs = self.tabs@;
        let mut tab = self.tabs.remove(f);
        tab.project = target_project;
        proof {
            lemma_remove_sound(old_tabs, f as int);
            lemma_insert_sound(old_tabs, f as int, t as int, tab);
        }
        self.tabs.insert(t, tab);
        proof {
            lemma_same_ids_after_move(old_tabs, f as int, t as int, tab);
        }
        match self.tab_index(active_id) {
            Some(i) => {
                self.active_tab = i;
                proof {
                    lemma_first_from(self.tabs@, tab_with_id(active_id), 0);
                }
            },
            None => {
                proof {
                    lemma_first_is_key(old_tabs, old(self).active_tab as int);
                }
            },
        }
    }

    /// Files plain tab `tab_id` under `project` (or no project) and puts it
    /// last; worktree tabs stay where they are.
    pub fn reparent_tab(&mut self, tab_id: TabId, project: Option<ProjectId>)
        requires
            old(self).wf(),
        ensures
            final(self).wf(),
            match first(old(self).tabs@, tab_with_id(tab_id)) {
                Some(i) => if old(self).tabs@[i].worktree is None && old(self).tabs@[i].project
                    != project {
                    &&& final(self).tabs@ == old(self).tabs@.remove(i).push(
                        Tab { project: project, ..old(self).tabs@[i] },
                    )
                    &&& final(self).active_id() == old(self).active_id()
                } else {
                    final(self).tabs == old(self).tabs && final(self).active_tab == old(
                        self,
                    ).active_tab
                },
                None => final(self).tabs == old(self).tabs && final(self).active_tab == old(
                    self,
                ).active_tab,
            },
            final(self).projects == old(self).projects,
            same_settings(*final(self), *old(self)),
    {
        let i = match self.tab_index(tab_id) {
            Some(i) => i,
            None => return,
        };
        proof {
            lemma_first_from(self.tabs@, tab_with_id(tab_id), 0);
        }
        if self.tabs[i].worktree.is_some() || self.tabs[i].project == project {
            return;
        }
        let active_id = self.tabs[self.active_tab].id;
        let ghost old_tabs = self.tabs@;
        let mut tab = self.tabs.remove(i);
        tab.project = project;
        proof {
            lemma_remove_sound(old_tabs, i as int);
            let r = old_tabs.remove(i as int);
            lemma_insert_sound(old_tabs, i as int, r.len() as int, tab);
            assert(r.insert(r.len() as int, tab) =~= r.push(tab));
        }
        self.tabs.push(tab);
        proof {
            let r = old_tabs.remove(i as int);
            assert(r.insert(r.len() as int, tab) =~= r.push(tab));
            lemma_same_ids_after_move(old_tabs, i as int, r.len() as int, tab);
        }
        match self.tab_index(active_id) {
            Some(j) => {
                self.active_tab = j;
                proof {
                    lemma_first_from(self.tabs@, tab_with_id(active_id), 0);
                }
            },
            None => {
                proof {
                    lemma_first_is_key(old_tabs, old(self).active_tab as int);
                }
            },
        }
    }

    /// Splits the shown tab's active panel along `axis`, the new panel
    /// `panel` going right of it or below it and becoming active.
    pub fn split(&mut self, axis: Axis, panel: PanelId) -> (r: Option<PanelId>)
        requires
            old(self).wf(),
            old(self).active_tab < old(self).tabs@.len() ==> !old(self).tabs@[old(
                self,
            ).active_tab as int].panels.has(panel),
        ensures
            final(self).wf(),
            if old(self).active_tab < old(self).tabs@.len() {
                let t = old(self).tabs@[old(self).active_tab as int];
                &&& r == Some(panel)
                &&& final(self).tabs@ == old(self).tabs@.update(
                    old(self).active_tab as int,
                    Tab {
                        panels: t.panels.replaced(t.active_panel, split_node(axis, t.active_panel, panel)),
                        active_panel: panel,
                        ..t
                    },
                )
            } else {
                r is None && final(self).tabs == old(self).tabs
            },
            final(self).active_tab == old(self).active_tab,
            final(self).projects == old(self).projects,
            same_settings(*final(self), *old(self)),
    {
        if self.active_tab >= self.tabs.len() {
            return None;
        }
        let i = self.active_tab;
        let mut tab = self.tabs[i].clone();
        let current = tab.active_panel;
        let node = match axis {
            Axis::Horizontal => PanelNode::Horizontal(
                Box::new(PanelNode::Leaf(current)),
                Box::new(PanelNode::Leaf(panel)),
            ),
            Axis::Vertical => PanelNode::Vertical(
                Box::new(PanelNode::Leaf(current)),
                Box::new(PanelNode::Leaf(panel)),
            ),
        };
        proof {
            lemma_split_sound(tab.panels, current, panel, axis);
        }
        tab.panels = tab.panels.replace_leaf(current, node);
        tab.active_panel = panel;
        proof {
            lemma_update_sound(self.tabs@, i as int, tab);
        }
        self.tabs.set(i, tab);
        Some(panel)
    }

    /// Splits the shown tab's active panel into a two-by-two grid: the
    /// panel stays top left and stays active, `right` goes top right,
    /// `below` bottom left and `corner` bottom right. Returns the three new
    /// panels, `None` when no tab is shown.
    pub fn split_grid(&mut self, right: PanelId, below: PanelId, corner: PanelId) -> (r: Option<
        (PanelId, PanelId, PanelId),
    >)
        requires
            old(self).wf(),
            right != below,
            right != corner,
            below != corner,
            old(self).active_tab < old(self).tabs@.len() ==> {
                let panels = old(self).tabs@[old(self).active_tab as int].panels;
                &&& !panels.has(right)
                &&& !panels.has(below)
                &&& !panels.has(corner)
            },
        ensures
            final(self).wf(),
            if old(self).active_tab < old(self).tabs@.len() {
                let t = old(self).tabs@[old(self).active_tab as int];
                let l = t.panels.spec_leaves();
                let nt = final(self).tabs@[old(self).active_tab as int];
                &&& r == Some((right, below, corner))
                &&& final(self).tabs@ == old(self).tabs@.update(
                    old(self).active_tab as int,
                    Tab {
                        panels: t.panels.replaced(
                            t.active_panel,
                            grid_node(t.active_panel, right, below, corner),
                        ),
                        ..t
                    },
                )
                &&& nt.active_panel == t.active_panel
                &&& exists|i: int|
                    0 <= i < l.len() && l[i] == t.active_panel && nt.panels.spec_leaves() == l.take(i)
                        + seq![t.active_panel, right, below, corner] + l.skip(i + 1)
            } else {
                r is None && final(self).tabs == old(self).tabs
            },
            final(self).active_tab == old(self).active_tab,
            final(self).projects == old(self).projects,
            same_settings(*final(self), *old(self)),
    {
        if self.active_tab >= self.tabs.len() {
            return None;
        }
        let i = self.active_tab;
        let mut tab = self.tabs[i].clone();
        let current = tab.active_panel;
        let node = PanelNode::Vertical(
            Box::new(
                PanelNode::Horizontal(Box::new(PanelNode::Leaf(current)), Box::new(PanelNode::Leaf(right))),
            ),
            Box::new(
                PanelNode::Horizontal(Box::new(PanelNode::Leaf(below)), Box::new(PanelNode::Leaf(corner))),
            ),
        );
        proof {
            lemma_grid_sound(tab.panels, current, right, below, corner);
        }
        tab.panels = tab.panels.replace_leaf(current, node);
        proof {
            lemma_update_sound(self.tabs@, i as int, tab);
        }
        self.tabs.set(i, tab);
        Some((right, below, corner))
    }

    /// Keeps only the shown tab's active panel.
    pub fn close_all_except_active(&mut self)
        requires
            old(self).wf(),
        ensures
            final(self).wf(),
            if old(self).active_tab < old(self).tabs@.len() {
                let t = old(self).tabs@[old(self).active_tab as int];
                final(self).tabs@ == old(self).tabs@.update(
                    old(self).active_tab as int,
                    Tab { panels: PanelNode::Leaf(t.active_panel), ..t },
                )
            } else {
                final(self).tabs == old(self).tabs
            },
            final(self).active_tab == old(self).active_tab,
            final(self).projects == old(self).projects,
            same_settings(*final(self), *old(self)),
    {
        if self.active_tab >= self.tabs.len() {
            return;
        }
        let i = self.active_tab;
        let mut tab = self.tabs[i].clone();
        tab.panels = PanelNode::Leaf(tab.active_panel);
        proof {
            assert(tab.panels.spec_leaves() =~= seq![tab.active_panel]);
            lemma_update_sound(self.tabs@, i as int, tab);
        }
        self.tabs.set(i, tab);
    }

    /// Closes the shown tab's active panel, its sibling taking its room; the
    /// last panel of the tab becomes active, and the tab takes the title its
    /// terminal reports in `titles` when that is not empty. A tab's only
    /// panel stays.
    pub fn close_active_panel(&mut self, titles: &Vec<(PanelId, String)>)
        requires
            old(self).wf(),
        ensures
            final(self).wf(),
            if old(self).active_tab < old(self).tabs@.len() {
                let t = old(self).tabs@[old(self).active_tab as int];
                match t.panels.removed(t.active_panel) {
                    Some(rest) => final(self).tabs@ == old(self).tabs@.update(
                        old(self).active_tab as int,
                        Tab {
                            panels: rest,
                            active_panel: rest.spec_leaves().last(),
                            title: title_after(titles@, rest.spec_leaves().last(), t.title),
                            ..t
                        },
                    ),
                    None => final(self).tabs == old(self).tabs,
                }
            } else {
                final(self).tabs == old(self).tabs
            },
            final(self).active_tab == old(self).active_tab,
            final(self).projects == old(self).projects,
            same_settings(*final(self), *old(self)),
    {
        if self.active_tab >= self.tabs.len() {
            return;
        }
        let i = self.active_tab;
        let mut tab = self.tabs[i].clone();
        let target = tab.active_panel;
        match tab.panels.clone().remove_leaf(target) {
            Some(rest) => {
                let leaves = rest.leaves();
                proof {
                    lemma_close_sound(tab.panels, target);
                }
                let last = leaves[leaves.len() - 1];
                tab.title = title_for(titles, last, &tab.title);
                tab.panels = rest;
                tab.active_panel = last;
                proof {
                    lemma_update_sound(self.tabs@, i as int, tab);
                }
                self.tabs.set(i, tab);
            },
            None => {},
        }
    }

    /// Moves the shown tab's active panel to its neighbour in direction
    /// `dir`, when there is one; the tab then takes the title that panel's
    /// terminal reports in `titles`, when that is not empty.
    pub fn navigate(&mut self, dir: NavDirection, titles: &Vec<(PanelId, String)>)
        requires
            old(self).wf(),
        ensures
            final(self).wf(),
            if old(self).active_tab < old(self).tabs@.len() {
                let t = old(self).tabs@[old(self).active_tab as int];
                match t.panels.neighbour(t.active_panel, dir) {
                    Some(n) => final(self).tabs@ == old(self).tabs@.update(
                        old(self).active_tab as int,
                        Tab { active_panel: n, title: title_after(titles@, n, t.title), ..t },
                    ),
                    None => final(self).tabs == old(self).tabs,
                }
            } else {
                final(self).tabs == old(self).tabs
            },
            final(self).active_tab == old(self).active_tab,
            final(self).projects == old(self).projects,
            same_settings(*final(self), *old(self)),
    {
        if self.active_tab >= self.tabs.len() {
            return;
        }
        let i = self.active_tab;
        let mut tab = self.tabs[i].clone();
        match tab.panels.find_neighbour(tab.active_panel, dir) {
            Some(n) => {
                proof {
                    crate::panels::law_neighbour_in_tree(tab.panels, tab.active_panel, dir);
                }
                tab.active_panel = n;
                tab.title = title_for(titles, n, &tab.title);
                proof {
                    lemma_update_sound(self.tabs@, i as int, tab);
                }
                self.tabs.set(i, tab);
            },
            None => {},
        }
    }

    /// Orders a project's worktrees by activity: open with changes, then
    /// open, then with changes, then the rest, each group in sidebar order.
    /// `true` when there was such a project, whose order is then to be saved.
    pub fn sort_worktrees(&mut self, id: ProjectId) -> (r: bool)
        requires
            old(self).wf(),
        ensures
            final(self).wf(),
            r == first(old(self).projects@, project_with_id(id)) is Some,
            match first(old(self).projects@, project_with_id(id)) {
                Some(i) => {
                    &&& final(self).projects@ == old(self).projects@.update(
                        i,
                        Project {
                            worktree_order: final(self).projects@[i].worktree_order,
                            ..old(self).projects@[i]
                        },
                    )
                    &&& final(self).projects@[i].worktree_order@ == names_of(
                        by_activity(old(self).tabs@, old(self).projects@[i]),
                    )
                },
                None => final(self).projects == old(self).projects,
            },
            final(self).tabs == old(self).tabs,
            final(self).active_tab == old(self).active_tab,
            same_settings(*final(self), *old(self)),
    {
        let i = match self.project_index(id) {
            Some(i) => i,
            None => return false,
        };
        proof {
            lemma_first_from(self.projects@, project_with_id(id), 0);
        }
        let ghost p0 = self.projects@[i as int];
        let sorted = sorted_worktrees(&self.projects[i].worktrees, &self.projects[i].worktree_order);
        let ghost ws = sorted@;
        let mut ranks: Vec<u8> = Vec::new();
        let mut j: usize = 0;
        while j < sorted.len()
            invariant
                ws == sorted@,
                j <= ws.len(),
                ranks@.len() == j,
                p0.id == id,
                forall|q: int| 0 <= q < j ==> ranks@[q] as int == activity_rank(self.tabs@, p0, #[trigger] ws[q]),
            decreases ws.len() - j,
        {
            let open = self.tab_for_worktree(id, sorted[j].path.as_str()).is_some();
            let dirty = match sorted[j].diff {
                Some(d) => !d.is_clean(),
                None => false,
            };
            let rank: u8 = if open && dirty {
                0
            } else if open {
                1
            } else if dirty {
                2
            } else {
                3
            };
            ranks.push(rank);
            j = j + 1;
        }
        let mut order: Vec<String> = Vec::new();
        let mut r: u8 = 0;
        while r < 4
            invariant
                ws == sorted@,
                ranks@.len() == ws.len(),
                forall|q: int| 0 <= q < ws.len() ==> ranks@[q] as int == activity_rank(self.tabs@, p0, #[trigger] ws[q]),
                r <= 4,
                order@ == names_of(ranked_upto(self.tabs@, p0, ws, r as int)),
            decreases 4 - r,
        {
            let ghost before = order@;
            j = 0;
            while j < sorted.len()
                invariant
                    ws == sorted@,
                    ranks@.len() == ws.len(),
                    forall|q: int| 0 <= q < ws.len() ==> ranks@[q] as int == activity_rank(self.tabs@, p0, #[trigger] ws[q]),
                    r < 4,
                    j <= ws.len(),
                    order@ == before + names_of(keep(ws.take(j as int), ranked(self.tabs@, p0, r as int))),
                decreases ws.len() - j,
            {
                proof {
                    lemma_keep_step(ws, ranked(self.tabs@, p0, r as int), j as int);
                    let kk = keep(ws.take(j as int), ranked(self.tabs@, p0, r as int));
                    assert(names_of(kk.push(ws[j as int])) =~= names_of(kk).push(ws[j as int].name));
                }
                if !sorted[j].is_main && ranks[j] == r {
                    order.push(sorted[j].name.clone());
                }
                j = j + 1;
            }
            assert(ws.take(ws.len() as int) =~= ws);
            proof {
                let a = ranked_upto(self.tabs@, p0, ws, r as int);
                let b = keep(ws, ranked(self.tabs@, p0, r as int));
                assert(names_of(a + b) =~= names_of(a) + names_of(b));
            }
            r = r + 1;
        }
        assert(ranked_upto(self.tabs@, p0, ws, 4) =~= by_activity(self.tabs@, p0));
        let mut p = self.projects.remove(i);
        p.worktree_order = order;
        self.projects.insert(i, p);
        proof {
            assert(self.projects@ =~= old(self).projects@.update(i as int, p));
            lemma_projects_update_sound(old(self).projects@, i as int, p);
        }
        true
    }

    /// Moves worktree `dragged` to the place of worktree `target` in a
    /// project's custom order; `true` when the order changed and is to be
    /// saved.
    pub fn reorder_worktree(&mut self, id: ProjectId, dragged: &str, target: &str) -> (r: bool)
        requires
            old(self).wf(),
        ensures
            final(self).wf(),
            match first(old(self).projects@, project_with_id(id)) {
                Some(i) => match reordered(old(self).projects@[i], dragged@, target@) {
                    Some(names) => {
                        &&& r
                        &&& final(self).projects@ == old(self).projects@.update(
                            i,
                            Project {
                                worktree_order: final(self).projects@[i].worktree_order,
                                ..old(self).projects@[i]
                            },
                        )
                        &&& text_views(final(self).projects@[i].worktree_order@) == names
                    },
                    None => !r && final(self).projects == old(self).projects,
                },
                None => !r && final(self).projects == old(self).projects,
            },
            final(self).tabs == old(self).tabs,
            final(self).active_tab == old(self).active_tab,
            same_settings(*final(self), *old(self)),
    {
        let i = match self.project_index(id) {
            Some(i) => i,
            None => return false,
        };
        proof {
            lemma_first_from(self.projects@, project_with_id(id), 0);
        }
        let ghost p0 = self.projects@[i as int];
        if same_text(dragged, target) || names_main(&self.projects[i], dragged) {
            return false;
        }
        let sorted = sorted_worktrees(&self.projects[i].worktrees, &self.projects[i].worktree_order);
        let ghost ws = sorted@;
        let mut names: Vec<String> = Vec::new();
        let mut j: usize = 0;
        while j < sorted.len()
            invariant
                ws == sorted@,
                j <= ws.len(),
                names@ == names_of(keep(ws.take(j as int), not_main())),
            decreases ws.len() - j,
        {
            proof {
                lemma_keep_step(ws, not_main(), j as int);
                let kk = keep(ws.take(j as int), not_main());
                assert(names_of(kk.push(ws[j as int])) =~= names_of(kk).push(ws[j as int].name));
            }
            if !sorted[j].is_main {
                names.push(sorted[j].name.clone());
            }
            j = j + 1;
        }
        assert(ws.take(ws.len() as int) =~= ws);
        assert(names@ == branch_names(p0));
        let from = match position_of_text(&names, dragged) {
            Some(f) => f,
            None => return false,
        };
        proof {
            lemma_first_from(names@, named(dragged@), 0);
        }
        names.remove(from);
        let ghost rest = names@;
        let to = if names_main(&self.projects[i], target) {
            0
        } else {
            match position_of_text(&names, target) {
                Some(t) => {
                    proof {
                        lemma_first_from(names@, named(target@), 0);
                    }
                    let n = names.len();
                    assert(t < n);
                    if t >= from {
                        t + 1
                    } else {
                        t
                    }
                },
                None => names.len(),
            }
        };
        names.insert(to, String::from_str(dragged));
        proof {
            assert(text_views(names@) =~= text_views(rest).insert(to as int, dragged@));
        }
        let mut p = self.projects.remove(i);
        p.worktree_order = names;
        self.projects.insert(i, p);
        proof {
            assert(self.projects@ =~= old(self).projects@.update(i as int, p));
            lemma_projects_update_sound(old(self).projects@, i as int, p);
        }
        true
    }
}

/// Is `tab` a tab of `project` open on worktree `path`.
fn tab_is_on(tab: &Tab, project: ProjectId, path: &str) -> (r: bool)
    ensures
        r == (of_project_on(project, path@))(*tab),
{
    tab.project == Some(project) && match &tab.worktree {
        Some(w) => same_text(w.as_str(), path),
        None => false,
    }
}

/// The flagged tabs of a sound list keep its properties.
proof fn lemma_kept_flags(tabs: Seq<Tab>, flags: Seq<bool>)
    requires
        flags.len() == tabs.len(),
        distinct_by(tabs, tab_key()),
        forall|i: int| 0 <= i < tabs.len() ==> (#[trigger] tabs[i]).wf(),
    ensures
        distinct_by(kept_by(tabs, flags), tab_key()),
        forall|i: int| 0 <= i < kept_by(tabs, flags).len() ==> (#[trigger] kept_by(tabs, flags)[i]).wf(),
{
    let kept = kept_by(tabs, flags);
    assert forall|i: int| 0 <= i < kept.len() implies (#[trigger] kept[i]).wf() by {
        lemma_kept_by_member(tabs, flags, i);
    }
    lemma_kept_by_distinct(tabs, flags);
}

/// Every flagged element comes from the list.
proof fn lemma_kept_by_member<T>(s: Seq<T>, flags: Seq<bool>, i: int)
    requires
        0 <= i < kept_by(s, flags).len(),
    ensures
        s.contains(kept_by(s, flags)[i]),
    decreases s.len(),
{
    let r = kept_by(s.drop_last(), flags.drop_last());
    if flags.last() && i == r.len() {
        assert(s[s.len() - 1] == kept_by(s, flags)[i]);
    } else {
        lemma_kept_by_member(s.drop_last(), flags.drop_last(), i);
        let k = choose|k: int| 0 <= k < s.drop_last().len() && s.drop_last()[k] == r[i];
        assert(s[k] == r[i]);
    }
}

/// Flagged tabs of a list with distinct identities have distinct identities.
proof fn lemma_kept_by_distinct(tabs: Seq<Tab>, flags: Seq<bool>)
    requires
        flags.len() == tabs.len(),
        distinct_by(tabs, tab_key()),
    ensures
        distinct_by(kept_by(tabs, flags), tab_key()),
    decreases tabs.len(),
{
    if tabs.len() > 0 {
        let d = tabs.drop_last();
        assert(distinct_by(d, tab_key())) by {
            assert forall|i: int, j: int| 0 <= i < d.len() && 0 <= j < d.len() && i != j implies d[i].id != d[j].id by {
                assert(d[i] == tabs[i] && d[j] == tabs[j]);
            }
        }
        lemma_kept_by_distinct(d, flags.drop_last());
        let r = kept_by(d, flags.drop_last());
        if flags.last() {
            let q = r.push(tabs.last());
            assert forall|i: int, j: int| 0 <= i < q.len() && 0 <= j < q.len() && i != j implies q[i].id != q[j].id by {
                if i < r.len() && j < r.len() {
                } else if i < r.len() {
                    lemma_kept_by_member(d, flags.drop_last(), i);
                    let k = choose|k: int| 0 <= k < d.len() && d[k] == r[i];
                    assert(tabs[k] == r[i]);
                } else if j < r.len() {
                    lemma_kept_by_member(d, flags.drop_last(), j);
                    let k = choose|k: int| 0 <= k < d.len() && d[k] == r[j];
                    assert(tabs[k] == r[j]);
                }
            }
        }
    }
}

/// The restored index points at a tab, or is 0 when there is none.
proof fn restored_in_range(tabs: Seq<Tab>, active: Option<TabId>)
    ensures
        restored_index(tabs, active) < tabs.len() || (tabs.len() == 0 && restored_index(tabs, active) == 0),
{
    if let Some(id) = active {
        lemma_first_from(tabs, tab_with_id(id), 0);
    }
}

/// The first tab with a key is the one at a position carrying it, keys
/// being distinct.
proof fn lemma_first_is_key(tabs: Seq<Tab>, i: int)
    requires
        distinct_by(tabs, tab_key()),
        0 <= i < tabs.len(),
    ensures
        first(tabs, tab_with_id(tabs[i].id)) == Some(i),
{
    assert forall|j: int| 0 <= j < i implies !(tab_with_id(tabs[i].id))(tabs[j]) by {
        assert(tabs[j].id != tabs[i].id);
    }
    crate::seqs::lemma_first_is(tabs, tab_with_id(tabs[i].id), i);
}

/// A sound list of tabs stays sound without one of them.
proof fn lemma_remove_sound(tabs: Seq<Tab>, i: int)
    requires
        0 <= i < tabs.len(),
        distinct_by(tabs, tab_key()),
        forall|k: int| 0 <= k < tabs.len() ==> (#[trigger] tabs[k]).wf(),
    ensures
        distinct_by(tabs.remove(i), tab_key()),
        forall|k: int| 0 <= k < tabs.remove(i).len() ==> (#[trigger] tabs.remove(i)[k]).wf(),
{
    let r = tabs.remove(i);
    assert forall|x: int, y: int| 0 <= x < r.len() && 0 <= y < r.len() && x != y implies r[x].id != r[y].id by {
        let ox = if x < i { x } else { x + 1 };
        let oy = if y < i { y } else { y + 1 };
        assert(r[x] == tabs[ox]);
        assert(r[y] == tabs[oy]);
    }
    assert forall|k: int| 0 <= k < r.len() implies (#[trigger] r[k]).wf() by {
        let ok = if k < i { k } else { k + 1 };
        assert(r[k] == tabs[ok]);
    }
}

/// A sound list of tabs stays sound with a sound tab in place of one of
/// the same identity.
pub(crate) proof fn lemma_update_sound(tabs: Seq<Tab>, i: int, t: Tab)
    requires
        0 <= i < tabs.len(),
        distinct_by(tabs, tab_key()),
        forall|k: int| 0 <= k < tabs.len() ==> (#[trigger] tabs[k]).wf(),
        t.id == tabs[i].id,
        t.wf(),
    ensures
        distinct_by(tabs.update(i, t), tab_key()),
        forall|k: int| 0 <= k < tabs.update(i, t).len() ==> (#[trigger] tabs.update(i, t)[k]).wf(),
{
    let r = tabs.update(i, t);
    assert forall|x: int, y: int| 0 <= x < r.len() && 0 <= y < r.len() && x != y implies r[x].id != r[y].id by {
        assert(r[x].id == tabs[x].id);
        assert(r[y].id == tabs[y].id);
    }
}

/// A sound list of tabs stays sound with a sound tab of a new identity at
/// its end.
pub(crate) proof fn lemma_push_sound(tabs: Seq<Tab>, t: Tab)
    requires
        distinct_by(tabs, tab_key()),
        forall|k: int| 0 <= k < tabs.len() ==> (#[trigger] tabs[k]).wf(),
        forall|k: int| 0 <= k < tabs.len() ==> tabs[k].id != t.id,
        t.wf(),
    ensures
        distinct_by(tabs.push(t), tab_key()),
        forall|k: int| 0 <= k < tabs.push(t).len() ==> (#[trigger] tabs.push(t)[k]).wf(),
{
    let r = tabs.push(t);
    assert forall|k: int| 0 <= k < r.len() implies (#[trigger] r[k]).wf() by {
        if k < tabs.len() {
            assert(r[k] == tabs[k]);
        }
    }
}

/// A project whose root is `root`.
pub open spec fn with_root(root: Seq<char>) -> spec_fn(Project) -> bool {
    |p: Project| p.root@ == root
}

/// A worktree named in the archived list `archived`.
pub open spec fn archived_in(archived: Seq<String>) -> spec_fn(Worktree) -> bool {
    |w: Worktree| lists(archived, w.name@)
}

/// The project's worktrees that are archived.
pub open spec fn hidden_worktrees(p: Project) -> Seq<Worktree> {
    keep(p.worktrees@, archived_in(p.archived@))
}

/// A tab not open on any of the worktrees `ws`.
pub open spec fn not_on_any(ws: Seq<Worktree>) -> spec_fn(Tab) -> bool {
    |t: Tab| !(t.worktree matches Some(w) && exists|k: int| 0 <= k < ws.len() && ws[k].path@ == w@)
}

/// A tab not filed under project `id`.
pub open spec fn not_in_project(id: ProjectId) -> spec_fn(Tab) -> bool {
    |t: Tab| t.project != Some(id)
}

/// `w` is the stand-in for a worktree known only by its path.
pub open spec fn is_placeholder(w: Worktree, path: String, is_main: bool) -> bool {
    &&& w.name@ == dir_name_of(path@)
    &&& w.path == path
    &&& w.is_main == is_main
    &&& w.branch is None
    &&& w.diff is None
    &&& w.last_commit is None
}

/// Projects with distinct identities keep them with one replaced by a
/// project of the same identity.
pub(crate) proof fn lemma_projects_update_sound(ps: Seq<Project>, i: int, p: Project)
    requires
        0 <= i < ps.len(),
        distinct_by(ps, project_key()),
        p.id == ps[i].id,
    ensures
        distinct_by(ps.update(i, p), project_key()),
{
    let r = ps.update(i, p);
    assert forall|a: int, b: int| 0 <= a < r.len() && 0 <= b < r.len() && a != b implies r[a].id != r[b].id by {
        assert(r[a].id == ps[a].id);
        assert(r[b].id == ps[b].id);
    }
}

/// The sidebar hides an archived row unless the project reveals them.
pub open spec fn row_hidden(p: Project, name: Seq<char>) -> bool {
    lists(p.archived@, name) && !p.show_archived
}

/// A listed worktree whose row is shown.
pub open spec fn listed_visible(p: Project) -> spec_fn(Worktree) -> bool {
    |w: Worktree| !row_hidden(p, w.name@)
}

/// The rows of the worktrees git lists, in sidebar order.
pub open spec fn listed_rows(p: Project) -> Seq<Worktree> {
    keep(spec_sorted_worktrees(p.worktrees@, p.worktree_order@), listed_visible(p))
}

/// Does one of the project's listed worktrees sit at `path`.
pub open spec fn lists_path(p: Project, path: Seq<char>) -> bool {
    exists|k: int| 0 <= k < p.worktrees@.len() && p.worktrees@[k].path@ == path
}

/// A tab of the project open on a worktree that git does not list, whose
/// row is shown.
pub open spec fn opened_row(p: Project) -> spec_fn(Tab) -> bool {
    |t: Tab| t.project == Some(p.id) && (t.worktree matches Some(path) && !lists_path(p, path@)
        && !row_hidden(p, dir_name_of(path@)))
}

/// The first tab of the project open on worktree `w`.
pub open spec fn row_tab(tabs: Seq<Tab>, p: Project, w: Worktree) -> Option<TabId> {
    match first(tabs, of_project_on(p.id, w.path@)) {
        Some(i) => Some(tabs[i].id),
        None => None,
    }
}

/// The row of a listed worktree: the worktree, its tab and whether it is
/// archived.
pub open spec fn listed_entry(e: WorktreeEntry, w: Worktree, tabs: Seq<Tab>, p: Project) -> bool {
    &&& e.worktree == w
    &&& e.archived == lists(p.archived@, w.name@)
    &&& e.tab == row_tab(tabs, p, w)
}

/// The row of a tab open on a worktree git does not list: a stand-in for
/// that worktree, the tab, and whether it is archived.
pub open spec fn opened_entry(e: WorktreeEntry, t: Tab, p: Project) -> bool {
    &&& t.worktree is Some
    &&& is_placeholder(e.worktree, t.worktree.unwrap(), false)
    &&& e.tab == Some(t.id)
    &&& e.archived == lists(p.archived@, dir_name_of(t.worktree.unwrap()@))
}

/// The identities of `s`, in order.
pub open spec fn tab_ids(s: Seq<Tab>) -> Seq<TabId> {
    s.map_values(|t: Tab| t.id)
}

proof fn lemma_tab_ids_push(s: Seq<Tab>, t: Tab)
    ensures
        tab_ids(s.push(t)) == tab_ids(s).push(t.id),
{
    assert(tab_ids(s.push(t)) =~= tab_ids(s).push(t.id));
}

/// The tabs of the rows `rows`, for the rows that have one.
pub open spec fn listed_tabs(tabs: Seq<Tab>, p: Project, rows: Seq<Worktree>) -> Seq<TabId>
    decreases rows.len(),
{
    if rows.len() == 0 {
        Seq::empty()
    } else {
        let r = listed_tabs(tabs, p, rows.drop_last());
        match row_tab(tabs, p, rows.last()) {
            Some(id) => r.push(id),
            None => r,
        }
    }
}

/// A plain tab of project `id`: filed under it, not on a worktree.
pub open spec fn plain_in(id: ProjectId) -> spec_fn(Tab) -> bool {
    |t: Tab| t.project == Some(id) && t.worktree is None
}

/// A tab filed under no project.
pub open spec fn loose_tab() -> spec_fn(Tab) -> bool {
    |t: Tab| t.project is None
}

/// A project's tabs in sidebar order.
pub open spec fn project_order(tabs: Seq<Tab>, p: Project) -> Seq<TabId> {
    listed_tabs(tabs, p, listed_rows(p)) + tab_ids(keep(tabs, opened_row(p))) + tab_ids(
        keep(tabs, plain_in(p.id)),
    )
}

/// The tabs of the first `k` projects in sidebar order.
pub open spec fn projects_order(tabs: Seq<Tab>, ps: Seq<Project>, k: int) -> Seq<TabId>
    decreases k,
{
    if k <= 0 {
        Seq::empty()
    } else {
        projects_order(tabs, ps, k - 1) + project_order(tabs, ps[k - 1])
    }
}

/// Tab identities in sidebar order.
pub open spec fn spec_display_order(s: AppState) -> Seq<TabId> {
    projects_order(s.tabs@, s.projects@, s.projects@.len() as int) + tab_ids(
        keep(s.tabs@, loose_tab()),
    )
}

/// The identity `id`.
pub open spec fn is_tab(id: TabId) -> spec_fn(TabId) -> bool {
    |x: TabId| x == id
}

/// Cycling may stop at tab `id`: it exists, and its project, if it has
/// one that is open, is not collapsed.
pub open spec fn cyclable(s: AppState, id: TabId) -> bool {
    match first(s.tabs@, tab_with_id(id)) {
        None => false,
        Some(i) => match s.tabs@[i].project {
            None => true,
            Some(pid) => match first(s.projects@, project_with_id(pid)) {
                Some(j) => !s.projects@[j].collapsed,
                None => true,
            },
        },
    }
}

/// Where the shown tab sits in `order`, 0 when it is not there.
pub open spec fn current_position(s: AppState, order: Seq<TabId>) -> int {
    match s.active_id() {
        Some(id) => match first(order, is_tab(id)) {
            Some(i) => i,
            None => 0,
        },
        None => 0,
    }
}

/// The position `step` places from `current` in a ring of `len`.
pub open spec fn step_index(current: int, len: int, step: int, forward: bool) -> int {
    if forward {
        (current + step) % len
    } else {
        (current + len - step) % len
    }
}

/// The first step from `step` up to a full turn that lands on a cyclable
/// tab.
pub open spec fn first_cyclable_step(
    s: AppState,
    order: Seq<TabId>,
    current: int,
    forward: bool,
    step: int,
) -> Option<int>
    decreases order.len() + 1 - step,
{
    if step < 1 || step > order.len() {
        None
    } else if cyclable(s, order[step_index(current, order.len() as int, step, forward)]) {
        Some(step)
    } else {
        first_cyclable_step(s, order, current, forward, step + 1)
    }
}

/// The tab that cycling forward (or backward) from the shown tab reaches.
pub open spec fn step_target(s: AppState, forward: bool) -> Option<TabId> {
    let order = spec_display_order(s);
    if order.len() == 0 {
        None
    } else {
        let current = current_position(s, order);
        match first_cyclable_step(s, order, current, forward, 1) {
            Some(st) => Some(order[step_index(current, order.len() as int, st, forward)]),
            None => None,
        }
    }
}

/// The shown index once cycling forward (or backward) has moved: the
/// target's position, or where it was when there is none.
pub open spec fn stepped(s: AppState, forward: bool) -> usize {
    match step_target(s, forward) {
        Some(id) => match first(s.tabs@, tab_with_id(id)) {
            Some(i) => i as usize,
            None => s.active_tab,
        },
        None => s.active_tab,
    }
}

proof fn lemma_step_index(current: int, len: int, step: int, forward: bool, index: int)
    requires
        0 <= current < len,
        1 <= step <= len,
        forward ==> index == if step < len - current { current + step } else { step - (len - current) },
        !forward ==> index == if step <= current { current - step } else if step - current == len { 0 } else { len - (step - current) },
    ensures
        index == step_index(current, len, step, forward),
        0 <= index < len,
{
    if forward {
        if step < len - current {
            assert((current + step) % len == current + step) by (nonlinear_arith)
                requires 0 <= current + step < len;
        } else {
            assert((current + step) % len == current + step - len) by (nonlinear_arith)
                requires len <= current + step < 2 * len;
        }
    } else {
        if step <= current {
            assert((current + len - step) % len == current - step) by (nonlinear_arith)
                requires len <= current + len - step < 2 * len;
        } else if step - current == len {
            assert((current + len - step) % len == 0) by (nonlinear_arith)
                requires current + len - step == 0, len > 0;
        } else {
            assert((current + len - step) % len == current + len - step) by (nonlinear_arith)
                requires 0 <= current + len - step < len;
        }
    }
}

/// The split of panel `current` along `axis` with the new panel `panel`
/// right of it or below it.
pub open spec fn split_node(axis: Axis, current: PanelId, panel: PanelId) -> PanelNode {
    match axis {
        Axis::Horizontal => PanelNode::Horizontal(
            Box::new(PanelNode::Leaf(current)),
            Box::new(PanelNode::Leaf(panel)),
        ),
        Axis::Vertical => PanelNode::Vertical(
            Box::new(PanelNode::Leaf(current)),
            Box::new(PanelNode::Leaf(panel)),
        ),
    }
}

/// Splitting a panel of a sound tree with a new panel gives a sound tree
/// that holds the new panel.
/// The entry of panel `id` in a list of reported titles.
pub open spec fn titled(id: PanelId) -> spec_fn((PanelId, String)) -> bool {
    |e: (PanelId, String)| e.0 == id
}

/// A tab's title once `panel` became active: the title its terminal
/// reports in `titles`, when that is not empty, else `title`.
pub open spec fn title_after(titles: Seq<(PanelId, String)>, panel: PanelId, title: String) -> String {
    match first(titles, titled(panel)) {
        Some(i) => if titles[i].1@.len() > 0 {
            titles[i].1
        } else {
            title
        },
        None => title,
    }
}

fn title_for(titles: &Vec<(PanelId, String)>, panel: PanelId, title: &String) -> (r: String)
    ensures
        r == title_after(titles@, panel, *title),
{
    let mut i: usize = 0;
    while i < titles.len() && titles[i].0 != panel
        invariant
            i <= titles@.len(),
            first_from(titles@, titled(panel), 0) == first_from(titles@, titled(panel), i as int),
        decreases titles@.len() - i,
    {
        i = i + 1;
    }
    proof {
        lemma_first_from(titles@, titled(panel), i as int);
    }
    if i < titles.len() && titles[i].1.as_str().unicode_len() > 0 {
        titles[i].1.clone()
    } else {
        title.clone()
    }
}

/// The two-by-two grid that panel `current` becomes: `current` and
/// `right` on top, `below` and `corner` under them.
pub open spec fn grid_node(current: PanelId, right: PanelId, below: PanelId, corner: PanelId) -> PanelNode {
    PanelNode::Vertical(
        Box::new(
            PanelNode::Horizontal(Box::new(PanelNode::Leaf(current)), Box::new(PanelNode::Leaf(right))),
        ),
        Box::new(
            PanelNode::Horizontal(Box::new(PanelNode::Leaf(below)), Box::new(PanelNode::Leaf(corner))),
        ),
    )
}

/// Replacing a panel by a sound tree that holds it and otherwise only
/// panels new to the tree gives a sound tree, the new leaves in its place.
proof fn lemma_replace_fresh(t: PanelNode, current: PanelId, node: PanelNode)
    requires
        t.wf(),
        t.has(current),
        node.wf(),
        forall|x: PanelId| #[trigger] node.has(x) && x != current ==> !t.has(x),
    ensures
        t.replaced(current, node).wf(),
        exists|i: int|
            0 <= i < t.spec_leaves().len() && t.spec_leaves()[i] == current
                && t.replaced(current, node).spec_leaves() == t.spec_leaves().take(i)
                + node.spec_leaves() + t.spec_leaves().skip(i + 1),
{
    let l = t.spec_leaves();
    let nl = node.spec_leaves();
    let m = nl.len() as int;
    crate::panels::law_has_iff_leaf(t, current);
    let i = choose|i: int| 0 <= i < l.len() && l[i] == current;
    crate::panels::law_replace_leaves(t, current, node, i);
    let rl = t.replaced(current, node).spec_leaves();
    assert(rl.len() == l.len() + m - 1);
    assert forall|x: int| 0 <= x < rl.len() implies (x < i ==> rl[x] == l[x]) && (i <= x < i + m
        ==> rl[x] == nl[x - i]) && (x >= i + m ==> rl[x] == l[x - m + 1]) by {}
    assert forall|x: int, y: int| 0 <= x < rl.len() && 0 <= y < rl.len() && x != y implies rl[x]
        != rl[y] by {
        let in_x = i <= x < i + m;
        let in_y = i <= y < i + m;
        if in_x && !in_y {
            let k = if y < i { y } else { y - m + 1 };
            assert(rl[y] == l[k] && k != i);
            if rl[x] == rl[y] {
                crate::panels::law_has_iff_leaf(node, nl[x - i]);
                assert(nl.contains(nl[x - i]));
                crate::panels::law_has_iff_leaf(t, l[k]);
                assert(l.contains(l[k]));
            }
        } else if in_y && !in_x {
            let k = if x < i { x } else { x - m + 1 };
            assert(rl[x] == l[k] && k != i);
            if rl[x] == rl[y] {
                crate::panels::law_has_iff_leaf(node, nl[y - i]);
                assert(nl.contains(nl[y - i]));
                crate::panels::law_has_iff_leaf(t, l[k]);
                assert(l.contains(l[k]));
            }
        }
    }
}

proof fn lemma_grid_sound(t: PanelNode, current: PanelId, right: PanelId, below: PanelId, corner: PanelId)
    requires
        t.wf(),
        t.has(current),
        !t.has(right),
        !t.has(below),
        !t.has(corner),
        right != below,
        right != corner,
        below != corner,
    ensures
        t.replaced(current, grid_node(current, right, below, corner)).wf(),
        t.replaced(current, grid_node(current, right, below, corner)).has(current),
        exists|i: int|
            0 <= i < t.spec_leaves().len() && t.spec_leaves()[i] == current
                && t.replaced(current, grid_node(current, right, below, corner)).spec_leaves()
                == t.spec_leaves().take(i) + seq![current, right, below, corner] + t.spec_leaves().skip(
                i + 1,
            ),
{
    let node = grid_node(current, right, below, corner);
    let top = PanelNode::Horizontal(Box::new(PanelNode::Leaf(current)), Box::new(PanelNode::Leaf(right)));
    let bottom = PanelNode::Horizontal(Box::new(PanelNode::Leaf(below)), Box::new(PanelNode::Leaf(corner)));
    assert(PanelNode::Leaf(current).spec_leaves() == seq![current]);
    assert(PanelNode::Leaf(right).spec_leaves() == seq![right]);
    assert(PanelNode::Leaf(below).spec_leaves() == seq![below]);
    assert(PanelNode::Leaf(corner).spec_leaves() == seq![corner]);
    assert(top.spec_leaves() =~= seq![current, right]);
    assert(bottom.spec_leaves() =~= seq![below, corner]);
    let nl = node.spec_leaves();
    assert(nl =~= seq![current, right, below, corner]);
    assert(current != right && current != below && current != corner);
    assert(node.wf());
    assert forall|x: PanelId| #[trigger] node.has(x) && x != current implies !t.has(x) by {
        crate::panels::law_has_iff_leaf(node, x);
    }
    lemma_replace_fresh(t, current, node);
    let r = t.replaced(current, node);
    let l = t.spec_leaves();
    let i = choose|i: int|
        0 <= i < l.len() && l[i] == current && r.spec_leaves() == l.take(i) + nl + l.skip(i + 1);
    assert(r.spec_leaves()[i] == current);
    crate::panels::law_has_iff_leaf(r, current);
}

proof fn lemma_split_sound(t: PanelNode, current: PanelId, panel: PanelId, axis: Axis)
    requires
        t.wf(),
        t.has(current),
        !t.has(panel),
    ensures
        t.replaced(current, split_node(axis, current, panel)).wf(),
        t.replaced(current, split_node(axis, current, panel)).has(panel),
{
    let l = t.spec_leaves();
    crate::panels::law_has_iff_leaf(t, current);
    crate::panels::law_has_iff_leaf(t, panel);
    let i = choose|i: int| 0 <= i < l.len() && l[i] == current;
    let node = split_node(axis, current, panel);
    assert(PanelNode::Leaf(current).spec_leaves() == seq![current]);
    assert(PanelNode::Leaf(panel).spec_leaves() == seq![panel]);
    assert(node.spec_leaves() == seq![current] + seq![panel]);
    assert(node.spec_leaves() =~= seq![current, panel]);
    crate::panels::law_replace_leaves(t, current, node, i);
    let r = t.replaced(current, node);
    let rl = r.spec_leaves();
    assert(rl == l.take(i) + seq![current, panel] + l.skip(i + 1));
    assert forall|x: int, y: int| 0 <= x < rl.len() && 0 <= y < rl.len() && x != y implies rl[x] != rl[y] by {
        let ox = if x < i { x } else if x == i { i } else if x == i + 1 { -1 } else { x - 1 };
        let oy = if y < i { y } else if y == i { i } else if y == i + 1 { -1 } else { y - 1 };
        if ox >= 0 {
            assert(rl[x] == l[ox]);
        } else {
            assert(rl[x] == panel);
        }
        if oy >= 0 {
            assert(rl[y] == l[oy]);
        } else {
            assert(rl[y] == panel);
        }
        if ox >= 0 && oy < 0 {
            assert(l.contains(l[ox]));
        }
        if oy >= 0 && ox < 0 {
            assert(l.contains(l[oy]));
        }
    }
    assert(rl[i + 1] == panel);
    crate::panels::law_has_iff_leaf(r, panel);
}

/// Closing the active panel of a sound tree, when it is not the only one,
/// gives a sound tree with at least one panel.
proof fn lemma_close_sound(t: PanelNode, target: PanelId)
    requires
        t.wf(),
        t.has(target),
        t.removed(target) is Some,
    ensures
        t.removed(target).unwrap().wf(),
        t.removed(target).unwrap().spec_leaves().len() > 0,
        t.removed(target).unwrap().has(t.removed(target).unwrap().spec_leaves().last()),
{
    let l = t.spec_leaves();
    crate::panels::law_has_iff_leaf(t, target);
    let i = choose|i: int| 0 <= i < l.len() && l[i] == target;
    assert(t != PanelNode::Leaf(target));
    crate::panels::law_remove_leaves(t, target, i);
    let r = t.removed(target).unwrap();
    lemma_leaves_nonempty(r);
    let last = r.spec_leaves().last();
    assert(r.spec_leaves()[r.spec_leaves().len() - 1] == last);
    crate::panels::law_has_iff_leaf(r, last);
}

proof fn lemma_leaves_nonempty(t: PanelNode)
    ensures
        t.spec_leaves().len() > 0,
    decreases t,
{
    match t {
        PanelNode::Leaf(_) => {},
        PanelNode::Horizontal(a, b) => {
            lemma_leaves_nonempty(*a);
        },
        PanelNode::Vertical(a, b) => {
            lemma_leaves_nonempty(*a);
        },
    }
}

/// Putting back a sound tab taken out of a sound list keeps it sound.
proof fn lemma_insert_sound(tabs: Seq<Tab>, f: int, t: int, tab: Tab)
    requires
        0 <= f < tabs.len(),
        0 <= t <= tabs.len() - 1,
        distinct_by(tabs, tab_key()),
        forall|k: int| 0 <= k < tabs.len() ==> (#[trigger] tabs[k]).wf(),
        tab.id == tabs[f].id,
        tab.wf(),
    ensures
        distinct_by(tabs.remove(f).insert(t, tab), tab_key()),
        forall|k: int|
            0 <= k < tabs.remove(f).insert(t, tab).len() ==> (#[trigger] tabs.remove(f).insert(
                t,
                tab,
            )[k]).wf(),
{
    let r = tabs.remove(f);
    let q = r.insert(t, tab);
    assert forall|k: int| 0 <= k < r.len() implies r[k].id != tab.id && (#[trigger] r[k]).wf() by {
        let ok = if k < f { k } else { k + 1 };
        assert(r[k] == tabs[ok]);
    }
    assert forall|x: int, y: int| 0 <= x < q.len() && 0 <= y < q.len() && x != y implies q[x].id != q[y].id by {
        let ox = if x < t { x } else if x == t { -1 } else { x - 1 };
        let oy = if y < t { y } else if y == t { -1 } else { y - 1 };
        if ox >= 0 {
            assert(q[x] == r[ox]);
            let o = if ox < f { ox } else { ox + 1 };
            assert(r[ox] == tabs[o]);
        }
        if oy >= 0 {
            assert(q[y] == r[oy]);
            let o = if oy < f { oy } else { oy + 1 };
            assert(r[oy] == tabs[o]);
        }
    }
    assert forall|k: int| 0 <= k < q.len() implies (#[trigger] q[k]).wf() by {
        if k < t {
            assert(q[k] == r[k]);
        } else if k > t {
            assert(q[k] == r[k - 1]);
        }
    }
}

/// Moving a tab within the list keeps the same identities.
proof fn lemma_same_ids_after_move(tabs: Seq<Tab>, f: int, t: int, tab: Tab)
    requires
        0 <= f < tabs.len(),
        0 <= t <= tabs.len() - 1,
        tab.id == tabs[f].id,
    ensures
        forall|id: TabId|
            #![trigger first(tabs.remove(f).insert(t, tab), tab_with_id(id))]
            (first(tabs.remove(f).insert(t, tab), tab_with_id(id)) is Some) == (first(
                tabs,
                tab_with_id(id),
            ) is Some),
{
    let q = tabs.remove(f).insert(t, tab);
    let r = tabs.remove(f);
    assert forall|id: TabId|
        #![trigger first(q, tab_with_id(id))]
        (first(q, tab_with_id(id)) is Some) == (first(tabs, tab_with_id(id)) is Some) by {
        lemma_first_from(q, tab_with_id(id), 0);
        lemma_first_from(tabs, tab_with_id(id), 0);
        if let Some(k) = first(tabs, tab_with_id(id)) {
            if k == f {
                assert(q[t].id == id);
            } else {
                let rk = if k < f { k } else { k - 1 };
                assert(r[rk] == tabs[k]);
                let qk = if rk < t { rk } else { rk + 1 };
                assert(q[qk] == r[rk]);
            }
        }
        if let Some(k) = first(q, tab_with_id(id)) {
            if k == t {
                assert(tabs[f].id == id);
            } else {
                let rk = if k < t { k } else { k - 1 };
                assert(q[k] == r[rk]);
                let ok = if rk < f { rk } else { rk + 1 };
                assert(r[rk] == tabs[ok]);
            }
        }
    }
}

/// How active a worktree is: 0 open with changes, 1 open, 2 with
/// changes, 3 neither.
pub open spec fn activity_rank(tabs: Seq<Tab>, p: Project, w: Worktree) -> int {
    let open = first(tabs, of_project_on(p.id, w.path@)) is Some;
    let dirty = w.diff matches Some(d) && !(d.added == 0 && d.removed == 0);
    if open && dirty {
        0
    } else if open {
        1
    } else if dirty {
        2
    } else {
        3
    }
}

/// A worktree other than the main one of activity rank `r`.
pub open spec fn ranked(tabs: Seq<Tab>, p: Project, r: int) -> spec_fn(Worktree) -> bool {
    |w: Worktree| !w.is_main && activity_rank(tabs, p, w) == r
}

/// The worktrees of `ws` of ranks below `r`, by rank.
pub open spec fn ranked_upto(tabs: Seq<Tab>, p: Project, ws: Seq<Worktree>, r: int) -> Seq<Worktree>
    decreases r,
{
    if r <= 0 {
        Seq::empty()
    } else {
        ranked_upto(tabs, p, ws, r - 1) + keep(ws, ranked(tabs, p, r - 1))
    }
}

/// A project's worktrees other than the main one, most active first, each
/// rank in sidebar order.
pub open spec fn by_activity(tabs: Seq<Tab>, p: Project) -> Seq<Worktree> {
    ranked_upto(tabs, p, spec_sorted_worktrees(p.worktrees@, p.worktree_order@), 4)
}

/// The names of worktrees, in order.
pub open spec fn names_of(ws: Seq<Worktree>) -> Seq<String> {
    ws.map_values(|w: Worktree| w.name)
}

/// The texts of strings, in order.
pub open spec fn text_views(s: Seq<String>) -> Seq<Seq<char>> {
    s.map_values(|x: String| x@)
}

/// A worktree other than the main one.
pub open spec fn not_main() -> spec_fn(Worktree) -> bool {
    |w: Worktree| !w.is_main
}

/// Names of a project's worktrees other than the main one, in sidebar order.
pub open spec fn branch_names(p: Project) -> Seq<String> {
    names_of(keep(spec_sorted_worktrees(p.worktrees@, p.worktree_order@), not_main()))
}

/// The project's main worktree is called `name`.
pub open spec fn main_named(p: Project, name: Seq<char>) -> bool {
    exists|k: int| 0 <= k < p.worktrees@.len() && p.worktrees@[k].name@ == name && p.worktrees@[k].is_main
}

/// The custom order after dragging worktree `dragged` onto worktree
/// `target`, `None` when nothing moves.
pub open spec fn reordered(p: Project, dragged: Seq<char>, target: Seq<char>) -> Option<Seq<Seq<char>>> {
    if dragged == target || main_named(p, dragged) {
        None
    } else {
        match first(branch_names(p), named(dragged)) {
            None => None,
            Some(from) => {
                let rest = branch_names(p).remove(from);
                let to = if main_named(p, target) {
                    0
                } else {
                    match first(rest, named(target)) {
                        Some(i) => if i >= from { i + 1 } else { i },
                        None => rest.len() as int,
                    }
                };
                Some(text_views(rest).insert(to, dragged))
            },
        }
    }
}

/// Whether the project's main worktree is called `name`.
fn names_main(p: &Project, name: &str) -> (r: bool)
    ensures
        r == main_named(*p, name@),
{
    let mut found = false;
    let mut k: usize = 0;
    while k < p.worktrees.len()
        invariant
            k <= p.worktrees@.len(),
            found == exists|q: int| 0 <= q < k && p.worktrees@[q].name@ == name@ && p.worktrees@[q].is_main,
        decreases p.worktrees@.len() - k,
    {
        if p.worktrees[k].is_main && same_text(p.worktrees[k].name.as_str(), name) {
            found = true;
        }
        k = k + 1;
    }
    found
}

/// Where `name` first occurs in `names`.
fn position_of_text(names: &Vec<String>, name: &str) -> (r: Option<usize>)
    ensures
        match r {
            Some(i) => first(names@, named(name@)) == Some(i as int),
            None => first(names@, named(name@)) is None,
        },
{
    let mut i: usize = 0;
    while i < names.len() && !same_text(names[i].as_str(), name)
        invariant
            i <= names@.len(),
            first_from(names@, named(name@), 0) == first_from(names@, named(name@), i as int),
        decreases names@.len() - i,
    {
        i = i + 1;
    }
    if i < names.len() {
        Some(i)
    } else {
        None
    }
}

/// A tree that holds `target` holds, once it is replaced, every panel of
/// the replacement.
proof fn lemma_replaced_has(t: PanelNode, target: PanelId, node: PanelNode, x: PanelId)
    requires
        t.has(target),
        node.has(x),
    ensures
        t.replaced(target, node).has(x),
    decreases t,
{
    match t {
        PanelNode::Leaf(_) => {},
        PanelNode::Horizontal(a, b) => {
            if a.has(target) {
                lemma_replaced_has(*a, target, node, x);
            } else {
                lemma_replaced_has(*b, target, node, x);
            }
        },
        PanelNode::Vertical(a, b) => {
            if a.has(target) {
                lemma_replaced_has(*a, target, node, x);
            } else {
                lemma_replaced_has(*b, target, node, x);
            }
        },
    }
}

/// Splitting a panel and then closing the new panel gives back the panel
/// tree as it was.
pub proof fn law_split_then_close(t: PanelNode, current: PanelId, panel: PanelId, axis: Axis)
    requires
        t.wf(),
        t.has(current),
        !t.has(panel),
    ensures
        t.replaced(current, split_node(axis, current, panel)).removed(panel) == Some(t),
    decreases crate::panels::node_count(t),
{
    let node = split_node(axis, current, panel);
    match t {
        PanelNode::Leaf(id) => {
            assert(id == current);
            assert(!PanelNode::Leaf(current).has(panel));
        },
        PanelNode::Horizontal(a, b) => {
            crate::panels::law_has_iff_leaf(*a, current);
            lemma_split_children(*a, *b, current, panel, axis);
        },
        PanelNode::Vertical(a, b) => {
            crate::panels::law_has_iff_leaf(*a, current);
            lemma_split_children(*a, *b, current, panel, axis);
        },
    }
}

proof fn lemma_split_children(a: PanelNode, b: PanelNode, current: PanelId, panel: PanelId, axis: Axis)
    requires
        (a.spec_leaves() + b.spec_leaves()).no_duplicates(),
        a.has(current) || b.has(current),
        !a.has(panel),
        !b.has(panel),
    ensures
        a.has(current) ==> {
            let na = a.replaced(current, split_node(axis, current, panel));
            &&& na.has(panel)
            &&& na != PanelNode::Leaf(panel)
            &&& na.removed(panel) == Some(a)
            &&& b.replaced(current, split_node(axis, current, panel)) == b
        },
        !a.has(current) ==> {
            let nb = b.replaced(current, split_node(axis, current, panel));
            &&& nb.has(panel)
            &&& nb != PanelNode::Leaf(panel)
            &&& nb.removed(panel) == Some(b)
            &&& a.replaced(current, split_node(axis, current, panel)) == a
        },
    decreases crate::panels::node_count(a) + crate::panels::node_count(b),
{
    crate::panels::lemma_node_count_positive(a);
    crate::panels::lemma_node_count_positive(b);
    let node = split_node(axis, current, panel);
    assert(PanelNode::Leaf(panel).has(panel));
    assert(node.has(panel));
    assert(a.wf() && b.wf() && forall|id: PanelId| !(a.has(id) && b.has(id))) by {
        lemma_sides(a, b);
    }
    if a.has(current) {
        crate::panels::law_absent_unchanged(b, current, node);
        lemma_replaced_has(a, current, node, panel);
        lemma_replaced_not_leaf(a, current, node);
        law_split_then_close(a, current, panel, axis);
    } else {
        crate::panels::law_absent_unchanged(a, current, node);
        lemma_replaced_has(b, current, node, panel);
        lemma_replaced_not_leaf(b, current, node);
        law_split_then_close(b, current, panel, axis);
    }
}

proof fn lemma_sides(a: PanelNode, b: PanelNode)
    requires
        (a.spec_leaves() + b.spec_leaves()).no_duplicates(),
    ensures
        a.wf(),
        b.wf(),
        forall|id: PanelId| !(a.has(id) && b.has(id)),
{
    let t = PanelNode::Horizontal(Box::new(a), Box::new(b));
    assert(t.spec_leaves() == a.spec_leaves() + b.spec_leaves());
    assert forall|id: PanelId| !(a.has(id) && b.has(id)) by {
        crate::panels::law_has_iff_leaf(a, id);
        crate::panels::law_has_iff_leaf(b, id);
        let la = a.spec_leaves();
        let lb = b.spec_leaves();
        if a.has(id) && b.has(id) {
            let i = choose|i: int| 0 <= i < la.len() && la[i] == id;
            let j = choose|j: int| 0 <= j < lb.len() && lb[j] == id;
            assert((la + lb)[i] == (la + lb)[la.len() + j]);
        }
    }
    let la = a.spec_leaves();
    let lb = b.spec_leaves();
    assert forall|i: int, j: int| 0 <= i < la.len() && 0 <= j < la.len() && i != j implies la[i] != la[j] by {
        assert((la + lb)[i] == la[i] && (la + lb)[j] == la[j]);
    }
    assert forall|i: int, j: int| 0 <= i < lb.len() && 0 <= j < lb.len() && i != j implies lb[i] != lb[j] by {
        assert((la + lb)[la.len() + i] == lb[i] && (la + lb)[la.len() + j] == lb[j]);
    }
}

proof fn lemma_replaced_not_leaf(t: PanelNode, target: PanelId, node: PanelNode)
    requires
        t.has(target),
        node matches PanelNode::Leaf(_) ==> false,
    ensures
        t.replaced(target, node) matches PanelNode::Leaf(_) ==> false,
{
}

/// Splitting the shown panel of a tab and then closing the new, now active,
/// panel gives back the tab's panel tree.
pub proof fn law_split_then_close_tab(t: Tab, axis: Axis, panel: PanelId)
    requires
        t.wf(),
        !t.panels.has(panel),
    ensures
        ({
            let split = Tab {
                panels: t.panels.replaced(t.active_panel, split_node(axis, t.active_panel, panel)),
                active_panel: panel,
                ..t
            };
            split.panels.removed(split.active_panel) == Some(t.panels)
        }),
{
    law_split_then_close(t.panels, t.active_panel, panel, axis);
}

/// Cycling through tabs only stops at tabs it may stop at.
pub proof fn law_step_target_cyclable(s: AppState, forward: bool)
    ensures
        step_target(s, forward) matches Some(id) ==> cyclable(s, id),
{
    let order = spec_display_order(s);
    if order.len() > 0 {
        lemma_first_cyclable_step(s, order, current_position(s, order), forward, 1);
    }
}

proof fn lemma_first_cyclable_step(s: AppState, order: Seq<TabId>, current: int, forward: bool, step: int)
    requires
        order.len() > 0,
    ensures
        first_cyclable_step(s, order, current, forward, step) matches Some(st) ==> 1 <= st <= order.len()
            && cyclable(s, order[step_index(current, order.len() as int, st, forward)]),
    decreases order.len() + 1 - step,
{
    if 1 <= step <= order.len() && !cyclable(s, order[step_index(current, order.len() as int, step, forward)]) {
        lemma_first_cyclable_step(s, order, current, forward, step + 1);
    }
}

/// Closing the tab just opened gives back the tabs there were.
pub proof fn law_new_then_close_tab(before: Seq<Tab>, opened: Seq<Tab>, active: usize)
    requires
        opened.drop_last() == before,
        opened.len() == before.len() + 1,
        active == before.len(),
    ensures
        opened.remove(active as int) == before,
{
    assert(opened.remove(active as int) =~= before);
}

/// After closing the tabs of a worktree, no tab is open on it.
pub proof fn law_closed_worktree_has_no_tab(tabs: Seq<Tab>, path: Seq<char>)
    ensures
        forall|i: int|
            0 <= i < keep(tabs, not_on(path)).len() ==> !(#[trigger] keep(tabs, not_on(path))[i].worktree matches Some(
                w,
            ) && w@ == path),
{
    assert forall|i: int| 0 <= i < keep(tabs, not_on(path)).len() implies !(#[trigger] keep(
        tabs,
        not_on(path),
    )[i].worktree matches Some(w) && w@ == path) by {
        lemma_keep_element(tabs, not_on(path), i);
    }
}

/// Every tab in the sidebar order is a tab of the window.
proof fn lemma_order_in_tabs(s: AppState, x: int)
    requires
        0 <= x < spec_display_order(s).len(),
    ensures
        exists|i: int| 0 <= i < s.tabs@.len() && s.tabs@[i].id == spec_display_order(s)[x],
{
    let order = spec_display_order(s);
    let n = s.projects@.len() as int;
    let po = projects_order(s.tabs@, s.projects@, n);
    let loose = keep(s.tabs@, loose_tab());
    if x < po.len() {
        lemma_projects_order_in_tabs(s.tabs@, s.projects@, n, x);
        assert(order[x] == po[x]);
    } else {
        let k = x - po.len();
        assert(order[x] == tab_ids(loose)[k]);
        lemma_keep_element(s.tabs@, loose_tab(), k);
        lemma_keep_contains(s.tabs@, loose_tab(), loose[k]);
        assert(loose.contains(loose[k]));
    }
}

proof fn lemma_projects_order_in_tabs(tabs: Seq<Tab>, ps: Seq<Project>, k: int, x: int)
    requires
        0 <= x < projects_order(tabs, ps, k).len(),
    ensures
        exists|i: int| 0 <= i < tabs.len() && tabs[i].id == projects_order(tabs, ps, k)[x],
    decreases k,
{
    if k > 0 {
        let before = projects_order(tabs, ps, k - 1);
        if x < before.len() {
            lemma_projects_order_in_tabs(tabs, ps, k - 1, x);
        } else {
            let p = ps[k - 1];
            let y = x - before.len();
            let lt = listed_tabs(tabs, p, listed_rows(p));
            let ot = keep(tabs, opened_row(p));
            let pt = keep(tabs, plain_in(p.id));
            assert(projects_order(tabs, ps, k)[x] == project_order(tabs, p)[y]);
            if y < lt.len() {
                lemma_listed_tabs_in_tabs(tabs, p, listed_rows(p), y);
            } else if y < lt.len() + ot.len() {
                let z = y - lt.len();
                assert(project_order(tabs, p)[y] == tab_ids(ot)[z]);
                lemma_keep_contains(tabs, opened_row(p), ot[z]);
                assert(ot.contains(ot[z]));
            } else {
                let z = y - lt.len() - ot.len();
                assert(project_order(tabs, p)[y] == tab_ids(pt)[z]);
                lemma_keep_contains(tabs, plain_in(p.id), pt[z]);
                assert(pt.contains(pt[z]));
            }
        }
    }
}

proof fn lemma_listed_tabs_in_tabs(tabs: Seq<Tab>, p: Project, rows: Seq<Worktree>, x: int)
    requires
        0 <= x < listed_tabs(tabs, p, rows).len(),
    ensures
        exists|i: int| 0 <= i < tabs.len() && tabs[i].id == listed_tabs(tabs, p, rows)[x],
    decreases rows.len(),
{
    let before = listed_tabs(tabs, p, rows.drop_last());
    if x < before.len() {
        lemma_listed_tabs_in_tabs(tabs, p, rows.drop_last(), x);
    } else {
        let w = rows.last();
        lemma_first_from(tabs, of_project_on(p.id, w.path@), 0);
        let i = first(tabs, of_project_on(p.id, w.path@)).unwrap();
        assert(tabs[i].id == listed_tabs(tabs, p, rows)[x]);
    }
}

/// What `first_cyclable_step` says about the steps it passes and stops at.
proof fn lemma_first_step(s: AppState, order: Seq<TabId>, current: int, forward: bool, step: int)
    requires
        order.len() > 0,
        1 <= step,
    ensures
        match first_cyclable_step(s, order, current, forward, step) {
            Some(k) => step <= k <= order.len() && cyclable(
                s,
                order[step_index(current, order.len() as int, k, forward)],
            ) && forall|j: int|
                step <= j < k ==> !cyclable(
                    s,
                    #[trigger] order[step_index(current, order.len() as int, j, forward)],
                ),
            None => forall|j: int|
                step <= j <= order.len() ==> !cyclable(
                    s,
                    #[trigger] order[step_index(current, order.len() as int, j, forward)],
                ),
        },
    decreases order.len() + 1 - step,
{
    if step <= order.len() && !cyclable(s, order[step_index(current, order.len() as int, step, forward)]) {
        lemma_first_step(s, order, current, forward, step + 1);
    }
}

/// The first step that lands on a cyclable tab is the one found.
proof fn lemma_first_step_is(s: AppState, order: Seq<TabId>, current: int, forward: bool, step: int, k: int)
    requires
        1 <= step <= k <= order.len(),
        cyclable(s, order[step_index(current, order.len() as int, k, forward)]),
        forall|j: int|
            step <= j < k ==> !cyclable(s, #[trigger] order[step_index(current, order.len() as int, j, forward)]),
    ensures
        first_cyclable_step(s, order, current, forward, step) == Some(k),
    decreases k - step,
{
    if step < k {
        lemma_first_step_is(s, order, current, forward, step + 1, k);
    }
}

/// Stepping `j` back from `k` steps forward lands `k - j` steps forward.
proof fn lemma_step_back(c: int, k: int, j: int, len: int)
    requires
        0 <= c < len,
        1 <= j <= k <= len,
    ensures
        ((c + k) % len + len - j) % len == (c + k - j) % len,
        0 <= (c + k) % len < len,
{
    let y = c + k - j;
    if c + k < len {
        vstd::arithmetic::div_mod::lemma_small_mod((c + k) as nat, len as nat);
        vstd::arithmetic::div_mod::lemma_mod_add_multiples_vanish(y, len);
    } else {
        vstd::arithmetic::div_mod::lemma_mod_add_multiples_vanish(c + k - len, len);
        vstd::arithmetic::div_mod::lemma_small_mod((c + k - len) as nat, len as nat);
    }
}

/// Going back right after going forward returns to the tab that was
/// shown, when that tab is in the sidebar order and may be cycled to, and
/// the order names each tab once.
pub proof fn law_prev_undoes_next(s: AppState)
    requires
        s.wf(),
        s.active_id() matches Some(a) && spec_display_order(s).contains(a) && cyclable(s, a),
        spec_display_order(s).no_duplicates(),
    ensures
        stepped(AppState { active_tab: stepped(s, true), ..s }, false) == s.active_tab,
{
    let order = spec_display_order(s);
    let len = order.len() as int;
    let a = s.tabs@[s.active_tab as int].id;
    let t = AppState { active_tab: stepped(s, true), ..s };
    assert(spec_display_order(t) == order);
    let c = choose|c: int| 0 <= c < len && order[c] == a;
    lemma_first_from(order, is_tab(a), 0);
    assert(first(order, is_tab(a)).unwrap() == c);
    assert(current_position(s, order) == c);
    vstd::arithmetic::div_mod::lemma_mod_add_multiples_vanish(c, len);
    vstd::arithmetic::div_mod::lemma_small_mod(c as nat, len as nat);
    assert(step_index(c, len, len, true) == c);
    lemma_first_step(s, order, c, true, 1);
    assert(first_cyclable_step(s, order, c, true, 1) is Some);
    let k = first_cyclable_step(s, order, c, true, 1).unwrap();
    let nb = step_index(c, len, k, true);
    lemma_step_back(c, k, k, len);
    let b = order[nb];
    assert(step_target(s, true) == Some(b));
    lemma_order_in_tabs(s, nb);
    lemma_first_from(s.tabs@, tab_with_id(b), 0);
    let jb = first(s.tabs@, tab_with_id(b)).unwrap();
    assert(s.tabs@.len() == s.tabs.len());
    assert(t.active_tab == jb);
    assert(t.active_id() == Some(b));
    lemma_first_from(order, is_tab(b), 0);
    assert(first(order, is_tab(b)).unwrap() == nb);
    assert(current_position(t, order) == nb);
    assert forall|j: int| 1 <= j < k implies !cyclable(t, #[trigger] order[step_index(nb, len, j, false)]) by {
        lemma_step_back(c, k, j, len);
        assert(step_index(nb, len, j, false) == step_index(c, len, k - j, true));
        assert(!cyclable(s, order[step_index(c, len, k - j, true)]));
    }
    lemma_step_back(c, k, k, len);
    assert(step_index(nb, len, k, false) == c);
    assert(cyclable(t, order[c]));
    lemma_first_step_is(t, order, nb, false, 1, k);
    assert(step_target(t, false) == Some(a));
    lemma_first_is_key(s.tabs@, s.active_tab as int);
}

/// A worktree other than the main one whose name `order` first lists
/// before position `k`.
pub open spec fn listed_before(order: Seq<String>, k: int) -> spec_fn(Worktree) -> bool {
    |w: Worktree| !w.is_main && (first(order, named(w.name@)) matches Some(j) && j < k)
}

/// Any worktree.
pub open spec fn any_worktree() -> spec_fn(Worktree) -> bool {
    |w: Worktree| true
}

proof fn lemma_listed_upto(ws: Seq<Worktree>, order: Seq<String>, k: int)
    requires
        0 <= k,
    ensures
        listed_upto(ws, order, k).to_multiset() == keep(ws, listed_before(order, k)).to_multiset(),
    decreases k,
{
    broadcast use vstd::seq_lib::lemma_multiset_commutative;

    if k == 0 {
        assert forall|w: Worktree| !#[trigger] (listed_before(order, 0))(w) by {
            lemma_first_from(order, named(w.name@), 0);
        }
        crate::seqs::lemma_keep_none(ws, listed_before(order, 0));
        assert(listed_upto(ws, order, 0) =~= keep(ws, listed_before(order, 0)));
    } else {
        lemma_listed_upto(ws, order, k - 1);
        crate::seqs::lemma_keep_split(
            ws,
            listed_before(order, k - 1),
            listed_at(order, k - 1),
            listed_before(order, k),
        );
        assert((listed_upto(ws, order, k - 1) + keep(ws, listed_at(order, k - 1))).to_multiset()
            =~= listed_upto(ws, order, k - 1).to_multiset().add(
            keep(ws, listed_at(order, k - 1)).to_multiset(),
        ));
    }
}

/// The sidebar order lists every worktree exactly as often as the project
/// has it: the main one, then the custom order, then the rest by name.
pub proof fn law_sorted_worktrees_permutes(ws: Seq<Worktree>, order: Seq<String>)
    ensures
        spec_sorted_worktrees(ws, order).to_multiset() == ws.to_multiset(),
        spec_sorted_worktrees(ws, order).len() == ws.len(),
{
    broadcast use vstd::seq_lib::group_to_multiset_ensures;
    broadcast use vstd::seq_lib::lemma_multiset_commutative;
    broadcast use vstd::multiset::group_multiset_axioms;

    let n = order.len() as int;
    let mains = keep(ws, is_main_worktree());
    let listed = listed_upto(ws, order, n);
    let rest = keep(ws, unlisted(order));
    lemma_listed_upto(ws, order, n);
    law_sort_by_name(rest);
    assert forall|w: Worktree| #[trigger] (not_main())(w) == ((listed_before(order, n))(w) || (
    unlisted(order))(w)) && !((listed_before(order, n))(w) && (unlisted(order))(w)) by {
        lemma_first_from(order, named(w.name@), 0);
    }
    crate::seqs::lemma_keep_split(ws, listed_before(order, n), unlisted(order), not_main());
    assert forall|w: Worktree| #[trigger] (any_worktree())(w) == ((is_main_worktree())(w) || (
    not_main())(w)) && !((is_main_worktree())(w) && (not_main())(w)) by {}
    crate::seqs::lemma_keep_split(ws, is_main_worktree(), not_main(), any_worktree());
    crate::seqs::lemma_keep_all(ws, any_worktree());
    let sorted = spec_sorted_worktrees(ws, order);
    assert(sorted == mains + listed + sort_by_name(rest));
    assert((mains + listed + sort_by_name(rest)).to_multiset() =~= mains.to_multiset().add(
        listed.to_multiset(),
    ).add(sort_by_name(rest).to_multiset()));
    assert(sorted.to_multiset() =~= ws.to_multiset());
    assert(sorted.len() == sorted.to_multiset().len());
    assert(ws.len() == ws.to_multiset().len());
}

/// A worktree other than the main one of activity rank below `r`.
pub open spec fn ranked_below(tabs: Seq<Tab>, p: Project, r: int) -> spec_fn(Worktree) -> bool {
    |w: Worktree| !w.is_main && activity_rank(tabs, p, w) < r
}

proof fn lemma_ranked_upto(tabs: Seq<Tab>, p: Project, ws: Seq<Worktree>, r: int)
    requires
        0 <= r,
    ensures
        ranked_upto(tabs, p, ws, r).to_multiset() == keep(ws, ranked_below(tabs, p, r)).to_multiset(),
    decreases r,
{
    broadcast use vstd::seq_lib::lemma_multiset_commutative;

    if r == 0 {
        assert forall|w: Worktree| !#[trigger] (ranked_below(tabs, p, 0))(w) by {}
        crate::seqs::lemma_keep_none(ws, ranked_below(tabs, p, 0));
        assert(ranked_upto(tabs, p, ws, 0) =~= keep(ws, ranked_below(tabs, p, 0)));
    } else {
        lemma_ranked_upto(tabs, p, ws, r - 1);
        crate::seqs::lemma_keep_split(
            ws,
            ranked_below(tabs, p, r - 1),
            ranked(tabs, p, r - 1),
            ranked_below(tabs, p, r),
        );
        assert((ranked_upto(tabs, p, ws, r - 1) + keep(ws, ranked(tabs, p, r - 1))).to_multiset()
            =~= ranked_upto(tabs, p, ws, r - 1).to_multiset().add(
            keep(ws, ranked(tabs, p, r - 1)).to_multiset(),
        ));
    }
}

/// Ordering by activity names every worktree of the project but the main
/// one, each exactly as often as the project has it.
pub proof fn law_activity_order_permutes(tabs: Seq<Tab>, p: Project)
    ensures
        by_activity(tabs, p).to_multiset() == keep(p.worktrees@, not_main()).to_multiset(),
{
    let ws = spec_sorted_worktrees(p.worktrees@, p.worktree_order@);
    lemma_ranked_upto(tabs, p, ws, 4);
    assert(ranked_below(tabs, p, 4) =~= not_main());
    crate::seqs::lemma_keep_filter(ws, not_main());
    crate::seqs::lemma_keep_filter(p.worktrees@, not_main());
    law_sorted_worktrees_permutes(p.worktrees@, p.worktree_order@);
}

/// Dragging a worktree onto another changes where the dragged one stands,
/// not which worktrees the custom order names: the same names, each as
/// often, the dragged one at the place it was dropped.
pub proof fn law_reorder_permutes(p: Project, dragged: Seq<char>, target: Seq<char>)
    ensures
        reordered(p, dragged, target) matches Some(names) ==> {
            &&& names.to_multiset() == text_views(branch_names(p)).to_multiset()
            &&& names.contains(dragged)
        },
{
    broadcast use vstd::seq_lib::group_to_multiset_ensures;
    broadcast use vstd::multiset::group_multiset_axioms;

    let bn = branch_names(p);
    if let Some(names) = reordered(p, dragged, target) {
        let from = first(bn, named(dragged)).unwrap();
        lemma_first_from(bn, named(dragged), 0);
        let rest = bn.remove(from);
        let views = text_views(bn);
        assert(text_views(rest) =~= views.remove(from));
        let to = if main_named(p, target) {
            0
        } else {
            match first(rest, named(target)) {
                Some(i) => if i >= from { i + 1 } else { i },
                None => rest.len() as int,
            }
        };
        lemma_first_from(rest, named(target), 0);
        assert(0 <= to <= text_views(rest).len());
        assert(names == text_views(rest).insert(to, dragged));
        assert(views[from] == dragged);
        assert(names.to_multiset() =~= views.to_multiset());
        assert(names[to] == dragged);
    }
}

/// Dropping a listed worktree on another places it next to the target:
/// directly after a target listed below it, directly before a target listed
/// above it, first when dropped on the main worktree, last when the target
/// is not listed. Dropped on another listed worktree, it always moves.
pub proof fn law_reorder_places_next_to_target(p: Project, dragged: Seq<char>, target: Seq<char>)
    requires
        dragged != target,
        !main_named(p, dragged),
        first(branch_names(p), named(dragged)) is Some,
    ensures
        ({
            let bn = branch_names(p);
            let from = first(bn, named(dragged)).unwrap();
            reordered(p, dragged, target) matches Some(names) && {
                &&& names.len() == bn.len()
                &&& main_named(p, target) ==> names[0] == dragged
                &&& !main_named(p, target) ==> match first(bn, named(target)) {
                    Some(k) => {
                        &&& k > from ==> names[k - 1] == target && names[k] == dragged
                        &&& k < from ==> names[k] == dragged && names[k + 1] == target
                        &&& names != text_views(bn)
                    },
                    None => names.last() == dragged,
                }
            }
        }),
{
    let bn = branch_names(p);
    lemma_first_from(bn, named(dragged), 0);
    let from = first(bn, named(dragged)).unwrap();
    let rest = bn.remove(from);
    let tv = text_views(rest);
    assert(tv.len() == rest.len());
    if !main_named(p, target) {
        lemma_first_from(bn, named(target), 0);
        match first(bn, named(target)) {
            Some(k) => {
                assert(k != from);
                if k > from {
                    assert forall|j: int| 0 <= j < k - 1 implies !(named(target))(rest[j]) by {
                        if j < from {
                            assert(rest[j] == bn[j]);
                        } else {
                            assert(rest[j] == bn[j + 1]);
                        }
                    }
                    assert(rest[k - 1] == bn[k]);
                    crate::seqs::lemma_first_is(rest, named(target), k - 1);
                    let names = tv.insert(k, dragged);
                    assert(names[k - 1] == tv[k - 1]);
                    assert(names[k] == dragged);
                    assert(text_views(bn)[k] == target);
                } else {
                    assert forall|j: int| 0 <= j < k implies !(named(target))(rest[j]) by {
                        assert(rest[j] == bn[j]);
                    }
                    assert(rest[k] == bn[k]);
                    crate::seqs::lemma_first_is(rest, named(target), k);
                    let names = tv.insert(k, dragged);
                    assert(names[k + 1] == tv[k]);
                    assert(names[k] == dragged);
                    assert(text_views(bn)[k] == target);
                }
            },
            None => {
                assert forall|j: int| 0 <= j < rest.len() implies !(named(target))(rest[j]) by {
                    if j < from {
                        assert(rest[j] == bn[j]);
                    } else {
                        assert(rest[j] == bn[j + 1]);
                    }
                }
                crate::seqs::lemma_first_none(rest, named(target));
            },
        }
    }
}

/// A tab of project `p` is open on worktree `w`.
pub open spec fn open_in_tab(tabs: Seq<Tab>, p: Project, w: Worktree) -> bool {
    exists|i: int| 0 <= i < tabs.len() && tabs[i].project == Some(p.id) && (tabs[i].worktree matches Some(
        path,
    ) && path@ == w.path@)
}

/// The worktree has lines added or removed.
pub open spec fn has_changes(w: Worktree) -> bool {
    w.diff matches Some(d) && (d.added != 0 || d.removed != 0)
}

proof fn lemma_ranked_upto_order(tabs: Seq<Tab>, p: Project, ws: Seq<Worktree>, k: int)
    requires
        0 <= k,
    ensures
        forall|i: int|
            0 <= i < ranked_upto(tabs, p, ws, k).len() ==> activity_rank(
                tabs,
                p,
                #[trigger] ranked_upto(tabs, p, ws, k)[i],
            ) < k,
        forall|i: int, j: int|
            0 <= i < j < ranked_upto(tabs, p, ws, k).len() ==> activity_rank(
                tabs,
                p,
                #[trigger] ranked_upto(tabs, p, ws, k)[i],
            ) <= activity_rank(tabs, p, #[trigger] ranked_upto(tabs, p, ws, k)[j]),
    decreases k,
{
    if k > 0 {
        lemma_ranked_upto_order(tabs, p, ws, k - 1);
        let r = ranked_upto(tabs, p, ws, k - 1);
        let kk = keep(ws, ranked(tabs, p, k - 1));
        let all = ranked_upto(tabs, p, ws, k);
        assert(all == r + kk);
        assert forall|m: int| 0 <= m < kk.len() implies activity_rank(tabs, p, #[trigger] kk[m]) == k - 1 by {
            lemma_keep_element(ws, ranked(tabs, p, k - 1), m);
        }
        assert forall|i: int| 0 <= i < all.len() implies activity_rank(tabs, p, #[trigger] all[i]) < k by {
            if i < r.len() {
                assert(all[i] == r[i]);
            } else {
                assert(all[i] == kk[i - r.len()]);
            }
        }
        assert forall|i: int, j: int| 0 <= i < j < all.len() implies activity_rank(
            tabs,
            p,
            #[trigger] all[i],
        ) <= activity_rank(tabs, p, #[trigger] all[j]) by {
            if j < r.len() {
                assert(all[i] == r[i] && all[j] == r[j]);
            } else if i < r.len() {
                assert(all[i] == r[i] && all[j] == kk[j - r.len()]);
            } else {
                assert(all[i] == kk[i - r.len()] && all[j] == kk[j - r.len()]);
            }
        }
    }
}

/// Sorting by activity puts worktrees open in a tab with changes first,
/// then the other open ones, then the closed ones with changes, then the
/// closed clean ones: no worktree comes after one of a later group.
pub proof fn law_activity_order_groups(tabs: Seq<Tab>, p: Project)
    ensures
        ({
            let r = by_activity(tabs, p);
            forall|i: int, j: int|
                0 <= i < j < r.len() ==> {
                    &&& (open_in_tab(tabs, p, #[trigger] r[j]) && has_changes(r[j])) ==> (
                    open_in_tab(tabs, p, r[i]) && has_changes(r[i]))
                    &&& open_in_tab(tabs, p, r[j]) ==> open_in_tab(tabs, p, #[trigger] r[i])
                    &&& (!open_in_tab(tabs, p, r[i]) && !has_changes(r[i])) ==> (!open_in_tab(
                        tabs,
                        p,
                        r[j],
                    ) && !has_changes(r[j]))
                }
        }),
{
    let ws = spec_sorted_worktrees(p.worktrees@, p.worktree_order@);
    let r = by_activity(tabs, p);
    lemma_ranked_upto_order(tabs, p, ws, 4);
    assert forall|w: Worktree| #[trigger] open_in_tab(tabs, p, w) == (first(tabs, of_project_on(p.id, w.path@)) is Some) by {
        lemma_first_from(tabs, of_project_on(p.id, w.path@), 0);
        if open_in_tab(tabs, p, w) {
            let i = choose|i: int| 0 <= i < tabs.len() && tabs[i].project == Some(p.id) && (tabs[i].worktree matches Some(
                path,
            ) && path@ == w.path@);
            assert((of_project_on(p.id, w.path@))(tabs[i]));
        }
    }
    assert forall|i: int, j: int| 0 <= i < j < r.len() implies {
        &&& (open_in_tab(tabs, p, #[trigger] r[j]) && has_changes(r[j])) ==> (open_in_tab(tabs, p, r[i])
            && has_changes(r[i]))
        &&& open_in_tab(tabs, p, r[j]) ==> open_in_tab(tabs, p, #[trigger] r[i])
        &&& (!open_in_tab(tabs, p, r[i]) && !has_changes(r[i])) ==> (!open_in_tab(tabs, p, r[j])
            && !has_changes(r[j]))
    } by {
        assert(activity_rank(tabs, p, r[i]) <= activity_rank(tabs, p, r[j]));
        assert(open_in_tab(tabs, p, r[i]) == (first(tabs, of_project_on(p.id, r[i].path@)) is Some));
        assert(open_in_tab(tabs, p, r[j]) == (first(tabs, of_project_on(p.id, r[j].path@)) is Some));
    }
}

proof fn lemma_ranked_upto_stable(tabs: Seq<Tab>, p: Project, ws: Seq<Worktree>, k: int, i: int, j: int)
    requires
        0 <= k,
        0 <= i < j < ranked_upto(tabs, p, ws, k).len(),
        activity_rank(tabs, p, ranked_upto(tabs, p, ws, k)[i]) == activity_rank(
            tabs,
            p,
            ranked_upto(tabs, p, ws, k)[j],
        ),
    ensures
        exists|a: int, b: int|
            0 <= a < b < ws.len() && ws[a] == ranked_upto(tabs, p, ws, k)[i] && ws[b] == ranked_upto(
                tabs,
                p,
                ws,
                k,
            )[j],
    decreases k,
{
    let r = ranked_upto(tabs, p, ws, k - 1);
    let kk = keep(ws, ranked(tabs, p, k - 1));
    let all = ranked_upto(tabs, p, ws, k);
    assert(all == r + kk);
    lemma_ranked_upto_order(tabs, p, ws, k - 1);
    if j < r.len() {
        assert(all[i] == r[i] && all[j] == r[j]);
        lemma_ranked_upto_stable(tabs, p, ws, k - 1, i, j);
    } else if i < r.len() {
        assert(all[i] == r[i] && all[j] == kk[j - r.len()]);
        lemma_keep_element(ws, ranked(tabs, p, k - 1), j - r.len());
        assert(activity_rank(tabs, p, r[i]) < k - 1);
    } else {
        assert(all[i] == kk[i - r.len()] && all[j] == kk[j - r.len()]);
        crate::seqs::lemma_keep_order(ws, ranked(tabs, p, k - 1), i - r.len(), j - r.len());
    }
}

/// Sorting by activity keeps the sidebar order within each group: two
/// worktrees alike in being open and in having changes stay in the order
/// the sidebar showed them.
pub proof fn law_activity_order_stable(tabs: Seq<Tab>, p: Project, i: int, j: int)
    requires
        0 <= i < j < by_activity(tabs, p).len(),
        open_in_tab(tabs, p, by_activity(tabs, p)[i]) == open_in_tab(tabs, p, by_activity(tabs, p)[j]),
        has_changes(by_activity(tabs, p)[i]) == has_changes(by_activity(tabs, p)[j]),
    ensures
        ({
            let ws = spec_sorted_worktrees(p.worktrees@, p.worktree_order@);
            let r = by_activity(tabs, p);
            exists|a: int, b: int| 0 <= a < b < ws.len() && ws[a] == r[i] && ws[b] == r[j]
        }),
{
    let ws = spec_sorted_worktrees(p.worktrees@, p.worktree_order@);
    let r = by_activity(tabs, p);
    assert forall|w: Worktree| #[trigger] open_in_tab(tabs, p, w) == (first(tabs, of_project_on(p.id, w.path@)) is Some) by {
        lemma_first_from(tabs, of_project_on(p.id, w.path@), 0);
        if open_in_tab(tabs, p, w) {
            let q = choose|q: int| 0 <= q < tabs.len() && tabs[q].project == Some(p.id) && (tabs[q].worktree matches Some(
                path,
            ) && path@ == w.path@);
            assert((of_project_on(p.id, w.path@))(tabs[q]));
        }
    }
    assert(open_in_tab(tabs, p, r[i]) == (first(tabs, of_project_on(p.id, r[i].path@)) is Some));
    assert(open_in_tab(tabs, p, r[j]) == (first(tabs, of_project_on(p.id, r[j].path@)) is Some));
    assert(activity_rank(tabs, p, r[i]) == activity_rank(tabs, p, r[j]));
    lemma_ranked_upto_stable(tabs, p, ws, 4, i, j);
}

/// Every worktree sorts no later by name than the ones after it.
pub open spec fn sorted_by_name(s: Seq<Worktree>) -> bool {
    forall|i: int, j: int| 0 <= i < j < s.len() ==> text_le(#[trigger] s[i].name@, #[trigger] s[j].name@)
}

proof fn lemma_insert_by_name(s: Seq<Worktree>, x: Worktree)
    requires
        sorted_by_name(s),
    ensures
        sorted_by_name(insert_by_name(s, x)),
        insert_by_name(s, x).to_multiset() == s.to_multiset().insert(x),
        insert_by_name(s, x).len() == s.len() + 1,
    decreases s.len(),
{
    broadcast use vstd::seq_lib::group_to_multiset_ensures;

    if s.len() == 0 {
        assert(seq![x] =~= Seq::<Worktree>::empty().push(x));
    } else if text_le(s.last().name@, x.name@) {
        let r = s.push(x);
        assert forall|i: int, j: int| 0 <= i < j < r.len() implies text_le(#[trigger] r[i].name@, #[trigger] r[j].name@) by {
            if j == r.len() - 1 && i < s.len() - 1 {
                assert(text_le(s[i].name@, s[s.len() - 1].name@));
                crate::text::law_text_le_transitive(s[i].name@, s.last().name@, x.name@, 0);
            }
        }
    } else {
        let d = s.drop_last();
        let last = s.last();
        assert(sorted_by_name(d)) by {
            assert forall|i: int, j: int| 0 <= i < j < d.len() implies text_le(#[trigger] d[i].name@, #[trigger] d[j].name@) by {
                assert(d[i] == s[i] && d[j] == s[j]);
            }
        }
        lemma_insert_by_name(d, x);
        let r = insert_by_name(d, x);
        crate::text::law_text_le_total(last.name@, x.name@, 0);
        assert forall|k: int| 0 <= k < r.len() implies text_le(#[trigger] r[k].name@, last.name@) by {
            assert(r.to_multiset().count(r[k]) > 0);
            assert(r.contains(r[k]));
            if r[k] != x {
                assert(d.to_multiset().count(r[k]) > 0);
                assert(d.contains(r[k]));
                let q = choose|q: int| 0 <= q < d.len() && d[q] == r[k];
                assert(s[q] == d[q]);
                assert(text_le(s[q].name@, s[s.len() - 1].name@));
            }
        }
        let q = r.push(last);
        assert forall|i: int, j: int| 0 <= i < j < q.len() implies text_le(#[trigger] q[i].name@, #[trigger] q[j].name@) by {
            if j == q.len() - 1 {
                assert(q[i] == r[i]);
            } else {
                assert(q[i] == r[i] && q[j] == r[j]);
            }
        }
        assert(d.push(last) =~= s);
        assert(q.to_multiset() =~= s.to_multiset().insert(x));
    }
}

/// Sorting by name gives the same worktrees, sorted by name.
pub proof fn law_sort_by_name(s: Seq<Worktree>)
    ensures
        sorted_by_name(sort_by_name(s)),
        sort_by_name(s).to_multiset() == s.to_multiset(),
        sort_by_name(s).len() == s.len(),
    decreases s.len(),
{
    broadcast use vstd::seq_lib::group_to_multiset_ensures;

    if s.len() > 0 {
        let d = s.drop_last();
        law_sort_by_name(d);
        lemma_insert_by_name(sort_by_name(d), s.last());
        assert(d.push(s.last()) =~= s);
    }
}

} // verus!
