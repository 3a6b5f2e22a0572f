//! Reopening a saved session: the panel trees saved layouts come back as,
//! which saved tabs come back, and what the window shows once they are back.
//! Spawning terminals and looking at the disk is the caller's part; it hands
//! in the panels it made and what it found.
use vstd::prelude::*;

use crate::panels::{PanelId, PanelNode};
use crate::paths::dir_name_of;
use crate::seqs::{first, first_from, lemma_first_from};
use crate::session::{
    captured_layout, captured_tab, cwd_of, is_panel, opt_text, LayoutView, PanelLayout, SessionTab,
    SessionTabView,
};
use crate::state::{
    default_title, lists, position_of, project_with_id, same_settings, tab_with_id, AppState,
    ProjectId, Tab, TabId,
};
use crate::text::{decimal, push_decimal};

verus! {

/// A panel tree has at least one panel.
proof fn lemma_leaves_nonempty(t: PanelNode)
    ensures
        t.spec_leaves().len() >= 1,
    decreases t,
{
    match t {
        PanelNode::Leaf(_) => {},
        PanelNode::Horizontal(a, b) => lemma_leaves_nonempty(*a),
        PanelNode::Vertical(a, b) => lemma_leaves_nonempty(*a),
    }
}

/// How many panels a layout holds.
pub open spec fn leaf_count(l: LayoutView) -> nat
    decreases l,
{
    match l {
        LayoutView::Leaf(_) => 1,
        LayoutView::Horizontal(a, b) => leaf_count(*a) + leaf_count(*b),
        LayoutView::Vertical(a, b) => leaf_count(*a) + leaf_count(*b),
    }
}

/// The saved directory of each panel of a layout, in panel order.
pub open spec fn layout_cwds(l: LayoutView) -> Seq<Option<Seq<char>>>
    decreases l,
{
    match l {
        LayoutView::Leaf(c) => seq![c],
        LayoutView::Horizontal(a, b) => layout_cwds(*a) + layout_cwds(*b),
        LayoutView::Vertical(a, b) => layout_cwds(*a) + layout_cwds(*b),
    }
}

/// Optional strings as values.
pub open spec fn opt_texts(s: Seq<Option<String>>) -> Seq<Option<Seq<char>>> {
    s.map_values(|o: Option<String>| opt_text(o))
}

/// The panel tree of a layout whose panels, in order, are `ids`.
pub open spec fn built(l: LayoutView, ids: Seq<PanelId>) -> PanelNode
    decreases l,
{
    match l {
        LayoutView::Leaf(_) => PanelNode::Leaf(ids[0]),
        LayoutView::Horizontal(a, b) => PanelNode::Horizontal(
            Box::new(built(*a, ids.take(leaf_count(*a) as int))),
            Box::new(built(*b, ids.skip(leaf_count(*a) as int))),
        ),
        LayoutView::Vertical(a, b) => PanelNode::Vertical(
            Box::new(built(*a, ids.take(leaf_count(*a) as int))),
            Box::new(built(*b, ids.skip(leaf_count(*a) as int))),
        ),
    }
}

/// A layout names one directory per panel.
pub proof fn lemma_cwds_len(l: LayoutView)
    ensures
        layout_cwds(l).len() == leaf_count(l),
    decreases l,
{
    match l {
        LayoutView::Leaf(_) => {},
        LayoutView::Horizontal(a, b) => {
            lemma_cwds_len(*a);
            lemma_cwds_len(*b);
        },
        LayoutView::Vertical(a, b) => {
            lemma_cwds_len(*a);
            lemma_cwds_len(*b);
        },
    }
}

/// The tree built from a layout holds the given panels, in the given order.
pub proof fn lemma_built_leaves(l: LayoutView, ids: Seq<PanelId>)
    requires
        ids.len() == leaf_count(l),
    ensures
        built(l, ids).spec_leaves() == ids,
    decreases l,
{
    match l {
        LayoutView::Leaf(_) => {
            assert(ids =~= seq![ids[0]]);
        },
        LayoutView::Horizontal(a, b) => {
            let k = leaf_count(*a) as int;
            lemma_built_leaves(*a, ids.take(k));
            lemma_built_leaves(*b, ids.skip(k));
            assert(ids.take(k) + ids.skip(k) =~= ids);
        },
        LayoutView::Vertical(a, b) => {
            let k = leaf_count(*a) as int;
            lemma_built_leaves(*a, ids.take(k));
            lemma_built_leaves(*b, ids.skip(k));
            assert(ids.take(k) + ids.skip(k) =~= ids);
        },
    }
}

impl PanelLayout {
    /// The saved directory of each panel, in panel order: where each
    /// reopened terminal is to start.
    pub fn leaf_cwds(&self) -> (r: Vec<Option<String>>)
        ensures
            opt_texts(r@) == layout_cwds(self@),
            r@.len() == leaf_count(self@),
        decreases self,
    {
        proof {
            lemma_cwds_len(self@);
        }
        match self {
            PanelLayout::Leaf { cwd } => {
                let c = match cwd {
                    Some(s) => Some(s.clone()),
                    None => None,
                };
                let mut v: Vec<Option<String>> = Vec::new();
                v.push(c);
                proof {
                    assert(opt_texts(v@) =~= layout_cwds(self@));
                }
                v
            },
            PanelLayout::Horizontal(a, b) => {
                let mut v = a.leaf_cwds();
                let mut w = b.leaf_cwds();
                let ghost (va, wa) = (v@, w@);
                v.append(&mut w);
                proof {
                    assert(opt_texts(va + wa) =~= opt_texts(va) + opt_texts(wa));
                }
                v
            },
            PanelLayout::Vertical(a, b) => {
                let mut v = a.leaf_cwds();
                let mut w = b.leaf_cwds();
                let ghost (va, wa) = (v@, w@);
                v.append(&mut w);
                proof {
                    assert(opt_texts(va + wa) =~= opt_texts(va) + opt_texts(wa));
                }
                v
            },
        }
    }

    /// The panel tree of this layout over the panels `ids`, one per saved
    /// directory and in the same order.
    pub fn build(&self, ids: &Vec<PanelId>) -> (r: PanelNode)
        requires
            ids@.len() == leaf_count(self@),
        ensures
            r == built(self@, ids@),
            r.spec_leaves() == ids@,
    {
        let (node, _end) = self.build_from(ids, 0);
        proof {
            assert(ids@.subrange(0, ids@.len() as int) =~= ids@);
            lemma_built_leaves(self@, ids@);
        }
        node
    }

    fn build_from(&self, ids: &Vec<PanelId>, start: usize) -> (r: (PanelNode, usize))
        requires
            start + leaf_count(self@) <= ids@.len(),
        ensures
            r.1 == start + leaf_count(self@),
            r.0 == built(self@, ids@.subrange(start as int, r.1 as int)),
        decreases self,
    {
        match self {
            PanelLayout::Leaf { .. } => {
                assert(leaf_count(self@) == 1);
                let n = ids.len();
                assert(start < n);
                (PanelNode::Leaf(ids[start]), start + 1)
            },
            PanelLayout::Horizontal(a, b) => {
                let (na, mid) = a.build_from(ids, start);
                let (nb, end) = b.build_from(ids, mid);
                proof {
                    let sub = ids@.subrange(start as int, end as int);
                    let k = leaf_count((**a)@) as int;
                    assert(sub.take(k) =~= ids@.subrange(start as int, mid as int));
                    assert(sub.skip(k) =~= ids@.subrange(mid as int, end as int));
                }
                (PanelNode::Horizontal(Box::new(na), Box::new(nb)), end)
            },
            PanelLayout::Vertical(a, b) => {
                let (na, mid) = a.build_from(ids, start);
                let (nb, end) = b.build_from(ids, mid);
                proof {
                    let sub = ids@.subrange(start as int, end as int);
                    let k = leaf_count((**a)@) as int;
                    assert(sub.take(k) =~= ids@.subrange(start as int, mid as int));
                    assert(sub.skip(k) =~= ids@.subrange(mid as int, end as int));
                }
                (PanelNode::Vertical(Box::new(na), Box::new(nb)), end)
            },
        }
    }
}

/// Has project `project` archived the worktree at `path`.
pub open spec fn archived_for(s: AppState, project: Option<ProjectId>, path: Seq<char>) -> bool {
    match project {
        Some(id) => match first(s.projects@, project_with_id(id)) {
            Some(i) => lists(s.projects@[i].archived@, dir_name_of(path)),
            None => false,
        },
        None => false,
    }
}

/// A saved tab comes back unless it is pinned to a worktree whose
/// directory is gone or that its project has archived.
pub open spec fn comes_back(
    s: AppState,
    saved: SessionTabView,
    project: Option<ProjectId>,
    worktree_exists: bool,
) -> bool {
    match saved.worktree {
        Some(w) => worktree_exists && !archived_for(s, project, w),
        None => true,
    }
}

/// The panel shown in a reopened tab: the saved one when it is still
/// there, else the first.
pub open spec fn restored_panel(leaves: Seq<PanelId>, active_leaf: usize) -> PanelId {
    if active_leaf < leaves.len() {
        leaves[active_leaf as int]
    } else {
        leaves[0]
    }
}

/// "N project(s) from this session no longer exist".
pub open spec fn missing_text(n: nat) -> Seq<char> {
    decimal(n) + seq![' ', 'p', 'r', 'o', 'j', 'e', 'c', 't'] + (if n == 1 {
        Seq::<char>::empty()
    } else {
        seq!['s']
    }) + seq![
        ' ', 'f', 'r', 'o', 'm', ' ', 't', 'h', 'i', 's', ' ', 's', 'e', 's', 's', 'i', 'o', 'n',
        ' ', 'n', 'o', ' ', 'l', 'o', 'n', 'g', 'e', 'r', ' ', 'e', 'x', 'i', 's', 't'
    ]
}

/// The notice for `skipped` saved projects that could not be reopened.
pub fn missing_projects_notice(skipped: u64) -> (r: Option<String>)
    ensures
        match r {
            Some(t) => skipped > 0 && t@ == missing_text(skipped as nat),
            None => skipped == 0,
        },
{
    if skipped == 0 {
        return None;
    }
    let mut text = String::new();
    push_decimal(&mut text, skipped);
    proof {
        reveal_strlit(" project");
        reveal_strlit("s");
        reveal_strlit(" from this session no longer exist");
    }
    text.append(" project");
    if skipped != 1 {
        text.append("s");
    }
    text.append(" from this session no longer exist");
    proof {
        assert(text@ =~= missing_text(skipped as nat));
    }
    Some(text)
}

impl AppState {
    /// Whether the saved tab `saved`, filed under `project`, is to be
    /// reopened; `worktree_exists` tells whether the directory of the
    /// worktree it is pinned to is still there.
    pub fn should_restore(&self, saved: &SessionTab, project: Option<ProjectId>, worktree_exists: bool) -> (r: bool)
        ensures
            r == comes_back(*self, saved@, project, worktree_exists),
    {
        match &saved.worktree {
            None => true,
            Some(w) => {
                if !worktree_exists {
                    return false;
                }
                match project {
                    None => true,
                    Some(id) => match self.project_index(id) {
                        None => true,
                        Some(i) => {
                            proof {
                                lemma_first_from(self.projects@, project_with_id(id), 0);
                            }
                            let name = crate::paths::dir_name(w.as_str());
                            position_of(&self.projects[i].archived, &name).is_none()
                        },
                    },
                }
            },
        }
    }

    /// Reopens the saved tab `saved` at the end, filed under `project`, over
    /// the panel tree `panels` built from its layout, and shows it. Its
    /// active panel is the saved one when the tree has it, else the first.
    pub fn restore_tab(&mut self, saved: &SessionTab, project: Option<ProjectId>, tab_id: TabId, panels: PanelNode)
        requires
            old(self).wf(),
            panels.wf(),
            first(old(self).tabs@, tab_with_id(tab_id)) is None,
        ensures
            final(self).wf(),
            final(self).tabs@.len() == old(self).tabs@.len() + 1,
            final(self).tabs@.drop_last() == old(self).tabs@,
            ({
                let t = final(self).tabs@.last();
                &&& t.id == tab_id
                &&& t.title@ == default_title(tab_id)
                &&& t.custom_title == saved.custom_title
                &&& t.panels == panels
                &&& t.active_panel == restored_panel(panels.spec_leaves(), saved.active_leaf)
                &&& !t.outputting
                &&& t.project == project
                &&& t.worktree == saved.worktree
                &&& t.group is None
            }),
            final(self).active_tab == old(self).tabs@.len(),
            final(self).projects == old(self).projects,
            same_settings(*final(self), *old(self)),
    {
        let leaves = panels.leaves();
        proof {
            lemma_leaves_nonempty(panels);
        }
        let active = if saved.active_leaf < leaves.len() {
            leaves[saved.active_leaf]
        } else {
            leaves[0]
        };
        proof {
            crate::panels::law_has_iff_leaf(panels, active);
        }
        let custom_title = match &saved.custom_title {
            Some(t) => Some(t.clone()),
            None => None,
        };
        let worktree = match &saved.worktree {
            Some(w) => Some(w.clone()),
            None => None,
        };
        let tab = Tab::from_panels(tab_id, panels, active, custom_title, project, worktree);
        proof {
            lemma_first_from(self.tabs@, tab_with_id(tab_id), 0);
            crate::state::lemma_push_sound(self.tabs@, tab);
        }
        self.tabs.push(tab);
        self.active_tab = self.tabs.len() - 1;
        proof {
            assert(self.tabs@.drop_last() =~= old(self).tabs@);
        }
    }

    /// Once a session's tabs are back: shows the saved shown tab, or the
    /// last one when fewer came back, and tells of `skipped` saved projects
    /// that could not be reopened. Returns the panel to focus.
    pub fn finish_restore(&mut self, active_tab: usize, skipped: u64) -> (r: Option<PanelId>)
        requires
            old(self).wf(),
        ensures
            final(self).wf(),
            final(self).tabs == old(self).tabs,
            final(self).projects == old(self).projects,
            final(self).active_tab == if old(self).tabs@.len() == 0 {
                old(self).active_tab as int
            } else if active_tab < old(self).tabs@.len() {
                active_tab as int
            } else {
                old(self).tabs@.len() - 1
            },
            skipped > 0 ==> opt_text(final(self).notice) == Some(missing_text(skipped as nat)),
            skipped == 0 ==> final(self).notice == old(self).notice,
            final(self).shell == old(self).shell,
            final(self).sidebar_collapsed == old(self).sidebar_collapsed,
            final(self).modal == old(self).modal,
            final(self).started_at == old(self).started_at,
            r == match final(self).active_id() {
                Some(_) => Some(final(self).tabs@[final(self).active_tab as int].active_panel),
                None => None::<PanelId>,
            },
    {
        if !self.tabs.is_empty() {
            let last = self.tabs.len() - 1;
            self.active_tab = if active_tab < last {
                active_tab
            } else {
                last
            };
        }
        if skipped > 0 {
            self.notice = missing_projects_notice(skipped);
        }
        self.focus_active_panel()
    }
}

/// A layout captured from a panel tree holds as many panels as the tree and
/// their directories in panel order, and rebuilt over the tree's own panels
/// it is that tree again.
pub proof fn law_capture_then_build(node: PanelNode, cwds: Seq<(PanelId, Option<String>)>)
    ensures
        leaf_count(captured_layout(node, cwds)) == node.spec_leaves().len(),
        layout_cwds(captured_layout(node, cwds)) == node.spec_leaves().map_values(
            |id: PanelId| cwd_of(cwds, id),
        ),
        built(captured_layout(node, cwds), node.spec_leaves()) == node,
    decreases node,
{
    match node {
        PanelNode::Leaf(id) => {
            assert(node.spec_leaves().map_values(|id: PanelId| cwd_of(cwds, id)) =~= seq![
                cwd_of(cwds, id),
            ]);
        },
        PanelNode::Horizontal(a, b) => {
            law_capture_then_build(*a, cwds);
            law_capture_then_build(*b, cwds);
            let la = a.spec_leaves();
            let lb = b.spec_leaves();
            let k = la.len() as int;
            assert((la + lb).take(k) =~= la);
            assert((la + lb).skip(k) =~= lb);
            assert((la + lb).map_values(|id: PanelId| cwd_of(cwds, id)) =~= la.map_values(
                |id: PanelId| cwd_of(cwds, id),
            ) + lb.map_values(|id: PanelId| cwd_of(cwds, id)));
        },
        PanelNode::Vertical(a, b) => {
            law_capture_then_build(*a, cwds);
            law_capture_then_build(*b, cwds);
            let la = a.spec_leaves();
            let lb = b.spec_leaves();
            let k = la.len() as int;
            assert((la + lb).take(k) =~= la);
            assert((la + lb).skip(k) =~= lb);
            assert((la + lb).map_values(|id: PanelId| cwd_of(cwds, id)) =~= la.map_values(
                |id: PanelId| cwd_of(cwds, id),
            ) + lb.map_values(|id: PanelId| cwd_of(cwds, id)));
        },
    }
}

/// A sound tab saved and reopened over its own panels shows the panel it
/// showed (a tree in memory has fewer panels than `usize` counts).
pub proof fn law_capture_then_restore_panel(t: Tab, cwds: Seq<(PanelId, Option<String>)>)
    requires
        t.wf(),
        t.panels.spec_leaves().len() <= usize::MAX,
    ensures
        restored_panel(t.panels.spec_leaves(), captured_tab(t, cwds).active_leaf) == t.active_panel,
{
    let l = t.panels.spec_leaves();
    crate::panels::law_has_iff_leaf(t.panels, t.active_panel);
    lemma_first_from(l, is_panel(t.active_panel), 0);
    let k = choose|k: int| 0 <= k < l.len() && l[k] == t.active_panel;
    assert(is_panel(t.active_panel)(l[k]));
}

} // verus!
