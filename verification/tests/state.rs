use marcterm::git::{DiffStats, ProjectInfo, Worktree};
use marcterm::panels::{Axis, NavDirection, PanelId, PanelNode};
use marcterm::state::{sorted_worktrees, AppState, ProjectId, Tab, TabId};

fn wt(name: &str, is_main: bool) -> Worktree {
    Worktree {
        name: name.to_string(),
        path: format!("/repo/{name}"),
        is_main,
        branch: None,
        diff: None,
        last_commit: None,
    }
}

fn names(ws: &[Worktree]) -> Vec<&str> {
    ws.iter().map(|w| w.name.as_str()).collect()
}

fn ids(order: &[TabId]) -> Vec<usize> {
    order.iter().map(|t| t.0).collect()
}

fn tab_ids(state: &AppState) -> Vec<usize> {
    state.tabs.iter().map(|t| t.id.0).collect()
}

fn state_with_loose(n: usize) -> AppState {
    let mut state = AppState::new("zsh".to_string(), 10);
    for i in 1..=n {
        state.new_tab_with(TabId(i), PanelId(i as u64 * 100), None, None, None);
    }
    state
}

fn repo_state() -> (AppState, ProjectId) {
    let mut state = AppState::new("zsh".to_string(), 10);
    let info = ProjectInfo::from_main("/repo/trunk".to_string());
    let pid = state.add_project(info, ProjectId(7), vec![], vec![]);
    let i = state.project_index(pid).unwrap();
    state.projects[i].worktrees = vec![wt("trunk", true), wt("zeta", false), wt("alpha", false), wt("mid", false)];
    (state, pid)
}

#[test]
fn new_tab_title_is_numbered() {
    let tab = Tab::new(TabId(12), PanelId(1), None, None);
    assert_eq!(tab.title, "Terminal 12");
    assert_eq!(tab.display_title(), "Terminal 12");
    assert_eq!(tab.panels, PanelNode::Leaf(PanelId(1)));
}

#[test]
fn display_title_prefers_custom() {
    let mut tab = Tab::new(TabId(1), PanelId(1), None, None);
    tab.custom_title = Some("build".to_string());
    assert_eq!(tab.display_title(), "build");
    tab.custom_title = Some(String::new());
    assert_eq!(tab.display_title(), "Terminal 1");
}

#[test]
fn reported_title_replaces_unless_empty() {
    let mut tab = Tab::new(TabId(1), PanelId(1), None, None);
    tab.update_title_from_active_panel(Some("vim".to_string()));
    assert_eq!(tab.title, "vim");
    tab.update_title_from_active_panel(Some(String::new()));
    assert_eq!(tab.title, "vim");
    tab.update_title_from_active_panel(None);
    assert_eq!(tab.title, "vim");
}

#[test]
fn new_tab_shows_it_and_starts_in_cwd() {
    let mut state = AppState::new("zsh".to_string(), 10);
    let (tid, pid, dir) = state.new_tab_with(TabId(1), PanelId(5), None, Some("/w".to_string()), None);
    assert_eq!((tid, pid), (TabId(1), PanelId(5)));
    assert_eq!(dir.as_deref(), Some("/w"));
    let (_, _, dir) = state.new_tab_with(TabId(2), PanelId(6), None, Some("/w".to_string()), Some("/cwd".to_string()));
    assert_eq!(dir.as_deref(), Some("/cwd"));
    assert_eq!(state.active_tab, 1);
    assert_eq!(state.focus_active_panel(), Some(PanelId(6)));
}

#[test]
fn new_tab_inherits_project() {
    let (mut state, pid) = repo_state();
    state.new_tab_with(TabId(1), PanelId(1), Some(pid), Some("/repo/alpha".to_string()), None);
    let (_, _, dir) = state.new_tab(TabId(2), PanelId(2), Some("/here".to_string()));
    assert_eq!(dir.as_deref(), Some("/here"));
    assert_eq!(state.tabs[1].project, Some(pid));
    assert!(state.tabs[1].worktree.is_none());
}

#[test]
fn close_tab_keeps_index_in_range() {
    let mut state = state_with_loose(3);
    assert_eq!(state.active_tab, 2);
    state.close_active_tab();
    assert_eq!(tab_ids(&state), vec![1, 2]);
    assert_eq!(state.active_tab, 1);
    state.close_tab_by_id(TabId(1));
    assert_eq!(tab_ids(&state), vec![2]);
    assert_eq!(state.active_tab, 0);
    state.close_tab_by_id(TabId(99));
    assert_eq!(tab_ids(&state), vec![2]);
    state.close_active_tab();
    assert!(state.tabs.is_empty());
    assert_eq!(state.active_tab, 0);
    assert_eq!(state.focus_active_panel(), None);
}

#[test]
fn rename_tab_sets_and_clears() {
    let mut state = state_with_loose(2);
    state.rename_tab(TabId(1), "logs".to_string());
    assert_eq!(state.tabs[0].custom_title.as_deref(), Some("logs"));
    state.rename_tab(TabId(1), String::new());
    assert!(state.tabs[0].custom_title.is_none());
}

#[test]
fn switch_to_tab_ignores_unknown() {
    let mut state = state_with_loose(3);
    state.switch_to_tab(TabId(1));
    assert_eq!(state.active_tab, 0);
    state.switch_to_tab(TabId(42));
    assert_eq!(state.active_tab, 0);
}

#[test]
fn toggle_sidebar_flips() {
    let mut state = state_with_loose(0);
    state.toggle_sidebar();
    assert!(state.sidebar_collapsed);
    state.toggle_sidebar();
    assert!(!state.sidebar_collapsed);
}

#[test]
fn add_project_is_once_per_root() {
    let mut state = AppState::new("zsh".to_string(), 10);
    let info = ProjectInfo::from_main("/repo/trunk".to_string());
    let a = state.add_project(info, ProjectId(1), vec!["old".to_string()], vec![]);
    let again = ProjectInfo::from_main("/repo/trunk".to_string());
    let b = state.add_project(again, ProjectId(2), vec![], vec![]);
    assert_eq!(a, ProjectId(1));
    assert_eq!(b, ProjectId(1));
    assert_eq!(state.projects.len(), 1);
    let p = state.project(a).unwrap();
    assert_eq!(p.name, "repo");
    assert_eq!(p.root, "/repo");
    assert_eq!(p.main, "/repo/trunk");
    assert_eq!(p.archived, vec!["old".to_string()]);
    assert_eq!(p.worktrees.len(), 1);
    assert!(p.worktrees[0].is_main);
    assert_eq!(p.worktrees[0].name, "trunk");
}

#[test]
fn sorted_worktrees_main_then_order_then_names() {
    let ws = vec![wt("zeta", false), wt("beta", false), wt("main", true), wt("alpha", false), wt("mid", false)];
    let order = vec!["mid".to_string(), "gone".to_string(), "zeta".to_string()];
    let sorted = sorted_worktrees(&ws, &order);
    assert_eq!(names(&sorted), vec!["main", "mid", "zeta", "alpha", "beta"]);
    let plain = sorted_worktrees(&ws, &vec![]);
    assert_eq!(names(&plain), vec!["main", "alpha", "beta", "mid", "zeta"]);
}

#[test]
fn worktree_entries_hide_archived_and_add_orphans() {
    let (mut state, pid) = repo_state();
    state.set_archived(pid, vec!["zeta".to_string()]);
    state.new_tab_with(TabId(1), PanelId(1), Some(pid), Some("/repo/alpha".to_string()), None);
    state.new_tab_with(TabId(2), PanelId(2), Some(pid), Some("/elsewhere/ghost".to_string()), None);
    let p = state.project(pid).unwrap();
    let entries = state.worktree_entries(p);
    let rows: Vec<(&str, Option<usize>, bool)> =
        entries.iter().map(|e| (e.worktree.name.as_str(), e.tab.map(|t| t.0), e.archived)).collect();
    assert_eq!(rows, vec![("trunk", None, false), ("alpha", Some(1), false), ("mid", None, false), ("ghost", Some(2), false)]);
    let i = state.project_index(pid).unwrap();
    state.projects[i].show_archived = true;
    let p = state.project(pid).unwrap();
    let entries = state.worktree_entries(p);
    assert_eq!(entries.len(), 5);
    assert!(entries.iter().any(|e| e.worktree.name == "zeta" && e.archived));
}

#[test]
fn display_order_follows_sidebar() {
    let (mut state, pid) = repo_state();
    state.new_tab_with(TabId(1), PanelId(1), None, None, None);
    state.new_tab_with(TabId(2), PanelId(2), Some(pid), None, None);
    state.new_tab_with(TabId(3), PanelId(3), Some(pid), Some("/repo/mid".to_string()), None);
    state.new_tab_with(TabId(4), PanelId(4), Some(pid), Some("/repo/alpha".to_string()), None);
    assert_eq!(ids(&state.display_order()), vec![4, 3, 2, 1]);
}

#[test]
fn next_and_prev_cycle_in_display_order() {
    let (mut state, pid) = repo_state();
    state.new_tab_with(TabId(1), PanelId(1), None, None, None);
    state.new_tab_with(TabId(2), PanelId(2), Some(pid), None, None);
    state.new_tab_with(TabId(3), PanelId(3), Some(pid), Some("/repo/alpha".to_string()), None);
    // display order: 3, 2, 1; shown: 3
    state.next_tab();
    assert_eq!(state.tabs[state.active_tab].id, TabId(2));
    state.next_tab();
    assert_eq!(state.tabs[state.active_tab].id, TabId(1));
    state.next_tab();
    assert_eq!(state.tabs[state.active_tab].id, TabId(3));
    state.prev_tab();
    assert_eq!(state.tabs[state.active_tab].id, TabId(1));
}

#[test]
fn step_skips_collapsed_projects() {
    let (mut state, pid) = repo_state();
    state.new_tab_with(TabId(1), PanelId(1), None, None, None);
    state.new_tab_with(TabId(2), PanelId(2), Some(pid), None, None);
    state.new_tab_with(TabId(3), PanelId(3), None, None, None);
    let i = state.project_index(pid).unwrap();
    state.projects[i].collapsed = true;
    state.switch_to_tab(TabId(1));
    // display order: 2, 1, 3
    state.next_tab();
    assert_eq!(state.tabs[state.active_tab].id, TabId(3));
    state.next_tab();
    assert_eq!(state.tabs[state.active_tab].id, TabId(1));
}

#[test]
fn move_tab_reorders_and_keeps_active() {
    let mut state = state_with_loose(4);
    state.switch_to_tab(TabId(2));
    state.move_tab(TabId(1), TabId(3));
    assert_eq!(tab_ids(&state), vec![2, 3, 1, 4]);
    assert_eq!(state.tabs[state.active_tab].id, TabId(2));
    state.move_tab(TabId(4), TabId(2));
    assert_eq!(tab_ids(&state), vec![4, 2, 3, 1]);
    assert_eq!(state.tabs[state.active_tab].id, TabId(2));
    state.move_tab(TabId(4), TabId(4));
    assert_eq!(tab_ids(&state), vec![4, 2, 3, 1]);
}

#[test]
fn move_tab_reparents_plain_not_pinned() {
    let (mut state, pid) = repo_state();
    state.new_tab_with(TabId(1), PanelId(1), None, None, None);
    state.new_tab_with(TabId(2), PanelId(2), Some(pid), None, None);
    state.new_tab_with(TabId(3), PanelId(3), None, Some("/w".to_string()), None);
    state.move_tab(TabId(1), TabId(2));
    assert_eq!(state.tabs[1].id, TabId(1));
    assert_eq!(state.tabs[1].project, Some(pid));
    let before = tab_ids(&state);
    state.move_tab(TabId(3), TabId(1));
    assert_eq!(tab_ids(&state), before);
    assert_eq!(state.tabs[2].project, None);
}

#[test]
fn reparent_tab_moves_to_end() {
    let (mut state, pid) = repo_state();
    state.new_tab_with(TabId(1), PanelId(1), None, None, None);
    state.new_tab_with(TabId(2), PanelId(2), None, None, None);
    state.switch_to_tab(TabId(2));
    state.reparent_tab(TabId(1), Some(pid));
    assert_eq!(tab_ids(&state), vec![2, 1]);
    assert_eq!(state.tabs[1].project, Some(pid));
    assert_eq!(state.tabs[state.active_tab].id, TabId(2));
    state.reparent_tab(TabId(1), Some(pid));
    assert_eq!(tab_ids(&state), vec![2, 1]);
}

#[test]
fn close_tabs_in_worktree_closes_all_on_it() {
    let mut state = AppState::new("zsh".to_string(), 1);
    state.new_tab_with(TabId(1), PanelId(1), None, Some("/w".to_string()), None);
    state.new_tab_with(TabId(2), PanelId(2), None, None, None);
    state.new_tab_with(TabId(3), PanelId(3), None, Some("/w".to_string()), None);
    state.switch_to_tab(TabId(2));
    state.close_tabs_in_worktree("/w");
    assert_eq!(tab_ids(&state), vec![2]);
    assert_eq!(state.active_tab, 0);
}

#[test]
fn toggle_show_archived_closes_hidden_tabs() {
    let (mut state, pid) = repo_state();
    state.set_archived(pid, vec!["alpha".to_string()]);
    state.toggle_show_archived(pid);
    assert!(state.project(pid).unwrap().show_archived);
    state.new_tab_with(TabId(1), PanelId(1), Some(pid), Some("/repo/alpha".to_string()), None);
    state.new_tab_with(TabId(2), PanelId(2), Some(pid), Some("/repo/mid".to_string()), None);
    state.toggle_show_archived(pid);
    assert!(!state.project(pid).unwrap().show_archived);
    assert_eq!(tab_ids(&state), vec![2]);
}

#[test]
fn remove_project_closes_its_tabs() {
    let (mut state, pid) = repo_state();
    state.new_tab_with(TabId(1), PanelId(1), None, None, None);
    state.new_tab_with(TabId(2), PanelId(2), Some(pid), None, None);
    state.remove_project(pid);
    assert!(state.projects.is_empty());
    assert_eq!(tab_ids(&state), vec![1]);
    assert_eq!(state.active_tab, 0);
    assert!(!state.set_archived(pid, vec![]));
}

#[test]
fn tab_for_worktree_matches_project_and_path() {
    let (mut state, pid) = repo_state();
    state.new_tab_with(TabId(1), PanelId(1), None, Some("/repo/mid".to_string()), None);
    state.new_tab_with(TabId(2), PanelId(2), Some(pid), Some("/repo/mid".to_string()), None);
    assert_eq!(state.tab_for_worktree(pid, "/repo/mid").map(|t| t.id), Some(TabId(2)));
    assert!(state.tab_for_worktree(pid, "/repo/alpha").is_none());
}

#[test]
fn sort_worktrees_by_activity() {
    let (mut state, pid) = repo_state();
    let i = state.project_index(pid).unwrap();
    state.projects[i].worktrees[1].diff = Some(DiffStats { added: 1, removed: 0 });
    state.projects[i].worktrees[3].diff = Some(DiffStats { added: 0, removed: 0 });
    state.new_tab_with(TabId(1), PanelId(1), Some(pid), Some("/repo/mid".to_string()), None);
    assert!(state.sort_worktrees(pid));
    // zeta: dirty, closed; alpha: clean, closed; mid: open, clean
    assert_eq!(state.projects[i].worktree_order, vec!["mid".to_string(), "zeta".to_string(), "alpha".to_string()]);
    assert!(!state.sort_worktrees(ProjectId(99)));
}

#[test]
fn reorder_worktree_moves_dragged_to_target() {
    let (mut state, pid) = repo_state();
    let i = state.project_index(pid).unwrap();
    // sidebar: alpha, mid, zeta
    assert!(state.reorder_worktree(pid, "zeta", "alpha"));
    assert_eq!(state.projects[i].worktree_order, vec!["zeta".to_string(), "alpha".to_string(), "mid".to_string()]);
    assert!(state.reorder_worktree(pid, "zeta", "mid"));
    assert_eq!(state.projects[i].worktree_order, vec!["alpha".to_string(), "mid".to_string(), "zeta".to_string()]);
    assert!(state.reorder_worktree(pid, "mid", "trunk"));
    assert_eq!(state.projects[i].worktree_order, vec!["mid".to_string(), "alpha".to_string(), "zeta".to_string()]);
    assert!(!state.reorder_worktree(pid, "trunk", "mid"));
    assert!(!state.reorder_worktree(pid, "mid", "mid"));
    assert!(!state.reorder_worktree(pid, "nope", "mid"));
}

#[test]
fn split_then_close_panel() {
    let mut state = state_with_loose(1);
    assert_eq!(state.split(Axis::Horizontal, PanelId(2)), Some(PanelId(2)));
    let tab = &state.tabs[0];
    assert_eq!(tab.active_panel, PanelId(2));
    assert_eq!(
        tab.panels,
        PanelNode::Horizontal(Box::new(PanelNode::Leaf(PanelId(100))), Box::new(PanelNode::Leaf(PanelId(2))))
    );
    state.close_active_panel(&vec![]);
    assert_eq!(state.tabs[0].panels, PanelNode::Leaf(PanelId(100)));
    assert_eq!(state.tabs[0].active_panel, PanelId(100));
    state.close_active_panel(&vec![]);
    assert_eq!(state.tabs[0].panels, PanelNode::Leaf(PanelId(100)));
}

#[test]
fn split_without_tab_does_nothing() {
    let mut state = state_with_loose(0);
    assert_eq!(state.split(Axis::Vertical, PanelId(1)), None);
}

#[test]
fn navigate_and_close_all_except_active() {
    let mut state = state_with_loose(1);
    state.split(Axis::Horizontal, PanelId(2));
    state.split(Axis::Vertical, PanelId(3));
    state.navigate(NavDirection::Left, &vec![]);
    assert_eq!(state.tabs[0].active_panel, PanelId(100));
    state.navigate(NavDirection::Left, &vec![]);
    assert_eq!(state.tabs[0].active_panel, PanelId(100));
    state.navigate(NavDirection::Right, &vec![]);
    assert_eq!(state.tabs[0].active_panel, PanelId(2));
    state.close_all_except_active();
    let active = state.tabs[0].active_panel;
    assert_eq!(state.tabs[0].panels, PanelNode::Leaf(active));
}

#[test]
fn new_then_close_tab_gives_tabs_back() {
    let mut state = state_with_loose(2);
    state.switch_to_tab(TabId(1));
    let before = tab_ids(&state);
    state.new_tab_with(TabId(9), PanelId(9), None, None, None);
    state.close_active_tab();
    assert_eq!(tab_ids(&state), before);
}

#[test]
fn switching_panel_takes_its_title() {
    let mut state = state_with_loose(1);
    state.split(Axis::Horizontal, PanelId(2));
    let titles = vec![(PanelId(100), "htop".to_string()), (PanelId(2), String::new())];
    state.navigate(NavDirection::Left, &titles);
    assert_eq!(state.tabs[0].active_panel, PanelId(100));
    assert_eq!(state.tabs[0].title, "htop");
    state.navigate(NavDirection::Right, &titles);
    assert_eq!(state.tabs[0].active_panel, PanelId(2));
    assert_eq!(state.tabs[0].title, "htop");
    state.close_active_panel(&vec![(PanelId(100), "vim".to_string())]);
    assert_eq!(state.tabs[0].active_panel, PanelId(100));
    assert_eq!(state.tabs[0].title, "vim");
}

#[test]
fn grid_split_makes_four_panels() {
    let mut state = state_with_loose(1);
    state.split(Axis::Horizontal, PanelId(2));
    state.navigate(NavDirection::Left, &vec![]);
    assert_eq!(state.split_grid(PanelId(5), PanelId(6), PanelId(7)), Some((PanelId(5), PanelId(6), PanelId(7))));
    let tab = &state.tabs[0];
    assert_eq!(tab.active_panel, PanelId(100));
    let order: Vec<u64> = tab.panels.leaves().iter().map(|p| p.0).collect();
    assert_eq!(order, vec![100, 5, 6, 7, 2]);
    assert_eq!(
        tab.panels,
        PanelNode::Horizontal(
            Box::new(PanelNode::Vertical(
                Box::new(PanelNode::Horizontal(Box::new(PanelNode::Leaf(PanelId(100))), Box::new(PanelNode::Leaf(PanelId(5))))),
                Box::new(PanelNode::Horizontal(Box::new(PanelNode::Leaf(PanelId(6))), Box::new(PanelNode::Leaf(PanelId(7))))),
            )),
            Box::new(PanelNode::Leaf(PanelId(2))),
        )
    );
    let mut empty = state_with_loose(0);
    assert_eq!(empty.split_grid(PanelId(1), PanelId(2), PanelId(3)), None);
}

#[test]
fn prev_after_next_returns() {
    let (mut state, pid) = repo_state();
    state.new_tab_with(TabId(1), PanelId(1), None, None, None);
    state.new_tab_with(TabId(2), PanelId(2), Some(pid), None, None);
    state.new_tab_with(TabId(3), PanelId(3), None, None, None);
    for start in [1usize, 2, 3] {
        state.switch_to_tab(TabId(start));
        state.next_tab();
        assert_ne!(state.tabs[state.active_tab].id, TabId(start));
        state.prev_tab();
        assert_eq!(state.tabs[state.active_tab].id, TabId(start));
    }
}

#[test]
fn prev_after_next_skips_collapsed_projects() {
    let (mut state, pid) = repo_state();
    state.new_tab_with(TabId(1), PanelId(1), Some(pid), None, None);
    state.new_tab_with(TabId(2), PanelId(2), None, None, None);
    state.new_tab_with(TabId(3), PanelId(3), None, None, None);
    let i = state.project_index(pid).unwrap();
    state.projects[i].collapsed = true;
    for start in [2usize, 3] {
        state.switch_to_tab(TabId(start));
        state.next_tab();
        state.prev_tab();
        assert_eq!(state.tabs[state.active_tab].id, TabId(start));
    }
}
