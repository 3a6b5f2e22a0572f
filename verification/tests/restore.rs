use marcterm::git::ProjectInfo;
use marcterm::panels::{PanelId, PanelNode};
use marcterm::restore::missing_projects_notice;
use marcterm::session::{PanelLayout, SessionTab};
use marcterm::state::{AppState, ProjectId, TabId};

fn leaf(cwd: Option<&str>) -> PanelLayout {
    PanelLayout::Leaf { cwd: cwd.map(|c| c.to_string()) }
}

fn layout() -> PanelLayout {
    PanelLayout::Horizontal(
        Box::new(leaf(Some("/a"))),
        Box::new(PanelLayout::Vertical(Box::new(leaf(None)), Box::new(leaf(Some("/c"))))),
    )
}

fn saved(worktree: Option<&str>, active_leaf: usize) -> SessionTab {
    SessionTab {
        worktree: worktree.map(|w| w.to_string()),
        custom_title: Some("saved".to_string()),
        group: Some("g".to_string()),
        layout: layout(),
        active_leaf,
    }
}

#[test]
fn leaf_cwds_in_panel_order() {
    assert_eq!(layout().leaf_cwds(), vec![Some("/a".to_string()), None, Some("/c".to_string())]);
}

#[test]
fn build_places_panels_in_order() {
    let tree = layout().build(&vec![PanelId(7), PanelId(8), PanelId(9)]);
    assert_eq!(
        tree,
        PanelNode::Horizontal(
            Box::new(PanelNode::Leaf(PanelId(7))),
            Box::new(PanelNode::Vertical(Box::new(PanelNode::Leaf(PanelId(8))), Box::new(PanelNode::Leaf(PanelId(9))))),
        )
    );
}

#[test]
fn capture_then_build_gives_tree_back() {
    let tree = PanelNode::Vertical(
        Box::new(PanelNode::Horizontal(Box::new(PanelNode::Leaf(PanelId(1))), Box::new(PanelNode::Leaf(PanelId(2))))),
        Box::new(PanelNode::Leaf(PanelId(3))),
    );
    let captured = PanelLayout::capture(&tree, &vec![(PanelId(2), Some("/two".to_string()))]);
    assert_eq!(captured.leaf_cwds(), vec![None, Some("/two".to_string()), None]);
    assert_eq!(captured.build(&tree.leaves()), tree);
}

#[test]
fn restore_tab_picks_saved_active_panel() {
    let mut state = AppState::new("sh".to_string(), 1);
    let panels = layout().build(&vec![PanelId(7), PanelId(8), PanelId(9)]);
    state.restore_tab(&saved(None, 2), None, TabId(4), panels);
    let tab = &state.tabs[0];
    assert_eq!(tab.id, TabId(4));
    assert_eq!(tab.title, "Terminal 4");
    assert_eq!(tab.custom_title.as_deref(), Some("saved"));
    assert_eq!(tab.active_panel, PanelId(9));
    assert!(tab.group.is_none());
    assert_eq!(state.active_tab, 0);
}

#[test]
fn restore_tab_falls_back_to_first_panel() {
    let mut state = AppState::new("sh".to_string(), 1);
    let panels = layout().build(&vec![PanelId(7), PanelId(8), PanelId(9)]);
    state.restore_tab(&saved(None, 5), None, TabId(1), panels);
    assert_eq!(state.tabs[0].active_panel, PanelId(7));
}

#[test]
fn should_restore_skips_gone_and_archived_worktrees() {
    let mut state = AppState::new("sh".to_string(), 1);
    let pid = state.add_project(ProjectInfo::from_main("/p/trunk".to_string()), ProjectId(3), vec!["old".to_string()], vec![]);
    assert!(state.should_restore(&saved(None, 0), Some(pid), false));
    assert!(state.should_restore(&saved(Some("/p/new"), 0), Some(pid), true));
    assert!(!state.should_restore(&saved(Some("/p/new"), 0), Some(pid), false));
    assert!(!state.should_restore(&saved(Some("/p/old"), 0), Some(pid), true));
    assert!(state.should_restore(&saved(Some("/p/old"), 0), None, true));
    assert!(state.should_restore(&saved(Some("/p/old"), 0), Some(ProjectId(99)), true));
}

#[test]
fn finish_restore_clamps_and_tells() {
    let mut state = AppState::new("sh".to_string(), 1);
    for i in 0..3u64 {
        let panels = layout().build(&vec![PanelId(i * 10), PanelId(i * 10 + 1), PanelId(i * 10 + 2)]);
        state.restore_tab(&saved(None, 1), None, TabId(i as usize), panels);
    }
    assert_eq!(state.finish_restore(9, 2), Some(PanelId(21)));
    assert_eq!(state.active_tab, 2);
    assert_eq!(state.notice.as_deref(), Some("2 projects from this session no longer exist"));
    assert_eq!(state.finish_restore(0, 0), Some(PanelId(1)));
    assert_eq!(state.active_tab, 0);
    assert_eq!(state.notice.as_deref(), Some("2 projects from this session no longer exist"));
}

#[test]
fn finish_restore_without_tabs() {
    let mut state = AppState::new("sh".to_string(), 1);
    assert_eq!(state.finish_restore(4, 0), None);
    assert_eq!(state.active_tab, 0);
    assert!(state.notice.is_none());
}

#[test]
fn missing_notice_text() {
    assert_eq!(missing_projects_notice(0), None);
    assert_eq!(missing_projects_notice(1).as_deref(), Some("1 project from this session no longer exist"));
    assert_eq!(missing_projects_notice(12).as_deref(), Some("12 projects from this session no longer exist"));
}

#[test]
fn capture_then_restore_shows_same_panel() {
    let mut state = AppState::new("sh".to_string(), 1);
    state.new_tab_with(TabId(1), PanelId(1), None, None, None);
    state.split(marcterm::panels::Axis::Horizontal, PanelId(2));
    state.split(marcterm::panels::Axis::Vertical, PanelId(3));
    state.navigate(marcterm::panels::NavDirection::Up, &vec![]);
    let tab = state.active_tab().unwrap();
    let shown = tab.active_panel;
    let saved = SessionTab::capture(tab, &vec![]);
    let ids = tab.panels.leaves();
    let panels = saved.layout.build(&ids);
    let mut other = AppState::new("sh".to_string(), 2);
    other.restore_tab(&saved, None, TabId(5), panels);
    assert_eq!(other.tabs[0].active_panel, shown);
    assert_eq!(shown, PanelId(2));
}
