use marcterm::panels::{PanelId, PanelNode};
use marcterm::session::{
    PanelLayout, ProjectPrefs, RecentProject, Session, SessionProject, SessionTab, Timestamp,
    WorktreeGroup,
};
use marcterm::state::{AppState, ProjectId, TabId};
use marcterm::git::ProjectInfo;

fn leaf(cwd: Option<&str>) -> PanelLayout {
    PanelLayout::Leaf { cwd: cwd.map(|c| c.to_string()) }
}

fn saved_tab(worktree: Option<&str>, title: Option<&str>) -> SessionTab {
    SessionTab {
        worktree: worktree.map(|w| w.to_string()),
        custom_title: title.map(|t| t.to_string()),
        group: None,
        layout: leaf(worktree),
        active_leaf: 0,
    }
}

fn session(started_at: u64, projects: Vec<SessionProject>, loose: Vec<SessionTab>, active: usize) -> Session {
    Session { started_at, saved_at: started_at + 5, projects, loose_tabs: loose, active_tab: active }
}

fn project(root: &str, tabs: Vec<SessionTab>) -> SessionProject {
    SessionProject { root: root.to_string(), tabs }
}

fn loose_only(started_at: u64, n: usize) -> Session {
    let tabs = (0..n).map(|_| saved_tab(None, None)).collect();
    session(started_at, vec![], tabs, 0)
}

#[test]
fn empty_session_is_empty() {
    assert!(session(1, vec![], vec![], 0).is_empty());
    assert!(!loose_only(1, 1).is_empty());
    assert!(!session(1, vec![project("/p", vec![])], vec![], 0).is_empty());
}

#[test]
fn content_eq_ignores_times() {
    let a = loose_only(1, 2);
    let mut b = loose_only(9, 2);
    b.saved_at = 100;
    assert!(a.content_eq(&b));
    b.active_tab = 1;
    assert!(!a.content_eq(&b));
    let c = loose_only(1, 3);
    assert!(!a.content_eq(&c));
}

#[test]
fn load_all_drops_empty_and_caps_at_seven() {
    assert!(Session::load_all(None).is_empty());
    let mut stored = vec![session(100, vec![], vec![], 0)];
    for i in 0..9 {
        stored.push(loose_only(i, 1));
    }
    let loaded = Session::load_all(Some(stored));
    assert_eq!(loaded.len(), 7);
    let starts: Vec<u64> = loaded.iter().map(|s| s.started_at).collect();
    assert_eq!(starts, vec![0, 1, 2, 3, 4, 5, 6]);
}

#[test]
fn remove_drops_the_run() {
    let stored = vec![loose_only(1, 1), loose_only(2, 1), loose_only(1, 2)];
    let left = Session::remove(Some(stored), 1);
    assert_eq!(left.len(), 1);
    assert_eq!(left[0].started_at, 2);
}

#[test]
fn save_as_current_puts_run_first() {
    let stored = vec![loose_only(1, 1), loose_only(2, 2), loose_only(3, 3)];
    let current = loose_only(3, 4);
    let saved = current.save_as_current(Some(stored)).unwrap();
    let starts: Vec<u64> = saved.iter().map(|s| s.started_at).collect();
    assert_eq!(starts, vec![3, 1, 2]);
    assert_eq!(saved[0], current);
}

#[test]
fn save_as_current_replaces_same_content() {
    let stored = vec![loose_only(1, 2), loose_only(2, 3)];
    let current = loose_only(5, 2);
    let saved = current.save_as_current(Some(stored)).unwrap();
    let starts: Vec<u64> = saved.iter().map(|s| s.started_at).collect();
    assert_eq!(starts, vec![5, 2]);
}

#[test]
fn save_as_current_caps_ring() {
    let stored: Vec<Session> = (0..7).map(|i| loose_only(i, (i + 1) as usize)).collect();
    let current = loose_only(50, 20);
    let saved = current.save_as_current(Some(stored)).unwrap();
    assert_eq!(saved.len(), 7);
    assert_eq!(saved[0].started_at, 50);
    assert_eq!(saved[6].started_at, 5);
}

#[test]
fn save_as_current_of_empty_writes_nothing() {
    let empty = session(3, vec![], vec![], 0);
    assert!(empty.save_as_current(Some(vec![loose_only(1, 1)])).is_none());
}

#[test]
fn autosave_due_when_changed() {
    let a = loose_only(1, 2);
    assert!(a.autosave_due(&None));
    assert!(!a.autosave_due(&Some(loose_only(1, 2))));
    assert!(a.autosave_due(&Some(loose_only(1, 3))));
    assert!(!session(1, vec![], vec![], 0).autosave_due(&None));
}

#[test]
fn summary_formats() {
    let s = session(
        1,
        vec![project("/home/me/alpha", vec![saved_tab(None, None)]), project("/work/beta", vec![])],
        vec![saved_tab(None, None)],
        0,
    );
    assert_eq!(s.summary(), "alpha, beta · 2 terminals");
    assert_eq!(loose_only(1, 1).summary(), "1 terminal");
    assert_eq!(loose_only(1, 0).summary(), "0 terminals");
    let names_only = session(1, vec![project("/x/gamma", vec![])], vec![], 0);
    assert_eq!(names_only.summary(), "gamma");
}

#[test]
fn without_inactive_worktrees_keeps_active_and_plain() {
    let s = session(
        1,
        vec![project(
            "/p",
            vec![saved_tab(Some("/p/a"), None), saved_tab(None, Some("plain")), saved_tab(Some("/p/b"), None)],
        )],
        vec![saved_tab(Some("/q"), None), saved_tab(None, None)],
        2,
    );
    let pruned = s.without_inactive_worktrees();
    assert_eq!(pruned.projects[0].tabs.len(), 2);
    assert_eq!(pruned.projects[0].tabs[0].custom_title.as_deref(), Some("plain"));
    assert_eq!(pruned.projects[0].tabs[1].worktree.as_deref(), Some("/p/b"));
    assert_eq!(pruned.loose_tabs.len(), 1);
    assert!(pruned.loose_tabs[0].worktree.is_none());
    assert_eq!(pruned.active_tab, 1);
    assert_eq!(pruned.started_at, 1);
}

#[test]
fn recent_projects_touch_moves_to_front() {
    let stored = vec![
        RecentProject { root: "/a".to_string() },
        RecentProject { root: "/b".to_string() },
        RecentProject { root: "/c".to_string() },
    ];
    let touched = RecentProject::touch(Some(stored), &"/b".to_string());
    let roots: Vec<&str> = touched.iter().map(|p| p.root.as_str()).collect();
    assert_eq!(roots, vec!["/b", "/a", "/c"]);
}

#[test]
fn recent_projects_touch_many_in_order_and_capped() {
    let stored: Vec<RecentProject> = (0..7).map(|i| RecentProject { root: format!("/old{i}") }).collect();
    let roots = vec!["/new1".to_string(), "/old3".to_string(), "/new2".to_string()];
    let touched = RecentProject::touch_many(Some(stored), &roots);
    let got: Vec<&str> = touched.iter().map(|p| p.root.as_str()).collect();
    assert_eq!(got, vec!["/new1", "/old3", "/new2", "/old0", "/old1", "/old2", "/old4"]);
}

#[test]
fn recent_projects_load_and_remove() {
    assert!(RecentProject::load_all(None).is_empty());
    let stored = vec![
        RecentProject { root: "/a".to_string() },
        RecentProject { root: "/b".to_string() },
    ];
    let left = RecentProject::remove(Some(stored), &"/a".to_string());
    assert_eq!(left, vec![RecentProject { root: "/b".to_string() }]);
}

#[test]
fn prefs_round_trip() {
    let root = "/repo".to_string();
    let archived = vec!["old".to_string()];
    let saved = ProjectPrefs::save_archived(None, &root, &archived);
    let order = vec!["b".to_string(), "a".to_string()];
    let saved = ProjectPrefs::save_order(Some(saved), &root, &order);
    let groups = vec![WorktreeGroup { name: "g".to_string(), members: vec!["a".to_string()], collapsed: true }];
    let saved = ProjectPrefs::save_groups(Some(saved), &root, &groups);
    let loaded = ProjectPrefs::load(Some(saved), &root);
    assert_eq!(loaded.root, root);
    assert_eq!(loaded.archived, archived);
    assert_eq!(loaded.order, order);
    assert_eq!(loaded.groups, groups);
}

#[test]
fn prefs_empty_entry_is_dropped() {
    let root = "/repo".to_string();
    let saved = ProjectPrefs::save_archived(None, &root, &vec!["x".to_string()]);
    assert_eq!(saved.len(), 1);
    let saved = ProjectPrefs::save_archived(Some(saved), &root, &vec![]);
    assert!(saved.is_empty());
    let loaded = ProjectPrefs::load(Some(saved), &root);
    assert!(loaded.archived.is_empty() && loaded.order.is_empty() && loaded.groups.is_empty());
}

#[test]
fn prefs_other_roots_kept() {
    let a = "/a".to_string();
    let b = "/b".to_string();
    let saved = ProjectPrefs::save_order(None, &a, &vec!["x".to_string()]);
    let saved = ProjectPrefs::save_order(Some(saved), &b, &vec!["y".to_string()]);
    let saved = ProjectPrefs::save_archived(Some(saved), &a, &vec!["z".to_string()]);
    assert_eq!(saved.len(), 2);
    assert_eq!(saved[0].root, "/b");
    assert_eq!(saved[1].root, "/a");
    assert_eq!(saved[1].order, vec!["x".to_string()]);
    assert_eq!(saved[1].archived, vec!["z".to_string()]);
}

#[test]
fn ago_formats() {
    assert_eq!(Timestamp::ago(1000, 1000), "just now");
    assert_eq!(Timestamp::ago(1000, 941), "just now");
    assert_eq!(Timestamp::ago(1000, 2000), "just now");
    assert_eq!(Timestamp::ago(1000, 940), "1m ago");
    assert_eq!(Timestamp::ago(10_000, 10_000 - 3599), "59m ago");
    assert_eq!(Timestamp::ago(10_000, 10_000 - 7200), "2h ago");
    assert_eq!(Timestamp::ago(1_000_000, 1_000_000 - 86_400 * 3 - 5), "3d ago");
}

#[test]
fn capture_layout_reads_cwds() {
    let tree = PanelNode::Horizontal(
        Box::new(PanelNode::Leaf(PanelId(1))),
        Box::new(PanelNode::Vertical(Box::new(PanelNode::Leaf(PanelId(2))), Box::new(PanelNode::Leaf(PanelId(3))))),
    );
    let cwds = vec![(PanelId(2), Some("/two".to_string())), (PanelId(1), None), (PanelId(3), Some("/three".to_string()))];
    let layout = PanelLayout::capture(&tree, &cwds);
    assert_eq!(
        layout,
        PanelLayout::Horizontal(
            Box::new(leaf(None)),
            Box::new(PanelLayout::Vertical(Box::new(leaf(Some("/two"))), Box::new(leaf(Some("/three"))))),
        )
    );
}

#[test]
fn capture_session_orders_projects_then_loose() {
    let mut state = AppState::new("bash".to_string(), 77);
    let info = ProjectInfo::from_main("/src/proj".to_string());
    let pid = state.add_project(info, ProjectId(1), vec![], vec![]);
    state.new_tab_with(TabId(1), PanelId(10), None, None, None);
    state.new_tab_with(TabId(2), PanelId(20), Some(pid), Some("/src/proj".to_string()), None);
    state.new_tab_with(TabId(3), PanelId(30), None, None, None);
    state.switch_to_tab(TabId(3));
    let s = Session::capture(&state, &vec![(PanelId(20), Some("/src/proj".to_string()))], 500);
    assert_eq!(s.started_at, 77);
    assert_eq!(s.saved_at, 500);
    assert_eq!(s.projects.len(), 1);
    assert_eq!(s.projects[0].root, "/src/proj");
    assert_eq!(s.projects[0].tabs.len(), 1);
    assert_eq!(s.projects[0].tabs[0].worktree.as_deref(), Some("/src/proj"));
    assert_eq!(s.projects[0].tabs[0].layout, leaf(Some("/src/proj")));
    assert_eq!(s.loose_tabs.len(), 2);
    assert_eq!(s.active_tab, 2);
}

#[test]
fn capture_tab_records_active_leaf() {
    let mut state = AppState::new("bash".to_string(), 1);
    state.new_tab_with(TabId(1), PanelId(1), None, None, None);
    state.split(marcterm::panels::Axis::Vertical, PanelId(2));
    let tab = state.active_tab().unwrap();
    let saved = SessionTab::capture(tab, &vec![]);
    assert_eq!(saved.active_leaf, 1);
    assert_eq!(saved.layout, PanelLayout::Vertical(Box::new(leaf(None)), Box::new(leaf(None))));
}

#[test]
fn save_then_load_gives_session_first() {
    let stored = vec![loose_only(1, 1), loose_only(2, 2)];
    let current = loose_only(9, 3);
    let written = current.save_as_current(Some(stored)).unwrap();
    let loaded = Session::load_all(Some(written));
    assert_eq!(loaded[0], current);
}

#[test]
fn pruning_twice_is_pruning_once() {
    let s = session(
        1,
        vec![project("/p", vec![saved_tab(Some("/p/a"), None), saved_tab(None, Some("plain")), saved_tab(Some("/p/b"), None)])],
        vec![saved_tab(Some("/q"), None), saved_tab(None, None)],
        2,
    );
    let once = s.without_inactive_worktrees();
    assert_eq!(once.without_inactive_worktrees(), once);
    let mut past = s;
    past.active_tab = 9;
    let once = past.without_inactive_worktrees();
    assert_eq!(once.active_tab, 6);
    assert_eq!(once.without_inactive_worktrees(), once);
}

#[test]
fn pruning_never_adds_tabs() {
    let s = session(1, vec![project("/p", vec![saved_tab(Some("/p/a"), None)])], vec![saved_tab(None, None)], 0);
    let once = s.without_inactive_worktrees();
    assert_eq!(once.projects[0].tabs.len() + once.loose_tabs.len(), 2);
    let none_shown = session(1, vec![project("/p", vec![saved_tab(Some("/p/a"), None)])], vec![saved_tab(None, None)], 1);
    let pruned = none_shown.without_inactive_worktrees();
    assert_eq!(pruned.projects[0].tabs.len() + pruned.loose_tabs.len(), 1);
    assert_eq!(pruned.active_tab, 0);
}
