use marcterm::git::{DiffStats, ProjectInfo, Worktree};
use marcterm::panels::{Axis, PanelId};
use marcterm::state::{AppState, ProjectId, TabId};

fn wt(name: &str, is_main: bool) -> Worktree {
    Worktree {
        name: name.to_string(),
        path: format!("/p/{name}"),
        is_main,
        branch: Some(name.to_string()),
        diff: None,
        last_commit: None,
    }
}

fn with_project() -> (AppState, ProjectId) {
    let mut state = AppState::new("sh".to_string(), 3);
    let pid = state.add_project(ProjectInfo::from_main("/p/trunk".to_string()), ProjectId(1), vec!["old".to_string()], vec![]);
    (state, pid)
}

#[test]
fn panel_title_only_from_active_panel() {
    let mut state = AppState::new("sh".to_string(), 3);
    state.new_tab_with(TabId(1), PanelId(1), None, None, None);
    state.split(Axis::Horizontal, PanelId(2));
    state.set_panel_title(TabId(1), PanelId(1), "htop".to_string());
    assert_eq!(state.tabs[0].title, "Terminal 1");
    state.set_panel_title(TabId(1), PanelId(2), "vim".to_string());
    assert_eq!(state.tabs[0].title, "vim");
    state.set_panel_title(TabId(1), PanelId(2), String::new());
    assert_eq!(state.tabs[0].title, "vim");
    state.set_panel_title(TabId(9), PanelId(2), "x".to_string());
    assert_eq!(state.tabs[0].title, "vim");
}

#[test]
fn outputting_flag_follows_calls() {
    let mut state = AppState::new("sh".to_string(), 3);
    state.new_tab_with(TabId(1), PanelId(1), None, None, None);
    state.set_outputting(TabId(1), true);
    assert!(state.tabs[0].outputting);
    state.set_outputting(TabId(1), false);
    assert!(!state.tabs[0].outputting);
}

#[test]
fn plain_tab_cwd_choices() {
    let (mut state, pid) = with_project();
    assert_eq!(state.plain_tab_cwd(Some(pid), Some("/x".to_string())).as_deref(), Some("/p/trunk"));
    assert_eq!(state.plain_tab_cwd(None, Some("/x".to_string())).as_deref(), Some("/x"));
    state.new_tab_with(TabId(1), PanelId(1), Some(pid), None, None);
    assert_eq!(state.plain_tab_cwd(Some(pid), Some("/x".to_string())).as_deref(), Some("/x"));
    assert_eq!(state.plain_tab_cwd(Some(pid), None).as_deref(), Some("/p/trunk"));
    assert_eq!(state.plain_tab_cwd(Some(ProjectId(5)), Some("/x".to_string())), None);
}

#[test]
fn first_tab_of_project() {
    let (mut state, pid) = with_project();
    assert_eq!(state.first_tab_of(pid), None);
    state.new_tab_with(TabId(1), PanelId(1), None, None, None);
    state.new_tab_with(TabId(2), PanelId(2), Some(pid), None, None);
    state.new_tab_with(TabId(3), PanelId(3), Some(pid), None, None);
    assert_eq!(state.first_tab_of(pid), Some(TabId(2)));
}

#[test]
fn refresh_request_skips_hidden_rows() {
    let (mut state, pid) = with_project();
    let q = state.refresh_request(pid).unwrap();
    assert_eq!(q.main, "/p/trunk");
    assert_eq!(q.skip_diffs, vec!["old".to_string()]);
    assert!(!q.skip_all_diffs);
    state.toggle_show_archived(pid);
    let i = state.project_index(pid).unwrap();
    state.projects[i].collapsed = true;
    let q = state.refresh_request(pid).unwrap();
    assert!(q.skip_diffs.is_empty());
    assert!(q.skip_all_diffs);
    assert!(state.refresh_request(ProjectId(9)).is_none());
}

#[test]
fn apply_refresh_writes_only_changes() {
    let (mut state, pid) = with_project();
    let listing = vec![wt("trunk", true), wt("feat", false)];
    assert!(state.apply_refresh(pid, Ok(listing.clone())));
    assert_eq!(state.project(pid).unwrap().worktrees, listing);
    assert!(!state.apply_refresh(pid, Ok(listing.clone())));
    let mut changed = listing.clone();
    changed[1].diff = Some(DiffStats { added: 1, removed: 2 });
    assert!(state.apply_refresh(pid, Ok(changed.clone())));
    assert_eq!(state.project(pid).unwrap().worktrees, changed);
    assert!(!state.apply_refresh(ProjectId(9), Ok(listing)));
    assert!(!state.apply_refresh(pid, Err("not a repository".to_string())));
    assert_eq!(state.notice.as_deref(), Some("not a repository"));
    assert_eq!(state.project(pid).unwrap().worktrees, changed);
}
