use marcterm::config::Startup;
use marcterm::git::{attach_status, diff_wanted, dir_name, DiffStats, ProjectInfo, Worktree};
use marcterm::paths::{file_name_of, last_segment_start, parent_of};
use marcterm::text::{push_decimal, same_text, text_le_str};

fn wt(name: &str, branch: Option<&str>) -> Worktree {
    Worktree {
        name: name.to_string(),
        path: format!("/r/{name}"),
        is_main: false,
        branch: branch.map(|b| b.to_string()),
        diff: None,
        last_commit: None,
    }
}

#[test]
fn diff_stats_clean_only_without_changes() {
    assert!(DiffStats { added: 0, removed: 0 }.is_clean());
    assert!(!DiffStats { added: 1, removed: 0 }.is_clean());
    assert!(!DiffStats { added: 0, removed: 3 }.is_clean());
}

#[test]
fn branch_prefix_stops_at_separator() {
    assert_eq!(wt("feat/lalala", None).branch_prefix(), "feat");
    assert_eq!(wt("fix-bug", None).branch_prefix(), "fix");
    assert_eq!(wt("my_branch", None).branch_prefix(), "my");
    assert_eq!(wt("main", None).branch_prefix(), "main");
    assert_eq!(wt("", None).branch_prefix(), "");
}

#[test]
fn placeholder_is_named_after_directory() {
    let w = Worktree::placeholder("/home/me/feat-login".to_string());
    assert_eq!(w.name, "feat-login");
    assert_eq!(w.path, "/home/me/feat-login");
    assert!(!w.is_main);
    assert!(w.branch.is_none() && w.diff.is_none() && w.last_commit.is_none());
}

#[test]
fn project_info_of_marcgit_trunk() {
    let info = ProjectInfo::from_main("/home/me/lifecycle/trunk".to_string());
    assert_eq!(info.root, "/home/me/lifecycle");
    assert_eq!(info.main, "/home/me/lifecycle/trunk");
    assert_eq!(info.name, "lifecycle");
}

#[test]
fn project_info_of_plain_repo() {
    let info = ProjectInfo::from_main("/tmp/myrepo".to_string());
    assert_eq!(info.root, "/tmp/myrepo");
    assert_eq!(info.name, "myrepo");
    let slashed = ProjectInfo::from_main("/home/me/lifecycle/trunk/".to_string());
    assert_eq!(slashed.root, "/home/me/lifecycle");
    assert_eq!(slashed.name, "lifecycle");
    let top = ProjectInfo::from_main("/trunk".to_string());
    assert_eq!(top.root, "/");
    assert_eq!(top.name, "/");
}

#[test]
fn dir_name_falls_back_to_path() {
    assert_eq!(dir_name("/a/b/c"), "c");
    assert_eq!(dir_name("rel"), "rel");
    assert_eq!(dir_name("/"), "/");
    assert_eq!(dir_name("/a/.."), "/a/..");
    assert_eq!(dir_name(""), "");
    assert_eq!(dir_name("/a/b/"), "b");
    assert_eq!(dir_name("a/."), "a");
}

#[test]
fn diff_wanted_skips_hidden_rows() {
    let skip = vec!["old".to_string()];
    assert!(diff_wanted(&"new".to_string(), &skip, false));
    assert!(!diff_wanted(&"old".to_string(), &skip, false));
    assert!(!diff_wanted(&"new".to_string(), &skip, true));
}

#[test]
fn attach_status_fills_diffs_and_commit_times() {
    let ws = vec![wt("a", Some("feat/a")), wt("b", None), wt("c", Some("gone"))];
    let diffs = vec![Some(DiffStats { added: 2, removed: 1 }), None, Some(DiffStats { added: 0, removed: 0 })];
    let times = vec![("main".to_string(), 5u64), ("feat/a".to_string(), 1234u64)];
    let out = attach_status(ws, &diffs, &times);
    assert_eq!(out.len(), 3);
    assert_eq!(out[0].diff, Some(DiffStats { added: 2, removed: 1 }));
    assert_eq!(out[0].last_commit, Some(1234));
    assert_eq!(out[1].diff, None);
    assert_eq!(out[1].last_commit, None);
    assert_eq!(out[2].last_commit, None);
    assert_eq!(out[2].name, "c");
}

#[test]
fn worktree_clone_is_equal() {
    let w = wt("a", Some("x"));
    assert_eq!(w.clone(), w);
}

#[test]
fn path_parts() {
    assert_eq!(last_segment_start("/a/bc"), 3);
    assert_eq!(last_segment_start("abc"), 0);
    assert_eq!(file_name_of("/a/bc").as_deref(), Some("bc"));
    assert_eq!(file_name_of("/"), None);
    assert_eq!(file_name_of("a/.").as_deref(), Some("a"));
    assert_eq!(file_name_of("/a/b/").as_deref(), Some("b"));
    assert_eq!(file_name_of("/a/b//./"), Some("b".to_string()));
    assert_eq!(file_name_of("."), None);
    assert_eq!(file_name_of("./"), None);
    assert_eq!(file_name_of("/."), None);
    assert_eq!(file_name_of("a/.."), None);
    assert_eq!(last_segment_start("/a/bc/"), 3);
    assert_eq!(parent_of("/a//trunk"), "/a");
    assert_eq!(parent_of("/a/trunk/"), "/a");
    assert_eq!(parent_of("/./trunk"), "/");
    assert_eq!(parent_of("./trunk"), ".");
    assert_eq!(parent_of("/a/bc"), "/a");
    assert_eq!(parent_of("/bc"), "/");
    assert_eq!(parent_of("bc"), "");
}

#[test]
fn decimal_digits() {
    let mut s = String::from("n=");
    push_decimal(&mut s, 0);
    assert_eq!(s, "n=0");
    let mut t = String::new();
    push_decimal(&mut t, 18_446_744_073_709_551_615);
    assert_eq!(t, "18446744073709551615");
    let mut u = String::new();
    push_decimal(&mut u, 1203);
    assert_eq!(u, "1203");
}

#[test]
fn text_order_is_string_order() {
    let words = ["", "a", "ab", "b", "B", "é", "a b"];
    for x in words {
        for y in words {
            assert_eq!(text_le_str(x, y), x <= y, "{x:?} <= {y:?}");
        }
    }
    assert!(same_text("abc", "abc"));
    assert!(!same_text("abc", "abd"));
    assert!(!same_text("ab", "abc"));
}

#[test]
fn startup_names() {
    assert_eq!(Startup::from_name("welcome"), Some(Startup::Welcome));
    assert_eq!(Startup::from_name("restore-last"), Some(Startup::RestoreLast));
    assert_eq!(Startup::from_name("fresh"), Some(Startup::Fresh));
    assert_eq!(Startup::from_name("Fresh"), None);
    assert_eq!(Startup::from_name(""), None);
    assert_eq!(Startup::default(), Startup::Welcome);
}

use marcterm::display::{expand_home, format_age};
use marcterm::panels::NavDirection;
use marcterm::shortcuts::{command, reserved_for_app, resolve, KeyCode, KeyPress, LogicalKey, Modifiers, NamedKey, Shortcut};

fn mods(control: bool, shift: bool, alt: bool, meta: bool) -> Modifiers {
    Modifiers { control, shift, alt, meta }
}

fn typed(c: &str, code: KeyCode, m: Modifiers) -> KeyPress {
    KeyPress { key: LogicalKey::Character(c.to_string()), code, modifiers: m }
}

fn named(k: NamedKey, m: Modifiers) -> KeyPress {
    KeyPress { key: LogicalKey::Named(k), code: KeyCode::Other, modifiers: m }
}

#[test]
fn shortcuts_on_linux() {
    let none = mods(false, false, false, false);
    let ctrl = mods(true, false, false, false);
    let ctrl_shift = mods(true, true, false, false);
    let alt = mods(false, false, true, false);
    assert_eq!(resolve(&named(NamedKey::Tab, ctrl), false), Some(Shortcut::NextTab));
    assert_eq!(resolve(&named(NamedKey::Tab, ctrl_shift), false), Some(Shortcut::PrevTab));
    assert_eq!(resolve(&named(NamedKey::Tab, none), false), None);
    assert_eq!(resolve(&named(NamedKey::ArrowUp, alt), false), Some(Shortcut::Navigate(NavDirection::Up)));
    assert_eq!(resolve(&named(NamedKey::ArrowLeft, ctrl), false), None);
    assert_eq!(resolve(&typed("P", KeyCode::Other, alt), false), Some(Shortcut::SplitVertical));
    assert_eq!(resolve(&typed("=", KeyCode::Other, alt), false), Some(Shortcut::SplitHorizontal));
    assert_eq!(resolve(&typed("-", KeyCode::Other, alt), false), Some(Shortcut::ClosePanel));
    assert_eq!(resolve(&typed("1", KeyCode::Other, alt), false), Some(Shortcut::CloseOtherPanels));
    assert_eq!(resolve(&typed("b", KeyCode::Other, alt), false), Some(Shortcut::ToggleSidebar));
    assert_eq!(resolve(&typed("T", KeyCode::Other, ctrl_shift), false), Some(Shortcut::NewTab));
    assert_eq!(resolve(&typed("w", KeyCode::Other, ctrl_shift), false), Some(Shortcut::CloseTab));
    assert_eq!(resolve(&typed("O", KeyCode::Other, ctrl_shift), false), Some(Shortcut::AddProject));
    assert_eq!(resolve(&typed("C", KeyCode::Other, ctrl_shift), false), Some(Shortcut::Copy));
    assert_eq!(resolve(&typed("V", KeyCode::Other, ctrl_shift), false), Some(Shortcut::Paste));
    // plain Ctrl+T belongs to the shell
    assert_eq!(resolve(&typed("t", KeyCode::Other, ctrl), false), None);
    assert_eq!(resolve(&typed("+", KeyCode::Other, ctrl), false), Some(Shortcut::IncreaseFontSize));
    assert_eq!(resolve(&typed("-", KeyCode::Other, ctrl_shift), false), Some(Shortcut::DecreaseFontSize));
    assert_eq!(resolve(&typed("x", KeyCode::Other, alt), false), None);
    assert_eq!(resolve(&KeyPress { key: LogicalKey::Unidentified, code: KeyCode::KeyP, modifiers: alt }, false), None);
}

#[test]
fn shortcuts_on_mac() {
    let cmd = mods(false, false, false, true);
    let option = mods(false, false, true, false);
    assert_eq!(resolve(&typed("π", KeyCode::KeyP, option), true), Some(Shortcut::SplitVertical));
    assert_eq!(resolve(&typed("≠", KeyCode::Equal, option), true), Some(Shortcut::SplitHorizontal));
    assert_eq!(resolve(&typed("p", KeyCode::Other, option), true), None);
    assert_eq!(resolve(&typed("t", KeyCode::Other, cmd), true), Some(Shortcut::NewTab));
    assert_eq!(resolve(&typed("=", KeyCode::Other, cmd), true), Some(Shortcut::IncreaseFontSize));
    assert_eq!(resolve(&typed("t", KeyCode::Other, mods(true, true, false, false)), true), None);
    assert!(command(cmd, true));
    assert!(!command(cmd, false));
    assert!(reserved_for_app(cmd, true));
    assert!(!reserved_for_app(cmd, false));
}

#[test]
fn age_labels() {
    assert_eq!(format_age(0), "now");
    assert_eq!(format_age(59), "now");
    assert_eq!(format_age(60), "1m");
    assert_eq!(format_age(3599), "59m");
    assert_eq!(format_age(3600), "1h");
    assert_eq!(format_age(86_399), "23h");
    assert_eq!(format_age(86_400 * 3), "3d");
    assert_eq!(format_age(604_800 * 2 + 5), "2w");
}

#[test]
fn home_expansion() {
    let home = Some("/home/me".to_string());
    assert_eq!(expand_home("~", home.clone()), "/home/me");
    assert_eq!(expand_home("~/src/x", home.clone()), "/home/me/src/x");
    assert_eq!(expand_home("~/", home.clone()), "/home/me/");
    assert_eq!(expand_home("/abs", home.clone()), "/abs");
    assert_eq!(expand_home("~other", home.clone()), "~other");
    assert_eq!(expand_home("~/x", Some("/".to_string())), "/x");
    assert_eq!(expand_home("~/x", None), "~/x");
    assert_eq!(expand_home("~", None), "~");
}

use marcterm::display::{group_identity, GroupTarget};
use marcterm::state::ProjectId;
use marcterm::terminal::TerminalCommand;

#[test]
fn group_identities() {
    assert_eq!(group_identity(GroupTarget::Worktrees(ProjectId(3)), "feat"), "group-worktrees-3-feat");
    assert_eq!(group_identity(GroupTarget::Tabs(Some(ProjectId(12))), "x"), "group-tabs-12-x");
    assert_eq!(group_identity(GroupTarget::Tabs(None), "misc"), "group-loose-misc");
}

#[test]
fn shell_command_on_host() {
    let cmd = TerminalCommand::for_shell("zsh", Some("/home/me".to_string()), false);
    assert_eq!(cmd.program, "zsh");
    assert!(cmd.args.is_empty());
    assert_eq!(
        cmd.env,
        vec![
            ("TERM".to_string(), "xterm-256color".to_string()),
            ("COLORTERM".to_string(), "truecolor".to_string()),
            ("LANG".to_string(), "en_GB.UTF-8".to_string()),
        ]
    );
    assert_eq!(cmd.cwd.as_deref(), Some("/home/me"));
    assert!(cmd.controlling_tty);
}

#[test]
fn shell_command_in_flatpak() {
    let cmd = TerminalCommand::for_shell("/bin/bash", Some("/w".to_string()), true);
    assert_eq!(cmd.program, "flatpak-spawn");
    assert_eq!(
        cmd.args,
        vec![
            "--host",
            "--watch-bus",
            "--env=TERM=xterm-256color",
            "--env=COLORTERM=truecolor",
            "--env=LANG=en_GB.UTF-8",
            "--directory=/w",
            "/bin/bash",
        ]
    );
    assert!(cmd.env.is_empty());
    assert!(cmd.cwd.is_none());
    assert!(!cmd.controlling_tty);
    let bare = TerminalCommand::for_shell("sh", None, true);
    assert_eq!(bare.args.len(), 6);
    assert_eq!(bare.args[5], "sh");
}

#[test]
fn alt_four_splits_into_grid() {
    let alt = mods(false, false, true, false);
    assert_eq!(resolve(&typed("4", KeyCode::Other, alt), false), Some(Shortcut::SplitGrid));
    assert_eq!(resolve(&typed("¢", KeyCode::Digit4, alt), true), Some(Shortcut::SplitGrid));
    assert_eq!(resolve(&typed("4", KeyCode::Other, mods(false, false, false, false)), false), None);
}
