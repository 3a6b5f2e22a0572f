//! Small texts the sidebar and the dialogs work with: the age of a tab's
//! last output, a typed path with `~` in it, and the identity of a group
//! row.
use vstd::prelude::*;

use crate::session::opt_text;
use crate::state::ProjectId;
use crate::text::{decimal, push_decimal, same_text};

verus! {

/// Compact elapsed time: "now" under a minute, then whole minutes, hours,
/// days or weeks with their unit letter.
pub open spec fn age_text(seconds: u64) -> Seq<char> {
    if seconds < 60 {
        seq!['n', 'o', 'w']
    } else if seconds < 3600 {
        decimal((seconds / 60) as nat) + seq!['m']
    } else if seconds < 86400 {
        decimal((seconds / 3600) as nat) + seq!['h']
    } else if seconds < 604800 {
        decimal((seconds / 86400) as nat) + seq!['d']
    } else {
        decimal((seconds / 604800) as nat) + seq!['w']
    }
}

/// How long ago a tab last printed output, as its sidebar row shows it:
/// "now", "5m", "1h", "3d" or "2w", from the seconds elapsed since.
pub fn format_age(seconds: u64) -> (r: String)
    ensures
        r@ == age_text(seconds),
{
    if seconds < 60 {
        proof {
            reveal_strlit("now");
        }
        let r = String::from_str("now");
        assert(r@ =~= seq!['n', 'o', 'w']);
        return r;
    }
    let mut r = String::new();
    proof {
        reveal_strlit("m");
        reveal_strlit("h");
        reveal_strlit("d");
        reveal_strlit("w");
    }
    if seconds < 3600 {
        push_decimal(&mut r, seconds / 60);
        r.append("m");
    } else if seconds < 86400 {
        push_decimal(&mut r, seconds / 3600);
        r.append("h");
    } else if seconds < 604800 {
        push_decimal(&mut r, seconds / 86400);
        r.append("d");
    } else {
        push_decimal(&mut r, seconds / 604800);
        r.append("w");
    }
    proof {
        assert(r@ =~= age_text(seconds));
    }
    r
}

/// `base` with the relative or absolute path `rest` joined on as
/// `PathBuf::push` does: an absolute `rest` replaces it, else a separator
/// goes between them unless `base` is empty or already ends in one.
pub open spec fn joined_path(base: Seq<char>, rest: Seq<char>) -> Seq<char> {
    if rest.len() > 0 && rest[0] == '/' {
        rest
    } else if base.len() == 0 || base.last() == '/' {
        base + rest
    } else {
        base + seq!['/'] + rest
    }
}

/// A typed path with a leading `~` read as the home directory `home`; left
/// as typed when there is no home directory.
pub open spec fn expanded(path: Seq<char>, home: Option<Seq<char>>) -> Seq<char> {
    if path == seq!['~'] {
        match home {
            Some(h) => h,
            None => path,
        }
    } else if path.len() >= 2 && path[0] == '~' && path[1] == '/' {
        match home {
            Some(h) => joined_path(h, path.skip(2)),
            None => path,
        }
    } else {
        path
    }
}

/// The path the add-project dialog opens for the typed `path`, `~` standing
/// for the home directory `home`.
pub fn expand_home(path: &str, home: Option<String>) -> (r: String)
    ensures
        r@ == expanded(path@, opt_text(home)),
{
    proof {
        reveal_strlit("~");
        reveal_strlit("/");
        assert("~"@ =~= seq!['~']);
    }
    if same_text(path, "~") {
        return match home {
            Some(h) => h,
            None => String::from_str(path),
        };
    }
    let len = path.unicode_len();
    if len >= 2 && path.get_char(0) == '~' && path.get_char(1) == '/' {
        let ghost home_view = opt_text(home);
        match home {
            Some(h) => {
                assert(Some(h@) == home_view);
                let rest = path.substring_char(2, len);
                assert(rest@ =~= path@.skip(2));
                let rlen = rest.unicode_len();
                if rlen > 0 && rest.get_char(0) == '/' {
                    return String::from_str(rest);
                }
                let hlen = h.as_str().unicode_len();
                let mut out = h;
                if hlen > 0 && out.as_str().get_char(hlen - 1) != '/' {
                    out.append("/");
                }
                out.append(rest);
                proof {
                    assert(out@ =~= joined_path(h@, path@.skip(2)));
                }
                out
            },
            None => String::from_str(path),
        }
    } else {
        proof {
            if path@.len() >= 2 && path@[0] == '~' && path@[1] == '/' {
                assert(false);
            }
        }
        String::from_str(path)
    }
}

/// What a group row of the sidebar groups: a project's worktrees, or the
/// tabs of a project (or the loose tabs).
#[derive(Debug, Clone, Copy, PartialEq, Eq, Structural)]
pub enum GroupTarget {
    Worktrees(ProjectId),
    Tabs(Option<ProjectId>),
}

/// The name of the list a group row is in.
pub open spec fn container_text(target: GroupTarget) -> Seq<char> {
    match target {
        GroupTarget::Worktrees(p) => "worktrees-"@ + decimal(p.0 as nat),
        GroupTarget::Tabs(Some(p)) => "tabs-"@ + decimal(p.0 as nat),
        GroupTarget::Tabs(None) => "loose"@,
    }
}

/// The stable identity of group `name` within its list: "group-", the
/// list's name, "-" and the group's name.
pub fn group_identity(target: GroupTarget, name: &str) -> (r: String)
    ensures
        r@ == "group-"@ + container_text(target) + "-"@ + name@,
{
    proof {
        reveal_strlit("group-");
        reveal_strlit("worktrees-");
        reveal_strlit("tabs-");
        reveal_strlit("loose");
        reveal_strlit("-");
    }
    let mut r = String::from_str("group-");
    match target {
        GroupTarget::Worktrees(p) => {
            r.append("worktrees-");
            push_decimal(&mut r, p.0 as u64);
        },
        GroupTarget::Tabs(Some(p)) => {
            r.append("tabs-");
            push_decimal(&mut r, p.0 as u64);
        },
        GroupTarget::Tabs(None) => {
            r.append("loose");
        },
    }
    r.append("-");
    r.append(name);
    proof {
        assert(r@ =~= "group-"@ + container_text(target) + "-"@ + name@);
    }
    r
}

} // verus!
