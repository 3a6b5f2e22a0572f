//! How a panel's shell is started: the program, its arguments and
//! environment, and the directory it starts in. Inside a Flatpak sandbox
//! the shell runs on the host through `flatpak-spawn`.
use vstd::prelude::*;

use crate::session::opt_text;

verus! {

/// A command line for a panel's pseudo-terminal.
#[derive(Debug, PartialEq)]
pub struct TerminalCommand {
    pub program: String,
    pub args: Vec<String>,
    /// Variables set for the program itself.
    pub env: Vec<(String, String)>,
    /// Directory the program starts in, when it is set here.
    pub cwd: Option<String>,
    /// Whether the pseudo-terminal becomes the program's controlling
    /// terminal.
    pub controlling_tty: bool,
}

/// The terminal type, colour support and locale every shell gets.
pub open spec fn shell_env() -> Seq<(Seq<char>, Seq<char>)> {
    seq![
        ("TERM"@, "xterm-256color"@),
        ("COLORTERM"@, "truecolor"@),
        ("LANG"@, "en_GB.UTF-8"@),
    ]
}

/// The same variables as `flatpak-spawn` passes them on.
pub open spec fn spawn_env_args() -> Seq<Seq<char>> {
    seq!["--env=TERM=xterm-256color"@, "--env=COLORTERM=truecolor"@, "--env=LANG=en_GB.UTF-8"@]
}

/// Strings as values.
pub open spec fn texts(s: Seq<String>) -> Seq<Seq<char>> {
    s.map_values(|x: String| x@)
}

/// Pairs of strings as values.
pub open spec fn text_pairs(s: Seq<(String, String)>) -> Seq<(Seq<char>, Seq<char>)> {
    s.map_values(|x: (String, String)| (x.0@, x.1@))
}

/// The command that starts `shell` in directory `cwd`, on the host through
/// `flatpak-spawn` when `in_flatpak`.
pub open spec fn spec_terminal_command(shell: Seq<char>, cwd: Option<Seq<char>>, in_flatpak: bool) -> (
    Seq<char>,
    Seq<Seq<char>>,
    Seq<(Seq<char>, Seq<char>)>,
    Option<Seq<char>>,
    bool,
) {
    if in_flatpak {
        let dir_arg = match cwd {
            Some(d) => seq!["--directory="@ + d],
            None => Seq::<Seq<char>>::empty(),
        };
        (
            "flatpak-spawn"@,
            seq!["--host"@, "--watch-bus"@] + spawn_env_args() + dir_arg + seq![shell],
            Seq::empty(),
            None,
            false,
        )
    } else {
        (shell, Seq::empty(), shell_env(), cwd, true)
    }
}

fn owned(s: &str) -> (r: String)
    ensures
        r@ == s@,
{
    String::from_str(s)
}

impl TerminalCommand {
    /// This command as values.
    pub open spec fn as_values(self) -> (
        Seq<char>,
        Seq<Seq<char>>,
        Seq<(Seq<char>, Seq<char>)>,
        Option<Seq<char>>,
        bool,
    ) {
        (
            self.program@,
            texts(self.args@),
            text_pairs(self.env@),
            opt_text(self.cwd),
            self.controlling_tty,
        )
    }

    /// The command that starts `shell` in directory `cwd` for a panel, run
    /// on the host through `flatpak-spawn` when `in_flatpak`.
    pub fn for_shell(shell: &str, cwd: Option<String>, in_flatpak: bool) -> (r: TerminalCommand)
        ensures
            r.as_values() == spec_terminal_command(shell@, opt_text(cwd), in_flatpak),
    {
        proof {
            reveal_strlit("flatpak-spawn");
            reveal_strlit("--host");
            reveal_strlit("--watch-bus");
            reveal_strlit("--env=TERM=xterm-256color");
            reveal_strlit("--env=COLORTERM=truecolor");
            reveal_strlit("--env=LANG=en_GB.UTF-8");
            reveal_strlit("--directory=");
            reveal_strlit("TERM");
            reveal_strlit("xterm-256color");
            reveal_strlit("COLORTERM");
            reveal_strlit("truecolor");
            reveal_strlit("LANG");
            reveal_strlit("en_GB.UTF-8");
        }
        if in_flatpak {
            let mut args: Vec<String> = Vec::new();
            args.push(owned("--host"));
            args.push(owned("--watch-bus"));
            args.push(owned("--env=TERM=xterm-256color"));
            args.push(owned("--env=COLORTERM=truecolor"));
            args.push(owned("--env=LANG=en_GB.UTF-8"));
            let ghost cwd_view = opt_text(cwd);
            match cwd {
                Some(dir) => {
                    let mut arg = owned("--directory=");
                    arg.append(dir.as_str());
                    args.push(arg);
                },
                None => {},
            }
            args.push(owned(shell));
            let r = TerminalCommand {
                program: owned("flatpak-spawn"),
                args,
                env: Vec::new(),
                cwd: None,
                controlling_tty: false,
            };
            proof {
                assert(texts(r.args@) =~= spec_terminal_command(shell@, cwd_view, in_flatpak).1);
                assert(text_pairs(r.env@) =~= Seq::<(Seq<char>, Seq<char>)>::empty());
            }
            r
        } else {
            let mut env: Vec<(String, String)> = Vec::new();
            env.push((owned("TERM"), owned("xterm-256color")));
            env.push((owned("COLORTERM"), owned("truecolor")));
            env.push((owned("LANG"), owned("en_GB.UTF-8")));
            let r = TerminalCommand {
                program: owned(shell),
                args: Vec::new(),
                env,
                cwd,
                controlling_tty: true,
            };
            proof {
                assert(texts(r.args@) =~= Seq::<Seq<char>>::empty());
                assert(text_pairs(r.env@) =~= shell_env());
            }
            r
        }
    }
}

} // verus!
