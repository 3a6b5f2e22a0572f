//! The settings file's choices that the library acts on.
use vstd::prelude::*;

verus! {

/// What to show when the app starts.
#[derive(Debug, Clone, Copy, PartialEq, Eq, Structural)]
pub enum Startup {
    /// Welcome screen with recent projects and sessions.
    Welcome,
    /// Restore the most recent session directly.
    RestoreLast,
    /// A single plain terminal, like before projects existed.
    Fresh,
}

impl Default for Startup {
    fn default() -> (r: Startup)
        ensures
            r == Startup::Welcome,
    {
        Startup::Welcome
    }
}

/// The name a startup choice goes by in the settings file.
pub open spec fn startup_name(s: Startup) -> Seq<char> {
    match s {
        Startup::Welcome => seq!['w', 'e', 'l', 'c', 'o', 'm', 'e'],
        Startup::RestoreLast => seq!['r', 'e', 's', 't', 'o', 'r', 'e', '-', 'l', 'a', 's', 't'],
        Startup::Fresh => seq!['f', 'r', 'e', 's', 'h'],
    }
}

impl Startup {
    /// The choice the settings file names `name`: "welcome",
    /// "restore-last" or "fresh"; `None` for any other name.
    pub fn from_name(name: &str) -> (r: Option<Startup>)
        ensures
            match r {
                Some(s) => startup_name(s) == name@,
                None => forall|s: Startup| startup_name(s) != name@,
            },
    {
        proof {
            reveal_strlit("welcome");
            reveal_strlit("restore-last");
            reveal_strlit("fresh");
        }
        if crate::text::same_text(name, "welcome") {
            Some(Startup::Welcome)
        } else if crate::text::same_text(name, "restore-last") {
            Some(Startup::RestoreLast)
        } else if crate::text::same_text(name, "fresh") {
            Some(Startup::Fresh)
        } else {
            proof {
                assert forall|s: Startup| startup_name(s) != name@ by {
                    match s {
                        Startup::Welcome => assert(startup_name(s) == "welcome"@),
                        Startup::RestoreLast => assert(startup_name(s) == "restore-last"@),
                        Startup::Fresh => assert(startup_name(s) == "fresh"@),
                    }
                }
            }
            None
        }
    }
}

} // verus!
