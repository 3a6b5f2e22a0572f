//! Verified core of the marcterm terminal emulator: the panel tree of a tab,
//! the tab and project bookkeeping of the window and how it reacts to news
//! from terminals and git, the persisted session and preference records and
//! how a session is reopened, the keyboard shortcuts, how a panel's shell is
//! started, and the small text and path rules all of these rest on.
pub mod text;
pub mod paths;
pub mod git;
pub mod seqs;
pub mod panels;
pub mod state;
pub mod session;
pub mod restore;
pub mod config;
pub mod shortcuts;
pub mod display;
pub mod events;
pub mod terminal;
