//! What is written to disk between runs: the ring of recent sessions, the
//! recent projects, and each project's sidebar preferences. Every function
//! here takes what was read from the state directory and gives back what is
//! to be written there; reading and writing the files is the caller's part.
use vstd::prelude::*;

use crate::paths::{file_name, file_name_of};
use crate::seqs::{first, first_from, keep, lemma_first_from, lemma_keep_element, lemma_keep_step};
use crate::panels::{PanelId, PanelNode};
use crate::state::{clone_strings, loose_tab, tab_key, tab_with_id, text_views, AppState, Tab};
use crate::text::{decimal, push_decimal};

verus! {

/// Persisted shape of a tab's panel tree, with each panel's directory.
#[derive(Debug, PartialEq)]
pub enum PanelLayout {
    Leaf { cwd: Option<String> },
    Horizontal(Box<PanelLayout>, Box<PanelLayout>),
    Vertical(Box<PanelLayout>, Box<PanelLayout>),
}

/// A persisted tab.
#[derive(Debug, PartialEq)]
pub struct SessionTab {
    pub worktree: Option<String>,
    pub custom_title: Option<String>,
    pub group: Option<String>,
    pub layout: PanelLayout,
    /// Position of the active panel among the layout's leaves.
    pub active_leaf: usize,
}

/// An open project and its open tabs.
#[derive(Debug, PartialEq)]
pub struct SessionProject {
    pub root: String,
    pub tabs: Vec<SessionTab>,
}

/// One run's open projects, loose tabs and active tab.
#[derive(Debug, PartialEq)]
pub struct Session {
    pub started_at: u64,
    pub saved_at: u64,
    pub projects: Vec<SessionProject>,
    pub loose_tabs: Vec<SessionTab>,
    /// Position of the shown tab among the projects' tabs, then the loose
    /// ones.
    pub active_tab: usize,
}

/// The text of an optional string.
pub open spec fn opt_text(o: Option<String>) -> Option<Seq<char>> {
    match o {
        Some(s) => Some(s@),
        None => None,
    }
}

/// A layout as values.
pub enum LayoutView {
    Leaf(Option<Seq<char>>),
    Horizontal(Box<LayoutView>, Box<LayoutView>),
    Vertical(Box<LayoutView>, Box<LayoutView>),
}

/// A persisted tab as values.
pub struct SessionTabView {
    pub worktree: Option<Seq<char>>,
    pub custom_title: Option<Seq<char>>,
    pub group: Option<Seq<char>>,
    pub layout: LayoutView,
    pub active_leaf: usize,
}

/// A persisted project as values.
pub struct SessionProjectView {
    pub root: Seq<char>,
    pub tabs: Seq<SessionTabView>,
}

/// A session as values.
pub struct SessionView {
    pub started_at: u64,
    pub saved_at: u64,
    pub projects: Seq<SessionProjectView>,
    pub loose_tabs: Seq<SessionTabView>,
    pub active_tab: usize,
}

/// A layout as values.
pub open spec fn layout_view(l: PanelLayout) -> LayoutView
    decreases l,
{
    match l {
        PanelLayout::Leaf { cwd } => LayoutView::Leaf(opt_text(cwd)),
        PanelLayout::Horizontal(a, b) => LayoutView::Horizontal(
            Box::new(layout_view(*a)),
            Box::new(layout_view(*b)),
        ),
        PanelLayout::Vertical(a, b) => LayoutView::Vertical(
            Box::new(layout_view(*a)),
            Box::new(layout_view(*b)),
        ),
    }
}

impl View for PanelLayout {
    type V = LayoutView;

    open spec fn view(&self) -> LayoutView {
        layout_view(*self)
    }
}

impl View for SessionTab {
    type V = SessionTabView;

    open spec fn view(&self) -> SessionTabView {
        SessionTabView {
            worktree: opt_text(self.worktree),
            custom_title: opt_text(self.custom_title),
            group: opt_text(self.group),
            layout: self.layout@,
            active_leaf: self.active_leaf,
        }
    }
}

/// Persisted tabs as values.
pub open spec fn tabs_view(s: Seq<SessionTab>) -> Seq<SessionTabView> {
    s.map_values(|t: SessionTab| t@)
}

impl View for SessionProject {
    type V = SessionProjectView;

    open spec fn view(&self) -> SessionProjectView {
        SessionProjectView { root: self.root@, tabs: tabs_view(self.tabs@) }
    }
}

/// Persisted projects as values.
pub open spec fn projects_view(s: Seq<SessionProject>) -> Seq<SessionProjectView> {
    s.map_values(|p: SessionProject| p@)
}

impl View for Session {
    type V = SessionView;

    open spec fn view(&self) -> SessionView {
        SessionView {
            started_at: self.started_at,
            saved_at: self.saved_at,
            projects: projects_view(self.projects@),
            loose_tabs: tabs_view(self.loose_tabs@),
            active_tab: self.active_tab,
        }
    }
}

fn clone_opt(s: &Option<String>) -> (r: Option<String>)
    ensures
        r == *s,
{
    match s {
        Some(t) => Some(t.clone()),
        None => None,
    }
}

impl Clone for PanelLayout {
    fn clone(&self) -> (r: Self)
        ensures
            r == *self,
        decreases self,
    {
        match self {
            PanelLayout::Leaf { cwd } => PanelLayout::Leaf { cwd: clone_opt(cwd) },
            PanelLayout::Horizontal(a, b) => {
                let ca = (**a).clone();
                let cb = (**b).clone();
                PanelLayout::Horizontal(Box::new(ca), Box::new(cb))
            },
            PanelLayout::Vertical(a, b) => {
                let ca = (**a).clone();
                let cb = (**b).clone();
                PanelLayout::Vertical(Box::new(ca), Box::new(cb))
            },
        }
    }
}

impl Clone for SessionTab {
    fn clone(&self) -> (r: Self)
        ensures
            r == *self,
    {
        SessionTab {
            worktree: clone_opt(&self.worktree),
            custom_title: clone_opt(&self.custom_title),
            group: clone_opt(&self.group),
            layout: self.layout.clone(),
            active_leaf: self.active_leaf,
        }
    }
}

/// A copy of `v`, tab by tab.
pub fn clone_session_tabs(v: &Vec<SessionTab>) -> (r: Vec<SessionTab>)
    ensures
        r@ == v@,
{
    let mut r: Vec<SessionTab> = Vec::new();
    let mut i: usize = 0;
    while i < v.len()
        invariant
            i <= v@.len(),
            r@ == v@.take(i as int),
        decreases v@.len() - i,
    {
        r.push(v[i].clone());
        i = i + 1;
        assert(r@ =~= v@.take(i as int));
    }
    assert(v@.take(v@.len() as int) =~= v@);
    r
}

impl Clone for SessionProject {
    fn clone(&self) -> (r: Self)
        ensures
            r.root == self.root,
            r.tabs@ == self.tabs@,
    {
        SessionProject { root: self.root.clone(), tabs: clone_session_tabs(&self.tabs) }
    }
}

fn clone_session_projects(v: &Vec<SessionProject>) -> (r: Vec<SessionProject>)
    ensures
        projects_view(r@) == projects_view(v@),
{
    let mut r: Vec<SessionProject> = Vec::new();
    let mut i: usize = 0;
    while i < v.len()
        invariant
            i <= v@.len(),
            projects_view(r@) == projects_view(v@.take(i as int)),
        decreases v@.len() - i,
    {
        let p = v[i].clone();
        proof {
            assert(p@ == v@[i as int]@);
            let rp = r@.push(p);
            let vt = v@.take(i as int + 1);
            let a = projects_view(rp);
            let b = projects_view(vt);
            assert(projects_view(r@).len() == r@.len());
            assert(projects_view(v@.take(i as int)).len() == i);
            assert(r@.len() == i);
            assert(a.len() == i + 1);
            assert(b.len() == i + 1);
            assert forall|j: int| 0 <= j < a.len() implies a[j] == b[j] by {
                if j < i {
                    assert(rp[j] == r@[j]);
                    assert(vt[j] == v@.take(i as int)[j]);
                    assert(projects_view(r@)[j] == r@[j]@);
                    assert(projects_view(v@.take(i as int))[j] == v@.take(i as int)[j]@);
                } else {
                    assert(rp[j] == p);
                    assert(vt[j] == v@[i as int]);
                }
            }
            assert(a =~= b);
        }
        r.push(p);
        i = i + 1;
    }
    assert(v@.take(v@.len() as int) =~= v@);
    r
}

impl Clone for Session {
    fn clone(&self) -> (r: Self)
        ensures
            r@ == self@,
    {
        Session {
            started_at: self.started_at,
            saved_at: self.saved_at,
            projects: clone_session_projects(&self.projects),
            loose_tabs: clone_session_tabs(&self.loose_tabs),
            active_tab: self.active_tab,
        }
    }
}

fn opt_text_eq(a: &Option<String>, b: &Option<String>) -> (r: bool)
    ensures
        r == (opt_text(*a) == opt_text(*b)),
{
    match (a, b) {
        (Some(x), Some(y)) => *x == *y,
        (None, None) => true,
        _ => false,
    }
}

fn layout_eq(a: &PanelLayout, b: &PanelLayout) -> (r: bool)
    ensures
        r == (a@ == b@),
    decreases a,
{
    match (a, b) {
        (PanelLayout::Leaf { cwd: x }, PanelLayout::Leaf { cwd: y }) => opt_text_eq(x, y),
        (PanelLayout::Horizontal(a1, a2), PanelLayout::Horizontal(b1, b2)) => layout_eq(a1, b1)
            && layout_eq(a2, b2),
        (PanelLayout::Vertical(a1, a2), PanelLayout::Vertical(b1, b2)) => layout_eq(a1, b1)
            && layout_eq(a2, b2),
        _ => false,
    }
}

fn session_tab_eq(a: &SessionTab, b: &SessionTab) -> (r: bool)
    ensures
        r == (a@ == b@),
{
    opt_text_eq(&a.worktree, &b.worktree) && opt_text_eq(&a.custom_title, &b.custom_title)
        && opt_text_eq(&a.group, &b.group) && layout_eq(&a.layout, &b.layout) && a.active_leaf
        == b.active_leaf
}

fn tab_list_eq(a: &Vec<SessionTab>, b: &Vec<SessionTab>) -> (r: bool)
    ensures
        r == (tabs_view(a@) == tabs_view(b@)),
{
    if a.len() != b.len() {
        assert(tabs_view(a@).len() != tabs_view(b@).len());
        return false;
    }
    let mut i: usize = 0;
    while i < a.len()
        invariant
            a@.len() == b@.len(),
            i <= a@.len(),
            forall|j: int| 0 <= j < i ==> a@[j]@ == b@[j]@,
        decreases a@.len() - i,
    {
        if !session_tab_eq(&a[i], &b[i]) {
            assert(tabs_view(a@)[i as int] != tabs_view(b@)[i as int]);
            return false;
        }
        i = i + 1;
    }
    assert(tabs_view(a@) =~= tabs_view(b@));
    true
}

fn project_list_eq(a: &Vec<SessionProject>, b: &Vec<SessionProject>) -> (r: bool)
    ensures
        r == (projects_view(a@) == projects_view(b@)),
{
    if a.len() != b.len() {
        assert(projects_view(a@).len() != projects_view(b@).len());
        return false;
    }
    let mut i: usize = 0;
    while i < a.len()
        invariant
            a@.len() == b@.len(),
            i <= a@.len(),
            forall|j: int| 0 <= j < i ==> a@[j]@ == b@[j]@,
        decreases a@.len() - i,
    {
        if !(a[i].root == b[i].root && tab_list_eq(&a[i].tabs, &b[i].tabs)) {
            assert(projects_view(a@)[i as int] != projects_view(b@)[i as int]);
            return false;
        }
        i = i + 1;
    }
    assert(projects_view(a@) =~= projects_view(b@));
    true
}

impl Session {
    /// No project and no loose tab.
    pub open spec fn spec_is_empty(&self) -> bool {
        self.projects@.len() == 0 && self.loose_tabs@.len() == 0
    }

    /// No project and no loose tab.
    pub fn is_empty(&self) -> (r: bool)
        ensures
            r == self.spec_is_empty(),
    {
        self.projects.len() == 0 && self.loose_tabs.len() == 0
    }

    /// The same projects, loose tabs and shown tab, whenever saved.
    pub fn content_eq(&self, other: &Self) -> (r: bool)
        ensures
            r == (self@.projects == other@.projects && self@.loose_tabs == other@.loose_tabs
                && self.active_tab == other.active_tab),
    {
        project_list_eq(&self.projects, &other.projects) && tab_list_eq(
            &self.loose_tabs,
            &other.loose_tabs,
        ) && self.active_tab == other.active_tab
    }

    /// Whether the autosave writes this snapshot: it holds something and
    /// differs in content from the last one written, if any.
    pub fn autosave_due(&self, last: &Option<Session>) -> (r: bool)
        ensures
            r == (!self.spec_is_empty() && match *last {
                Some(l) => !(l@.projects == self@.projects && l@.loose_tabs == self@.loose_tabs
                    && l.active_tab == self.active_tab),
                None => true,
            }),
    {
        if self.is_empty() {
            return false;
        }
        match last {
            Some(l) => !l.content_eq(self),
            None => true,
        }
    }
}

/// How many sessions the ring keeps.
pub const MAX_SESSIONS: usize = 7;

/// How many recent projects the history keeps.
pub const MAX_RECENT_PROJECTS: usize = 7;

/// At most the first `n` elements of `s`.
pub open spec fn capped<T>(s: Seq<T>, n: int) -> Seq<T> {
    if s.len() > n {
        s.take(n)
    } else {
        s
    }
}

/// What a read gave, an absent or unreadable file counting as an empty list.
pub open spec fn stored_or_empty<T>(stored: Option<Vec<T>>) -> Seq<T> {
    match stored {
        Some(v) => v@,
        None => Seq::empty(),
    }
}

/// A session with a project or a loose tab.
pub open spec fn non_empty_session() -> spec_fn(Session) -> bool {
    |s: Session| !s.spec_is_empty()
}

/// A session of another run than `started_at`.
pub open spec fn other_run(started_at: u64) -> spec_fn(Session) -> bool {
    |s: Session| s.started_at != started_at
}

/// A session neither of the run of `current` nor of the same content.
pub open spec fn superseded_by(current: Session) -> spec_fn(Session) -> bool {
    |s: Session| s.started_at != current.started_at && !(s@.projects == current@.projects
        && s@.loose_tabs == current@.loose_tabs && s.active_tab == current.active_tab)
}

/// The ring as loaded: the non-empty stored sessions, at most seven.
pub open spec fn loaded_sessions(stored: Option<Vec<Session>>) -> Seq<Session> {
    capped(keep(stored_or_empty(stored), non_empty_session()), MAX_SESSIONS as int)
}

impl Session {
    /// The ring of saved sessions: the non-empty ones, at most seven.
    pub fn load_all(stored: Option<Vec<Session>>) -> (r: Vec<Session>)
        ensures
            r@ == loaded_sessions(stored),
    {
        let v = match stored {
            Some(v) => v,
            None => Vec::new(),
        };
        let mut flags: Vec<bool> = Vec::new();
        let mut i: usize = 0;
        while i < v.len()
            invariant
                i <= v@.len(),
                flags@.len() == i,
                forall|j: int| 0 <= j < i ==> flags@[j] == (non_empty_session())(v@[j]),
            decreases v@.len() - i,
        {
            flags.push(!v[i].is_empty());
            i = i + 1;
        }
        proof {
            crate::seqs::lemma_kept_by_keep(v@, flags@, non_empty_session());
        }
        let mut kept = crate::seqs::take_flagged(v, &flags);
        kept.truncate(MAX_SESSIONS);
        kept
    }

    /// The ring without the session of run `started_at`, to be saved.
    pub fn remove(stored: Option<Vec<Session>>, started_at: u64) -> (r: Vec<Session>)
        ensures
            r@ == keep(loaded_sessions(stored), other_run(started_at)),
    {
        let v = Self::load_all(stored);
        let mut flags: Vec<bool> = Vec::new();
        let mut i: usize = 0;
        while i < v.len()
            invariant
                i <= v@.len(),
                flags@.len() == i,
                forall|j: int| 0 <= j < i ==> flags@[j] == (other_run(started_at))(v@[j]),
            decreases v@.len() - i,
        {
            flags.push(v[i].started_at != started_at);
            i = i + 1;
        }
        proof {
            crate::seqs::lemma_kept_by_keep(v@, flags@, other_run(started_at));
        }
        crate::seqs::take_flagged(v, &flags)
    }

    /// The ring with this run's entry put first, replacing the entries of the
    /// same run or content, at most seven; `None` when there is nothing to
    /// save, the session being empty.
    pub fn save_as_current(&self, stored: Option<Vec<Session>>) -> (r: Option<Vec<Session>>)
        ensures
            self.spec_is_empty() ==> r is None,
            !self.spec_is_empty() ==> (r matches Some(v) && v@.len() > 0 && v@[0]@ == self@
                && v@.drop_first() == capped(
                keep(loaded_sessions(stored), superseded_by(*self)),
                MAX_SESSIONS as int - 1,
            )),
    {
        if self.is_empty() {
            return None;
        }
        let v = Self::load_all(stored);
        let mut flags: Vec<bool> = Vec::new();
        let mut i: usize = 0;
        while i < v.len()
            invariant
                i <= v@.len(),
                flags@.len() == i,
                forall|j: int| 0 <= j < i ==> flags@[j] == (superseded_by(*self))(v@[j]),
            decreases v@.len() - i,
        {
            flags.push(v[i].started_at != self.started_at && !v[i].content_eq(self));
            i = i + 1;
        }
        proof {
            crate::seqs::lemma_kept_by_keep(v@, flags@, superseded_by(*self));
        }
        let mut kept = crate::seqs::take_flagged(v, &flags);
        let ghost rest = kept@;
        let current = self.clone();
        kept.insert(0, current);
        kept.truncate(MAX_SESSIONS);
        proof {
            assert(rest.insert(0, current).drop_first() =~= rest);
            if rest.len() + 1 > 7 {
                assert(kept@.drop_first() =~= rest.take(6));
            } else {
                assert(kept@.drop_first() =~= rest);
            }
        }
        Some(kept)
    }
}

/// The file names of the projects' roots, for the roots that have one.
pub open spec fn root_names(ps: Seq<SessionProject>) -> Seq<Seq<char>>
    decreases ps.len(),
{
    if ps.len() == 0 {
        Seq::empty()
    } else {
        let r = root_names(ps.drop_last());
        match file_name(ps.last().root@) {
            Some(n) => r.push(n),
            None => r,
        }
    }
}

/// How many tabs the projects hold.
pub open spec fn tab_total(ps: Seq<SessionProject>) -> int
    decreases ps.len(),
{
    if ps.len() == 0 {
        0
    } else {
        tab_total(ps.drop_last()) + ps.last().tabs@.len()
    }
}

/// The parts with `sep` between each two.
pub open spec fn joined(parts: Seq<Seq<char>>, sep: Seq<char>) -> Seq<char>
    decreases parts.len(),
{
    if parts.len() == 0 {
        Seq::empty()
    } else if parts.len() == 1 {
        parts[0]
    } else {
        joined(parts.drop_last(), sep) + sep + parts.last()
    }
}

/// ", "
pub open spec fn comma() -> Seq<char> {
    seq![',', ' ']
}

/// "N terminal", with an "s" unless N is one.
pub open spec fn terminals_text(n: nat) -> Seq<char> {
    decimal(n) + seq![' ', 't', 'e', 'r', 'm', 'i', 'n', 'a', 'l'] + if n == 1 {
        Seq::<char>::empty()
    } else {
        seq!['s']
    }
}

/// The one-line description of a session: its projects' names and how many
/// terminals it holds.
pub open spec fn summary_text(s: Session) -> Seq<char> {
    let names = root_names(s.projects@);
    let count = (s.loose_tabs@.len() + tab_total(s.projects@)) as nat;
    if names.len() == 0 {
        terminals_text(count)
    } else if count == 0 {
        joined(names, comma())
    } else {
        joined(names, comma()) + seq![' ', '·', ' '] + terminals_text(count)
    }
}

proof fn lemma_tab_total_nonneg(ps: Seq<SessionProject>)
    ensures
        tab_total(ps) >= 0,
    decreases ps.len(),
{
    if ps.len() > 0 {
        lemma_tab_total_nonneg(ps.drop_last());
    }
}

impl Session {
    /// The one-line description shown for the session on the welcome screen.
    pub fn summary(&self) -> (r: String)
        requires
            self.loose_tabs@.len() + tab_total(self.projects@) <= usize::MAX,
        ensures
            r@ == summary_text(*self),
    {
        let ghost ps = self.projects@;
        let mut names: Vec<String> = Vec::new();
        let mut total: usize = 0;
        let mut k: usize = 0;
        while k < self.projects.len()
            invariant
                ps == self.projects@,
                k <= ps.len(),
                text_views(names@) == root_names(ps.take(k as int)),
                total == tab_total(ps.take(k as int)),
                self.loose_tabs@.len() + tab_total(ps) <= usize::MAX,
            decreases ps.len() - k,
        {
            proof {
                assert(ps.take(k as int + 1).drop_last() =~= ps.take(k as int));
                lemma_tab_total_prefix(ps, k as int + 1);
                lemma_tab_total_nonneg(ps.take(k as int));
            }
            let n = file_name_of(self.projects[k].root.as_str());
            match n {
                Some(name) => {
                    proof {
                        assert(text_views(names@.push(name)) =~= text_views(names@).push(name@));
                    }
                    names.push(name);
                },
                None => {},
            }
            total = total + self.projects[k].tabs.len();
            k = k + 1;
        }
        assert(ps.take(ps.len() as int) =~= ps);
        let count = self.loose_tabs.len() + total;
        let mut text = String::new();
        if names.len() > 0 {
            push_joined(&mut text, &names);
            if count > 0 {
                proof {
                    reveal_strlit(" · ");
                }
                text.append(" · ");
                push_terminals(&mut text, count);
            }
        } else {
            push_terminals(&mut text, count);
        }
        proof {
            assert(text@ =~= summary_text(*self));
        }
        text
    }
}

proof fn lemma_tab_total_prefix(ps: Seq<SessionProject>, k: int)
    requires
        0 <= k <= ps.len(),
    ensures
        tab_total(ps.take(k)) <= tab_total(ps),
    decreases ps.len() - k,
{
    lemma_tab_total_nonneg(ps.take(k));
    if k < ps.len() {
        lemma_tab_total_prefix(ps, k + 1);
        assert(ps.take(k + 1).drop_last() =~= ps.take(k));
    } else {
        assert(ps.take(k) =~= ps);
    }
}

fn push_terminals(out: &mut String, n: usize)
    ensures
        final(out)@ == old(out)@ + terminals_text(n as nat),
{
    push_decimal(out, n as u64);
    proof {
        reveal_strlit(" terminal");
        reveal_strlit("s");
    }
    out.append(" terminal");
    if n != 1 {
        out.append("s");
    }
    proof {
        assert(final(out)@ =~= old(out)@ + terminals_text(n as nat));
    }
}

fn push_joined(out: &mut String, names: &Vec<String>)
    ensures
        final(out)@ == old(out)@ + joined(text_views(names@), comma()),
{
    let ghost base = out@;
    let mut i: usize = 0;
    while i < names.len()
        invariant
            i <= names@.len(),
            out@ == base + joined(text_views(names@.take(i as int)), comma()),
        decreases names@.len() - i,
    {
        proof {
            reveal_strlit(", ");
            let t = text_views(names@.take(i as int + 1));
            assert(t.drop_last() =~= text_views(names@.take(i as int)));
        }
        if i > 0 {
            out.append(", ");
        }
        out.append(names[i].as_str());
        proof {
            let t = text_views(names@.take(i as int + 1));
            assert(t.last() == names@[i as int]@);
            if i == 0 {
                assert(t.len() == 1);
                assert(out@ =~= base + joined(t, comma()));
            } else {
                assert(out@ =~= base + joined(t, comma()));
            }
        }
        i = i + 1;
    }
    assert(names@.take(names@.len() as int) =~= names@);
}

/// A saved tab stays on startup when it is not a worktree tab or it is the
/// shown one.
pub open spec fn stays(t: SessionTab, index: int, active: int) -> bool {
    t.worktree is None || index == active
}

/// The tabs of `s` that stay, `s` starting at position `base` of the
/// session's tabs.
pub open spec fn staying(s: Seq<SessionTab>, base: int, active: int) -> Seq<SessionTab>
    decreases s.len(),
{
    if s.len() == 0 {
        Seq::empty()
    } else {
        let r = staying(s.drop_last(), base, active);
        if stays(s.last(), base + s.len() - 1, active) {
            r.push(s.last())
        } else {
            r
        }
    }
}

/// How many tabs before position `active` go, `s` starting at position 0.
pub open spec fn dropped_before(s: Seq<SessionTab>, active: int) -> int
    decreases s.len(),
{
    if s.len() == 0 {
        0
    } else {
        dropped_before(s.drop_last(), active) + if !stays(s.last(), s.len() - 1, active) && s.len()
            - 1 < active {
            1int
        } else {
            0int
        }
    }
}

/// The tabs of the first `k` projects, in order.
pub open spec fn flat_upto(ps: Seq<SessionProject>, k: int) -> Seq<SessionTab>
    decreases k,
{
    if k <= 0 {
        Seq::empty()
    } else {
        flat_upto(ps, k - 1) + ps[k - 1].tabs@
    }
}

/// Every tab of the session: the projects' tabs, then the loose ones.
pub open spec fn all_tabs(s: Session) -> Seq<SessionTab> {
    flat_upto(s.projects@, s.projects@.len() as int) + s.loose_tabs@
}

proof fn lemma_staying_push(s: Seq<SessionTab>, base: int, active: int, x: SessionTab)
    ensures
        staying(s.push(x), base, active) == if stays(x, base + s.len(), active) {
            staying(s, base, active).push(x)
        } else {
            staying(s, base, active)
        },
{
    assert(s.push(x).drop_last() =~= s);
}

proof fn lemma_dropped_push(s: Seq<SessionTab>, active: int, x: SessionTab)
    ensures
        dropped_before(s.push(x), active) == dropped_before(s, active) + if !stays(x, s.len() as int, active)
            && s.len() < active {
            1int
        } else {
            0int
        },
{
    assert(s.push(x).drop_last() =~= s);
}

impl Session {
    /// The session without its worktree tabs but the shown one, so that a
    /// restore starts a single terminal per worktree session.
    pub fn without_inactive_worktrees(&self) -> (r: Session)
        requires
            all_tabs(*self).len() <= usize::MAX,
        ensures
            pruned_from(r, *self),
            all_tabs(r).len() <= all_tabs(*self).len(),
    {
        let ghost ps = self.projects@;
        let ghost act = self.active_tab as int;
        let active = self.active_tab;
        let mut index: usize = 0;
        let mut dropped: usize = 0;
        let mut projects: Vec<SessionProject> = Vec::new();
        let mut k: usize = 0;
        proof {
            lemma_flat_prefix_len(*self, 0);
        }
        while k < self.projects.len()
            invariant
                ps == self.projects@,
                act == active as int,
                active == self.active_tab,
                k <= ps.len(),
                all_tabs(*self).len() <= usize::MAX,
                index == flat_upto(ps, k as int).len(),
                flat_upto(ps, k as int).len() <= all_tabs(*self).len(),
                dropped == dropped_before(flat_upto(ps, k as int), act),
                dropped <= active,
                dropped <= index,
                projects@.len() == k,
                forall|q: int|
                    0 <= q < k ==> (#[trigger] projects@[q]).root == ps[q].root && projects@[q].tabs@
                        == staying(ps[q].tabs@, flat_upto(ps, q).len() as int, act),
            decreases ps.len() - k,
        {
            let tabs = &self.projects[k].tabs;
            let ghost base = index as int;
            let ghost prefix = flat_upto(ps, k as int);
            let mut kept: Vec<SessionTab> = Vec::new();
            let mut j: usize = 0;
            proof {
                lemma_flat_prefix_len(*self, k as int + 1);
                assert(flat_upto(ps, k as int + 1) == prefix + tabs@);
            }
            while j < tabs.len()
                invariant
                    tabs@ == ps[k as int].tabs@,
                    prefix == flat_upto(ps, k as int),
                    base == prefix.len(),
                    act == active as int,
                    prefix.len() + tabs@.len() <= usize::MAX,
                    j <= tabs@.len(),
                    index == base + j,
                    dropped == dropped_before(prefix + tabs@.take(j as int), act),
                    dropped <= active,
                    dropped <= index,
                    kept@ == staying(tabs@.take(j as int), base, act),
                decreases tabs@.len() - j,
            {
                let t = &tabs[j];
                proof {
                    assert(tabs@.take(j as int + 1) =~= tabs@.take(j as int).push(tabs@[j as int]));
                    assert(prefix + tabs@.take(j as int + 1) =~= (prefix + tabs@.take(j as int)).push(
                        tabs@[j as int],
                    ));
                    lemma_staying_push(tabs@.take(j as int), base, act, tabs@[j as int]);
                    lemma_dropped_push(prefix + tabs@.take(j as int), act, tabs@[j as int]);
                }
                if t.worktree.is_none() || index == active {
                    kept.push(t.clone());
                } else if index < active {
                    dropped = dropped + 1;
                }
                index = index + 1;
                j = j + 1;
            }
            assert(tabs@.take(tabs@.len() as int) =~= tabs@);
            projects.push(SessionProject { root: self.projects[k].root.clone(), tabs: kept });
            k = k + 1;
        }
        let tabs = &self.loose_tabs;
        let ghost base = index as int;
        let ghost prefix = flat_upto(ps, ps.len() as int);
        let mut kept: Vec<SessionTab> = Vec::new();
        let mut j: usize = 0;
        while j < tabs.len()
            invariant
                tabs@ == self.loose_tabs@,
                prefix == flat_upto(ps, ps.len() as int),
                ps == self.projects@,
                base == prefix.len(),
                act == active as int,
                prefix.len() + tabs@.len() <= usize::MAX,
                j <= tabs@.len(),
                index == base + j,
                dropped == dropped_before(prefix + tabs@.take(j as int), act),
                dropped <= active,
                dropped <= index,
                kept@ == staying(tabs@.take(j as int), base, act),
            decreases tabs@.len() - j,
        {
            let t = &tabs[j];
            proof {
                assert(tabs@.take(j as int + 1) =~= tabs@.take(j as int).push(tabs@[j as int]));
                assert(prefix + tabs@.take(j as int + 1) =~= (prefix + tabs@.take(j as int)).push(
                    tabs@[j as int],
                ));
                lemma_staying_push(tabs@.take(j as int), base, act, tabs@[j as int]);
                lemma_dropped_push(prefix + tabs@.take(j as int), act, tabs@[j as int]);
            }
            if t.worktree.is_none() || index == active {
                kept.push(t.clone());
            } else if index < active {
                dropped = dropped + 1;
            }
            index = index + 1;
            j = j + 1;
        }
        assert(tabs@.take(tabs@.len() as int) =~= tabs@);
        assert(prefix + tabs@ == all_tabs(*self));
        let r = Session {
            started_at: self.started_at,
            saved_at: self.saved_at,
            projects,
            loose_tabs: kept,
            active_tab: active - dropped,
        };
        proof {
            lemma_pruned_shorter(r, *self);
        }
        r
    }
}

proof fn lemma_staying_len(t: Seq<SessionTab>, base: int, act: int)
    ensures
        staying(t, base, act).len() <= t.len(),
    decreases t.len(),
{
    if t.len() > 0 {
        lemma_staying_len(t.drop_last(), base, act);
    }
}

/// Pruning never adds a tab.
proof fn lemma_pruned_shorter(r: Session, s: Session)
    requires
        pruned_from(r, s),
    ensures
        all_tabs(r).len() <= all_tabs(s).len(),
{
    let n = s.projects@.len() as int;
    lemma_flat_pruned(r, s, n);
    lemma_staying_concat(flat_upto(s.projects@, n), s.loose_tabs@, 0, s.active_tab as int);
    lemma_staying_len(all_tabs(s), 0, s.active_tab as int);
}

/// `r` is `s` with the worktree tabs dropped but the shown one: each
/// project keeps its root and the tabs that stay, in order, and the shown
/// tab's position moves back by the tabs dropped before it.
pub open spec fn pruned_from(r: Session, s: Session) -> bool {
    &&& r.started_at == s.started_at
    &&& r.saved_at == s.saved_at
    &&& r.projects@.len() == s.projects@.len()
    &&& forall|k: int|
        0 <= k < s.projects@.len() ==> (#[trigger] r.projects@[k]).root == s.projects@[k].root
            && r.projects@[k].tabs@ == staying(
            s.projects@[k].tabs@,
            flat_upto(s.projects@, k).len() as int,
            s.active_tab as int,
        )
    &&& r.loose_tabs@ == staying(
        s.loose_tabs@,
        flat_upto(s.projects@, s.projects@.len() as int).len() as int,
        s.active_tab as int,
    )
    &&& r.active_tab == s.active_tab - dropped_before(all_tabs(s), s.active_tab as int)
}

proof fn lemma_flat_prefix_len(s: Session, k: int)
    requires
        0 <= k <= s.projects@.len(),
    ensures
        flat_upto(s.projects@, k).len() <= all_tabs(s).len(),
    decreases s.projects@.len() - k,
{
    if k < s.projects@.len() {
        lemma_flat_prefix_len(s, k + 1);
    }
}

/// A project opened recently, for the welcome screen.
#[derive(Debug, PartialEq)]
pub struct RecentProject {
    pub root: String,
}

impl Clone for RecentProject {
    fn clone(&self) -> (r: Self)
        ensures
            r == *self,
    {
        RecentProject { root: self.root.clone() }
    }
}

/// The history as loaded: at most seven projects.
pub open spec fn loaded_recent(stored: Option<Vec<RecentProject>>) -> Seq<RecentProject> {
    capped(stored_or_empty(stored), MAX_RECENT_PROJECTS as int)
}

/// A history entry of another root than `root`.
pub open spec fn not_root(root: Seq<char>) -> spec_fn(RecentProject) -> bool {
    |p: RecentProject| p.root@ != root
}

/// The history with `roots` moved to its front, in their order.
pub open spec fn touched(recent: Seq<RecentProject>, roots: Seq<String>) -> Seq<RecentProject>
    decreases roots.len(),
{
    if roots.len() == 0 {
        recent
    } else {
        seq![RecentProject { root: roots[0] }] + keep(
            touched(recent, roots.drop_first()),
            not_root(roots[0]@),
        )
    }
}

fn drop_root(v: Vec<RecentProject>, root: &String) -> (r: Vec<RecentProject>)
    ensures
        r@ == keep(v@, not_root(root@)),
{
    let mut flags: Vec<bool> = Vec::new();
    let mut i: usize = 0;
    while i < v.len()
        invariant
            i <= v@.len(),
            flags@.len() == i,
            forall|j: int| 0 <= j < i ==> flags@[j] == (not_root(root@))(v@[j]),
        decreases v@.len() - i,
    {
        flags.push(v[i].root != *root);
        i = i + 1;
    }
    proof {
        crate::seqs::lemma_kept_by_keep(v@, flags@, not_root(root@));
    }
    crate::seqs::take_flagged(v, &flags)
}

impl RecentProject {
    /// The history: at most seven projects.
    pub fn load_all(stored: Option<Vec<RecentProject>>) -> (r: Vec<RecentProject>)
        ensures
            r@ == loaded_recent(stored),
    {
        let mut v = match stored {
            Some(v) => v,
            None => Vec::new(),
        };
        v.truncate(MAX_RECENT_PROJECTS);
        v
    }

    /// The history with `roots` moved to its front, in order, at most seven,
    /// to be saved.
    pub fn touch_many(stored: Option<Vec<RecentProject>>, roots: &Vec<String>) -> (r: Vec<
        RecentProject,
    >)
        ensures
            r@ == capped(touched(loaded_recent(stored), roots@), MAX_RECENT_PROJECTS as int),
    {
        let mut recent = Self::load_all(stored);
        let ghost base = recent@;
        let mut i = roots.len();
        assert(roots@.skip(i as int) =~= Seq::<String>::empty());
        while i > 0
            invariant
                i <= roots@.len(),
                recent@ == touched(base, roots@.skip(i as int)),
            decreases i,
        {
            i = i - 1;
            let kept = drop_root(recent, &roots[i]);
            let mut next: Vec<RecentProject> = Vec::new();
            next.push(RecentProject { root: roots[i].clone() });
            let mut kept = kept;
            next.append(&mut kept);
            proof {
                assert(roots@.skip(i as int).drop_first() =~= roots@.skip(i as int + 1));
                assert(roots@.skip(i as int)[0] == roots@[i as int]);
            }
            recent = next;
        }
        assert(roots@.skip(0) =~= roots@);
        recent.truncate(MAX_RECENT_PROJECTS);
        recent
    }

    /// The history with `root` moved to its front, to be saved.
    pub fn touch(stored: Option<Vec<RecentProject>>, root: &String) -> (r: Vec<RecentProject>)
        ensures
            r@ == capped(
                seq![RecentProject { root: *root }] + keep(loaded_recent(stored), not_root(root@)),
                MAX_RECENT_PROJECTS as int,
            ),
    {
        let mut roots: Vec<String> = Vec::new();
        roots.push(root.clone());
        let r = Self::touch_many(stored, &roots);
        proof {
            assert(roots@.drop_first() =~= Seq::<String>::empty());
            assert(roots@[0] == *root);
            assert(touched(loaded_recent(stored), roots@.drop_first()) == loaded_recent(stored));
            assert(touched(loaded_recent(stored), roots@) == seq![RecentProject { root: *root }]
                + keep(loaded_recent(stored), not_root(root@)));
        }
        r
    }

    /// The history without `root`, to be saved.
    pub fn remove(stored: Option<Vec<RecentProject>>, root: &String) -> (r: Vec<RecentProject>)
        ensures
            r@ == keep(loaded_recent(stored), not_root(root@)),
    {
        drop_root(Self::load_all(stored), root)
    }
}

/// A named set of worktrees shown together in the sidebar.
#[derive(Debug, PartialEq)]
pub struct WorktreeGroup {
    pub name: String,
    pub members: Vec<String>,
    pub collapsed: bool,
}

/// A worktree group as values.
pub struct GroupView {
    pub name: String,
    pub members: Seq<String>,
    pub collapsed: bool,
}

impl View for WorktreeGroup {
    type V = GroupView;

    open spec fn view(&self) -> GroupView {
        GroupView { name: self.name, members: self.members@, collapsed: self.collapsed }
    }
}

/// Worktree groups as values.
pub open spec fn groups_view(s: Seq<WorktreeGroup>) -> Seq<GroupView> {
    s.map_values(|g: WorktreeGroup| g@)
}

impl Clone for WorktreeGroup {
    fn clone(&self) -> (r: Self)
        ensures
            r@ == self@,
    {
        WorktreeGroup {
            name: self.name.clone(),
            members: clone_strings(&self.members),
            collapsed: self.collapsed,
        }
    }
}

fn clone_groups(v: &Vec<WorktreeGroup>) -> (r: Vec<WorktreeGroup>)
    ensures
        groups_view(r@) == groups_view(v@),
{
    let mut r: Vec<WorktreeGroup> = Vec::new();
    let mut i: usize = 0;
    while i < v.len()
        invariant
            i <= v@.len(),
            r@.len() == i,
            forall|j: int| 0 <= j < i ==> r@[j]@ == v@[j]@,
        decreases v@.len() - i,
    {
        r.push(v[i].clone());
        i = i + 1;
    }
    assert(groups_view(r@) =~= groups_view(v@));
    r
}

/// Per-project sidebar preferences, kept by project root.
#[derive(Debug, PartialEq)]
pub struct ProjectPrefs {
    pub root: String,
    /// Names of the archived worktrees.
    pub archived: Vec<String>,
    /// Custom sidebar order of worktree names.
    pub order: Vec<String>,
    pub groups: Vec<WorktreeGroup>,
}

/// A project's preferences as values.
pub struct PrefsView {
    pub root: String,
    pub archived: Seq<String>,
    pub order: Seq<String>,
    pub groups: Seq<GroupView>,
}

impl View for ProjectPrefs {
    type V = PrefsView;

    open spec fn view(&self) -> PrefsView {
        PrefsView {
            root: self.root,
            archived: self.archived@,
            order: self.order@,
            groups: groups_view(self.groups@),
        }
    }
}

/// The entry of root `root`.
pub open spec fn prefs_of(root: Seq<char>) -> spec_fn(ProjectPrefs) -> bool {
    |e: ProjectPrefs| e.root@ == root
}

/// Preferences that say something and are worth keeping.
pub open spec fn prefs_nonempty(v: PrefsView) -> bool {
    v.archived.len() > 0 || v.order.len() > 0 || v.groups.len() > 0
}

/// The preferences of `root` before an update: its entry, or empty ones.
pub open spec fn prefs_before(entries: Seq<ProjectPrefs>, root: String) -> PrefsView {
    match first(entries, prefs_of(root@)) {
        Some(i) => entries[i]@,
        None => PrefsView {
            root: root,
            archived: Seq::empty(),
            order: Seq::empty(),
            groups: Seq::empty(),
        },
    }
}

/// The other entries, kept in their order.
pub open spec fn prefs_others(entries: Seq<ProjectPrefs>, root: Seq<char>) -> Seq<ProjectPrefs> {
    match first(entries, prefs_of(root)) {
        Some(i) => entries.remove(i),
        None => entries,
    }
}

/// The stored entries after `root`'s preferences became `updated`: the
/// others in order, then `updated` unless it is empty.
pub open spec fn prefs_saved(r: Seq<ProjectPrefs>, entries: Seq<ProjectPrefs>, root: Seq<char>, updated: PrefsView) -> bool {
    let others = prefs_others(entries, root);
    if prefs_nonempty(updated) {
        r.len() == others.len() + 1 && r.drop_last() == others && r.last()@ == updated
    } else {
        r == others
    }
}

impl ProjectPrefs {
    /// The preferences of `root`, empty when none were saved.
    pub fn load(stored: Option<Vec<ProjectPrefs>>, root: &String) -> (r: ProjectPrefs)
        ensures
            match first(stored_or_empty(stored), prefs_of(root@)) {
                Some(i) => r == stored_or_empty(stored)[i],
                None => r.root@.len() == 0 && r.archived@.len() == 0 && r.order@.len() == 0
                    && r.groups@.len() == 0,
            },
    {
        let mut entries = match stored {
            Some(v) => v,
            None => Vec::new(),
        };
        match find_prefs(&entries, root) {
            Some(i) => {
                proof {
                    lemma_first_from(entries@, prefs_of(root@), 0);
                }
                entries.remove(i)
            },
            None => ProjectPrefs {
                root: String::new(),
                archived: Vec::new(),
                order: Vec::new(),
                groups: Vec::new(),
            },
        }
    }

    /// The stored entries with `root`'s archived worktrees set to `worktrees`.
    pub fn save_archived(stored: Option<Vec<ProjectPrefs>>, root: &String, worktrees: &Vec<String>) -> (r: Vec<ProjectPrefs>)
        ensures
            prefs_saved(
                r@,
                stored_or_empty(stored),
                root@,
                PrefsView { archived: worktrees@, ..prefs_before(stored_or_empty(stored), *root) },
            ),
    {
        let (mut entries, mut entry) = Self::take_entry(stored, root);
        entry.archived = clone_strings(worktrees);
        let ghost others = entries@;
        Self::put_back(&mut entries, entry);
        proof {
            if prefs_nonempty(entry@) {
                assert(entries@.drop_last() =~= others);
            }
        }
        entries
    }

    /// The stored entries with `root`'s custom order set to `order`.
    pub fn save_order(stored: Option<Vec<ProjectPrefs>>, root: &String, order: &Vec<String>) -> (r: Vec<ProjectPrefs>)
        ensures
            prefs_saved(
                r@,
                stored_or_empty(stored),
                root@,
                PrefsView { order: order@, ..prefs_before(stored_or_empty(stored), *root) },
            ),
    {
        let (mut entries, mut entry) = Self::take_entry(stored, root);
        entry.order = clone_strings(order);
        let ghost others = entries@;
        Self::put_back(&mut entries, entry);
        proof {
            if prefs_nonempty(entry@) {
                assert(entries@.drop_last() =~= others);
            }
        }
        entries
    }

    /// The stored entries with `root`'s worktree groups set to `groups`.
    pub fn save_groups(stored: Option<Vec<ProjectPrefs>>, root: &String, groups: &Vec<WorktreeGroup>) -> (r: Vec<ProjectPrefs>)
        ensures
            prefs_saved(
                r@,
                stored_or_empty(stored),
                root@,
                PrefsView {
                    groups: groups_view(groups@),
                    ..prefs_before(stored_or_empty(stored), *root)
                },
            ),
    {
        let (mut entries, mut entry) = Self::take_entry(stored, root);
        entry.groups = clone_groups(groups);
        let ghost others = entries@;
        Self::put_back(&mut entries, entry);
        proof {
            if prefs_nonempty(entry@) {
                assert(entries@.drop_last() =~= others);
            }
        }
        entries
    }

    /// Takes `root`'s entry out of the stored ones, or starts an empty one.
    fn take_entry(stored: Option<Vec<ProjectPrefs>>, root: &String) -> (r: (Vec<ProjectPrefs>, ProjectPrefs))
        ensures
            r.0@ == prefs_others(stored_or_empty(stored), root@),
            r.1@ == prefs_before(stored_or_empty(stored), *root),
    {
        let mut entries = match stored {
            Some(v) => v,
            None => Vec::new(),
        };
        match find_prefs(&entries, root) {
            Some(i) => {
                proof {
                    lemma_first_from(entries@, prefs_of(root@), 0);
                }
                let e = entries.remove(i);
                (entries, e)
            },
            None => {
                let e = ProjectPrefs {
                    root: root.clone(),
                    archived: Vec::new(),
                    order: Vec::new(),
                    groups: Vec::new(),
                };
                proof {
                    assert(e@.groups =~= Seq::<GroupView>::empty());
                }
                (entries, e)
            },
        }
    }

    /// Puts an updated entry back last, unless it says nothing.
    fn put_back(entries: &mut Vec<ProjectPrefs>, entry: ProjectPrefs)
        ensures
            if prefs_nonempty(entry@) {
                final(entries)@ == old(entries)@.push(entry)
            } else {
                final(entries)@ == old(entries)@
            },
    {
        if entry.archived.len() > 0 || entry.order.len() > 0 || entry.groups.len() > 0 {
            entries.push(entry);
        }
    }
}

/// Where `root`'s entry is.
fn find_prefs(entries: &Vec<ProjectPrefs>, root: &String) -> (r: Option<usize>)
    ensures
        match r {
            Some(i) => first(entries@, prefs_of(root@)) == Some(i as int),
            None => first(entries@, prefs_of(root@)) is None,
        },
{
    let mut i: usize = 0;
    while i < entries.len() && entries[i].root != *root
        invariant
            i <= entries@.len(),
            first_from(entries@, prefs_of(root@), 0) == first_from(entries@, prefs_of(root@), i as int),
        decreases entries@.len() - i,
    {
        i = i + 1;
    }
    if i < entries.len() {
        Some(i)
    } else {
        None
    }
}

/// The working directory reported for panel `id`, when one is.
pub open spec fn cwd_of(cwds: Seq<(PanelId, Option<String>)>, id: PanelId) -> Option<Seq<char>> {
    match first(cwds, panel_entry(id)) {
        Some(i) => opt_text(cwds[i].1),
        None => None,
    }
}

/// The entry for panel `id`.
pub open spec fn panel_entry(id: PanelId) -> spec_fn((PanelId, Option<String>)) -> bool {
    |c: (PanelId, Option<String>)| c.0 == id
}

/// The panel `id`.
pub open spec fn is_panel(id: PanelId) -> spec_fn(PanelId) -> bool {
    |x: PanelId| x == id
}

/// The persisted shape of a panel tree, each panel with its directory.
pub open spec fn captured_layout(node: PanelNode, cwds: Seq<(PanelId, Option<String>)>) -> LayoutView
    decreases node,
{
    match node {
        PanelNode::Leaf(id) => LayoutView::Leaf(cwd_of(cwds, id)),
        PanelNode::Horizontal(a, b) => LayoutView::Horizontal(
            Box::new(captured_layout(*a, cwds)),
            Box::new(captured_layout(*b, cwds)),
        ),
        PanelNode::Vertical(a, b) => LayoutView::Vertical(
            Box::new(captured_layout(*a, cwds)),
            Box::new(captured_layout(*b, cwds)),
        ),
    }
}

/// The persisted form of a tab.
pub open spec fn captured_tab(t: Tab, cwds: Seq<(PanelId, Option<String>)>) -> SessionTabView {
    SessionTabView {
        worktree: opt_text(t.worktree),
        custom_title: opt_text(t.custom_title),
        group: opt_text(t.group),
        layout: captured_layout(t.panels, cwds),
        active_leaf: match first(t.panels.spec_leaves(), is_panel(t.active_panel)) {
            Some(i) => i as usize,
            None => 0,
        },
    }
}

/// The persisted form of tabs, in order.
pub open spec fn captured_tabs(tabs: Seq<Tab>, cwds: Seq<(PanelId, Option<String>)>) -> Seq<SessionTabView> {
    tabs.map_values(|t: Tab| captured_tab(t, cwds))
}

/// A tab filed under project `id`.
pub open spec fn filed_under(id: crate::state::ProjectId) -> spec_fn(Tab) -> bool {
    |t: Tab| t.project == Some(id)
}

/// The tabs of the first `k` projects, project by project, in tab order.
pub open spec fn tabs_by_project(s: AppState, k: int) -> Seq<Tab>
    decreases k,
{
    if k <= 0 {
        Seq::empty()
    } else {
        tabs_by_project(s, k - 1) + keep(s.tabs@, filed_under(s.projects@[k - 1].id))
    }
}

/// The persisted projects of a window: each open project and its tabs.
pub open spec fn captured_projects(s: AppState, cwds: Seq<(PanelId, Option<String>)>) -> Seq<SessionProjectView> {
    s.projects@.map_values(|p: crate::state::Project| SessionProjectView {
        root: p.root@,
        tabs: captured_tabs(keep(s.tabs@, filed_under(p.id)), cwds),
    })
}

/// Where the shown tab lands among the persisted tabs, 0 when it is not
/// persisted.
pub open spec fn captured_active(s: AppState) -> usize {
    let ordered = tabs_by_project(s, s.projects@.len() as int) + keep(s.tabs@, loose_tab());
    match s.active_id() {
        Some(id) => match first(ordered, tab_with_id(id)) {
            Some(i) => i as usize,
            None => 0,
        },
        None => 0,
    }
}

fn cwd_lookup(cwds: &Vec<(PanelId, Option<String>)>, id: PanelId) -> (r: Option<String>)
    ensures
        opt_text(r) == cwd_of(cwds@, id),
{
    let mut i: usize = 0;
    while i < cwds.len() && cwds[i].0 != id
        invariant
            i <= cwds@.len(),
            first_from(cwds@, panel_entry(id), 0) == first_from(cwds@, panel_entry(id), i as int),
        decreases cwds@.len() - i,
    {
        i = i + 1;
    }
    if i < cwds.len() {
        clone_opt(&cwds[i].1)
    } else {
        None
    }
}

impl PanelLayout {
    /// The persisted shape of `node`; `cwds` holds the directory each
    /// panel's terminal reports.
    pub fn capture(node: &PanelNode, cwds: &Vec<(PanelId, Option<String>)>) -> (r: PanelLayout)
        ensures
            r@ == captured_layout(*node, cwds@),
        decreases node,
    {
        match node {
            PanelNode::Leaf(id) => PanelLayout::Leaf { cwd: cwd_lookup(cwds, *id) },
            PanelNode::Horizontal(a, b) => PanelLayout::Horizontal(
                Box::new(Self::capture(a, cwds)),
                Box::new(Self::capture(b, cwds)),
            ),
            PanelNode::Vertical(a, b) => PanelLayout::Vertical(
                Box::new(Self::capture(a, cwds)),
                Box::new(Self::capture(b, cwds)),
            ),
        }
    }
}

impl SessionTab {
    /// The persisted form of `tab`.
    pub fn capture(tab: &Tab, cwds: &Vec<(PanelId, Option<String>)>) -> (r: SessionTab)
        ensures
            r@ == captured_tab(*tab, cwds@),
    {
        let leaves = tab.panels.leaves();
        let mut i: usize = 0;
        while i < leaves.len() && leaves[i] != tab.active_panel
            invariant
                i <= leaves@.len(),
                first_from(leaves@, is_panel(tab.active_panel), 0) == first_from(
                    leaves@,
                    is_panel(tab.active_panel),
                    i as int,
                ),
            decreases leaves@.len() - i,
        {
            i = i + 1;
        }
        let active_leaf = if i < leaves.len() {
            i
        } else {
            0
        };
        SessionTab {
            worktree: clone_opt(&tab.worktree),
            custom_title: clone_opt(&tab.custom_title),
            group: clone_opt(&tab.group),
            layout: PanelLayout::capture(&tab.panels, cwds),
            active_leaf,
        }
    }
}

/// The saved tabs of the first `k` saved projects, project by project.
pub open spec fn saved_project_tabs(ps: Seq<SessionProjectView>, k: int) -> Seq<SessionTabView>
    decreases k,
{
    if k <= 0 {
        Seq::empty()
    } else {
        saved_project_tabs(ps, k - 1) + ps[k - 1].tabs
    }
}

proof fn lemma_saved_project_tabs(s: AppState, cwds: Seq<(PanelId, Option<String>)>, k: int)
    requires
        0 <= k <= s.projects@.len(),
    ensures
        saved_project_tabs(captured_projects(s, cwds), k) == captured_tabs(tabs_by_project(s, k), cwds),
    decreases k,
{
    if k > 0 {
        lemma_saved_project_tabs(s, cwds, k - 1);
        let a = tabs_by_project(s, k - 1);
        let b = keep(s.tabs@, filed_under(s.projects@[k - 1].id));
        assert(captured_projects(s, cwds)[k - 1].tabs == captured_tabs(b, cwds));
        assert(captured_tabs(a + b, cwds) =~= captured_tabs(a, cwds) + captured_tabs(b, cwds));
    }
}

proof fn lemma_tabs_by_project_has(s: AppState, k: int, q: int, t: Tab)
    requires
        0 <= q < k <= s.projects@.len(),
        s.tabs@.contains(t),
        t.project == Some(s.projects@[q].id),
    ensures
        tabs_by_project(s, k).contains(t),
    decreases k,
{
    if q < k - 1 {
        lemma_tabs_by_project_has(s, k - 1, q, t);
        let a = tabs_by_project(s, k - 1);
        let i = choose|i: int| 0 <= i < a.len() && a[i] == t;
        assert(tabs_by_project(s, k)[i] == t);
    } else {
        let a = tabs_by_project(s, k - 1);
        let b = keep(s.tabs@, filed_under(s.projects@[q].id));
        crate::seqs::lemma_keep_contains(s.tabs@, filed_under(s.projects@[q].id), t);
        let i = choose|i: int| 0 <= i < b.len() && b[i] == t;
        assert((a + b)[a.len() + i] == t);
    }
}

proof fn lemma_tabs_by_project_from_tabs(s: AppState, k: int, i: int)
    requires
        0 <= k <= s.projects@.len(),
        0 <= i < tabs_by_project(s, k).len(),
    ensures
        s.tabs@.contains(tabs_by_project(s, k)[i]),
    decreases k,
{
    let a = tabs_by_project(s, k - 1);
    if i < a.len() {
        lemma_tabs_by_project_from_tabs(s, k - 1, i);
    } else {
        lemma_keep_element(s.tabs@, filed_under(s.projects@[k - 1].id), i - a.len());
    }
}

/// A saved session shows again the tab that was shown: the captured shown
/// position, among the saved tabs (the projects' tabs, then the loose
/// ones), holds the capture of the tab that was shown. This holds whenever
/// that tab is saved at all: it is loose or filed under an open project
/// (and the saved tabs fit in memory).
pub proof fn law_capture_points_at_shown(s: AppState, cwds: Seq<(PanelId, Option<String>)>)
    requires
        s.wf(),
        s.active_tab < s.tabs@.len(),
        match s.tabs@[s.active_tab as int].project {
            Some(pid) => exists|q: int| 0 <= q < s.projects@.len() && s.projects@[q].id == pid,
            None => true,
        },
        tabs_by_project(s, s.projects@.len() as int).len() + keep(s.tabs@, loose_tab()).len()
            <= usize::MAX,
    ensures
        ({
            let saved = saved_project_tabs(captured_projects(s, cwds), s.projects@.len() as int)
                + captured_tabs(keep(s.tabs@, loose_tab()), cwds);
            &&& captured_active(s) < saved.len()
            &&& saved[captured_active(s) as int] == captured_tab(s.tabs@[s.active_tab as int], cwds)
        }),
{
    let n = s.projects@.len() as int;
    let t = s.tabs@[s.active_tab as int];
    let id = t.id;
    let byp = tabs_by_project(s, n);
    let loose = keep(s.tabs@, loose_tab());
    let ordered = byp + loose;
    lemma_saved_project_tabs(s, cwds, n);
    assert(captured_tabs(ordered, cwds) =~= captured_tabs(byp, cwds) + captured_tabs(loose, cwds));
    assert(s.tabs@.contains(t));
    assert(ordered.contains(t)) by {
        match t.project {
            Some(pid) => {
                let q = choose|q: int| 0 <= q < s.projects@.len() && s.projects@[q].id == pid;
                lemma_tabs_by_project_has(s, n, q, t);
                let i = choose|i: int| 0 <= i < byp.len() && byp[i] == t;
                assert(ordered[i] == t);
            },
            None => {
                crate::seqs::lemma_keep_contains(s.tabs@, loose_tab(), t);
                let i = choose|i: int| 0 <= i < loose.len() && loose[i] == t;
                assert(ordered[byp.len() + i] == t);
            },
        }
    }
    let w = choose|w: int| 0 <= w < ordered.len() && ordered[w] == t;
    assert((tab_with_id(id))(ordered[w]));
    lemma_first_from(ordered, tab_with_id(id), 0);
    let i = first(ordered, tab_with_id(id)).unwrap();
    assert(ordered[i].id == id);
    assert(s.tabs@.contains(ordered[i])) by {
        if i < byp.len() {
            lemma_tabs_by_project_from_tabs(s, n, i);
            assert(ordered[i] == byp[i]);
        } else {
            assert(ordered[i] == loose[i - byp.len()]);
            lemma_keep_element(s.tabs@, loose_tab(), i - byp.len());
        }
    }
    let j = choose|j: int| 0 <= j < s.tabs@.len() && s.tabs@[j] == ordered[i];
    assert(j == s.active_tab as int) by {
        if j != s.active_tab as int {
            assert((tab_key())(s.tabs@[j]) != (tab_key())(s.tabs@[s.active_tab as int]));
        }
    }
    assert(s.active_id() == Some(id));
    assert(captured_active(s) as int == i);
}

impl Session {
    /// Snapshot of the window: open projects with their tabs (and panel
    /// layouts), loose tabs, and where the shown tab is among them; `cwds`
    /// holds the directory each panel's terminal reports, `now` the time.
    pub fn capture(state: &AppState, cwds: &Vec<(PanelId, Option<String>)>, now: u64) -> (r: Session)
        ensures
            r.started_at == state.started_at,
            r.saved_at == now,
            r@.projects == captured_projects(*state, cwds@),
            r@.loose_tabs == captured_tabs(keep(state.tabs@, loose_tab()), cwds@),
            r.active_tab == captured_active(*state),
    {
        let ghost ps = state.projects@;
        let ghost ts = state.tabs@;
        let ghost cw = cwds@;
        let mut projects: Vec<SessionProject> = Vec::new();
        let mut ordered: Vec<TabIdOnly> = Vec::new();
        let mut k: usize = 0;
        while k < state.projects.len()
            invariant
                ps == state.projects@,
                ts == state.tabs@,
                cw == cwds@,
                k <= ps.len(),
                projects_view(projects@) == captured_projects(*state, cw).take(k as int),
                ordered_ids(ordered@) == tab_ids_of(tabs_by_project(*state, k as int)),
            decreases ps.len() - k,
        {
            let pid = state.projects[k].id;
            let mut tabs: Vec<SessionTab> = Vec::new();
            let ghost start = ordered@;
            let mut t: usize = 0;
            while t < state.tabs.len()
                invariant
                    ps == state.projects@,
                    ts == state.tabs@,
                    cw == cwds@,
                    k < ps.len(),
                    pid == ps[k as int].id,
                    t <= ts.len(),
                    tabs_view(tabs@) == captured_tabs(keep(ts.take(t as int), filed_under(pid)), cw),
                    ordered_ids(ordered@) == ordered_ids(start) + tab_ids_of(keep(ts.take(t as int), filed_under(pid))),
                decreases ts.len() - t,
            {
                proof {
                    lemma_keep_step(ts, filed_under(pid), t as int);
                }
                if state.tabs[t].project == Some(pid) {
                    let c = SessionTab::capture(&state.tabs[t], cwds);
                    proof {
                        let kk = keep(ts.take(t as int), filed_under(pid));
                        assert(tabs_view(tabs@.push(c)) =~= tabs_view(tabs@).push(c@));
                        assert(captured_tabs(kk.push(ts[t as int]), cw) =~= captured_tabs(kk, cw).push(captured_tab(ts[t as int], cw)));
                        assert(ordered_ids(ordered@.push(TabIdOnly { id: state.tabs@[t as int].id })) =~= ordered_ids(ordered@).push(state.tabs@[t as int].id));
                        assert(tab_ids_of(kk.push(ts[t as int])) =~= tab_ids_of(kk).push(ts[t as int].id));
                    }
                    tabs.push(c);
                    ordered.push(TabIdOnly { id: state.tabs[t].id });
                }
                t = t + 1;
            }
            assert(ts.take(ts.len() as int) =~= ts);
            let sp = SessionProject { root: state.projects[k].root.clone(), tabs };
            proof {
                assert(projects_view(projects@.push(sp)) =~= projects_view(projects@).push(sp@));
                assert(captured_projects(*state, cw).take(k as int + 1) =~= captured_projects(*state, cw).take(k as int).push(captured_projects(*state, cw)[k as int]));
                assert(tab_ids_of(tabs_by_project(*state, k as int) + keep(ts, filed_under(pid))) =~= tab_ids_of(tabs_by_project(*state, k as int)) + tab_ids_of(keep(ts, filed_under(pid))));
            }
            projects.push(sp);
            k = k + 1;
        }
        assert(captured_projects(*state, cw).take(ps.len() as int) =~= captured_projects(*state, cw));
        let mut loose: Vec<SessionTab> = Vec::new();
        let ghost start = ordered@;
        let mut t: usize = 0;
        while t < state.tabs.len()
            invariant
                ts == state.tabs@,
                cw == cwds@,
                t <= ts.len(),
                tabs_view(loose@) == captured_tabs(keep(ts.take(t as int), loose_tab()), cw),
                ordered_ids(ordered@) == ordered_ids(start) + tab_ids_of(keep(ts.take(t as int), loose_tab())),
            decreases ts.len() - t,
        {
            proof {
                lemma_keep_step(ts, loose_tab(), t as int);
            }
            if state.tabs[t].project.is_none() {
                let c = SessionTab::capture(&state.tabs[t], cwds);
                proof {
                    let kk = keep(ts.take(t as int), loose_tab());
                    assert(tabs_view(loose@.push(c)) =~= tabs_view(loose@).push(c@));
                    assert(captured_tabs(kk.push(ts[t as int]), cw) =~= captured_tabs(kk, cw).push(captured_tab(ts[t as int], cw)));
                    assert(ordered_ids(ordered@.push(TabIdOnly { id: state.tabs@[t as int].id })) =~= ordered_ids(ordered@).push(state.tabs@[t as int].id));
                    assert(tab_ids_of(kk.push(ts[t as int])) =~= tab_ids_of(kk).push(ts[t as int].id));
                }
                loose.push(c);
                ordered.push(TabIdOnly { id: state.tabs[t].id });
            }
            t = t + 1;
        }
        assert(ts.take(ts.len() as int) =~= ts);
        let ghost all = tabs_by_project(*state, ps.len() as int) + keep(ts, loose_tab());
        assert(ordered_ids(ordered@) =~= tab_ids_of(all));
        let mut active_tab: usize = 0;
        if state.active_tab < state.tabs.len() {
            let id = state.tabs[state.active_tab].id;
            assert(ordered_ids(ordered@).len() == ordered@.len());
            assert(tab_ids_of(all).len() == all.len());
            let mut q: usize = 0;
            while q < ordered.len() && ordered[q].id != id
                invariant
                    q <= ordered@.len(),
                    ordered_ids(ordered@) == tab_ids_of(all),
                    ordered@.len() == all.len(),
                    forall|j: int| 0 <= j < q ==> all[j].id != id,
                decreases ordered@.len() - q,
            {
                assert(ordered_ids(ordered@)[q as int] == tab_ids_of(all)[q as int]);
                assert(tab_ids_of(all)[q as int] == all[q as int].id);
                assert(ordered_ids(ordered@)[q as int] == ordered@[q as int].id);
                q = q + 1;
            }
            if q < ordered.len() {
                assert(ordered_ids(ordered@)[q as int] == tab_ids_of(all)[q as int]);
                assert(tab_ids_of(all)[q as int] == all[q as int].id);
                assert(ordered_ids(ordered@)[q as int] == ordered@[q as int].id);
                proof {
                    crate::seqs::lemma_first_is(all, tab_with_id(id), q as int);
                }
                active_tab = q;
            } else {
                proof {
                    crate::seqs::lemma_first_none(all, tab_with_id(id));
                }
            }
        }
        Session {
            started_at: state.started_at,
            saved_at: now,
            projects,
            loose_tabs: loose,
            active_tab,
        }
    }
}

/// A tab's identity, kept while the snapshot is taken.
struct TabIdOnly {
    id: crate::state::TabId,
}

spec fn ordered_ids(s: Seq<TabIdOnly>) -> Seq<crate::state::TabId> {
    s.map_values(|x: TabIdOnly| x.id)
}

spec fn tab_ids_of(s: Seq<Tab>) -> Seq<crate::state::TabId> {
    s.map_values(|t: Tab| t.id)
}

/// Seconds since the Unix epoch, and how to render them for humans.
pub struct Timestamp;

/// How long ago `secs` was, seen at `now`: "just now" under a minute, then
/// whole minutes, hours or days.
pub open spec fn ago_text(now: u64, secs: u64) -> Seq<char> {
    let elapsed: int = if now >= secs { now - secs } else { 0 };
    if elapsed < 60 {
        seq!['j', 'u', 's', 't', ' ', 'n', 'o', 'w']
    } else if elapsed < 3600 {
        decimal((elapsed / 60) as nat) + seq!['m', ' ', 'a', 'g', 'o']
    } else if elapsed < 86_400 {
        decimal((elapsed / 3600) as nat) + seq!['h', ' ', 'a', 'g', 'o']
    } else {
        decimal((elapsed / 86_400) as nat) + seq!['d', ' ', 'a', 'g', 'o']
    }
}

impl Timestamp {
    /// How long before `now` the time `secs` was, for humans; both in
    /// seconds since the Unix epoch.
    pub fn ago(now: u64, secs: u64) -> (r: String)
        ensures
            r@ == ago_text(now, secs),
    {
        let elapsed = if now >= secs {
            now - secs
        } else {
            0
        };
        if elapsed < 60 {
            proof {
                reveal_strlit("just now");
            }
            let r = String::from_str("just now");
            assert(r@ =~= seq!['j', 'u', 's', 't', ' ', 'n', 'o', 'w']);
            return r;
        }
        let mut r = String::new();
        if elapsed < 3600 {
            push_decimal(&mut r, elapsed / 60);
            proof {
                reveal_strlit("m ago");
            }
            r.append("m ago");
        } else if elapsed < 86_400 {
            push_decimal(&mut r, elapsed / 3600);
            proof {
                reveal_strlit("h ago");
            }
            r.append("h ago");
        } else {
            push_decimal(&mut r, elapsed / 86_400);
            proof {
                reveal_strlit("d ago");
            }
            r.append("d ago");
        }
        assert(r@ =~= ago_text(now, secs));
        r
    }
}

proof fn lemma_staying_concat(a: Seq<SessionTab>, b: Seq<SessionTab>, base: int, act: int)
    ensures
        staying(a + b, base, act) == staying(a, base, act) + staying(b, base + a.len(), act),
    decreases b.len(),
{
    if b.len() == 0 {
        assert(a + b =~= a);
        assert(staying(a, base, act) + staying(b, base + a.len(), act) =~= staying(a, base, act));
    } else {
        let bd = b.drop_last();
        lemma_staying_concat(a, bd, base, act);
        assert((a + b).drop_last() =~= a + bd);
        assert((a + b).last() == b.last());
    }
}

proof fn lemma_flat_pruned(r: Session, s: Session, k: int)
    requires
        pruned_from(r, s),
        0 <= k <= s.projects@.len(),
    ensures
        flat_upto(r.projects@, k) == staying(flat_upto(s.projects@, k), 0, s.active_tab as int),
    decreases k,
{
    if k > 0 {
        lemma_flat_pruned(r, s, k - 1);
        lemma_staying_concat(flat_upto(s.projects@, k - 1), s.projects@[k - 1].tabs@, 0, s.active_tab as int);
        assert(r.projects@[k - 1].tabs@ == staying(
            s.projects@[k - 1].tabs@,
            flat_upto(s.projects@, k - 1).len() as int,
            s.active_tab as int,
        ));
    }
}

proof fn lemma_dropped_staying(t: Seq<SessionTab>, act: int)
    requires
        t.len() <= act,
    ensures
        dropped_before(t, act) + staying(t, 0, act).len() == t.len(),
    decreases t.len(),
{
    if t.len() > 0 {
        lemma_dropped_staying(t.drop_last(), act);
    }
}

proof fn lemma_dropped_prefix(t: Seq<SessionTab>, act: int, n: int)
    requires
        0 <= act <= n <= t.len(),
    ensures
        dropped_before(t.take(n), act) == dropped_before(t.take(act), act),
    decreases n,
{
    if n > act {
        lemma_dropped_prefix(t, act, n - 1);
        assert(t.take(n).drop_last() =~= t.take(n - 1));
    }
}

/// Dropping the inactive worktree tabs keeps the shown tab shown, and
/// every tab left is a plain tab or that shown tab.
pub proof fn law_prune_keeps_shown_tab(r: Session, s: Session)
    requires
        pruned_from(r, s),
        s.active_tab < all_tabs(s).len(),
    ensures
        r.active_tab < all_tabs(r).len(),
        all_tabs(r)[r.active_tab as int] == all_tabs(s)[s.active_tab as int],
        forall|i: int|
            0 <= i < all_tabs(r).len() ==> (#[trigger] all_tabs(r)[i]).worktree is None || all_tabs(r)[i]
                == all_tabs(s)[s.active_tab as int],
{
    let act = s.active_tab as int;
    let flat = all_tabs(s);
    let n = s.projects@.len() as int;
    lemma_flat_pruned(r, s, n);
    lemma_staying_concat(flat_upto(s.projects@, n), s.loose_tabs@, 0, act);
    assert(all_tabs(r) == staying(flat, 0, act));
    let a = flat.take(act);
    let b = flat.skip(act);
    assert(a + b =~= flat);
    lemma_staying_concat(a, b, 0, act);
    let b0 = seq![b[0]];
    let brest = b.skip(1);
    assert(b0 + brest =~= b);
    lemma_staying_concat(b0, brest, act, act);
    assert(b.len() == flat.len() - act);
    assert(b0.drop_last() =~= Seq::<SessionTab>::empty());
    assert(b0.last() == b[0]);
    assert(stays(b[0], act + b0.len() - 1, act));
    assert(staying(b0.drop_last(), act, act) =~= Seq::<SessionTab>::empty());
    assert(staying(b0, act, act) =~= seq![b[0]]);
    lemma_dropped_prefix(flat, act, flat.len() as int);
    assert(flat.take(flat.len() as int) =~= flat);
    lemma_dropped_staying(a, act);
    assert(staying(flat, 0, act)[staying(a, 0, act).len() as int] == b[0]);
    assert forall|i: int| 0 <= i < all_tabs(r).len() implies (#[trigger] all_tabs(r)[i]).worktree is None
        || all_tabs(r)[i] == all_tabs(s)[s.active_tab as int] by {
        lemma_staying_member(flat, 0, act, i);
    }
}

proof fn lemma_staying_member(t: Seq<SessionTab>, base: int, act: int, i: int)
    requires
        0 <= i < staying(t, base, act).len(),
        0 <= act - base < t.len() ==> true,
    ensures
        staying(t, base, act)[i].worktree is None || (0 <= act - base < t.len() && staying(t, base, act)[i]
            == t[act - base]),
    decreases t.len(),
{
    let d = t.drop_last();
    let r = staying(d, base, act);
    if stays(t.last(), base + t.len() - 1, act) && i == r.len() {
    } else {
        lemma_staying_member(d, base, act, i);
        if 0 <= act - base < d.len() {
            assert(d[act - base] == t[act - base]);
        }
    }
}

/// A worktree tab that stays sits where the shown tab lands once the tabs
/// before it are dropped, and the shown position is within `t`.
proof fn lemma_kept_worktree_position(t: Seq<SessionTab>, act: int, i: int)
    requires
        0 <= i < staying(t, 0, act).len(),
        staying(t, 0, act)[i].worktree is Some,
    ensures
        0 <= act < t.len(),
        i == act - dropped_before(t, act),
    decreases t.len(),
{
    let d = t.drop_last();
    let n = d.len() as int;
    let x = t.last();
    lemma_staying_push(d, 0, act, x);
    lemma_dropped_push(d, act, x);
    assert(d.push(x) =~= t);
    if stays(x, n, act) && i == staying(d, 0, act).len() {
        assert(staying(t, 0, act)[i] == x);
        assert(n == act);
        lemma_dropped_staying(d, act);
    } else {
        assert(staying(t, 0, act)[i] == staying(d, 0, act)[i]);
        lemma_kept_worktree_position(d, act, i);
    }
}

/// Tabs that all stay are all kept.
proof fn lemma_all_stay_kept(t: Seq<SessionTab>, base: int, act: int)
    requires
        forall|j: int| 0 <= j < t.len() ==> stays(#[trigger] t[j], base + j, act),
    ensures
        staying(t, base, act) == t,
    decreases t.len(),
{
    if t.len() > 0 {
        let d = t.drop_last();
        assert forall|j: int| 0 <= j < d.len() implies stays(#[trigger] d[j], base + j, act) by {
            assert(d[j] == t[j]);
        }
        lemma_all_stay_kept(d, base, act);
        assert(stays(t[t.len() - 1], base + t.len() - 1, act));
        assert(d.push(t.last()) =~= t);
    }
}

/// Tabs that all stay drop none.
proof fn lemma_all_stay_none_dropped(t: Seq<SessionTab>, act: int)
    requires
        forall|j: int| 0 <= j < t.len() ==> stays(#[trigger] t[j], j, act),
    ensures
        dropped_before(t, act) == 0,
    decreases t.len(),
{
    if t.len() > 0 {
        let d = t.drop_last();
        assert forall|j: int| 0 <= j < d.len() implies stays(#[trigger] d[j], j, act) by {
            assert(d[j] == t[j]);
        }
        lemma_all_stay_none_dropped(d, act);
        assert(stays(t[t.len() - 1], t.len() - 1, act));
    }
}

/// The tabs of project `k` sit in the flat list right after those of the
/// projects before it.
proof fn lemma_flat_index(ps: Seq<SessionProject>, k: int, n: int, j: int)
    requires
        0 <= k < n <= ps.len(),
        0 <= j < ps[k].tabs@.len(),
    ensures
        flat_upto(ps, k).len() + j < flat_upto(ps, n).len(),
        flat_upto(ps, n)[flat_upto(ps, k).len() + j] == ps[k].tabs@[j],
    decreases n,
{
    if n > k + 1 {
        lemma_flat_index(ps, k, n - 1, j);
    }
}

/// Dropping the inactive worktree tabs a second time drops nothing more:
/// the session stays as the first time left it.
pub proof fn law_prune_idempotent(s: Session, r1: Session, r2: Session)
    requires
        pruned_from(r1, s),
        pruned_from(r2, r1),
    ensures
        r2@ == r1@,
{
    let act = s.active_tab as int;
    let a1 = r1.active_tab as int;
    let all_s = all_tabs(s);
    let all_r = all_tabs(r1);
    let n = s.projects@.len() as int;
    lemma_flat_pruned(r1, s, n);
    lemma_staying_concat(flat_upto(s.projects@, n), s.loose_tabs@, 0, act);
    assert(all_r == staying(all_s, 0, act));
    assert forall|i: int| 0 <= i < all_r.len() implies stays(#[trigger] all_r[i], i, a1) by {
        if all_r[i].worktree is Some {
            lemma_kept_worktree_position(all_s, act, i);
        }
    }
    lemma_all_stay_none_dropped(all_r, a1);
    let fr = flat_upto(r1.projects@, n);
    assert forall|k: int| 0 <= k < n implies (#[trigger] r2.projects@[k]).tabs@
        == r1.projects@[k].tabs@ by {
        let seg = r1.projects@[k].tabs@;
        let base = flat_upto(r1.projects@, k).len() as int;
        assert forall|j: int| 0 <= j < seg.len() implies stays(#[trigger] seg[j], base + j, a1) by {
            lemma_flat_index(r1.projects@, k, n, j);
            assert(all_r[base + j] == fr[base + j]);
        }
        lemma_all_stay_kept(seg, base, a1);
    }
    let loose = r1.loose_tabs@;
    assert forall|j: int| 0 <= j < loose.len() implies stays(#[trigger] loose[j], fr.len() + j, a1) by {
        assert(all_r[fr.len() + j] == loose[j]);
    }
    lemma_all_stay_kept(loose, fr.len() as int, a1);
    assert(projects_view(r2.projects@) =~= projects_view(r1.projects@));
    assert(tabs_view(r2.loose_tabs@) =~= tabs_view(r1.loose_tabs@));
}

/// A preference update reads back: the entry of the root is the updated
/// one, and an update that leaves nothing to keep removes the entry.
pub proof fn law_prefs_read_after_write(
    entries: Seq<ProjectPrefs>,
    root: String,
    updated: PrefsView,
    r: Seq<ProjectPrefs>,
)
    requires
        forall|i: int, j: int|
            0 <= i < entries.len() && 0 <= j < entries.len() && i != j ==> entries[i].root@
                != entries[j].root@,
        updated.root@ == root@,
        prefs_saved(r, entries, root@, updated),
    ensures
        prefs_nonempty(updated) ==> (first(r, prefs_of(root@)) matches Some(i) && r[i]@ == updated),
        !prefs_nonempty(updated) ==> first(r, prefs_of(root@)) is None,
{
    let others = prefs_others(entries, root@);
    lemma_first_from(entries, prefs_of(root@), 0);
    assert forall|k: int| 0 <= k < others.len() implies others[k].root@ != root@ by {
        if let Some(f) = first(entries, prefs_of(root@)) {
            let ok = if k < f { k } else { k + 1 };
            assert(others[k] == entries[ok]);
        }
    }
    if prefs_nonempty(updated) {
        assert forall|k: int| 0 <= k < others.len() implies !(prefs_of(root@))(r[k]) by {
            assert(r[k] == r.drop_last()[k]);
        }
        assert(r[others.len() as int] == r.last());
        crate::seqs::lemma_first_is(r, prefs_of(root@), others.len() as int);
    } else {
        crate::seqs::lemma_first_none(r, prefs_of(root@));
    }
}

/// Moving a root to the front of the history leaves it first, once.
pub proof fn law_touch_first_once(recent: Seq<RecentProject>, root: String)
    ensures
        ({
            let r = capped(seq![RecentProject { root: root }] + keep(recent, not_root(root@)), MAX_RECENT_PROJECTS as int);
            &&& r.len() >= 1
            &&& r[0].root == root
            &&& forall|i: int| 1 <= i < r.len() ==> (#[trigger] r[i]).root@ != root@
        }),
{
    let full = seq![RecentProject { root: root }] + keep(recent, not_root(root@));
    let r = capped(full, MAX_RECENT_PROJECTS as int);
    assert forall|i: int| 1 <= i < r.len() implies (#[trigger] r[i]).root@ != root@ by {
        assert(r[i] == full[i]);
        assert(full[i] == keep(recent, not_root(root@))[i - 1]);
        lemma_keep_element(recent, not_root(root@), i - 1);
    }
}

/// The ring as loaded holds at most seven sessions, none of them empty.
pub proof fn law_loaded_sessions(stored: Option<Vec<Session>>)
    ensures
        loaded_sessions(stored).len() <= MAX_SESSIONS,
        forall|i: int|
            0 <= i < loaded_sessions(stored).len() ==> !(#[trigger] loaded_sessions(stored)[i]).spec_is_empty(),
{
    let k = keep(stored_or_empty(stored), non_empty_session());
    assert forall|i: int| 0 <= i < loaded_sessions(stored).len() implies !(#[trigger] loaded_sessions(
        stored,
    )[i]).spec_is_empty() by {
        assert(loaded_sessions(stored)[i] == k[i]);
        lemma_keep_element(stored_or_empty(stored), non_empty_session(), i);
    }
}

/// What a save writes loads back with the saved session first.
pub proof fn law_save_then_load(current: Session, written: Vec<Session>)
    requires
        !current.spec_is_empty(),
        written@.len() > 0,
        written@[0]@ == current@,
    ensures
        loaded_sessions(Some(written)).len() > 0,
        loaded_sessions(Some(written))[0]@ == current@,
{
    let w = written@;
    let first_one = w[0];
    assert(first_one@.projects.len() == first_one.projects@.len());
    assert(first_one@.loose_tabs.len() == first_one.loose_tabs@.len());
    assert(current@.projects.len() == current.projects@.len());
    assert(current@.loose_tabs.len() == current.loose_tabs@.len());
    assert((non_empty_session())(first_one));
    assert(seq![first_one] + w.drop_first() =~= w);
    crate::seqs::lemma_keep_prepend(first_one, w.drop_first(), non_empty_session());
}

/// Saving puts this run first, and no later entry is of this run or has
/// the same content; the ring stays within seven sessions.
pub proof fn law_save_newest_first(current: Session, stored: Option<Vec<Session>>, v: Seq<Session>)
    requires
        v.len() > 0,
        v[0]@ == current@,
        v.drop_first() == capped(
            keep(loaded_sessions(stored), superseded_by(current)),
            MAX_SESSIONS as int - 1,
        ),
    ensures
        v.len() <= MAX_SESSIONS,
        forall|i: int|
            1 <= i < v.len() ==> (#[trigger] v[i]).started_at != current.started_at && !(v[i]@.projects
                == current@.projects && v[i]@.loose_tabs == current@.loose_tabs && v[i].active_tab
                == current.active_tab),
{
    let k = keep(loaded_sessions(stored), superseded_by(current));
    assert(MAX_SESSIONS == 7);
    assert(v.drop_first().len() == v.len() - 1);
    if k.len() > 6 {
        assert(k.take(6).len() == 6);
    }
    assert forall|i: int| 1 <= i < v.len() implies (#[trigger] v[i]).started_at != current.started_at
        && !(v[i]@.projects == current@.projects && v[i]@.loose_tabs == current@.loose_tabs
        && v[i].active_tab == current.active_tab) by {
        assert(v[i] == v.drop_first()[i - 1]);
        if k.len() > MAX_SESSIONS as int - 1 {
            assert(v.drop_first() == k.take(MAX_SESSIONS as int - 1));
            assert(i - 1 < k.len());
            assert(v.drop_first()[i - 1] == k[i - 1]);
        } else {
            assert(v.drop_first() == k);
            assert(v.drop_first()[i - 1] == k[i - 1]);
        }
        lemma_keep_element(loaded_sessions(stored), superseded_by(current), i - 1);
    }
}

} // verus!
