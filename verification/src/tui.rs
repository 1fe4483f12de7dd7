//! The decisions of the terminal dashboard: which tab and row are selected,
//! what a key press does in each dialog, the per-poll histories of the
//! sparklines and the text of its log lines. Drawing is left to the program
//! around the library.

use vstd::prelude::*;
use vstd::arithmetic::div_mod::{lemma_add_mod_noop, lemma_mod_add_multiples_vanish, lemma_sub_mod_noop};
use crate::api::{DaemonEvent, ReleaseInfo};
use crate::oci::{reference_text, ImageRef};
use crate::config::{any_full, mode_from_text, widest, window_text, Mode, Policy};
use crate::error::Error;
use crate::release::ReleaseSummary;
use crate::text::{chars_of, dec, dec_string, hex_encode, push_str, string_of};

verus! {

/// The dashboard's tabs, in the order `Tab` cycles through them.
#[derive(Debug, Clone, Copy, PartialEq, Eq, Structural)]
pub enum Tab {
    Images,
    Peers,
    Events,
    Metrics,
}

pub open spec fn next_tab(t: Tab) -> Tab {
    match t {
        Tab::Images => Tab::Peers,
        Tab::Peers => Tab::Events,
        Tab::Events => Tab::Metrics,
        Tab::Metrics => Tab::Images,
    }
}

impl Tab {
    /// The tab after this one, wrapping around.
    pub fn next(self) -> (t: Tab)
        ensures
            t == next_tab(self),
    {
        match self {
            Tab::Images => Tab::Peers,
            Tab::Peers => Tab::Events,
            Tab::Events => Tab::Metrics,
            Tab::Metrics => Tab::Images,
        }
    }
}

/// Pressing `Tab` four times comes back to the same tab, passing through
/// every other one.
pub proof fn lemma_tab_cycle(t: Tab)
    ensures
        next_tab(next_tab(next_tab(next_tab(t)))) == t,
        next_tab(t) != t,
        next_tab(next_tab(t)) != t,
        next_tab(next_tab(next_tab(t))) != t,
{
}

/// Points kept per sparkline.
pub const HIST: usize = 120;

/// The last `n` items of `s` (all of them when it has no more).
pub open spec fn keep_last<T>(s: Seq<T>, n: nat) -> Seq<T> {
    if s.len() > n {
        s.subrange(s.len() - n, s.len() as int)
    } else {
        s
    }
}

/// `cur - prev`, or 0 when the counter went down.
pub open spec fn saturating_delta(cur: u64, prev: u64) -> u64 {
    if cur >= prev {
        (cur - prev) as u64
    } else {
        0
    }
}

/// Appends the per-poll delta of a counter, keeping at most `HIST` points.
pub fn push_delta(hist: &mut Vec<u64>, cur: u64, prev: u64)
    ensures
        final(hist)@ == keep_last(old(hist)@.push(saturating_delta(cur, prev)), HIST as nat),
{
    hist.push(cur.saturating_sub(prev));
    if hist.len() > HIST {
        let drop = hist.len() - HIST;
        let mut kept: Vec<u64> = Vec::new();
        let mut i: usize = drop;
        while i < hist.len()
            invariant
                drop <= i <= hist@.len(),
                kept@ == hist@.subrange(drop as int, i as int),
            decreases hist@.len() - i,
        {
            kept.push(hist[i]);
            assert(kept@ =~= hist@.subrange(drop as int, i + 1));
            i = i + 1;
        }
        *hist = kept;
    }
}

/// The selected row once the table has `len` rows: none in an empty table,
/// the first row when nothing was selected, the last row when the selection
/// fell off the end.
pub open spec fn clamped(selected: Option<usize>, len: usize) -> Option<usize> {
    if len == 0 {
        None
    } else {
        match selected {
            None => Some(0),
            Some(i) => if i >= len {
                Some((len - 1) as usize)
            } else {
                Some(i)
            },
        }
    }
}

pub fn clamp(selected: Option<usize>, len: usize) -> (r: Option<usize>)
    ensures
        r == clamped(selected, len),
        len > 0 ==> (r matches Some(i) && i < len),
{
    if len == 0 {
        None
    } else {
        match selected {
            None => Some(0),
            Some(i) => if i >= len {
                Some(len - 1)
            } else {
                Some(i)
            },
        }
    }
}

/// The selection moved by `delta` rows, wrapping around a table of `len`
/// rows (no change in an empty table); no selection counts as the first row.
pub open spec fn moved(selected: Option<usize>, len: usize, delta: isize) -> Option<usize> {
    if len == 0 {
        selected
    } else {
        let cur: int = match selected {
            Some(c) => c as int,
            None => 0,
        };
        Some(((cur + delta) % (len as int)) as usize)
    }
}

pub fn move_selection(selected: Option<usize>, len: usize, delta: isize) -> (r: Option<usize>)
    ensures
        r == moved(selected, len, delta),
        len > 0 ==> (r matches Some(i) && i < len),
{
    if len == 0 {
        return selected;
    }
    let cur: usize = match selected {
        Some(c) => c,
        None => 0,
    };
    let n: u128 = len as u128;
    let c: u128 = (cur as u128) % n;
    let ghost target = ((cur as int + delta as int) % (len as int));
    if delta >= 0 {
        let d: u128 = (delta as u128) % n;
        let r: u128 = (c + d) % n;
        proof {
            lemma_add_mod_noop(cur as int, delta as int, len as int);
        }
        Some(r as usize)
    } else {
        let back: i128 = 0i128 - (delta as i128);
        let m: u128 = (back as u128) % n;
        let r: u128 = (c + n - m) % n;
        proof {
            lemma_sub_mod_noop(cur as int, back as int, len as int);
            lemma_mod_add_multiples_vanish(c - m, len as int);
            assert(c + n - m == len + (c - m));
        }
        Some(r as usize)
    }
}

/// The first ten characters of an id and an ellipsis, for tables.
pub open spec fn short_text(s: Seq<char>) -> Seq<char> {
    s.take(if s.len() < 10 {
        s.len() as int
    } else {
        10
    }).push('…')
}

pub fn short(s: &str) -> (r: String)
    ensures
        r@ == short_text(s@),
{
    let v = chars_of(s);
    let n: usize = if v.len() < 10 {
        v.len()
    } else {
        10
    };
    let mut out: Vec<char> = Vec::new();
    let mut i: usize = 0;
    while i < n
        invariant
            n <= v@.len(),
            0 <= i <= n,
            out@ == v@.take(i as int),
        decreases n - i,
    {
        out.push(v[i]);
        assert(out@ =~= v@.take(i + 1));
        i = i + 1;
    }
    out.push('…');
    crate::text::string_of(&out)
}


// ---------------------------------------------------------------------------
// keys and dialogs
// ---------------------------------------------------------------------------

/// The key of a key press, as far as the dashboard tells keys apart.
#[derive(Debug, Clone, Copy, PartialEq, Eq, Structural)]
pub enum KeyCode {
    Char(char),
    Esc,
    Enter,
    Backspace,
    Tab,
    Up,
    Down,
    Other,
}

/// A key press: the key and whether Control was held.
#[derive(Debug, Clone, Copy, PartialEq, Eq, Structural)]
pub struct Key {
    pub code: KeyCode,
    pub ctrl: bool,
}

/// What a key does when no dialog is open.
#[derive(Debug, Clone, Copy, PartialEq, Eq, Structural)]
pub enum Command {
    Quit,
    NextTab,
    ShowTab(Tab),
    Down,
    Up,
    Refresh,
    Sync,
    AskGc(bool),
    Pin,
    Follow,
    AskSeed,
    AskDelete,
    Ignore,
}

/// The key bindings: `q` / Ctrl-C quit, Tab and `1`-`4` switch tabs, `j`/`k`
/// and the arrows move, `r` refreshes, `y` syncs, `g`/`G` collect garbage,
/// `p` pins, `f` follows, `s` seeds, `d` deletes.
pub open spec fn command_of(k: Key) -> Command {
    match k.code {
        KeyCode::Char('q') => Command::Quit,
        KeyCode::Char('c') => if k.ctrl {
            Command::Quit
        } else {
            Command::Ignore
        },
        KeyCode::Tab => Command::NextTab,
        KeyCode::Char('1') => Command::ShowTab(Tab::Images),
        KeyCode::Char('2') => Command::ShowTab(Tab::Peers),
        KeyCode::Char('3') => Command::ShowTab(Tab::Events),
        KeyCode::Char('4') => Command::ShowTab(Tab::Metrics),
        KeyCode::Down => Command::Down,
        KeyCode::Char('j') => Command::Down,
        KeyCode::Up => Command::Up,
        KeyCode::Char('k') => Command::Up,
        KeyCode::Char('r') => Command::Refresh,
        KeyCode::Char('y') => Command::Sync,
        KeyCode::Char('g') => Command::AskGc(false),
        KeyCode::Char('G') => Command::AskGc(true),
        KeyCode::Char('p') => Command::Pin,
        KeyCode::Char('f') => Command::Follow,
        KeyCode::Char('s') => Command::AskSeed,
        KeyCode::Char('d') => Command::AskDelete,
        _ => Command::Ignore,
    }
}

pub fn command(k: Key) -> (c: Command)
    ensures
        c == command_of(k),
{
    match k.code {
        KeyCode::Char('q') => Command::Quit,
        KeyCode::Char('c') => if k.ctrl {
            Command::Quit
        } else {
            Command::Ignore
        },
        KeyCode::Tab => Command::NextTab,
        KeyCode::Char('1') => Command::ShowTab(Tab::Images),
        KeyCode::Char('2') => Command::ShowTab(Tab::Peers),
        KeyCode::Char('3') => Command::ShowTab(Tab::Events),
        KeyCode::Char('4') => Command::ShowTab(Tab::Metrics),
        KeyCode::Down => Command::Down,
        KeyCode::Char('j') => Command::Down,
        KeyCode::Up => Command::Up,
        KeyCode::Char('k') => Command::Up,
        KeyCode::Char('r') => Command::Refresh,
        KeyCode::Char('y') => Command::Sync,
        KeyCode::Char('g') => Command::AskGc(false),
        KeyCode::Char('G') => Command::AskGc(true),
        KeyCode::Char('p') => Command::Pin,
        KeyCode::Char('f') => Command::Follow,
        KeyCode::Char('s') => Command::AskSeed,
        KeyCode::Char('d') => Command::AskDelete,
        _ => Command::Ignore,
    }
}

/// A dialog over the dashboard.
#[derive(Debug, Clone)]
pub enum Modal {
    Closed,
    ConfirmGc { force: bool },
    /// Delete the release with this reference.
    ConfirmDelete(String),
    /// Seed `<publisher>/<name>`; the user types the retention mode.
    SeedPrompt { target: String, input: String },
    /// A transient message, closed by any key (or by the caller after a few
    /// seconds).
    Notice(String),
}

/// The colour a log line is shown in.
#[derive(Debug, Clone, Copy, PartialEq, Eq, Structural)]
pub enum Tone {
    Blue,
    Green,
    LightGreen,
    Yellow,
    Cyan,
    Magenta,
    Gray,
    DarkGray,
    Red,
    LightCyan,
}

/// A line of the event log.
#[derive(Debug, Clone)]
pub struct LogLine {
    pub kind: &'static str,
    pub msg: String,
    pub tone: Tone,
}

/// What the caller does after a key press.
#[derive(Debug, Clone)]
pub enum Action {
    Nothing,
    /// Fetch status, releases, peers, policy and metrics again.
    Poll,
    Sync,
    Gc { force: bool },
    Delete(String),
    /// Seed `target` with the mode typed in `input`.
    Seed { target: String, input: String },
    /// Pin or unpin the release at this row.
    TogglePin(usize),
    /// Follow the publisher of the release at this row.
    Follow(usize),
    /// Log a line (the same text is shown as a notice).
    Report(LogLine),
}

/// The text of the notice given when a policy action targets an own release.
pub open spec fn own_release_msg() -> Seq<char> {
    "own release: always kept, no policy needed"@
}

/// The selection state of the dashboard.
#[derive(Debug, Clone)]
pub struct Ui {
    pub tab: Tab,
    pub modal: Modal,
    /// The selected row of the images table.
    pub images: Option<usize>,
    /// The selected row of the peers table.
    pub peer_rows: Option<usize>,
    pub quit: bool,
}

/// The row of `releases` that is selected, if it exists.
pub open spec fn selected_row(images: Option<usize>, n: nat) -> Option<int> {
    match images {
        Some(i) => if i < n {
            Some(i as int)
        } else {
            None
        },
        None => None,
    }
}

/// `y` or `Y`.
pub open spec fn yes(k: Key) -> bool {
    k.code == KeyCode::Char('y') || k.code == KeyCode::Char('Y')
}

/// `<publisher>/<name>`: what the seed dialog seeds.
pub open spec fn seed_target(r: ReleaseInfo) -> Seq<char> {
    reference_text(r.summary.publisher@, r.summary.name@, None)
}

/// `<publisher>/<name>:<tag>`: what the delete dialog deletes.
pub open spec fn delete_target(r: ReleaseInfo) -> Seq<char> {
    reference_text(r.summary.publisher@, r.summary.name@, Some(r.summary.tag@))
}

/// Nothing but the dialog changes.
pub open spec fn same_view(a: Ui, b: Ui) -> bool {
    a.tab == b.tab && a.images == b.images && a.peer_rows == b.peer_rows && a.quit == b.quit
}

/// The result of a policy key (`p`, `f`, `s`) on the selected row: nothing
/// without a selection, the own-release notice on an own release.
pub open spec fn refused_own(old: Ui, new: Ui, r: Action, releases: Seq<ReleaseInfo>) -> bool {
    match selected_row(old.images, releases.len()) {
        None => same_view(new, old) && new.modal == old.modal && r == Action::Nothing,
        Some(i) => releases[i].mine ==> {
            &&& same_view(new, old)
            &&& new.modal matches Modal::Notice(m) && m@ == own_release_msg()
            &&& r matches Action::Report(l) && l.kind@ == "POLICY"@ && l.msg@ == own_release_msg()
                && l.tone == Tone::Yellow
        },
    }
}

/// A move of the selection on the current tab (images or peers), with no
/// other change.
pub open spec fn moved_rows(o: Ui, f: Ui, releases: usize, peers: usize, delta: isize) -> bool {
    &&& f.tab == o.tab
    &&& f.quit == o.quit
    &&& f.modal is Closed
    &&& f.images == if o.tab == Tab::Images {
        moved(o.images, releases, delta)
    } else {
        o.images
    }
    &&& f.peer_rows == if o.tab == Tab::Peers {
        moved(o.peer_rows, peers, delta)
    } else {
        o.peer_rows
    }
}

impl Ui {
    /// The dashboard as it starts: images tab, no dialog, nothing selected.
    pub fn new() -> (u: Ui)
        ensures
            u.tab == Tab::Images,
            u.modal is Closed,
            u.images is None,
            u.peer_rows is None,
            !u.quit,
    {
        Ui { tab: Tab::Images, modal: Modal::Closed, images: None, peer_rows: None, quit: false }
    }

    fn notice_own(&mut self) -> (r: Action)
        ensures
            same_view(*final(self), *old(self)),
            final(self).modal matches Modal::Notice(m) && m@ == own_release_msg(),
            r matches Action::Report(l) && l.kind@ == "POLICY"@ && l.msg@ == own_release_msg()
                && l.tone == Tone::Yellow,
    {
        proof {
            reveal_strlit("own release: always kept, no policy needed");
        }
        let msg = crate::text::owned("own release: always kept, no policy needed");
        self.modal = Modal::Notice(msg.clone());
        Action::Report(LogLine { kind: "POLICY", msg, tone: Tone::Yellow })
    }

    /// Handles a key press: a dialog takes the key first (any key closes a
    /// notice; `y` confirms garbage collection or a delete, any other key
    /// cancels; the seed dialog edits its input until Enter, Esc or Ctrl-C/D);
    /// without a dialog the key runs its `command_of`.
    pub fn on_key(&mut self, key: Key, releases: &[ReleaseInfo], peers: usize) -> (r: Action)
        ensures
            match old(self).modal {
                Modal::ConfirmGc { force } => {
                    &&& same_view(*final(self), *old(self))
                    &&& final(self).modal is Closed
                    &&& r == if yes(key) {
                        Action::Gc { force }
                    } else {
                        Action::Nothing
                    }
                },
                Modal::ConfirmDelete(reference) => {
                    &&& same_view(*final(self), *old(self))
                    &&& final(self).modal is Closed
                    &&& if yes(key) {
                        r matches Action::Delete(x) && x@ == reference@
                    } else {
                        r == Action::Nothing
                    }
                },
                Modal::SeedPrompt { target, input } => {
                    &&& same_view(*final(self), *old(self))
                    &&& if key.ctrl && (key.code == KeyCode::Char('c') || key.code == KeyCode::Char('d')) {
                        final(self).modal is Closed && r == Action::Nothing
                    } else {
                        match key.code {
                            KeyCode::Esc => final(self).modal is Closed && r == Action::Nothing,
                            KeyCode::Enter => final(self).modal is Closed && (r matches Action::Seed {
                                target: t,
                                input: i,
                            } && t@ == target@ && i@ == input@),
                            KeyCode::Backspace => r == Action::Nothing && (final(self).modal matches Modal::SeedPrompt {
                                target: t,
                                input: i,
                            } && t@ == target@ && i@ == (if input@.len() > 0 {
                                input@.drop_last()
                            } else {
                                input@
                            })),
                            KeyCode::Char(c) => r == Action::Nothing && (final(self).modal matches Modal::SeedPrompt {
                                target: t,
                                input: i,
                            } && t@ == target@ && i@ == input@.push(c)),
                            _ => r == Action::Nothing && final(self).modal == old(self).modal,
                        }
                    }
                },
                Modal::Notice(_) => same_view(*final(self), *old(self)) && final(self).modal is Closed
                    && r == Action::Nothing,
                Modal::Closed => {
                    let o = *old(self);
                    let f = *final(self);
                    let sel = selected_row(o.images, releases@.len());
                    match command_of(key) {
                        Command::Quit => f.quit && f.tab == o.tab && f.images == o.images
                            && f.peer_rows == o.peer_rows && f.modal is Closed && r == Action::Nothing,
                        Command::NextTab => f.tab == next_tab(o.tab) && f.images == o.images
                            && f.peer_rows == o.peer_rows && f.quit == o.quit && f.modal is Closed
                            && r == Action::Nothing,
                        Command::ShowTab(t) => f.tab == t && f.images == o.images && f.peer_rows
                            == o.peer_rows && f.quit == o.quit && f.modal is Closed && r
                            == Action::Nothing,
                        Command::Down => moved_rows(o, f, releases@.len() as usize, peers, 1isize) && r
                            == Action::Nothing,
                        Command::Up => moved_rows(o, f, releases@.len() as usize, peers, -1isize) && r
                            == Action::Nothing,
                        Command::Refresh => same_view(f, o) && f.modal is Closed && r == Action::Poll,
                        Command::Sync => same_view(f, o) && f.modal is Closed && r == Action::Sync,
                        Command::AskGc(force) => same_view(f, o) && f.modal == (Modal::ConfirmGc {
                            force,
                        }) && r == Action::Nothing,
                        Command::Pin => refused_own(o, f, r, releases@) && match sel {
                            Some(i) => !releases@[i].mine ==> same_view(f, o) && f.modal is Closed
                                && r == Action::TogglePin(i as usize),
                            None => true,
                        },
                        Command::Follow => refused_own(o, f, r, releases@) && match sel {
                            Some(i) => !releases@[i].mine ==> same_view(f, o) && f.modal is Closed
                                && r == Action::Follow(i as usize),
                            None => true,
                        },
                        Command::AskSeed => refused_own(o, f, r, releases@) && match sel {
                            Some(i) => !releases@[i].mine ==> same_view(f, o) && r == Action::Nothing
                                && (f.modal matches Modal::SeedPrompt { target: t, input: x } && t@
                                == seed_target(releases@[i]) && x@ == "latest"@),
                            None => true,
                        },
                        Command::AskDelete => same_view(f, o) && r == Action::Nothing && match sel {
                            None => f.modal is Closed,
                            Some(i) => f.modal matches Modal::ConfirmDelete(x) && x@ == delete_target(
                                releases@[i],
                            ),
                        },
                        Command::Ignore => same_view(f, o) && f.modal is Closed && r == Action::Nothing,
                    }
                },
            },
    {
        match &self.modal {
            Modal::ConfirmGc { force } => {
                let f = *force;
                self.modal = Modal::Closed;
                if key.code == KeyCode::Char('y') || key.code == KeyCode::Char('Y') {
                    return Action::Gc { force: f };
                }
                return Action::Nothing;
            },
            Modal::ConfirmDelete(reference) => {
                let x = reference.clone();
                self.modal = Modal::Closed;
                if key.code == KeyCode::Char('y') || key.code == KeyCode::Char('Y') {
                    return Action::Delete(x);
                }
                return Action::Nothing;
            },
            Modal::SeedPrompt { target, input } => {
                let t = target.clone();
                let mut i = input.clone();
                if key.ctrl && (key.code == KeyCode::Char('c') || key.code == KeyCode::Char('d')) {
                    self.modal = Modal::Closed;
                    return Action::Nothing;
                }
                match key.code {
                    KeyCode::Esc => {
                        self.modal = Modal::Closed;
                    },
                    KeyCode::Enter => {
                        self.modal = Modal::Closed;
                        return Action::Seed { target: t, input: i };
                    },
                    KeyCode::Backspace => {
                        let mut v = chars_of(i.as_str());
                        if v.len() > 0 {
                            v.pop();
                        }
                        i = string_of(&v);
                        self.modal = Modal::SeedPrompt { target: t, input: i };
                    },
                    KeyCode::Char(c) => {
                        let mut v = chars_of(i.as_str());
                        v.push(c);
                        i = string_of(&v);
                        self.modal = Modal::SeedPrompt { target: t, input: i };
                    },
                    _ => {},
                }
                return Action::Nothing;
            },
            Modal::Notice(_) => {
                self.modal = Modal::Closed;
                return Action::Nothing;
            },
            Modal::Closed => {},
        }
        let selected: Option<usize> = match self.images {
            Some(i) => if i < releases.len() {
                Some(i)
            } else {
                None
            },
            None => None,
        };
        match command(key) {
            Command::Quit => {
                self.quit = true;
                Action::Nothing
            },
            Command::NextTab => {
                self.tab = self.tab.next();
                Action::Nothing
            },
            Command::ShowTab(t) => {
                self.tab = t;
                Action::Nothing
            },
            Command::Down => {
                self.move_rows(releases.len(), peers, 1);
                Action::Nothing
            },
            Command::Up => {
                self.move_rows(releases.len(), peers, -1);
                Action::Nothing
            },
            Command::Refresh => Action::Poll,
            Command::Sync => Action::Sync,
            Command::AskGc(force) => {
                self.modal = Modal::ConfirmGc { force };
                Action::Nothing
            },
            Command::Pin => match selected {
                None => Action::Nothing,
                Some(i) => if releases[i].mine {
                    self.notice_own()
                } else {
                    Action::TogglePin(i)
                },
            },
            Command::Follow => match selected {
                None => Action::Nothing,
                Some(i) => if releases[i].mine {
                    self.notice_own()
                } else {
                    Action::Follow(i)
                },
            },
            Command::AskSeed => match selected {
                None => Action::Nothing,
                Some(i) => if releases[i].mine {
                    self.notice_own()
                } else {
                    let s = &releases[i].summary;
                    let target = ImageRef { publisher: s.publisher, name: s.name.clone(), tag: None }.to_string();
                    proof {
                        reveal_strlit("latest");
                    }
                    let input = crate::text::owned("latest");
                    self.modal = Modal::SeedPrompt { target, input };
                    Action::Nothing
                },
            },
            Command::AskDelete => match selected {
                None => Action::Nothing,
                Some(i) => {
                    let s = &releases[i].summary;
                    let reference = ImageRef {
                        publisher: s.publisher,
                        name: s.name.clone(),
                        tag: Some(s.tag.clone()),
                    }.to_string();
                    self.modal = Modal::ConfirmDelete(reference);
                    Action::Nothing
                },
            },
            Command::Ignore => Action::Nothing,
        }
    }

    /// Moves the selection of the table on the current tab.
    fn move_rows(&mut self, releases: usize, peers: usize, delta: isize)
        ensures
            final(self).tab == old(self).tab,
            final(self).quit == old(self).quit,
            final(self).modal == old(self).modal,
            final(self).images == if old(self).tab == Tab::Images {
                moved(old(self).images, releases, delta)
            } else {
                old(self).images
            },
            final(self).peer_rows == if old(self).tab == Tab::Peers {
                moved(old(self).peer_rows, peers, delta)
            } else {
                old(self).peer_rows
            },
    {
        match self.tab {
            Tab::Images => {
                self.images = move_selection(self.images, releases, delta);
            },
            Tab::Peers => {
                self.peer_rows = move_selection(self.peer_rows, peers, delta);
            },
            _ => {},
        }
    }
}


// ---------------------------------------------------------------------------
// the event log
// ---------------------------------------------------------------------------

/// Lines kept in the event log.
pub const LOG_CAP: usize = 200;

/// The log with `e` added in front; the oldest line makes room once the log
/// is full.
pub open spec fn logged<T>(log: Seq<T>, e: T) -> Seq<T> {
    if log.len() >= LOG_CAP {
        seq![e] + log.drop_last()
    } else {
        seq![e] + log
    }
}

/// Adds a line to the front of the log (newest first).
pub fn log_push<T>(log: &mut Vec<T>, e: T)
    ensures
        final(log)@ == logged(old(log)@, e),
{
    if log.len() >= LOG_CAP {
        log.pop();
    }
    log.insert(0, e);
    assert(final(log)@ =~= logged(old(log)@, e));
}

/// `<short publisher>/<name>:<tag>`
pub open spec fn release_text(p: Seq<u8>, name: Seq<char>, tag: Seq<char>) -> Seq<char> {
    short_text(hex_encode(p)) + "/"@ + name + ":"@ + tag
}

/// The log line of a daemon event as `(kind, message, tone)`: gossip in or
/// out, saved and pruned releases, peers coming and going, and HTTP requests
/// (red from status 400 on); fetch progress and failures are not logged.
pub open spec fn event_log(ev: DaemonEvent) -> Option<(Seq<char>, Seq<char>, Tone)> {
    match ev {
        DaemonEvent::Gossip { publisher, name, tag, outbound } => Some(
            (
                "GOSSIP"@,
                (if outbound {
                    "→"@
                } else {
                    "←"@
                }) + " "@ + release_text(publisher@, name@, tag@),
                if outbound {
                    Tone::Blue
                } else {
                    Tone::Green
                },
            ),
        ),
        DaemonEvent::ReleaseSaved { publisher, name, tag, blobs } => Some(
            (
                "SAVED"@,
                release_text(publisher@, name@, tag@) + " ("@ + dec(blobs as nat) + " blobs)"@,
                Tone::LightGreen,
            ),
        ),
        DaemonEvent::Pruned { publisher, name, tag, reason } => Some(
            ("PRUNE"@, release_text(publisher@, name@, tag@) + " ("@ + reason@ + ")"@, Tone::Yellow),
        ),
        DaemonEvent::PeerChange { id, connected } => Some(
            (
                "PEER"@,
                short_text(hex_encode(id@)) + " "@ + if connected {
                    "connected"@
                } else {
                    "disconnected"@
                },
                if connected {
                    Tone::Cyan
                } else {
                    Tone::DarkGray
                },
            ),
        ),
        DaemonEvent::HttpRequest { method, path, status } => Some(
            (
                "HTTP"@,
                method@ + " "@ + path@ + " → "@ + dec(status as nat),
                if status < 400 {
                    Tone::Gray
                } else {
                    Tone::Red
                },
            ),
        ),
        DaemonEvent::PullProgress { .. } => None,
        DaemonEvent::FetchFailed { .. } => None,
    }
}

fn push_release(out: &mut Vec<char>, p: &crate::identity::PublisherId, name: &str, tag: &str)
    ensures
        final(out)@ == old(out)@ + release_text(p@, name@, tag@),
{
    let h = p.to_string();
    let sh = short(h.as_str());
    push_str(out, sh.as_str());
    push_str(out, "/");
    push_str(out, name);
    push_str(out, ":");
    push_str(out, tag);
    proof {
        reveal_strlit("/");
        reveal_strlit(":");
    }
    assert(final(out)@ =~= old(out)@ + release_text(p@, name@, tag@));
}

/// The log line of a daemon event, if it is logged.
pub fn event_line(ev: &DaemonEvent) -> (r: Option<LogLine>)
    ensures
        match event_log(*ev) {
            Some((k, m, t)) => r matches Some(l) && l.kind@ == k && l.msg@ == m && l.tone == t,
            None => r is None,
        },
{
    let mut m: Vec<char> = Vec::new();
    match ev {
        DaemonEvent::Gossip { publisher, name, tag, outbound } => {
            proof {
                reveal_strlit("→");
                reveal_strlit("←");
                reveal_strlit(" ");
            }
            if *outbound {
                push_str(&mut m, "→");
            } else {
                push_str(&mut m, "←");
            }
            push_str(&mut m, " ");
            push_release(&mut m, publisher, name.as_str(), tag.as_str());
            let tone = if *outbound {
                Tone::Blue
            } else {
                Tone::Green
            };
            proof {
                reveal_strlit("GOSSIP");
            }
            Some(LogLine { kind: "GOSSIP", msg: string_of(&m), tone })
        },
        DaemonEvent::ReleaseSaved { publisher, name, tag, blobs } => {
            push_release(&mut m, publisher, name.as_str(), tag.as_str());
            push_str(&mut m, " (");
            let n = dec_string(*blobs as u64);
            push_str(&mut m, n.as_str());
            push_str(&mut m, " blobs)");
            proof {
                reveal_strlit("SAVED");
            }
            Some(LogLine { kind: "SAVED", msg: string_of(&m), tone: Tone::LightGreen })
        },
        DaemonEvent::Pruned { publisher, name, tag, reason } => {
            push_release(&mut m, publisher, name.as_str(), tag.as_str());
            push_str(&mut m, " (");
            push_str(&mut m, reason.as_str());
            push_str(&mut m, ")");
            proof {
                reveal_strlit("PRUNE");
            }
            Some(LogLine { kind: "PRUNE", msg: string_of(&m), tone: Tone::Yellow })
        },
        DaemonEvent::PeerChange { id, connected } => {
            let h = id.to_string();
            let sh = short(h.as_str());
            push_str(&mut m, sh.as_str());
            push_str(&mut m, " ");
            if *connected {
                push_str(&mut m, "connected");
            } else {
                push_str(&mut m, "disconnected");
            }
            let tone = if *connected {
                Tone::Cyan
            } else {
                Tone::DarkGray
            };
            proof {
                reveal_strlit("PEER");
            }
            Some(LogLine { kind: "PEER", msg: string_of(&m), tone })
        },
        DaemonEvent::HttpRequest { method, path, status } => {
            push_str(&mut m, method.as_str());
            push_str(&mut m, " ");
            push_str(&mut m, path.as_str());
            push_str(&mut m, " → ");
            let n = dec_string(*status as u64);
            push_str(&mut m, n.as_str());
            let tone = if *status < 400 {
                Tone::Gray
            } else {
                Tone::Red
            };
            proof {
                reveal_strlit("HTTP");
            }
            Some(LogLine { kind: "HTTP", msg: string_of(&m), tone })
        },
        DaemonEvent::PullProgress { .. } => None,
        DaemonEvent::FetchFailed { .. } => None,
    }
}

// ---------------------------------------------------------------------------
// policy, as the dashboard shows and edits it
// ---------------------------------------------------------------------------

/// The policy column of a release: `own`, `pin`, or the retention window
/// (`Window::describe`) that the policy gives its image.
pub open spec fn policy_label_text(policy: Policy, r: ReleaseInfo) -> Seq<char> {
    let s = r.summary;
    if r.mine {
        "own"@
    } else if policy.pinned(s.publisher@, s.name@, s.tag@) {
        "pin"@
    } else {
        let ms = policy.modes_for(s.publisher@, s.name@);
        window_text(any_full(ms), widest(ms), policy.tags_for(s.publisher@, s.name@).len())
    }
}

pub fn policy_label(policy: &Policy, r: &ReleaseInfo) -> (l: String)
    ensures
        l@ == policy_label_text(*policy, *r),
{
    let s = &r.summary;
    if r.mine {
        proof {
            reveal_strlit("own");
        }
        return crate::text::owned("own");
    }
    if policy.is_pinned(&s.publisher, s.name.as_str(), s.tag.as_str()) {
        proof {
            reveal_strlit("pin");
        }
        return crate::text::owned("pin");
    }
    let w = policy.window(&s.publisher, s.name.as_str());
    w.describe()
}

/// Seeds `target` with the mode typed into the seed dialog.
pub fn seed_from_prompt(policy: &mut Policy, target: &str, input: &str) -> (r: Result<Mode, Error>)
    ensures
        match mode_from_text(input@) {
            Err(e) => r == Err::<Mode, Error>(e) && *final(policy) == *old(policy),
            Ok(m) => match crate::config::seed_rule_from_text(target@, m) {
                Err(e) => r == Err::<Mode, Error>(e) && crate::config::seed_views(final(policy).seed@)
                    == crate::config::seed_views(old(policy).seed@),
                Ok(x) => r == Ok::<Mode, Error>(m) && crate::config::seeds_after_add(
                    crate::config::seed_views(old(policy).seed@),
                    reference_text(x.0, x.1, x.2),
                    m,
                    x.2 is Some,
                ).0 == crate::config::seed_views(final(policy).seed@) && final(policy).covered(
                    x.0,
                    x.1,
                ),
            },
        },
        final(policy).follow == old(policy).follow,
        final(policy).pin == old(policy).pin,
        final(policy).alias == old(policy).alias,
{
    let mode = match Mode::parse(input) {
        Ok(m) => m,
        Err(e) => return Err(e),
    };
    match policy.add_seed(target, mode) {
        Ok(_) => Ok(mode),
        Err(e) => Err(e),
    }
}


/// Pins the release if it is not pinned, else unpins it; returns whether it
/// is pinned now and its reference `<publisher>/<name>:<tag>`.
pub fn toggle_pin(policy: &mut Policy, s: &ReleaseSummary) -> (r: (bool, String))
    ensures
        r.1@ == reference_text(s.publisher@, s.name@, Some(s.tag@)),
        r.0 == !old(policy).pinned(s.publisher@, s.name@, s.tag@),
        r.0 ==> match crate::config::seed_rule_from_text(r.1@, Mode::Full) {
            Ok(x) => x.2 is Some ==> final(policy).pinned(x.0, x.1, x.2->0),
            Err(_) => true,
        },
        !r.0 ==> (crate::config::seed_rule_from_text(r.1@, Mode::Full) matches Ok(x)
            ==> crate::text::texts_view(final(policy).pin@) == crate::seqs::kept(
            crate::text::texts_view(old(policy).pin@),
            crate::config::other_than(reference_text(x.0, x.1, x.2)),
        )),
        final(policy).seed == old(policy).seed,
        final(policy).follow == old(policy).follow,
        final(policy).alias == old(policy).alias,
{
    let reference = ImageRef { publisher: s.publisher, name: s.name.clone(), tag: Some(s.tag.clone()) }.to_string();
    if policy.is_pinned(&s.publisher, s.name.as_str(), s.tag.as_str()) {
        let _ = policy.remove_pin(reference.as_str());
        (false, reference)
    } else {
        let _ = policy.add_pin(reference.as_str());
        (true, reference)
    }
}

} // verus!
