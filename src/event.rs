//! The host events that hooks react to, modelled with plain values.
use vstd::prelude::*;
use crate::text::str_eq;

verus! {

/// The category of an event; matching compares this tag only.
#[derive(Clone, Copy, Debug, PartialEq, Eq, Structural)]
pub enum EventKind {
    Session,
    Mode,
    Pane,
    Tab,
}

/// One session of a session update.
#[derive(Clone, Debug)]
pub struct SessionEntry {
    pub name: String,
    pub is_current_session: bool,
}

/// One tab of a tab update.
#[derive(Clone, Debug)]
pub struct TabEntry {
    pub position: usize,
    pub name: String,
    pub active: bool,
}

/// An event delivered by the host, with the payload that rendering reads.
#[derive(Clone, Debug)]
pub enum Event {
    SessionUpdate(Vec<SessionEntry>),
    /// The human-readable identifier of the new input mode.
    ModeUpdate(String),
    PaneUpdate,
    TabUpdate(Vec<TabEntry>),
    /// Any event of a kind that no hook can name.
    Other,
}

pub open spec fn kind_of(e: &Event) -> Option<EventKind> {
    match e {
        Event::SessionUpdate(_) => Some(EventKind::Session),
        Event::ModeUpdate(_) => Some(EventKind::Mode),
        Event::PaneUpdate => Some(EventKind::Pane),
        Event::TabUpdate(_) => Some(EventKind::Tab),
        Event::Other => None,
    }
}

impl Event {
    pub fn kind(&self) -> (r: Option<EventKind>)
        ensures
            r == kind_of(self),
    {
        match self {
            Event::SessionUpdate(_) => Some(EventKind::Session),
            Event::ModeUpdate(_) => Some(EventKind::Mode),
            Event::PaneUpdate => Some(EventKind::Pane),
            Event::TabUpdate(_) => Some(EventKind::Tab),
            Event::Other => None,
        }
    }
}

/// The event vocabulary of the configuration.
pub open spec fn event_kind_named(s: Seq<char>) -> Option<EventKind> {
    if s == "session"@ {
        Some(EventKind::Session)
    } else if s == "mode"@ {
        Some(EventKind::Mode)
    } else if s == "pane"@ {
        Some(EventKind::Pane)
    } else if s == "tab"@ {
        Some(EventKind::Tab)
    } else {
        None
    }
}

/// Maps a configured event name to its kind; `None` for an unknown name.
pub fn map_event(input: &str) -> (r: Option<EventKind>)
    ensures
        r == event_kind_named(input@),
{
    if str_eq(input, "session") {
        Some(EventKind::Session)
    } else if str_eq(input, "mode") {
        Some(EventKind::Mode)
    } else if str_eq(input, "pane") {
        Some(EventKind::Pane)
    } else if str_eq(input, "tab") {
        Some(EventKind::Tab)
    } else {
        None
    }
}

/// The name of the first session flagged current.
pub open spec fn current_session(s: Seq<SessionEntry>) -> Option<Seq<char>>
    decreases s.len(),
{
    if s.len() == 0 {
        None
    } else if s[0].is_current_session {
        Some(s[0].name@)
    } else {
        current_session(s.drop_first())
    }
}

/// The position and name of the first tab flagged active.
pub open spec fn active_tab(s: Seq<TabEntry>) -> Option<(nat, Seq<char>)>
    decreases s.len(),
{
    if s.len() == 0 {
        None
    } else if s[0].active {
        Some((s[0].position as nat, s[0].name@))
    } else {
        active_tab(s.drop_first())
    }
}

pub fn find_current_session(s: &Vec<SessionEntry>) -> (r: Option<&SessionEntry>)
    ensures
        current_session(s@) == match r {
            Some(e) => Some(e.name@),
            None => None::<Seq<char>>,
        },
{
    let mut i: usize = 0;
    assert(s@.skip(0) =~= s@);
    while i < s.len()
        invariant
            i <= s@.len(),
            current_session(s@) == current_session(s@.skip(i as int)),
        decreases s@.len() - i,
    {
        assert(s@.skip(i as int).drop_first() =~= s@.skip(i + 1));
        if s[i].is_current_session {
            return Some(&s[i]);
        }
        i = i + 1;
    }
    None
}

pub fn find_active_tab(s: &Vec<TabEntry>) -> (r: Option<&TabEntry>)
    ensures
        active_tab(s@) == match r {
            Some(e) => Some((e.position as nat, e.name@)),
            None => None::<(nat, Seq<char>)>,
        },
{
    let mut i: usize = 0;
    assert(s@.skip(0) =~= s@);
    while i < s.len()
        invariant
            i <= s@.len(),
            active_tab(s@) == active_tab(s@.skip(i as int)),
        decreases s@.len() - i,
    {
        assert(s@.skip(i as int).drop_first() =~= s@.skip(i + 1));
        if s[i].active {
            return Some(&s[i]);
        }
        i = i + 1;
    }
    None
}

} // verus!
