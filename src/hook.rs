//! A hook pairs an event kind with a tokenized command template, and renders
//! the template for the events it matches.
use vstd::prelude::*;
use crate::event::{Event, EventKind, kind_of, current_session, active_tab, find_current_session, find_active_tab};
use crate::text::{is_prefix, matches_at, string_views};
use crate::tokenizer::{commandline_parser, tokens_of};

verus! {

/// Literal substitution of every non-overlapping occurrence of `pat`, scanning
/// from the left.
pub open spec fn replace_all(s: Seq<char>, pat: Seq<char>, rep: Seq<char>) -> Seq<char>
    decreases s.len(),
{
    if pat.len() == 0 || s.len() == 0 {
        s
    } else if is_prefix(pat, s) {
        rep + replace_all(s.skip(pat.len() as int), pat, rep)
    } else {
        seq![s[0]] + replace_all(s.drop_first(), pat, rep)
    }
}

pub open spec fn digit_char(d: nat) -> char {
    if d == 0 { '0' } else if d == 1 { '1' } else if d == 2 { '2' } else if d == 3 { '3' }
    else if d == 4 { '4' } else if d == 5 { '5' } else if d == 6 { '6' } else if d == 7 { '7' }
    else if d == 8 { '8' } else { '9' }
}

/// The decimal digits of `n`, without leading zeros.
pub open spec fn decimal(n: nat) -> Seq<char>
    decreases n,
{
    if n < 10 {
        seq![digit_char(n)]
    } else {
        decimal(n / 10).push(digit_char(n % 10))
    }
}

pub open spec fn session_placeholder() -> Seq<char> {
    "{{session_name}}"@
}

pub open spec fn tab_position_placeholder() -> Seq<char> {
    "{{active_tab_position}}"@
}

pub open spec fn tab_name_placeholder() -> Seq<char> {
    "{{active_tab_name}}"@
}

pub open spec fn mode_placeholder() -> Seq<char> {
    "{{mode}}"@
}

pub open spec fn replace_each(
    tokens: Seq<Seq<char>>,
    pat: Seq<char>,
    rep: Seq<char>,
) -> Seq<Seq<char>> {
    tokens.map_values(|t: Seq<char>| replace_all(t, pat, rep))
}

/// The command of a hook rendered for `e`: the placeholders of the event's own
/// kind are replaced in every token; a payload without a current session or an
/// active tab leaves the tokens as they are.
pub open spec fn render(e: &Event, tokens: Seq<Seq<char>>) -> Seq<Seq<char>> {
    match e {
        Event::SessionUpdate(s) => match current_session(s@) {
            Some(name) => replace_each(tokens, session_placeholder(), name),
            None => tokens,
        },
        Event::TabUpdate(t) => match active_tab(t@) {
            Some((pos, name)) => replace_each(
                replace_each(tokens, tab_position_placeholder(), decimal(pos)),
                tab_name_placeholder(),
                name,
            ),
            None => tokens,
        },
        Event::ModeUpdate(m) => replace_each(tokens, mode_placeholder(), m@),
        _ => tokens,
    }
}

/// What a hook is: the kind it reacts to and its command template.
pub struct HookView {
    pub kind: EventKind,
    pub tokens: Seq<Seq<char>>,
}

/// The command that hook `h` runs for event `e`, if it runs at all.
pub open spec fn run_for(h: HookView, e: &Event) -> Option<Seq<Seq<char>>> {
    if kind_of(e) == Some(h.kind) {
        Some(render(e, h.tokens))
    } else {
        None
    }
}

fn replace_str(s: &str, pat: &str, rep: &str) -> (r: String)
    requires
        pat@.len() > 0,
    ensures
        r@ == replace_all(s@, pat@, rep@),
{
    let n = s.unicode_len();
    let np = pat.unicode_len();
    let mut out = String::new();
    let mut i: usize = 0;
    assert(s@.skip(0) =~= s@);
    while i < n
        invariant
            n == s@.len(),
            np == pat@.len(),
            np > 0,
            i <= n,
            out@ + replace_all(s@.skip(i as int), pat@, rep@) == replace_all(s@, pat@, rep@),
        decreases n - i,
    {
        let ghost rest = s@.skip(i as int);
        let ghost prev = out@;
        if matches_at(s, i, pat) {
            out.append(rep);
            assert(rest.skip(np as int) =~= s@.skip(i + np));
            assert(prev + (rep@ + replace_all(rest.skip(np as int), pat@, rep@)) =~= out@
                + replace_all(s@.skip(i + np), pat@, rep@));
            i = i + np;
        } else {
            out.push(s.get_char(i));
            assert(rest.drop_first() =~= s@.skip(i + 1));
            assert(prev + (seq![rest[0]] + replace_all(rest.drop_first(), pat@, rep@)) =~= out@
                + replace_all(s@.skip(i + 1), pat@, rep@));
            i = i + 1;
        }
    }
    assert(out@ + replace_all(s@.skip(n as int), pat@, rep@) =~= out@);
    out
}

fn replace_in_tokens(tokens: &Vec<String>, pat: &str, rep: &str) -> (r: Vec<String>)
    requires
        pat@.len() > 0,
    ensures
        string_views(r@) == replace_each(string_views(tokens@), pat@, rep@),
{
    let mut r: Vec<String> = Vec::new();
    let mut i: usize = 0;
    while i < tokens.len()
        invariant
            i <= tokens@.len(),
            pat@.len() > 0,
            string_views(r@) == replace_each(string_views(tokens@.subrange(0, i as int)), pat@, rep@),
        decreases tokens@.len() - i,
    {
        let t = replace_str(tokens[i].as_str(), pat, rep);
        let ghost prev = r@;
        r.push(t);
        assert(string_views(r@) =~= string_views(prev).push(t@));
        assert(string_views(tokens@.subrange(0, i + 1)) =~= string_views(tokens@.subrange(0, i as int)).push(
            tokens@[i as int]@,
        ));
        assert(replace_each(string_views(tokens@.subrange(0, i + 1)), pat@, rep@) =~= replace_each(
            string_views(tokens@.subrange(0, i as int)),
            pat@,
            rep@,
        ).push(replace_all(tokens@[i as int]@, pat@, rep@)));
        i = i + 1;
    }
    assert(tokens@.subrange(0, i as int) =~= tokens@);
    r
}

fn digit_of(d: usize) -> (c: char)
    requires
        d < 10,
    ensures
        c == digit_char(d as nat),
{
    if d == 0 { '0' } else if d == 1 { '1' } else if d == 2 { '2' } else if d == 3 { '3' }
    else if d == 4 { '4' } else if d == 5 { '5' } else if d == 6 { '6' } else if d == 7 { '7' }
    else if d == 8 { '8' } else { '9' }
}

/// Appends the decimal digits of `n` to `out`.
pub fn push_decimal(n: usize, out: &mut String)
    ensures
        final(out)@ == old(out)@ + decimal(n as nat),
    decreases n,
{
    if n >= 10 {
        push_decimal(n / 10, out);
    }
    out.push(digit_of(n % 10));
    assert(final(out)@ =~= old(out)@ + decimal(n as nat));
}

/// The command template rendered for `event` (see `render`).
pub fn replace_based_on_event(event: &Event, command: Vec<String>) -> (r: Vec<String>)
    ensures
        string_views(r@) == render(event, string_views(command@)),
{
    proof {
        reveal_strlit("{{session_name}}");
        reveal_strlit("{{active_tab_position}}");
        reveal_strlit("{{active_tab_name}}");
        reveal_strlit("{{mode}}");
    }
    match event {
        Event::SessionUpdate(sessions) => match find_current_session(sessions) {
            Some(s) => replace_in_tokens(&command, "{{session_name}}", s.name.as_str()),
            None => command,
        },
        Event::TabUpdate(tabs) => match find_active_tab(tabs) {
            Some(t) => {
                let mut pos = String::new();
                push_decimal(t.position, &mut pos);
                assert(pos@ =~= decimal(t.position as nat));
                let c = replace_in_tokens(&command, "{{active_tab_position}}", pos.as_str());
                replace_in_tokens(&c, "{{active_tab_name}}", t.name.as_str())
            },
            None => command,
        },
        Event::ModeUpdate(mode) => replace_in_tokens(&command, "{{mode}}", mode.as_str()),
        _ => command,
    }
}

/// A configured hook: the event kind it reacts to and its command template.
#[derive(Clone, Debug)]
pub struct Hook {
    event_type: EventKind,
    command: Vec<String>,
}

impl View for Hook {
    type V = HookView;

    closed spec fn view(&self) -> HookView {
        HookView { kind: self.event_type, tokens: string_views(self.command@) }
    }
}

impl Hook {
    /// A hook for events of kind `event_type` running the tokenized `command`.
    pub fn new(event_type: EventKind, command: &str) -> (r: Self)
        ensures
            r@ == (HookView { kind: event_type, tokens: tokens_of(command@) }),
    {
        let command = commandline_parser(command);
        Self { event_type, command }
    }

    pub fn event_kind(&self) -> (r: EventKind)
        ensures
            r == self@.kind,
    {
        self.event_type
    }

    /// The command template, token by token.
    pub fn command(&self) -> (r: &Vec<String>)
        ensures
            string_views(r@) == self@.tokens,
    {
        &self.command
    }

    /// Whether the event's kind is the hook's kind; the payload plays no part.
    pub fn is_event(&self, event: &Event) -> (r: bool)
        ensures
            r == (kind_of(event) == Some(self@.kind)),
    {
        match event.kind() {
            Some(k) => k == self.event_type,
            None => false,
        }
    }

    /// The rendered command to run for `event`, or `None` where the hook does
    /// not match it.
    pub fn run_if_needed(&self, event: &Event) -> (r: Option<Vec<String>>)
        ensures
            run_for(self@, event) == match r {
                Some(c) => Some(string_views(c@)),
                None => None::<Seq<Seq<char>>>,
            },
    {
        if !self.is_event(event) {
            return None;
        }
        Some(replace_based_on_event(event, self.command.clone()))
    }
}

/// A hook never runs on an event of another kind, whatever its payload.
pub proof fn lemma_kind_mismatch_never_runs(h: HookView, e: &Event)
    requires
        kind_of(e) != Some(h.kind),
    ensures
        run_for(h, e) is None,
{
}

} // verus!
