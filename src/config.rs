//! The raw configuration map, and its parsing into a validated, ordered set
//! of hooks.
use vstd::prelude::*;
use crate::event::{Event, event_kind_named, map_event};
use crate::hook::{Hook, HookView, run_for};
use crate::text::{
    is_prefix, lex_lt, strictly_sorted, string_views, lemma_lex_irreflexive, lemma_insert_sorted,
    find_slot, matches_at, str_eq,
};
use crate::tokenizer::tokens_of;

verus! {

/// The host's flat configuration: string keys mapped to string values, the
/// keys kept in ascending lexicographic order.
pub struct RawConfig {
    keys: Vec<String>,
    values: Vec<String>,
}

impl RawConfig {
    pub closed spec fn key_seq(&self) -> Seq<Seq<char>> {
        string_views(self.keys@)
    }

    pub closed spec fn value_seq(&self) -> Seq<Seq<char>> {
        string_views(self.values@)
    }

    pub open spec fn wf(&self) -> bool {
        &&& self.key_seq().len() == self.value_seq().len()
        &&& strictly_sorted(self.key_seq())
    }

    pub open spec fn has_key_at(&self, k: Seq<char>, i: int) -> bool {
        0 <= i < self.key_seq().len() && self.key_seq()[i] == k
    }

    /// The value stored under `k`.
    pub open spec fn lookup(&self, k: Seq<char>) -> Option<Seq<char>> {
        if exists|i: int| self.has_key_at(k, i) {
            Some(self.value_seq()[choose|i: int| self.has_key_at(k, i)])
        } else {
            None
        }
    }

    pub proof fn lemma_lookup_at(&self, i: int)
        requires
            self.wf(),
            0 <= i < self.key_seq().len(),
        ensures
            self.lookup(self.key_seq()[i]) == Some(self.value_seq()[i]),
    {
        let k = self.key_seq()[i];
        assert(self.has_key_at(k, i));
        let j = choose|j: int| self.has_key_at(k, j);
        if j != i {
            lemma_lex_irreflexive(k);
            if j < i {
                assert(lex_lt(self.key_seq()[j], self.key_seq()[i]));
            } else {
                assert(lex_lt(self.key_seq()[i], self.key_seq()[j]));
            }
        }
    }

    /// An empty configuration.
    pub fn new() -> (r: Self)
        ensures
            r.wf(),
            r.key_seq().len() == 0,
            forall|k: Seq<char>| r.lookup(k) is None,
    {
        let r = RawConfig { keys: Vec::new(), values: Vec::new() };
        assert(r.key_seq() =~= Seq::<Seq<char>>::empty());
        assert(r.value_seq() =~= Seq::<Seq<char>>::empty());
        r
    }

    /// Sets `key` to `value`, replacing any earlier value of that key.
    pub fn insert(&mut self, key: String, value: String)
        requires
            old(self).wf(),
        ensures
            final(self).wf(),
            final(self).key_seq().to_set() == old(self).key_seq().to_set().insert(key@),
            forall|k: Seq<char>|
                #[trigger] final(self).lookup(k) == if k == key@ {
                    Some(value@)
                } else {
                    old(self).lookup(k)
                },
    {
        let ghost ks = self.key_seq();
        let ghost vs = self.value_seq();
        let ghost kv = key@;
        let (p, found) = find_slot(&self.keys, key.as_str());
        if found {
            self.values.set(p, value);
            assert(self.key_seq() =~= ks);
            assert(self.value_seq() =~= vs.update(p as int, value@));
            assert(ks[p as int] == kv);
            assert(ks.to_set().insert(kv) =~= ks.to_set());
        } else {
            self.keys.insert(p, key);
            self.values.insert(p, value);
            assert(self.key_seq() =~= ks.insert(p as int, kv));
            assert(self.value_seq() =~= vs.insert(p as int, value@));
            proof {
                lemma_insert_sorted(ks, p as int, kv);
                assert(ks.insert(p as int, kv).to_set() =~= ks.to_set().insert(kv)) by {
                    assert forall|x| ks.to_set().insert(kv).contains(x) implies ks.insert(
                        p as int,
                        kv,
                    ).contains(x) by {
                        if x != kv {
                            let q = choose|q: int| 0 <= q < ks.len() && ks[q] == x;
                            if q < p {
                                assert(ks.insert(p as int, kv)[q] == x);
                            } else {
                                assert(ks.insert(p as int, kv)[q + 1] == x);
                            }
                        } else {
                            assert(ks.insert(p as int, kv)[p as int] == x);
                        }
                    }
                }
            }
        }
        proof {
            let fin = *self;
            assert forall|k: Seq<char>|
                #[trigger] fin.lookup(k) == if k == kv {
                    Some(value@)
                } else {
                    old(self).lookup(k)
                } by {
                if k == kv {
                    fin.lemma_lookup_at(p as int);
                } else if exists|i: int| old(self).has_key_at(k, i) {
                    let i = choose|i: int| old(self).has_key_at(k, i);
                    old(self).lemma_lookup_at(i);
                    if found || i < p {
                        fin.lemma_lookup_at(i);
                    } else {
                        fin.lemma_lookup_at(i + 1);
                    }
                } else {
                    if exists|i: int| fin.has_key_at(k, i) {
                        let i = choose|i: int| fin.has_key_at(k, i);
                        if found || i < p {
                            assert(old(self).has_key_at(k, i));
                        } else {
                            assert(old(self).has_key_at(k, i - 1));
                        }
                    }
                }
            }
        }
    }

    /// The value stored under `key`.
    pub fn get(&self, key: &str) -> (r: Option<&String>)
        requires
            self.wf(),
        ensures
            self.lookup(key@) == match r {
                Some(v) => Some(v@),
                None => None::<Seq<char>>,
            },
    {
        let mut i: usize = 0;
        while i < self.keys.len()
            invariant
                self.wf(),
                i <= self.keys@.len(),
                forall|j: int| 0 <= j < i ==> self.keys@[j]@ != key@,
            decreases self.keys@.len() - i,
        {
            if str_eq(self.keys[i].as_str(), key) {
                proof {
                    self.lemma_lookup_at(i as int);
                }
                return Some(&self.values[i]);
            }
            i = i + 1;
        }
        assert(!exists|j: int| self.has_key_at(key@, j));
        None
    }
}

pub open spec fn hook_prefix() -> Seq<char> {
    "hook_"@
}

pub open spec fn command_suffix() -> Seq<char> {
    "_command"@
}

pub open spec fn event_suffix() -> Seq<char> {
    "_event"@
}

/// The pattern of a key's trailing field word: an underscore and one or more
/// ASCII letters or digits up to the end of the key.
pub open spec fn field_suffix_pattern() -> Seq<char> {
    "_[a-zA-Z0-9]+$"@
}

pub open spec fn is_word_char(c: char) -> bool {
    ('a' <= c && c <= 'z') || ('A' <= c && c <= 'Z') || ('0' <= c && c <= '9')
}

/// The field suffix of `s` starts at `i`. At most one `i` qualifies, since the
/// word after it holds no underscore.
pub open spec fn suffix_at(s: Seq<char>, i: int) -> bool {
    &&& 0 <= i
    &&& i + 1 < s.len()
    &&& s[i] == '_'
    &&& forall|j: int| i < j < s.len() ==> is_word_char(#[trigger] s[j])
}

/// `s` without its trailing `_<word>`, or `s` itself where it has none.
pub open spec fn strip_field_suffix(s: Seq<char>) -> Seq<char> {
    if exists|i: int| suffix_at(s, i) {
        s.subrange(0, choose|i: int| suffix_at(s, i))
    } else {
        s
    }
}

pub open spec fn strip_hook_prefix(s: Seq<char>) -> Seq<char> {
    if is_prefix(hook_prefix(), s) {
        s.skip(hook_prefix().len() as int)
    } else {
        s
    }
}

/// Keys that configure hooks.
pub open spec fn is_hook_key(k: Seq<char>) -> bool {
    is_prefix(hook_prefix(), k)
}

/// The hook name that a key belongs to: `hook_<name>_<field>` gives `<name>`.
pub open spec fn key_name(k: Seq<char>) -> Seq<char> {
    strip_hook_prefix(strip_field_suffix(k))
}

pub open spec fn command_key(name: Seq<char>) -> Seq<char> {
    hook_prefix() + name + command_suffix()
}

pub open spec fn event_key(name: Seq<char>) -> Seq<char> {
    hook_prefix() + name + event_suffix()
}

/// Relies on regex's `Regex::new` and `Regex::replace`: the leftmost match of
/// the field-suffix pattern, if any, is removed; `$` matches only at the end
/// of the text. The pattern is a valid one, so building it does not fail.
#[verifier::external_body]
fn remove_first_match(pattern: &str, text: &str) -> (r: String)
    requires
        pattern@ == field_suffix_pattern(),
    ensures
        r@ == strip_field_suffix(text@),
{
    regex::Regex::new(pattern).unwrap().replace(text, "").into_owned()
}

/// The hook name of a configuration key.
pub fn hook_name_of(key: &str) -> (r: String)
    ensures
        r@ == key_name(key@),
{
    let s = remove_first_match("_[a-zA-Z0-9]+$", key);
    proof {
        reveal_strlit("hook_");
    }
    assert(s@.skip(0) =~= s@);
    if matches_at(s.as_str(), 0, "hook_") {
        let n = s.unicode_len();
        String::from_str(s.as_str().substring_char(5, n))
    } else {
        s
    }
}

/// A configuration error, naming the key or value at fault.
#[derive(Clone, Debug)]
pub enum ConfigError {
    /// A hook lacks one of its two fields; holds the full missing key.
    MissingArgument { argument_name: String },
    /// A hook's event field names no known event; holds that value.
    UnknownEvent { event_name: String },
}

pub enum ConfigErrorView {
    MissingArgument(Seq<char>),
    UnknownEvent(Seq<char>),
}

impl View for ConfigError {
    type V = ConfigErrorView;

    open spec fn view(&self) -> ConfigErrorView {
        match self {
            ConfigError::MissingArgument { argument_name } => ConfigErrorView::MissingArgument(
                argument_name@,
            ),
            ConfigError::UnknownEvent { event_name } => ConfigErrorView::UnknownEvent(event_name@),
        }
    }
}

/// The hook that `raw` defines under `name`, or the first fault found in its
/// command field, its event field, its event value, then its command's
/// tokens: a command without any token counts as a missing command.
pub open spec fn hook_for(raw: RawConfig, name: Seq<char>) -> Result<HookView, ConfigErrorView> {
    match raw.lookup(command_key(name)) {
        None => Err(ConfigErrorView::MissingArgument(command_key(name))),
        Some(command) => match raw.lookup(event_key(name)) {
            None => Err(ConfigErrorView::MissingArgument(event_key(name))),
            Some(event) => match event_kind_named(event) {
                None => Err(ConfigErrorView::UnknownEvent(event)),
                Some(kind) => if tokens_of(command).len() == 0 {
                    Err(ConfigErrorView::MissingArgument(command_key(name)))
                } else {
                    Ok(HookView { kind, tokens: tokens_of(command) })
                },
            },
        },
    }
}

fn field_key(name: &str, suffix: &str) -> (r: String)
    ensures
        r@ == hook_prefix() + name@ + suffix@,
{
    let mut k = String::from_str("hook_");
    k.append(name);
    k.append(suffix);
    k
}

/// Builds the hook named `name` from `raw`.
pub fn build_hook(raw: &RawConfig, name: &str) -> (r: Result<Hook, ConfigError>)
    requires
        raw.wf(),
    ensures
        hook_for(*raw, name@) == match r {
            Ok(h) => Ok::<HookView, ConfigErrorView>(h@),
            Err(e) => Err(e@),
        },
{
    let ck = field_key(name, "_command");
    let command = match raw.get(ck.as_str()) {
        Some(c) => c,
        None => return Err(ConfigError::MissingArgument { argument_name: ck }),
    };
    let ek = field_key(name, "_event");
    let event = match raw.get(ek.as_str()) {
        Some(e) => e,
        None => return Err(ConfigError::MissingArgument { argument_name: ek }),
    };
    match map_event(event.as_str()) {
        Some(kind) => {
            let hook = Hook::new(kind, command.as_str());
            if hook.command().len() == 0 {
                Err(ConfigError::MissingArgument { argument_name: ck })
            } else {
                Ok(hook)
            }
        },
        None => Err(ConfigError::UnknownEvent { event_name: event.clone() }),
    }
}

/// Each key before `i` that configures a hook names a hook that builds.
pub open spec fn builds_before(raw: RawConfig, i: int) -> bool {
    forall|j: int|
        0 <= j < i && is_hook_key(#[trigger] raw.key_seq()[j]) ==> hook_for(
            raw,
            key_name(raw.key_seq()[j]),
        ) is Ok
}

/// The hook keys up to `i` and the names of `names` are the same hook names.
pub open spec fn names_cover(raw: RawConfig, i: int, names: Seq<Seq<char>>) -> bool {
    &&& forall|j: int|
        0 <= j < i && is_hook_key(#[trigger] raw.key_seq()[j]) ==> names.contains(
            key_name(raw.key_seq()[j]),
        )
    &&& forall|p: int| 0 <= p < names.len() ==> named_by_key(raw, i, #[trigger] names[p])
}

/// Some hook key before `i` has hook name `n`.
pub open spec fn named_by_key(raw: RawConfig, i: int, n: Seq<char>) -> bool {
    exists|j: int|
        0 <= j < i && is_hook_key(#[trigger] raw.key_seq()[j]) && key_name(raw.key_seq()[j]) == n
}

/// The key at `i` is the first hook key, in key order, whose hook fails.
pub open spec fn first_failure(raw: RawConfig, i: int) -> bool {
    &&& 0 <= i < raw.key_seq().len()
    &&& is_hook_key(raw.key_seq()[i])
    &&& hook_for(raw, key_name(raw.key_seq()[i])) is Err
    &&& builds_before(raw, i)
}

/// Parsing `raw` fails with `e`: the error of the first hook key whose hook
/// fails.
pub open spec fn fails_with(raw: RawConfig, e: ConfigErrorView) -> bool {
    exists|i: int| first_failure(raw, i) && hook_for(raw, key_name(raw.key_seq()[i])) == Err::<HookView, ConfigErrorView>(e)
}

/// A named hook sequence is what parsing `raw` succeeds with: every hook key
/// names a hook that builds, and there is one entry per hook name, in
/// ascending name order, holding the hook built under that name.
pub open spec fn parsed_from(raw: RawConfig, names: Seq<Seq<char>>, hooks: Seq<HookView>) -> bool {
    &&& builds_before(raw, raw.key_seq().len() as int)
    &&& names.len() == hooks.len()
    &&& strictly_sorted(names)
    &&& names_cover(raw, raw.key_seq().len() as int, names)
    &&& forall|p: int| 0 <= p < names.len() ==> hook_for(raw, #[trigger] names[p]) == Ok::<HookView, ConfigErrorView>(hooks[p])
    &&& forall|p: int| 0 <= p < hooks.len() ==> (#[trigger] hooks[p]).tokens.len() > 0
}

proof fn lemma_cover_step(raw: RawConfig, i: int, ns: Seq<Seq<char>>)
    requires
        0 <= i < raw.key_seq().len(),
        names_cover(raw, i, ns),
        builds_before(raw, i),
        is_hook_key(raw.key_seq()[i]) ==> ns.contains(key_name(raw.key_seq()[i])),
        is_hook_key(raw.key_seq()[i]) ==> hook_for(raw, key_name(raw.key_seq()[i])) is Ok,
    ensures
        names_cover(raw, i + 1, ns),
        builds_before(raw, i + 1),
{
    assert forall|j: int|
        0 <= j < i + 1 && is_hook_key(#[trigger] raw.key_seq()[j]) implies ns.contains(
        key_name(raw.key_seq()[j]),
    ) by {
        if j < i {
            assert(0 <= j < i && is_hook_key(raw.key_seq()[j]));
        }
    }
    assert forall|j: int|
        0 <= j < i + 1 && is_hook_key(#[trigger] raw.key_seq()[j]) implies hook_for(
        raw,
        key_name(raw.key_seq()[j]),
    ) is Ok by {
        if j < i {
            assert(0 <= j < i && is_hook_key(raw.key_seq()[j]));
        }
    }
    assert forall|p: int| 0 <= p < ns.len() implies named_by_key(raw, i + 1, #[trigger] ns[p]) by {
        assert(named_by_key(raw, i, ns[p]));
        let j = choose|j: int|
            0 <= j < i && is_hook_key(#[trigger] raw.key_seq()[j]) && key_name(raw.key_seq()[j])
                == ns[p];
        assert(0 <= j < i + 1 && is_hook_key(raw.key_seq()[j]) && key_name(raw.key_seq()[j])
            == ns[p]);
    }
}

proof fn lemma_insert_name(
    raw: RawConfig,
    i: int,
    ns: Seq<Seq<char>>,
    hs: Seq<HookView>,
    p: int,
    hv: HookView,
)
    requires
        0 <= i < raw.key_seq().len(),
        is_hook_key(raw.key_seq()[i]),
        hook_for(raw, key_name(raw.key_seq()[i])) == Ok::<HookView, ConfigErrorView>(hv),
        names_cover(raw, i, ns),
        builds_before(raw, i),
        ns.len() == hs.len(),
        0 <= p <= ns.len(),
        forall|q: int|
            0 <= q < ns.len() ==> hook_for(raw, #[trigger] ns[q]) == Ok::<HookView, ConfigErrorView>(
                hs[q],
            ),
    ensures
        names_cover(raw, i + 1, ns.insert(p, key_name(raw.key_seq()[i]))),
        builds_before(raw, i + 1),
        forall|q: int|
            0 <= q < ns.len() + 1 ==> hook_for(
                raw,
                #[trigger] ns.insert(p, key_name(raw.key_seq()[i]))[q],
            ) == Ok::<HookView, ConfigErrorView>(hs.insert(p, hv)[q]),
{
    let name = key_name(raw.key_seq()[i]);
    let ns2 = ns.insert(p, name);
    let hs2 = hs.insert(p, hv);
    assert(ns2[p] == name);
    assert forall|q: int| 0 <= q < ns2.len() implies hook_for(raw, #[trigger] ns2[q])
        == Ok::<HookView, ConfigErrorView>(hs2[q]) by {
        if q < p {
            assert(ns2[q] == ns[q] && hs2[q] == hs[q]);
        } else if q > p {
            assert(ns2[q] == ns[q - 1] && hs2[q] == hs[q - 1]);
        }
    }
    assert forall|j: int|
        0 <= j < i + 1 && is_hook_key(#[trigger] raw.key_seq()[j]) implies ns2.contains(
        key_name(raw.key_seq()[j]),
    ) by {
        if j == i {
            assert(ns2[p] == name);
        } else {
        let q = choose|q: int| 0 <= q < ns.len() && ns[q] == key_name(raw.key_seq()[j]);
        if q < p {
            assert(ns2[q] == ns[q]);
        } else {
            assert(ns2[q + 1] == ns[q]);
        }
        }
    }
    assert forall|q: int| 0 <= q < ns2.len() implies named_by_key(raw, i + 1, #[trigger] ns2[q]) by {
        if q == p {
            assert(is_hook_key(raw.key_seq()[i]) && key_name(raw.key_seq()[i]) == ns2[q]);
        } else {
            let q0 = if q < p { q } else { q - 1 };
            assert(ns2[q] == ns[q0]);
            assert(named_by_key(raw, i, ns[q0]));
            let j = choose|j: int|
                0 <= j < i && is_hook_key(#[trigger] raw.key_seq()[j]) && key_name(raw.key_seq()[j])
                    == ns[q0];
            assert(0 <= j < i + 1 && is_hook_key(raw.key_seq()[j]) && key_name(raw.key_seq()[j])
                == ns2[q]);
        }
    }
}

/// The validated hooks of a configuration, in ascending order of hook name.
pub struct Config {
    names: Vec<String>,
    hooks: Vec<Hook>,
}

impl Default for Config {
    /// A configuration without hooks.
    fn default() -> (r: Self)
        ensures
            r.name_seq().len() == 0,
            r.hook_seq().len() == 0,
    {
        let r = Config { names: Vec::new(), hooks: Vec::new() };
        assert(r.name_seq().len() == 0);
        r
    }
}

/// The commands that the hooks run for `e`, in hook order.
pub open spec fn dispatch(hooks: Seq<HookView>, e: &Event) -> Seq<Seq<Seq<char>>>
    decreases hooks.len(),
{
    if hooks.len() == 0 {
        Seq::empty()
    } else {
        let rest = dispatch(hooks.drop_last(), e);
        match run_for(hooks.last(), e) {
            Some(c) => rest.push(c),
            None => rest,
        }
    }
}

pub open spec fn command_views(v: Seq<Vec<String>>) -> Seq<Seq<Seq<char>>> {
    v.map_values(|c: Vec<String>| string_views(c@))
}

impl Config {
    pub closed spec fn name_seq(&self) -> Seq<Seq<char>> {
        string_views(self.names@)
    }

    pub closed spec fn hook_seq(&self) -> Seq<HookView> {
        self.hooks@.map_values(|h: Hook| h@)
    }

    /// Parses the hooks that `config` defines; see `parse_config`.
    pub fn new(config: RawConfig) -> (r: Result<Self, ConfigError>)
        requires
            config.wf(),
        ensures
            match r {
                Ok(c) => parsed_from(config, c.name_seq(), c.hook_seq()),
                Err(e) => fails_with(config, e@),
            },
    {
        parse_config(&config)
    }

    /// The hook names, in ascending order.
    pub fn names(&self) -> (r: &Vec<String>)
        ensures
            string_views(r@) == self.name_seq(),
    {
        &self.names
    }

    /// The hooks, in the order of their names.
    pub fn hooks(&self) -> (r: &Vec<Hook>)
        ensures
            r@.map_values(|h: Hook| h@) == self.hook_seq(),
    {
        &self.hooks
    }

    /// The commands to run for `event`: every hook of the event's kind, in
    /// order, with its command rendered for the event.
    pub fn process_hooks(&self, event: Event) -> (r: Vec<Vec<String>>)
        ensures
            command_views(r@) == dispatch(self.hook_seq(), &event),
    {
        let mut r: Vec<Vec<String>> = Vec::new();
        let mut i: usize = 0;
        assert(self.hook_seq().subrange(0, 0) =~= Seq::<HookView>::empty());
        assert(command_views(r@) =~= Seq::<Seq<Seq<char>>>::empty());
        while i < self.hooks.len()
            invariant
                i <= self.hooks@.len(),
                command_views(r@) == dispatch(self.hook_seq().subrange(0, i as int), &event),
            decreases self.hooks@.len() - i,
        {
            let ghost prev = r@;
            assert(self.hook_seq().subrange(0, i + 1).drop_last() =~= self.hook_seq().subrange(
                0,
                i as int,
            ));
            match self.hooks[i].run_if_needed(&event) {
                Some(c) => {
                    r.push(c);
                    assert(command_views(r@) =~= command_views(prev).push(string_views(c@)));
                },
                None => {},
            }
            i = i + 1;
        }
        assert(self.hook_seq().subrange(0, i as int) =~= self.hook_seq());
        r
    }
}

/// Parses the hooks of `raw`. Keys starting with `hook_` are taken in
/// ascending order; each names a hook (`hook_<name>_<field>`), and the first
/// key of a name builds that hook from `hook_<name>_command` and
/// `hook_<name>_event`. The first hook that fails fails the whole parse.
pub fn parse_config(raw: &RawConfig) -> (r: Result<Config, ConfigError>)
    requires
        raw.wf(),
    ensures
        match r {
            Ok(c) => parsed_from(*raw, c.name_seq(), c.hook_seq()),
            Err(e) => fails_with(*raw, e@),
        },
{
    let ghost ks = raw.key_seq();
    let mut names: Vec<String> = Vec::new();
    let mut hooks: Vec<Hook> = Vec::new();
    let mut i: usize = 0;
    proof {
        reveal_strlit("hook_");
    }
    assert(string_views(names@) =~= Seq::<Seq<char>>::empty());
    while i < raw.keys.len()
        invariant
            raw.wf(),
            ks == raw.key_seq(),
            ks.len() == raw.keys@.len(),
            i <= ks.len(),
            names@.len() == hooks@.len(),
            strictly_sorted(string_views(names@)),
            builds_before(*raw, i as int),
            names_cover(*raw, i as int, string_views(names@)),
            forall|p: int|
                0 <= p < names@.len() ==> hook_for(*raw, #[trigger] string_views(names@)[p]) == Ok::<HookView, ConfigErrorView>(
                    hooks@.map_values(|h: Hook| h@)[p],
                ),
        decreases ks.len() - i,
    {
        let key = raw.keys[i].as_str();
        assert(key@ == ks[i as int]);
        assert(key@.skip(0) =~= key@);
        let ghost ns = string_views(names@);
        let ghost hs = hooks@.map_values(|h: Hook| h@);
        if matches_at(key, 0, "hook_") {
            let name = hook_name_of(key);
            let (p, found) = find_slot(&names, name.as_str());
            if found {
                assert(ns[p as int] == name@);
                assert(ns.contains(name@));
            } else {
                let hook = match build_hook(raw, name.as_str()) {
                    Ok(h) => h,
                    Err(e) => {
                        assert(first_failure(*raw, i as int));
                        return Err(e);
                    },
                };
                let ghost hv = hook@;
                names.insert(p, name);
                hooks.insert(p, hook);
                proof {
                    assert(string_views(names@) =~= ns.insert(p as int, name@));
                    assert(hooks@.map_values(|h: Hook| h@) =~= hs.insert(p as int, hv));
                    assert forall|q: int| 0 <= q < p implies lex_lt(#[trigger] ns[q], name@) by {
                        assert(ns[q] == names@[q]@);
                    }
                    lemma_insert_sorted(ns, p as int, name@);
                    lemma_insert_name(*raw, i as int, ns, hs, p as int, hv);
                }
                i = i + 1;
                continue;
            }
        }
        proof {
            lemma_cover_step(*raw, i as int, string_views(names@));
        }
        i = i + 1;
    }
    proof {
        let ns = string_views(names@);
        let hs = hooks@.map_values(|h: Hook| h@);
        assert forall|p: int| 0 <= p < hs.len() implies (#[trigger] hs[p]).tokens.len() > 0 by {
            assert(hook_for(*raw, ns[p]) == Ok::<HookView, ConfigErrorView>(hs[p]));
        }
    }
    Ok(Config { names, hooks })
}

/// Parsing is a function of the configuration alone: two parses of the same
/// configuration give the same named hooks, or the same error, and never one
/// of each.
pub proof fn lemma_parse_deterministic(
    raw: RawConfig,
    names1: Seq<Seq<char>>,
    hooks1: Seq<HookView>,
    names2: Seq<Seq<char>>,
    hooks2: Seq<HookView>,
    e1: ConfigErrorView,
    e2: ConfigErrorView,
)
    ensures
        parsed_from(raw, names1, hooks1) && parsed_from(raw, names2, hooks2) ==> names1 == names2
            && hooks1 == hooks2,
        fails_with(raw, e1) && fails_with(raw, e2) ==> e1 == e2,
        !(parsed_from(raw, names1, hooks1) && fails_with(raw, e1)),
{
    let n = raw.key_seq().len() as int;
    if parsed_from(raw, names1, hooks1) && parsed_from(raw, names2, hooks2) {
        assert forall|x: Seq<char>| names1.contains(x) implies names2.contains(x) by {
            let p = choose|p: int| 0 <= p < names1.len() && names1[p] == x;
            assert(named_by_key(raw, n, names1[p]));
        }
        assert forall|x: Seq<char>| names2.contains(x) implies names1.contains(x) by {
            let p = choose|p: int| 0 <= p < names2.len() && names2[p] == x;
            assert(named_by_key(raw, n, names2[p]));
        }
        crate::text::lemma_sorted_unique(names1, names2);
        assert forall|p: int| 0 <= p < hooks1.len() implies hooks1[p] == hooks2[p] by {
            assert(hook_for(raw, names1[p]) == Ok::<HookView, ConfigErrorView>(hooks1[p]));
            assert(hook_for(raw, names2[p]) == Ok::<HookView, ConfigErrorView>(hooks2[p]));
        }
        assert(hooks1 =~= hooks2);
    }
    if fails_with(raw, e1) && fails_with(raw, e2) {
        let i1 = choose|i: int|
            first_failure(raw, i) && hook_for(raw, key_name(raw.key_seq()[i])) == Err::<
                HookView,
                ConfigErrorView,
            >(e1);
        let i2 = choose|i: int|
            first_failure(raw, i) && hook_for(raw, key_name(raw.key_seq()[i])) == Err::<
                HookView,
                ConfigErrorView,
            >(e2);
        if i1 < i2 {
            assert(is_hook_key(raw.key_seq()[i1]));
        } else if i2 < i1 {
            assert(is_hook_key(raw.key_seq()[i2]));
        }
    }
    if parsed_from(raw, names1, hooks1) && fails_with(raw, e1) {
        let i1 = choose|i: int|
            first_failure(raw, i) && hook_for(raw, key_name(raw.key_seq()[i])) == Err::<
                HookView,
                ConfigErrorView,
            >(e1);
        assert(is_hook_key(raw.key_seq()[i1]));
    }
}

} // verus!
