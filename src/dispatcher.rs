//! The loaded hook set and the error that its configuration gave, if any:
//! while an error is retained no hook runs.
use vstd::prelude::*;
use crate::config::{Config, ConfigError, RawConfig, command_views, dispatch, fails_with, parsed_from};
use crate::event::Event;

verus! {

pub struct Dispatcher {
    /// The hooks in force; empty when loading failed.
    pub config: Config,
    /// The error that loading gave, kept for display.
    pub error: Option<ConfigError>,
}

impl Default for Dispatcher {
    /// No hooks and no error.
    fn default() -> (r: Self)
        ensures
            r.error is None,
            r.config.hook_seq().len() == 0,
    {
        Dispatcher { config: Config::default(), error: None }
    }
}

impl Dispatcher {
    /// Loads the hooks of `raw`; on a configuration error, keeps the error
    /// and an empty hook set.
    pub fn load(raw: RawConfig) -> (r: Self)
        requires
            raw.wf(),
        ensures
            match r.error {
                Some(e) => fails_with(raw, e@) && r.config.hook_seq().len() == 0,
                None => parsed_from(raw, r.config.name_seq(), r.config.hook_seq()),
            },
    {
        match Config::new(raw) {
            Ok(config) => Dispatcher { config, error: None },
            Err(e) => Dispatcher { config: Config::default(), error: Some(e) },
        }
    }

    /// The commands to run for `event`: none while an error is retained, else
    /// those of every matching hook, in hook order.
    pub fn process(&self, event: Event) -> (r: Vec<Vec<String>>)
        ensures
            self.error is Some ==> r@.len() == 0,
            self.error is None ==> command_views(r@) == dispatch(self.config.hook_seq(), &event),
    {
        if self.error.is_some() {
            return Vec::new();
        }
        self.config.process_hooks(event)
    }
}

} // verus!
