//! What a running service carries with it.

use vstd::prelude::*;
use crate::config::Config;

verus! {

/// The state of a service: its configuration, once it is loaded.
pub struct Context {
    config: Option<Box<Config>>,
}

impl View for Context {
    type V = Option<Config>;

    closed spec fn view(&self) -> Option<Config> {
        match self.config {
            Some(config) => Some(*config),
            None => None,
        }
    }
}

impl Default for Context {
    /// A context without a configuration.
    fn default() -> (context: Self)
        ensures
            context@ is None,
    {
        Context { config: None }
    }
}

impl Context {
    /// The configuration, if there is one.
    pub fn get_config(&self) -> (config: Option<&Config>)
        ensures
            match config {
                Some(held) => self@ == Some(*held),
                None => self@ is None,
            },
    {
        match &self.config {
            Some(held) => Some(&**held),
            None => None,
        }
    }

    /// Puts `config` in place of the configuration held.
    pub fn set_config(&mut self, config: Config)
        ensures
            final(self)@ == Some(config),
    {
        self.config = Some(Box::new(config));
    }

    /// Takes the configuration out and leaves none.
    pub fn take_config(&mut self) -> (config: Option<Config>)
        ensures
            config == old(self)@,
            final(self)@ is None,
    {
        match self.config.take() {
            Some(held) => Some(*held),
            None => None,
        }
    }
}

} // verus!
