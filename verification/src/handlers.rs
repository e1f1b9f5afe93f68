use vstd::prelude::*;

use crate::actions::Action;
use crate::actions::Fallback;

verus! {

/// A handler that leaves the configuration untouched; as a fallback it
/// ignores the token as well.
pub struct Ignore;

impl<C: DeepView> Action<C> for Ignore {
    open spec fn effect(&self, cfg: <C as DeepView>::V) -> <C as DeepView>::V {
        cfg
    }

    fn apply(&self, _cfg: &mut C) {
    }
}

impl<C: DeepView> Fallback<C> for Ignore {
    open spec fn effect(&self, cfg: <C as DeepView>::V, token: Seq<char>) -> <C as DeepView>::V {
        cfg
    }

    fn apply(&self, _cfg: &mut C, _token: &str) {
    }
}

/// A fallback over a configuration that is a vector of tokens: it appends
/// each unmatched token, so the vector ends up holding exactly the tokens
/// the table did not match, in input order.
pub struct Collect;

impl Fallback<Vec<String>> for Collect {
    open spec fn effect(&self, cfg: Seq<Seq<char>>, token: Seq<char>) -> Seq<Seq<char>> {
        cfg.push(token)
    }

    fn apply(&self, cfg: &mut Vec<String>, token: &str) {
        cfg.push(token.to_owned());
        proof {
            assert(cfg.deep_view() =~= old(cfg).deep_view().push(token@));
        }
    }
}

/// An action over a configuration that is a vector of tokens: it appends a
/// fixed marker, recording that its key was seen.
pub struct Append {
    pub text: String,
}

impl Action<Vec<String>> for Append {
    open spec fn effect(&self, cfg: Seq<Seq<char>>) -> Seq<Seq<char>> {
        cfg.push(self.text@)
    }

    fn apply(&self, cfg: &mut Vec<String>) {
        cfg.push(self.text.clone());
        proof {
            assert(cfg.deep_view() =~= old(cfg).deep_view().push(self.text@));
        }
    }
}

/// A configuration of boolean switches, addressed by position.
pub struct Switches {
    pub values: Vec<bool>,
}

impl DeepView for Switches {
    type V = Seq<bool>;

    open spec fn deep_view(&self) -> Seq<bool> {
        self.values.deep_view()
    }
}

/// An action that sets the switch at a fixed position to a fixed value;
/// positions out of range leave the switches alone.
pub struct SetSwitch {
    pub index: usize,
    pub value: bool,
}

impl Action<Switches> for SetSwitch {
    open spec fn effect(&self, cfg: Seq<bool>) -> Seq<bool> {
        if self.index < cfg.len() {
            cfg.update(self.index as int, self.value)
        } else {
            cfg
        }
    }

    fn apply(&self, cfg: &mut Switches) {
        if self.index < cfg.values.len() {
            cfg.values.set(self.index, self.value);
            proof {
                assert(cfg.deep_view() =~= old(cfg).deep_view().update(
                    self.index as int,
                    self.value,
                ));
            }
        }
    }
}

} // verus!
