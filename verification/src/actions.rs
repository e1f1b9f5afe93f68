use vstd::prelude::*;

verus! {

/// A registered callback: a fixed mutation of the configuration.
///
/// `effect` describes the mutation as a function on the configuration's
/// deep view; `apply` performs it in place, exactly as described.
pub trait Action<C: DeepView> {
    /// What applying this action does to a configuration.
    spec fn effect(&self, cfg: <C as DeepView>::V) -> <C as DeepView>::V;

    /// Mutate the configuration in place, as `effect` describes.
    fn apply(&self, cfg: &mut C)
        ensures
            (*final(cfg)).deep_view() == self.effect((*old(cfg)).deep_view()),
    ;
}

/// The callback for tokens that are not in the registration table: it
/// receives the unmatched token itself besides the configuration.
pub trait Fallback<C: DeepView> {
    /// What handling `token` does to a configuration.
    spec fn effect(&self, cfg: <C as DeepView>::V, token: Seq<char>) -> <C as DeepView>::V;

    /// Mutate the configuration in place, as `effect` describes for `token`.
    fn apply(&self, cfg: &mut C, token: &str)
        ensures
            (*final(cfg)).deep_view() == self.effect((*old(cfg)).deep_view(), token@),
    ;
}

} // verus!
