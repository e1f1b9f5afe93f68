use vstd::prelude::*;

use crate::actions::Action;
use crate::actions::Fallback;
use crate::handlers::Ignore;
use crate::table::ArgTable;

verus! {

/// One dispatch step: the token's registered callback if the token is
/// bound, else the fallback handed the token itself.
pub open spec fn step<C: DeepView, F: Action<C>, G: Fallback<C>>(
    table: Map<Seq<char>, F>,
    fallback: G,
    cfg: <C as DeepView>::V,
    token: Seq<char>,
) -> <C as DeepView>::V {
    if table.dom().contains(token) {
        table[token].effect(cfg)
    } else {
        fallback.effect(cfg, token)
    }
}

/// A whole parse: fold `step` over the tokens, left to right.
pub open spec fn run<C: DeepView, F: Action<C>, G: Fallback<C>>(
    table: Map<Seq<char>, F>,
    fallback: G,
    cfg: <C as DeepView>::V,
    tokens: Seq<Seq<char>>,
) -> <C as DeepView>::V
    decreases tokens.len(),
{
    if tokens.len() == 0 {
        cfg
    } else {
        run::<C, F, G>(
            table,
            fallback,
            step::<C, F, G>(table, fallback, cfg, tokens.first()),
            tokens.drop_first(),
        )
    }
}

/// The dispatcher: a configuration value, a registration table, and one
/// fallback callback for tokens that are not in the table.
#[must_use]
pub struct Parser<C: DeepView, F: Action<C>, G: Fallback<C>> {
    config: C,
    arguments: ArgTable<F>,
    unknown: G,
}

impl<C: DeepView, F: Action<C>, G: Fallback<C>> Parser<C, F, G> {
    /// The configuration held, as its view.
    pub closed spec fn cfg(self) -> <C as DeepView>::V {
        self.config.deep_view()
    }

    /// The registration table held, as the map it stands for.
    pub closed spec fn table(self) -> Map<Seq<char>, F> {
        self.arguments@
    }

    /// The fallback callback held.
    pub closed spec fn fallback(self) -> G {
        self.unknown
    }

    /// A dispatcher over `config` with an empty table: every token of a
    /// parse would go to `unknown`.
    pub fn new(config: C, unknown: G) -> (p: Self)
        ensures
            p.cfg() == config.deep_view(),
            p.table() == Map::<Seq<char>, F>::empty(),
            p.fallback() == unknown,
    {
        Parser { config, arguments: ArgTable::new(), unknown }
    }

    /// A dispatcher over `config` with an already-built table, used as it
    /// stands.
    pub fn with_arguments(config: C, arguments: ArgTable<F>, unknown: G) -> (p: Self)
        ensures
            p.cfg() == config.deep_view(),
            p.table() == arguments@,
            p.fallback() == unknown,
    {
        Parser { config, arguments, unknown }
    }

    /// Bind `argument` to `callback` and hand the dispatcher back, for
    /// chaining.  A later binding of the same key replaces the earlier one.
    pub fn arg(self, argument: String, callback: F) -> (p: Self)
        ensures
            p.cfg() == self.cfg(),
            p.table() == self.table().insert(argument@, callback),
            p.fallback() == self.fallback(),
    {
        let mut p = self;
        p.arguments.insert(argument, callback);
        p
    }

    /// Walk `input` in order, run one callback per token — the registered
    /// one for a bound token, the fallback for any other — and hand the
    /// final configuration back.
    pub fn parse(self, input: Vec<String>) -> (r: C)
        ensures
            r.deep_view() == run::<C, F, G>(
                self.table(),
                self.fallback(),
                self.cfg(),
                input.deep_view(),
            ),
    {
        let ghost t0 = self.table();
        let ghost g0 = self.fallback();
        let ghost c0 = self.cfg();
        let ghost toks = input.deep_view();
        let mut me = self;
        let mut i: usize = 0;
        proof {
            assert(toks.skip(0) =~= toks);
        }
        while i < input.len()
            invariant
                i <= input.len(),
                toks == input.deep_view(),
                toks.len() == input.len(),
                me.arguments@ == t0,
                me.unknown == g0,
                run::<C, F, G>(t0, g0, me.config.deep_view(), toks.skip(i as int))
                    == run::<C, F, G>(t0, g0, c0, toks),
            decreases input.len() - i,
        {
            let ghost v_before = me.config.deep_view();
            let ghost rest = toks.skip(i as int);
            let token = &input[i];
            proof {
                assert(rest.first() == toks[i as int]);
                assert(toks[i as int] == input@[i as int].deep_view());
                assert(rest.drop_first() =~= toks.skip(i as int + 1));
            }
            match me.arguments.get(token) {
                Some(callback) => {
                    callback.apply(&mut me.config);
                }
                None => {
                    me.unknown.apply(&mut me.config, token.as_str());
                }
            }
            proof {
                assert(me.config.deep_view() == step::<C, F, G>(t0, g0, v_before, toks[i as int]));
                assert(run::<C, F, G>(t0, g0, v_before, rest)
                    == run::<C, F, G>(t0, g0, me.config.deep_view(), toks.skip(i as int + 1)));
            }
            i = i + 1;
        }
        proof {
            assert(toks.skip(i as int) =~= Seq::empty());
        }
        me.config
    }
}

impl<C: DeepView + Default, F: Action<C>> Default for Parser<C, F, Ignore> {
    /// A dispatcher over the configuration type's default value, with an
    /// empty table and a fallback that ignores unknown tokens.
    fn default() -> (p: Self)
        ensures
            p.table() == Map::<Seq<char>, F>::empty(),
            p.fallback() == (Ignore),
    {
        Parser::new(C::default(), Ignore)
    }
}

/// What one token of a parse leads to: its registered callback, or the
/// fallback handed the token itself.
pub enum Outcome<F> {
    Matched(F),
    Unmatched(Seq<char>),
}

/// The dispatch decisions for a token sequence: one per token, in token
/// order, each determined by that token alone.
pub open spec fn outcomes<F>(table: Map<Seq<char>, F>, tokens: Seq<Seq<char>>) -> Seq<Outcome<F>> {
    tokens.map_values(
        |t: Seq<char>|
            if table.dom().contains(t) {
                Outcome::Matched(table[t])
            } else {
                Outcome::Unmatched(t)
            },
    )
}

/// Apply a sequence of dispatch decisions to a configuration, in order.
pub open spec fn replay<C: DeepView, F: Action<C>, G: Fallback<C>>(
    fallback: G,
    cfg: <C as DeepView>::V,
    outs: Seq<Outcome<F>>,
) -> <C as DeepView>::V
    decreases outs.len(),
{
    if outs.len() == 0 {
        cfg
    } else {
        let next = match outs.first() {
            Outcome::Matched(f) => f.effect(cfg),
            Outcome::Unmatched(t) => fallback.effect(cfg, t),
        };
        replay::<C, F, G>(fallback, next, outs.drop_first())
    }
}

/// Every token triggers exactly one callback, and the callbacks run in
/// input order: a parse is the replay of the token sequence's dispatch
/// decisions, of which there is one per token, the i-th decided by the
/// i-th token.
pub proof fn lemma_one_callback_per_token<C: DeepView, F: Action<C>, G: Fallback<C>>(
    table: Map<Seq<char>, F>,
    fallback: G,
    cfg: <C as DeepView>::V,
    tokens: Seq<Seq<char>>,
)
    ensures
        outcomes(table, tokens).len() == tokens.len(),
        forall|i: int| 0 <= i < tokens.len() ==> outcomes(table, tokens)[i]
            == (if table.dom().contains(tokens[i]) {
                Outcome::Matched(table[tokens[i]])
            } else {
                Outcome::Unmatched(tokens[i])
            }),
        run::<C, F, G>(table, fallback, cfg, tokens)
            == replay::<C, F, G>(fallback, cfg, outcomes(table, tokens)),
    decreases tokens.len(),
{
    if tokens.len() > 0 {
        let next = step::<C, F, G>(table, fallback, cfg, tokens.first());
        lemma_one_callback_per_token::<C, F, G>(table, fallback, next, tokens.drop_first());
        assert(outcomes(table, tokens).drop_first() =~= outcomes(table, tokens.drop_first()));
    }
}

/// Tokens are handled strictly left to right: running `a + b` runs `a`
/// first, then `b` from the configuration that `a` produced.
pub proof fn lemma_run_in_order<C: DeepView, F: Action<C>, G: Fallback<C>>(
    table: Map<Seq<char>, F>,
    fallback: G,
    cfg: <C as DeepView>::V,
    a: Seq<Seq<char>>,
    b: Seq<Seq<char>>,
)
    ensures
        run::<C, F, G>(table, fallback, cfg, a + b)
            == run::<C, F, G>(table, fallback, run::<C, F, G>(table, fallback, cfg, a), b),
    decreases a.len(),
{
    if a.len() == 0 {
        assert(a + b =~= b);
    } else {
        assert((a + b).first() == a.first());
        assert((a + b).drop_first() =~= a.drop_first() + b);
        let next = step::<C, F, G>(table, fallback, cfg, a.first());
        lemma_run_in_order::<C, F, G>(table, fallback, next, a.drop_first(), b);
    }
}

/// A token that is not registered is handed to the fallback exactly as it
/// stands, together with the configuration reached after the tokens that
/// came before it.
pub proof fn lemma_fallback_sees_token<C: DeepView, F: Action<C>, G: Fallback<C>>(
    table: Map<Seq<char>, F>,
    fallback: G,
    cfg: <C as DeepView>::V,
    before: Seq<Seq<char>>,
    token: Seq<char>,
)
    requires
        !table.dom().contains(token),
    ensures
        run::<C, F, G>(table, fallback, cfg, before.push(token))
            == fallback.effect(run::<C, F, G>(table, fallback, cfg, before), token),
{
    let single = seq![token];
    assert(before.push(token) =~= before + single);
    lemma_run_in_order::<C, F, G>(table, fallback, cfg, before, single);
    let mid = run::<C, F, G>(table, fallback, cfg, before);
    assert(single.len() == 1);
    assert(single.first() == token);
    assert(single.drop_first() =~= Seq::<Seq<char>>::empty());
    let stepped = step::<C, F, G>(table, fallback, mid, token);
    assert(run::<C, F, G>(table, fallback, mid, single)
        == run::<C, F, G>(table, fallback, stepped, single.drop_first()));
    assert(run::<C, F, G>(table, fallback, stepped, Seq::empty()) == stepped);
}

/// When a key was registered twice, only the later callback is ever
/// invoked for it: dispatching the key runs the second callback, whatever
/// was bound before.
pub proof fn lemma_later_registration_invoked<C: DeepView, F: Action<C>, G: Fallback<C>>(
    table: Map<Seq<char>, F>,
    fallback: G,
    cfg: <C as DeepView>::V,
    k: Seq<char>,
    f1: F,
    f2: F,
)
    ensures
        table.insert(k, f1).insert(k, f2) == table.insert(k, f2),
        step::<C, F, G>(table.insert(k, f1).insert(k, f2), fallback, cfg, k) == f2.effect(cfg),
{
    crate::table::lemma_later_binding_wins(table, k, f1, f2);
}

/// An empty input leaves the configuration exactly as it was, whatever the
/// table and the fallback.
pub proof fn lemma_empty_input<C: DeepView, F: Action<C>, G: Fallback<C>>(
    table: Map<Seq<char>, F>,
    fallback: G,
    cfg: <C as DeepView>::V,
)
    ensures
        run::<C, F, G>(table, fallback, cfg, Seq::empty()) == cfg,
{
}

} // verus!
