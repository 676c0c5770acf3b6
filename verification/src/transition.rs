//! The transition table: hyperarc storage, queried by the search.
//!
//! A hyperarc reaches its target from one operand state (unary) or from two
//! (binary).  A binary arc is registered twice, keyed by either operand with
//! the other recorded as the still-required partner, so that the arc can be
//! found from whichever operand is finalized last.

use vstd::prelude::*;

use crate::state_map::{lookup, StateIndexMap};
use crate::{State, SymbolTrait};

verus! {

/// A transition's operand states: one for a unary arc, two for a binary arc.
pub enum StatePair {
    Single(State),
    Pair(State, State),
}

/// A stored hyperarc, keyed by `from`.  When `partner` is `None` the arc is
/// unary; otherwise it fires only once the partner is finalized as well.
pub struct Hyperarc<S> {
    pub from: State,
    pub partner: Option<State>,
    pub symbol: S,
    pub target: State,
}

impl<S: SymbolTrait> Hyperarc<S> {
    /// Duplicates the arc; the copy equals the original.
    pub fn clone_arc(&self) -> (r: Self)
        ensures
            r == *self,
    {
        Hyperarc {
            from: self.from,
            partner: self.partner,
            symbol: self.symbol.clone_sym(),
            target: self.target,
        }
    }
}

/// Whether a registered arc with the given shape exists.
pub open spec fn has_arc<S>(
    arcs: Seq<Hyperarc<S>>,
    from: State,
    partner: Option<State>,
    sym: S,
    target: State,
) -> bool {
    exists|j: int|
        0 <= j < arcs.len() && #[trigger] arcs[j] == (Hyperarc {
            from: from,
            partner: partner,
            symbol: sym,
            target: target,
        })
}

/// Binary arcs come in mirror pairs: each binary entry has a twin keyed by
/// the other operand.  Every table built through `add` keeps this shape,
/// and the search relies on it: the arc fires from whichever operand is
/// finalized last.
pub open spec fn mirrored<S>(arcs: Seq<Hyperarc<S>>) -> bool {
    forall|j: int|
        0 <= j < arcs.len() ==> match (#[trigger] arcs[j]).partner {
            Option::None => true,
            Option::Some(p) => has_arc(
                arcs,
                p,
                Option::Some(arcs[j].from),
                arcs[j].symbol,
                arcs[j].target,
            ),
        }
}

/// Registering a unary arc keeps the table mirror-closed.
pub proof fn lemma_mirrored_push_single<S>(arcs: Seq<Hyperarc<S>>, st: State, sym: S, end: State)
    requires
        mirrored(arcs),
    ensures
        mirrored(arcs.push((Hyperarc { from: st, partner: None, symbol: sym, target: end }))),
{
    let t = arcs.push((Hyperarc { from: st, partner: None, symbol: sym, target: end }));
    assert forall|j: int| 0 <= j < t.len() implies match (#[trigger] t[j]).partner {
        Option::None => true,
        Option::Some(p) => has_arc(t, p, Option::Some(t[j].from), t[j].symbol, t[j].target),
    } by {
        if j < arcs.len() {
            match arcs[j].partner {
                Option::None => {},
                Option::Some(p) => {
                    let k = choose|k: int|
                        0 <= k < arcs.len() && #[trigger] arcs[k] == (Hyperarc {
                            from: p,
                            partner: Option::Some(arcs[j].from),
                            symbol: arcs[j].symbol,
                            target: arcs[j].target,
                        });
                    assert(t[k] == arcs[k]);
                },
            }
        }
    }
}

/// Registering a binary arc as a mirror pair keeps the table mirror-closed.
pub proof fn lemma_mirrored_push_pair<S>(
    arcs: Seq<Hyperarc<S>>,
    a: State,
    b: State,
    sym: S,
    end: State,
)
    requires
        mirrored(arcs),
    ensures
        mirrored(
            arcs.push((Hyperarc { from: a, partner: Some(b), symbol: sym, target: end })).push(
                (Hyperarc { from: b, partner: Some(a), symbol: sym, target: end }),
            ),
        ),
{
    let e1 = Hyperarc { from: a, partner: Some(b), symbol: sym, target: end };
    let e2 = Hyperarc { from: b, partner: Some(a), symbol: sym, target: end };
    let t = arcs.push(e1).push(e2);
    assert forall|j: int| 0 <= j < t.len() implies match (#[trigger] t[j]).partner {
        Option::None => true,
        Option::Some(p) => has_arc(t, p, Option::Some(t[j].from), t[j].symbol, t[j].target),
    } by {
        if j < arcs.len() {
            assert(t[j] == arcs[j]);
            match arcs[j].partner {
                Option::None => {},
                Option::Some(p) => {
                    let k = choose|k: int|
                        0 <= k < arcs.len() && #[trigger] arcs[k] == (Hyperarc {
                            from: p,
                            partner: Option::Some(arcs[j].from),
                            symbol: arcs[j].symbol,
                            target: arcs[j].target,
                        });
                    assert(t[k] == arcs[k]);
                },
            }
        } else if j == arcs.len() {
            assert(t[j] == e1);
            assert(t[arcs.len() as int + 1] == e2);
        } else {
            assert(t[j] == e2);
            assert(t[arcs.len() as int] == e1);
        }
    }
}

/// Whether an arc may fire given the finalized map: a unary arc always may;
/// a binary arc needs its recorded partner to be finalized.
pub open spec fn arc_open<S>(arc: Hyperarc<S>, fin: Seq<(State, usize)>) -> bool {
    match arc.partner {
        Option::None => true,
        Option::Some(p) => lookup(fin, p) is Some,
    }
}

/// The arcs keyed under `from` that may fire, in registration order.
pub open spec fn spec_usable<S>(
    arcs: Seq<Hyperarc<S>>,
    from: State,
    fin: Seq<(State, usize)>,
) -> Seq<Hyperarc<S>>
    decreases arcs.len(),
{
    if arcs.len() == 0 {
        Seq::empty()
    } else {
        let rest = spec_usable(arcs.drop_last(), from, fin);
        let a = arcs.last();
        if a.from == from && arc_open(a, fin) {
            rest.push(a)
        } else {
            rest
        }
    }
}

/// Every usable arc for `from` is a registered arc, is keyed by `from`, and
/// may fire: in particular an arc with a partner is only usable once that
/// partner is finalized.
pub proof fn lemma_usable_props<S>(arcs: Seq<Hyperarc<S>>, from: State, fin: Seq<(State, usize)>)
    ensures
        forall|i: int|
            0 <= i < spec_usable(arcs, from, fin).len() ==> {
                let a = #[trigger] spec_usable(arcs, from, fin)[i];
                arcs.contains(a) && a.from == from && arc_open(a, fin)
            },
    decreases arcs.len(),
{
    if arcs.len() > 0 {
        lemma_usable_props(arcs.drop_last(), from, fin);
        assert forall|x: Hyperarc<S>| arcs.drop_last().contains(x) implies arcs.contains(x) by {
            let j = choose|j: int| 0 <= j < arcs.drop_last().len() && arcs.drop_last()[j] == x;
            assert(arcs[j] == x);
        }
    }
}

/// Every registered arc keyed by `from` that may fire appears among the
/// usable arcs.
pub proof fn lemma_usable_complete<S>(
    arcs: Seq<Hyperarc<S>>,
    from: State,
    fin: Seq<(State, usize)>,
    j: int,
)
    requires
        0 <= j < arcs.len(),
        arcs[j].from == from,
        arc_open(arcs[j], fin),
    ensures
        spec_usable(arcs, from, fin).contains(arcs[j]),
    decreases arcs.len(),
{
    let r = spec_usable(arcs, from, fin);
    if j == arcs.len() - 1 {
        assert(r[r.len() - 1] == arcs[j]);
    } else {
        lemma_usable_complete(arcs.drop_last(), from, fin, j);
        assert(arcs.drop_last()[j] == arcs[j]);
        let r0 = spec_usable(arcs.drop_last(), from, fin);
        let k = choose|k: int| 0 <= k < r0.len() && r0[k] == arcs.drop_last()[j];
        assert(r[k] == arcs[j]);
    }
}

/// The transition table: every registered hyperarc, in registration order.
pub struct Transition<S> {
    items: Vec<Hyperarc<S>>,
}

impl<S> Transition<S> {
    /// The registered arcs as specifications see them.
    pub closed spec fn arcs(&self) -> Seq<Hyperarc<S>> {
        self.items@
    }
}

impl<S: SymbolTrait> Transition<S> {
    /// An empty table.
    pub fn new() -> (r: Self)
        ensures
            r.arcs() =~= Seq::<Hyperarc<S>>::empty(),
    {
        Transition { items: Vec::new() }
    }

    /// Registers a hyperarc.  A unary arc is stored once, keyed by its one
    /// operand.  A binary arc is stored symmetrically, once keyed by each
    /// operand with the other as the recorded partner.
    pub fn add(&mut self, symbol: S, start: StatePair, end: State)
        ensures
            match start {
                StatePair::Single(st) => final(self).arcs() =~= old(self).arcs().push(
                    (Hyperarc { from: st, partner: None, symbol: symbol, target: end }),
                ),
                StatePair::Pair(a, b) => final(self).arcs() =~= old(self).arcs().push(
                    (Hyperarc { from: a, partner: Some(b), symbol: symbol, target: end }),
                ).push((Hyperarc { from: b, partner: Some(a), symbol: symbol, target: end })),
            },
    {
        match start {
            StatePair::Single(state) => {
                self.items.push(Hyperarc { from: state, partner: None, symbol, target: end });
            },
            StatePair::Pair(state1, state2) => {
                let twin = symbol.clone_sym();
                self.items.push(
                    Hyperarc { from: state1, partner: Some(state2), symbol, target: end },
                );
                self.items.push(
                    Hyperarc { from: state2, partner: Some(state1), symbol: twin, target: end },
                );
            },
        }
    }

    /// The arcs keyed under `from` that may fire given the finalized map:
    /// unary arcs unconditionally, binary arcs only when the recorded
    /// partner is already finalized, in registration order.
    pub fn transition_list(&self, from: State, finalized: &StateIndexMap) -> (r: Vec<Hyperarc<S>>)
        ensures
            r@ == spec_usable(self.arcs(), from, finalized@),
    {
        let n = self.items.len();
        let mut r: Vec<Hyperarc<S>> = Vec::new();
        let mut i: usize = 0;
        proof {
            assert(self.items@.take(0) =~= Seq::<Hyperarc<S>>::empty());
        }
        while i < n
            invariant
                0 <= i <= n,
                n == self.items@.len(),
                r@ == spec_usable(self.items@.take(i as int), from, finalized@),
            decreases n - i,
        {
            proof {
                assert(self.items@.take(i as int + 1).drop_last() =~= self.items@.take(i as int));
                assert(self.items@.take(i as int + 1).last() == self.items@[i as int]);
            }
            let arc = &self.items[i];
            let usable = match arc.partner {
                None => true,
                Some(p) => finalized.contains_key(p),
            };
            if arc.from == from && usable {
                r.push(arc.clone_arc());
            }
            i = i + 1;
        }
        proof {
            assert(self.items@.take(n as int) =~= self.items@);
        }
        r
    }
}

} // verus!
