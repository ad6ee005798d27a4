//! Kind inference decides, for each permission variable, whether it is
//! owned, borrowed or shared. It does not look at control flow: it only
//! follows the edges between permissions. An edge `Pa <= Pb` hands "at least
//! borrowed" and "owned" on from `Pa` to `Pb`; a guarded edge counts once its
//! guard is known to be at least borrowed.
//!
//! A variable that ends up neither owned nor borrowed is shared. Nothing is
//! recorded for it: absence from the result is what says "shared".

use crate::intern::{interned, lemma_interned_wf, TyInterners};
use crate::kind_map::{entry_keys, lemma_key_position, KindMap};
use crate::relation::{
    activate_edges, changed, complete, follow_from_borrow, follow_from_owned, fresh_guarded_join,
    fresh_step_join, guarded_from_vec, guarded_join, guarded_recent, guarded_rows, guarded_stable,
    guarded_to_add, insert_seeds, kind_variables, pairs_from_vec, pairs_recent, pairs_stable,
    pairs_to_add, step_join, unit_elements, units_ascend, units_from_vec, units_recent,
    units_stable, units_to_add, KindVariables,
};
use crate::ty::{Node, Perm, PermData, PermKind, PermVar};
use vstd::prelude::*;
use vstd::set_lib::lemma_len_subset;

verus! {

/// The facts that the fixpoint starts from, over permission keys.
pub struct KindInput {
    /// The edges that always count.
    pub base: Set<(u32, u32)>,
    /// The edges `(guard, (from, to))` that count once the guard is at
    /// least borrowed.
    pub guarded: Set<(u32, (u32, u32))>,
    /// The keys known to be at least borrowed.
    pub borrow_seed: Set<u32>,
    /// The keys known to be owned.
    pub owned_seed: Set<u32>,
}

/// The three relations that the fixpoint grows.
pub struct KindFacts {
    pub less: Set<(u32, u32)>,
    pub borrow: Set<u32>,
    pub owned: Set<u32>,
}

/// `f` holds the starting facts and nothing can be added to it by a rule.
pub open spec fn closed(inp: KindInput, f: KindFacts) -> bool {
    &&& inp.base.subset_of(f.less)
    &&& inp.borrow_seed.subset_of(f.borrow)
    &&& inp.owned_seed.subset_of(f.owned)
    &&& forall|c: u32, a: u32, b: u32|
        #![trigger inp.guarded.contains((c, (a, b)))]
        inp.guarded.contains((c, (a, b))) && f.borrow.contains(c) ==> f.less.contains((a, b))
    &&& forall|a: u32, b: u32|
        #![trigger f.less.contains((a, b))]
        f.less.contains((a, b)) && f.borrow.contains(a) ==> f.borrow.contains(b)
    &&& forall|a: u32, b: u32|
        #![trigger f.less.contains((a, b))]
        f.less.contains((a, b)) && f.owned.contains(a) ==> f.owned.contains(b)
}

/// What every closed set of facts holds: the least fixpoint of the rules.
pub open spec fn least_model(inp: KindInput) -> KindFacts {
    KindFacts {
        less: Set::new(
            |t: (u32, u32)| forall|f: KindFacts| #[trigger] closed(inp, f) ==> f.less.contains(t),
        ),
        borrow: Set::new(
            |p: u32| forall|f: KindFacts| #[trigger] closed(inp, f) ==> f.borrow.contains(p),
        ),
        owned: Set::new(
            |p: u32| forall|f: KindFacts| #[trigger] closed(inp, f) ==> f.owned.contains(p),
        ),
    }
}

/// The least model is itself closed.
pub proof fn lemma_least_is_closed(inp: KindInput)
    ensures
        closed(inp, least_model(inp)),
{
    let m = least_model(inp);
    assert forall|c: u32, a: u32, b: u32|
        #![trigger inp.guarded.contains((c, (a, b)))]
        inp.guarded.contains((c, (a, b))) && m.borrow.contains(c) implies m.less.contains(
        (a, b),
    ) by {
        assert forall|f: KindFacts| #[trigger] closed(inp, f) implies f.less.contains((a, b)) by {
            assert(f.borrow.contains(c));
        }
    }
    assert forall|a: u32, b: u32|
        #![trigger m.less.contains((a, b))]
        m.less.contains((a, b)) && m.borrow.contains(a) implies m.borrow.contains(b) by {
        assert forall|f: KindFacts| #[trigger] closed(inp, f) implies f.borrow.contains(b) by {
            assert(f.less.contains((a, b)));
            assert(f.borrow.contains(a));
        }
    }
    assert forall|a: u32, b: u32|
        #![trigger m.less.contains((a, b))]
        m.less.contains((a, b)) && m.owned.contains(a) implies m.owned.contains(b) by {
        assert forall|f: KindFacts| #[trigger] closed(inp, f) implies f.owned.contains(b) by {
            assert(f.less.contains((a, b)));
            assert(f.owned.contains(a));
        }
    }
}

/// The least model lies within every closed set of facts.
pub proof fn lemma_least_is_least(inp: KindInput, f: KindFacts)
    requires
        closed(inp, f),
    ensures
        least_model(inp).less.subset_of(f.less),
        least_model(inp).borrow.subset_of(f.borrow),
        least_model(inp).owned.subset_of(f.owned),
{
}

/// Whatever is owned is also at least borrowed, provided the seeds say so.
pub proof fn lemma_owned_within_borrow(inp: KindInput)
    requires
        inp.owned_seed.subset_of(inp.borrow_seed),
    ensures
        least_model(inp).owned.subset_of(least_model(inp).borrow),
{
    let m = least_model(inp);
    lemma_least_is_closed(inp);
    let f = KindFacts { less: m.less, borrow: m.borrow, owned: m.owned.intersect(m.borrow) };
    assert(closed(inp, f));
    lemma_least_is_least(inp, f);
}

/// All that the rules could ever derive: every edge active, and every
/// target of an edge both borrowed and owned.
pub open spec fn ceiling(inp: KindInput) -> KindFacts {
    let less = inp.base.union(inp.guarded.map(|g: (u32, (u32, u32))| g.1));
    let heads = less.map(|t: (u32, u32)| t.1);
    KindFacts { less, borrow: inp.borrow_seed.union(heads), owned: inp.owned_seed.union(heads) }
}

/// The least model lies below the ceiling, which is finite when the input is.
pub proof fn lemma_least_is_finite(inp: KindInput)
    requires
        inp.base.finite(),
        inp.guarded.finite(),
        inp.borrow_seed.finite(),
        inp.owned_seed.finite(),
    ensures
        least_model(inp).less.subset_of(ceiling(inp).less),
        least_model(inp).borrow.subset_of(ceiling(inp).borrow),
        least_model(inp).owned.subset_of(ceiling(inp).owned),
        least_model(inp).less.finite(),
        least_model(inp).borrow.finite(),
        least_model(inp).owned.finite(),
{
    let top = ceiling(inp);
    let second = |g: (u32, (u32, u32))| g.1;
    let head = |t: (u32, u32)| t.1;
    inp.guarded.lemma_map_finite(second);
    assert(top.less.finite());
    top.less.lemma_map_finite(head);
    assert(top.borrow.finite());
    assert(top.owned.finite());
    assert forall|c: u32, a: u32, b: u32|
        #![trigger inp.guarded.contains((c, (a, b)))]
        inp.guarded.contains((c, (a, b))) implies top.less.contains((a, b)) by {
        assert(second((c, (a, b))) == (a, b));
        assert(inp.guarded.map(second).contains((a, b)));
    }
    assert forall|a: u32, b: u32|
        #![trigger top.less.contains((a, b))]
        top.less.contains((a, b)) implies top.less.map(head).contains(b) by {
        assert(head((a, b)) == b);
    }
    assert(closed(inp, top));
    lemma_least_is_least(inp, top);
    let m = least_model(inp);
    lemma_len_subset(m.less, top.less);
    lemma_len_subset(m.borrow, top.borrow);
    lemma_len_subset(m.owned, top.owned);
}

/// The input that four lists of rows stand for.
pub open spec fn rows_input(
    base: Seq<(u32, u32)>,
    guarded: Seq<(u32, (u32, u32))>,
    borrow_seed: Seq<u32>,
    owned_seed: Seq<u32>,
) -> KindInput {
    KindInput {
        base: base.to_set(),
        guarded: guarded.to_set(),
        borrow_seed: borrow_seed.to_set(),
        owned_seed: owned_seed.to_set(),
    }
}

/// The edges of `v` that are visible.
spec fn less_seen(v: KindVariables) -> Set<(u32, u32)> {
    pairs_stable(v.edges()).union(pairs_recent(v.edges()))
}

/// The edges that `v` holds, visible or not yet.
spec fn less_all(v: KindVariables) -> Set<(u32, u32)> {
    less_seen(v).union(pairs_to_add(v.edges()))
}

/// The guarded edges of `v` that are visible.
spec fn condition_seen(v: KindVariables) -> Set<(u32, (u32, u32))> {
    guarded_stable(v.guarded_edges()).union(guarded_recent(v.guarded_edges()))
}

/// The guarded edges that `v` holds, visible or not yet.
spec fn condition_all(v: KindVariables) -> Set<(u32, (u32, u32))> {
    condition_seen(v).union(guarded_to_add(v.guarded_edges()))
}

/// The borrowed keys of `v` that are visible.
spec fn borrow_seen(v: KindVariables) -> Set<u32> {
    units_stable(v.borrowed()).union(units_recent(v.borrowed()))
}

/// The borrowed keys that `v` holds, visible or not yet.
spec fn borrow_all(v: KindVariables) -> Set<u32> {
    borrow_seen(v).union(units_to_add(v.borrowed()))
}

/// The owned keys of `v` that are visible.
spec fn owned_seen(v: KindVariables) -> Set<u32> {
    units_stable(v.owned_keys()).union(units_recent(v.owned_keys()))
}

/// The owned keys that `v` holds, visible or not yet.
spec fn owned_all(v: KindVariables) -> Set<u32> {
    owned_seen(v).union(units_to_add(v.owned_keys()))
}

/// What holds between two rounds: the variables hold the starting facts
/// and nothing beyond the least model, and whatever the rules derive from
/// what is visible, the variables hold.
spec fn between_rounds(inp: KindInput, v: KindVariables) -> bool {
    let m = least_model(inp);
    &&& less_all(v).subset_of(m.less)
    &&& inp.base.subset_of(less_all(v))
    &&& condition_all(v) == inp.guarded
    &&& borrow_all(v).subset_of(m.borrow)
    &&& inp.borrow_seed.subset_of(borrow_all(v))
    &&& owned_all(v).subset_of(m.owned)
    &&& inp.owned_seed.subset_of(owned_all(v))
    &&& guarded_join(condition_seen(v), borrow_seen(v)).subset_of(less_all(v))
    &&& step_join(less_seen(v), borrow_seen(v)).subset_of(borrow_all(v))
    &&& step_join(less_seen(v), owned_seen(v)).subset_of(owned_all(v))
}

/// How much is left to become visible.
spec fn still_hidden(inp: KindInput, v: KindVariables) -> int {
    let m = least_model(inp);
    m.less.len() + inp.guarded.len() + m.borrow.len() + m.owned.len() - less_seen(v).len()
        - condition_seen(v).len() - borrow_seen(v).len() - owned_seen(v).len()
}

/// A set that lacks an element of a finite set around it is smaller.
proof fn lemma_smaller<T>(inner: Set<T>, outer: Set<T>, x: T)
    requires
        outer.finite(),
        inner.subset_of(outer),
        outer.contains(x),
        !inner.contains(x),
    ensures
        inner.finite(),
        inner.len() < outer.len(),
{
    lemma_len_subset(inner, outer.remove(x));
}

/// A set that is not empty has an element.
proof fn lemma_inhabited<T>(s: Set<T>) -> (x: T)
    requires
        s != Set::<T>::empty(),
    ensures
        s.contains(x),
{
    if forall|y: T| !s.contains(y) {
        assert(s =~= Set::<T>::empty());
    }
    choose|y: T| s.contains(y)
}

/// The matches of what is visible are the matches of stable with stable
/// and the fresh ones.
proof fn lemma_guarded_join_split(
    gs: Set<(u32, (u32, u32))>,
    gr: Set<(u32, (u32, u32))>,
    ss: Set<u32>,
    sr: Set<u32>,
)
    ensures
        guarded_join(gs.union(gr), ss.union(sr)) == guarded_join(gs, ss).union(
            fresh_guarded_join(gs, gr, ss, sr),
        ),
{
    let whole = guarded_join(gs.union(gr), ss.union(sr));
    let parts = guarded_join(gs, ss).union(fresh_guarded_join(gs, gr, ss, sr));
    assert forall|t: (u32, u32)| whole.contains(t) <==> parts.contains(t) by {
        if whole.contains(t) {
            let c = choose|c: u32| #[trigger] gs.union(gr).contains((c, t)) && ss.union(sr).contains(c);
            if gs.contains((c, t)) && ss.contains(c) {
                assert(guarded_join(gs, ss).contains(t));
            } else if gr.contains((c, t)) && ss.contains(c) {
                assert(guarded_join(gr, ss).contains(t));
            } else if gs.contains((c, t)) && sr.contains(c) {
                assert(guarded_join(gs, sr).contains(t));
            } else {
                assert(gr.contains((c, t)) && sr.contains(c));
                assert(guarded_join(gr, sr).contains(t));
            }
        }
        if guarded_join(gs, ss).contains(t) {
            let c = choose|c: u32| #[trigger] gs.contains((c, t)) && ss.contains(c);
            assert(gs.union(gr).contains((c, t)) && ss.union(sr).contains(c));
        }
        if guarded_join(gr, ss).contains(t) {
            let c = choose|c: u32| #[trigger] gr.contains((c, t)) && ss.contains(c);
            assert(gs.union(gr).contains((c, t)) && ss.union(sr).contains(c));
        }
        if guarded_join(gs, sr).contains(t) {
            let c = choose|c: u32| #[trigger] gs.contains((c, t)) && sr.contains(c);
            assert(gs.union(gr).contains((c, t)) && ss.union(sr).contains(c));
        }
        if guarded_join(gr, sr).contains(t) {
            let c = choose|c: u32| #[trigger] gr.contains((c, t)) && sr.contains(c);
            assert(gs.union(gr).contains((c, t)) && ss.union(sr).contains(c));
        }
    }
    assert(whole =~= parts);
}

/// The same for the join along the pairs.
proof fn lemma_step_join_split(ls: Set<(u32, u32)>, lr: Set<(u32, u32)>, ss: Set<u32>, sr: Set<u32>)
    ensures
        step_join(ls.union(lr), ss.union(sr)) == step_join(ls, ss).union(
            fresh_step_join(ls, lr, ss, sr),
        ),
{
    let whole = step_join(ls.union(lr), ss.union(sr));
    let parts = step_join(ls, ss).union(fresh_step_join(ls, lr, ss, sr));
    assert forall|b: u32| whole.contains(b) <==> parts.contains(b) by {
        if whole.contains(b) {
            let a = choose|a: u32| #[trigger] ls.union(lr).contains((a, b)) && ss.union(sr).contains(a);
            if ls.contains((a, b)) && ss.contains(a) {
                assert(step_join(ls, ss).contains(b));
            } else if lr.contains((a, b)) && ss.contains(a) {
                assert(step_join(lr, ss).contains(b));
            } else if ls.contains((a, b)) && sr.contains(a) {
                assert(step_join(ls, sr).contains(b));
            } else {
                assert(lr.contains((a, b)) && sr.contains(a));
                assert(step_join(lr, sr).contains(b));
            }
        }
        if step_join(ls, ss).contains(b) {
            let a = choose|a: u32| #[trigger] ls.contains((a, b)) && ss.contains(a);
            assert(ls.union(lr).contains((a, b)) && ss.union(sr).contains(a));
        }
        if step_join(lr, ss).contains(b) {
            let a = choose|a: u32| #[trigger] lr.contains((a, b)) && ss.contains(a);
            assert(ls.union(lr).contains((a, b)) && ss.union(sr).contains(a));
        }
        if step_join(ls, sr).contains(b) {
            let a = choose|a: u32| #[trigger] ls.contains((a, b)) && sr.contains(a);
            assert(ls.union(lr).contains((a, b)) && ss.union(sr).contains(a));
        }
        if step_join(lr, sr).contains(b) {
            let a = choose|a: u32| #[trigger] lr.contains((a, b)) && sr.contains(a);
            assert(ls.union(lr).contains((a, b)) && ss.union(sr).contains(a));
        }
    }
    assert(whole =~= parts);
}

/// A join of what lies within a closed set of facts lies within it.
proof fn lemma_joins_within(inp: KindInput, f: KindFacts, g: Set<(u32, (u32, u32))>, l: Set<
    (u32, u32),
>, b: Set<u32>, o: Set<u32>)
    requires
        closed(inp, f),
        g.subset_of(inp.guarded),
        l.subset_of(f.less),
        b.subset_of(f.borrow),
        o.subset_of(f.owned),
    ensures
        guarded_join(g, b).subset_of(f.less),
        step_join(l, b).subset_of(f.borrow),
        step_join(l, o).subset_of(f.owned),
{
    assert forall|t: (u32, u32)| guarded_join(g, b).contains(t) implies f.less.contains(t) by {
        let c = choose|c: u32| #[trigger] g.contains((c, t)) && b.contains(c);
        assert(inp.guarded.contains((c, (t.0, t.1))));
        assert(f.borrow.contains(c));
        assert(f.less.contains((t.0, t.1)));
    }
    assert forall|x: u32| step_join(l, b).contains(x) implies f.borrow.contains(x) by {
        let a = choose|a: u32| #[trigger] l.contains((a, x)) && b.contains(a);
        assert(f.less.contains((a, x)));
        assert(f.borrow.contains(a));
    }
    assert forall|x: u32| step_join(l, o).contains(x) implies f.owned.contains(x) by {
        let a = choose|a: u32| #[trigger] l.contains((a, x)) && o.contains(a);
        assert(f.less.contains((a, x)));
        assert(f.owned.contains(a));
    }
}

/// One round and the joins that follow it: what held between the rounds
/// holds again, and more is visible than before.
proof fn lemma_round(
    inp: KindInput,
    before: KindVariables,
    turned: KindVariables,
    one: KindVariables,
    two: KindVariables,
    after: KindVariables,
    any: bool,
)
    requires
        closed(inp, least_model(inp)),
        least_model(inp).less.finite(),
        least_model(inp).borrow.finite(),
        least_model(inp).owned.finite(),
        inp.guarded.finite(),
        between_rounds(inp, before),
        round_of(before, turned, any),
        any,
        pairs_to_add(one.edges()) == pairs_to_add(turned.edges()).union(
            fresh_guarded_join(
                guarded_stable(turned.guarded_edges()),
                guarded_recent(turned.guarded_edges()),
                units_stable(turned.borrowed()),
                units_recent(turned.borrowed()),
            ),
        ),
        pairs_stable(one.edges()) == pairs_stable(turned.edges()),
        pairs_recent(one.edges()) == pairs_recent(turned.edges()),
        one.guarded_edges() == turned.guarded_edges(),
        one.borrowed() == turned.borrowed(),
        one.owned_keys() == turned.owned_keys(),
        units_to_add(two.borrowed()) == units_to_add(one.borrowed()).union(
            fresh_step_join(
                pairs_stable(one.edges()),
                pairs_recent(one.edges()),
                units_stable(one.borrowed()),
                units_recent(one.borrowed()),
            ),
        ),
        units_stable(two.borrowed()) == units_stable(one.borrowed()),
        units_recent(two.borrowed()) == units_recent(one.borrowed()),
        two.edges() == one.edges(),
        two.guarded_edges() == one.guarded_edges(),
        two.owned_keys() == one.owned_keys(),
        units_to_add(after.owned_keys()) == units_to_add(two.owned_keys()).union(
            fresh_step_join(
                pairs_stable(two.edges()),
                pairs_recent(two.edges()),
                units_stable(two.owned_keys()),
                units_recent(two.owned_keys()),
            ),
        ),
        units_stable(after.owned_keys()) == units_stable(two.owned_keys()),
        units_recent(after.owned_keys()) == units_recent(two.owned_keys()),
        after.edges() == two.edges(),
        after.guarded_edges() == two.guarded_edges(),
        after.borrowed() == two.borrowed(),
    ensures
        between_rounds(inp, after),
        0 <= still_hidden(inp, after) < still_hidden(inp, before),
{
    let m = least_model(inp);
    // After the round, everything that the variables held is visible.
    assert(less_seen(turned) =~= less_all(before));
    assert(condition_seen(turned) =~= condition_all(before));
    assert(borrow_seen(turned) =~= borrow_all(before));
    assert(owned_seen(turned) =~= owned_all(before));
    assert(less_seen(after) == less_seen(turned));
    assert(condition_seen(after) == condition_seen(turned));
    assert(borrow_seen(after) == borrow_seen(turned));
    assert(owned_seen(after) == owned_seen(turned));
    assert(condition_all(after) =~= inp.guarded);

    // The matches of what is visible now are the matches of what was
    // visible before the round, which were held, and the fresh ones, which
    // the joins have added.
    lemma_guarded_join_split(
        guarded_stable(turned.guarded_edges()),
        guarded_recent(turned.guarded_edges()),
        units_stable(turned.borrowed()),
        units_recent(turned.borrowed()),
    );
    lemma_step_join_split(
        pairs_stable(turned.edges()),
        pairs_recent(turned.edges()),
        units_stable(turned.borrowed()),
        units_recent(turned.borrowed()),
    );
    lemma_step_join_split(
        pairs_stable(turned.edges()),
        pairs_recent(turned.edges()),
        units_stable(turned.owned_keys()),
        units_recent(turned.owned_keys()),
    );
    assert(guarded_stable(turned.guarded_edges()) == condition_seen(before));
    assert(pairs_stable(turned.edges()) == less_seen(before));
    assert(units_stable(turned.borrowed()) == borrow_seen(before));
    assert(units_stable(turned.owned_keys()) == owned_seen(before));
    assert(guarded_join(condition_seen(after), borrow_seen(after)).subset_of(less_all(after)));
    assert(step_join(less_seen(after), borrow_seen(after)).subset_of(borrow_all(after)));
    assert(step_join(less_seen(after), owned_seen(after)).subset_of(owned_all(after)));

    // What the joins add is within the least model.
    lemma_joins_within(
        inp,
        m,
        condition_seen(after),
        less_seen(after),
        borrow_seen(after),
        owned_seen(after),
    );
    assert(less_all(after).subset_of(m.less));
    assert(borrow_all(after).subset_of(m.borrow));
    assert(owned_all(after).subset_of(m.owned));
    assert(inp.base.subset_of(less_all(after)));
    assert(inp.borrow_seed.subset_of(borrow_all(after)));
    assert(inp.owned_seed.subset_of(owned_all(after)));

    // More is visible than before: something became recent.
    lemma_len_subset(less_seen(before), less_seen(after));
    lemma_len_subset(condition_seen(before), condition_seen(after));
    lemma_len_subset(borrow_seen(before), borrow_seen(after));
    lemma_len_subset(owned_seen(before), owned_seen(after));
    lemma_len_subset(less_seen(after), m.less);
    lemma_len_subset(condition_seen(after), inp.guarded);
    lemma_len_subset(borrow_seen(after), m.borrow);
    lemma_len_subset(owned_seen(after), m.owned);
    if pairs_recent(turned.edges()) != Set::<(u32, u32)>::empty() {
        let x = lemma_inhabited(pairs_recent(turned.edges()));
        lemma_smaller(less_seen(before), less_seen(after), x);
    } else if guarded_recent(turned.guarded_edges()) != Set::<(u32, (u32, u32))>::empty() {
        let x = lemma_inhabited(guarded_recent(turned.guarded_edges()));
        lemma_smaller(condition_seen(before), condition_seen(after), x);
    } else if units_recent(turned.borrowed()) != Set::<u32>::empty() {
        let x = lemma_inhabited(units_recent(turned.borrowed()));
        lemma_smaller(borrow_seen(before), borrow_seen(after), x);
    } else {
        let x = lemma_inhabited(units_recent(turned.owned_keys()));
        lemma_smaller(owned_seen(before), owned_seen(after), x);
    }
}

/// What a round does to the variables, and what it answers.
spec fn round_of(before: KindVariables, turned: KindVariables, any: bool) -> bool {
    &&& pairs_stable(turned.edges()) == pairs_stable(before.edges()).union(
        pairs_recent(before.edges()),
    )
    &&& pairs_recent(turned.edges()) == pairs_to_add(before.edges()).difference(
        pairs_stable(turned.edges()),
    )
    &&& pairs_to_add(turned.edges()) == Set::<(u32, u32)>::empty()
    &&& guarded_stable(turned.guarded_edges()) == guarded_stable(before.guarded_edges()).union(
        guarded_recent(before.guarded_edges()),
    )
    &&& guarded_recent(turned.guarded_edges()) == guarded_to_add(
        before.guarded_edges(),
    ).difference(guarded_stable(turned.guarded_edges()))
    &&& guarded_to_add(turned.guarded_edges()) == Set::<(u32, (u32, u32))>::empty()
    &&& units_stable(turned.borrowed()) == units_stable(before.borrowed()).union(
        units_recent(before.borrowed()),
    )
    &&& units_recent(turned.borrowed()) == units_to_add(before.borrowed()).difference(
        units_stable(turned.borrowed()),
    )
    &&& units_to_add(turned.borrowed()) == Set::<u32>::empty()
    &&& units_stable(turned.owned_keys()) == units_stable(before.owned_keys()).union(units_recent(before.owned_keys()))
    &&& units_recent(turned.owned_keys()) == units_to_add(before.owned_keys()).difference(
        units_stable(turned.owned_keys()),
    )
    &&& units_to_add(turned.owned_keys()) == Set::<u32>::empty()
    &&& any == !(pairs_recent(turned.edges()) == Set::<(u32, u32)>::empty() && guarded_recent(
        turned.guarded_edges(),
    ) == Set::<(u32, (u32, u32))>::empty() && units_recent(turned.borrowed()) == Set::<u32>::empty()
        && units_recent(turned.owned_keys()) == Set::<u32>::empty())
}

/// A round after which nothing is recent leaves the least model behind.
proof fn lemma_last_round(inp: KindInput, before: KindVariables, turned: KindVariables)
    requires
        between_rounds(inp, before),
        round_of(before, turned, false),
    ensures
        units_stable(turned.borrowed()) == least_model(inp).borrow,
        units_stable(turned.owned_keys()) == least_model(inp).owned,
{
    let m = least_model(inp);
    let f = KindFacts {
        less: pairs_stable(turned.edges()),
        borrow: units_stable(turned.borrowed()),
        owned: units_stable(turned.owned_keys()),
    };
    assert forall|x: (u32, u32)| pairs_to_add(before.edges()).contains(x) implies f.less.contains(
        x,
    ) by {
        if !f.less.contains(x) {
            assert(pairs_to_add(before.edges()).difference(f.less).contains(x));
        }
    }
    assert forall|x: u32| units_to_add(before.borrowed()).contains(x) implies f.borrow.contains(x) by {
        if !f.borrow.contains(x) {
            assert(units_to_add(before.borrowed()).difference(f.borrow).contains(x));
        }
    }
    assert forall|x: u32| units_to_add(before.owned_keys()).contains(x) implies f.owned.contains(x) by {
        if !f.owned.contains(x) {
            assert(units_to_add(before.owned_keys()).difference(f.owned).contains(x));
        }
    }
    assert forall|x: (u32, (u32, u32))|
        guarded_to_add(before.guarded_edges()).contains(x) implies guarded_stable(
        turned.guarded_edges(),
    ).contains(x) by {
        if !guarded_stable(turned.guarded_edges()).contains(x) {
            assert(guarded_to_add(before.guarded_edges()).difference(
                guarded_stable(turned.guarded_edges()),
            ).contains(x));
        }
    }
    assert(f.less =~= less_all(before));
    assert(f.borrow =~= borrow_all(before));
    assert(f.owned =~= owned_all(before));
    assert(guarded_stable(turned.guarded_edges()) =~= inp.guarded);
    assert(less_seen(before) =~= less_all(before));
    assert(borrow_seen(before) =~= borrow_all(before));
    assert(owned_seen(before) =~= owned_all(before));
    assert(condition_seen(before) =~= inp.guarded);
    assert forall|c: u32, a: u32, b: u32|
        #![trigger inp.guarded.contains((c, (a, b)))]
        inp.guarded.contains((c, (a, b))) && f.borrow.contains(c) implies f.less.contains(
        (a, b),
    ) by {
        assert(guarded_join(condition_seen(before), borrow_seen(before)).contains((a, b)));
    }
    assert forall|a: u32, b: u32|
        #![trigger f.less.contains((a, b))]
        f.less.contains((a, b)) && f.borrow.contains(a) implies f.borrow.contains(b) by {
        assert(step_join(less_seen(before), borrow_seen(before)).contains(b));
    }
    assert forall|a: u32, b: u32|
        #![trigger f.less.contains((a, b))]
        f.less.contains((a, b)) && f.owned.contains(a) implies f.owned.contains(b) by {
        assert(step_join(less_seen(before), owned_seen(before)).contains(b));
    }
    assert(closed(inp, f));
    lemma_least_is_least(inp, f);
    assert(f.borrow =~= m.borrow);
    assert(f.owned =~= m.owned);
}

/// Runs the rules on the given rows until nothing new comes out, and hands
/// back the keys that are at least borrowed and the keys that are owned,
/// each list in ascending order.
///
/// The rows go into four variables. Every round makes visible what was
/// added since the round before; then the guarded edges are joined with
/// the borrowed keys to activate edges, and the edges are followed from
/// the borrowed and from the owned keys. The rounds end when a round
/// makes nothing visible.
pub fn saturate(
    base: Vec<(u32, u32)>,
    guarded: Vec<(u32, (u32, u32))>,
    borrow_seed: Vec<u32>,
    owned_seed: Vec<u32>,
) -> (reached: (Vec<u32>, Vec<u32>))
    ensures
        units_ascend(reached.0@),
        units_ascend(reached.1@),
        reached.0@.to_set() == least_model(
            rows_input(base@, guarded@, borrow_seed@, owned_seed@),
        ).borrow,
        reached.1@.to_set() == least_model(
            rows_input(base@, guarded@, borrow_seed@, owned_seed@),
        ).owned,
{
    let ghost inp = rows_input(base@, guarded@, borrow_seed@, owned_seed@);
    let ghost m = least_model(inp);
    proof {
        vstd::seq_lib::seq_to_set_is_finite(base@);
        vstd::seq_lib::seq_to_set_is_finite(guarded@);
        vstd::seq_lib::seq_to_set_is_finite(borrow_seed@);
        vstd::seq_lib::seq_to_set_is_finite(owned_seed@);
        lemma_least_is_closed(inp);
        lemma_least_is_finite(inp);
    }
    let mut vars = kind_variables();
    let ghost empty = vars;

    // perm_less(Pa, Pb) :- perm_less_base(Pa, Pb, _).
    let perm_less = pairs_from_vec(base);
    // perm_condition(Pc, Pa, Pb) :- perm_less_if_base(Pc, Pa, Pb, _).
    let perm_condition = guarded_from_vec(guarded);
    let borrow = units_from_vec(borrow_seed);
    let owned = units_from_vec(owned_seed);
    insert_seeds(&mut vars, perm_less, perm_condition, borrow, owned);
    proof {
        assert(less_seen(vars) =~= Set::<(u32, u32)>::empty());
        assert(borrow_seen(vars) =~= Set::<u32>::empty());
        assert(owned_seen(vars) =~= Set::<u32>::empty());
        assert(condition_seen(vars) =~= Set::<(u32, (u32, u32))>::empty());
        assert(less_all(vars) =~= inp.base);
        assert(condition_all(vars) =~= inp.guarded);
        assert(borrow_all(vars) =~= inp.borrow_seed);
        assert(owned_all(vars) =~= inp.owned_seed);
        assert(guarded_join(condition_seen(vars), borrow_seen(vars)) =~= Set::<
            (u32, u32),
        >::empty());
        assert(step_join(less_seen(vars), borrow_seen(vars)) =~= Set::<u32>::empty());
        assert(step_join(less_seen(vars), owned_seen(vars)) =~= Set::<u32>::empty());
        assert(between_rounds(inp, vars));
    }
    loop
        invariant_except_break
            closed(inp, least_model(inp)),
            least_model(inp).less.finite(),
            least_model(inp).borrow.finite(),
            least_model(inp).owned.finite(),
            inp.guarded.finite(),
            between_rounds(inp, vars),
        ensures
            units_recent(vars.borrowed()) == Set::<u32>::empty(),
            units_to_add(vars.borrowed()) == Set::<u32>::empty(),
            units_recent(vars.owned_keys()) == Set::<u32>::empty(),
            units_to_add(vars.owned_keys()) == Set::<u32>::empty(),
            units_stable(vars.borrowed()) == least_model(inp).borrow,
            units_stable(vars.owned_keys()) == least_model(inp).owned,
        decreases still_hidden(inp, vars),
    {
        let ghost before = vars;
        let any = changed(&mut vars);
        let ghost turned = vars;
        if !any {
            proof {
                lemma_last_round(inp, before, turned);
            }
            break;
        }
        // perm_less(Pa, Pb) :- perm_condition(Pc, Pa, Pb), borrow(Pc).
        activate_edges(&mut vars);
        let ghost one = vars;
        // borrow(Pb) :- perm_less(Pa, Pb), borrow(Pa).
        follow_from_borrow(&mut vars);
        let ghost two = vars;
        // owned(Pb) :- perm_less(Pa, Pb), owned(Pa).
        follow_from_owned(&mut vars);
        proof {
            lemma_round(inp, before, turned, one, two, vars, any);
        }
    }
    let done = complete(vars);
    let borrow_rows = unit_elements(&done.0);
    let owned_rows = unit_elements(&done.1);
    (borrow_rows, owned_rows)
}

/// The key under which `perms` holds `data`.
pub open spec fn perm_key(perms: Seq<PermData>, data: PermData) -> u32 {
    perms.index_of(data) as u32
}

/// The edge of an unconditional fact.
pub open spec fn edge_of(fact: (Perm, Perm, Node)) -> (u32, u32) {
    (fact.0.index, fact.1.index)
}

/// The guarded edge of a conditional fact `(guard, from, to, cause)`.
pub open spec fn guarded_edge_of(fact: (Perm, Perm, Perm, Node)) -> (u32, (u32, u32)) {
    (fact.0.index, (fact.1.index, fact.2.index))
}

/// The starting facts: the edges as given, the known permissions `Borrow`
/// and `Own` as at least borrowed, and `Own` as owned.
pub open spec fn kind_input(
    perms: Seq<PermData>,
    base: Seq<(Perm, Perm, Node)>,
    guarded: Seq<(Perm, Perm, Perm, Node)>,
) -> KindInput {
    let borrow = perm_key(perms, PermData::Known(PermKind::Borrow));
    let own = perm_key(perms, PermData::Known(PermKind::Own));
    rows_input(
        base.map_values(|f: (Perm, Perm, Node)| edge_of(f)),
        guarded.map_values(|f: (Perm, Perm, Perm, Node)| guarded_edge_of(f)),
        seq![borrow, own],
        seq![own],
    )
}

/// Every permission that a fact names is a key below `n`.
pub open spec fn facts_in_range(
    n: nat,
    base: Seq<(Perm, Perm, Node)>,
    guarded: Seq<(Perm, Perm, Perm, Node)>,
) -> bool {
    &&& forall|i: int|
        0 <= i < base.len() ==> (#[trigger] base[i]).0.index < n && base[i].1.index < n
    &&& forall|i: int|
        0 <= i < guarded.len() ==> (#[trigger] guarded[i]).0.index < n && guarded[i].1.index < n
            && guarded[i].2.index < n
}

/// The kinds of the inferred variables, given the keys that are at least
/// borrowed and the keys that are owned. Owned wins over borrowed; a
/// variable in neither set has no entry, which means shared. Known
/// permissions and placeholders never get an entry.
pub open spec fn rows_classification(perms: Seq<PermData>, borrow: Set<u32>,
    owned: Set<u32>) -> Map<
    PermVar,
    PermKind,
> {
    Map::new(
        |v: PermVar|
            perms.contains(PermData::Inferred(v)) && (borrow.contains(
                perm_key(perms, PermData::Inferred(v)),
            ) || owned.contains(perm_key(perms, PermData::Inferred(v)))),
        |v: PermVar|
            if owned.contains(perm_key(perms, PermData::Inferred(v))) {
                PermKind::Own
            } else {
                PermKind::Borrow
            },
    )
}

/// The kinds that the facts give to the inferred variables.
pub open spec fn classification(
    perms: Seq<PermData>,
    base: Seq<(Perm, Perm, Node)>,
    guarded: Seq<(Perm, Perm, Perm, Node)>,
) -> Map<PermVar, PermKind> {
    let m = least_model(kind_input(perms, base, guarded));
    rows_classification(perms, m.borrow, m.owned)
}

/// The entries stand in the order of their variables' permission keys.
pub open spec fn listed_by_key(perms: Seq<PermData>, entries: Seq<(PermVar, PermKind)>) -> bool {
    forall|i: int, j: int|
        0 <= i < j < entries.len() ==> perm_key(perms, PermData::Inferred(#[trigger] entries[i].0))
            < perm_key(perms, PermData::Inferred(#[trigger] entries[j].0))
}

/// The values among the first `n` of `s`.
pub open spec fn prefix_set(s: Seq<u32>, n: int) -> Set<u32> {
    Set::new(|x: u32| exists|j: int| 0 <= j < n && j < s.len() && #[trigger] s[j] == x)
}

proof fn lemma_prefix_set(s: Seq<u32>, n: int)
    requires
        0 <= n <= s.len(),
    ensures
        prefix_set(s, 0) == Set::<u32>::empty(),
        n < s.len() ==> prefix_set(s, n + 1) == prefix_set(s, n).insert(s[n]),
        prefix_set(s, s.len() as int) == s.to_set(),
{
    assert(prefix_set(s, 0) =~= Set::<u32>::empty());
    if n < s.len() {
        assert forall|x: u32| prefix_set(s, n + 1).contains(x) <==> prefix_set(s, n).insert(
            s[n],
        ).contains(x) by {
            if prefix_set(s, n + 1).contains(x) {
                let j = choose|j: int| 0 <= j < n + 1 && j < s.len() && #[trigger] s[j] == x;
                if j < n {
                    assert(prefix_set(s, n).contains(x));
                }
            }
            if prefix_set(s, n).contains(x) {
                let j = choose|j: int| 0 <= j < n && j < s.len() && #[trigger] s[j] == x;
                assert(s[j] == x);
            }
            if x == s[n] {
                assert(s[n] == x);
            }
        }
        assert(prefix_set(s, n + 1) =~= prefix_set(s, n).insert(s[n]));
    }
    assert forall|x: u32| prefix_set(s, s.len() as int).contains(x) <==> s.to_set().contains(
        x,
    ) by {
        if s.to_set().contains(x) {
            let j = choose|j: int| 0 <= j < s.len() && s[j] == x;
            assert(s[j] == x);
        }
    }
    assert(prefix_set(s, s.len() as int) =~= s.to_set());
}

/// In a table without repetition a key is found again from what it stands for.
pub proof fn lemma_perm_key(perms: Seq<PermData>, p: int)
    requires
        perms.no_duplicates(),
        0 <= p < perms.len(),
        perms.len() <= u32::MAX,
    ensures
        perms.contains(perms[p]),
        perm_key(perms, perms[p]) == p,
{
    perms.index_of_first_ensures(perms[p]);
    let k = perms.index_of(perms[p]);
    assert(perms[k] == perms[p]);
}

proof fn lemma_perm_key_of(perms: Seq<PermData>, data: PermData)
    requires
        perms.contains(data),
        perms.len() <= u32::MAX,
    ensures
        0 <= perm_key(perms, data) < perms.len(),
        perms[perm_key(perms, data) as int] == data,
{
    perms.index_of_first_ensures(data);
}

/// What one more borrowed key adds to the classification.
proof fn lemma_add_borrow_row(perms: Seq<PermData>, borrow: Set<u32>, owned: Set<u32>, p: u32)
    requires
        perms.no_duplicates(),
        p < perms.len(),
        perms.len() <= u32::MAX,
    ensures
        perms[p as int] matches PermData::Inferred(v) ==> rows_classification(
            perms,
            borrow.insert(p),
            owned,
        ) == rows_classification(perms, borrow, owned).insert(
            v,
            if owned.contains(p) {
                PermKind::Own
            } else {
                PermKind::Borrow
            },
        ),
        !(perms[p as int] is Inferred) ==> rows_classification(perms, borrow.insert(p), owned)
            == rows_classification(perms, borrow, owned),
{
    lemma_perm_key(perms, p as int);
    let before = rows_classification(perms, borrow, owned);
    let after = rows_classification(perms, borrow.insert(p), owned);
    assert forall|w: PermVar| perms.contains(PermData::Inferred(w)) implies (perm_key(
        perms,
        PermData::Inferred(w),
    ) == p <==> perms[p as int] == PermData::Inferred(w)) by {
        lemma_perm_key_of(perms, PermData::Inferred(w));
    }
    match perms[p as int] {
        PermData::Inferred(v) => {
            let kind = if owned.contains(p) {
                PermKind::Own
            } else {
                PermKind::Borrow
            };
            assert(after =~= before.insert(v, kind));
        },
        _ => {
            assert(after =~= before);
        },
    }
}

/// What one more owned key adds to the classification.
proof fn lemma_add_owned_row(perms: Seq<PermData>, borrow: Set<u32>, owned: Set<u32>, p: u32)
    requires
        perms.no_duplicates(),
        p < perms.len(),
        perms.len() <= u32::MAX,
    ensures
        perms[p as int] matches PermData::Inferred(v) ==> rows_classification(
            perms,
            borrow,
            owned.insert(p),
        ) == rows_classification(perms, borrow, owned).insert(v, PermKind::Own),
        !(perms[p as int] is Inferred) ==> rows_classification(perms, borrow, owned.insert(p))
            == rows_classification(perms, borrow, owned),
{
    lemma_perm_key(perms, p as int);
    let before = rows_classification(perms, borrow, owned);
    let after = rows_classification(perms, borrow, owned.insert(p));
    assert forall|w: PermVar| perms.contains(PermData::Inferred(w)) implies (perm_key(
        perms,
        PermData::Inferred(w),
    ) == p <==> perms[p as int] == PermData::Inferred(w)) by {
        lemma_perm_key_of(perms, PermData::Inferred(w));
    }
    match perms[p as int] {
        PermData::Inferred(v) => {
            assert(after =~= before.insert(v, PermKind::Own));
        },
        _ => {
            assert(after =~= before);
        },
    }
}

/// Turns the keys that came out of the fixpoint into kinds of variables:
/// first every inferred variable among `borrow` as `Borrow`, then every
/// inferred variable among `owned` as `Own`, which replaces an earlier
/// `Borrow`. Keys of known permissions and of placeholders are passed over.
pub fn classify_rows(tables: &TyInterners, borrow: &Vec<u32>, owned: &Vec<u32>) -> (kinds: KindMap)
    requires
        tables.wf(),
        forall|i: int| 0 <= i < borrow@.len() ==> borrow@[i] < tables@.perms.len(),
        forall|i: int| 0 <= i < owned@.len() ==> owned@[i] < tables@.perms.len(),
    ensures
        kinds.wf(),
        kinds@ == rows_classification(tables@.perms, borrow@.to_set(), owned@.to_set()),
        units_ascend(borrow@) && owned@.to_set().subset_of(borrow@.to_set()) ==> listed_by_key(
            tables@.perms,
            kinds.entries(),
        ),
{
    let ghost perms = tables@.perms;
    let mut kinds = KindMap::new();
    proof {
        lemma_prefix_set(borrow@, 0);
        assert(rows_classification(perms, Set::<u32>::empty(), Set::<u32>::empty())
            =~= Map::<PermVar, PermKind>::empty());
    }
    let mut i: usize = 0;
    while i < borrow.len()
        invariant
            i <= borrow.len(),
            tables.wf(),
            perms == tables@.perms,
            forall|k: int| 0 <= k < borrow@.len() ==> borrow@[k] < perms.len(),
            kinds.wf(),
            kinds@ == rows_classification(perms, prefix_set(borrow@, i as int),
                Set::<u32>::empty()),
            units_ascend(borrow@) ==> listed_by_key(perms, kinds.entries()),
        decreases borrow.len() - i,
    {
        let p: u32 = borrow[i];
        let ghost before = kinds.entries();
        let ghost before_map = kinds@;
        proof {
            lemma_prefix_set(borrow@, i as int);
            lemma_add_borrow_row(perms, prefix_set(borrow@, i as int), Set::<u32>::empty(), p);
            lemma_perm_key(perms, p as int);
        }
        match tables.untern_perm(Perm { index: p }) {
            PermData::Inferred(v) => {
                kinds.insert(v, PermKind::Borrow);
                proof {
                    if units_ascend(borrow@) {
                        if before_map.contains_key(v) {
                            let j = choose|j: int|
                                0 <= j < i && j < borrow@.len() && #[trigger] borrow@[j] == p;
                            assert(borrow@[j] < borrow@[i as int]);
                        }
                        let after = kinds.entries();
                        assert(after == before.push((v, PermKind::Borrow)));
                        assert forall|a: int, b: int| 0 <= a < b < after.len() implies perm_key(
                            perms,
                            PermData::Inferred(#[trigger] after[a].0),
                        ) < perm_key(perms, PermData::Inferred(#[trigger] after[b].0)) by {
                            if b < before.len() {
                                assert(after[a] == before[a]);
                                assert(after[b] == before[b]);
                            } else {
                                assert(after[a] == before[a]);
                                lemma_key_position(before, a);
                                let w = before[a].0;
                                assert(before_map.contains_key(w));
                                let key = perm_key(perms, PermData::Inferred(w));
                                assert(prefix_set(borrow@, i as int).contains(key));
                                let j = choose|j: int|
                                    0 <= j < i && j < borrow@.len() && #[trigger] borrow@[j]
                                        == key;
                                assert(borrow@[j] < borrow@[i as int]);
                            }
                        }
                    }
                }
            },
            _ => {},
        }
        i = i + 1;
    }
    proof {
        lemma_prefix_set(borrow@, borrow@.len() as int);
        lemma_prefix_set(owned@, 0);
    }
    let mut i: usize = 0;
    while i < owned.len()
        invariant
            i <= owned.len(),
            tables.wf(),
            perms == tables@.perms,
            forall|k: int| 0 <= k < owned@.len() ==> owned@[k] < perms.len(),
            kinds.wf(),
            kinds@ == rows_classification(perms, borrow@.to_set(), prefix_set(owned@, i as int)),
            units_ascend(borrow@) && owned@.to_set().subset_of(borrow@.to_set()) ==> listed_by_key(
                perms,
                kinds.entries(),
            ),
        decreases owned.len() - i,
    {
        let p: u32 = owned[i];
        let ghost before = kinds.entries();
        let ghost before_map = kinds@;
        proof {
            lemma_prefix_set(owned@, i as int);
            lemma_add_owned_row(perms, borrow@.to_set(), prefix_set(owned@, i as int), p);
            lemma_perm_key(perms, p as int);
        }
        match tables.untern_perm(Perm { index: p }) {
            PermData::Inferred(v) => {
                kinds.insert(v, PermKind::Own);
                proof {
                    if units_ascend(borrow@) && owned@.to_set().subset_of(borrow@.to_set()) {
                        assert(owned@.to_set().contains(owned@[i as int]));
                        assert(borrow@.to_set().contains(p));
                        assert(before_map.contains_key(v));
                        let after = kinds.entries();
                        let at = entry_keys(before).index_of(v);
                        entry_keys(before).index_of_first_ensures(v);
                        assert(after == before.update(at, (v, PermKind::Own)));
                        assert(entry_keys(before)[at] == v);
                        assert forall|a: int, b: int| 0 <= a < b < after.len() implies perm_key(
                            perms,
                            PermData::Inferred(#[trigger] after[a].0),
                        ) < perm_key(perms, PermData::Inferred(#[trigger] after[b].0)) by {
                            assert(after[a].0 == before[a].0);
                            assert(after[b].0 == before[b].0);
                        }
                    }
                }
            },
            _ => {},
        }
        i = i + 1;
    }
    proof {
        lemma_prefix_set(owned@, owned@.len() as int);
    }
    kinds
}

/// The edges of the unconditional facts, as rows.
fn edge_rows(facts: &[(Perm, Perm, Node)]) -> (rows: Vec<(u32, u32)>)
    ensures
        rows@ == facts@.map_values(|f: (Perm, Perm, Node)| edge_of(f)),
{
    let mut rows: Vec<(u32, u32)> = Vec::new();
    let mut i: usize = 0;
    while i < facts.len()
        invariant
            i <= facts.len(),
            rows@.len() == i,
            forall|k: int| 0 <= k < i ==> rows@[k] == edge_of(facts@[k]),
        decreases facts.len() - i,
    {
        let fact = facts[i];
        rows.push((fact.0.index, fact.1.index));
        i = i + 1;
    }
    proof {
        assert(rows@ =~= facts@.map_values(|f: (Perm, Perm, Node)| edge_of(f)));
    }
    rows
}

/// The guarded edges of the conditional facts, as rows.
fn guarded_edge_rows(facts: &[(Perm, Perm, Perm, Node)]) -> (rows: Vec<(u32, (u32, u32))>)
    ensures
        rows@ == facts@.map_values(|f: (Perm, Perm, Perm, Node)| guarded_edge_of(f)),
{
    let mut rows: Vec<(u32, (u32, u32))> = Vec::new();
    let mut i: usize = 0;
    while i < facts.len()
        invariant
            i <= facts.len(),
            rows@.len() == i,
            forall|k: int| 0 <= k < i ==> rows@[k] == guarded_edge_of(facts@[k]),
        decreases facts.len() - i,
    {
        let fact = facts[i];
        rows.push((fact.0.index, (fact.1.index, fact.2.index)));
        i = i + 1;
    }
    proof {
        assert(rows@ =~= facts@.map_values(|f: (Perm, Perm, Perm, Node)| guarded_edge_of(f)));
    }
    rows
}

/// Every key that the rules can reach is a key of the table.
proof fn lemma_reach_in_range(
    perms: Seq<PermData>,
    base: Seq<(Perm, Perm, Node)>,
    guarded: Seq<(Perm, Perm, Perm, Node)>,
)
    requires
        perms.contains(PermData::Known(PermKind::Borrow)),
        perms.contains(PermData::Known(PermKind::Own)),
        perms.len() <= u32::MAX,
        facts_in_range(perms.len(), base, guarded),
    ensures
        forall|p: u32| #[trigger]
            least_model(kind_input(perms, base, guarded)).borrow.contains(p) ==> p < perms.len(),
        forall|p: u32| #[trigger]
            least_model(kind_input(perms, base, guarded)).owned.contains(p) ==> p < perms.len(),
        least_model(kind_input(perms, base, guarded)).owned.subset_of(
            least_model(kind_input(perms, base, guarded)).borrow,
        ),
{
    let inp = kind_input(perms, base, guarded);
    let n = perms.len();
    let base_rows = base.map_values(|f: (Perm, Perm, Node)| edge_of(f));
    let guarded_rows = guarded.map_values(|f: (Perm, Perm, Perm, Node)| guarded_edge_of(f));
    lemma_perm_key_of(perms, PermData::Known(PermKind::Borrow));
    lemma_perm_key_of(perms, PermData::Known(PermKind::Own));
    let f = KindFacts {
        less: Set::new(|t: (u32, u32)| t.0 < n && t.1 < n),
        borrow: Set::new(|p: u32| p < n),
        owned: Set::new(|p: u32| p < n),
    };
    assert forall|t: (u32, u32)| inp.base.contains(t) implies f.less.contains(t) by {
        let k = choose|k: int| 0 <= k < base_rows.len() && base_rows[k] == t;
        assert(base_rows[k] == edge_of(base[k]));
    }
    assert forall|c: u32, a: u32, b: u32|
        #![trigger inp.guarded.contains((c, (a, b)))]
        inp.guarded.contains((c, (a, b))) implies f.less.contains((a, b)) by {
        let k = choose|k: int| 0 <= k < guarded_rows.len() && guarded_rows[k] == (c, (a, b));
        assert(guarded_rows[k] == guarded_edge_of(guarded[k]));
    }
    assert(closed(inp, f));
    lemma_least_is_least(inp, f);
    assert(inp.owned_seed.subset_of(inp.borrow_seed)) by {
        assert forall|p: u32| inp.owned_seed.contains(p) implies inp.borrow_seed.contains(p) by {
            let own = perm_key(perms, PermData::Known(PermKind::Own));
            let borrow = perm_key(perms, PermData::Known(PermKind::Borrow));
            assert(seq![own][0] == own);
            assert(seq![borrow, own][1] == own);
        }
    }
    lemma_owned_within_borrow(inp);
}

/// Classifies every inferred permission variable from the edges that type
/// checking collected.
///
/// `perm_less_base` holds the edges `(Pa, Pb, cause)` that always count,
/// `perm_less_if_base` the edges `(Pc, Pa, Pb, cause)` that count once `Pc`
/// is at least borrowed. The known permissions `Borrow` and `Own` are
/// interned first; they are the seeds. The result lists the variables in
/// the order of their permission keys.
pub fn inference(
    tables: &mut TyInterners,
    perm_less_base: &[(Perm, Perm, Node)],
    perm_less_if_base: &[(Perm, Perm, Perm, Node)],
) -> (kinds: KindMap)
    requires
        old(tables).wf(),
        old(tables)@.perms.len() + 2 <= u32::MAX,
        facts_in_range(old(tables)@.perms.len(), perm_less_base@, perm_less_if_base@),
    ensures
        final(tables).wf(),
        final(tables)@.perms == interned(
            interned(old(tables)@.perms, PermData::Known(PermKind::Borrow)),
            PermData::Known(PermKind::Own),
        ),
        final(tables)@.bases == old(tables)@.bases,
        final(tables)@.generics == old(tables)@.generics,
        kinds.wf(),
        kinds@ == classification(final(tables)@.perms, perm_less_base@, perm_less_if_base@),
        listed_by_key(final(tables)@.perms, kinds.entries()),
{
    let ghost perms0 = tables@.perms;
    proof {
        lemma_interned_wf(perms0, PermData::Known(PermKind::Borrow));
    }
    let perm_borrow = tables.intern_perm(PermData::Known(PermKind::Borrow));
    let ghost perms1 = tables@.perms;
    proof {
        lemma_interned_wf(perms1, PermData::Known(PermKind::Own));
    }
    let perm_own = tables.intern_perm(PermData::Known(PermKind::Own));
    let ghost perms = tables@.perms;
    proof {
        assert(perms[perm_borrow.index as int] == PermData::Known(PermKind::Borrow)) by {
            assert(perms1.is_prefix_of(perms));
            assert(perms1 =~= perms.subrange(0, perms1.len() as int));
            assert(perms.subrange(0, perms1.len() as int)[perm_borrow.index as int]
                == perms[perm_borrow.index as int]);
        }
        lemma_perm_key(perms, perm_borrow.index as int);
        lemma_perm_key(perms, perm_own.index as int);
    }

    let base_rows = edge_rows(perm_less_base);
    let guarded_rows = guarded_edge_rows(perm_less_if_base);
    let mut borrow_seed: Vec<u32> = Vec::new();
    borrow_seed.push(perm_borrow.index);
    borrow_seed.push(perm_own.index);
    let mut owned_seed: Vec<u32> = Vec::new();
    owned_seed.push(perm_own.index);
    proof {
        assert(borrow_seed@ =~= seq![perm_borrow.index, perm_own.index]);
        assert(owned_seed@ =~= seq![perm_own.index]);
        assert(rows_input(base_rows@, guarded_rows@, borrow_seed@, owned_seed@) == kind_input(
            perms,
            perm_less_base@,
            perm_less_if_base@,
        ));
        lemma_reach_in_range(perms, perm_less_base@, perm_less_if_base@);
    }
    let reached = saturate(base_rows, guarded_rows, borrow_seed, owned_seed);
    proof {
        let m = least_model(kind_input(perms, perm_less_base@, perm_less_if_base@));
        assert forall|i: int| 0 <= i < reached.0@.len() implies reached.0@[i] < perms.len() by {
            assert(reached.0@.to_set().contains(reached.0@[i]));
            assert(m.borrow.contains(reached.0@[i]));
        }
        assert forall|i: int| 0 <= i < reached.1@.len() implies reached.1@[i] < perms.len() by {
            assert(reached.1@.to_set().contains(reached.1@[i]));
            assert(m.owned.contains(reached.1@[i]));
        }
    }
    classify_rows(tables, &reached.0, &reached.1)
}

/// Kinds follow the edges: along an edge `Pa <= Pb`, when `Pa` is owned so
/// is `Pb`, and when `Pa` is at least borrowed so is `Pb`. The same holds
/// along a guarded edge whose guard is at least borrowed.
pub proof fn lemma_kinds_follow_edges(
    perms: Seq<PermData>,
    base: Seq<(Perm, Perm, Node)>,
    guarded: Seq<(Perm, Perm, Perm, Node)>,
)
    ensures
        forall|i: int|
            #![trigger base[i]]
            0 <= i < base.len() ==> {
                let m = least_model(kind_input(perms, base, guarded));
                &&& m.owned.contains(base[i].0.index) ==> m.owned.contains(base[i].1.index)
                &&& m.borrow.contains(base[i].0.index) ==> m.borrow.contains(base[i].1.index)
            },
        forall|i: int|
            #![trigger guarded[i]]
            0 <= i < guarded.len() ==> {
                let m = least_model(kind_input(perms, base, guarded));
                m.borrow.contains(guarded[i].0.index) ==> {
                    &&& m.owned.contains(guarded[i].1.index) ==> m.owned.contains(
                        guarded[i].2.index,
                    )
                    &&& m.borrow.contains(guarded[i].1.index) ==> m.borrow.contains(
                        guarded[i].2.index,
                    )
                }
            },
{
    let inp = kind_input(perms, base, guarded);
    let m = least_model(inp);
    lemma_least_is_closed(inp);
    let base_rows = base.map_values(|f: (Perm, Perm, Node)| edge_of(f));
    let guarded_rows = guarded.map_values(|f: (Perm, Perm, Perm, Node)| guarded_edge_of(f));
    assert forall|i: int| #![trigger base[i]] 0 <= i < base.len() implies m.less.contains(
        (base[i].0.index, base[i].1.index),
    ) by {
        assert(base_rows[i] == edge_of(base[i]));
        assert(base_rows.contains(base_rows[i]));
        assert(inp.base.contains((base[i].0.index, base[i].1.index)));
    }
    assert forall|i: int|
        #![trigger guarded[i]]
        0 <= i < guarded.len() && m.borrow.contains(guarded[i].0.index) implies m.less.contains(
        (guarded[i].1.index, guarded[i].2.index),
    ) by {
        assert(guarded_rows[i] == guarded_edge_of(guarded[i]));
        assert(guarded_rows.contains(guarded_rows[i]));
        assert(inp.guarded.contains(
            (guarded[i].0.index, (guarded[i].1.index, guarded[i].2.index)),
        ));
    }
}

/// The same law on the result itself: along an edge between two inferred
/// variables, an `Own` at the source means `Own` at the target, and an
/// entry at the source means an entry at the target.
pub proof fn lemma_classification_follows_edges(
    perms: Seq<PermData>,
    base: Seq<(Perm, Perm, Node)>,
    guarded: Seq<(Perm, Perm, Perm, Node)>,
    i: int,
    from: PermVar,
    to: PermVar,
)
    requires
        perms.no_duplicates(),
        perms.len() <= u32::MAX,
        perms.contains(PermData::Known(PermKind::Borrow)),
        perms.contains(PermData::Known(PermKind::Own)),
        0 <= i < base.len(),
        base[i].0.index < perms.len(),
        base[i].1.index < perms.len(),
        perms[base[i].0.index as int] == PermData::Inferred(from),
        perms[base[i].1.index as int] == PermData::Inferred(to),
    ensures
        classification(perms, base, guarded).contains_key(from) ==> classification(
            perms,
            base,
            guarded,
        ).contains_key(to),
        classification(perms, base, guarded).contains_key(from) && classification(
            perms,
            base,
            guarded,
        )[from] == PermKind::Own ==> classification(perms, base, guarded)[to] == PermKind::Own,
{
    lemma_kinds_follow_edges(perms, base, guarded);
    lemma_perm_key(perms, base[i].0.index as int);
    lemma_perm_key(perms, base[i].1.index as int);
    let inp = kind_input(perms, base, guarded);
    assert(inp.owned_seed.subset_of(inp.borrow_seed)) by {
        assert forall|p: u32| inp.owned_seed.contains(p) implies inp.borrow_seed.contains(p) by {
            let own = perm_key(perms, PermData::Known(PermKind::Own));
            let borrow = perm_key(perms, PermData::Known(PermKind::Borrow));
            assert(seq![own][0] == own);
            assert(seq![borrow, own][1] == own);
        }
    }
    lemma_owned_within_borrow(inp);
}

/// The law in full, for an edge `Pa <= Pb` whose target is an inferred
/// variable: where `Pa` is the known permission `Own`, or an inferred
/// variable that is classified `Own`, the target is classified `Own`; and
/// where `Pa` is the known permission `Borrow` or `Own`, or an inferred
/// variable that is classified at all, the target is classified.
pub proof fn lemma_edge_hands_kind_on(
    perms: Seq<PermData>,
    base: Seq<(Perm, Perm, Node)>,
    guarded: Seq<(Perm, Perm, Perm, Node)>,
    i: int,
    to: PermVar,
)
    requires
        perms.no_duplicates(),
        perms.len() <= u32::MAX,
        perms.contains(PermData::Known(PermKind::Borrow)),
        perms.contains(PermData::Known(PermKind::Own)),
        0 <= i < base.len(),
        base[i].0.index < perms.len(),
        base[i].1.index < perms.len(),
        perms[base[i].1.index as int] == PermData::Inferred(to),
    ensures
        ({
            let kinds = classification(perms, base, guarded);
            let from = perms[base[i].0.index as int];
            &&& (from == PermData::Known(PermKind::Own) || (from matches PermData::Inferred(va)
                && kinds.contains_key(va) && kinds[va] == PermKind::Own)) ==> kinds.contains_key(to)
                && kinds[to] == PermKind::Own
            &&& (from == PermData::Known(PermKind::Own) || from == PermData::Known(PermKind::Borrow)
                || (from matches PermData::Inferred(va) && kinds.contains_key(va)))
                ==> kinds.contains_key(to)
        }),
{
    lemma_kinds_follow_edges(perms, base, guarded);
    lemma_perm_key(perms, base[i].0.index as int);
    lemma_perm_key(perms, base[i].1.index as int);
    let inp = kind_input(perms, base, guarded);
    let own = perm_key(perms, PermData::Known(PermKind::Own));
    let borrow = perm_key(perms, PermData::Known(PermKind::Borrow));
    lemma_perm_key_of(perms, PermData::Known(PermKind::Own));
    lemma_perm_key_of(perms, PermData::Known(PermKind::Borrow));
    assert(seq![own][0] == own);
    assert(seq![borrow, own][0] == borrow);
    assert(seq![borrow, own][1] == own);
    assert(inp.owned_seed.contains(own));
    assert(inp.borrow_seed.contains(own));
    assert(inp.borrow_seed.contains(borrow));
    assert(inp.owned_seed.subset_of(inp.borrow_seed)) by {
        assert forall|p: u32| inp.owned_seed.contains(p) implies inp.borrow_seed.contains(p) by {
            assert(p == own);
        }
    }
    lemma_least_is_closed(inp);
    lemma_owned_within_borrow(inp);
}

/// Running the inference again on the tables that a first run left behind
/// changes neither the tables nor the result: the known permissions are
/// interned already, and the kinds depend on nothing but the tables and
/// the facts.
pub proof fn lemma_inference_repeats(
    perms: Seq<PermData>,
    base: Seq<(Perm, Perm, Node)>,
    guarded: Seq<(Perm, Perm, Perm, Node)>,
    first: Map<PermVar, PermKind>,
    second: Map<PermVar, PermKind>,
)
    requires
        perms.no_duplicates(),
        first == classification(
            interned(
                interned(perms, PermData::Known(PermKind::Borrow)),
                PermData::Known(PermKind::Own),
            ),
            base,
            guarded,
        ),
        second == classification(
            interned(
                interned(
                    interned(
                        interned(perms, PermData::Known(PermKind::Borrow)),
                        PermData::Known(PermKind::Own),
                    ),
                    PermData::Known(PermKind::Borrow),
                ),
                PermData::Known(PermKind::Own),
            ),
            base,
            guarded,
        ),
    ensures
        interned(
            interned(
                interned(
                    interned(perms, PermData::Known(PermKind::Borrow)),
                    PermData::Known(PermKind::Own),
                ),
                PermData::Known(PermKind::Borrow),
            ),
            PermData::Known(PermKind::Own),
        ) == interned(
            interned(perms, PermData::Known(PermKind::Borrow)),
            PermData::Known(PermKind::Own),
        ),
        first == second,
{
    let one = interned(perms, PermData::Known(PermKind::Borrow));
    lemma_interned_wf(perms, PermData::Known(PermKind::Borrow));
    let two = interned(one, PermData::Known(PermKind::Own));
    lemma_interned_wf(one, PermData::Known(PermKind::Own));
    assert(two.contains(PermData::Known(PermKind::Borrow))) by {
        let k = one.index_of(PermData::Known(PermKind::Borrow));
        assert(two.subrange(0, one.len() as int)[k] == two[k]);
    }
    assert(interned(two, PermData::Known(PermKind::Borrow)) == two);
}


} // verus!
