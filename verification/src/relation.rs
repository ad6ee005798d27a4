//! The relations and variables of `datafrog`, as far as kind inference
//! uses them.
//!
//! Everything in this file is a statement about `datafrog` that the
//! verifier takes on trust; the fixpoint built on top of it is proved
//! against these statements.
//!
//! A relation stores its tuples sorted and without repetition. A variable
//! is a set of tuples that grows in rounds, and keeps its tuples in three
//! places: `to_add` holds what was handed to it since the last round,
//! `recent` what the last round made visible, `stable` everything that was
//! visible before. An iteration holds variables and moves them on by one
//! round at a time. The variables of kind inference come with their
//! iteration in one value, which only this file can build and take apart:
//! that the iteration holds exactly these variables is what the
//! statement on a round rests on.

use datafrog::{Iteration, Relation, Variable};
use vstd::prelude::*;

verus! {

#[verifier::external_type_specification]
#[verifier::external_body]
#[verifier::reject_recursive_types(Tuple)]
pub struct ExRelation<Tuple: Ord>(Relation<Tuple>);

#[verifier::external_type_specification]
#[verifier::external_body]
#[verifier::reject_recursive_types(Tuple)]
pub struct ExVariable<Tuple: Ord>(Variable<Tuple>);

#[verifier::external_type_specification]
#[verifier::external_body]
pub struct ExIteration(Iteration);

/// The rows of a relation of pairs, in the order in which it stores them.
pub uninterp spec fn pair_rows(r: Relation<(u32, u32)>) -> Seq<(u32, u32)>;

/// The rows of a relation of guarded pairs `(guard, (from, to))`, in the
/// order in which it stores them.
pub uninterp spec fn guarded_rows(r: Relation<(u32, (u32, u32))>) -> Seq<(u32, (u32, u32))>;

/// The rows of a relation of single values, each stored as `(value, ())`,
/// in the order in which it stores them.
pub uninterp spec fn unit_rows(r: Relation<(u32, ())>) -> Seq<u32>;

/// The tuples of a variable of pairs that were visible before the last
/// round.
pub uninterp spec fn pairs_stable(v: Variable<(u32, u32)>) -> Set<(u32, u32)>;

/// The tuples of a variable of pairs that the last round made visible.
pub uninterp spec fn pairs_recent(v: Variable<(u32, u32)>) -> Set<(u32, u32)>;

/// The tuples handed to a variable of pairs since the last round.
pub uninterp spec fn pairs_to_add(v: Variable<(u32, u32)>) -> Set<(u32, u32)>;

/// The tuples of a variable of guarded pairs that were visible before the
/// last round.
pub uninterp spec fn guarded_stable(v: Variable<(u32, (u32, u32))>) -> Set<(u32, (u32, u32))>;

/// The tuples of a variable of guarded pairs that the last round made
/// visible.
pub uninterp spec fn guarded_recent(v: Variable<(u32, (u32, u32))>) -> Set<(u32, (u32, u32))>;

/// The tuples handed to a variable of guarded pairs since the last round.
pub uninterp spec fn guarded_to_add(v: Variable<(u32, (u32, u32))>) -> Set<(u32, (u32, u32))>;

/// The values of a variable of single values, each stored as
/// `(value, ())`, that were visible before the last round.
pub uninterp spec fn units_stable(v: Variable<(u32, ())>) -> Set<u32>;

/// The values of a variable of single values that the last round made
/// visible.
pub uninterp spec fn units_recent(v: Variable<(u32, ())>) -> Set<u32>;

/// The values handed to a variable of single values since the last round.
pub uninterp spec fn units_to_add(v: Variable<(u32, ())>) -> Set<u32>;

/// Lexicographic order on pairs: the order that tuples of integers have.
pub open spec fn pair_before(x: (u32, u32), y: (u32, u32)) -> bool {
    x.0 < y.0 || (x.0 == y.0 && x.1 < y.1)
}

/// Lexicographic order on guarded pairs.
pub open spec fn guarded_before(x: (u32, (u32, u32)), y: (u32, (u32, u32))) -> bool {
    x.0 < y.0 || (x.0 == y.0 && pair_before(x.1, y.1))
}

/// Each pair comes strictly before the pairs behind it.
pub open spec fn pairs_ascend(s: Seq<(u32, u32)>) -> bool {
    forall|i: int, j: int| 0 <= i < j < s.len() ==> pair_before(#[trigger] s[i], #[trigger] s[j])
}

/// Each guarded pair comes strictly before the ones behind it.
pub open spec fn guarded_ascend(s: Seq<(u32, (u32, u32))>) -> bool {
    forall|i: int, j: int|
        0 <= i < j < s.len() ==> guarded_before(#[trigger] s[i], #[trigger] s[j])
}

/// Each value is strictly smaller than the values behind it.
pub open spec fn units_ascend(s: Seq<u32>) -> bool {
    forall|i: int, j: int| 0 <= i < j < s.len() ==> #[trigger] s[i] < #[trigger] s[j]
}

/// The pairs that a guard in `set` lets through.
pub open spec fn guarded_join(guarded: Set<(u32, (u32, u32))>, set: Set<u32>) -> Set<(u32, u32)> {
    Set::new(|t: (u32, u32)| exists|c: u32| #[trigger] guarded.contains((c, t)) && set.contains(c))
}

/// The values that a pair of `less` reaches from a value in `set`.
pub open spec fn step_join(less: Set<(u32, u32)>, set: Set<u32>) -> Set<u32> {
    Set::new(|b: u32| exists|a: u32| #[trigger] less.contains((a, b)) && set.contains(a))
}

/// What a join hands to its output in one round: every match in which at
/// least one side was made visible by the last round. The matches of
/// stable with stable were handed over in an earlier round.
pub open spec fn fresh_guarded_join(
    guarded_stable: Set<(u32, (u32, u32))>,
    guarded_recent: Set<(u32, (u32, u32))>,
    set_stable: Set<u32>,
    set_recent: Set<u32>,
) -> Set<(u32, u32)> {
    guarded_join(guarded_recent, set_stable).union(guarded_join(guarded_stable, set_recent)).union(
        guarded_join(guarded_recent, set_recent),
    )
}

/// What a join along the pairs hands to its output in one round.
pub open spec fn fresh_step_join(
    less_stable: Set<(u32, u32)>,
    less_recent: Set<(u32, u32)>,
    set_stable: Set<u32>,
    set_recent: Set<u32>,
) -> Set<u32> {
    step_join(less_recent, set_stable).union(step_join(less_stable, set_recent)).union(
        step_join(less_recent, set_recent),
    )
}

/// `Relation::from_vec` on pairs: it sorts the tuples and drops repeated
/// ones, so the relation holds exactly the tuples of `rows`, in ascending
/// order.
#[verifier::external_body]
pub(crate) fn pairs_from_vec(rows: Vec<(u32, u32)>) -> (r: Relation<(u32, u32)>)
    ensures
        pair_rows(r).to_set() == rows@.to_set(),
        pairs_ascend(pair_rows(r)),
{
    Relation::from_vec(rows)
}

/// `Relation::from_vec` on guarded pairs: the relation holds exactly the
/// tuples of `rows`, in ascending order.
#[verifier::external_body]
pub(crate) fn guarded_from_vec(rows: Vec<(u32, (u32, u32))>) -> (r: Relation<(u32, (u32, u32))>)
    ensures
        guarded_rows(r).to_set() == rows@.to_set(),
        guarded_ascend(guarded_rows(r)),
{
    Relation::from_vec(rows)
}

/// `Relation::from_vec` on single values, each paired with `()`: the
/// relation holds exactly the values of `rows`, in ascending order.
#[verifier::external_body]
pub(crate) fn units_from_vec(rows: Vec<u32>) -> (r: Relation<(u32, ())>)
    ensures
        unit_rows(r).to_set() == rows@.to_set(),
        units_ascend(unit_rows(r)),
{
    Relation::from_vec(rows.into_iter().map(|value| (value, ())).collect())
}

/// The field `elements` of a relation of single values, each row
/// `(value, ())` handed out as `value`.
#[verifier::external_body]
pub(crate) fn unit_elements(r: &Relation<(u32, ())>) -> (rows: Vec<u32>)
    ensures
        rows@ == unit_rows(*r),
{
    r.elements.iter().map(|row| row.0).collect()
}

/// The four variables of kind inference, and the iteration that holds
/// them and nothing else.
pub(crate) struct KindVariables {
    iteration: Iteration,
    /// The edges that count.
    perm_less: Variable<(u32, u32)>,
    /// The guarded edges.
    perm_condition: Variable<(u32, (u32, u32))>,
    /// The keys that are at least borrowed.
    borrow: Variable<(u32, ())>,
    /// The keys that are owned.
    owned: Variable<(u32, ())>,
}

impl KindVariables {
    /// The variable of the edges that count.
    pub(crate) closed spec fn edges(self) -> Variable<(u32, u32)> {
        self.perm_less
    }

    /// The variable of the guarded edges.
    pub(crate) closed spec fn guarded_edges(self) -> Variable<(u32, (u32, u32))> {
        self.perm_condition
    }

    /// The variable of the keys that are at least borrowed.
    pub(crate) closed spec fn borrowed(self) -> Variable<(u32, ())> {
        self.borrow
    }

    /// The variable of the keys that are owned.
    pub(crate) closed spec fn owned_keys(self) -> Variable<(u32, ())> {
        self.owned
    }
}

/// `Iteration::new` and four times `Iteration::variable`: an iteration
/// with four new variables, each of which holds nothing in any of its
/// three places.
#[verifier::external_body]
pub(crate) fn kind_variables() -> (made: KindVariables)
    ensures
        pairs_stable(made.edges()) == Set::<(u32, u32)>::empty(),
        pairs_recent(made.edges()) == Set::<(u32, u32)>::empty(),
        pairs_to_add(made.edges()) == Set::<(u32, u32)>::empty(),
        guarded_stable(made.guarded_edges()) == Set::<(u32, (u32, u32))>::empty(),
        guarded_recent(made.guarded_edges()) == Set::<(u32, (u32, u32))>::empty(),
        guarded_to_add(made.guarded_edges()) == Set::<(u32, (u32, u32))>::empty(),
        units_stable(made.borrowed()) == Set::<u32>::empty(),
        units_recent(made.borrowed()) == Set::<u32>::empty(),
        units_to_add(made.borrowed()) == Set::<u32>::empty(),
        units_stable(made.owned_keys()) == Set::<u32>::empty(),
        units_recent(made.owned_keys()) == Set::<u32>::empty(),
        units_to_add(made.owned_keys()) == Set::<u32>::empty(),
{
    let mut iteration = Iteration::new();
    let perm_less = iteration.variable("perm_less");
    let perm_condition = iteration.variable("perm_condition");
    let borrow = iteration.variable("borrow");
    let owned = iteration.variable("owned");
    KindVariables { iteration, perm_less, perm_condition, borrow, owned }
}

/// Four times `Variable::insert`: each relation is handed to its variable
/// and waits in `to_add` for the next round. Nothing that is visible
/// changes.
#[verifier::external_body]
pub(crate) fn insert_seeds(
    vars: &mut KindVariables,
    less: Relation<(u32, u32)>,
    condition: Relation<(u32, (u32, u32))>,
    borrow: Relation<(u32, ())>,
    owned: Relation<(u32, ())>,
)
    ensures
        pairs_to_add(final(vars).edges()) == pairs_to_add(old(vars).edges()).union(
            pair_rows(less).to_set(),
        ),
        guarded_to_add(final(vars).guarded_edges()) == guarded_to_add(
            old(vars).guarded_edges(),
        ).union(guarded_rows(condition).to_set()),
        units_to_add(final(vars).borrowed()) == units_to_add(old(vars).borrowed()).union(
            unit_rows(borrow).to_set(),
        ),
        units_to_add(final(vars).owned_keys()) == units_to_add(old(vars).owned_keys()).union(
            unit_rows(owned).to_set(),
        ),
        pairs_stable(final(vars).edges()) == pairs_stable(old(vars).edges()),
        pairs_recent(final(vars).edges()) == pairs_recent(old(vars).edges()),
        guarded_stable(final(vars).guarded_edges()) == guarded_stable(old(vars).guarded_edges()),
        guarded_recent(final(vars).guarded_edges()) == guarded_recent(old(vars).guarded_edges()),
        units_stable(final(vars).borrowed()) == units_stable(old(vars).borrowed()),
        units_recent(final(vars).borrowed()) == units_recent(old(vars).borrowed()),
        units_stable(final(vars).owned_keys()) == units_stable(old(vars).owned_keys()),
        units_recent(final(vars).owned_keys()) == units_recent(old(vars).owned_keys()),
{
    vars.perm_less.insert(less);
    vars.perm_condition.insert(condition);
    vars.borrow.insert(borrow);
    vars.owned.insert(owned);
}

/// `Iteration::changed`: one round for every variable. What was recent
/// becomes stable; what waited in `to_add` and is not stable by now
/// becomes recent; `to_add` is empty afterwards. The result says whether
/// any variable has something recent.
#[verifier::external_body]
pub(crate) fn changed(vars: &mut KindVariables) -> (any: bool)
    ensures
        pairs_stable(final(vars).edges()) == pairs_stable(old(vars).edges()).union(
            pairs_recent(old(vars).edges()),
        ),
        pairs_recent(final(vars).edges()) == pairs_to_add(old(vars).edges()).difference(
            pairs_stable(final(vars).edges()),
        ),
        pairs_to_add(final(vars).edges()) == Set::<(u32, u32)>::empty(),
        guarded_stable(final(vars).guarded_edges()) == guarded_stable(
            old(vars).guarded_edges(),
        ).union(guarded_recent(old(vars).guarded_edges())),
        guarded_recent(final(vars).guarded_edges()) == guarded_to_add(
            old(vars).guarded_edges(),
        ).difference(guarded_stable(final(vars).guarded_edges())),
        guarded_to_add(final(vars).guarded_edges()) == Set::<(u32, (u32, u32))>::empty(),
        units_stable(final(vars).borrowed()) == units_stable(old(vars).borrowed()).union(
            units_recent(old(vars).borrowed()),
        ),
        units_recent(final(vars).borrowed()) == units_to_add(old(vars).borrowed()).difference(
            units_stable(final(vars).borrowed()),
        ),
        units_to_add(final(vars).borrowed()) == Set::<u32>::empty(),
        units_stable(final(vars).owned_keys()) == units_stable(old(vars).owned_keys()).union(
            units_recent(old(vars).owned_keys()),
        ),
        units_recent(final(vars).owned_keys()) == units_to_add(old(vars).owned_keys()).difference(
            units_stable(final(vars).owned_keys()),
        ),
        units_to_add(final(vars).owned_keys()) == Set::<u32>::empty(),
        any == !(pairs_recent(final(vars).edges()) == Set::<(u32, u32)>::empty()
            && guarded_recent(final(vars).guarded_edges()) == Set::<(u32, (u32, u32))>::empty()
            && units_recent(final(vars).borrowed()) == Set::<u32>::empty() && units_recent(
            final(vars).owned_keys(),
        ) == Set::<u32>::empty()),
{
    vars.iteration.changed()
}

/// `Variable::from_join` of the guarded edges with the borrowed keys,
/// joined on the guard, into the edges: the pair of every fresh match
/// waits in `to_add` of the edges. Nothing else changes.
#[verifier::external_body]
pub(crate) fn activate_edges(vars: &mut KindVariables)
    ensures
        pairs_to_add(final(vars).edges()) == pairs_to_add(old(vars).edges()).union(
            fresh_guarded_join(
                guarded_stable(old(vars).guarded_edges()),
                guarded_recent(old(vars).guarded_edges()),
                units_stable(old(vars).borrowed()),
                units_recent(old(vars).borrowed()),
            ),
        ),
        pairs_stable(final(vars).edges()) == pairs_stable(old(vars).edges()),
        pairs_recent(final(vars).edges()) == pairs_recent(old(vars).edges()),
        final(vars).guarded_edges() == old(vars).guarded_edges(),
        final(vars).borrowed() == old(vars).borrowed(),
        final(vars).owned_keys() == old(vars).owned_keys(),
{
    vars.perm_less.from_join(&vars.perm_condition, &vars.borrow, |_guard, pair, _unit| *pair);
}

/// `Variable::from_join` of the edges with the borrowed keys, joined on
/// the source of the edge, into the borrowed keys: the target of every
/// fresh match waits in `to_add` of the borrowed keys. Nothing else
/// changes.
#[verifier::external_body]
pub(crate) fn follow_from_borrow(vars: &mut KindVariables)
    ensures
        units_to_add(final(vars).borrowed()) == units_to_add(old(vars).borrowed()).union(
            fresh_step_join(
                pairs_stable(old(vars).edges()),
                pairs_recent(old(vars).edges()),
                units_stable(old(vars).borrowed()),
                units_recent(old(vars).borrowed()),
            ),
        ),
        units_stable(final(vars).borrowed()) == units_stable(old(vars).borrowed()),
        units_recent(final(vars).borrowed()) == units_recent(old(vars).borrowed()),
        final(vars).edges() == old(vars).edges(),
        final(vars).guarded_edges() == old(vars).guarded_edges(),
        final(vars).owned_keys() == old(vars).owned_keys(),
{
    vars.borrow.from_join(&vars.perm_less, &vars.borrow, |_from, to, _unit| (*to, ()));
}

/// `Variable::from_join` of the edges with the owned keys, joined on the
/// source of the edge, into the owned keys: the target of every fresh
/// match waits in `to_add` of the owned keys. Nothing else changes.
#[verifier::external_body]
pub(crate) fn follow_from_owned(vars: &mut KindVariables)
    ensures
        units_to_add(final(vars).owned_keys()) == units_to_add(old(vars).owned_keys()).union(
            fresh_step_join(
                pairs_stable(old(vars).edges()),
                pairs_recent(old(vars).edges()),
                units_stable(old(vars).owned_keys()),
                units_recent(old(vars).owned_keys()),
            ),
        ),
        units_stable(final(vars).owned_keys()) == units_stable(old(vars).owned_keys()),
        units_recent(final(vars).owned_keys()) == units_recent(old(vars).owned_keys()),
        final(vars).edges() == old(vars).edges(),
        final(vars).guarded_edges() == old(vars).guarded_edges(),
        final(vars).borrowed() == old(vars).borrowed(),
{
    vars.owned.from_join(&vars.perm_less, &vars.owned, |_from, to, _unit| (*to, ()));
}

/// Twice `Variable::complete`: the stable tuples of the borrowed and of
/// the owned keys, each as one relation. Both variables must have nothing
/// recent and nothing in `to_add`.
#[verifier::external_body]
pub(crate) fn complete(vars: KindVariables) -> (done: (Relation<(u32, ())>, Relation<(u32, ())>))
    requires
        units_recent(vars.borrowed()) == Set::<u32>::empty(),
        units_to_add(vars.borrowed()) == Set::<u32>::empty(),
        units_recent(vars.owned_keys()) == Set::<u32>::empty(),
        units_to_add(vars.owned_keys()) == Set::<u32>::empty(),
    ensures
        unit_rows(done.0).to_set() == units_stable(vars.borrowed()),
        units_ascend(unit_rows(done.0)),
        unit_rows(done.1).to_set() == units_stable(vars.owned_keys()),
        units_ascend(unit_rows(done.1)),
{
    (vars.borrow.complete(), vars.owned.complete())
}

} // verus!
