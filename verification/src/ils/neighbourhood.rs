//! Moves through a parameter space: neighbours, random walks, random draws.

use crate::config::{collected, pair_views, push_pair, Assignment, Config};
use crate::params::{chosen_upto, lemma_chosen, Param, ParamSpace};
use crate::random::{as_ints, draw_below, drawn_permutation, is_permutation, is_reordering, rearranged};
use crate::text::{same_text, texts};
use vstd::prelude::*;

verus! {

/// The configurations that a list of configurations holds.
pub open spec fn assignments(configs: Seq<Config>) -> Seq<Assignment> {
    configs.map_values(|c: Config| c@)
}

/// The value of a name, or the empty text.
pub open spec fn value_or_empty(m: Assignment, name: Seq<char>) -> Seq<char> {
    if m.contains_key(name) {
        m[name]
    } else {
        Seq::empty()
    }
}

/// Whether `n` is `m` with another value for parameter `i`, at position `k` of
/// its domain, and legal.
pub open spec fn is_move_at(space: &ParamSpace, m: Assignment, n: Assignment, i: int, k: int) -> bool {
    let p = space.params@[i];
    &&& space.active(m, i)
    &&& 0 <= k < p.domain@.len()
    &&& p.domain@[k]@ != value_or_empty(m, p.name@)
    &&& n == m.insert(p.name@, p.domain@[k]@)
    &&& space.legal(n)
}

/// Whether `n` is one move away from `m`: an active parameter takes another
/// value of its domain, and the outcome is legal.
pub open spec fn is_move(space: &ParamSpace, m: Assignment, n: Assignment) -> bool {
    exists|i: int, k: int| is_move_at(space, m, n, i, k)
}

/// The moves from `m` that give a parameter one of the first `n` values of its
/// domain, in order.
pub open spec fn value_moves(space: &ParamSpace, m: Assignment, p: Param, n: nat) -> Seq<Assignment>
    decreases n,
{
    if n == 0 {
        Seq::empty()
    } else {
        let shorter = value_moves(space, m, p, (n - 1) as nat);
        let value = p.domain@[n - 1]@;
        let next = m.insert(p.name@, value);
        if value != value_or_empty(m, p.name@) && space.legal(next) {
            shorter.push(next)
        } else {
            shorter
        }
    }
}

/// The moves from `m` that change one of the first `n` active parameters, in
/// order.
pub open spec fn param_moves(space: &ParamSpace, m: Assignment, n: nat) -> Seq<Assignment>
    decreases n,
{
    if n == 0 {
        Seq::empty()
    } else {
        let p = space.params@[space.active_indices(m)[n - 1]];
        param_moves(space, m, (n - 1) as nat) + value_moves(space, m, p, p.domain@.len())
    }
}

/// The neighbours of `m`: parameter by parameter and value by value.
pub open spec fn neighbours(space: &ParamSpace, m: Assignment) -> Seq<Assignment> {
    param_moves(space, m, space.active_indices(m).len())
}

/// Whether a random walk of at most `steps` moves can lead from `m` to `n`. It
/// ends early only where there is no move.
pub open spec fn walk(space: &ParamSpace, m: Assignment, n: Assignment, steps: nat) -> bool
    decreases steps,
{
    if steps == 0 || neighbours(space, m).len() == 0 {
        n == m
    } else {
        exists|j: int|
            0 <= j < neighbours(space, m).len() && walk(
                space,
                #[trigger] neighbours(space, m)[j],
                n,
                (steps - 1) as nat,
            )
    }
}

/// Whether each choice is a position in the domain of its parameter.
pub open spec fn valid_choices(space: &ParamSpace, choices: Seq<usize>) -> bool {
    &&& choices.len() == space.params@.len()
    &&& forall|i: int|
        0 <= i < choices.len() ==> (#[trigger] choices[i]) < space.params@[i].domain@.len()
}

/// The names of the parameters with the chosen values.
pub open spec fn chosen_pairs(space: &ParamSpace, choices: Seq<usize>) -> Seq<(Seq<char>, Seq<char>)> {
    Seq::new(
        space.params@.len(),
        |i: int| (space.params@[i].name@, space.params@[i].domain@[choices[i] as int]@),
    )
}

/// Whether `m` gives every parameter some value of its domain.
pub open spec fn is_draw(space: &ParamSpace, m: Assignment) -> bool {
    exists|choices: Seq<usize>| #[trigger]
        valid_choices(space, choices) && m == collected(chosen_pairs(space, choices))
}

/// Whether some configuration with a value of its domain for every parameter is
/// legal.
pub open spec fn has_legal_draw(space: &ParamSpace) -> bool {
    exists|m: Assignment| #[trigger] is_draw(space, m) && space.legal(m)
}

proof fn lemma_value_moves(space: &ParamSpace, m: Assignment, i: int, n: nat)
    requires
        space.active(m, i),
        n <= space.params@[i].domain@.len(),
    ensures
        forall|j: int|
            0 <= j < value_moves(space, m, space.params@[i], n).len() ==> is_move(
                space,
                m,
                #[trigger] value_moves(space, m, space.params@[i], n)[j],
            ),
        forall|x: Assignment, k: int| #[trigger]
            is_move_at(space, m, x, i, k) && k < n ==> value_moves(
                space,
                m,
                space.params@[i],
                n,
            ).contains(x),
    decreases n,
{
    let p = space.params@[i];
    if n > 0 {
        lemma_value_moves(space, m, i, (n - 1) as nat);
        let shorter = value_moves(space, m, p, (n - 1) as nat);
        let longer = value_moves(space, m, p, n);
        let next = m.insert(p.name@, p.domain@[n - 1]@);
        assert forall|j: int| 0 <= j < longer.len() implies is_move(space, m, #[trigger] longer[j]) by {
            if j < shorter.len() {
                assert(longer[j] == shorter[j]);
            } else {
                assert(is_move_at(space, m, next, i, n - 1));
            }
        }
        assert forall|x: Assignment, k: int| #[trigger]
            is_move_at(space, m, x, i, k) && k < n implies longer.contains(x) by {
            if k < n - 1 {
                assert(shorter.contains(x));
                let j = choose|j: int| 0 <= j < shorter.len() && shorter[j] == x;
                assert(longer[j] == x);
            } else {
                assert(longer[longer.len() - 1] == x);
            }
        }
    }
}

proof fn lemma_param_moves(space: &ParamSpace, m: Assignment, n: nat)
    requires
        n <= space.active_indices(m).len(),
    ensures
        forall|j: int|
            0 <= j < param_moves(space, m, n).len() ==> is_move(
                space,
                m,
                #[trigger] param_moves(space, m, n)[j],
            ),
        forall|x: Assignment, c: int, k: int|
            0 <= c < n && #[trigger] is_move_at(space, m, x, space.active_indices(m)[c], k)
                ==> param_moves(space, m, n).contains(x),
    decreases n,
{
    lemma_chosen(space.activity(m), space.params@.len() as int);
    if n > 0 {
        lemma_param_moves(space, m, (n - 1) as nat);
        let i = space.active_indices(m)[n - 1];
        let p = space.params@[i];
        assert(space.activity(m)[i]);
        lemma_value_moves(space, m, i, p.domain@.len());
        let shorter = param_moves(space, m, (n - 1) as nat);
        let here = value_moves(space, m, p, p.domain@.len());
        let longer = param_moves(space, m, n);
        assert forall|j: int| 0 <= j < longer.len() implies is_move(space, m, #[trigger] longer[j]) by {
            if j < shorter.len() {
                assert(longer[j] == shorter[j]);
            } else {
                assert(longer[j] == here[j - shorter.len()]);
            }
        }
        assert forall|x: Assignment, c: int, k: int|
            0 <= c < n && #[trigger] is_move_at(
                space,
                m,
                x,
                space.active_indices(m)[c],
                k,
            ) implies longer.contains(x) by {
            if c < n - 1 {
                assert(shorter.contains(x));
                let j = choose|j: int| 0 <= j < shorter.len() && shorter[j] == x;
                assert(longer[j] == x);
            } else {
                assert(here.contains(x));
                let j = choose|j: int| 0 <= j < here.len() && here[j] == x;
                assert(longer[shorter.len() + j] == x);
            }
        }
    }
}

/// The neighbours of a configuration are exactly the configurations one move
/// away from it.
pub proof fn lemma_neighbours_are_moves(space: &ParamSpace, m: Assignment, n: Assignment)
    ensures
        neighbours(space, m).contains(n) <==> is_move(space, m, n),
{
    let count = space.active_indices(m).len();
    lemma_param_moves(space, m, count);
    lemma_chosen(space.activity(m), space.params@.len() as int);
    if is_move(space, m, n) {
        let (i, k) = choose|i: int, k: int| is_move_at(space, m, n, i, k);
        space.lemma_active_is_supported(m, i);
        assert(space.activity(m)[i]);
        assert(space.active_indices(m).contains(i));
        let c = choose|c: int| 0 <= c < count && space.active_indices(m)[c] == i;
        assert(is_move_at(space, m, n, space.active_indices(m)[c], k));
        assert(neighbours(space, m).contains(n));
    }
}

/// A neighbour is legal, and differs from its origin in the value of exactly one
/// name, that of an active parameter, for which it has a value of the domain.
pub proof fn lemma_neighbour_differs_in_one_value(space: &ParamSpace, m: Assignment, n: Assignment)
    requires
        neighbours(space, m).contains(n),
    ensures
        space.legal(n),
        exists|i: int| {
            let name = space.params@[i].name@;
            &&& #[trigger] space.active(m, i)
            &&& n.contains_key(name)
            &&& n[name] != value_or_empty(m, name)
            &&& texts(space.params@[i].domain@).contains(n[name])
            &&& n.remove(name) == m.remove(name)
        },
{
    lemma_neighbours_are_moves(space, m, n);
    let (i, k) = choose|i: int, k: int| is_move_at(space, m, n, i, k);
    let p = space.params@[i];
    assert(texts(p.domain@)[k] == p.domain@[k]@);
    assert(n.remove(p.name@) =~= m.remove(p.name@));
    assert(space.active(m, i));
}

/// Whether a ranking of the parameters puts every parent below the parameters
/// that depend on it.
pub open spec fn ranks_parents_below(space: &ParamSpace, rank: spec_fn(int) -> nat) -> bool {
    forall|i: int, j: int|
        0 <= i < space.params@.len() && 0 <= j < space.params@.len() && #[trigger] is_parent(
            space,
            j,
            i,
        ) ==> rank(j) < rank(i)
}

/// Whether parameter `j` bears the name of the parent of parameter `i`.
pub open spec fn is_parent(space: &ParamSpace, j: int, i: int) -> bool {
    space.params@[i].condition matches Some(c) && c.parent@ == space.params@[j].name@
}

/// Whether no parameter depends on itself through the conditions.
pub open spec fn is_acyclic(space: &ParamSpace) -> bool {
    exists|rank: spec_fn(int) -> nat| ranks_parents_below(space, rank)
}

/// Whether `m` gives every parameter a value of its domain.
pub open spec fn is_full(space: &ParamSpace, m: Assignment) -> bool {
    forall|i: int|
        0 <= i < space.params@.len() ==> m.contains_key((#[trigger] space.params@[i]).name@) && texts(
            space.params@[i].domain@,
        ).contains(m[space.params@[i].name@])
}

/// Every move can be undone by one move: where no parameter depends on itself, a
/// legal configuration with a value of its domain for every parameter is a
/// neighbour of each of its neighbours.
pub proof fn lemma_moves_can_be_undone(space: &ParamSpace, m: Assignment, n: Assignment)
    requires
        is_acyclic(space),
        is_full(space, m),
        space.legal(m),
        neighbours(space, m).contains(n),
    ensures
        neighbours(space, n).contains(m),
{
    lemma_neighbours_are_moves(space, m, n);
    let (i, k) = choose|i: int, k: int| is_move_at(space, m, n, i, k);
    space.lemma_active_is_supported(m, i);
    let p = space.params@[i];
    let name = p.name@;
    let rank = choose|rank: spec_fn(int) -> nat| ranks_parents_below(space, rank);
    // The parameters up to the one that changes stay active: none of them
    // depends on it.
    let low = Set::new(|j: int| space.active(m, j) && rank(j) <= rank(i));
    assert forall|j: int| #[trigger] low.contains(j) implies 0 <= j < space.params@.len()
        && space.supported(n, low, j) by {
        space.lemma_active_is_supported(m, j);
        if let Some(c) = space.params@[j].condition {
            let all = Set::new(|x: int| space.active(m, x));
            let q = choose|q: int| #[trigger] all.contains(q) && space.params@[q].name@ == c.parent@;
            space.lemma_active_is_supported(m, q);
            assert(is_parent(space, q, j));
            assert(rank(q) < rank(j));
            assert(low.contains(q));
            if c.parent@ == name {
                assert(is_parent(space, i, j));
                assert(rank(i) < rank(j));
            }
        }
    }
    assert(space.sustained(n, low));
    assert(low.contains(i));
    assert(space.active(n, i));
    let back = choose|b: int| 0 <= b < texts(p.domain@).len() && texts(p.domain@)[b] == m[name];
    assert(p.domain@[back]@ == m[name]);
    assert(n.insert(name, m[name]) =~= m);
    assert(is_move_at(space, n, m, i, back));
    lemma_neighbours_are_moves(space, n, m);
}

/// A walk with at least one move leads to a legal configuration.
pub proof fn lemma_walk_is_legal(space: &ParamSpace, m: Assignment, n: Assignment, steps: nat)
    requires
        walk(space, m, n, steps),
    ensures
        n == m || space.legal(n),
        space.legal(m) ==> space.legal(n),
    decreases steps,
{
    if steps > 0 && neighbours(space, m).len() > 0 {
        let j = choose|j: int|
            0 <= j < neighbours(space, m).len() && walk(
                space,
                #[trigger] neighbours(space, m)[j],
                n,
                (steps - 1) as nat,
            );
        let next = neighbours(space, m)[j];
        assert(neighbours(space, m).contains(next));
        lemma_neighbour_differs_in_one_value(space, m, next);
        lemma_walk_is_legal(space, next, n, (steps - 1) as nat);
    }
}

/// A walk that starts where every name has a value assigns the same names.
pub proof fn lemma_walk_keeps_names(space: &ParamSpace, m: Assignment, n: Assignment, steps: nat)
    requires
        walk(space, m, n, steps),
        names_every_parameter(space, m),
    ensures
        n.dom() == m.dom(),
    decreases steps,
{
    if steps > 0 && neighbours(space, m).len() > 0 {
        let j = choose|j: int|
            0 <= j < neighbours(space, m).len() && walk(
                space,
                #[trigger] neighbours(space, m)[j],
                n,
                (steps - 1) as nat,
            );
        let next = neighbours(space, m)[j];
        assert(neighbours(space, m).contains(next));
        lemma_neighbours_are_moves(space, m, next);
        let (i, k) = choose|i: int, k: int| is_move_at(space, m, next, i, k);
        space.lemma_active_is_supported(m, i);
        assert(m.contains_key(space.params@[i].name@));
        assert(next.dom() =~= m.dom());
        assert forall|i: int| 0 <= i < space.params@.len() implies next.contains_key(
            (#[trigger] space.params@[i]).name@,
        ) by {
            assert(m.contains_key(space.params@[i].name@));
        }
        lemma_walk_keeps_names(space, next, n, (steps - 1) as nat);
    }
}

/// Whether a configuration has a value for every parameter.
pub open spec fn names_every_parameter(space: &ParamSpace, m: Assignment) -> bool {
    forall|i: int|
        0 <= i < space.params@.len() ==> m.contains_key((#[trigger] space.params@[i]).name@)
}

/// Whether every value of `n` that `m` does not have is one of the domain of a
/// parameter of its name.
pub open spec fn values_from(space: &ParamSpace, m: Assignment, n: Assignment) -> bool {
    forall|name: Seq<char>| #[trigger]
        n.contains_key(name) ==> (m.contains_key(name) && n[name] == m[name]) || in_domain(
            space,
            name,
            n[name],
        )
}

/// Whether a value is in the domain of a parameter of that name.
pub open spec fn in_domain(space: &ParamSpace, name: Seq<char>, value: Seq<char>) -> bool {
    exists|i: int|
        0 <= i < space.params@.len() && (#[trigger] space.params@[i]).name@ == name && texts(
            space.params@[i].domain@,
        ).contains(value)
}

/// A walk takes no value from outside the domains.
pub proof fn lemma_walk_stays_in_domains(space: &ParamSpace, m: Assignment, n: Assignment, steps: nat)
    requires
        walk(space, m, n, steps),
    ensures
        values_from(space, m, n),
    decreases steps,
{
    if steps > 0 && neighbours(space, m).len() > 0 {
        let j = choose|j: int|
            0 <= j < neighbours(space, m).len() && walk(
                space,
                #[trigger] neighbours(space, m)[j],
                n,
                (steps - 1) as nat,
            );
        let next = neighbours(space, m)[j];
        assert(neighbours(space, m).contains(next));
        lemma_neighbours_are_moves(space, m, next);
        let (i, k) = choose|i: int, k: int| is_move_at(space, m, next, i, k);
        space.lemma_active_is_supported(m, i);
        let p = space.params@[i];
        assert(texts(p.domain@)[k] == p.domain@[k]@);
        lemma_walk_stays_in_domains(space, next, n, (steps - 1) as nat);
        assert forall|name: Seq<char>| #[trigger] n.contains_key(name) implies (m.contains_key(name) && n[name]
            == m[name]) || in_domain(space, name, n[name]) by {
            if next.contains_key(name) && n[name] == next[name] && name == p.name@ {
                assert(space.params@[i].name@ == name);
            }
        }
    }
}

/// A random draw gives every parameter a value, and every name one of the domain
/// of a parameter of that name.
pub proof fn lemma_draw_is_complete(space: &ParamSpace, m: Assignment)
    requires
        is_draw(space, m),
    ensures
        names_every_parameter(space, m),
        forall|name: Seq<char>| #[trigger] m.contains_key(name) ==> in_domain(space, name, m[name]),
{
    let choices = choose|choices: Seq<usize>| #[trigger]
        valid_choices(space, choices) && m == collected(chosen_pairs(space, choices));
    let l = chosen_pairs(space, choices);
    lemma_collected_from_list(l);
    assert forall|i: int| 0 <= i < space.params@.len() implies m.contains_key(
        (#[trigger] space.params@[i]).name@,
    ) by {
        assert(l[i].0 == space.params@[i].name@);
    }
    assert forall|name: Seq<char>| #[trigger] m.contains_key(name) implies in_domain(space, name, m[name]) by {
        let i = choose|i: int| 0 <= i < l.len() && #[trigger] l[i] == (name, m[name]);
        assert(choices[i] < space.params@[i].domain@.len());
        assert(texts(space.params@[i].domain@)[choices[i] as int] == m[name]);
        assert(space.params@[i].name@ == name);
    }
}

/// Whether a configuration names every parameter that the given one names (all
/// of them if none was given), and has for each name the given value or one of
/// the domain of a parameter of that name.
#[verifier::opaque]
pub open spec fn stays_within(space: &ParamSpace, given: Option<Assignment>, m: Assignment) -> bool {
    &&& forall|i: int|
        0 <= i < space.params@.len() && (given matches Some(g) ==> g.contains_key(
            space.params@[i].name@,
        )) ==> m.contains_key((#[trigger] space.params@[i]).name@)
    &&& forall|name: Seq<char>| #[trigger]
        m.contains_key(name) ==> in_domain(space, name, m[name]) || (given matches Some(g) && g.contains_key(
            name,
        ) && g[name] == m[name])
}

/// What was given stays within itself.
pub proof fn lemma_given_stays_within(space: &ParamSpace, m: Assignment)
    ensures
        stays_within(space, Some(m), m),
{
    reveal(stays_within);
}

/// A random draw stays within the domains.
pub proof fn lemma_draw_stays_within(space: &ParamSpace, given: Option<Assignment>, m: Assignment)
    requires
        is_draw(space, m),
    ensures
        stays_within(space, given, m),
{
    reveal(stays_within);
    lemma_draw_is_complete(space, m);
}

/// A walk from what stays within the given values and the domains does so too.
pub proof fn lemma_walk_stays_within(
    space: &ParamSpace,
    given: Option<Assignment>,
    m: Assignment,
    n: Assignment,
    steps: nat,
)
    requires
        stays_within(space, given, m),
        walk(space, m, n, steps),
    ensures
        stays_within(space, given, n),
    decreases steps,
{
    if steps > 0 && neighbours(space, m).len() > 0 {
        let j = choose|j: int|
            0 <= j < neighbours(space, m).len() && walk(
                space,
                #[trigger] neighbours(space, m)[j],
                n,
                (steps - 1) as nat,
            );
        let next = neighbours(space, m)[j];
        assert(neighbours(space, m).contains(next));
        lemma_neighbour_stays_within(space, given, m, next);
        lemma_walk_stays_within(space, given, next, n, (steps - 1) as nat);
    }
}

/// A neighbour of what stays within the given values and the domains does so too.
pub proof fn lemma_neighbour_stays_within(
    space: &ParamSpace,
    given: Option<Assignment>,
    m: Assignment,
    n: Assignment,
)
    requires
        stays_within(space, given, m),
        neighbours(space, m).contains(n),
    ensures
        stays_within(space, given, n),
{
    reveal(stays_within);
    lemma_neighbours_are_moves(space, m, n);
    let (i, k) = choose|i: int, k: int| is_move_at(space, m, n, i, k);
    space.lemma_active_is_supported(m, i);
    let p = space.params@[i];
    assert(texts(p.domain@)[k] == p.domain@[k]@);
    assert(in_domain(space, p.name@, p.domain@[k]@)) by {
        assert(space.params@[i].name@ == p.name@);
    }
    assert forall|name: Seq<char>| #[trigger] n.contains_key(name) implies in_domain(space, name, n[name]) || (
    given matches Some(g) && g.contains_key(name) && g[name] == n[name]) by {
        if name != p.name@ {
            assert(m.contains_key(name));
        }
    }
}

proof fn lemma_collected_from_list(l: Seq<(Seq<char>, Seq<char>)>)
    ensures
        forall|i: int| 0 <= i < l.len() ==> collected(l).contains_key((#[trigger] l[i]).0),
        forall|name: Seq<char>| #[trigger]
            collected(l).contains_key(name) ==> exists|i: int|
                0 <= i < l.len() && #[trigger] l[i] == (name, collected(l)[name]),
    decreases l.len(),
{
    if l.len() > 0 {
        let d = l.drop_last();
        lemma_collected_from_list(d);
        let c = collected(l);
        assert forall|i: int| 0 <= i < l.len() implies c.contains_key((#[trigger] l[i]).0) by {
            if i < d.len() {
                assert(d[i] == l[i]);
            }
        }
        assert forall|name: Seq<char>| #[trigger] c.contains_key(name) implies exists|i: int|
            0 <= i < l.len() && #[trigger] l[i] == (name, c[name]) by {
            if name == l.last().0 {
                assert(l[l.len() - 1] == (name, c[name]));
            } else {
                assert(collected(d).contains_key(name));
                let i = choose|i: int| 0 <= i < d.len() && #[trigger] d[i] == (name, collected(d)[name]);
                assert(l[i] == (name, c[name]));
            }
        }
    }
}

fn value_differs(config: &Config, name: &str, value: &str) -> (r: bool)
    ensures
        r == (value@ != value_or_empty(config@, name@)),
{
    match config.get(name) {
        Some(current) => !same_text(value, current.as_str()),
        None => {
            let empty = String::new();
            !same_text(value, empty.as_str())
        },
    }
}

/// All one-parameter-away neighbours of `config` within `space`.
/// Only active params change; forbidden combinations are skipped, tested
/// against each candidate's active projection.
pub fn neighbourhood(config: &Config, space: &ParamSpace) -> (r: Vec<Config>)
    ensures
        assignments(r@) == neighbours(space, config@),
{
    let active = space.active_params(config);
    let ghost m = config@;
    let ghost indices = space.active_indices(m);
    let mut result: Vec<Config> = Vec::new();
    proof {
        lemma_chosen(space.activity(m), space.params@.len() as int);
        assert(active@.map_values(|p: &Param| *p).len() == indices.len());
        assert(assignments(result@) =~= Seq::empty());
    }
    for c in 0..active.len()
        invariant
            m == config@,
            indices == space.active_indices(m),
            active@.len() == indices.len(),
            active@.map_values(|p: &Param| *p) == indices.map_values(|i: int| space.params@[i]),
            assignments(result@) == param_moves(space, m, c as nat),
    {
        let param: &Param = active[c];
        let ghost done = assignments(result@);
        proof {
            assert(active@.map_values(|p: &Param| *p)[c as int] == *param);
            assert(*param == space.params@[indices[c as int]]);
            assert(done + value_moves(space, m, *param, 0) =~= done);
        }
        for k in 0..param.domain.len()
            invariant
                m == config@,
                assignments(result@) == done + value_moves(space, m, *param, k as nat),
        {
            if value_differs(config, param.name.as_str(), param.domain[k].as_str()) {
                let mut next = config.clone();
                next.insert(param.name.clone(), param.domain[k].clone());
                if space.is_legal(&next) {
                    let ghost prev = assignments(result@);
                    let ghost view = next@;
                    result.push(next);
                    assert(assignments(result@) =~= prev.push(view));
                    assert(prev.push(view) =~= done + value_moves(space, m, *param, k as nat).push(view));
                }
            }
        }
    }
    result
}

/// Random walk: take `strength` steps through the neighbourhood.
pub fn perturbation(config: Config, strength: usize, space: &ParamSpace, rng: &mut rand::rngs::ThreadRng) -> (r: Config)
    ensures
        walk(space, config@, r@, strength as nat),
{
    let ghost origin = config@;
    let mut current = config;
    let mut taken: usize = 0;
    let ghost mut left: nat = strength as nat;
    while taken < strength
        invariant
            taken <= strength,
            origin == config@,
            left == strength - taken,
            forall|n: Assignment| #[trigger]
                walk(space, current@, n, left) ==> walk(space, origin, n, strength as nat),
        decreases strength - taken,
    {
        let neighbors = neighbourhood(&current, space);
        let ghost here = current@;
        assert(assignments(neighbors@).len() == neighbors@.len());
        if neighbors.len() == 0 {
            assert(walk(space, here, here, left));
            return current;
        }
        let pick: usize = draw_below(rng, neighbors.len());
        current = neighbors[pick].clone();
        taken += 1;
        proof {
            assert(assignments(neighbors@)[pick as int] == current@);
            let fewer = (left - 1) as nat;
            assert forall|n: Assignment| #[trigger] walk(space, current@, n, fewer) implies walk(
                space,
                origin,
                n,
                strength as nat,
            ) by {
                assert(walk(space, neighbours(space, here)[pick as int], n, fewer));
                assert(walk(space, here, n, left));
            }
            left = fewer;
        }
    }
    assert(walk(space, current@, current@, left));
    current
}

/// The neighbours of `config` in an order drawn by chance.
pub fn shuffled_neighbourhood(config: &Config, space: &ParamSpace, rng: &mut rand::rngs::ThreadRng) -> (r: Vec<Config>)
    ensures
        is_reordering(neighbours(space, config@), assignments(r@)),
{
    let neighbors = neighbourhood(config, space);
    let order = drawn_permutation(neighbors.len(), rng);
    arranged(&neighbors, &order)
}

/// Configurations in the order that a permutation of their positions gives.
pub fn arranged(configs: &Vec<Config>, order: &Vec<usize>) -> (r: Vec<Config>)
    requires
        is_permutation(as_ints(order@), configs@.len() as int),
    ensures
        assignments(r@) == rearranged(assignments(configs@), as_ints(order@)),
        is_reordering(assignments(configs@), assignments(r@)),
{
    let mut out: Vec<Config> = Vec::new();
    let ghost p = as_ints(order@);
    let ghost all = assignments(configs@);
    for i in 0..order.len()
        invariant
            p == as_ints(order@),
            all == assignments(configs@),
            is_permutation(p, configs@.len() as int),
            assignments(out@) == rearranged(all, p).take(i as int),
    {
        assert(p[i as int] == order@[i as int]);
        let ghost prev = assignments(out@);
        let copy = configs[order[i]].clone();
        let ghost view = copy@;
        assert(view == all[p[i as int]]);
        out.push(copy);
        assert(assignments(out@) =~= prev.push(view));
        assert(assignments(out@) =~= rearranged(all, p).take(i + 1));
    }
    assert(assignments(out@) =~= rearranged(all, p));
    assert(is_permutation(p, all.len() as int));
    out
}

/// The configuration that gives each parameter the value at the chosen position
/// of its domain.
pub fn config_of_choices(space: &ParamSpace, choices: &Vec<usize>) -> (r: Config)
    requires
        valid_choices(space, choices@),
    ensures
        r@ == collected(chosen_pairs(space, choices@)),
{
    let mut pairs: Vec<(String, String)> = Vec::new();
    let ghost all = chosen_pairs(space, choices@);
    for i in 0..space.params.len()
        invariant
            valid_choices(space, choices@),
            all == chosen_pairs(space, choices@),
            pair_views(pairs@) == all.take(i as int),
    {
        push_pair(&mut pairs, &space.params[i].name, &space.params[i].domain[choices[i]]);
        assert(pair_views(pairs@) =~= all.take(i + 1));
    }
    assert(all.take(all.len() as int) =~= all);
    Config::from_pairs(&pairs)
}

/// Whether the given positions are ones in the domains of the first parameters.
pub open spec fn valid_beginning(space: &ParamSpace, chosen: Seq<usize>) -> bool {
    &&& chosen.len() <= space.params@.len()
    &&& forall|i: int|
        0 <= i < chosen.len() ==> (#[trigger] chosen[i]) < space.params@[i].domain@.len()
}

/// A legal configuration that gives the first parameters the values at the
/// chosen positions, if there is one.
fn legal_completion(space: &ParamSpace, chosen: &Vec<usize>) -> (r: Option<Config>)
    requires
        valid_beginning(space, chosen@),
    ensures
        match r {
            Some(c) => is_draw(space, c@) && space.legal(c@),
            None => forall|choices: Seq<usize>| #[trigger]
                valid_choices(space, choices) && chosen@.is_prefix_of(choices) ==> !space.legal(
                    collected(chosen_pairs(space, choices)),
                ),
        },
    decreases space.params@.len() - chosen@.len(),
{
    let n: usize = chosen.len();
    if n == space.params.len() {
        assert(valid_choices(space, chosen@));
        let config = config_of_choices(space, chosen);
        if space.is_legal(&config) {
            return Some(config);
        }
        proof {
            assert forall|choices: Seq<usize>| #[trigger]
                valid_choices(space, choices) && chosen@.is_prefix_of(choices) implies !space.legal(
                collected(chosen_pairs(space, choices)),
            ) by {
                assert(choices =~= chosen@);
            }
        }
        return None;
    }
    let width: usize = space.params[n].domain.len();
    for v in 0..width
        invariant
            n == chosen@.len(),
            n < space.params@.len(),
            width == space.params@[n as int].domain@.len(),
            valid_beginning(space, chosen@),
            forall|choices: Seq<usize>| #[trigger]
                valid_choices(space, choices) && chosen@.is_prefix_of(choices) && choices[n as int] < v
                    ==> !space.legal(collected(chosen_pairs(space, choices))),
    {
        let mut longer: Vec<usize> = Vec::new();
        for i in 0..n
            invariant
                n == chosen@.len(),
                longer@ == chosen@.take(i as int),
        {
            longer.push(chosen[i]);
            assert(longer@ =~= chosen@.take(i + 1));
        }
        longer.push(v);
        assert(longer@ =~= chosen@.push(v));
        match legal_completion(space, &longer) {
            Some(c) => {
                return Some(c);
            },
            None => {},
        }
        proof {
            assert forall|choices: Seq<usize>| #[trigger]
                valid_choices(space, choices) && chosen@.is_prefix_of(choices) && choices[n as int] < v
                    + 1 implies !space.legal(collected(chosen_pairs(space, choices))) by {
                if choices[n as int] == v {
                    assert forall|i: int| 0 <= i < longer@.len() implies longer@[i] == choices[i] by {
                        if i < n {
                            assert(chosen@[i] == choices.subrange(0, n as int)[i]);
                        }
                    }
                    assert(longer@ =~= choices.subrange(0, longer@.len() as int));
                    assert(longer@.is_prefix_of(choices));
                }
            }
        }
    }
    proof {
        assert forall|choices: Seq<usize>| #[trigger]
            valid_choices(space, choices) && chosen@.is_prefix_of(choices) implies !space.legal(
            collected(chosen_pairs(space, choices)),
        ) by {
            assert(choices[n as int] < space.params@[n as int].domain@.len());
        }
    }
    None
}

/// Some configuration with a value of its domain for every parameter whose active
/// projection is not forbidden, if there is any.
pub fn some_legal_config(space: &ParamSpace) -> (r: Option<Config>)
    ensures
        match r {
            Some(c) => is_draw(space, c@) && space.legal(c@),
            None => !has_legal_draw(space),
        },
{
    let none: Vec<usize> = Vec::new();
    let r = legal_completion(space, &none);
    proof {
        if r is None && has_legal_draw(space) {
            let m = choose|m: Assignment| #[trigger] is_draw(space, m) && space.legal(m);
            let choices = choose|choices: Seq<usize>| #[trigger]
                valid_choices(space, choices) && m == collected(chosen_pairs(space, choices));
            assert(none@ =~= choices.subrange(0, 0));
            assert(none@.is_prefix_of(choices));
        }
    }
    r
}

/// Sample a random configuration whose active projection is not forbidden.
///
/// Draws again as long as the draw is forbidden. Should chance bring up forbidden
/// draws only, as often as a machine word can count, the values are tried out in
/// order. There is no result only if every configuration is forbidden, or a
/// parameter has no value to take.
pub fn random_config(space: &ParamSpace, rng: &mut rand::rngs::ThreadRng) -> (r: Option<Config>)
    ensures
        match r {
            Some(c) => is_draw(space, c@) && space.legal(c@),
            None => !has_legal_draw(space),
        },
{
    if !space.is_inhabited() {
        proof {
            let i = choose|i: int|
                0 <= i < space.params@.len() && (#[trigger] space.params@[i]).domain@.len() == 0;
            assert forall|choices: Seq<usize>| !(#[trigger] valid_choices(space, choices)) by {
                if valid_choices(space, choices) {
                    assert(choices[i] < space.params@[i].domain@.len());
                }
            }
        }
        return None;
    }
    let mut attempts: u64 = u64::MAX;
    while attempts > 0
        invariant
            space.inhabited(),
        decreases attempts,
    {
        let mut choices: Vec<usize> = Vec::new();
        for i in 0..space.params.len()
            invariant
                space.inhabited(),
                choices@.len() == i,
                forall|k: int|
                    0 <= k < i ==> (#[trigger] choices@[k]) < space.params@[k].domain@.len(),
        {
            assert(space.params@[i as int].domain@.len() > 0);
            let pick: usize = draw_below(rng, space.params[i].domain.len());
            choices.push(pick);
        }
        assert(valid_choices(space, choices@));
        let config = config_of_choices(space, &choices);
        assert(is_draw(space, config@));
        if space.is_legal(&config) {
            return Some(config);
        }
        attempts -= 1;
    }
    some_legal_config(space)
}

/// Every legal configuration that gives one active parameter another value of its
/// domain, and is otherwise the same, is a neighbour.
pub proof fn lemma_every_change_of_one_value_is_a_neighbour(space: &ParamSpace, m: Assignment, i: int, value: Seq<char>)
    requires
        space.active(m, i),
        texts(space.params@[i].domain@).contains(value),
        value != value_or_empty(m, space.params@[i].name@),
        space.legal(m.insert(space.params@[i].name@, value)),
    ensures
        neighbours(space, m).contains(m.insert(space.params@[i].name@, value)),
{
    let p = space.params@[i];
    let n = m.insert(p.name@, value);
    let k = choose|k: int| 0 <= k < texts(p.domain@).len() && texts(p.domain@)[k] == value;
    assert(p.domain@[k]@ == value);
    assert(is_move_at(space, m, n, i, k));
    lemma_neighbours_are_moves(space, m, n);
}

/// A configuration is no neighbour of itself, where every name has a value.
pub proof fn lemma_no_configuration_is_its_own_neighbour(space: &ParamSpace, m: Assignment)
    requires
        names_every_parameter(space, m),
    ensures
        !neighbours(space, m).contains(m),
{
    lemma_neighbours_are_moves(space, m, m);
    if is_move(space, m, m) {
        let (i, k) = choose|i: int, k: int| is_move_at(space, m, m, i, k);
        space.lemma_active_is_supported(m, i);
        assert(m.contains_key(space.params@[i].name@));
    }
}

/// A walk of no steps stays, and one step leads to a neighbour, where there is one.
pub proof fn lemma_one_step_leads_to_a_neighbour(space: &ParamSpace, m: Assignment, n: Assignment)
    ensures
        walk(space, m, n, 0) <==> n == m,
        neighbours(space, m).len() > 0 ==> (walk(space, m, n, 1) <==> neighbours(space, m).contains(n)),
        neighbours(space, m).len() == 0 ==> (walk(space, m, n, 1) <==> n == m),
{
    let ns = neighbours(space, m);
    if ns.len() > 0 {
        if ns.contains(n) {
            let j = choose|j: int| 0 <= j < ns.len() && ns[j] == n;
            assert(walk(space, ns[j], n, 0));
        }
        if walk(space, m, n, 1) {
            let j = choose|j: int| 0 <= j < ns.len() && walk(space, #[trigger] ns[j], n, 0);
            assert(ns[j] == n);
        }
    }
}

/// A walk is as many steps as it is asked for, one after another: walks follow one
/// another to a walk of all their steps.
pub proof fn lemma_walks_follow_one_another(
    space: &ParamSpace,
    m: Assignment,
    x: Assignment,
    n: Assignment,
    a: nat,
    b: nat,
)
    requires
        walk(space, m, x, a),
        walk(space, x, n, b),
    ensures
        walk(space, m, n, a + b),
    decreases a,
{
    let ns = neighbours(space, m);
    if a == 0 {
    } else if ns.len() == 0 {
        lemma_walk_stays_without_neighbours(space, m, n, b);
    } else {
        let j = choose|j: int| 0 <= j < ns.len() && walk(space, #[trigger] ns[j], x, (a - 1) as nat);
        lemma_walks_follow_one_another(space, ns[j], x, n, (a - 1) as nat, b);
        assert(walk(space, ns[j], n, (a + b - 1) as nat));
    }
}

proof fn lemma_walk_stays_without_neighbours(space: &ParamSpace, m: Assignment, n: Assignment, steps: nat)
    requires
        neighbours(space, m).len() == 0,
        walk(space, m, n, steps),
    ensures
        n == m,
{
}

/// A walk passes, after any number of its steps, through a configuration from which
/// the rest of it leads on.
pub proof fn lemma_walks_can_be_cut(space: &ParamSpace, m: Assignment, n: Assignment, a: nat, b: nat)
    requires
        walk(space, m, n, a + b),
    ensures
        exists|x: Assignment| #[trigger] walk(space, m, x, a) && walk(space, x, n, b),
    decreases a,
{
    let ns = neighbours(space, m);
    if a == 0 {
        assert(walk(space, m, m, a));
    } else if ns.len() == 0 {
        assert(walk(space, m, m, a));
        assert(walk(space, m, n, b));
    } else {
        let j = choose|j: int| 0 <= j < ns.len() && walk(space, #[trigger] ns[j], n, (a + b - 1) as nat);
        lemma_walks_can_be_cut(space, ns[j], n, (a - 1) as nat, b);
        let x = choose|x: Assignment| #[trigger]
            walk(space, ns[j], x, (a - 1) as nat) && walk(space, x, n, b);
        assert(walk(space, m, x, a));
    }
}

/// Whatever gives exactly the parameters a value of their domains can be drawn.
pub proof fn lemma_everything_can_be_drawn(space: &ParamSpace, m: Assignment)
    requires
        is_full(space, m),
        forall|name: Seq<char>| #[trigger] m.contains_key(name) ==> exists|i: int|
            0 <= i < space.params@.len() && (#[trigger] space.params@[i]).name@ == name,
        forall|i: int|
            0 <= i < space.params@.len() ==> (#[trigger] space.params@[i]).domain@.len() <= usize::MAX,
    ensures
        is_draw(space, m),
{
    let choices = Seq::new(space.params@.len(), |i: int| position_in_domain(space, m, i));
    assert forall|i: int| 0 <= i < choices.len() implies (#[trigger] choices[i])
        < space.params@[i].domain@.len() && space.params@[i].domain@[choices[i] as int]@
        == m[space.params@[i].name@] by {
        let p = space.params@[i];
        let b = choose|b: int|
            0 <= b < texts(p.domain@).len() && texts(p.domain@)[b] == m[p.name@];
        let k = b as usize;
        assert(k < p.domain@.len() && p.domain@[k as int]@ == m[p.name@]);
    }
    assert(valid_choices(space, choices));
    let l = chosen_pairs(space, choices);
    assert forall|i: int| 0 <= i < l.len() implies (#[trigger] l[i]).1 == m[l[i].0] by {
        assert(choices[i] < space.params@[i].domain@.len());
    }
    lemma_collected_agrees(l, m);
    lemma_collected_from_list(l);
    let c = collected(l);
    assert forall|name: Seq<char>| c.contains_key(name) == m.contains_key(name) by {
        if m.contains_key(name) {
            let i = choose|i: int| 0 <= i < space.params@.len() && (#[trigger] space.params@[i]).name@ == name;
            assert(l[i].0 == name);
        }
        if c.contains_key(name) {
            let i = choose|i: int| 0 <= i < l.len() && (#[trigger] l[i]).0 == name;
            assert(m.contains_key(space.params@[i].name@));
        }
    }
    assert(c =~= m);
}

/// A position in the domain of a parameter at which the value stands that `m` gives
/// it.
spec fn position_in_domain(space: &ParamSpace, m: Assignment, i: int) -> usize {
    choose|k: usize|
        k < space.params@[i].domain@.len() && (#[trigger] space.params@[i].domain@[k as int])@
            == m[space.params@[i].name@]
}

proof fn lemma_collected_agrees(l: Seq<(Seq<char>, Seq<char>)>, m: Assignment)
    requires
        forall|i: int| 0 <= i < l.len() ==> (#[trigger] l[i]).1 == m[l[i].0],
    ensures
        forall|k: Seq<char>| #[trigger] collected(l).contains_key(k) ==> collected(l)[k] == m[k] && exists|
            i: int,
        |
            0 <= i < l.len() && (#[trigger] l[i]).0 == k,
        forall|i: int| 0 <= i < l.len() ==> collected(l).contains_key((#[trigger] l[i]).0),
    decreases l.len(),
{
    if l.len() > 0 {
        let d = l.drop_last();
        assert forall|i: int| 0 <= i < d.len() implies (#[trigger] d[i]).1 == m[d[i].0] by {
            assert(d[i] == l[i]);
        }
        lemma_collected_agrees(d, m);
        let last = l[l.len() - 1];
        assert(last.1 == m[last.0]);
        assert forall|k: Seq<char>| #[trigger] collected(l).contains_key(k) implies collected(l)[k] == m[k]
            && exists|i: int| 0 <= i < l.len() && (#[trigger] l[i]).0 == k by {
            if k == last.0 {
                assert(l[l.len() - 1].0 == k);
            } else {
                assert(collected(d).contains_key(k));
                let i = choose|i: int| 0 <= i < d.len() && (#[trigger] d[i]).0 == k;
                assert(l[i].0 == k);
            }
        }
        assert forall|i: int| 0 <= i < l.len() implies collected(l).contains_key((#[trigger] l[i]).0) by {
            if i < d.len() {
                assert(d[i] == l[i]);
            }
        }
    }
}

/// Whether `n` is `m` with another value for parameter `i` of the first `count` of
/// its domain.
spec fn changes_at(space: &ParamSpace, m: Assignment, n: Assignment, i: int, count: int) -> bool {
    exists|k: int| 0 <= k < count && #[trigger] is_move_at(space, m, n, i, k)
}

proof fn lemma_value_moves_are_distinct(space: &ParamSpace, m: Assignment, i: int, n: nat)
    requires
        space.active(m, i),
        n <= space.params@[i].domain@.len(),
        texts(space.params@[i].domain@).no_duplicates(),
    ensures
        value_moves(space, m, space.params@[i], n).no_duplicates(),
        forall|j: int|
            0 <= j < value_moves(space, m, space.params@[i], n).len() ==> changes_at(
                space,
                m,
                #[trigger] value_moves(space, m, space.params@[i], n)[j],
                i,
                n as int,
            ),
    decreases n,
{
    let p = space.params@[i];
    if n > 0 {
        lemma_value_moves_are_distinct(space, m, i, (n - 1) as nat);
        let shorter = value_moves(space, m, p, (n - 1) as nat);
        let longer = value_moves(space, m, p, n);
        let next = m.insert(p.name@, p.domain@[n - 1]@);
        assert forall|j: int| 0 <= j < longer.len() implies changes_at(
            space,
            m,
            #[trigger] longer[j],
            i,
            n as int,
        ) by {
            if j < shorter.len() {
                assert(longer[j] == shorter[j]);
                let k = choose|k: int| 0 <= k < n - 1 && #[trigger] is_move_at(space, m, shorter[j], i, k);
                assert(is_move_at(space, m, longer[j], i, k));
            } else {
                assert(is_move_at(space, m, next, i, n - 1));
            }
        }
        if longer.len() > shorter.len() {
            assert forall|j: int| 0 <= j < shorter.len() implies shorter[j] != next by {
                let k = choose|k: int| 0 <= k < n - 1 && #[trigger] is_move_at(space, m, shorter[j], i, k);
                let values = texts(p.domain@);
                assert(values[k] == p.domain@[k]@ && values[n - 1] == p.domain@[n - 1]@);
                assert(shorter[j][p.name@] == p.domain@[k]@);
                assert(next[p.name@] == p.domain@[n - 1]@);
            }
        }
    }
}

proof fn lemma_param_moves_are_distinct(space: &ParamSpace, m: Assignment, n: nat)
    requires
        n <= space.active_indices(m).len(),
        has_distinct_names(space),
        has_distinct_values(space),
    ensures
        param_moves(space, m, n).no_duplicates(),
        forall|j: int|
            0 <= j < param_moves(space, m, n).len() ==> changes_one_of(
                space,
                m,
                #[trigger] param_moves(space, m, n)[j],
                n as int,
            ),
    decreases n,
{
    lemma_chosen(space.activity(m), space.params@.len() as int);
    lemma_chosen_increase(space.activity(m), space.params@.len() as int);
    if n > 0 {
        let m1 = (n - 1) as nat;
        lemma_param_moves_are_distinct(space, m, m1);
        let indices = space.active_indices(m);
        let i = indices[n - 1];
        let p = space.params@[i];
        assert(space.activity(m)[i]);
        assert(texts(p.domain@).no_duplicates());
        lemma_value_moves_are_distinct(space, m, i, p.domain@.len());
        let shorter = param_moves(space, m, m1);
        let here = value_moves(space, m, p, p.domain@.len());
        let longer = param_moves(space, m, n);
        assert forall|j: int| 0 <= j < longer.len() implies changes_one_of(
            space,
            m,
            #[trigger] longer[j],
            n as int,
        ) by {
            if j < shorter.len() {
                assert(longer[j] == shorter[j]);
                let (c, k) = choose|c: int, k: int|
                    0 <= c < m1 && #[trigger] is_move_at(space, m, shorter[j], indices[c], k);
                assert(is_move_at(space, m, longer[j], indices[c], k));
            } else {
                assert(longer[j] == here[j - shorter.len()]);
                let k = choose|k: int|
                    0 <= k < p.domain@.len() && #[trigger] is_move_at(space, m, here[j - shorter.len()], i, k);
                assert(is_move_at(space, m, longer[j], indices[n - 1], k));
            }
        }
        assert forall|a: int, b: int| 0 <= a < shorter.len() && 0 <= b < here.len() implies shorter[a] != here[b] by {
            let (c, k) = choose|c: int, k: int|
                0 <= c < m1 && #[trigger] is_move_at(space, m, shorter[a], indices[c], k);
            let l = choose|l: int| 0 <= l < p.domain@.len() && #[trigger] is_move_at(space, m, here[b], i, l);
            let q = space.params@[indices[c]];
            assert(space.activity(m)[indices[c]]);
            assert(indices[c] < indices[n - 1]);
            assert(q.name@ != p.name@);
            assert(shorter[a].contains_key(q.name@) && shorter[a][q.name@] == q.domain@[k]@);
            if here[b] == shorter[a] {
                assert(m.contains_key(q.name@));
                assert(here[b][q.name@] == m[q.name@]);
            }
        }
        assert forall|a: int, b: int| 0 <= a < longer.len() && 0 <= b < longer.len() && a != b implies longer[a]
            != longer[b] by {
            let s = shorter.len() as int;
            assert(a < s ==> longer[a] == shorter[a]);
            assert(b < s ==> longer[b] == shorter[b]);
            assert(a >= s ==> longer[a] == here[a - s]);
            assert(b >= s ==> longer[b] == here[b - s]);
        }
    }
}

spec fn changes_one_of(space: &ParamSpace, m: Assignment, n: Assignment, count: int) -> bool {
    exists|c: int, k: int| 0 <= c < count && #[trigger] is_move_at(space, m, n, space.active_indices(m)[c], k)
}

proof fn lemma_chosen_increase(s: Seq<bool>, n: int)
    requires
        0 <= n <= s.len(),
    ensures
        forall|a: int, b: int|
            0 <= a < b < chosen_upto(s, n).len() ==> (#[trigger] chosen_upto(s, n)[a]) < (
            #[trigger] chosen_upto(s, n)[b]),
    decreases n,
{
    if n > 0 {
        lemma_chosen_increase(s, n - 1);
        lemma_chosen(s, n - 1);
        let d = chosen_upto(s, n - 1);
        let c = chosen_upto(s, n);
        assert forall|a: int, b: int| 0 <= a < b < c.len() implies (#[trigger] c[a]) < (#[trigger] c[b]) by {
            assert(c[a] == d[a]);
            assert(d[a] < n - 1);
            if b < d.len() {
                assert(c[b] == d[b]);
            }
        }
    }
}

/// Whether no two parameters have one name.
pub open spec fn has_distinct_names(space: &ParamSpace) -> bool {
    forall|i: int, j: int|
        0 <= i < j < space.params@.len() ==> (#[trigger] space.params@[i]).name@ != (
        #[trigger] space.params@[j]).name@
}

/// Whether no domain holds a value twice.
pub open spec fn has_distinct_values(space: &ParamSpace) -> bool {
    forall|i: int| 0 <= i < space.params@.len() ==> texts((#[trigger] space.params@[i]).domain@).no_duplicates()
}

/// No configuration is a neighbour twice over, where names and values are distinct.
pub proof fn lemma_neighbours_are_distinct(space: &ParamSpace, m: Assignment)
    requires
        has_distinct_names(space),
        has_distinct_values(space),
    ensures
        neighbours(space, m).no_duplicates(),
{
    lemma_param_moves_are_distinct(space, m, space.active_indices(m).len());
}

} // verus!
