//! Parameter spaces: parameters with finite domains, conditions under which a
//! parameter takes part, and forbidden combinations of values.

pub use crate::config::Config;

use crate::config::{collected, pair_views, push_pair, Assignment};
use crate::text::{contains_text, same_text, texts};
use vstd::prelude::*;

verus! {

/// A single parameter: its name, ordered domain, default, and optional condition.
#[derive(Clone, Debug)]
pub struct Param {
    pub name: String,
    pub domain: Vec<String>,
    pub default: String,
    pub condition: Option<Condition>,
}

/// The condition `parent in {val1, val2}` of a parameter.
#[derive(Clone, Debug)]
pub struct Condition {
    pub parent: String,
    pub allowed_values: Vec<String>,
}

/// A forbidden combination: pairs of name and value that must not all hold together.
pub type Forbidden = Vec<(String, String)>;

/// A parameter space.
#[derive(Debug)]
pub struct ParamSpace {
    pub params: Vec<Param>,
    pub forbidden: Vec<Forbidden>,
}

impl Default for ParamSpace {
    fn default() -> (s: ParamSpace)
        ensures
            s.params@.len() == 0,
            s.forbidden@.len() == 0,
    {
        ParamSpace { params: Vec::new(), forbidden: Vec::new() }
    }
}

/// A condition by the texts that it holds.
pub struct ConditionView {
    pub parent: Seq<char>,
    pub allowed_values: Seq<Seq<char>>,
}

/// A parameter by the texts that it holds.
pub struct ParamView {
    pub name: Seq<char>,
    pub domain: Seq<Seq<char>>,
    pub default: Seq<char>,
    pub condition: Option<ConditionView>,
}

/// A parameter space by the texts that it holds.
pub struct SpaceView {
    pub params: Seq<ParamView>,
    pub forbidden: Seq<Seq<(Seq<char>, Seq<char>)>>,
}

impl View for Condition {
    type V = ConditionView;

    open spec fn view(&self) -> ConditionView {
        ConditionView { parent: self.parent@, allowed_values: texts(self.allowed_values@) }
    }
}

impl View for Param {
    type V = ParamView;

    open spec fn view(&self) -> ParamView {
        ParamView {
            name: self.name@,
            domain: texts(self.domain@),
            default: self.default@,
            condition: match self.condition {
                Some(c) => Some(c@),
                None => None,
            },
        }
    }
}

impl View for ParamSpace {
    type V = SpaceView;

    open spec fn view(&self) -> SpaceView {
        SpaceView {
            params: self.params@.map_values(|p: Param| p@),
            forbidden: self.forbidden@.map_values(|c: Forbidden| pair_views(c@)),
        }
    }
}

/// Whether `m` gives every name of the combination the value listed with it.
pub open spec fn matches_all(m: Assignment, combo: Seq<(Seq<char>, Seq<char>)>) -> bool {
    forall|i: int|
        0 <= i < combo.len() ==> m.contains_key((#[trigger] combo[i]).0) && m[combo[i].0]
            == combo[i].1
}

/// The number of `true` entries.
pub open spec fn count_true(s: Seq<bool>) -> nat
    decreases s.len(),
{
    if s.len() == 0 {
        0
    } else {
        count_true(s.drop_last()) + if s.last() {
            1nat
        } else {
            0nat
        }
    }
}

proof fn lemma_count_true_clear(s: Seq<bool>, i: int)
    requires
        0 <= i < s.len(),
        s[i],
    ensures
        count_true(s.update(i, false)) + 1 == count_true(s),
    decreases s.len(),
{
    let u = s.update(i, false);
    if i == s.len() - 1 {
        assert(u.drop_last() =~= s.drop_last());
    } else {
        assert(u.drop_last() =~= s.drop_last().update(i, false));
        lemma_count_true_clear(s.drop_last(), i);
    }
}

/// The indices at which an entry is `true`.
pub open spec fn set_of(s: Seq<bool>) -> Set<int> {
    Set::new(|k: int| 0 <= k < s.len() && s[k])
}

/// The indices of the `true` entries among the first `n`, in order.
pub open spec fn chosen_upto(s: Seq<bool>, n: int) -> Seq<int>
    decreases n,
{
    if n <= 0 {
        Seq::empty()
    } else if s[n - 1] {
        chosen_upto(s, n - 1).push(n - 1)
    } else {
        chosen_upto(s, n - 1)
    }
}

/// The indices in `s` are within the first `n`, increasing, and those at which
/// an entry is `true`.
pub proof fn lemma_chosen(s: Seq<bool>, n: int)
    requires
        0 <= n <= s.len(),
    ensures
        forall|k: int|
            0 <= k < chosen_upto(s, n).len() ==> 0 <= #[trigger] chosen_upto(s, n)[k] < n
                && s[chosen_upto(s, n)[k]],
        forall|i: int| 0 <= i < n && #[trigger] s[i] ==> chosen_upto(s, n).contains(i),
    decreases n,
{
    if n > 0 {
        lemma_chosen(s, n - 1);
        let c = chosen_upto(s, n);
        let d = chosen_upto(s, n - 1);
        assert forall|i: int| 0 <= i < n && #[trigger] s[i] implies c.contains(i) by {
            if i == n - 1 {
                assert(c[c.len() - 1] == i);
            } else {
                assert(d.contains(i));
                let k = choose|k: int| 0 <= k < d.len() && d[k] == i;
                assert(c[k] == i);
            }
        }
    }
}

impl ParamSpace {
    /// Whether parameter `i` may take part in `m` if the parameters of `s` do:
    /// it has no condition, or one of `s` is its parent and the parent's value
    /// is allowed.
    pub open spec fn supported(&self, m: Assignment, s: Set<int>, i: int) -> bool {
        match self.params@[i].condition {
            None => true,
            Some(c) => {
                &&& exists|j: int| #[trigger] s.contains(j) && self.params@[j].name@ == c.parent@
                &&& m.contains_key(c.parent@)
                &&& texts(c.allowed_values@).contains(m[c.parent@])
            },
        }
    }

    /// Whether `s` is a set of parameters each of which `s` supports.
    pub open spec fn sustained(&self, m: Assignment, s: Set<int>) -> bool {
        forall|i: int| #[trigger]
            s.contains(i) ==> 0 <= i < self.params@.len() && self.supported(m, s, i)
    }

    /// Whether parameter `i` is active in `m`: it belongs to some sustained set.
    pub open spec fn active(&self, m: Assignment, i: int) -> bool {
        exists|s: Set<int>| #[trigger] self.sustained(m, s) && s.contains(i)
    }

    /// Which parameters are active in `m`, one entry for each parameter.
    pub open spec fn activity(&self, m: Assignment) -> Seq<bool> {
        Seq::new(self.params@.len(), |i: int| self.active(m, i))
    }

    /// The indices of the parameters that are active in `m`, in order.
    pub open spec fn active_indices(&self, m: Assignment) -> Seq<int> {
        chosen_upto(self.activity(m), self.params@.len() as int)
    }

    /// Whether a parameter of that name is active in `m`.
    pub open spec fn active_name(&self, m: Assignment, name: Seq<char>) -> bool {
        exists|i: int| #[trigger] self.active(m, i) && self.params@[i].name@ == name
    }

    /// The active projection of `m`: its values for the names of active parameters.
    pub open spec fn projected(&self, m: Assignment) -> Assignment {
        Map::new(
            |name: Seq<char>| m.contains_key(name) && self.active_name(m, name),
            |name: Seq<char>| m[name],
        )
    }

    /// Whether `m` holds all pairs of some forbidden combination.
    pub open spec fn forbids(&self, m: Assignment) -> bool {
        exists|c: int|
            0 <= c < self.forbidden@.len() && matches_all(
                m,
                pair_views(#[trigger] self.forbidden@[c]@),
            )
    }

    /// Whether the active projection of `m` holds no forbidden combination.
    pub open spec fn legal(&self, m: Assignment) -> bool {
        !self.forbids(self.projected(m))
    }

    /// Whether every parameter has a value to take.
    pub open spec fn inhabited(&self) -> bool {
        forall|i: int| 0 <= i < self.params@.len() ==> (#[trigger] self.params@[i]).domain@.len() > 0
    }

    /// The names of the parameters with their defaults, in order.
    pub open spec fn default_pairs(&self) -> Seq<(Seq<char>, Seq<char>)> {
        self.params@.map_values(|p: Param| (p.name@, p.default@))
    }

    /// An active parameter is one of the space's, and the active parameters
    /// support it.
    pub proof fn lemma_active_is_supported(&self, m: Assignment, i: int)
        requires
            self.active(m, i),
        ensures
            0 <= i < self.params@.len(),
            self.supported(m, Set::new(|j: int| self.active(m, j)), i),
    {
        let s = choose|s: Set<int>| #[trigger] self.sustained(m, s) && s.contains(i);
        let all = Set::new(|j: int| self.active(m, j));
        assert forall|j: int| #[trigger] s.contains(j) implies all.contains(j) by {}
        assert(self.supported(m, s, i));
    }

    /// The active parameters form the greatest sustained set.
    pub proof fn lemma_active_is_greatest_sustained(&self, m: Assignment, s: Set<int>)
        requires
            self.sustained(m, s),
        ensures
            self.sustained(m, Set::new(|j: int| self.active(m, j))),
            s.subset_of(Set::new(|j: int| self.active(m, j))),
    {
        let all = Set::new(|j: int| self.active(m, j));
        assert forall|i: int| #[trigger] all.contains(i) implies 0 <= i < self.params@.len()
            && self.supported(m, all, i) by {
            self.lemma_active_is_supported(m, i);
        }
    }

    /// A parameter without condition is active in every configuration.
    pub proof fn lemma_unconditional_is_active(&self, m: Assignment, i: int)
        requires
            0 <= i < self.params@.len(),
            self.params@[i].condition is None,
        ensures
            self.active(m, i),
    {
        let s = Set::empty().insert(i);
        assert(self.sustained(m, s));
    }

    /// The same parameters are active in a configuration and in its active
    /// projection.
    pub proof fn lemma_projection_keeps_activity(&self, m: Assignment, i: int)
        ensures
            self.active(self.projected(m), i) <==> self.active(m, i),
    {
        let p = self.projected(m);
        if self.active(m, i) {
            let all = Set::new(|j: int| self.active(m, j));
            assert forall|k: int| #[trigger] all.contains(k) implies 0 <= k < self.params@.len()
                && self.supported(p, all, k) by {
                self.lemma_active_is_supported(m, k);
                if let Some(c) = self.params@[k].condition {
                    let j = choose|j: int| #[trigger]
                        all.contains(j) && self.params@[j].name@ == c.parent@;
                    assert(self.active(m, j));
                    assert(self.active_name(m, c.parent@));
                    assert(p.contains_key(c.parent@));
                }
            }
            assert(self.sustained(p, all));
        }
        if self.active(p, i) {
            let s = choose|s: Set<int>| #[trigger] self.sustained(p, s) && s.contains(i);
            assert forall|k: int| #[trigger] s.contains(k) implies 0 <= k < self.params@.len()
                && self.supported(m, s, k) by {
                assert(self.supported(p, s, k));
            }
            assert(self.sustained(m, s));
        }
    }

    /// Projecting a second time changes nothing.
    pub proof fn lemma_projection_idempotent(&self, m: Assignment)
        ensures
            self.projected(self.projected(m)) == self.projected(m),
            self.legal(self.projected(m)) <==> self.legal(m),
    {
        let p = self.projected(m);
        assert forall|name: Seq<char>| self.active_name(p, name) <==> self.active_name(m, name) by {
            if self.active_name(p, name) {
                let i = choose|i: int| #[trigger] self.active(p, i) && self.params@[i].name@ == name;
                self.lemma_projection_keeps_activity(m, i);
                assert(self.active(m, i));
            }
            if self.active_name(m, name) {
                let i = choose|i: int| #[trigger] self.active(m, i) && self.params@[i].name@ == name;
                self.lemma_projection_keeps_activity(m, i);
                assert(self.active(p, i));
            }
        }
        assert(self.projected(p) =~= p);
    }

    /// A value of a name that is inactive before and after does not show in the
    /// active projection.
    pub proof fn lemma_inactive_value_is_irrelevant(&self, m: Assignment, name: Seq<char>, value: Seq<char>)
        requires
            !self.active_name(m, name),
            !self.active_name(m.insert(name, value), name),
        ensures
            self.projected(m.insert(name, value)) == self.projected(m),
    {
        let n = m.insert(name, value);
        assert forall|i: int| self.active(m, i) implies self.active(n, i) by {
            self.lemma_activity_carries_over(m, n, name, i);
        }
        assert forall|i: int| self.active(n, i) implies self.active(m, i) by {
            self.lemma_activity_carries_over(n, m, name, i);
        }
        assert forall|k: Seq<char>| self.active_name(m, k) <==> self.active_name(n, k) by {
            if self.active_name(m, k) {
                let i = choose|i: int| #[trigger] self.active(m, i) && self.params@[i].name@ == k;
                assert(self.active(n, i));
            }
            if self.active_name(n, k) {
                let i = choose|i: int| #[trigger] self.active(n, i) && self.params@[i].name@ == k;
                assert(self.active(m, i));
            }
        }
        assert(self.projected(n) =~= self.projected(m));
    }

    proof fn lemma_activity_carries_over(&self, m: Assignment, n: Assignment, name: Seq<char>, i: int)
        requires
            !self.active_name(m, name),
            forall|k: Seq<char>| k != name ==> (m.contains_key(k) <==> n.contains_key(k)) && m[k] == n[k],
            self.active(m, i),
        ensures
            self.active(n, i),
    {
        let all = Set::new(|j: int| self.active(m, j));
        assert forall|k: int| #[trigger] all.contains(k) implies 0 <= k < self.params@.len()
            && self.supported(n, all, k) by {
            self.lemma_active_is_supported(m, k);
            if let Some(c) = self.params@[k].condition {
                let j = choose|j: int| #[trigger] all.contains(j) && self.params@[j].name@ == c.parent@;
                assert(self.active(m, j));
                assert(c.parent@ != name);
            }
        }
        assert(self.sustained(n, all));
    }

    /// Default configuration: every param at its default value.
    pub fn default_config(&self) -> (c: Config)
        ensures
            c@ == collected(self.default_pairs()),
    {
        let mut pairs: Vec<(String, String)> = Vec::new();
        for i in 0..self.params.len()
            invariant
                pair_views(pairs@) == self.default_pairs().take(i as int),
        {
            push_pair(&mut pairs, &self.params[i].name, &self.params[i].default);
            assert(pair_views(pairs@) =~= self.default_pairs().take(i + 1));
        }
        assert(self.default_pairs().take(self.params@.len() as int) =~= self.default_pairs());
        Config::from_pairs(&pairs)
    }

    /// For each parameter whether it is active in `config`.
    pub fn active_flags(&self, config: &Config) -> (r: Vec<bool>)
        ensures
            r@ == self.activity(config@),
    {
        let n: usize = self.params.len();
        let ghost m = config@;
        let mut active: Vec<bool> = Vec::new();
        for i in 0..n
            invariant
                active@.len() == i,
                forall|k: int| 0 <= k < i ==> active@[k],
        {
            active.push(true);
        }
        let mut changed = true;
        while changed
            invariant
                n == self.params@.len(),
                m == config@,
                active@.len() == n,
                forall|s: Set<int>, k: int| #[trigger]
                    self.sustained(m, s) && #[trigger] s.contains(k) ==> active@[k],
                !changed ==> self.sustained(m, set_of(active@)),
            decreases count_true(active@), (if changed { 1int } else { 0int }),
        {
            changed = false;
            let ghost at_start = active@;
            for i in 0..n
                invariant
                    n == self.params@.len(),
                    m == config@,
                    active@.len() == n,
                    forall|s: Set<int>, k: int| #[trigger]
                        self.sustained(m, s) && #[trigger] s.contains(k) ==> active@[k],
                    changed ==> count_true(active@) < count_true(at_start),
                    !changed ==> active@ == at_start && forall|k: int|
                        0 <= k < i && active@[k] ==> self.supported(
                            m,
                            set_of(at_start),
                            k,
                        ),
            {
                let ghost now = set_of(active@);
                if active[i] {
                    if let Some(cond) = &self.params[i].condition {
                        let holds = self.has_active_parent(&active, cond) && match config.get(
                            cond.parent.as_str(),
                        ) {
                            Some(v) => contains_text(&cond.allowed_values, v.as_str()),
                            None => false,
                        };
                        proof {
                            assert(holds <==> self.supported(m, now, i as int));
                        }
                        if !holds {
                            proof {
                                assert forall|s: Set<int>, k: int| #[trigger]
                                    self.sustained(m, s) && #[trigger] s.contains(k) implies k != i by {
                                    if k == i {
                                        assert(self.supported(m, s, k));
                                        let c = self.params@[k].condition->Some_0;
                                        let j = choose|j: int| #[trigger]
                                            s.contains(j) && self.params@[j].name@ == c.parent@;
                                        assert(now.contains(j));
                                    }
                                }
                                lemma_count_true_clear(active@, i as int);
                            }
                            active.set(i, false);
                            changed = true;
                        }
                    }
                }
                proof {
                    if !changed {
                        assert(now =~= set_of(at_start));
                    }
                }
            }
            proof {
                if !changed {
                    let now = set_of(active@);
                    assert(now =~= set_of(at_start));
                    assert(self.sustained(m, now));
                }
            }
        }
        proof {
            let now = set_of(active@);
            assert forall|k: int| 0 <= k < n implies active@[k] == self.active(m, k) by {
                if active@[k] {
                    assert(now.contains(k));
                }
            }
            assert(active@ =~= self.activity(m));
        }
        active
    }

    fn has_active_parent(&self, active: &Vec<bool>, cond: &Condition) -> (r: bool)
        requires
            active@.len() == self.params@.len(),
        ensures
            r == exists|j: int| #[trigger]
                set_of(active@).contains(j)
                    && self.params@[j].name@ == cond.parent@,
    {
        let ghost now = set_of(active@);
        for j in 0..self.params.len()
            invariant
                active@.len() == self.params@.len(),
                now == set_of(active@),
                forall|k: int| 0 <= k < j && active@[k] ==> self.params@[k].name@ != cond.parent@,
        {
            if active[j] && same_text(self.params[j].name.as_str(), cond.parent.as_str()) {
                assert(now.contains(j as int));
                return true;
            }
        }
        false
    }

    /// Return only params that are active for `config`, in the order of the space.
    ///
    /// A param is active when it has no condition, or when its parent param is
    /// also active and the parent's value is in the allowed set.
    pub fn active_params<'a>(&'a self, config: &Config) -> (r: Vec<&'a Param>)
        ensures
            r@.map_values(|p: &Param| *p) == self.active_indices(config@).map_values(
                |i: int| self.params@[i],
            ),
    {
        let flags = self.active_flags(config);
        let mut out: Vec<&'a Param> = Vec::new();
        let ghost f = self.activity(config@);
        for i in 0..self.params.len()
            invariant
                flags@ == f,
                f.len() == self.params@.len(),
                out@.map_values(|p: &Param| *p) == chosen_upto(f, i as int).map_values(
                    |i: int| self.params@[i],
                ),
        {
            let ghost prev = out@.map_values(|p: &Param| *p);
            if flags[i] {
                out.push(&self.params[i]);
                assert(out@.map_values(|p: &Param| *p) =~= prev.push(self.params@[i as int]));
            }
            assert(out@.map_values(|p: &Param| *p) =~= chosen_upto(f, i + 1).map_values(
                |i: int| self.params@[i],
            ));
        }
        out
    }

    /// Returns true if `config` matches any forbidden combination.
    pub fn is_forbidden(&self, config: &Config) -> (r: bool)
        ensures
            r == self.forbids(config@),
    {
        for c in 0..self.forbidden.len()
            invariant
                forall|d: int|
                    0 <= d < c ==> !matches_all(config@, pair_views(#[trigger] self.forbidden@[d]@)),
        {
            if holds_all(config, &self.forbidden[c]) {
                return true;
            }
        }
        false
    }

    /// The active projection of `config`: its values for active parameters.
    pub fn active_config(&self, config: &Config) -> (r: Config)
        ensures
            r@ == self.projected(config@),
    {
        let flags = self.active_flags(config);
        let mut out = Config::new();
        let ghost m = config@;
        for i in 0..self.params.len()
            invariant
                m == config@,
                flags@ == self.activity(m),
                forall|name: Seq<char>| #[trigger]
                    out@.contains_key(name) <==> m.contains_key(name) && exists|k: int|
                        0 <= k < i && self.active(m, k) && (#[trigger] self.params@[k]).name@ == name,
                forall|name: Seq<char>| #[trigger] out@.contains_key(name) ==> out@[name] == m[name],
        {
            let ghost prev = out@;
            let ghost here = self.params@[i as int].name@;
            if flags[i] {
                if let Some(v) = config.get(self.params[i].name.as_str()) {
                    out.insert(self.params[i].name.clone(), v.clone());
                }
            }
            assert forall|name: Seq<char>| #[trigger] out@.contains_key(name) <==> m.contains_key(name)
                && exists|k: int|
                0 <= k < i + 1 && self.active(m, k) && (#[trigger] self.params@[k]).name@ == name by {
                if prev.contains_key(name) {
                    let k = choose|k: int|
                        0 <= k < i && self.active(m, k) && (#[trigger] self.params@[k]).name@ == name;
                    assert(0 <= k < i + 1 && self.active(m, k) && self.params@[k].name@ == name);
                }
                if self.active(m, i as int) && here == name {
                    assert(self.params@[i as int].name@ == name);
                }
                if m.contains_key(name) && exists|k: int|
                    0 <= k < i + 1 && self.active(m, k) && (#[trigger] self.params@[k]).name@ == name {
                    let k = choose|k: int|
                        0 <= k < i + 1 && self.active(m, k) && (#[trigger] self.params@[k]).name@
                            == name;
                    if k < i {
                        assert(prev.contains_key(name));
                    }
                }
            }
        }
        proof {
            let p = self.projected(m);
            assert forall|name: Seq<char>| out@.contains_key(name) <==> p.contains_key(name) by {
                if out@.contains_key(name) {
                    let k = choose|k: int|
                        0 <= k < self.params@.len() && self.active(m, k)
                            && (#[trigger] self.params@[k]).name@ == name;
                    assert(self.active(m, k) && self.params@[k].name@ == name);
                    assert(self.active_name(m, name));
                }
                if p.contains_key(name) {
                    let k = choose|k: int| #[trigger]
                        self.active(m, k) && self.params@[k].name@ == name;
                    self.lemma_active_is_supported(m, k);
                    assert(self.params@[k].name@ == name);
                }
            }
            assert(out@ =~= p);
        }
        out
    }

    /// Whether every parameter has a value to take.
    pub fn is_inhabited(&self) -> (r: bool)
        ensures
            r == self.inhabited(),
    {
        for i in 0..self.params.len()
            invariant
                forall|k: int| 0 <= k < i ==> (#[trigger] self.params@[k]).domain@.len() > 0,
        {
            if self.params[i].domain.len() == 0 {
                return false;
            }
        }
        true
    }

    /// Whether the active projection of `config` holds no forbidden combination.
    pub fn is_legal(&self, config: &Config) -> (r: bool)
        ensures
            r == self.legal(config@),
    {
        !self.is_forbidden(&self.active_config(config))
    }
}

fn holds_all(config: &Config, combo: &Forbidden) -> (r: bool)
    ensures
        r == matches_all(config@, pair_views(combo@)),
{
    for i in 0..combo.len()
        invariant
            forall|j: int|
                0 <= j < i ==> config@.contains_key((#[trigger] pair_views(combo@)[j]).0)
                    && config@[pair_views(combo@)[j].0] == pair_views(combo@)[j].1,
    {
        assert(pair_views(combo@)[i as int] == (combo@[i as int].0@, combo@[i as int].1@));
        let same = match config.get(combo[i].0.as_str()) {
            Some(v) => same_text(v.as_str(), combo[i].1.as_str()),
            None => false,
        };
        if !same {
            return false;
        }
    }
    true
}

impl ParamSpace {
    /// A parameter with a condition is active exactly if its parent is active and
    /// has one of the allowed values.
    pub proof fn lemma_child_follows_its_parent(&self, m: Assignment, i: int)
        requires
            0 <= i < self.params@.len(),
            self.params@[i].condition is Some,
        ensures
            ({
                let c = self.params@[i].condition->Some_0;
                self.active(m, i) <==> {
                    &&& exists|j: int| #[trigger] self.active(m, j) && self.params@[j].name@ == c.parent@
                    &&& m.contains_key(c.parent@)
                    &&& exists|k: int|
                        0 <= k < c.allowed_values@.len() && (#[trigger] c.allowed_values@[k])@ == m[c.parent@]
                }
            }),
    {
        let c = self.params@[i].condition->Some_0;
        let all = Set::new(|j: int| self.active(m, j));
        if self.active(m, i) {
            self.lemma_active_is_supported(m, i);
            let j = choose|j: int| #[trigger] all.contains(j) && self.params@[j].name@ == c.parent@;
            assert(self.active(m, j));
            let k = choose|k: int|
                0 <= k < texts(c.allowed_values@).len() && texts(c.allowed_values@)[k] == m[c.parent@];
            assert(c.allowed_values@[k]@ == m[c.parent@]);
        }
        if {
            &&& exists|j: int| #[trigger] self.active(m, j) && self.params@[j].name@ == c.parent@
            &&& m.contains_key(c.parent@)
            &&& exists|k: int|
                0 <= k < c.allowed_values@.len() && (#[trigger] c.allowed_values@[k])@ == m[c.parent@]
        } {
            let j = choose|j: int| #[trigger] self.active(m, j) && self.params@[j].name@ == c.parent@;
            let k = choose|k: int|
                0 <= k < c.allowed_values@.len() && (#[trigger] c.allowed_values@[k])@ == m[c.parent@];
            assert(texts(c.allowed_values@)[k] == m[c.parent@]);
            let more = all.insert(i);
            assert forall|x: int| #[trigger] more.contains(x) implies 0 <= x < self.params@.len()
                && self.supported(m, more, x) by {
                if x == i {
                    assert(more.contains(j));
                } else {
                    self.lemma_active_is_supported(m, x);
                    if let Some(d) = self.params@[x].condition {
                        let y = choose|y: int| #[trigger] all.contains(y) && self.params@[y].name@ == d.parent@;
                        assert(more.contains(y));
                    }
                }
            }
            assert(self.sustained(m, more));
            assert(self.active(m, i));
        }
    }

    /// The active projection keeps exactly the values of names that an active
    /// parameter bears.
    pub proof fn lemma_projection_keeps_active_values(&self, m: Assignment, name: Seq<char>)
        ensures
            self.projected(m).contains_key(name) <==> m.contains_key(name) && exists|i: int| #[trigger]
                self.active(m, i) && self.params@[i].name@ == name,
            self.projected(m).contains_key(name) ==> self.projected(m)[name] == m[name],
    {
    }

    /// What holds every pair of a forbidden combination is forbidden; what differs
    /// from each combination in some pair is not.
    pub proof fn lemma_forbidden_exactly_by_a_whole_combination(&self, m: Assignment, c: int)
        requires
            0 <= c < self.forbidden@.len(),
        ensures
            (forall|i: int|
                0 <= i < self.forbidden@[c]@.len() ==> m.contains_key((#[trigger] self.forbidden@[c]@[i]).0@)
                    && m[self.forbidden@[c]@[i].0@] == self.forbidden@[c]@[i].1@) ==> self.forbids(m),
            !self.forbids(m) ==> exists|i: int|
                0 <= i < self.forbidden@[c]@.len() && !(m.contains_key(
                    (#[trigger] self.forbidden@[c]@[i]).0@,
                ) && m[self.forbidden@[c]@[i].0@] == self.forbidden@[c]@[i].1@),
    {
        let combo = self.forbidden@[c]@;
        let views = pair_views(combo);
        if forall|i: int|
            0 <= i < combo.len() ==> m.contains_key((#[trigger] combo[i]).0@) && m[combo[i].0@] == combo[i].1@ {
            assert forall|i: int| 0 <= i < views.len() implies m.contains_key((#[trigger] views[i]).0)
                && m[views[i].0] == views[i].1 by {
                assert(views[i] == (combo[i].0@, combo[i].1@));
            }
            assert(matches_all(m, views));
            assert(self.forbids(m));
        }
    }

    /// Nothing is forbidden but what holds every pair of some combination.
    pub proof fn lemma_only_whole_combinations_forbid(&self, m: Assignment)
        requires
            forall|c: int|
                0 <= c < self.forbidden@.len() ==> #[trigger] lacks_a_pair(m, self.forbidden@[c]@),
        ensures
            !self.forbids(m),
    {
        if self.forbids(m) {
            let c = choose|c: int|
                0 <= c < self.forbidden@.len() && matches_all(m, pair_views(#[trigger] self.forbidden@[c]@));
            let combo = self.forbidden@[c]@;
            assert(lacks_a_pair(m, combo));
            let i = choose|i: int|
                0 <= i < combo.len() && !(m.contains_key((#[trigger] combo[i]).0@) && m[combo[i].0@]
                    == combo[i].1@);
            assert(pair_views(combo)[i] == (combo[i].0@, combo[i].1@));
        }
    }

    /// Without a forbidden combination everything is legal, and with one more
    /// nothing becomes legal.
    pub proof fn lemma_forbidding_more_allows_less(&self, other: &ParamSpace, m: Assignment)
        requires
            other.params == self.params,
            self.forbidden@.is_prefix_of(other.forbidden@),
        ensures
            self.forbidden@.len() == 0 ==> self.legal(m),
            self.forbids(m) ==> other.forbids(m),
    {
        if self.forbids(m) {
            let c = choose|c: int|
                0 <= c < self.forbidden@.len() && matches_all(m, pair_views(#[trigger] self.forbidden@[c]@));
            assert(self.forbidden@[c] == other.forbidden@.subrange(0, self.forbidden@.len() as int)[c]);
            assert(other.forbidden@[c] == self.forbidden@[c]);
            assert(matches_all(m, pair_views(other.forbidden@[c]@)));
        }
    }

    /// The default configuration gives every parameter its default; of two
    /// parameters with one name the later counts.
    pub proof fn lemma_defaults_are_taken(&self, i: int)
        requires
            0 <= i < self.params@.len(),
            forall|j: int| i < j < self.params@.len() ==> (#[trigger] self.params@[j]).name@ != self.params@[i].name@,
        ensures
            collected(self.default_pairs()).contains_key(self.params@[i].name@),
            collected(self.default_pairs())[self.params@[i].name@] == self.params@[i].default@,
    {
        let l = self.default_pairs();
        assert(l[i] == (self.params@[i].name@, self.params@[i].default@));
        assert forall|j: int| i < j < l.len() implies (#[trigger] l[j]).0 != l[i].0 by {
            assert(l[j].0 == self.params@[j].name@);
        }
        lemma_last_pair_counts(l, i);
    }
}

/// Whether a configuration does not hold some pair of a combination.
pub open spec fn lacks_a_pair(m: Assignment, combo: Seq<(String, String)>) -> bool {
    exists|i: int|
        0 <= i < combo.len() && !(m.contains_key((#[trigger] combo[i]).0@) && m[combo[i].0@] == combo[i].1@)
}

proof fn lemma_last_pair_counts(l: Seq<(Seq<char>, Seq<char>)>, i: int)
    requires
        0 <= i < l.len(),
        forall|j: int| i < j < l.len() ==> (#[trigger] l[j]).0 != l[i].0,
    ensures
        collected(l).contains_key(l[i].0),
        collected(l)[l[i].0] == l[i].1,
    decreases l.len(),
{
    let d = l.drop_last();
    if i < d.len() {
        assert(d[i] == l[i]);
        assert forall|j: int| i < j < d.len() implies (#[trigger] d[j]).0 != d[i].0 by {
            assert(d[j] == l[j]);
        }
        lemma_last_pair_counts(d, i);
        assert(l[l.len() - 1].0 != l[i].0);
    }
}

} // verus!
