//! Configurations: finite maps from parameter names to values.

use crate::text::{before, is_before, lemma_before_asymmetric, lemma_before_total, lemma_before_transitive};
use vstd::prelude::*;

verus! {

/// A configuration as a mathematical map from name to value.
pub type Assignment = Map<Seq<char>, Seq<char>>;

/// A list of name and value pairs, by the texts that they hold.
pub open spec fn pair_views(pairs: Seq<(String, String)>) -> Seq<(Seq<char>, Seq<char>)> {
    pairs.map_values(|p: (String, String)| (p.0@, p.1@))
}

/// Whether the names of a list of pairs are strictly increasing.
pub open spec fn increasing(l: Seq<(Seq<char>, Seq<char>)>) -> bool {
    forall|i: int, j: int| 0 <= i < j < l.len() ==> before((#[trigger] l[i]).0, (#[trigger] l[j]).0)
}

/// Whether `l` holds exactly the pairs of `m`, by increasing name.
pub open spec fn lists(m: Assignment, l: Seq<(Seq<char>, Seq<char>)>) -> bool {
    &&& increasing(l)
    &&& forall|i: int|
        0 <= i < l.len() ==> m.contains_key((#[trigger] l[i]).0) && m[l[i].0] == l[i].1
    &&& forall|k: Seq<char>|
        m.contains_key(k) ==> exists|i: int| 0 <= i < l.len() && (#[trigger] l[i]).0 == k
}

/// The pairs of `m` by increasing name.
pub open spec fn listing(m: Assignment) -> Seq<(Seq<char>, Seq<char>)> {
    choose|l: Seq<(Seq<char>, Seq<char>)>| lists(m, l)
}

/// The map that holds the pairs of a list; of two pairs with one name the later counts.
pub open spec fn collected(l: Seq<(Seq<char>, Seq<char>)>) -> Assignment
    decreases l.len(),
{
    if l.len() == 0 {
        Map::empty()
    } else {
        collected(l.drop_last()).insert(l.last().0, l.last().1)
    }
}

/// Whether no name occurs twice in a list of pairs.
pub open spec fn distinct_names(l: Seq<(Seq<char>, Seq<char>)>) -> bool {
    forall|i: int, j: int| 0 <= i < j < l.len() ==> (#[trigger] l[i]).0 != (#[trigger] l[j]).0
}

proof fn lemma_collected_of_distinct(l: Seq<(Seq<char>, Seq<char>)>)
    requires
        distinct_names(l),
    ensures
        forall|i: int|
            0 <= i < l.len() ==> collected(l).contains_key((#[trigger] l[i]).0) && collected(l)[l[i].0]
                == l[i].1,
        forall|k: Seq<char>| #[trigger]
            collected(l).contains_key(k) ==> l.contains((k, collected(l)[k])),
    decreases l.len(),
{
    if l.len() > 0 {
        let d = l.drop_last();
        lemma_collected_of_distinct(d);
        let c = collected(l);
        assert forall|i: int| 0 <= i < l.len() implies c.contains_key((#[trigger] l[i]).0) && c[l[i].0]
            == l[i].1 by {
            if i < d.len() {
                assert(d[i] == l[i]);
                assert(l[i].0 != l[l.len() - 1].0);
            }
        }
        assert forall|k: Seq<char>| #[trigger] c.contains_key(k) implies l.contains((k, c[k])) by {
            if k == l.last().0 {
                assert(l[l.len() - 1] == (k, c[k]));
            } else {
                assert(collected(d).contains_key(k) && collected(d)[k] == c[k]);
                assert(d.contains((k, c[k])));
                let i = choose|i: int| 0 <= i < d.len() && d[i] == (k, c[k]);
                assert(l[i] == (k, c[k]));
            }
        }
    }
}

/// A configuration does not depend on the order in which its pairs are given.
pub proof fn lemma_order_is_irrelevant(a: Seq<(Seq<char>, Seq<char>)>, b: Seq<(Seq<char>, Seq<char>)>)
    requires
        distinct_names(a),
        distinct_names(b),
        forall|x: (Seq<char>, Seq<char>)| a.contains(x) <==> b.contains(x),
    ensures
        collected(a) == collected(b),
{
    lemma_collected_of_distinct(a);
    lemma_collected_of_distinct(b);
    lemma_collected_within(a, b);
    lemma_collected_within(b, a);
    assert(collected(a) =~= collected(b));
}

proof fn lemma_collected_within(a: Seq<(Seq<char>, Seq<char>)>, b: Seq<(Seq<char>, Seq<char>)>)
    requires
        distinct_names(a),
        distinct_names(b),
        forall|x: (Seq<char>, Seq<char>)| a.contains(x) ==> b.contains(x),
    ensures
        forall|k: Seq<char>| #[trigger]
            collected(a).contains_key(k) ==> collected(b).contains_key(k) && collected(b)[k] == collected(
                a,
            )[k],
{
    lemma_collected_of_distinct(a);
    lemma_collected_of_distinct(b);
    assert forall|k: Seq<char>| #[trigger] collected(a).contains_key(k) implies collected(
        b,
    ).contains_key(k) && collected(b)[k] == collected(a)[k] by {
        let x = (k, collected(a)[k]);
        assert(a.contains(x));
        assert(b.contains(x));
        let i = choose|i: int| 0 <= i < b.len() && b[i] == x;
        assert(b[i].0 == k);
    }
}

/// Only one list holds exactly the pairs of a map by increasing name.
pub proof fn lemma_listing_unique(m: Assignment, a: Seq<(Seq<char>, Seq<char>)>, b: Seq<(Seq<char>, Seq<char>)>)
    requires
        lists(m, a),
        lists(m, b),
    ensures
        a == b,
        listing(m) == a,
{
    lemma_lists_agree(m, a, b);
    let c = listing(m);
    lemma_lists_agree(m, c, a);
}

proof fn lemma_lists_agree(m: Assignment, a: Seq<(Seq<char>, Seq<char>)>, b: Seq<(Seq<char>, Seq<char>)>)
    requires
        lists(m, a),
        lists(m, b),
    ensures
        a == b,
{
    lemma_lists_prefix(m, a, b, a.len() as int);
    lemma_lists_prefix(m, b, a, b.len() as int);
    assert(a =~= b);
}

proof fn lemma_lists_prefix(m: Assignment, a: Seq<(Seq<char>, Seq<char>)>, b: Seq<(Seq<char>, Seq<char>)>, n: int)
    requires
        lists(m, a),
        lists(m, b),
        0 <= n <= a.len(),
    ensures
        n <= b.len(),
        forall|i: int| 0 <= i < n ==> a[i] == b[i],
    decreases n,
{
    if n > 0 {
        let k = n - 1;
        lemma_lists_prefix(m, a, b, k);
        assert(m.contains_key(a[k].0));
        let j = choose|j: int| 0 <= j < b.len() && (#[trigger] b[j]).0 == a[k].0;
        assert(0 <= j < b.len() && b[j].0 == a[k].0);
        if j < k {
            assert(a[j] == b[j]);
            assert(before(a[j].0, a[k].0));
            lemma_before_asymmetric(a[j].0, a[k].0);
        }
        assert(m.contains_key(b[k].0));
        let i = choose|i: int| 0 <= i < a.len() && (#[trigger] a[i]).0 == b[k].0;
        assert(0 <= i < a.len() && a[i].0 == b[k].0);
        if i < k {
            assert(a[i] == b[i]);
            assert(before(b[i].0, b[k].0));
            lemma_before_asymmetric(b[i].0, b[k].0);
        }
        if j > k {
            assert(before(b[k].0, b[j].0));
            if i > k {
                assert(before(a[k].0, a[i].0));
                lemma_before_asymmetric(a[k].0, a[i].0);
            } else {
                lemma_before_asymmetric(b[k].0, b[j].0);
            }
        }
    }
}

/// A configuration: parameter names with their values, each name once.
#[derive(Debug, PartialEq, Eq)]
pub struct Config {
    pairs: Vec<(String, String)>,
}

impl View for Config {
    type V = Assignment;

    closed spec fn view(&self) -> Assignment {
        collected(pair_views(self.pairs@))
    }
}

/// Appends a copy of a pair.
pub fn push_pair(out: &mut Vec<(String, String)>, name: &String, value: &String)
    ensures
        pair_views(final(out)@) == pair_views(old(out)@).push((name@, value@)),
{
    let ghost prev = pair_views(out@);
    out.push((name.clone(), value.clone()));
    assert(pair_views(out@) =~= prev.push((name@, value@)));
}

proof fn lemma_collected_lists(l: Seq<(Seq<char>, Seq<char>)>)
    requires
        increasing(l),
    ensures
        lists(collected(l), l),
    decreases l.len(),
{
    if l.len() > 0 {
        let d = l.drop_last();
        let m = collected(d);
        assert forall|i: int, j: int| 0 <= i < j < d.len() implies before(
            (#[trigger] d[i]).0,
            (#[trigger] d[j]).0,
        ) by {
            assert(before(l[i].0, l[j].0));
        }
        lemma_collected_lists(d);
        let c = collected(l);
        assert forall|i: int| 0 <= i < l.len() implies c.contains_key((#[trigger] l[i]).0) && c[l[i].0]
            == l[i].1 by {
            if i < d.len() {
                assert(d[i] == l[i]);
                assert(before(l[i].0, l.last().0));
                lemma_before_asymmetric(l[i].0, l.last().0);
            }
        }
        assert forall|k: Seq<char>| c.contains_key(k) implies exists|i: int|
            0 <= i < l.len() && (#[trigger] l[i]).0 == k by {
            if k == l.last().0 {
                assert(l[l.len() - 1].0 == k);
            } else {
                assert(m.contains_key(k));
                let i = choose|i: int| 0 <= i < d.len() && (#[trigger] d[i]).0 == k;
                assert(l[i].0 == k);
            }
        }
    }
}

/// The map that holds the pairs of a list is finite.
pub proof fn lemma_collected_is_finite(l: Seq<(Seq<char>, Seq<char>)>)
    ensures
        collected(l).dom().finite(),
    decreases l.len(),
{
    if l.len() > 0 {
        lemma_collected_is_finite(l.drop_last());
    }
}

/// Whether the first `i` of the first `n` names of a list, and no others of them,
/// come before `name`.
spec fn is_place(l: Seq<(Seq<char>, Seq<char>)>, name: Seq<char>, n: int, i: int) -> bool {
    &&& 0 <= i <= n
    &&& forall|j: int| 0 <= j < i ==> before((#[trigger] l[j]).0, name)
    &&& forall|j: int| i <= j < n ==> !before((#[trigger] l[j]).0, name)
}

proof fn lemma_place(l: Seq<(Seq<char>, Seq<char>)>, name: Seq<char>, n: int) -> (i: int)
    requires
        increasing(l),
        0 <= n <= l.len(),
    ensures
        is_place(l, name, n, i),
    decreases n,
{
    if n == 0 {
        0
    } else {
        let i = lemma_place(l, name, n - 1);
        let last = l[n - 1].0;
        if !before(last, name) {
            i
        } else {
            if i < n - 1 {
                assert(before(l[i].0, last));
                lemma_before_transitive(l[i].0, last, name);
            }
            n
        }
    }
}

/// Every finite map is listed by its listing.
pub proof fn lemma_finite_is_listed(m: Assignment)
    requires
        m.dom().finite(),
    ensures
        lists(m, listing(m)),
    decreases m.dom().len(),
{
    if m.dom().len() == 0 {
        assert(m.dom() =~= Set::empty());
        assert forall|k: Seq<char>| m.contains_key(k) implies false by {
            assert(m.dom().contains(k));
        }
        assert(lists(m, Seq::empty()));
    } else {
        let name = m.dom().choose();
        assert(m.dom().contains(name));
        let rest = m.remove(name);
        lemma_finite_is_listed(rest);
        let l = listing(rest);
        let at = lemma_place(l, name, l.len() as int);
        let r = l.insert(at, (name, m[name]));
        assert(forall|j: int| 0 <= j < at ==> #[trigger] r[j] == l[j]);
        assert(forall|j: int| at < j < r.len() ==> #[trigger] r[j] == l[j - 1]);
        assert forall|j: int| at <= j < l.len() implies before(name, (#[trigger] l[j]).0) by {
            assert(rest.contains_key(l[j].0));
            lemma_before_total(name, l[j].0);
        }
        assert forall|a: int, b: int| 0 <= a < b < r.len() implies before(
            (#[trigger] r[a]).0,
            (#[trigger] r[b]).0,
        ) by {
            let qa = if a < at { a } else { a - 1 };
            let qb = if b < at { b } else { b - 1 };
            if a != at && b != at {
                assert(before(l[qa].0, l[qb].0));
            } else if a == at {
                assert(before(name, l[qb].0));
            } else {
                assert(before(l[qa].0, name));
            }
        }
        assert forall|i: int| 0 <= i < r.len() implies m.contains_key((#[trigger] r[i]).0) && m[r[i].0]
            == r[i].1 by {
            if i != at {
                let q = if i < at { i } else { i - 1 };
                assert(rest.contains_key(l[q].0));
            }
        }
        assert forall|k: Seq<char>| m.contains_key(k) implies exists|i: int|
            0 <= i < r.len() && (#[trigger] r[i]).0 == k by {
            if k == name {
                assert(r[at].0 == k);
            } else {
                assert(rest.contains_key(k));
                let x = choose|x: int| 0 <= x < l.len() && (#[trigger] l[x]).0 == k;
                assert(r[if x < at { x } else { x + 1 }].0 == k);
            }
        }
        assert(lists(m, r));
    }
}

/// The pairs of a finite map, collected, make the map.
pub proof fn lemma_listing_collects(m: Assignment)
    requires
        m.dom().finite(),
    ensures
        collected(listing(m)) == m,
{
    lemma_finite_is_listed(m);
    let l = listing(m);
    lemma_collected_lists(l);
    let c = collected(l);
    assert forall|k: Seq<char>| m.contains_key(k) <==> c.contains_key(k) by {
        if m.contains_key(k) {
            let i = choose|i: int| 0 <= i < l.len() && (#[trigger] l[i]).0 == k;
            assert(c.contains_key(l[i].0));
        }
        if c.contains_key(k) {
            let i = choose|i: int| 0 <= i < l.len() && (#[trigger] l[i]).0 == k;
            assert(m.contains_key(l[i].0));
        }
    }
    assert forall|k: Seq<char>| m.contains_key(k) implies m[k] == c[k] by {
        let i = choose|i: int| 0 <= i < l.len() && (#[trigger] l[i]).0 == k;
        assert(m[l[i].0] == l[i].1 && c[l[i].0] == l[i].1);
    }
    assert(c =~= m);
}

impl Config {
    #[verifier::type_invariant]
    spec fn sorted(&self) -> bool {
        increasing(pair_views(self.pairs@))
    }

    /// The empty configuration.
    pub fn new() -> (c: Config)
        ensures
            c@ == Map::<Seq<char>, Seq<char>>::empty(),
    {
        let c = Config { pairs: Vec::new() };
        assert(pair_views(c.pairs@).len() == 0);
        c
    }

    /// The pairs of the configuration by increasing name.
    pub fn pairs(&self) -> (r: &Vec<(String, String)>)
        ensures
            lists(self@, pair_views(r@)),
            listing(self@) == pair_views(r@),
            self@.dom().finite(),
    {
        proof {
            use_type_invariant(self);
            lemma_collected_is_finite(pair_views(self.pairs@));
            lemma_collected_lists(pair_views(self.pairs@));
            lemma_listing_unique(self@, pair_views(self.pairs@), pair_views(self.pairs@));
        }
        &self.pairs
    }

    /// The number of names that the configuration assigns.
    pub fn len(&self) -> (n: usize)
        ensures
            n == listing(self@).len(),
    {
        self.pairs().len()
    }

    /// The value of a name, if it has one.
    pub fn get(&self, name: &str) -> (r: Option<&String>)
        ensures
            match r {
                Some(v) => self@.contains_key(name@) && self@[name@] == v@,
                None => !self@.contains_key(name@),
            },
    {
        let pairs = self.pairs();
        let ghost l = pair_views(pairs@);
        for i in 0..pairs.len()
            invariant
                l == pair_views(pairs@),
                lists(self@, l),
                forall|j: int| 0 <= j < i ==> (#[trigger] l[j]).0 != name@,
        {
            assert(l[i as int] == (pairs@[i as int].0@, pairs@[i as int].1@));
            if crate::text::same_text(pairs[i].0.as_str(), name) {
                return Some(&pairs[i].1);
            }
        }
        None
    }

    /// Gives a name a value, in place of the value that it had.
    pub fn insert(&mut self, name: String, value: String)
        ensures
            final(self)@ == old(self)@.insert(name@, value@),
    {
        let ghost m = self@;
        let ghost target = m.insert(name@, value@);
        let pairs = self.pairs();
        let ghost l = pair_views(pairs@);
        let mut out: Vec<(String, String)> = Vec::new();
        let mut i: usize = 0;
        while i < pairs.len() && is_before(pairs[i].0.as_str(), name.as_str())
            invariant
                i <= pairs.len(),
                l == pair_views(pairs@),
                lists(m, l),
                pair_views(out@) == l.take(i as int),
                forall|j: int| 0 <= j < i ==> before((#[trigger] l[j]).0, name@),
            decreases pairs.len() - i,
        {
            assert(l[i as int] == (pairs@[i as int].0@, pairs@[i as int].1@));
            push_pair(&mut out, &pairs[i].0, &pairs[i].1);
            assert(pair_views(out@) =~= l.take(i + 1));
            i += 1;
        }
        let ghost split = i as int;
        let ghost name_view = name@;
        let ghost entry = (name@, value@);
        if i < pairs.len() {
            assert(l[i as int] == (pairs@[i as int].0@, pairs@[i as int].1@));
            if crate::text::same_text(pairs[i].0.as_str(), name.as_str()) {
                i += 1;
            }
        }
        let ghost resume = i as int;
        out.push((name, value));
        let ghost head = l.take(split).push(entry);
        assert(pair_views(out@) =~= head);
        assert(head + l.subrange(resume, resume) =~= head);
        while i < pairs.len()
            invariant
                resume <= i <= pairs.len(),
                l == pair_views(pairs@),
                0 <= resume <= l.len(),
                pair_views(out@) == head + l.subrange(resume, i as int),
            decreases pairs.len() - i,
        {
            assert(l[i as int] == (pairs@[i as int].0@, pairs@[i as int].1@));
            push_pair(&mut out, &pairs[i].0, &pairs[i].1);
            assert(pair_views(out@) =~= head + l.subrange(resume, i + 1));
            i += 1;
        }
        let ghost r = pair_views(out@);
        proof {
            assert(r.len() == split + 1 + (l.len() - resume));
            assert forall|j: int| resume <= j < l.len() implies before(name_view, (#[trigger] l[j]).0) by {
                lemma_before_total(name_view, l[split].0);
                if split < j {
                    assert(before(l[split].0, l[j].0));
                    if before(name_view, l[split].0) {
                        lemma_before_transitive(name_view, l[split].0, l[j].0);
                    }
                }
            }
            assert(forall|j: int| 0 <= j < split ==> #[trigger] r[j] == l[j]);
            assert(r[split] == entry);
            assert(forall|j: int| split < j < r.len() ==> #[trigger] r[j] == l[j - split - 1 + resume]);
            assert forall|a: int, b: int| 0 <= a < b < r.len() implies before(
                (#[trigger] r[a]).0,
                (#[trigger] r[b]).0,
            ) by {
                let qa = if a < split { a } else { a - split - 1 + resume };
                let qb = if b < split { b } else { b - split - 1 + resume };
                if a != split && b != split {
                    assert(before(l[qa].0, l[qb].0));
                } else if a == split {
                    assert(before(name_view, l[qb].0));
                } else {
                    assert(before(l[a].0, name_view));
                }
            }
            assert(increasing(r));
            lemma_collected_lists(r);
            let c = collected(r);
            assert forall|k: Seq<char>| #[trigger] c.contains_key(k) implies target.contains_key(k)
                && c[k] == target[k] by {
                let x = choose|x: int| 0 <= x < r.len() && (#[trigger] r[x]).0 == k;
                assert(r[x].0 == k && c[k] == r[x].1);
                if x < split {
                    assert(before(l[x].0, name_view));
                    lemma_before_asymmetric(l[x].0, name_view);
                    assert(m[l[x].0] == l[x].1);
                } else if x > split {
                    let y = x - split - 1 + resume;
                    assert(before(name_view, l[y].0));
                    lemma_before_asymmetric(name_view, l[y].0);
                    assert(m[l[y].0] == l[y].1);
                }
            }
            assert forall|k: Seq<char>| #[trigger] target.contains_key(k) implies c.contains_key(k) by {
                if k == name_view {
                    assert(r[split].0 == k);
                } else {
                    assert(m.contains_key(k));
                    let x = choose|x: int| 0 <= x < l.len() && (#[trigger] l[x]).0 == k;
                    assert(l[x].0 == k);
                    if x < split {
                        assert(r[x].0 == k);
                    } else {
                        assert(x >= resume);
                        assert(r[x + split + 1 - resume].0 == k);
                    }
                }
            }
            assert(c =~= target);
        }
        *self = Config { pairs: out };
    }

    /// The configuration that holds the given pairs; of two pairs with one name
    /// the later counts.
    pub fn from_pairs(pairs: &Vec<(String, String)>) -> (c: Config)
        ensures
            c@ == collected(pair_views(pairs@)),
    {
        let mut c = Config::new();
        for i in 0..pairs.len()
            invariant
                c@ == collected(pair_views(pairs@).take(i as int)),
        {
            let ghost l = pair_views(pairs@);
            assert(l.take(i + 1).drop_last() =~= l.take(i as int));
            assert(l.take(i + 1).last() == l[i as int]);
            c.insert(pairs[i].0.clone(), pairs[i].1.clone());
        }
        assert(pair_views(pairs@).take(pairs@.len() as int) =~= pair_views(pairs@));
        c
    }

    /// Whether two configurations assign the same values to the same names.
    pub fn same(&self, other: &Config) -> (r: bool)
        ensures
            r == (self@ == other@),
    {
        let a = self.pairs();
        let b = other.pairs();
        let ghost l = pair_views(a@);
        let ghost k = pair_views(b@);
        assert(l.len() == a@.len() && k.len() == b@.len());
        if a.len() != b.len() {
            return false;
        }
        for i in 0..a.len()
            invariant
                a.len() == b.len(),
                l == pair_views(a@),
                k == pair_views(b@),
                listing(self@) == l,
                listing(other@) == k,
                forall|j: int| 0 <= j < i ==> l[j] == k[j],
        {
            assert(l[i as int] == (a@[i as int].0@, a@[i as int].1@));
            assert(k[i as int] == (b@[i as int].0@, b@[i as int].1@));
            if !(a[i].0 == b[i].0 && a[i].1 == b[i].1) {
                return false;
            }
        }
        proof {
            assert(l =~= k);
            assert forall|n: Seq<char>| self@.contains_key(n) <==> other@.contains_key(n) by {
                if self@.contains_key(n) {
                    let i = choose|i: int| 0 <= i < l.len() && (#[trigger] l[i]).0 == n;
                    assert(k[i].0 == n);
                }
                if other@.contains_key(n) {
                    let i = choose|i: int| 0 <= i < k.len() && (#[trigger] k[i]).0 == n;
                    assert(l[i].0 == n);
                }
            }
            assert forall|n: Seq<char>| self@.contains_key(n) implies self@[n] == other@[n] by {
                let i = choose|i: int| 0 <= i < l.len() && (#[trigger] l[i]).0 == n;
                assert(l[i].0 == n && k[i].0 == n);
            }
            assert(self@ =~= other@);
        }
        true
    }
}

impl Clone for Config {
    fn clone(&self) -> (c: Config)
        ensures
            c@ == self@,
    {
        let mut out: Vec<(String, String)> = Vec::new();
        for i in 0..self.pairs.len()
            invariant
                pair_views(out@) == pair_views(self.pairs@).take(i as int),
        {
            push_pair(&mut out, &self.pairs[i].0, &self.pairs[i].1);
            assert(pair_views(out@) =~= pair_views(self.pairs@).take(i + 1));
        }
        proof {
            use_type_invariant(self);
            assert(pair_views(out@) =~= pair_views(self.pairs@));
        }
        Config { pairs: out }
    }
}

} // verus!
