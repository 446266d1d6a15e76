//! A collection fed by updates at logical times, and its sorted view once the
//! frontier has passed those times.
use vstd::prelude::*;
use crate::sort::{
    abs, has_support, hierarchical_sort_core, multiplicity, sorted_data, sorted_rows, update_abs_term, SortKey, key_le,
    update_term, volume, Update,
};
use crate::weights::{lemma_sum_of_nonneg, lemma_sum_of_permutation, lemma_sum_of_push, sum_of};

verus! {

broadcast use {vstd::seq_lib::group_to_multiset_ensures, vstd::multiset::group_multiset_axioms};

/// The bucket widths of the hierarchical sort, from `2^60` buckets down to one.
pub fn default_hierarchical_buckets() -> (r: Vec<u64>)
    ensures
        r@.len() == 16,
        forall|j: int| 0 <= j < 16 ==> r@[j] == 60 - 4 * j,
{
    let mut r: Vec<u64> = Vec::new();
    let mut b: u64 = 64;
    while b > 0
        invariant
            b <= 64,
            b % 4 == 0,
            r@.len() == (64 - b) / 4,
            forall|j: int| 0 <= j < r@.len() ==> r@[j] == 60 - 4 * j,
        decreases b,
    {
        b = b - 4;
        r.push(b);
    }
    r
}

/// What the collection shows once the frontier stands at `frontier`: the
/// sorted rows at the last time before it, or nothing while no time has passed.
pub open spec fn settled_rows<O: SortKey>(us: Seq<Update>, frontier: u64, rows: Seq<(u64, Vec<i64>)>) -> bool {
    if frontier == 0 {
        rows.len() == 0
    } else {
        sorted_rows::<O>(us, (frontier - 1) as u64, rows)
    }
}

/// A collection of `(key, datum)` records under construction: every update
/// is stamped with the current time, which only moves forward.
pub struct Collection {
    updates: Vec<Update>,
    time: u64,
    total: i64,
}

impl Collection {
    /// The updates received so far, in order of arrival.
    pub closed spec fn history(&self) -> Seq<Update> {
        self.updates@
    }

    /// The time that new updates are stamped with.
    pub closed spec fn now(&self) -> u64 {
        self.time
    }

    pub closed spec fn wf(&self) -> bool {
        &&& self.total == volume(self.updates@)
        &&& forall|i: int| 0 <= i < self.updates@.len() ==> self.updates@[i].time <= self.time
    }

    pub fn new() -> (c: Collection)
        ensures
            c.wf(),
            c.history() == Seq::<Update>::empty(),
            c.now() == 0,
    {
        Collection { updates: Vec::new(), time: 0, total: 0 }
    }

    pub fn time(&self) -> (t: u64)
        ensures
            t == self.now(),
    {
        self.time
    }

    /// The sum of the absolute diffs received so far.
    pub fn total_volume(&self) -> (v: i64)
        requires
            self.wf(),
        ensures
            v == volume(self.history()),
    {
        self.total
    }

    /// Adds `diff` copies of `(key, datum)` at the current time.
    pub fn update(&mut self, key: u64, datum: i64, diff: i64)
        requires
            old(self).wf(),
            volume(old(self).history()) + abs(diff as int) <= i64::MAX,
        ensures
            final(self).wf(),
            final(self).now() == old(self).now(),
            final(self).history() == old(self).history().push(
                Update { key, datum, time: old(self).now(), diff },
            ),
    {
        let u = Update { key, datum, time: self.time, diff };
        proof {
            lemma_sum_of_push(self.updates@, u, update_abs_term());
            lemma_sum_of_nonneg(self.updates@, update_abs_term());
        }
        let d: i64 = if diff < 0 {
            -diff
        } else {
            diff
        };
        self.total = self.total + d;
        self.updates.push(u);
    }

    /// Inserts one copy of `(key, datum)` at the current time.
    pub fn insert(&mut self, key: u64, datum: i64)
        requires
            old(self).wf(),
            volume(old(self).history()) < i64::MAX,
        ensures
            final(self).wf(),
            final(self).now() == old(self).now(),
            final(self).history() == old(self).history().push(
                Update { key, datum, time: old(self).now(), diff: 1 },
            ),
    {
        self.update(key, datum, 1);
    }

    /// Retracts one copy of `(key, datum)` at the current time.
    pub fn remove(&mut self, key: u64, datum: i64)
        requires
            old(self).wf(),
            volume(old(self).history()) < i64::MAX,
        ensures
            final(self).wf(),
            final(self).now() == old(self).now(),
            final(self).history() == old(self).history().push(
                Update { key, datum, time: old(self).now(), diff: -1i64 },
            ),
    {
        self.update(key, datum, -1);
    }

    /// Moves the current time forward to `time`; times never go back.
    pub fn advance_to(&mut self, time: u64)
        requires
            old(self).wf(),
            old(self).now() <= time,
        ensures
            final(self).wf(),
            final(self).now() == time,
            final(self).history() == old(self).history(),
    {
        self.time = time;
    }

    /// The collection sorted by datum within each key, through the given
    /// bucket widths, as it stands at the last time before the current one.
    pub fn hierarchical_sort_core<O: SortKey>(&self, _name: &str, buckets: &Vec<u64>) -> (rows: Vec<(u64, Vec<i64>)>)
        requires
            self.wf(),
            buckets@.len() > 0,
            buckets@.last() == 0,
            forall|i: int| 0 <= i < buckets@.len() ==> buckets@[i] < 64,
        ensures
            settled_rows::<O>(self.history(), self.now(), rows@),
    {
        if self.time == 0 {
            Vec::new()
        } else {
            hierarchical_sort_core::<O>(&self.updates, self.time - 1, buckets)
        }
    }

    /// Sorts through a single bucket per key.
    pub fn sort_by_named<O: SortKey>(&self, name: &str) -> (rows: Vec<(u64, Vec<i64>)>)
        requires
            self.wf(),
        ensures
            settled_rows::<O>(self.history(), self.now(), rows@),
    {
        let mut buckets: Vec<u64> = Vec::new();
        buckets.push(0);
        self.hierarchical_sort_core::<O>(name, &buckets)
    }

    pub fn sort_by<O: SortKey>(&self) -> (rows: Vec<(u64, Vec<i64>)>)
        requires
            self.wf(),
        ensures
            settled_rows::<O>(self.history(), self.now(), rows@),
    {
        self.sort_by_named::<O>("SortBy")
    }

    /// Sorts through the default hierarchy of buckets.
    pub fn hierarchical_sort_by_named<O: SortKey>(&self, name: &str) -> (rows: Vec<(u64, Vec<i64>)>)
        requires
            self.wf(),
        ensures
            settled_rows::<O>(self.history(), self.now(), rows@),
    {
        let buckets = default_hierarchical_buckets();
        self.hierarchical_sort_core::<O>(name, &buckets)
    }

    pub fn hierarchical_sort_by<O: SortKey>(&self) -> (rows: Vec<(u64, Vec<i64>)>)
        requires
            self.wf(),
        ensures
            settled_rows::<O>(self.history(), self.now(), rows@),
    {
        self.hierarchical_sort_by_named::<O>("HierarchicalSortBy")
    }
}

/// Two rows of sorted output are the same row.
pub open spec fn same_rows(r1: Seq<(u64, Vec<i64>)>, r2: Seq<(u64, Vec<i64>)>) -> bool {
    &&& r1.len() == r2.len()
    &&& forall|a: int| 0 <= a < r1.len() ==> r1[a].0 == r2[a].0 && r1[a].1@ == r2[a].1@
}

proof fn lemma_sorted_data_unique<O: SortKey>(a: Seq<i64>, b: Seq<i64>)
    requires
        sorted_data::<O>(a),
        sorted_data::<O>(b),
        a.to_multiset() == b.to_multiset(),
    ensures
        a == b,
    decreases a.len(),
{
    assert(a.len() == b.len()) by {
        assert(a.to_multiset().len() == a.len());
        assert(b.to_multiset().len() == b.len());
    }
    if a.len() > 0 {
        assert(a.contains(a[0]));
        assert(a.to_multiset().count(a[0]) > 0);
        assert(b.contains(a[0]));
        assert(b.contains(b[0]));
        assert(b.to_multiset().count(b[0]) > 0);
        assert(a.contains(b[0]));
        let i = choose|i: int| 0 <= i < b.len() && b[i] == a[0];
        let j = choose|j: int| 0 <= j < a.len() && a[j] == b[0];
        assert(key_le::<O>(b[0], b[i]));
        assert(key_le::<O>(a[0], a[j]));
        assert(a[0] == b[0]);
        assert(a.remove(0) =~= a.drop_first());
        assert(b.remove(0) =~= b.drop_first());
        assert(a.drop_first().to_multiset() == b.drop_first().to_multiset()) by {
            assert(a.remove(0).to_multiset() == a.to_multiset().remove(a[0]));
            assert(b.remove(0).to_multiset() == b.to_multiset().remove(b[0]));
        }
        assert(sorted_data::<O>(a.drop_first()));
        assert(sorted_data::<O>(b.drop_first()));
        lemma_sorted_data_unique::<O>(a.drop_first(), b.drop_first());
        assert(a =~= seq![a[0]] + a.drop_first());
        assert(b =~= seq![b[0]] + b.drop_first());
    }
}

pub open spec fn strictly_increasing(s: Seq<u64>) -> bool {
    forall|i: int, j: int| 0 <= i < j < s.len() ==> s[i] < s[j]
}

proof fn lemma_keys_unique(a: Seq<u64>, b: Seq<u64>)
    requires
        strictly_increasing(a),
        strictly_increasing(b),
        forall|k: u64| a.contains(k) <==> b.contains(k),
    ensures
        a == b,
    decreases a.len() + b.len(),
{
    if a.len() == 0 {
        if b.len() > 0 {
            assert(b.contains(b[0]));
        }
        assert(a =~= b);
    } else if b.len() == 0 {
        assert(a.contains(a[0]));
    } else {
        assert(a.contains(a[0]));
        assert(b.contains(b[0]));
        let i = choose|i: int| 0 <= i < b.len() && b[i] == a[0];
        let j = choose|j: int| 0 <= j < a.len() && a[j] == b[0];
        assert(b[0] <= a[0]);
        assert(a[0] <= b[0]);
        assert forall|k: u64| a.drop_first().contains(k) <==> b.drop_first().contains(k) by {
            if a.drop_first().contains(k) {
                let x = choose|x: int| 0 <= x < a.drop_first().len() && a.drop_first()[x] == k;
                assert(a[x + 1] == k);
                assert(k > a[0]);
                assert(b.contains(k));
                let y = choose|y: int| 0 <= y < b.len() && b[y] == k;
                assert(y > 0);
                assert(b.drop_first()[y - 1] == k);
            }
            if b.drop_first().contains(k) {
                let x = choose|x: int| 0 <= x < b.drop_first().len() && b.drop_first()[x] == k;
                assert(b[x + 1] == k);
                assert(k > b[0]);
                assert(a.contains(k));
                let y = choose|y: int| 0 <= y < a.len() && a[y] == k;
                assert(y > 0);
                assert(a.drop_first()[y - 1] == k);
            }
        }
        lemma_keys_unique(a.drop_first(), b.drop_first());
        assert(a =~= seq![a[0]] + a.drop_first());
        assert(b =~= seq![b[0]] + b.drop_first());
    }
}

/// The sorted rows depend on the multiplicities alone: two streams that
/// agree on every multiplicity at time `t` have the same rows at `t`.
pub proof fn lemma_rows_determined<O: SortKey>(
    s1: Seq<Update>,
    s2: Seq<Update>,
    t: u64,
    r1: Seq<(u64, Vec<i64>)>,
    r2: Seq<(u64, Vec<i64>)>,
)
    requires
        forall|k: u64, d: i64| multiplicity(s1, k, d, t) == multiplicity(s2, k, d, t),
        sorted_rows::<O>(s1, t, r1),
        sorted_rows::<O>(s2, t, r2),
    ensures
        same_rows(r1, r2),
{
    let ka = r1.map_values(|x: (u64, Vec<i64>)| x.0);
    let kb = r2.map_values(|x: (u64, Vec<i64>)| x.0);
    assert forall|k: u64| ka.contains(k) <==> kb.contains(k) by {
        if ka.contains(k) {
            let a = choose|a: int| 0 <= a < ka.len() && ka[a] == k;
            assert(has_support(s1, r1[a].0, t));
            let d = choose|d: i64| #[trigger] multiplicity(s1, k, d, t) != 0;
            assert(multiplicity(s2, k, d, t) != 0);
            let b = choose|b: int| 0 <= b < r2.len() && r2[b].0 == k;
            assert(kb[b] == k);
        }
        if kb.contains(k) {
            let b = choose|b: int| 0 <= b < kb.len() && kb[b] == k;
            assert(has_support(s2, r2[b].0, t));
            let d = choose|d: i64| #[trigger] multiplicity(s2, k, d, t) != 0;
            assert(multiplicity(s1, k, d, t) != 0);
            let a = choose|a: int| 0 <= a < r1.len() && r1[a].0 == k;
            assert(ka[a] == k);
        }
    }
    lemma_keys_unique(ka, kb);
    assert forall|a: int| 0 <= a < r1.len() implies r1[a].0 == r2[a].0 && r1[a].1@ == r2[a].1@ by {
        assert(ka[a] == kb[a]);
        assert(r1[a].1@.to_multiset() =~= r2[a].1@.to_multiset()) by {
            assert forall|d: i64| r1[a].1@.to_multiset().count(d) == r2[a].1@.to_multiset().count(
                d,
            ) by {
                assert(multiplicity(s1, r1[a].0, d, t) == multiplicity(s2, r2[a].0, d, t));
            }
        }
        assert(sorted_data::<O>(r1[a].1@));
        assert(sorted_data::<O>(r2[a].1@));
        lemma_sorted_data_unique::<O>(r1[a].1@, r2[a].1@);
    }
}

/// The order in which updates arrive does not matter: two streams holding
/// the same updates, in any order, are sorted into the same rows.
pub proof fn lemma_arrival_order_irrelevant<O: SortKey>(
    s1: Seq<Update>,
    s2: Seq<Update>,
    t: u64,
    r1: Seq<(u64, Vec<i64>)>,
    r2: Seq<(u64, Vec<i64>)>,
)
    requires
        s1.to_multiset() == s2.to_multiset(),
        sorted_rows::<O>(s1, t, r1),
        sorted_rows::<O>(s2, t, r2),
    ensures
        same_rows(r1, r2),
{
    assert forall|k: u64, d: i64| multiplicity(s1, k, d, t) == multiplicity(s2, k, d, t) by {
        lemma_sum_of_permutation(s1, s2, update_term(k, d, t));
    }
    lemma_rows_determined::<O>(s1, s2, t, r1, r2);
}

/// Inserting a record and then retracting it at the same time changes no
/// multiplicity, so the rows stay as they were before the pair.
pub proof fn lemma_insert_retract_cancels<O: SortKey>(
    s: Seq<Update>,
    key: u64,
    datum: i64,
    time: u64,
    t: u64,
    r1: Seq<(u64, Vec<i64>)>,
    r2: Seq<(u64, Vec<i64>)>,
)
    requires
        sorted_rows::<O>(s, t, r1),
        sorted_rows::<O>(
            s.push(Update { key, datum, time, diff: 1 }).push(Update { key, datum, time, diff: -1i64 }),
            t,
            r2,
        ),
    ensures
        same_rows(r1, r2),
{
    let ins = Update { key, datum, time, diff: 1 };
    let ret = Update { key, datum, time, diff: -1i64 };
    let s2 = s.push(ins).push(ret);
    assert forall|k: u64, d: i64| multiplicity(s, k, d, t) == multiplicity(s2, k, d, t) by {
        lemma_sum_of_push(s, ins, update_term(k, d, t));
        lemma_sum_of_push(s.push(ins), ret, update_term(k, d, t));
    }
    lemma_rows_determined::<O>(s, s2, t, r1, r2);
}

pub open spec fn count_term(k: u64, t: u64) -> spec_fn(Update) -> int {
    |u: Update|
        if u.key == k && u.time <= t {
            u.diff as int
        } else {
            0
        }
}

/// The number of records under key `k` at time `t`, data of every kind
/// counted with their multiplicities.
pub open spec fn key_count(us: Seq<Update>, k: u64, t: u64) -> int {
    sum_of(us, count_term(k, t))
}

impl Collection {
    /// The count of records under `key` at the last time before the current
    /// one (zero while no time has passed).
    pub fn count_total(&self, key: u64) -> (n: i64)
        requires
            self.wf(),
        ensures
            self.now() == 0 ==> n == 0,
            self.now() > 0 ==> n == key_count(self.history(), key, (self.now() - 1) as u64),
    {
        if self.time == 0 {
            return 0;
        }
        let t = self.time - 1;
        let mut n: i64 = 0;
        let mut i: usize = 0;
        proof {
            lemma_volume_prefix(self.updates@, 0);
        }
        while i < self.updates.len()
            invariant
                0 <= i <= self.updates.len(),
                self.wf(),
                n == key_count(self.updates@.subrange(0, i as int), key, t),
                abs(n as int) <= volume(self.updates@.subrange(0, i as int)),
                volume(self.updates@.subrange(0, i as int)) <= volume(self.updates@),
            decreases self.updates.len() - i,
        {
            let u = self.updates[i];
            let ghost prefix = self.updates@.subrange(0, i as int);
            proof {
                assert(self.updates@.subrange(0, i + 1) =~= prefix.push(u));
                lemma_sum_of_push(prefix, u, count_term(key, t));
                lemma_sum_of_push(prefix, u, update_abs_term());
                lemma_volume_prefix(self.updates@, i + 1);
            }
            if u.key == key && u.time <= t {
                n = n + u.diff;
            }
            i += 1;
            proof {
                if i < self.updates.len() {
                    lemma_volume_prefix(self.updates@, i as int);
                }
            }
        }
        proof {
            assert(self.updates@.subrange(0, self.updates@.len() as int) =~= self.updates@);
        }
        n
    }
}

proof fn lemma_volume_prefix(s: Seq<Update>, n: int)
    requires
        0 <= n <= s.len(),
    ensures
        volume(s.subrange(0, n)) <= volume(s),
    decreases s.len() - n,
{
    if n < s.len() {
        lemma_volume_prefix(s, n + 1);
        assert(s.subrange(0, n + 1) =~= s.subrange(0, n).push(s[n]));
        lemma_sum_of_push(s.subrange(0, n), s[n], update_abs_term());
    } else {
        assert(s.subrange(0, n) =~= s);
    }
}

/// With insertions only, a count never falls as time moves on.
pub proof fn lemma_count_monotone(s: Seq<Update>, k: u64, t1: u64, t2: u64)
    requires
        forall|i: int| 0 <= i < s.len() ==> s[i].diff >= 0,
        t1 <= t2,
    ensures
        key_count(s, k, t1) <= key_count(s, k, t2),
    decreases s.len(),
{
    if s.len() > 0 {
        lemma_count_monotone(s.drop_last(), k, t1, t2);
        assert(s[s.len() - 1].diff >= 0);
    }
}

} // verus!
