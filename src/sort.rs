//! Sorting the data of a collection, grouped by key, in a way that stays
//! correct under retractions: every datum carries a signed multiplicity, and
//! the sorted output repeats each datum as often as its total multiplicity.
use vstd::prelude::*;
use crate::weights::{
    lemma_sum_of_append, lemma_sum_of_nonneg, lemma_sum_of_permutation,
    lemma_sum_of_push, lemma_sum_of_remove, sum_of,
};

verus! {

broadcast use {vstd::seq_lib::group_to_multiset_ensures, vstd::multiset::group_multiset_axioms};

/// A datum together with its signed multiplicity.
pub type Entry = (i64, i64);

/// A list of entries handed to a bucket, with the multiplicity of the list itself.
pub type Group = (Vec<Entry>, i64);

pub open spec fn abs(x: int) -> int {
    if x < 0 {
        -x
    } else {
        x
    }
}

pub open spec fn datum_term(d: i64) -> spec_fn(Entry) -> int {
    |e: Entry|
        if e.0 == d {
            e.1 as int
        } else {
            0
        }
}

pub open spec fn abs_term() -> spec_fn(Entry) -> int {
    |e: Entry| abs(e.1 as int)
}

/// The total multiplicity of datum `d` in a list of entries.
pub open spec fn weight(s: Seq<Entry>, d: i64) -> int {
    sum_of(s, datum_term(d))
}

/// The sum of the absolute multiplicities of a list of entries.
pub open spec fn abs_weight(s: Seq<Entry>) -> int {
    sum_of(s, abs_term())
}

pub open spec fn group_term(d: i64) -> spec_fn(Group) -> int {
    |g: Group| g.1 * weight(g.0@, d)
}

pub open spec fn group_abs_term() -> spec_fn(Group) -> int {
    |g: Group| abs(g.1 as int) * abs_weight(g.0@)
}

/// The multiplicity of datum `d` once every list is flattened and its
/// multiplicities are multiplied by that of the list.
pub open spec fn group_weight(gs: Seq<Group>, d: i64) -> int {
    sum_of(gs, group_term(d))
}

pub open spec fn group_abs(gs: Seq<Group>) -> int {
    sum_of(gs, group_abs_term())
}

pub open spec fn group_len_term() -> spec_fn(Group) -> int {
    |g: Group| g.0@.len() as int
}

/// How many entries the lists of a bucket hold together.
pub open spec fn group_len(gs: Seq<Group>) -> int {
    sum_of(gs, group_len_term())
}

/// The order in which a sort lays out data: by a key computed from each
/// datum, ties broken by the datum itself.
pub trait SortKey {
    spec fn spec_key(d: i64) -> i64;

    fn key(d: i64) -> (k: i64)
        ensures
            k == Self::spec_key(d),
    ;
}

/// Data ordered by their own value.
pub struct ByValue;

impl SortKey for ByValue {
    open spec fn spec_key(d: i64) -> i64 {
        d
    }

    fn key(d: i64) -> (k: i64) {
        d
    }
}

/// Data ordered from the largest to the smallest.
pub struct Descending;

impl SortKey for Descending {
    open spec fn spec_key(d: i64) -> i64 {
        (-1 - d) as i64
    }

    fn key(d: i64) -> (k: i64) {
        -1 - d
    }
}

/// `a` comes strictly before `b`.
pub open spec fn key_lt<O: SortKey>(a: i64, b: i64) -> bool {
    O::spec_key(a) < O::spec_key(b) || (O::spec_key(a) == O::spec_key(b) && a < b)
}

pub open spec fn key_le<O: SortKey>(a: i64, b: i64) -> bool {
    key_lt::<O>(a, b) || a == b
}

proof fn lemma_key_trans<O: SortKey>(a: i64, b: i64, c: i64)
    requires
        key_le::<O>(a, b),
        key_le::<O>(b, c),
    ensures
        key_le::<O>(a, c),
        key_lt::<O>(a, b) || key_lt::<O>(b, c) ==> key_lt::<O>(a, c),
{
}

/// Data ascending, each datum at most once.
pub open spec fn strictly_sorted<O: SortKey>(s: Seq<Entry>) -> bool {
    forall|i: int, j: int| 0 <= i < j < s.len() ==> key_lt::<O>(s[i].0, s[j].0)
}

/// Data ascending, each datum at most once, and no entry with multiplicity zero.
pub open spec fn compacted<O: SortKey>(s: Seq<Entry>) -> bool {
    &&& strictly_sorted::<O>(s)
    &&& forall|i: int| 0 <= i < s.len() ==> s[i].1 != 0
}

/// Data in non-decreasing order of their keys.
pub open spec fn sorted_data<O: SortKey>(s: Seq<i64>) -> bool {
    forall|i: int, j: int| 0 <= i <= j < s.len() ==> key_le::<O>(s[i], s[j])
}

proof fn lemma_abs_weight_nonneg(s: Seq<Entry>)
    ensures
        abs_weight(s) >= 0,
{
    lemma_sum_of_nonneg(s, abs_term());
}

proof fn lemma_group_abs_nonneg(gs: Seq<Group>)
    ensures
        group_abs(gs) >= 0,
{
    assert forall|i: int| 0 <= i < gs.len() implies #[trigger] group_abs_term()(gs[i]) >= 0 by {
        lemma_abs_weight_nonneg(gs[i].0@);
        let a = abs(gs[i].1 as int);
        let b = abs_weight(gs[i].0@);
        assert(a * b >= 0) by (nonlinear_arith)
            requires
                a >= 0,
                b >= 0,
        ;
    }
    lemma_sum_of_nonneg(gs, group_abs_term());
}

/// A prefix of a list weighs no more, in absolute terms, than the whole.
proof fn lemma_abs_weight_prefix(s: Seq<Entry>, n: int)
    requires
        0 <= n <= s.len(),
    ensures
        abs_weight(s.subrange(0, n)) <= abs_weight(s),
{
    lemma_sum_of_append(s.subrange(0, n), s.subrange(n, s.len() as int), abs_term());
    assert(s.subrange(0, n) + s.subrange(n, s.len() as int) =~= s);
    lemma_abs_weight_nonneg(s.subrange(n, s.len() as int));
}

proof fn lemma_group_abs_prefix(gs: Seq<Group>, n: int)
    requires
        0 <= n <= gs.len(),
    ensures
        group_abs(gs.subrange(0, n)) <= group_abs(gs),
{
    lemma_sum_of_append(gs.subrange(0, n), gs.subrange(n, gs.len() as int), group_abs_term());
    assert(gs.subrange(0, n) + gs.subrange(n, gs.len() as int) =~= gs);
    lemma_group_abs_nonneg(gs.subrange(n, gs.len() as int));
}

/// The weight of a list taken up to `n + 1` is the weight up to `n` plus entry `n`.
proof fn lemma_prefix_step(s: Seq<Entry>, n: int)
    requires
        0 <= n < s.len(),
    ensures
        forall|d: i64| #[trigger]
            weight(s.subrange(0, n + 1), d) == weight(s.subrange(0, n), d) + datum_term(d)(s[n]),
        abs_weight(s.subrange(0, n + 1)) == abs_weight(s.subrange(0, n)) + abs(s[n].1 as int),
{
    assert(s.subrange(0, n + 1) =~= s.subrange(0, n).push(s[n]));
    assert forall|d: i64| #[trigger]
        weight(s.subrange(0, n + 1), d) == weight(s.subrange(0, n), d) + datum_term(d)(s[n]) by {
        lemma_sum_of_push(s.subrange(0, n), s[n], datum_term(d));
    }
    lemma_sum_of_push(s.subrange(0, n), s[n], abs_term());
}

/// Flattens the lists of a bucket, multiplying each entry's multiplicity by
/// that of its list.
fn flatten_groups(groups: &Vec<Group>) -> (flat: Vec<Entry>)
    requires
        group_abs(groups@) <= i64::MAX,
    ensures
        forall|d: i64| #[trigger] weight(flat@, d) == group_weight(groups@, d),
        abs_weight(flat@) == group_abs(groups@),
        flat@.len() == group_len(groups@),
{
    let mut flat: Vec<Entry> = Vec::new();
    let mut i: usize = 0;
    while i < groups.len()
        invariant
            0 <= i <= groups.len(),
            group_abs(groups@) <= i64::MAX,
            forall|d: i64| #[trigger]
                weight(flat@, d) == group_weight(groups@.subrange(0, i as int), d),
            abs_weight(flat@) == group_abs(groups@.subrange(0, i as int)),
            flat@.len() == group_len(groups@.subrange(0, i as int)),
        decreases groups.len() - i,
    {
        let list = &groups[i].0;
        let r = groups[i].1;
        let ghost before = flat@;
        let ghost ra = abs(r as int);
        proof {
            lemma_group_abs_prefix(groups@, i + 1);
            assert(groups@.subrange(0, i + 1) =~= groups@.subrange(0, i as int).push(groups@[i as int]));
            lemma_sum_of_push(groups@.subrange(0, i as int), groups@[i as int], group_abs_term());
            lemma_abs_weight_nonneg(list@);
            lemma_group_abs_nonneg(groups@.subrange(0, i as int));
        }
        let mut j: usize = 0;
        while j < list.len()
            invariant
                0 <= j <= list.len(),
                i < groups.len(),
                list@ == groups@[i as int].0@,
                r == groups@[i as int].1,
                ra == abs(r as int),
                ra * abs_weight(list@) + group_abs(groups@.subrange(0, i as int)) <= i64::MAX,
                group_abs(groups@.subrange(0, i as int)) >= 0,
                forall|d: i64| #[trigger]
                    weight(flat@, d) == weight(before, d) + r * weight(list@.subrange(0, j as int), d),
                abs_weight(flat@) == abs_weight(before) + ra * abs_weight(list@.subrange(0, j as int)),
                abs_weight(before) == group_abs(groups@.subrange(0, i as int)),
                flat@.len() == before.len() + j,
                before.len() == group_len(groups@.subrange(0, i as int)),
            decreases list.len() - j,
        {
            let x = list[j].0;
            let m = list[j].1;
            proof {
                lemma_prefix_step(list@, j as int);
                lemma_abs_weight_prefix(list@, j + 1);
                lemma_abs_weight_nonneg(list@.subrange(0, j as int));
                let am = abs(m as int);
                let p = abs_weight(list@.subrange(0, j as int));
                let w = abs_weight(list@);
                assert(ra * (p + am) <= ra * w) by (nonlinear_arith)
                    requires
                        ra >= 0,
                        p + am <= w,
                ;
                assert(abs(r as int * m as int) == ra * am) by (nonlinear_arith)
                    requires
                        ra == abs(r as int),
                        am == abs(m as int),
                ;
                assert(ra * p >= 0) by (nonlinear_arith)
                    requires
                        ra >= 0,
                        p >= 0,
                ;
                assert(ra * (p + am) == ra * p + ra * am) by (nonlinear_arith);
            }
            let e: Entry = (x, r * m);
            proof {
                lemma_sum_of_push(flat@, e, abs_term());
                assert forall|d: i64| #[trigger] weight(flat@.push(e), d) == weight(before, d) + r
                    * weight(list@.subrange(0, j + 1), d) by {
                    lemma_sum_of_push(flat@, e, datum_term(d));
                    let w0 = weight(list@.subrange(0, j as int), d);
                    let t = datum_term(d)(list@[j as int]);
                    assert(weight(list@.subrange(0, j + 1), d) == w0 + t);
                    assert(datum_term(d)(e) == r * t);
                    assert(weight(flat@, d) == weight(before, d) + r * w0);
                    assert(weight(flat@.push(e), d) == weight(flat@, d) + datum_term(d)(e));
                    assert(r * (w0 + t) == r * w0 + r * t) by (nonlinear_arith);
                }
                let p = abs_weight(list@.subrange(0, j as int));
                let am = abs(m as int);
                assert(ra * (p + am) == ra * p + ra * am) by (nonlinear_arith);
            }
            flat.push(e);
            j += 1;
        }
        proof {
            assert(list@.subrange(0, list@.len() as int) =~= list@);
            lemma_sum_of_push(groups@.subrange(0, i as int), groups@[i as int], group_len_term());
            assert forall|d: i64| #[trigger]
                weight(flat@, d) == group_weight(groups@.subrange(0, i + 1), d) by {
                lemma_sum_of_push(groups@.subrange(0, i as int), groups@[i as int], group_term(d));
            }
        }
        i += 1;
    }
    proof {
        assert(groups@.subrange(0, groups@.len() as int) =~= groups@);
    }
    flat
}

/// Relies on `slice::sort_unstable_by_key` with a tuple key, which tuples
/// order lexicographically: the entries are reordered so that the pairs
/// (key of the datum, datum) ascend.
#[verifier::external_body]
fn sort_entries_by_key<O: SortKey>(v: &mut Vec<Entry>)
    ensures
        final(v)@.to_multiset() == old(v)@.to_multiset(),
        forall|i: int, j: int| 0 <= i <= j < final(v)@.len() ==> key_le::<O>(final(v)@[i].0, final(v)@[j].0),
{
    v.sort_unstable_by_key(|e| (O::key(e.0), e.0));
}

/// Walks a list whose data ascend, sums the multiplicities of equal data and
/// drops the data whose multiplicity sums to zero.
fn compact<O: SortKey>(s: &Vec<Entry>) -> (out: Vec<Entry>)
    requires
        forall|i: int, j: int| 0 <= i <= j < s@.len() ==> key_le::<O>(s@[i].0, s@[j].0),
        abs_weight(s@) <= i64::MAX,
    ensures
        compacted::<O>(out@),
        forall|d: i64| #[trigger] weight(out@, d) == weight(s@, d),
        abs_weight(out@) <= abs_weight(s@),
        out@.len() <= s@.len(),
{
    let mut out: Vec<Entry> = Vec::new();
    let mut i: usize = 0;
    let mut has = false;
    let mut cur_d: i64 = 0;
    let mut cur: i64 = 0;
    while i < s.len()
        invariant
            0 <= i <= s.len(),
            forall|a: int, b: int| 0 <= a <= b < s@.len() ==> key_le::<O>(s@[a].0, s@[b].0),
            abs_weight(s@) <= i64::MAX,
            compacted::<O>(out@),
            has ==> i > 0 && s@[i - 1].0 == cur_d,
            has ==> forall|k: int| 0 <= k < out@.len() ==> key_lt::<O>(out@[k].0, cur_d),
            has || (i == 0 && out@.len() == 0),
            forall|d: i64| #[trigger]
                weight(s@.subrange(0, i as int), d) == weight(out@, d) + (if has && d == cur_d {
                    cur as int
                } else {
                    0
                }),
            abs_weight(out@) + abs(cur as int) <= abs_weight(s@.subrange(0, i as int)),
            out@.len() + (if has {
                1int
            } else {
                0int
            }) <= i,
        decreases s.len() - i,
    {
        let x = s[i].0;
        let m = s[i].1;
        proof {
            lemma_prefix_step(s@, i as int);
            lemma_abs_weight_prefix(s@, i + 1);
            lemma_abs_weight_nonneg(out@);
        }
        if has && x == cur_d {
            cur = cur + m;
        } else {
            proof {
                if has {
                    assert(key_le::<O>(s@[i - 1].0, s@[i as int].0));
                    assert(key_lt::<O>(cur_d, x));
                    assert forall|k: int| 0 <= k < out@.len() implies key_lt::<O>(out@[k].0, x) by {
                        lemma_key_trans::<O>(out@[k].0, cur_d, x);
                    }
                }
            }
            if has && cur != 0 {
                let e: Entry = (cur_d, cur);
                proof {
                    lemma_sum_of_push(out@, e, abs_term());
                    assert forall|d: i64| #[trigger] weight(out@.push(e), d) == weight(out@, d) + (
                    if d == cur_d {
                        cur as int
                    } else {
                        0
                    }) by {
                        lemma_sum_of_push(out@, e, datum_term(d));
                    }
                }
                out.push(e);
            }
            cur_d = x;
            cur = m;
            has = true;
        }
        i += 1;
    }
    if has && cur != 0 {
        let e: Entry = (cur_d, cur);
        proof {
            lemma_sum_of_push(out@, e, abs_term());
            assert forall|d: i64| #[trigger] weight(out@.push(e), d) == weight(out@, d) + (if d
                == cur_d {
                cur as int
            } else {
                0
            }) by {
                lemma_sum_of_push(out@, e, datum_term(d));
            }
        }
        out.push(e);
    }
    proof {
        assert(s@.subrange(0, s@.len() as int) =~= s@);
    }
    out
}

/// The work of one bucket: flattens its lists, multiplying multiplicities
/// through, sorts the result by datum and compacts it.
pub fn sort_bucket<O: SortKey>(groups: &Vec<Group>) -> (out: Vec<Entry>)
    requires
        group_abs(groups@) <= i64::MAX,
    ensures
        compacted::<O>(out@),
        forall|d: i64| #[trigger] weight(out@, d) == group_weight(groups@, d),
        abs_weight(out@) <= group_abs(groups@),
        out@.len() <= group_len(groups@),
{
    let mut data = flatten_groups(groups);
    let ghost flat = data@;
    sort_entries_by_key::<O>(&mut data);
    proof {
        lemma_sum_of_permutation(flat, data@, abs_term());
        assert forall|d: i64| #[trigger] weight(data@, d) == weight(flat, d) by {
            lemma_sum_of_permutation(flat, data@, datum_term(d));
        }
        assert(data@.len() == flat.len()) by {
            assert(data@.to_multiset().len() == data@.len());
            assert(flat.to_multiset().len() == flat.len());
        }
    }
    compact::<O>(&data)
}

/// The part of a multiplicity that materialises as copies: none for a
/// datum whose multiplicity is zero or negative.
pub open spec fn copies(w: int) -> int {
    if w > 0 {
        w
    } else {
        0
    }
}

proof fn lemma_weight_absent(s: Seq<Entry>, d: i64)
    requires
        forall|k: int| 0 <= k < s.len() ==> s[k].0 != d,
    ensures
        weight(s, d) == 0,
    decreases s.len(),
{
    if s.len() > 0 {
        lemma_weight_absent(s.drop_last(), d);
        assert(s[s.len() - 1].0 != d);
    }
}

/// Writes out each datum of a compacted list as many times as its
/// multiplicity says; a datum whose multiplicity is negative is left out.
pub fn expand<O: SortKey>(list: &Vec<Entry>) -> (out: Vec<i64>)
    requires
        compacted::<O>(list@),
    ensures
        sorted_data::<O>(out@),
        forall|d: i64| #[trigger] out@.to_multiset().count(d) == copies(weight(list@, d)),
{
    let mut out: Vec<i64> = Vec::new();
    let mut i: usize = 0;
    while i < list.len()
        invariant
            0 <= i <= list.len(),
            compacted::<O>(list@),
            sorted_data::<O>(out@),
            i > 0 ==> forall|k: int| 0 <= k < out@.len() ==> key_le::<O>(out@[k], list@[i - 1].0),
            i == 0 ==> out@.len() == 0,
            forall|d: i64| #[trigger]
                out@.to_multiset().count(d) == copies(weight(list@.subrange(0, i as int), d)),
        decreases list.len() - i,
    {
        let x = list[i].0;
        let m = list[i].1;
        proof {
            lemma_prefix_step(list@, i as int);
            assert forall|k: int| 0 <= k < i implies #[trigger] list@.subrange(0, i as int)[k].0 != x by {
                assert(key_lt::<O>(list@[k].0, list@[i as int].0));
            }
            lemma_weight_absent(list@.subrange(0, i as int), x);
        }
        let ghost base = out@;
        proof {
            if i > 0 {
                assert(key_lt::<O>(list@[i - 1].0, list@[i as int].0));
                assert forall|k: int| 0 <= k < base.len() implies key_lt::<O>(base[k], x) by {
                    lemma_key_trans::<O>(base[k], list@[i - 1].0, x);
                }
            }
        }
        assert(forall|d: i64| #[trigger]
            base.to_multiset().count(d) == copies(weight(list@.subrange(0, i as int), d)));
        let mut c: i64 = 0;
        while c < m
            invariant
                0 <= c,
                m > 0 ==> c <= m,
                m < 0 ==> c == 0,
                i < list.len(),
                x == list@[i as int].0,
                m == list@[i as int].1,
                m != 0,
                base.len() <= out@.len(),
                out@.subrange(0, base.len() as int) == base,
                forall|k: int| base.len() <= k < out@.len() ==> out@[k] == x,
                forall|k: int| 0 <= k < base.len() ==> key_lt::<O>(base[k], x),
                sorted_data::<O>(base),
                forall|d: i64| d != x ==> #[trigger] out@.to_multiset().count(d) == base.to_multiset().count(d),
                out@.to_multiset().count(x) == base.to_multiset().count(x) + c,
                forall|d: i64| #[trigger]
                    base.to_multiset().count(d) == copies(weight(list@.subrange(0, i as int), d)),
                weight(list@.subrange(0, i as int), x) == 0,
            decreases m - c,
        {
            proof {
                assert(out@.push(x).to_multiset() == out@.to_multiset().insert(x));
            }
            out.push(x);
            c += 1;
        }
        proof {
            assert forall|a: int, b: int| 0 <= a <= b < out@.len() implies key_le::<O>(out@[a], out@[b]) by {
                if b >= base.len() {
                    if a < base.len() {
                        assert(out@[a] == base[a]);
                    }
                } else {
                    assert(out@[a] == base[a] && out@[b] == base[b]);
                }
            }
            assert forall|k: int| 0 <= k < out@.len() implies key_le::<O>(out@[k], list@[i as int].0) by {
                if k < base.len() {
                    assert(out@[k] == base[k]);
                }
            }
            assert forall|d: i64| #[trigger]
                out@.to_multiset().count(d) == copies(weight(list@.subrange(0, i + 1), d)) by {
                if d != x {
                    assert(datum_term(d)(list@[i as int]) == 0);
                } else {
                    assert(m > 0 ==> c == m);
                    assert(m < 0 ==> c == 0);
                    assert(base.to_multiset().count(x) == 0);
                    assert(weight(list@.subrange(0, i + 1), x) == m);
                }
            }
        }
        i += 1;
    }
    proof {
        assert(list@.subrange(0, list@.len() as int) =~= list@);
    }
    out
}

/// A record between two levels of the sort: the hash that places it in a
/// bucket, the key it is grouped under, its entries, and its multiplicity.
pub struct Bucketed {
    pub hash: u64,
    pub key: u64,
    pub entries: Vec<Entry>,
    pub diff: i64,
}

pub open spec fn record_term(k: u64, d: i64) -> spec_fn(Bucketed) -> int {
    |r: Bucketed|
        if r.key == k {
            r.diff * weight(r.entries@, d)
        } else {
            0
        }
}

pub open spec fn record_abs_term() -> spec_fn(Bucketed) -> int {
    |r: Bucketed| abs(r.diff as int) * abs_weight(r.entries@)
}

/// The multiplicity of datum `d` under key `k` across a set of records.
pub open spec fn key_weight(rs: Seq<Bucketed>, k: u64, d: i64) -> int {
    sum_of(rs, record_term(k, d))
}

pub open spec fn records_abs(rs: Seq<Bucketed>) -> int {
    sum_of(rs, record_abs_term())
}

/// Record `r` falls in bucket `h` of width `bucket` under key `k`.
pub open spec fn in_group(r: Bucketed, bucket: u64, h: u64, k: u64) -> bool {
    r.hash % bucket == h && r.key == k
}

pub open spec fn grouped_term(bucket: u64, h: u64, k: u64, f: spec_fn(Bucketed) -> int) -> spec_fn(
    Bucketed,
) -> int {
    |r: Bucketed|
        if in_group(r, bucket, h, k) {
            f(r)
        } else {
            0
        }
}

pub open spec fn value_of(d: i64) -> spec_fn(Bucketed) -> int {
    |r: Bucketed| r.diff * weight(r.entries@, d)
}

pub open spec fn length_of() -> spec_fn(Bucketed) -> int {
    |r: Bucketed| r.entries@.len() as int
}

/// The multiplicity of datum `d` once the lists of the records in bucket
/// `h` under key `k` are flattened and multiplied through.
pub open spec fn group_value(rs: Seq<Bucketed>, bucket: u64, h: u64, k: u64, d: i64) -> int {
    sum_of(rs, grouped_term(bucket, h, k, value_of(d)))
}

/// How many entries the lists of the records in bucket `h` under key `k` hold.
pub open spec fn group_length(rs: Seq<Bucketed>, bucket: u64, h: u64, k: u64) -> int {
    sum_of(rs, grouped_term(bucket, h, k, length_of()))
}

/// Some record falls in bucket `h` under key `k`.
pub open spec fn has_source(rs: Seq<Bucketed>, bucket: u64, h: u64, k: u64) -> bool {
    exists|j: int| 0 <= j < rs.len() && in_group(rs[j], bucket, h, k)
}

proof fn lemma_sum_zero<A>(s: Seq<A>, f: spec_fn(A) -> int)
    requires
        forall|j: int| 0 <= j < s.len() ==> f(#[trigger] s[j]) == 0,
    ensures
        sum_of(s, f) == 0,
    decreases s.len(),
{
    if s.len() > 0 {
        lemma_sum_zero(s.drop_last(), f);
        assert(f(s[s.len() - 1]) == 0);
    }
}

proof fn lemma_sum_nonzero_witness<A>(s: Seq<A>, f: spec_fn(A) -> int) -> (j: int)
    requires
        sum_of(s, f) != 0,
    ensures
        0 <= j < s.len(),
        f(s[j]) != 0,
{
    if forall|j: int| 0 <= j < s.len() ==> f(#[trigger] s[j]) == 0 {
        lemma_sum_zero(s, f);
    }
    choose|j: int| 0 <= j < s.len() && f(s[j]) != 0
}

pub open spec fn group_lt(h1: u64, k1: u64, h2: u64, k2: u64) -> bool {
    h1 < h2 || (h1 == h2 && k1 < k2)
}

pub open spec fn group_le(h1: u64, k1: u64, h2: u64, k2: u64) -> bool {
    h1 < h2 || (h1 == h2 && k1 <= k2)
}

/// What a level of the sort hands on: one record per bucket and key, in
/// ascending order, each with a non-empty compacted list and multiplicity one.
pub open spec fn well_bucketed<O: SortKey>(rs: Seq<Bucketed>, bucket: u64) -> bool {
    &&& forall|a: int, b: int|
        0 <= a < b < rs.len() ==> group_lt(rs[a].hash, rs[a].key, rs[b].hash, rs[b].key)
    &&& forall|a: int|
        0 <= a < rs.len() ==> {
            &&& rs[a].hash < bucket
            &&& rs[a].diff == 1
            &&& compacted::<O>(rs[a].entries@)
            &&& rs[a].entries@.len() > 0
        }
}

proof fn lemma_records_abs_nonneg(rs: Seq<Bucketed>)
    ensures
        records_abs(rs) >= 0,
{
    assert forall|i: int| 0 <= i < rs.len() implies #[trigger] record_abs_term()(rs[i]) >= 0 by {
        lemma_abs_weight_nonneg(rs[i].entries@);
        let a = abs(rs[i].diff as int);
        let b = abs_weight(rs[i].entries@);
        assert(a * b >= 0) by (nonlinear_arith)
            requires
                a >= 0,
                b >= 0,
        ;
    }
    lemma_sum_of_nonneg(rs, record_abs_term());
}

proof fn lemma_records_abs_prefix(rs: Seq<Bucketed>, n: int)
    requires
        0 <= n <= rs.len(),
    ensures
        records_abs(rs.subrange(0, n)) <= records_abs(rs),
{
    lemma_sum_of_append(rs.subrange(0, n), rs.subrange(n, rs.len() as int), record_abs_term());
    assert(rs.subrange(0, n) + rs.subrange(n, rs.len() as int) =~= rs);
    lemma_records_abs_nonneg(rs.subrange(n, rs.len() as int));
}

fn copy_entries(v: &Vec<Entry>) -> (r: Vec<Entry>)
    ensures
        r@ == v@,
{
    let mut r: Vec<Entry> = Vec::new();
    let mut i: usize = 0;
    while i < v.len()
        invariant
            0 <= i <= v.len(),
            r@ == v@.subrange(0, i as int),
        decreases v.len() - i,
    {
        r.push(v[i]);
        i += 1;
        proof {
            assert(r@ =~= v@.subrange(0, i as int));
        }
    }
    r
}

/// Relies on `slice::sort_unstable_by_key`: the records are reordered so that
/// their (hash, key) pairs ascend in the order of tuples.
#[verifier::external_body]
fn sort_records_by_group(v: &mut Vec<Bucketed>)
    ensures
        final(v)@.to_multiset() == old(v)@.to_multiset(),
        forall|i: int, j: int|
            0 <= i <= j < final(v)@.len() ==> group_le(
                final(v)@[i].hash,
                final(v)@[i].key,
                final(v)@[j].hash,
                final(v)@[j].key,
            ),
{
    v.sort_unstable_by_key(|r| (r.hash, r.key));
}

/// Places every record in the bucket `hash % bucket`, keeping its key.
fn rehash(records: Vec<Bucketed>, bucket: u64) -> (out: Vec<Bucketed>)
    requires
        bucket > 0,
    ensures
        forall|k: u64, d: i64| #[trigger] key_weight(out@, k, d) == key_weight(records@, k, d),
        records_abs(out@) == records_abs(records@),
        forall|a: int| 0 <= a < out@.len() ==> out@[a].hash < bucket,
        forall|h: u64, k: u64, d: i64| #[trigger] group_value(out@, bucket, h, k, d)
            == group_value(records@, bucket, h, k, d),
        forall|h: u64, k: u64| #[trigger] group_length(out@, bucket, h, k)
            == group_length(records@, bucket, h, k),
{
    let mut records = records;
    let ghost all = records@;
    let mut out: Vec<Bucketed> = Vec::new();
    while records.len() > 0
        invariant
            bucket > 0,
            forall|k: u64, d: i64| #[trigger]
                key_weight(all, k, d) == key_weight(records@, k, d) + key_weight(out@, k, d),
            records_abs(all) == records_abs(records@) + records_abs(out@),
            forall|a: int| 0 <= a < out@.len() ==> out@[a].hash < bucket,
            forall|h: u64, k: u64, d: i64| #[trigger] group_value(all, bucket, h, k, d)
                == group_value(records@, bucket, h, k, d) + group_value(out@, bucket, h, k, d),
            forall|h: u64, k: u64| #[trigger] group_length(all, bucket, h, k)
                == group_length(records@, bucket, h, k) + group_length(out@, bucket, h, k),
        decreases records.len(),
    {
        let ghost before = records@;
        let r = records.pop().unwrap();
        let moved = Bucketed { hash: r.hash % bucket, key: r.key, entries: r.entries, diff: r.diff };
        proof {
            assert(before.drop_last() == records@);
            lemma_sum_of_push(out@, moved, record_abs_term());
            assert forall|k: u64, d: i64| #[trigger]
                key_weight(all, k, d) == key_weight(records@, k, d) + key_weight(out@.push(moved), k, d) by {
                lemma_sum_of_push(out@, moved, record_term(k, d));
            }
            vstd::arithmetic::div_mod::lemma_mod_twice(r.hash as int, bucket as int);
            assert(moved.hash % bucket == r.hash % bucket);
            assert forall|h: u64, k: u64, d: i64| #[trigger] group_value(all, bucket, h, k, d)
                == group_value(records@, bucket, h, k, d) + group_value(out@.push(moved), bucket, h, k, d) by {
                lemma_sum_of_push(out@, moved, grouped_term(bucket, h, k, value_of(d)));
                lemma_sum_of_push(records@, r, grouped_term(bucket, h, k, value_of(d)));
                assert(records@.push(r) == before);
            }
            assert forall|h: u64, k: u64| #[trigger] group_length(all, bucket, h, k)
                == group_length(records@, bucket, h, k) + group_length(out@.push(moved), bucket, h, k) by {
                lemma_sum_of_push(out@, moved, grouped_term(bucket, h, k, length_of()));
                lemma_sum_of_push(records@, r, grouped_term(bucket, h, k, length_of()));
                assert(records@.push(r) == before);
            }
        }
        out.push(moved);
    }
    out
}

/// Sorts the lists of one bucket and key into a single list, and appends it
/// as a record unless nothing is left of it.
fn push_bucket<O: SortKey>(out: &mut Vec<Bucketed>, members: &Vec<Group>, h: u64, k: u64, bucket: u64)
    requires
        group_abs(members@) <= i64::MAX,
        h < bucket,
        well_bucketed::<O>(old(out)@, bucket),
        forall|a: int|
            0 <= a < old(out)@.len() ==> group_lt(old(out)@[a].hash, old(out)@[a].key, h, k),
    ensures
        well_bucketed::<O>(final(out)@, bucket),
        forall|a: int|
            0 <= a < final(out)@.len() ==> group_le(final(out)@[a].hash, final(out)@[a].key, h, k),
        forall|k2: u64, d: i64| #[trigger]
            key_weight(final(out)@, k2, d) == key_weight(old(out)@, k2, d) + (if k2 == k {
                group_weight(members@, d)
            } else {
                0
            }),
        records_abs(final(out)@) <= records_abs(old(out)@) + group_abs(members@),
        final(out)@.len() == old(out)@.len() || final(out)@.len() == old(out)@.len() + 1,
        final(out)@.subrange(0, old(out)@.len() as int) == old(out)@,
        final(out)@.len() == old(out)@.len() ==> forall|d: i64| #[trigger] group_weight(members@, d) == 0,
        final(out)@.len() == old(out)@.len() + 1 ==> {
            let rec = final(out)@[old(out)@.len() as int];
            &&& rec.hash == h
            &&& rec.key == k
            &&& forall|d: i64| #[trigger] weight(rec.entries@, d) == group_weight(members@, d)
            &&& rec.entries@.len() <= group_len(members@)
        },
{
    let ghost before = out@;
    let list = sort_bucket::<O>(members);
    if list.len() > 0 {
        let rec = Bucketed { hash: h, key: k, entries: list, diff: 1 };
        proof {
            lemma_sum_of_push(out@, rec, record_abs_term());
            assert(rec.entries@ == list@);
            let a = abs(rec.diff as int);
            let w = abs_weight(list@);
            assert(a * w == w) by (nonlinear_arith)
                requires
                    a == 1,
            ;
            assert(record_abs_term()(rec) == abs_weight(list@));
            assert forall|k2: u64, d: i64| #[trigger]
                key_weight(out@.push(rec), k2, d) == key_weight(out@, k2, d) + (if k2 == k {
                    group_weight(members@, d)
                } else {
                    0
                }) by {
                lemma_sum_of_push(out@, rec, record_term(k2, d));
            }
        }
        out.push(rec);
        proof {
            assert(out@.subrange(0, before.len() as int) =~= before);
        }
    } else {
        proof {
            assert(out@.subrange(0, before.len() as int) =~= before);
            lemma_group_abs_nonneg(members@);
            assert forall|d: i64| #[trigger] group_weight(members@, d) == 0 by {
                assert(weight(list@, d) == 0);
            }
        }
    }
}

/// One level of the sort: every record moves to the bucket `hash % bucket`,
/// and the lists of each bucket and key are merged into one sorted,
/// compacted list.
pub fn build_sort_bucket<O: SortKey>(records: Vec<Bucketed>, bucket: u64) -> (out: Vec<Bucketed>)
    requires
        bucket > 0,
        records_abs(records@) <= i64::MAX,
    ensures
        forall|k: u64, d: i64| #[trigger] key_weight(out@, k, d) == key_weight(records@, k, d),
        records_abs(out@) <= records_abs(records@),
        well_bucketed::<O>(out@, bucket),
        forall|a: int, d: i64|
            0 <= a < out@.len() ==> #[trigger] weight(out@[a].entries@, d) == group_value(
                records@,
                bucket,
                out@[a].hash,
                out@[a].key,
                d,
            ),
        forall|a: int|
            0 <= a < out@.len() ==> #[trigger] out@[a].entries@.len() <= group_length(
                records@,
                bucket,
                out@[a].hash,
                out@[a].key,
            ),
        forall|a: int|
            0 <= a < out@.len() ==> has_source(records@, bucket, #[trigger] out@[a].hash, out@[a].key),
        forall|h: u64, k: u64, d: i64| #[trigger]
            group_value(records@, bucket, h, k, d) != 0 ==> exists|a: int|
                0 <= a < out@.len() && out@[a].hash == h && out@[a].key == k,
{
    let ghost given = records@;
    let mut input = rehash(records, bucket);
    let ghost rehashed = input@;
    sort_records_by_group(&mut input);
    proof {
        lemma_sum_of_permutation(rehashed, input@, record_abs_term());
        assert forall|k: u64, d: i64| #[trigger]
            key_weight(input@, k, d) == key_weight(given, k, d) by {
            lemma_sum_of_permutation(rehashed, input@, record_term(k, d));
            assert(key_weight(rehashed, k, d) == key_weight(given, k, d));
        }
        assert forall|h: u64, k: u64, d: i64| #[trigger] group_value(input@, bucket, h, k, d)
            == group_value(given, bucket, h, k, d) by {
            lemma_sum_of_permutation(rehashed, input@, grouped_term(bucket, h, k, value_of(d)));
            assert(group_value(rehashed, bucket, h, k, d) == group_value(given, bucket, h, k, d));
        }
        assert forall|h: u64, k: u64| #[trigger] group_length(input@, bucket, h, k)
            == group_length(given, bucket, h, k) by {
            lemma_sum_of_permutation(rehashed, input@, grouped_term(bucket, h, k, length_of()));
            assert(group_length(rehashed, bucket, h, k) == group_length(given, bucket, h, k));
        }
        assert forall|a: int| 0 <= a < input@.len() implies input@[a].hash < bucket by {
            assert(input@.contains(input@[a]));
            assert(input@.to_multiset().count(input@[a]) > 0);
            assert(rehashed.to_multiset().count(input@[a]) > 0);
            assert(rehashed.contains(input@[a]));
        }
    }
    let mut out: Vec<Bucketed> = Vec::new();
    let mut members: Vec<Group> = Vec::new();
    let mut has = false;
    let mut cur_h: u64 = 0;
    let mut cur_k: u64 = 0;
    let mut i: usize = 0;
    while i < input.len()
        invariant
            0 <= i <= input.len(),
            bucket > 0,
            records_abs(input@) <= i64::MAX,
            forall|a: int, b: int|
                0 <= a <= b < input@.len() ==> group_le(
                    input@[a].hash,
                    input@[a].key,
                    input@[b].hash,
                    input@[b].key,
                ),
            forall|a: int| 0 <= a < input@.len() ==> input@[a].hash < bucket,
            forall|k: u64, d: i64| #[trigger]
                key_weight(input@.subrange(0, i as int), k, d) == key_weight(out@, k, d) + (if has
                    && k == cur_k {
                    group_weight(members@, d)
                } else {
                    0
                }),
            records_abs(out@) + (if has {
                group_abs(members@)
            } else {
                0
            }) <= records_abs(input@.subrange(0, i as int)),
            has ==> i > 0 && input@[i - 1].hash == cur_h && input@[i - 1].key == cur_k,
            has ==> cur_h < bucket,
            has ==> forall|a: int|
                0 <= a < out@.len() ==> group_lt(out@[a].hash, out@[a].key, cur_h, cur_k),
            has || (i == 0 && out@.len() == 0),
            well_bucketed::<O>(out@, bucket),
            forall|a: int, d: i64|
                0 <= a < out@.len() ==> #[trigger] weight(out@[a].entries@, d) == group_value(
                    input@.subrange(0, i as int),
                    bucket,
                    out@[a].hash,
                    out@[a].key,
                    d,
                ),
            forall|a: int|
                0 <= a < out@.len() ==> #[trigger] out@[a].entries@.len() <= group_length(
                    input@.subrange(0, i as int),
                    bucket,
                    out@[a].hash,
                    out@[a].key,
                ),
            has ==> forall|d: i64| #[trigger]
                group_weight(members@, d) == group_value(
                    input@.subrange(0, i as int),
                    bucket,
                    cur_h,
                    cur_k,
                    d,
                ),
            has ==> group_len(members@) == group_length(input@.subrange(0, i as int), bucket, cur_h, cur_k),
            forall|hh: u64, kk: u64, d: i64| #[trigger]
                group_value(input@.subrange(0, i as int), bucket, hh, kk, d) != 0 ==> (exists|a: int|
                    0 <= a < out@.len() && out@[a].hash == hh && out@[a].key == kk) || (has && hh
                    == cur_h && kk == cur_k),
        decreases input.len() - i,
    {
        let h = input[i].hash;
        let k = input[i].key;
        let r = input[i].diff;
        let entries = copy_entries(&input[i].entries);
        let g: Group = (entries, r);
        let ghost prefix = input@.subrange(0, i as int);
        proof {
            assert(input@.subrange(0, i + 1) =~= prefix.push(input@[i as int]));
            lemma_sum_of_push(prefix, input@[i as int], record_abs_term());
            assert forall|k2: u64, d: i64| #[trigger] key_weight(input@.subrange(0, i + 1), k2, d)
                == key_weight(prefix, k2, d) + record_term(k2, d)(input@[i as int]) by {
                lemma_sum_of_push(prefix, input@[i as int], record_term(k2, d));
            }
            lemma_records_abs_prefix(input@, i + 1);
            lemma_records_abs_prefix(input@, i as int);
            lemma_records_abs_nonneg(out@);
            lemma_group_abs_nonneg(members@);
            lemma_sum_of_push(members@, g, group_abs_term());
            assert forall|d: i64| #[trigger] group_weight(members@.push(g), d) == group_weight(
                members@,
                d,
            ) + r * weight(entries@, d) by {
                lemma_sum_of_push(members@, g, group_term(d));
            }
            lemma_sum_of_push(Seq::<Group>::empty(), g, group_abs_term());
            assert(Seq::<Group>::empty().push(g) =~= seq![g]);
            assert forall|d: i64| #[trigger] group_weight(seq![g], d) == r * weight(entries@, d) by {
                lemma_sum_of_push(Seq::<Group>::empty(), g, group_term(d));
            }
            let x = input@[i as int];
            vstd::arithmetic::div_mod::lemma_small_mod(x.hash as nat, bucket as nat);
            lemma_sum_of_push(members@, g, group_len_term());
            lemma_sum_of_push(Seq::<Group>::empty(), g, group_len_term());
            assert forall|hh: u64, kk: u64, d: i64| #[trigger]
                group_value(input@.subrange(0, i + 1), bucket, hh, kk, d) == group_value(
                    prefix,
                    bucket,
                    hh,
                    kk,
                    d,
                ) + if h == hh && k == kk {
                    r * weight(entries@, d)
                } else {
                    0
                } by {
                lemma_sum_of_push(prefix, x, grouped_term(bucket, hh, kk, value_of(d)));
            }
            assert forall|hh: u64, kk: u64| #[trigger]
                group_length(input@.subrange(0, i + 1), bucket, hh, kk) == group_length(
                    prefix,
                    bucket,
                    hh,
                    kk,
                ) + if h == hh && k == kk {
                    entries@.len() as int
                } else {
                    0
                } by {
                lemma_sum_of_push(prefix, x, grouped_term(bucket, hh, kk, length_of()));
            }
            if !(has && h == cur_h && k == cur_k) {
                assert forall|j: int| 0 <= j < prefix.len() implies !in_group(#[trigger] prefix[j], bucket, h, k) by {
                    assert(prefix[j] == input@[j]);
                    vstd::arithmetic::div_mod::lemma_small_mod(prefix[j].hash as nat, bucket as nat);
                    assert(group_le(input@[j].hash, input@[j].key, input@[i - 1].hash, input@[i - 1].key));
                    assert(group_le(input@[i - 1].hash, input@[i - 1].key, x.hash, x.key));
                }
                assert forall|d: i64| #[trigger] group_value(prefix, bucket, h, k, d) == 0 by {
                    assert forall|j: int| 0 <= j < prefix.len() implies #[trigger] grouped_term(bucket, h, k, value_of(d))(prefix[j]) == 0 by {}
                    lemma_sum_zero(prefix, grouped_term(bucket, h, k, value_of(d)));
                }
                assert forall|j: int| 0 <= j < prefix.len() implies #[trigger] grouped_term(bucket, h, k, length_of())(prefix[j]) == 0 by {}
                lemma_sum_zero(prefix, grouped_term(bucket, h, k, length_of()));
            }
        }
        let ghost old_out = out@;
        let ghost old_members = members@;
        let ghost old_has = has;
        let ghost (oh, ok) = (cur_h, cur_k);
        if has && h == cur_h && k == cur_k {
            members.push(g);
        } else {
            if has {
                proof {
                    assert(group_le(cur_h, cur_k, h, k));
                }
                push_bucket::<O>(&mut out, &members, cur_h, cur_k, bucket);
                proof {
                    assert forall|a: int| 0 <= a < out@.len() implies group_lt(
                        out@[a].hash,
                        out@[a].key,
                        h,
                        k,
                    ) by {
                        assert(group_le(out@[a].hash, out@[a].key, cur_h, cur_k));
                    }
                }
            }
            members = vec![g];
            proof {
                assert(members@ =~= seq![g]);
            }
            cur_h = h;
            cur_k = k;
            has = true;
        }
        proof {
            let next = input@.subrange(0, i + 1);
            assert forall|a: int, d: i64| 0 <= a < out@.len() implies #[trigger] weight(out@[a].entries@, d)
                == group_value(next, bucket, out@[a].hash, out@[a].key, d) by {
                if a < old_out.len() {
                    assert(out@[a] == out@.subrange(0, old_out.len() as int)[a]);
                    assert(group_lt(old_out[a].hash, old_out[a].key, h, k));
                } else {
                    assert(group_lt(oh, ok, h, k));
                }
            }
            assert forall|a: int| 0 <= a < out@.len() implies #[trigger] out@[a].entries@.len()
                <= group_length(next, bucket, out@[a].hash, out@[a].key) by {
                if a < old_out.len() {
                    assert(out@[a] == out@.subrange(0, old_out.len() as int)[a]);
                    assert(group_lt(old_out[a].hash, old_out[a].key, h, k));
                } else {
                    assert(group_lt(oh, ok, h, k));
                }
            }
            assert forall|hh: u64, kk: u64, d: i64| #[trigger]
                group_value(next, bucket, hh, kk, d) != 0 implies (exists|a: int|
                    0 <= a < out@.len() && out@[a].hash == hh && out@[a].key == kk) || (has && hh
                    == cur_h && kk == cur_k) by {
                if !(hh == h && kk == k) {
                    assert(group_value(prefix, bucket, hh, kk, d) != 0);
                    if exists|a: int| 0 <= a < old_out.len() && old_out[a].hash == hh && old_out[a].key == kk {
                        let a = choose|a: int| 0 <= a < old_out.len() && old_out[a].hash == hh && old_out[a].key == kk;
                        assert(out@[a] == out@.subrange(0, old_out.len() as int)[a]);
                    } else if out@.len() == old_out.len() + 1 {
                        assert(out@[old_out.len() as int].hash == hh);
                    } else {
                        assert(group_weight(old_members, d) == 0);
                    }
                }
            }
        }
        i += 1;
    }
    if has {
        proof {
            lemma_records_abs_nonneg(out@);
            assert(input@.subrange(0, i as int) =~= input@);
        }
        let ghost old_out = out@;
        let ghost old_members = members@;
        push_bucket::<O>(&mut out, &members, cur_h, cur_k, bucket);
        proof {
            assert forall|a: int, d: i64| 0 <= a < out@.len() implies #[trigger] weight(out@[a].entries@, d)
                == group_value(input@, bucket, out@[a].hash, out@[a].key, d) by {
                if a < old_out.len() {
                    assert(out@[a] == out@.subrange(0, old_out.len() as int)[a]);
                }
            }
            assert forall|a: int| 0 <= a < out@.len() implies #[trigger] out@[a].entries@.len()
                <= group_length(input@, bucket, out@[a].hash, out@[a].key) by {
                if a < old_out.len() {
                    assert(out@[a] == out@.subrange(0, old_out.len() as int)[a]);
                }
            }
            assert forall|hh: u64, kk: u64, d: i64| #[trigger] group_value(input@, bucket, hh, kk, d) != 0
                implies exists|a: int| 0 <= a < out@.len() && out@[a].hash == hh && out@[a].key == kk by {
                if exists|a: int| 0 <= a < old_out.len() && old_out[a].hash == hh && old_out[a].key == kk {
                    let a = choose|a: int| 0 <= a < old_out.len() && old_out[a].hash == hh && old_out[a].key == kk;
                    assert(out@[a] == out@.subrange(0, old_out.len() as int)[a]);
                } else if out@.len() == old_out.len() + 1 {
                    assert(out@[old_out.len() as int].hash == hh);
                } else {
                    assert(group_weight(old_members, d) == 0);
                }
            }
        }
    } else {
        proof {
            assert(input@.subrange(0, i as int) =~= input@);
        }
    }
    proof {
        assert(input@.subrange(0, input@.len() as int) =~= input@);
        assert forall|a: int| 0 <= a < out@.len() implies has_source(given, bucket, #[trigger] out@[a].hash, out@[a].key) by {
            let e = out@[a].entries@;
            lemma_weight_at::<O>(e, 0);
            assert(weight(out@[a].entries@, e[0].0) != 0);
            let j = lemma_sum_nonzero_witness(given, grouped_term(bucket, out@[a].hash, out@[a].key, value_of(e[0].0)));
            assert(in_group(given[j], bucket, out@[a].hash, out@[a].key));
        }
        assert forall|hh: u64, kk: u64, d: i64| #[trigger] group_value(given, bucket, hh, kk, d) != 0
            implies exists|a: int| 0 <= a < out@.len() && out@[a].hash == hh && out@[a].key == kk by {
            assert(group_value(input@, bucket, hh, kk, d) != 0);
        }
        assert forall|k: u64, d: i64| #[trigger] key_weight(out@, k, d) == key_weight(given, k, d) by {
            assert(key_weight(input@, k, d) == key_weight(given, k, d));
        }
    }
    out
}

proof fn lemma_weight_at<O: SortKey>(s: Seq<Entry>, i: int)
    requires
        strictly_sorted::<O>(s),
        0 <= i < s.len(),
    ensures
        weight(s, s[i].0) == s[i].1,
{
    let x = s[i].0;
    lemma_sum_of_remove(s, i, datum_term(x));
    assert forall|k: int| 0 <= k < s.remove(i).len() implies s.remove(i)[k].0 != x by {
        if k < i {
            assert(s.remove(i)[k] == s[k]);
            assert(key_lt::<O>(s[k].0, s[i].0));
        } else {
            assert(s.remove(i)[k] == s[k + 1]);
            assert(key_lt::<O>(s[i].0, s[k + 1].0));
        }
    }
    lemma_weight_absent(s.remove(i), x);
}

/// Records whose keys ascend strictly and whose multiplicities are one.
pub open spec fn keyed_once(rs: Seq<Bucketed>) -> bool {
    &&& forall|a: int, b: int| 0 <= a < b < rs.len() ==> rs[a].key < rs[b].key
    &&& forall|a: int| 0 <= a < rs.len() ==> rs[a].diff == 1
}

proof fn lemma_key_weight_missing(rs: Seq<Bucketed>, k: u64, d: i64)
    requires
        forall|a: int| 0 <= a < rs.len() ==> rs[a].key != k,
    ensures
        key_weight(rs, k, d) == 0,
    decreases rs.len(),
{
    if rs.len() > 0 {
        lemma_key_weight_missing(rs.drop_last(), k, d);
        assert(rs[rs.len() - 1].key != k);
    }
}

proof fn lemma_key_weight_at(rs: Seq<Bucketed>, a: int, d: i64)
    requires
        keyed_once(rs),
        0 <= a < rs.len(),
    ensures
        key_weight(rs, rs[a].key, d) == weight(rs[a].entries@, d),
{
    let k = rs[a].key;
    lemma_sum_of_remove(rs, a, record_term(k, d));
    assert forall|b: int| 0 <= b < rs.remove(a).len() implies rs.remove(a)[b].key != k by {
        if b < a {
            assert(rs.remove(a)[b] == rs[b]);
        } else {
            assert(rs.remove(a)[b] == rs[b + 1]);
        }
    }
    lemma_key_weight_missing(rs.remove(a), k, d);
    let w = weight(rs[a].entries@, d);
    assert(1 * w == w);
}

/// One change to a collection: datum `datum` under key `key` gains `diff`
/// copies at logical time `time` (a negative `diff` retracts).
#[derive(Clone, Copy, Debug)]
pub struct Update {
    pub key: u64,
    pub datum: i64,
    pub time: u64,
    pub diff: i64,
}

pub open spec fn update_term(k: u64, d: i64, t: u64) -> spec_fn(Update) -> int {
    |u: Update|
        if u.key == k && u.datum == d && u.time <= t {
            u.diff as int
        } else {
            0
        }
}

pub open spec fn update_abs_term() -> spec_fn(Update) -> int {
    |u: Update| abs(u.diff as int)
}

/// The multiplicity of `(k, d)` in the collection at time `t`: the sum of the
/// diffs of its updates at times up to `t`.
pub open spec fn multiplicity(us: Seq<Update>, k: u64, d: i64, t: u64) -> int {
    sum_of(us, update_term(k, d, t))
}

/// The sum of the absolute diffs of a stream of updates.
pub open spec fn volume(us: Seq<Update>) -> int {
    sum_of(us, update_abs_term())
}

/// Some datum under key `k` has a non-zero multiplicity at time `t`.
pub open spec fn has_support(us: Seq<Update>, k: u64, t: u64) -> bool {
    exists|d: i64| #[trigger] multiplicity(us, k, d, t) != 0
}

/// What a sort by key emits at time `t`: one row per key, keys ascending;
/// each row's data ascend and repeat each datum as often as the collection
/// holds it; a row stands for exactly the keys with some datum of non-zero
/// multiplicity.
pub open spec fn sorted_rows<O: SortKey>(us: Seq<Update>, t: u64, rows: Seq<(u64, Vec<i64>)>) -> bool {
    &&& forall|a: int, b: int| 0 <= a < b < rows.len() ==> rows[a].0 < rows[b].0
    &&& forall|a: int| 0 <= a < rows.len() ==> sorted_data::<O>(#[trigger] rows[a].1@)
    &&& forall|a: int, d: i64|
        0 <= a < rows.len() ==> #[trigger] rows[a].1@.to_multiset().count(d) == copies(
            multiplicity(us, rows[a].0, d, t),
        )
    &&& forall|a: int| 0 <= a < rows.len() ==> has_support(us, #[trigger] rows[a].0, t)
    &&& forall|k: u64, d: i64| #[trigger]
        multiplicity(us, k, d, t) != 0 ==> exists|a: int| 0 <= a < rows.len() && rows[a].0 == k
}

pub uninterp spec fn fnv_hash(d: i64) -> u64;

/// Relies on differential_dataflow's `Hashable::hashed`, which feeds the
/// datum to an FNV hasher: the hash depends on the datum alone.
#[verifier::external_body]
fn hash_datum(d: i64) -> (h: u64)
    ensures
        h == fnv_hash(d),
{
    differential_dataflow::hashable::Hashable::hashed(&d)
}

/// The records that enter the first level of the sort: one per update at a
/// time up to `time`, placed by the hash of its datum.
pub fn hashed_records(updates: &Vec<Update>, time: u64) -> (out: Vec<Bucketed>)
    ensures
        forall|k: u64, d: i64| #[trigger]
            key_weight(out@, k, d) == multiplicity(updates@, k, d, time),
        records_abs(out@) <= volume(updates@),
        forall|a: int| 0 <= a < out@.len() ==> out@[a].hash == fnv_hash(out@[a].entries@[0].0),
        forall|a: int| 0 <= a < out@.len() ==> out@[a].entries@.len() == 1,
{
    let mut out: Vec<Bucketed> = Vec::new();
    let mut i: usize = 0;
    while i < updates.len()
        invariant
            0 <= i <= updates.len(),
            forall|k: u64, d: i64| #[trigger]
                key_weight(out@, k, d) == multiplicity(updates@.subrange(0, i as int), k, d, time),
            records_abs(out@) <= volume(updates@.subrange(0, i as int)),
            forall|a: int| 0 <= a < out@.len() ==> out@[a].hash == fnv_hash(out@[a].entries@[0].0),
            forall|a: int| 0 <= a < out@.len() ==> out@[a].entries@.len() == 1,
        decreases updates.len() - i,
    {
        let u = &updates[i];
        let ghost prefix = updates@.subrange(0, i as int);
        proof {
            assert(updates@.subrange(0, i + 1) =~= prefix.push(updates@[i as int]));
            lemma_sum_of_push(prefix, updates@[i as int], update_abs_term());
            assert forall|k: u64, d: i64| #[trigger]
                multiplicity(updates@.subrange(0, i + 1), k, d, time) == multiplicity(prefix, k, d, time)
                    + update_term(k, d, time)(updates@[i as int]) by {
                lemma_sum_of_push(prefix, updates@[i as int], update_term(k, d, time));
            }
        }
        if u.time <= time {
            let h = hash_datum(u.datum);
            let rec = Bucketed { hash: h, key: u.key, entries: vec![(u.datum, 1i64)], diff: u.diff };
            proof {
                let one: Seq<Entry> = seq![(u.datum, 1i64)];
                assert(rec.entries@ =~= one);
                assert(one =~= Seq::<Entry>::empty().push((u.datum, 1i64)));
                lemma_sum_of_push(Seq::<Entry>::empty(), (u.datum, 1i64), abs_term());
                lemma_sum_of_push(out@, rec, record_abs_term());
                let a = abs(u.diff as int);
                assert(a * 1 == a);
                assert forall|k: u64, d: i64| #[trigger] key_weight(out@.push(rec), k, d)
                    == multiplicity(updates@.subrange(0, i + 1), k, d, time) by {
                    lemma_sum_of_push(out@, rec, record_term(k, d));
                    lemma_sum_of_push(Seq::<Entry>::empty(), (u.datum, 1i64), datum_term(d));
                    let w = weight(one, d);
                    assert(w == datum_term(d)((u.datum, 1i64)));
                    assert(weight(rec.entries@, d) == w);
                    assert(u.diff * w == if u.datum == d { u.diff as int } else { 0 }) by (
                    nonlinear_arith)
                        requires
                            w == if u.datum == d {
                                1int
                            } else {
                                0int
                            },
                    ;
                    assert(record_term(k, d)(rec) == update_term(k, d, time)(updates@[i as int]));
                    assert(key_weight(out@, k, d) == multiplicity(prefix, k, d, time));
                    assert(multiplicity(updates@.subrange(0, i + 1), k, d, time) == multiplicity(
                        prefix,
                        k,
                        d,
                        time,
                    ) + update_term(k, d, time)(updates@[i as int]));
                }
            }
            out.push(rec);
        }
        i += 1;
    }
    proof {
        assert(updates@.subrange(0, updates@.len() as int) =~= updates@);
    }
    out
}

/// Sorts the data of every key: the records pass through one level of
/// buckets for each width in `buckets` (a width `b` makes `2^b` buckets),
/// and the last level, of width zero, leaves one sorted list per key.
pub fn hierarchical_sort_core<O: SortKey>(updates: &Vec<Update>, time: u64, buckets: &Vec<u64>) -> (rows: Vec<
    (u64, Vec<i64>),
>)
    requires
        volume(updates@) <= i64::MAX,
        buckets@.len() > 0,
        buckets@.last() == 0,
        forall|i: int| 0 <= i < buckets@.len() ==> buckets@[i] < 64,
    ensures
        sorted_rows::<O>(updates@, time, rows@),
{
    let mut records = hashed_records(updates, time);
    let mut i: usize = 0;
    let mut last: u64 = 0;
    while i < buckets.len()
        invariant
            0 <= i <= buckets.len(),
            forall|j: int| 0 <= j < buckets@.len() ==> buckets@[j] < 64,
            volume(updates@) <= i64::MAX,
            forall|k: u64, d: i64| #[trigger]
                key_weight(records@, k, d) == multiplicity(updates@, k, d, time),
            records_abs(records@) <= volume(updates@),
            i > 0 ==> last == (1u64 << buckets@[i - 1]) && well_bucketed::<O>(records@, last),
        decreases buckets.len() - i,
    {
        let b = buckets[i];
        let width: u64 = 1u64 << b;
        assert(width > 0) by (bit_vector)
            requires
                width == 1u64 << b,
                b < 64,
        ;
        records = build_sort_bucket::<O>(records, width);
        last = width;
        i += 1;
    }
    proof {
        let z: u64 = 0;
        assert((1u64 << z) == 1) by (bit_vector)
            requires
                z == 0,
        ;
        assert(well_bucketed::<O>(records@, 1));
        assert forall|a: int, c: int| 0 <= a < c < records@.len() implies records@[a].key
            < records@[c].key by {
            assert(group_lt(records@[a].hash, records@[a].key, records@[c].hash, records@[c].key));
        }
        assert(keyed_once(records@));
    }
    let mut rows: Vec<(u64, Vec<i64>)> = Vec::new();
    let mut a: usize = 0;
    while a < records.len()
        invariant
            0 <= a <= records.len(),
            keyed_once(records@),
            well_bucketed::<O>(records@, 1),
            forall|k: u64, d: i64| #[trigger]
                key_weight(records@, k, d) == multiplicity(updates@, k, d, time),
            rows@.len() == a,
            forall|c: int| 0 <= c < a ==> #[trigger] rows@[c].0 == records@[c].key,
            forall|c: int| 0 <= c < a ==> sorted_data::<O>(#[trigger] rows@[c].1@),
            forall|c: int, d: i64|
                0 <= c < a ==> #[trigger] rows@[c].1@.to_multiset().count(d) == copies(
                    weight(records@[c].entries@, d),
                ),
        decreases records.len() - a,
    {
        let data = expand::<O>(&records[a].entries);
        rows.push((records[a].key, data));
        a += 1;
    }
    proof {
        assert forall|c: int, e: int| 0 <= c < e < rows@.len() implies rows@[c].0 < rows@[e].0 by {
            assert(rows@[c].0 == records@[c].key);
            assert(rows@[e].0 == records@[e].key);
        }
        assert forall|c: int, d: i64| 0 <= c < rows@.len() implies #[trigger] rows@[c].1@.to_multiset().count(d)
            == copies(multiplicity(updates@, rows@[c].0, d, time)) by {
            lemma_key_weight_at(records@, c, d);
        }
        assert forall|c: int| 0 <= c < rows@.len() implies has_support(
            updates@,
            #[trigger] rows@[c].0,
            time,
        ) by {
            let d = records@[c].entries@[0].0;
            lemma_weight_at::<O>(records@[c].entries@, 0);
            lemma_key_weight_at(records@, c, d);
            assert(multiplicity(updates@, rows@[c].0, d, time) != 0);
        }
        assert forall|k: u64, d: i64| #[trigger] multiplicity(updates@, k, d, time) != 0 implies exists|
            c: int,
        | 0 <= c < rows@.len() && rows@[c].0 == k by {
            if forall|c: int| 0 <= c < rows@.len() ==> rows@[c].0 != k {
                assert forall|c: int| 0 <= c < records@.len() implies records@[c].key != k by {
                    assert(rows@[c].0 == records@[c].key);
                }
                lemma_key_weight_missing(records@, k, d);
            }
        }
        assert(forall|c: int| 0 <= c < rows@.len() ==> sorted_data::<O>(#[trigger] rows@[c].1@));
        assert(forall|c: int, d: i64|
            0 <= c < rows@.len() ==> #[trigger] rows@[c].1@.to_multiset().count(d) == copies(
                multiplicity(updates@, rows@[c].0, d, time),
            ));
        assert(forall|k: u64, d: i64| #[trigger]
            multiplicity(updates@, k, d, time) != 0 ==> exists|c: int|
                0 <= c < rows@.len() && rows@[c].0 == k);
    }
    rows
}

} // verus!
