//! Per-worker and program-wide statistics, computed from the operators,
//! subgraphs, channels and log events observed up to a time.
use vstd::prelude::*;
use crate::ui::{ChannelKind, ProgramStats, WorkerStats};
use crate::weights::{lemma_sum_of_append, lemma_sum_of_permutation, lemma_sum_of_push, sum_of};

verus! {

broadcast use {vstd::seq_lib::group_to_multiset_ensures, vstd::multiset::group_multiset_axioms};

/// A channel from an output port of one operator to an input port of another.
#[derive(Clone, Debug, PartialEq, Eq)]
pub struct Channel {
    pub id: u64,
    pub kind: ChannelKind,
    pub src_addr: Vec<u64>,
    pub src_port: u64,
    pub dst_addr: Vec<u64>,
    pub dst_port: u64,
}

/// The events of the differential layer.
#[derive(Clone, Copy, Debug, PartialEq, Eq)]
pub enum DifferentialEvent {
    Batch { operator: u64, length: usize },
    Merge { operator: u64, scale: usize, complete: Option<usize> },
    MergeShortfall { operator: u64, scale: usize, shortfall: usize },
    TraceShare { operator: u64, diff: i64 },
    Drop { operator: u64 },
}

/// A timely log event as the aggregation sees it: when and where it happened.
#[derive(Clone, Copy, Debug, PartialEq, Eq)]
pub struct TimelyRecord {
    pub event_time: u64,
    pub worker: u64,
}

/// A differential log event with the time and worker it came from.
#[derive(Clone, Copy, Debug, PartialEq, Eq)]
pub struct DifferentialRecord {
    pub event_time: u64,
    pub worker: u64,
    pub event: DifferentialEvent,
}

pub open spec fn indicator<A>(p: spec_fn(A) -> bool) -> spec_fn(A) -> int {
    |a: A|
        if p(a) {
            1int
        } else {
            0int
        }
}

/// How many elements of `s` satisfy `p`.
pub open spec fn count_of<A>(s: Seq<A>, p: spec_fn(A) -> bool) -> int {
    sum_of(s, indicator(p))
}

/// The elements of `s` that belong to worker `w` and satisfy `q`.
pub open spec fn of_worker<A>(key: spec_fn(A) -> u64, q: spec_fn(A) -> bool, w: u64) -> spec_fn(
    A,
) -> bool {
    |a: A| key(a) == w && q(a)
}

/// The sum, over the workers `ws`, of how many elements of `s` each one owns.
pub open spec fn sum_workers<A>(
    ws: Seq<u64>,
    s: Seq<A>,
    key: spec_fn(A) -> u64,
    q: spec_fn(A) -> bool,
) -> int
    decreases ws.len(),
{
    if ws.len() == 0 {
        0
    } else {
        sum_workers(ws.drop_last(), s, key, q) + count_of(s, of_worker(key, q, ws.last()))
    }
}

pub open spec fn of_workers<A>(ws: Seq<u64>, key: spec_fn(A) -> u64, q: spec_fn(A) -> bool) -> spec_fn(
    A,
) -> bool {
    |a: A| ws.contains(key(a)) && q(a)
}

proof fn lemma_count_bounded<A>(s: Seq<A>, p: spec_fn(A) -> bool)
    ensures
        0 <= count_of(s, p) <= s.len(),
    decreases s.len(),
{
    if s.len() > 0 {
        lemma_count_bounded(s.drop_last(), p);
    }
}

proof fn lemma_count_split<A>(s: Seq<A>, p: spec_fn(A) -> bool, a: spec_fn(A) -> bool, b: spec_fn(A) -> bool)
    requires
        forall|x: A| #[trigger] p(x) <==> (a(x) || b(x)),
        forall|x: A| !(#[trigger] a(x) && b(x)),
    ensures
        count_of(s, p) == count_of(s, a) + count_of(s, b),
    decreases s.len(),
{
    if s.len() > 0 {
        lemma_count_split(s.drop_last(), p, a, b);
    }
}

/// Counting per worker and summing over distinct workers counts each
/// element of those workers once.
pub proof fn lemma_partition<A>(ws: Seq<u64>, s: Seq<A>, key: spec_fn(A) -> u64, q: spec_fn(A) -> bool)
    requires
        ws.no_duplicates(),
    ensures
        sum_workers(ws, s, key, q) == count_of(s, of_workers(ws, key, q)),
        sum_workers(ws, s, key, q) <= s.len(),
    decreases ws.len(),
{
    if ws.len() == 0 {
        assert forall|x: A| !#[trigger] of_workers(ws, key, q)(x) by {}
        lemma_count_split(s, of_workers(ws, key, q), of_workers(ws, key, q), of_workers(ws, key, q));
    } else {
        let rest = ws.drop_last();
        assert(rest.no_duplicates());
        lemma_partition(rest, s, key, q);
        assert forall|x: A| #[trigger] of_workers(ws, key, q)(x) <==> (of_workers(rest, key, q)(x)
            || of_worker(key, q, ws.last())(x)) by {
            if ws.contains(key(x)) {
                let i = choose|i: int| 0 <= i < ws.len() && ws[i] == key(x);
                if i < ws.len() - 1 {
                    assert(rest[i] == key(x));
                }
            }
            if rest.contains(key(x)) {
                let i = choose|i: int| 0 <= i < rest.len() && rest[i] == key(x);
                assert(ws[i] == key(x));
            }
        }
        assert forall|x: A| !(#[trigger] of_workers(rest, key, q)(x) && of_worker(key, q, ws.last())(x)) by {
            if rest.contains(key(x)) && key(x) == ws.last() {
                let i = choose|i: int| 0 <= i < rest.len() && rest[i] == key(x);
                assert(ws[i] == ws[ws.len() - 1]);
            }
        }
        lemma_count_split(s, of_workers(ws, key, q), of_workers(rest, key, q), of_worker(key, q, ws.last()));
    }
    lemma_count_bounded(s, of_workers(ws, key, q));
}

/// The last step of a count over a growing prefix.
proof fn lemma_count_step<A>(s: Seq<A>, i: int, p: spec_fn(A) -> bool)
    requires
        0 <= i < s.len(),
    ensures
        count_of(s.subrange(0, i + 1), p) == count_of(s.subrange(0, i), p) + if p(s[i]) {
            1int
        } else {
            0int
        },
{
    assert(s.subrange(0, i + 1) =~= s.subrange(0, i).push(s[i]));
    lemma_sum_of_push(s.subrange(0, i), s[i], indicator(p));
}

pub open spec fn in_subgraphs(subs: Seq<(u64, Vec<u64>)>, w: u64, a: Seq<u64>) -> bool {
    exists|i: int| 0 <= i < subs.len() && subs[i].0 == w && subs[i].1@ == a
}

/// An address of at most one step names a dataflow at the top level.
pub open spec fn is_top_level(a: Seq<u64>) -> bool {
    a.len() <= 1
}

pub open spec fn op_worker() -> spec_fn((u64, Vec<u64>)) -> u64 {
    |o: (u64, Vec<u64>)| o.0
}

pub open spec fn is_subgraph(subs: Seq<(u64, Vec<u64>)>) -> spec_fn((u64, Vec<u64>)) -> bool {
    |o: (u64, Vec<u64>)| in_subgraphs(subs, o.0, o.1@)
}

pub open spec fn is_operator(subs: Seq<(u64, Vec<u64>)>) -> spec_fn((u64, Vec<u64>)) -> bool {
    |o: (u64, Vec<u64>)| !in_subgraphs(subs, o.0, o.1@)
}

pub open spec fn is_dataflow(subs: Seq<(u64, Vec<u64>)>) -> spec_fn((u64, Vec<u64>)) -> bool {
    |o: (u64, Vec<u64>)| in_subgraphs(subs, o.0, o.1@) && is_top_level(o.1@)
}

pub open spec fn channel_worker() -> spec_fn((u64, Channel)) -> u64 {
    |c: (u64, Channel)| c.0
}

pub open spec fn event_worker() -> spec_fn((u64, u64)) -> u64 {
    |e: (u64, u64)| e.0
}

pub open spec fn anything<A>() -> spec_fn(A) -> bool {
    |a: A| true
}

fn addr_eq(a: &Vec<u64>, b: &Vec<u64>) -> (r: bool)
    ensures
        r == (a@ == b@),
{
    if a.len() != b.len() {
        return false;
    }
    let mut i: usize = 0;
    while i < a.len()
        invariant
            0 <= i <= a.len(),
            a.len() == b.len(),
            forall|j: int| 0 <= j < i ==> a@[j] == b@[j],
        decreases a.len() - i,
    {
        if a[i] != b[i] {
            return false;
        }
        i += 1;
    }
    proof {
        assert(a@ =~= b@);
    }
    true
}

fn copy_addr(a: &Vec<u64>) -> (r: Vec<u64>)
    ensures
        r@ == a@,
{
    let mut r: Vec<u64> = Vec::new();
    let mut i: usize = 0;
    while i < a.len()
        invariant
            0 <= i <= a.len(),
            r@ == a@.subrange(0, i as int),
        decreases a.len() - i,
    {
        r.push(a[i]);
        i += 1;
        proof {
            assert(r@ =~= a@.subrange(0, i as int));
        }
    }
    r
}

/// Whether worker `w` has a subgraph at address `a`.
fn subgraph_at(subs: &Vec<(u64, Vec<u64>)>, w: u64, a: &Vec<u64>) -> (r: bool)
    ensures
        r == in_subgraphs(subs@, w, a@),
{
    let mut i: usize = 0;
    while i < subs.len()
        invariant
            0 <= i <= subs.len(),
            forall|j: int| 0 <= j < i ==> !(subs@[j].0 == w && subs@[j].1@ == a@),
        decreases subs.len() - i,
    {
        if subs[i].0 == w && addr_eq(&subs[i].1, a) {
            return true;
        }
        i += 1;
    }
    false
}

pub open spec fn timely_events(t: Seq<TimelyRecord>) -> Seq<(u64, u64)> {
    t.map_values(|e: TimelyRecord| (e.worker, e.event_time))
}

pub open spec fn differential_events(ds: Seq<DifferentialRecord>) -> Seq<(u64, u64)> {
    ds.map_values(|e: DifferentialRecord| (e.worker, e.event_time))
}

/// The timely and differential events side by side, each as its worker
/// and the time it happened.
pub open spec fn combined(timely: Seq<TimelyRecord>, differential: Option<Seq<DifferentialRecord>>) -> Seq<
    (u64, u64),
> {
    timely_events(timely) + match differential {
        Some(ds) => differential_events(ds),
        None => Seq::<(u64, u64)>::empty(),
    }
}

pub open spec fn opt_view(d: Option<&Vec<DifferentialRecord>>) -> Option<Seq<DifferentialRecord>> {
    match d {
        Some(v) => Some(v@),
        None => None,
    }
}

/// Puts the events of both layers into one stream of `(worker, time)`.
pub fn combine_events(timely: &Vec<TimelyRecord>, differential: Option<&Vec<DifferentialRecord>>) -> (ev:
    Vec<(u64, u64)>)
    ensures
        ev@ == combined(timely@, opt_view(differential)),
{
    let mut ev: Vec<(u64, u64)> = Vec::new();
    let mut i: usize = 0;
    while i < timely.len()
        invariant
            0 <= i <= timely.len(),
            ev@ == timely_events(timely@.subrange(0, i as int)),
        decreases timely.len() - i,
    {
        ev.push((timely[i].worker, timely[i].event_time));
        i += 1;
        proof {
            assert(ev@ =~= timely_events(timely@.subrange(0, i as int)));
        }
    }
    proof {
        assert(timely@.subrange(0, timely@.len() as int) =~= timely@);
    }
    let ghost first = ev@;
    match differential {
        Some(ds) => {
            let mut j: usize = 0;
            while j < ds.len()
                invariant
                    0 <= j <= ds.len(),
                    ev@ == first + differential_events(ds@.subrange(0, j as int)),
                decreases ds.len() - j,
            {
                ev.push((ds[j].worker, ds[j].event_time));
                j += 1;
                proof {
                    assert(ev@ =~= first + differential_events(ds@.subrange(0, j as int)));
                }
            }
            proof {
                assert(ds@.subrange(0, ds@.len() as int) =~= ds@);
            }
        },
        None => {
            proof {
                assert(ev@ =~= first + Seq::<(u64, u64)>::empty());
            }
        },
    }
    ev
}

/// Addresses in the order of `Vec`'s `Ord`: lexicographic.
pub open spec fn addr_le(a: Seq<u64>, b: Seq<u64>) -> bool
    decreases a.len(),
{
    if a.len() == 0 {
        true
    } else if b.len() == 0 {
        false
    } else if a[0] != b[0] {
        a[0] < b[0]
    } else {
        addr_le(a.drop_first(), b.drop_first())
    }
}

pub open spec fn addr_is(a: Seq<u64>) -> spec_fn(Vec<u64>) -> bool {
    |v: Vec<u64>| v@ == a
}

/// The records of top-level dataflows of worker `w` at address `a`.
pub open spec fn dataflow_at(subs: Seq<(u64, Vec<u64>)>, w: u64, a: Seq<u64>) -> spec_fn(
    (u64, Vec<u64>),
) -> bool {
    |o: (u64, Vec<u64>)| of_worker(op_worker(), is_dataflow(subs), w)(o) && o.1@ == a
}

/// Relies on `slice::sort` with `Vec`'s `Ord`, which compares lexicographically.
#[verifier::external_body]
fn sort_addrs(v: &mut Vec<Vec<u64>>)
    ensures
        final(v)@.to_multiset() == old(v)@.to_multiset(),
        forall|i: int, j: int| 0 <= i <= j < final(v)@.len() ==> addr_le(final(v)@[i]@, final(v)@[j]@),
{
    v.sort();
}

/// One if some element of `s` satisfies `p`, zero if none does.
pub open spec fn presence<A>(s: Seq<A>, p: spec_fn(A) -> bool) -> int {
    if count_of(s, p) > 0 {
        1
    } else {
        0
    }
}

/// Whether some address in `v` equals `a`.
fn contains_addr(v: &Vec<Vec<u64>>, a: &Vec<u64>) -> (r: bool)
    ensures
        r == (count_of(v@, addr_is(a@)) > 0),
{
    let mut i: usize = 0;
    while i < v.len()
        invariant
            0 <= i <= v.len(),
            count_of(v@.subrange(0, i as int), addr_is(a@)) == 0,
        decreases v.len() - i,
    {
        proof {
            lemma_count_step(v@, i as int, addr_is(a@));
        }
        if addr_eq(&v[i], a) {
            proof {
                lemma_count_bounded(v@.subrange(i + 1, v@.len() as int), addr_is(a@));
                lemma_sum_of_append(
                    v@.subrange(0, i + 1),
                    v@.subrange(i + 1, v@.len() as int),
                    indicator(addr_is(a@)),
                );
                assert(v@.subrange(0, i + 1) + v@.subrange(i + 1, v@.len() as int) =~= v@);
            }
            return true;
        }
        i += 1;
    }
    proof {
        assert(v@.subrange(0, v@.len() as int) =~= v@);
    }
    false
}

/// The addresses of the top-level dataflows of worker `w`, in order, each
/// listed once however often it is recorded.
pub fn dataflow_addrs(ops: &Vec<(u64, Vec<u64>)>, subs: &Vec<(u64, Vec<u64>)>, w: u64) -> (r: Vec<Vec<u64>>)
    ensures
        forall|i: int, j: int| 0 <= i <= j < r@.len() ==> addr_le(r@[i]@, r@[j]@),
        forall|a: Seq<u64>| #[trigger] count_of(r@, addr_is(a)) == presence(ops@, dataflow_at(subs@, w, a)),
{
    let mut r: Vec<Vec<u64>> = Vec::new();
    let mut i: usize = 0;
    while i < ops.len()
        invariant
            0 <= i <= ops.len(),
            forall|a: Seq<u64>| #[trigger] count_of(r@, addr_is(a)) == presence(
                ops@.subrange(0, i as int),
                dataflow_at(subs@, w, a),
            ),
        decreases ops.len() - i,
    {
        let o = &ops[i];
        let keep = o.0 == w && o.1.len() <= 1 && subgraph_at(subs, w, &o.1);
        proof {
            assert forall|a: Seq<u64>| #[trigger] count_of(ops@.subrange(0, i + 1), dataflow_at(subs@, w, a))
                == count_of(ops@.subrange(0, i as int), dataflow_at(subs@, w, a)) + if dataflow_at(subs@, w, a)(ops@[i as int]) {
                1int
            } else {
                0int
            } by {
                lemma_count_step(ops@, i as int, dataflow_at(subs@, w, a));
                lemma_count_bounded(ops@.subrange(0, i as int), dataflow_at(subs@, w, a));
            }
        }
        let ghost old_r = r@;
        let ghost oa = o.1@;
        let fresh = keep && !contains_addr(&r, &o.1);
        if fresh {
            let c = copy_addr(&o.1);
            proof {
                assert forall|a: Seq<u64>| #[trigger] count_of(r@.push(c), addr_is(a)) == count_of(r@, addr_is(a))
                    + if c@ == a {
                    1int
                } else {
                    0int
                } by {
                    lemma_sum_of_push(r@, c, indicator(addr_is(a)));
                }
            }
            r.push(c);
        }
        proof {
            assert forall|a: Seq<u64>| #[trigger] count_of(r@, addr_is(a)) == count_of(old_r, addr_is(a))
                + if fresh && oa == a {
                1int
            } else {
                0int
            } by {
                if fresh {
                    lemma_sum_of_push(old_r, r@.last(), indicator(addr_is(a)));
                    assert(old_r.push(r@.last()) == r@);
                }
            }
            assert forall|a: Seq<u64>| #[trigger] count_of(r@, addr_is(a)) == presence(
                ops@.subrange(0, i + 1),
                dataflow_at(subs@, w, a),
            ) by {
                assert(dataflow_at(subs@, w, a)(ops@[i as int]) == (keep && oa == a));
                assert(count_of(old_r, addr_is(a)) == presence(
                    ops@.subrange(0, i as int),
                    dataflow_at(subs@, w, a),
                ));
                assert(count_of(r@, addr_is(a)) == count_of(old_r, addr_is(a)) + if fresh && oa == a {
                    1int
                } else {
                    0int
                });
                let before = count_of(ops@.subrange(0, i as int), dataflow_at(subs@, w, a));
                lemma_count_bounded(ops@.subrange(0, i as int), dataflow_at(subs@, w, a));
                assert(count_of(ops@.subrange(0, i + 1), dataflow_at(subs@, w, a)) == before + if keep
                    && oa == a {
                    1int
                } else {
                    0int
                });
                if keep && oa == a && !fresh {
                    assert(count_of(old_r, addr_is(a)) > 0);
                }
                if fresh && oa == a {
                    assert(count_of(old_r, addr_is(oa)) == 0);
                }
            }
        }
        i += 1;
    }
    proof {
        assert(ops@.subrange(0, ops@.len() as int) =~= ops@);
    }
    let ghost unsorted = r@;
    sort_addrs(&mut r);
    proof {
        assert forall|a: Seq<u64>| #[trigger] count_of(r@, addr_is(a)) == count_of(unsorted, addr_is(a)) by {
            lemma_sum_of_permutation(unsorted, r@, indicator(addr_is(a)));
        }
    }
    r
}

/// How many operator records of worker `w` are subgraphs, plain operators
/// and top-level dataflows.
fn node_counts(ops: &Vec<(u64, Vec<u64>)>, subs: &Vec<(u64, Vec<u64>)>, w: u64) -> (r: (usize, usize, usize))
    ensures
        r.0 == count_of(ops@, of_worker(op_worker(), is_subgraph(subs@), w)),
        r.1 == count_of(ops@, of_worker(op_worker(), is_operator(subs@), w)),
        r.2 == count_of(ops@, of_worker(op_worker(), is_dataflow(subs@), w)),
{
    let mut sg: usize = 0;
    let mut op: usize = 0;
    let mut df: usize = 0;
    let mut i: usize = 0;
    while i < ops.len()
        invariant
            0 <= i <= ops.len(),
            sg == count_of(ops@.subrange(0, i as int), of_worker(op_worker(), is_subgraph(subs@), w)),
            op == count_of(ops@.subrange(0, i as int), of_worker(op_worker(), is_operator(subs@), w)),
            df == count_of(ops@.subrange(0, i as int), of_worker(op_worker(), is_dataflow(subs@), w)),
        decreases ops.len() - i,
    {
        proof {
            lemma_count_step(ops@, i as int, of_worker(op_worker(), is_subgraph(subs@), w));
            lemma_count_step(ops@, i as int, of_worker(op_worker(), is_operator(subs@), w));
            lemma_count_step(ops@, i as int, of_worker(op_worker(), is_dataflow(subs@), w));
            lemma_count_bounded(ops@.subrange(0, i as int), of_worker(op_worker(), is_subgraph(subs@), w));
            lemma_count_bounded(ops@.subrange(0, i as int), of_worker(op_worker(), is_operator(subs@), w));
            lemma_count_bounded(ops@.subrange(0, i as int), of_worker(op_worker(), is_dataflow(subs@), w));
        }
        if ops[i].0 == w {
            if subgraph_at(subs, w, &ops[i].1) {
                sg = sg + 1;
                if ops[i].1.len() <= 1 {
                    df = df + 1;
                }
            } else {
                op = op + 1;
            }
        }
        i += 1;
    }
    proof {
        assert(ops@.subrange(0, ops@.len() as int) =~= ops@);
    }
    (sg, op, df)
}

/// How many channels worker `w` has.
fn channel_count(channels: &Vec<(u64, Channel)>, w: u64) -> (n: usize)
    ensures
        n == count_of(channels@, of_worker(channel_worker(), anything(), w)),
{
    let mut n: usize = 0;
    let mut i: usize = 0;
    while i < channels.len()
        invariant
            0 <= i <= channels.len(),
            n == count_of(channels@.subrange(0, i as int), of_worker(channel_worker(), anything(), w)),
        decreases channels.len() - i,
    {
        proof {
            lemma_count_step(channels@, i as int, of_worker(channel_worker(), anything(), w));
            lemma_count_bounded(channels@.subrange(0, i as int), of_worker(channel_worker(), anything(), w));
        }
        if channels[i].0 == w {
            n = n + 1;
        }
        i += 1;
    }
    proof {
        assert(channels@.subrange(0, channels@.len() as int) =~= channels@);
    }
    n
}

/// `lo` and `hi` are the earliest and the latest time of worker `w`'s events.
pub open spec fn is_span(ev: Seq<(u64, u64)>, w: u64, lo: u64, hi: u64) -> bool {
    &&& exists|i: int| 0 <= i < ev.len() && ev[i].0 == w && ev[i].1 == lo
    &&& exists|i: int| 0 <= i < ev.len() && ev[i].0 == w && ev[i].1 == hi
    &&& forall|i: int| 0 <= i < ev.len() && ev[i].0 == w ==> lo <= #[trigger] ev[i].1 <= hi
}

/// How many events worker `w` logged, and the time between its first and its last.
fn event_span(ev: &Vec<(u64, u64)>, w: u64) -> (r: (usize, u64))
    ensures
        r.0 == count_of(ev@, of_worker(event_worker(), anything(), w)),
        r.0 > 0 ==> exists|lo: u64, hi: u64| is_span(ev@, w, lo, hi) && r.1 == hi - lo,
{
    let mut n: usize = 0;
    let mut lo: u64 = 0;
    let mut hi: u64 = 0;
    let mut i: usize = 0;
    while i < ev.len()
        invariant
            0 <= i <= ev.len(),
            n == count_of(ev@.subrange(0, i as int), of_worker(event_worker(), anything(), w)),
            n > 0 ==> is_span(ev@.subrange(0, i as int), w, lo, hi),
            lo <= hi,
        decreases ev.len() - i,
    {
        proof {
            lemma_count_step(ev@, i as int, of_worker(event_worker(), anything(), w));
            lemma_count_bounded(ev@.subrange(0, i as int), of_worker(event_worker(), anything(), w));
        }
        let ghost before = ev@.subrange(0, i as int);
        let ghost (lo0, hi0) = (lo, hi);
        let ghost n0 = n;
        let (x, t) = ev[i];
        if x == w {
            if n == 0 || t < lo {
                lo = t;
            }
            if n == 0 || t > hi {
                hi = t;
            }
            n = n + 1;
        }
        i += 1;
        proof {
            let now = ev@.subrange(0, i as int);
            assert(now =~= before.push(ev@[i - 1]));
            if x == w {
                assert(now[i - 1] == (x, t));
                if n0 == 0 {
                    assert forall|j: int| 0 <= j < now.len() && now[j].0 == w implies lo <= #[trigger] now[j].1
                        <= hi by {
                        if j < i - 1 {
                            assert(before[j] == now[j]);
                            assert(count_of(before, of_worker(event_worker(), anything(), w)) == 0);
                            lemma_zero_count_absent(before, of_worker(event_worker(), anything(), w), j);
                        }
                    }
                } else {
                    let a = choose|a: int| 0 <= a < before.len() && before[a].0 == w && before[a].1 == lo0;
                    let b = choose|b: int| 0 <= b < before.len() && before[b].0 == w && before[b].1 == hi0;
                    assert(now[a] == before[a]);
                    assert(now[b] == before[b]);
                    assert forall|j: int| 0 <= j < now.len() && now[j].0 == w implies lo <= #[trigger] now[j].1
                        <= hi by {
                        if j < i - 1 {
                            assert(before[j] == now[j]);
                        }
                    }
                }
            } else if n0 > 0 {
                let a = choose|a: int| 0 <= a < before.len() && before[a].0 == w && before[a].1 == lo0;
                let b = choose|b: int| 0 <= b < before.len() && before[b].0 == w && before[b].1 == hi0;
                assert(now[a] == before[a]);
                assert(now[b] == before[b]);
                assert forall|j: int| 0 <= j < now.len() && now[j].0 == w implies lo <= #[trigger] now[j].1 <= hi by {
                    if j < i - 1 {
                        assert(before[j] == now[j]);
                    }
                }
            }
        }
    }
    proof {
        assert(ev@.subrange(0, ev@.len() as int) =~= ev@);
    }
    (n, hi - lo)
}

proof fn lemma_zero_count_absent<A>(s: Seq<A>, p: spec_fn(A) -> bool, j: int)
    requires
        count_of(s, p) == 0,
        0 <= j < s.len(),
    ensures
        !p(s[j]),
    decreases s.len(),
{
    lemma_count_bounded(s.drop_last(), p);
    if j < s.len() - 1 {
        lemma_zero_count_absent(s.drop_last(), p, j);
    }
}

/// The operator whose arrangement a differential event shows to be shared,
/// if it is a trace share that is not negative.
pub open spec fn share_of(e: DifferentialEvent) -> Option<u64> {
    match e {
        DifferentialEvent::TraceShare { operator, diff } => if diff >= 0 {
            Some(operator)
        } else {
            None
        },
        _ => None,
    }
}

pub open spec fn shares(ds: Seq<DifferentialRecord>, w: u64, op: u64) -> bool {
    exists|i: int| 0 <= i < ds.len() && ds[i].worker == w && share_of(ds[i].event) == Some(op)
}

pub open spec fn record_worker() -> spec_fn(DifferentialRecord) -> u64 {
    |r: DifferentialRecord| r.worker
}

pub open spec fn is_share() -> spec_fn(DifferentialRecord) -> bool {
    |r: DifferentialRecord| share_of(r.event) is Some
}

/// How many distinct arrangements worker `w` shares; none where there is no
/// differential log at all.
pub open spec fn arrangements_of(d: Option<Seq<DifferentialRecord>>, w: u64) -> int {
    match d {
        Some(ds) => Set::new(|op: u64| shares(ds, w, op)).len() as int,
        None => 0,
    }
}

fn contains_u64(v: &Vec<u64>, x: u64) -> (r: bool)
    ensures
        r == v@.contains(x),
{
    let mut i: usize = 0;
    while i < v.len()
        invariant
            0 <= i <= v.len(),
            forall|j: int| 0 <= j < i ==> v@[j] != x,
        decreases v.len() - i,
    {
        if v[i] == x {
            return true;
        }
        i += 1;
    }
    false
}

/// The operators whose arrangements worker `w` shares, each once.
fn shared_operators(ds: &Vec<DifferentialRecord>, w: u64) -> (r: Vec<u64>)
    ensures
        r@.no_duplicates(),
        forall|op: u64| r@.contains(op) <==> shares(ds@, w, op),
        r@.len() <= count_of(ds@, of_worker(record_worker(), is_share(), w)),
{
    let mut r: Vec<u64> = Vec::new();
    let mut i: usize = 0;
    while i < ds.len()
        invariant
            0 <= i <= ds.len(),
            r@.no_duplicates(),
            forall|op: u64| r@.contains(op) <==> shares(ds@.subrange(0, i as int), w, op),
            r@.len() <= count_of(ds@.subrange(0, i as int), of_worker(record_worker(), is_share(), w)),
        decreases ds.len() - i,
    {
        proof {
            lemma_count_step(ds@, i as int, of_worker(record_worker(), is_share(), w));
        }
        let ghost before = ds@.subrange(0, i as int);
        let ghost old_r = r@;
        if ds[i].worker == w {
            match ds[i].event {
                DifferentialEvent::TraceShare { operator, diff } => {
                    if diff >= 0 && !contains_u64(&r, operator) {
                        r.push(operator);
                    }
                },
                _ => {},
            }
        }
        proof {
            let e = ds@[i as int];
            assert(e.worker == w && share_of(e.event) is Some ==> r@.contains(share_of(e.event)->0)) by {
                if e.worker == w && share_of(e.event) is Some {
                    let op = share_of(e.event)->0;
                    if old_r.contains(op) {
                        let j = choose|j: int| 0 <= j < old_r.len() && old_r[j] == op;
                        assert(r@[j] == op);
                    } else {
                        assert(r@.last() == op);
                    }
                }
            }
            assert(r@ == old_r || (e.worker == w && share_of(e.event) is Some && r@ == old_r.push(
                share_of(e.event)->0,
            )));
        }
        i += 1;
        proof {
            let now = ds@.subrange(0, i as int);
            assert(now =~= before.push(ds@[i - 1]));
            assert forall|op: u64| r@.contains(op) <==> shares(now, w, op) by {
                if shares(before, w, op) {
                    let j = choose|j: int| 0 <= j < before.len() && before[j].worker == w && share_of(before[j].event) == Some(op);
                    assert(now[j] == before[j]);
                }
                if shares(now, w, op) {
                    let j = choose|j: int| 0 <= j < now.len() && now[j].worker == w && share_of(now[j].event) == Some(op);
                    if j < i - 1 {
                        assert(now[j] == before[j]);
                    }
                }
                if r@.contains(op) && !old_r.contains(op) {
                    assert(r@ == old_r.push(op));
                    assert(now[i - 1] == ds@[i - 1]);
                }
                if old_r.contains(op) {
                    let j = choose|j: int| 0 <= j < old_r.len() && old_r[j] == op;
                    assert(r@[j] == op);
                }
                if r@.contains(op) {
                    let j = choose|j: int| 0 <= j < r@.len() && r@[j] == op;
                    if j < old_r.len() {
                        assert(old_r[j] == op);
                    }
                }
            }
        }
    }
    proof {
        assert(ds@.subrange(0, ds@.len() as int) =~= ds@);
    }
    r
}

/// How many arrangements worker `w` shares.
fn arrangement_count(differential: Option<&Vec<DifferentialRecord>>, w: u64) -> (n: usize)
    ensures
        n == arrangements_of(opt_view(differential), w),
        differential is Some ==> n <= count_of(
            differential->0@,
            of_worker(record_worker(), is_share(), w),
        ),
{
    match differential {
        Some(ds) => {
            let ops = shared_operators(ds, w);
            proof {
                assert(ops@.to_set() =~= Set::new(|op: u64| shares(ds@, w, op)));
                ops@.unique_seq_to_set();
            }
            ops.len()
        },
        None => 0,
    }
}

/// Worker `w` has been seen in every dimension that the statistics join on:
/// a channel, a top-level dataflow, a subgraph, a plain operator and an event.
pub open spec fn is_present(
    ops: Seq<(u64, Vec<u64>)>,
    subs: Seq<(u64, Vec<u64>)>,
    chs: Seq<(u64, Channel)>,
    ev: Seq<(u64, u64)>,
    w: u64,
) -> bool {
    &&& count_of(chs, of_worker(channel_worker(), anything(), w)) > 0
    &&& count_of(ops, of_worker(op_worker(), is_dataflow(subs), w)) > 0
    &&& count_of(ops, of_worker(op_worker(), is_subgraph(subs), w)) > 0
    &&& count_of(ops, of_worker(op_worker(), is_operator(subs), w)) > 0
    &&& count_of(ev, of_worker(event_worker(), anything(), w)) > 0
}

/// The statistics of one worker, as its records say.
pub open spec fn worker_row(
    r: WorkerStats,
    ops: Seq<(u64, Vec<u64>)>,
    subs: Seq<(u64, Vec<u64>)>,
    chs: Seq<(u64, Channel)>,
    d: Option<Seq<DifferentialRecord>>,
    ev: Seq<(u64, u64)>,
) -> bool {
    &&& r.dataflows == count_of(ops, of_worker(op_worker(), is_dataflow(subs), r.id))
    &&& r.subgraphs == count_of(ops, of_worker(op_worker(), is_subgraph(subs), r.id))
    &&& r.operators == count_of(ops, of_worker(op_worker(), is_operator(subs), r.id))
    &&& r.channels == count_of(chs, of_worker(channel_worker(), anything(), r.id))
    &&& r.arrangements == arrangements_of(d, r.id)
    &&& r.events == count_of(ev, of_worker(event_worker(), anything(), r.id))
    &&& exists|lo: u64, hi: u64| is_span(ev, r.id, lo, hi) && r.runtime == hi - lo
    &&& forall|i: int, j: int|
        0 <= i <= j < r.dataflow_addrs@.len() ==> addr_le(r.dataflow_addrs@[i]@, r.dataflow_addrs@[j]@)
    &&& forall|a: Seq<u64>| #[trigger]
        count_of(r.dataflow_addrs@, addr_is(a)) == presence(ops, dataflow_at(subs, r.id, a))
}

pub open spec fn row_dataflows() -> spec_fn(WorkerStats) -> int {
    |r: WorkerStats| r.dataflows as int
}

pub open spec fn row_operators() -> spec_fn(WorkerStats) -> int {
    |r: WorkerStats| r.operators as int
}

pub open spec fn row_subgraphs() -> spec_fn(WorkerStats) -> int {
    |r: WorkerStats| r.subgraphs as int
}

pub open spec fn row_channels() -> spec_fn(WorkerStats) -> int {
    |r: WorkerStats| r.channels as int
}

pub open spec fn row_arrangements() -> spec_fn(WorkerStats) -> int {
    |r: WorkerStats| r.arrangements as int
}

pub open spec fn row_events() -> spec_fn(WorkerStats) -> int {
    |r: WorkerStats| r.events as int
}

/// The program's statistics from those of its workers: the number of
/// workers, the sums of their counts, and the longest of their runtimes.
pub open spec fn program_row(p: ProgramStats, rows: Seq<WorkerStats>) -> bool {
    &&& p.workers == rows.len()
    &&& p.dataflows == sum_of(rows, row_dataflows())
    &&& p.operators == sum_of(rows, row_operators())
    &&& p.subgraphs == sum_of(rows, row_subgraphs())
    &&& p.channels == sum_of(rows, row_channels())
    &&& p.arrangements == sum_of(rows, row_arrangements())
    &&& p.events == sum_of(rows, row_events())
    &&& forall|i: int| 0 <= i < rows.len() ==> rows[i].runtime <= p.runtime
    &&& exists|i: int| 0 <= i < rows.len() && rows[i].runtime == p.runtime
}

/// What the aggregation reports: one row per worker that is present, each
/// true to that worker's records, and the program's row once any worker is.
pub open spec fn aggregated(
    timely: Seq<TimelyRecord>,
    differential: Option<Seq<DifferentialRecord>>,
    chs: Seq<(u64, Channel)>,
    subs: Seq<(u64, Vec<u64>)>,
    ops: Seq<(u64, Vec<u64>)>,
    program: Option<ProgramStats>,
    rows: Seq<WorkerStats>,
) -> bool {
    let ev = combined(timely, differential);
    &&& forall|i: int, j: int| 0 <= i < j < rows.len() ==> rows[i].id != rows[j].id
    &&& forall|i: int|
        0 <= i < rows.len() ==> is_present(ops, subs, chs, ev, #[trigger] rows[i].id)
            && worker_row(rows[i], ops, subs, chs, differential, ev)
    &&& forall|w: u64|
        is_present(ops, subs, chs, ev, w) ==> exists|i: int| 0 <= i < rows.len() && rows[i].id == w
    &&& program is None <==> rows.len() == 0
    &&& program matches Some(p) ==> program_row(p, rows)
}

/// The statistics of every worker and of the whole program, from the
/// operators and subgraphs (by worker and address), the channels and the log
/// events of both layers.
pub fn aggregate_worker_stats(
    timely: &Vec<TimelyRecord>,
    differential: Option<&Vec<DifferentialRecord>>,
    channels: &Vec<(u64, Channel)>,
    subgraph_addresses: &Vec<(u64, Vec<u64>)>,
    operator_addrs: &Vec<(u64, Vec<u64>)>,
) -> (r: (Option<ProgramStats>, Vec<WorkerStats>))
    ensures
        aggregated(
            timely@,
            opt_view(differential),
            channels@,
            subgraph_addresses@,
            operator_addrs@,
            r.0,
            r.1@,
        ),
{
    let ev = combine_events(timely, differential);
    let ghost ops = operator_addrs@;
    let ghost subs = subgraph_addresses@;
    let ghost chs = channels@;
    let ghost d = opt_view(differential);
    // every worker that is present has a channel: those are the candidates
    let mut ws: Vec<u64> = Vec::new();
    let mut i: usize = 0;
    while i < channels.len()
        invariant
            0 <= i <= channels.len(),
            chs == channels@,
            ws@.no_duplicates(),
            forall|w: u64| ws@.contains(w) <==> exists|j: int| 0 <= j < i && chs[j].0 == w,
        decreases channels.len() - i,
    {
        let w = channels[i].0;
        let ghost old_ws = ws@;
        if !contains_u64(&ws, w) {
            ws.push(w);
        }
        proof {
            assert(ws@.contains(w)) by {
                if old_ws.contains(w) {
                    let k = choose|k: int| 0 <= k < old_ws.len() && old_ws[k] == w;
                    assert(ws@[k] == w);
                } else {
                    assert(ws@[ws@.len() - 1] == w);
                }
            }
            assert forall|x: u64| ws@.contains(x) implies exists|j: int| 0 <= j <= i && chs[j].0 == x by {
                let k = choose|k: int| 0 <= k < ws@.len() && ws@[k] == x;
                if k < old_ws.len() {
                    assert(old_ws[k] == x);
                    assert(old_ws.contains(x));
                } else {
                    assert(chs[i as int].0 == x);
                }
            }
            assert forall|x: u64| (exists|j: int| 0 <= j <= i && chs[j].0 == x) implies ws@.contains(x) by {
                let j = choose|j: int| 0 <= j <= i && chs[j].0 == x;
                if j < i {
                    assert(old_ws.contains(x));
                    let k = choose|k: int| 0 <= k < old_ws.len() && old_ws[k] == x;
                    assert(ws@[k] == x);
                }
            }
        }
        i += 1;
    }
    let n_ops = operator_addrs.len();
    let n_ch = channels.len();
    let n_ev = ev.len();
    let n_ds: usize = match differential {
        Some(ds) => ds.len(),
        None => 0,
    };
    let mut rows: Vec<WorkerStats> = Vec::new();
    let ghost mut ids: Seq<u64> = Seq::empty();
    let mut t_df: usize = 0;
    let mut t_op: usize = 0;
    let mut t_sg: usize = 0;
    let mut t_ch: usize = 0;
    let mut t_ar: usize = 0;
    let mut t_ev: usize = 0;
    let mut t_rt: u64 = 0;
    let mut k: usize = 0;
    while k < ws.len()
        invariant
            0 <= k <= ws.len(),
            chs == channels@,
            ops == operator_addrs@,
            n_ops == ops.len(),
            n_ch == chs.len(),
            n_ev == ev@.len(),
            differential is Some ==> n_ds == differential->0@.len(),
            subs == subgraph_addresses@,
            ws@.no_duplicates(),
            forall|w: u64| ws@.contains(w) <==> exists|j: int| 0 <= j < chs.len() && chs[j].0 == w,
            ev@ == combined(timely@, d),
            d == opt_view(differential),
            ids.len() == rows@.len(),
            ids.no_duplicates(),
            forall|j: int| 0 <= j < ids.len() ==> #[trigger] ids[j] == rows@[j].id,
            forall|x: u64| ids.contains(x) ==> exists|m: int| 0 <= m < k && ws@[m] == x,
            forall|j: int|
                0 <= j < rows@.len() ==> is_present(ops, subs, chs, ev@, #[trigger] rows@[j].id)
                    && worker_row(rows@[j], ops, subs, chs, d, ev@),
            forall|m: int|
                0 <= m < k && is_present(ops, subs, chs, ev@, #[trigger] ws@[m]) ==> ids.contains(ws@[m]),
            t_df == sum_of(rows@, row_dataflows()),
            t_op == sum_of(rows@, row_operators()),
            t_sg == sum_of(rows@, row_subgraphs()),
            t_ch == sum_of(rows@, row_channels()),
            t_ar == sum_of(rows@, row_arrangements()),
            t_ev == sum_of(rows@, row_events()),
            t_df == sum_workers(ids, ops, op_worker(), is_dataflow(subs)),
            t_op == sum_workers(ids, ops, op_worker(), is_operator(subs)),
            t_sg == sum_workers(ids, ops, op_worker(), is_subgraph(subs)),
            t_ch == sum_workers(ids, chs, channel_worker(), anything()),
            t_ev == sum_workers(ids, ev@, event_worker(), anything()),
            differential is Some ==> t_ar <= sum_workers(ids, differential->0@, record_worker(), is_share()),
            differential is None ==> t_ar == 0,
            forall|j: int| 0 <= j < rows@.len() ==> rows@[j].runtime <= t_rt,
            rows@.len() > 0 ==> exists|j: int| 0 <= j < rows@.len() && rows@[j].runtime == t_rt,
        decreases ws.len() - k,
    {
        let w = ws[k];
        let counts = node_counts(operator_addrs, subgraph_addresses, w);
        let (sg, op, df) = counts;
        let nch = channel_count(channels, w);
        let span = event_span(&ev, w);
        let (nev, rt) = span;
        let present = nch > 0 && df > 0 && sg > 0 && op > 0 && nev > 0;
        if present {
            let ar = arrangement_count(differential, w);
            let addrs = dataflow_addrs(operator_addrs, subgraph_addresses, w);
            let row = WorkerStats {
                id: w,
                dataflows: df,
                operators: op,
                subgraphs: sg,
                channels: nch,
                arrangements: ar,
                events: nev,
                runtime: rt,
                dataflow_addrs: addrs,
            };
            proof {
                assert(!ids.contains(w)) by {
                    if ids.contains(w) {
                        let m = choose|m: int| 0 <= m < k && ws@[m] == w;
                        assert(ws@[m] == ws@[k as int]);
                    }
                }
                assert(ids.push(w).drop_last() =~= ids);
                lemma_partition(ids.push(w), ops, op_worker(), is_dataflow(subs));
                lemma_partition(ids.push(w), ops, op_worker(), is_operator(subs));
                lemma_partition(ids.push(w), ops, op_worker(), is_subgraph(subs));
                lemma_partition(ids.push(w), chs, channel_worker(), anything());
                lemma_partition(ids.push(w), ev@, event_worker(), anything());
                if differential is Some {
                    lemma_partition(ids.push(w), differential->0@, record_worker(), is_share());
                }
                lemma_sum_of_push(rows@, row, row_dataflows());
                lemma_sum_of_push(rows@, row, row_operators());
                lemma_sum_of_push(rows@, row, row_subgraphs());
                lemma_sum_of_push(rows@, row, row_channels());
                lemma_sum_of_push(rows@, row, row_arrangements());
                lemma_sum_of_push(rows@, row, row_events());
            }
            proof {
                assert(sum_workers(ids.push(w), ops, op_worker(), is_dataflow(subs)) == t_df + df);
                assert(sum_workers(ids.push(w), ops, op_worker(), is_operator(subs)) == t_op + op);
                assert(t_df + df <= ops.len());
                assert(t_op + op <= ops.len());
                assert(sum_workers(ids.push(w), chs, channel_worker(), anything()) == t_ch + nch);
                assert(sum_workers(ids.push(w), ev@, event_worker(), anything()) == t_ev + nev);
                if differential is Some {
                    assert(t_ar + ar <= sum_workers(
                        ids.push(w),
                        differential->0@,
                        record_worker(),
                        is_share(),
                    ));
                }
            }
            t_df = t_df + df;
            t_op = t_op + op;
            t_sg = t_sg + sg;
            t_ch = t_ch + nch;
            t_ar = t_ar + ar;
            t_ev = t_ev + nev;
            let ghost old_rows = rows@;
            let ghost old_rt = t_rt;
            if rows.len() == 0 || rt > t_rt {
                t_rt = rt;
            }
            rows.push(row);
            proof {
                if t_rt == rt {
                    assert(rows@[rows@.len() - 1].runtime == t_rt);
                } else {
                    let j = choose|j: int| 0 <= j < old_rows.len() && old_rows[j].runtime == old_rt;
                    assert(rows@[j].runtime == t_rt);
                }
                ids = ids.push(w);
                assert forall|x: u64| ids.contains(x) implies exists|m: int| 0 <= m < k + 1 && ws@[m] == x by {
                    let j = choose|j: int| 0 <= j < ids.len() && ids[j] == x;
                    if j < ids.len() - 1 {
                        assert(ids.drop_last()[j] == x);
                        assert(ids.drop_last().contains(x));
                    }
                }
            }
        }
        proof {
            assert forall|m: int|
                0 <= m < k + 1 && is_present(ops, subs, chs, ev@, #[trigger] ws@[m]) implies ids.contains(ws@[m]) by {
                if m == k {
                    assert(present);
                    assert(ids.last() == w);
                }
            }
        }
        k += 1;
    }
    proof {
        assert forall|w: u64| is_present(ops, subs, chs, ev@, w) implies exists|i: int|
            0 <= i < rows@.len() && rows@[i].id == w by {
            let c = of_worker(channel_worker(), anything(), w);
            if forall|j: int| 0 <= j < chs.len() ==> chs[j].0 != w {
                assert forall|j: int| 0 <= j < chs.len() implies !c(chs[j]) by {}
                lemma_count_none(chs, c);
            }
            let j = choose|j: int| 0 <= j < chs.len() && chs[j].0 == w;
            assert(ws@.contains(w));
            let m = choose|m: int| 0 <= m < ws@.len() && ws@[m] == w;
            assert(ids.contains(ws@[m]));
            let i = choose|i: int| 0 <= i < ids.len() && ids[i] == w;
            assert(rows@[i].id == w);
        }
        assert forall|i: int, j: int| 0 <= i < j < rows@.len() implies rows@[i].id != rows@[j].id by {
            assert(ids[i] == rows@[i].id);
            assert(ids[j] == rows@[j].id);
        }
    }
    if rows.len() == 0 {
        (None, rows)
    } else {
        let p = ProgramStats {
            workers: rows.len(),
            dataflows: t_df,
            operators: t_op,
            subgraphs: t_sg,
            channels: t_ch,
            arrangements: t_ar,
            events: t_ev,
            runtime: t_rt,
        };
        (Some(p), rows)
    }
}

proof fn lemma_count_none<A>(s: Seq<A>, p: spec_fn(A) -> bool)
    requires
        forall|j: int| 0 <= j < s.len() ==> !p(#[trigger] s[j]),
    ensures
        count_of(s, p) == 0,
    decreases s.len(),
{
    if s.len() > 0 {
        lemma_count_none(s.drop_last(), p);
        assert(!p(s[s.len() - 1]));
    }
}

/// The program's runtime is the time between the earliest and the latest
/// event, provided that some worker that is present logged both of them.
pub proof fn lemma_runtime_identity(
    timely: Seq<TimelyRecord>,
    differential: Option<Seq<DifferentialRecord>>,
    chs: Seq<(u64, Channel)>,
    subs: Seq<(u64, Vec<u64>)>,
    ops: Seq<(u64, Vec<u64>)>,
    p: ProgramStats,
    rows: Seq<WorkerStats>,
    w: u64,
    lo: u64,
    hi: u64,
)
    requires
        aggregated(timely, differential, chs, subs, ops, Some(p), rows),
        forall|i: int|
            0 <= i < combined(timely, differential).len() ==> lo <= #[trigger] combined(
                timely,
                differential,
            )[i].1 <= hi,
        is_span(combined(timely, differential), w, lo, hi),
        is_present(ops, subs, chs, combined(timely, differential), w),
    ensures
        p.runtime == hi - lo,
{
    let ev = combined(timely, differential);
    let i = choose|i: int| 0 <= i < rows.len() && rows[i].id == w;
    assert(is_present(ops, subs, chs, ev, rows[i].id));
    assert(worker_row(rows[i], ops, subs, chs, differential, ev));
    let (lw, hw) = choose|lw: u64, hw: u64| is_span(ev, w, lw, hw) && rows[i].runtime == hw - lw;
    let a = choose|a: int| 0 <= a < ev.len() && ev[a].0 == w && ev[a].1 == lo;
    let b = choose|b: int| 0 <= b < ev.len() && ev[b].0 == w && ev[b].1 == hi;
    let c = choose|c: int| 0 <= c < ev.len() && ev[c].0 == w && ev[c].1 == lw;
    let e = choose|e: int| 0 <= e < ev.len() && ev[e].0 == w && ev[e].1 == hw;
    assert(lw <= ev[a].1);
    assert(ev[b].1 <= hw);
    assert(lo <= ev[c].1);
    assert(ev[e].1 <= hi);
    assert(rows[i].runtime == hi - lo);
    let j = choose|j: int| 0 <= j < rows.len() && rows[j].runtime == p.runtime;
    assert(is_present(ops, subs, chs, ev, rows[j].id));
    assert(worker_row(rows[j], ops, subs, chs, differential, ev));
    let (lj, hj) = choose|lj: u64, hj: u64| is_span(ev, rows[j].id, lj, hj) && rows[j].runtime == hj - lj;
    let f = choose|f: int| 0 <= f < ev.len() && ev[f].0 == rows[j].id && ev[f].1 == lj;
    let g = choose|g: int| 0 <= g < ev.len() && ev[g].0 == rows[j].id && ev[g].1 == hj;
    assert(lo <= ev[f].1);
    assert(ev[g].1 <= hi);
}

/// `b` begins with `a`: it holds what `a` holds and possibly more after it.
pub open spec fn extends<A>(a: Seq<A>, b: Seq<A>) -> bool {
    a.len() <= b.len() && b.subrange(0, a.len() as int) == a
}

pub open spec fn extends_opt(a: Option<Seq<DifferentialRecord>>, b: Option<Seq<DifferentialRecord>>) -> bool {
    match a {
        None => b is None,
        Some(x) => b is Some && extends(x, b->0),
    }
}

proof fn lemma_count_implied<A>(s: Seq<A>, p: spec_fn(A) -> bool, q: spec_fn(A) -> bool)
    requires
        forall|x: A| #[trigger] p(x) ==> q(x),
    ensures
        count_of(s, p) <= count_of(s, q),
    decreases s.len(),
{
    if s.len() > 0 {
        lemma_count_implied(s.drop_last(), p, q);
        assert(p(s.last()) ==> q(s.last()));
    }
}

/// A count over a sequence that only grows, of a property that only widens,
/// never falls.
proof fn lemma_count_grows<A>(a: Seq<A>, b: Seq<A>, p: spec_fn(A) -> bool, q: spec_fn(A) -> bool)
    requires
        extends(a, b),
        forall|x: A| #[trigger] p(x) ==> q(x),
    ensures
        count_of(a, p) <= count_of(b, q),
{
    lemma_count_implied(a, p, q);
    let rest = b.subrange(a.len() as int, b.len() as int);
    assert(b =~= a + rest);
    lemma_sum_of_append(a, rest, indicator(q));
    lemma_count_bounded(rest, q);
}

proof fn lemma_events_grow(
    t1: Seq<TimelyRecord>,
    t2: Seq<TimelyRecord>,
    d1: Option<Seq<DifferentialRecord>>,
    d2: Option<Seq<DifferentialRecord>>,
) -> (extra: Seq<(u64, u64)>)
    requires
        extends(t1, t2),
        extends_opt(d1, d2),
    ensures
        combined(t2, d2).to_multiset() == (combined(t1, d1) + extra).to_multiset(),
{
    broadcast use vstd::seq_lib::lemma_multiset_commutative;

    let et = t2.subrange(t1.len() as int, t2.len() as int);
    assert(t2 =~= t1 + et);
    assert(timely_events(t2) =~= timely_events(t1) + timely_events(et));
    match d1 {
        None => {
            let extra = timely_events(et);
            assert(combined(t2, d2) =~= timely_events(t1) + extra + Seq::<(u64, u64)>::empty());
            assert(combined(t1, d1) =~= timely_events(t1) + Seq::<(u64, u64)>::empty());
            assert(combined(t1, d1) + extra =~= timely_events(t1) + extra);
            assert(combined(t2, d2) =~= timely_events(t1) + extra);
            extra
        },
        Some(a) => {
            let b = d2->0;
            let ed = b.subrange(a.len() as int, b.len() as int);
            assert(b =~= a + ed);
            assert(differential_events(b) =~= differential_events(a) + differential_events(ed));
            let x1 = timely_events(t1);
            let x2 = timely_events(et);
            let y1 = differential_events(a);
            let y2 = differential_events(ed);
            let extra = x2 + y2;
            assert(combined(t2, d2) =~= (x1 + x2) + (y1 + y2));
            assert(combined(t1, d1) + extra =~= (x1 + y1) + (x2 + y2));
            assert(((x1 + x2) + (y1 + y2)).to_multiset() =~= ((x1 + y1) + (x2 + y2)).to_multiset());
            extra
        },
    }
}

pub open spec fn share_target(r: DifferentialRecord) -> u64 {
    match share_of(r.event) {
        Some(op) => op,
        None => 0,
    }
}

proof fn lemma_arrangements_grow(a: Seq<DifferentialRecord>, b: Seq<DifferentialRecord>, w: u64)
    requires
        extends(a, b),
    ensures
        arrangements_of(Some(a), w) <= arrangements_of(Some(b), w),
{
    broadcast use vstd::seq_lib::seq_to_set_is_finite;

    let s1 = Set::new(|op: u64| shares(a, w, op));
    let s2 = Set::new(|op: u64| shares(b, w, op));
    let all = b.map_values(|r: DifferentialRecord| share_target(r)).to_set();
    assert(s2.subset_of(all)) by {
        assert forall|op: u64| s2.contains(op) implies all.contains(op) by {
            let i = choose|i: int| 0 <= i < b.len() && b[i].worker == w && share_of(b[i].event) == Some(op);
            assert(b.map_values(|r: DifferentialRecord| share_target(r))[i] == op);
        }
    }
    vstd::set_lib::lemma_len_subset(s2, all);
    assert(s1.subset_of(s2)) by {
        assert forall|op: u64| s1.contains(op) implies s2.contains(op) by {
            let i = choose|i: int| 0 <= i < a.len() && a[i].worker == w && share_of(a[i].event) == Some(op);
            assert(b[i] == b.subrange(0, a.len() as int)[i]);
        }
    }
    vstd::set_lib::lemma_len_subset(s1, s2);
}

/// With insertions only, a worker's statistics never fall as its records
/// grow: its events, channels, subgraphs, dataflows, arrangements and runtime
/// all stay or rise. (A plain operator can turn into a subgraph, so the
/// count of plain operators is not among them.)
pub proof fn lemma_worker_stats_grow(
    t1: Seq<TimelyRecord>,
    t2: Seq<TimelyRecord>,
    d1: Option<Seq<DifferentialRecord>>,
    d2: Option<Seq<DifferentialRecord>>,
    chs1: Seq<(u64, Channel)>,
    chs2: Seq<(u64, Channel)>,
    subs1: Seq<(u64, Vec<u64>)>,
    subs2: Seq<(u64, Vec<u64>)>,
    ops1: Seq<(u64, Vec<u64>)>,
    ops2: Seq<(u64, Vec<u64>)>,
    r1: WorkerStats,
    r2: WorkerStats,
)
    requires
        extends(t1, t2),
        extends_opt(d1, d2),
        extends(chs1, chs2),
        extends(subs1, subs2),
        extends(ops1, ops2),
        r1.id == r2.id,
        worker_row(r1, ops1, subs1, chs1, d1, combined(t1, d1)),
        worker_row(r2, ops2, subs2, chs2, d2, combined(t2, d2)),
    ensures
        r1.events <= r2.events,
        r1.channels <= r2.channels,
        r1.subgraphs <= r2.subgraphs,
        r1.dataflows <= r2.dataflows,
        r1.arrangements <= r2.arrangements,
        r1.runtime <= r2.runtime,
{
    let w = r1.id;
    let ev1 = combined(t1, d1);
    let ev2 = combined(t2, d2);
    assert forall|x: (u64, Vec<u64>)| #[trigger] in_subgraphs(subs1, x.0, x.1@) implies in_subgraphs(subs2, x.0, x.1@) by {
        let i = choose|i: int| 0 <= i < subs1.len() && subs1[i].0 == x.0 && subs1[i].1@ == x.1@;
        assert(subs2[i] == subs2.subrange(0, subs1.len() as int)[i]);
    }
    assert forall|x: (u64, Vec<u64>)| #[trigger] of_worker(op_worker(), is_subgraph(subs1), w)(x) implies of_worker(
        op_worker(),
        is_subgraph(subs2),
        w,
    )(x) by {
        assert(in_subgraphs(subs1, x.0, x.1@));
    }
    lemma_count_grows(ops1, ops2, of_worker(op_worker(), is_subgraph(subs1), w), of_worker(op_worker(), is_subgraph(subs2), w));
    assert forall|x: (u64, Vec<u64>)| #[trigger] of_worker(op_worker(), is_dataflow(subs1), w)(x) implies of_worker(
        op_worker(),
        is_dataflow(subs2),
        w,
    )(x) by {
        assert(in_subgraphs(subs1, x.0, x.1@));
    }
    lemma_count_grows(ops1, ops2, of_worker(op_worker(), is_dataflow(subs1), w), of_worker(op_worker(), is_dataflow(subs2), w));
    lemma_count_grows(chs1, chs2, of_worker(channel_worker(), anything(), w), of_worker(channel_worker(), anything(), w));
    let extra = lemma_events_grow(t1, t2, d1, d2);
    let p = of_worker(event_worker(), anything(), w);
    assert((ev1 + extra).subrange(0, ev1.len() as int) =~= ev1);
    lemma_count_grows(ev1, ev1 + extra, p, p);
    lemma_sum_of_permutation(ev2, ev1 + extra, indicator(p));
    if d1 is Some {
        lemma_arrangements_grow(d1->0, d2->0, w);
    }
    let (lo1, hi1) = choose|lo: u64, hi: u64| is_span(ev1, w, lo, hi) && r1.runtime == hi - lo;
    let (lo2, hi2) = choose|lo: u64, hi: u64| is_span(ev2, w, lo, hi) && r2.runtime == hi - lo;
    let a = choose|a: int| 0 <= a < ev1.len() && ev1[a].0 == w && ev1[a].1 == lo1;
    let b = choose|b: int| 0 <= b < ev1.len() && ev1[b].0 == w && ev1[b].1 == hi1;
    assert(ev2.contains(ev1[a])) by {
        assert((ev1 + extra)[a] == ev1[a]);
        assert((ev1 + extra).contains(ev1[a]));
        assert((ev1 + extra).to_multiset().count(ev1[a]) > 0);
        assert(ev2.to_multiset().count(ev1[a]) > 0);
    }
    assert(ev2.contains(ev1[b])) by {
        assert((ev1 + extra)[b] == ev1[b]);
        assert((ev1 + extra).contains(ev1[b]));
        assert((ev1 + extra).to_multiset().count(ev1[b]) > 0);
        assert(ev2.to_multiset().count(ev1[b]) > 0);
    }
    let a2 = choose|i: int| 0 <= i < ev2.len() && ev2[i] == ev1[a];
    let b2 = choose|i: int| 0 <= i < ev2.len() && ev2[i] == ev1[b];
    assert(lo2 <= ev2[a2].1);
    assert(ev2[b2].1 <= hi2);
}

proof fn lemma_sum_of_map<A, B>(s: Seq<A>, f: spec_fn(A) -> B, g: spec_fn(B) -> int)
    ensures
        sum_of(s.map_values(f), g) == sum_of(s, |x: A| g(f(x))),
    decreases s.len(),
{
    if s.len() > 0 {
        lemma_sum_of_map(s.drop_last(), f, g);
        assert(s.map_values(f).drop_last() =~= s.drop_last().map_values(f));
    }
}

/// Permuting the records leaves the multiset of events unchanged, counted
/// by any property.
proof fn lemma_event_count_permuted(
    t1: Seq<TimelyRecord>,
    t2: Seq<TimelyRecord>,
    d1: Option<Seq<DifferentialRecord>>,
    d2: Option<Seq<DifferentialRecord>>,
    p: spec_fn((u64, u64)) -> bool,
)
    requires
        t1.to_multiset() == t2.to_multiset(),
        same_log(d1, d2),
    ensures
        count_of(combined(t1, d1), p) == count_of(combined(t2, d2), p),
{
    let ft = |e: TimelyRecord| (e.worker, e.event_time);
    lemma_sum_of_append(timely_events(t1), combined(t1, d1).subrange(t1.len() as int, combined(t1, d1).len() as int), indicator(p));
    lemma_sum_of_append(timely_events(t2), combined(t2, d2).subrange(t2.len() as int, combined(t2, d2).len() as int), indicator(p));
    assert(combined(t1, d1) =~= timely_events(t1) + combined(t1, d1).subrange(t1.len() as int, combined(t1, d1).len() as int));
    assert(combined(t2, d2) =~= timely_events(t2) + combined(t2, d2).subrange(t2.len() as int, combined(t2, d2).len() as int));
    lemma_sum_of_map(t1, ft, indicator(p));
    lemma_sum_of_map(t2, ft, indicator(p));
    lemma_sum_of_permutation(t1, t2, |x: TimelyRecord| indicator(p)(ft(x)));
    assert(t1.to_multiset().len() == t1.len());
    assert(t2.to_multiset().len() == t2.len());
    match d1 {
        None => {
            assert(combined(t1, d1).subrange(t1.len() as int, combined(t1, d1).len() as int) =~= Seq::<(u64, u64)>::empty());
            assert(combined(t2, d2).subrange(t2.len() as int, combined(t2, d2).len() as int) =~= Seq::<(u64, u64)>::empty());
        },
        Some(a) => {
            let b = d2->0;
            let fd = |e: DifferentialRecord| (e.worker, e.event_time);
            assert(combined(t1, d1).subrange(t1.len() as int, combined(t1, d1).len() as int) =~= differential_events(a));
            assert(combined(t2, d2).subrange(t2.len() as int, combined(t2, d2).len() as int) =~= differential_events(b));
            lemma_sum_of_map(a, fd, indicator(p));
            lemma_sum_of_map(b, fd, indicator(p));
            lemma_sum_of_permutation(a, b, |x: DifferentialRecord| indicator(p)(fd(x)));
        },
    }
}

/// Both logs are absent, or both hold the same records in some order.
pub open spec fn same_log(a: Option<Seq<DifferentialRecord>>, b: Option<Seq<DifferentialRecord>>) -> bool {
    match a {
        None => b is None,
        Some(x) => b is Some && x.to_multiset() == b->0.to_multiset(),
    }
}

/// The order in which records arrive does not matter: with every input
/// permuted, a worker is present in one run exactly when it is in the other,
/// and its counts, arrangements and runtime agree.
pub proof fn lemma_worker_stats_order_free(
    t1: Seq<TimelyRecord>,
    t2: Seq<TimelyRecord>,
    d1: Option<Seq<DifferentialRecord>>,
    d2: Option<Seq<DifferentialRecord>>,
    chs1: Seq<(u64, Channel)>,
    chs2: Seq<(u64, Channel)>,
    subs1: Seq<(u64, Vec<u64>)>,
    subs2: Seq<(u64, Vec<u64>)>,
    ops1: Seq<(u64, Vec<u64>)>,
    ops2: Seq<(u64, Vec<u64>)>,
    r1: WorkerStats,
    r2: WorkerStats,
)
    requires
        t1.to_multiset() == t2.to_multiset(),
        same_log(d1, d2),
        chs1.to_multiset() == chs2.to_multiset(),
        subs1.to_multiset() == subs2.to_multiset(),
        ops1.to_multiset() == ops2.to_multiset(),
        r1.id == r2.id,
        worker_row(r1, ops1, subs1, chs1, d1, combined(t1, d1)),
        worker_row(r2, ops2, subs2, chs2, d2, combined(t2, d2)),
    ensures
        is_present(ops1, subs1, chs1, combined(t1, d1), r1.id) == is_present(ops2, subs2, chs2, combined(t2, d2), r2.id),
        r1.events == r2.events,
        r1.channels == r2.channels,
        r1.subgraphs == r2.subgraphs,
        r1.operators == r2.operators,
        r1.dataflows == r2.dataflows,
        r1.arrangements == r2.arrangements,
        r1.runtime == r2.runtime,
        forall|a: Seq<u64>| #[trigger]
            count_of(r1.dataflow_addrs@, addr_is(a)) == count_of(r2.dataflow_addrs@, addr_is(a)),
{
    let w = r1.id;
    assert forall|a: Seq<u64>| #[trigger] in_subgraphs(subs1, w, a) == in_subgraphs(subs2, w, a) by {
        if in_subgraphs(subs1, w, a) {
            let i = choose|i: int| 0 <= i < subs1.len() && subs1[i].0 == w && subs1[i].1@ == a;
            assert(subs1.contains(subs1[i]));
            assert(subs2.to_multiset().count(subs1[i]) > 0);
            let j = choose|j: int| 0 <= j < subs2.len() && subs2[j] == subs1[i];
        }
        if in_subgraphs(subs2, w, a) {
            let i = choose|i: int| 0 <= i < subs2.len() && subs2[i].0 == w && subs2[i].1@ == a;
            assert(subs2.contains(subs2[i]));
            assert(subs1.to_multiset().count(subs2[i]) > 0);
            let j = choose|j: int| 0 <= j < subs1.len() && subs1[j] == subs2[i];
        }
    }
    lemma_sum_of_permutation(ops1, ops2, indicator(of_worker(op_worker(), is_subgraph(subs1), w)));
    lemma_sum_of_permutation(ops1, ops2, indicator(of_worker(op_worker(), is_operator(subs1), w)));
    lemma_sum_of_permutation(ops1, ops2, indicator(of_worker(op_worker(), is_dataflow(subs1), w)));
    assert(of_worker(op_worker(), is_subgraph(subs1), w) =~= of_worker(op_worker(), is_subgraph(subs2), w));
    assert(of_worker(op_worker(), is_operator(subs1), w) =~= of_worker(op_worker(), is_operator(subs2), w));
    assert(of_worker(op_worker(), is_dataflow(subs1), w) =~= of_worker(op_worker(), is_dataflow(subs2), w));
    assert forall|a: Seq<u64>| #[trigger]
        count_of(r1.dataflow_addrs@, addr_is(a)) == count_of(r2.dataflow_addrs@, addr_is(a)) by {
        lemma_sum_of_permutation(ops1, ops2, indicator(dataflow_at(subs1, w, a)));
        assert(dataflow_at(subs1, w, a) =~= dataflow_at(subs2, w, a));
    }
    lemma_sum_of_permutation(chs1, chs2, indicator(of_worker(channel_worker(), anything(), w)));
    lemma_event_count_permuted(t1, t2, d1, d2, of_worker(event_worker(), anything(), w));
    if d1 is Some {
        let a = d1->0;
        let b = d2->0;
        assert(Set::new(|op: u64| shares(a, w, op)) =~= Set::new(|op: u64| shares(b, w, op))) by {
            assert forall|op: u64| shares(a, w, op) == shares(b, w, op) by {
                if shares(a, w, op) {
                    let i = choose|i: int| 0 <= i < a.len() && a[i].worker == w && share_of(a[i].event) == Some(op);
                    assert(a.contains(a[i]));
                    assert(b.to_multiset().count(a[i]) > 0);
                    let j = choose|j: int| 0 <= j < b.len() && b[j] == a[i];
                }
                if shares(b, w, op) {
                    let i = choose|i: int| 0 <= i < b.len() && b[i].worker == w && share_of(b[i].event) == Some(op);
                    assert(b.contains(b[i]));
                    assert(a.to_multiset().count(b[i]) > 0);
                    let j = choose|j: int| 0 <= j < a.len() && a[j] == b[i];
                }
            }
        }
    }
    let ev1 = combined(t1, d1);
    let ev2 = combined(t2, d2);
    let (lo1, hi1) = choose|lo: u64, hi: u64| is_span(ev1, w, lo, hi) && r1.runtime == hi - lo;
    let (lo2, hi2) = choose|lo: u64, hi: u64| is_span(ev2, w, lo, hi) && r2.runtime == hi - lo;
    let a1 = choose|a: int| 0 <= a < ev1.len() && ev1[a].0 == w && ev1[a].1 == lo1;
    let b1 = choose|b: int| 0 <= b < ev1.len() && ev1[b].0 == w && ev1[b].1 == hi1;
    let a2 = choose|a: int| 0 <= a < ev2.len() && ev2[a].0 == w && ev2[a].1 == lo2;
    let b2 = choose|b: int| 0 <= b < ev2.len() && ev2[b].0 == w && ev2[b].1 == hi2;
    lemma_event_in_both(t1, t2, d1, d2, a1);
    lemma_event_in_both(t1, t2, d1, d2, b1);
    lemma_event_in_both(t2, t1, d2, d1, a2);
    lemma_event_in_both(t2, t1, d2, d1, b2);
    let ia = choose|j: int| 0 <= j < ev2.len() && ev2[j] == ev1[a1];
    let ib = choose|j: int| 0 <= j < ev2.len() && ev2[j] == ev1[b1];
    let ja = choose|j: int| 0 <= j < ev1.len() && ev1[j] == ev2[a2];
    let jb = choose|j: int| 0 <= j < ev1.len() && ev1[j] == ev2[b2];
    assert(lo2 <= ev2[ia].1 && ev2[ib].1 <= hi2);
    assert(lo1 <= ev1[ja].1 && ev1[jb].1 <= hi1);
}

/// An event of one run is an event of the other.
proof fn lemma_event_in_both(
    t1: Seq<TimelyRecord>,
    t2: Seq<TimelyRecord>,
    d1: Option<Seq<DifferentialRecord>>,
    d2: Option<Seq<DifferentialRecord>>,
    i: int,
)
    requires
        t1.to_multiset() == t2.to_multiset(),
        same_log(d1, d2),
        0 <= i < combined(t1, d1).len(),
    ensures
        combined(t2, d2).contains(combined(t1, d1)[i]),
{
    let x = combined(t1, d1)[i];
    let p = |e: (u64, u64)| e == x;
    lemma_event_count_permuted(t1, t2, d1, d2, p);
    lemma_count_bounded(combined(t1, d1), p);
    if count_of(combined(t1, d1), p) == 0 {
        lemma_zero_count_absent(combined(t1, d1), p, i);
    }
    let s2 = combined(t2, d2);
    if !s2.contains(x) {
        assert forall|j: int| 0 <= j < s2.len() implies !p(#[trigger] s2[j]) by {}
        lemma_count_none(s2, p);
    }
}

} // verus!
