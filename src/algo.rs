use vstd::prelude::*;

use crate::sim::{ran, SimProcess, OrderKind};
use crate::structures::DLL;

verus! {

/// How the stable sort ranks records.
#[derive(Debug, Clone, Copy, PartialEq, Eq, Structural)]
pub enum SortRule {
    /// Smallest key first, each record's key as its order key selects.
    ByKey,
    /// Highest priority value first.
    HighestPriorityFirst,
}

/// The rank of a record under `rule`; the sort puts lower ranks first.
pub open spec fn rank(p: SimProcess, rule: SortRule) -> int {
    match rule {
        SortRule::ByKey => p.key(),
        SortRule::HighestPriorityFirst => -(p.priority as int),
    }
}

/// The records of `s` whose rank under `rule` is `v`, in their order in `s`.
pub open spec fn ranked(s: Seq<SimProcess>, rule: SortRule, v: int) -> Seq<SimProcess> {
    s.filter(|p: SimProcess| rank(p, rule) == v)
}

/// `s` is in non-decreasing rank.
pub open spec fn sorted_by(s: Seq<SimProcess>, rule: SortRule) -> bool {
    forall|i: int, j: int| 0 <= i < j < s.len() ==> rank(s[i], rule) <= rank(s[j], rule)
}

/// `out` is what a stable sort of `inp` under `rule` gives: the same records, in
/// non-decreasing rank, those of equal rank in their order in `inp`.
pub open spec fn stable_sort_of(out: Seq<SimProcess>, inp: Seq<SimProcess>, rule: SortRule) -> bool {
    &&& sorted_by(out, rule)
    &&& out.to_multiset() == inp.to_multiset()
    &&& forall|v: int| #[trigger] ranked(out, rule, v) == ranked(inp, rule, v)
}

proof fn lemma_ranked_none(s: Seq<SimProcess>, rule: SortRule, v: int)
    requires
        forall|i: int| 0 <= i < s.len() ==> rank(#[trigger] s[i], rule) != v,
    ensures
        ranked(s, rule, v) == Seq::<SimProcess>::empty(),
    decreases s.len(),
{
    reveal(Seq::filter);
    if s.len() > 0 {
        lemma_ranked_none(s.drop_last(), rule, v);
    }
}

proof fn lemma_ranked_push(s: Seq<SimProcess>, x: SimProcess, rule: SortRule)
    ensures
        forall|v: int| #[trigger] ranked(s.push(x), rule, v) == if rank(x, rule) == v {
            ranked(s, rule, v).push(x)
        } else {
            ranked(s, rule, v)
        },
{
    assert forall|v: int| #[trigger] ranked(s.push(x), rule, v) == if rank(x, rule) == v {
        ranked(s, rule, v).push(x)
    } else {
        ranked(s, rule, v)
    } by {
        s.lemma_filter_push(x, |p: SimProcess| rank(p, rule) == v);
    }
}

/// Whether `a` ranks no later than `b` under `rule`.
fn ranks_le(a: &SimProcess, b: &SimProcess, rule: SortRule) -> (r: bool)
    ensures
        r == (rank(*a, rule) <= rank(*b, rule)),
{
    match rule {
        SortRule::ByKey => {
            let ka: u32 = match a.order {
                OrderKind::Burst => a.remaining_burst,
                OrderKind::Priority => a.priority as u32,
            };
            let kb: u32 = match b.order {
                OrderKind::Burst => b.remaining_burst,
                OrderKind::Priority => b.priority as u32,
            };
            ka <= kb
        },
        SortRule::HighestPriorityFirst => a.priority >= b.priority,
    }
}

/// Merges two sorted runs, taking from `a` on ties.
fn merge(a: Vec<SimProcess>, b: Vec<SimProcess>, rule: SortRule) -> (out: Vec<SimProcess>)
    requires
        sorted_by(a@, rule),
        sorted_by(b@, rule),
    ensures
        sorted_by(out@, rule),
        out@.to_multiset() == a@.to_multiset().add(b@.to_multiset()),
        forall|v: int| #[trigger] ranked(out@, rule, v) == ranked(a@, rule, v) + ranked(b@, rule, v),
{
    broadcast use vstd::seq_lib::group_to_multiset_ensures, vstd::multiset::group_multiset_axioms;

    let ghost sa = a@;
    let ghost sb = b@;
    let mut qa = DLL::from_vec(a);
    let mut qb = DLL::from_vec(b);
    let mut out: Vec<SimProcess> = Vec::new();
    let ghost mut ia: int = 0;
    let ghost mut ib: int = 0;
    proof {
        assert(sa.take(0) =~= Seq::<SimProcess>::empty());
        assert(sb.take(0) =~= Seq::<SimProcess>::empty());
        assert forall|v: int| #[trigger] ranked(out@, rule, v) == ranked(sa.take(ia), rule, v)
            + ranked(sb.take(ib), rule, v) by {
            reveal(Seq::filter);
            assert(ranked(Seq::<SimProcess>::empty(), rule, v) + ranked(Seq::<SimProcess>::empty(), rule, v) =~= Seq::<SimProcess>::empty());
        }
    }
    while !(qa.is_empty() && qb.is_empty())
        invariant
            qa.wf(),
            qb.wf(),
            0 <= ia <= sa.len(),
            0 <= ib <= sb.len(),
            qa@ == sa.subrange(ia, sa.len() as int),
            qb@ == sb.subrange(ib, sb.len() as int),
            out@.len() == ia + ib,
            sorted_by(sa, rule),
            sorted_by(sb, rule),
            sorted_by(out@, rule),
            out@.to_multiset() == sa.take(ia).to_multiset().add(sb.take(ib).to_multiset()),
            out@.len() > 0 && ia < sa.len() ==> rank(out@.last(), rule) <= rank(sa[ia], rule),
            out@.len() > 0 && ib < sb.len() ==> rank(out@.last(), rule) <= rank(sb[ib], rule),
            ia < sa.len() ==> forall|j: int| 0 <= j < ib ==> rank(#[trigger] sb[j], rule) < rank(sa[ia], rule),
            forall|v: int| #[trigger] ranked(out@, rule, v) == ranked(sa.take(ia), rule, v)
                + ranked(sb.take(ib), rule, v),
        decreases qa@.len() + qb@.len(),
    {
        let take_a = match (qa.front(), qb.front()) {
            (Some(x), Some(y)) => ranks_le(x, y, rule),
            (Some(_), None) => true,
            _ => false,
        };
        let ghost prev = out@;
        if take_a {
            let x = qa.pop_front().unwrap();
            proof {
                assert(x == sa[ia]);
                assert(sa.take(ia + 1) =~= sa.take(ia).push(x));
                lemma_ranked_push(prev, x, rule);
                lemma_ranked_push(sa.take(ia), x, rule);
                lemma_ranked_none(sb.take(ib), rule, rank(x, rule));
                assert forall|v: int| #[trigger] ranked(prev.push(x), rule, v) == ranked(sa.take(ia + 1), rule, v)
                    + ranked(sb.take(ib), rule, v) by {
                    if rank(x, rule) == v {
                        assert(ranked(sa.take(ia), rule, v).push(x) + Seq::<SimProcess>::empty()
                            =~= ranked(sa.take(ia), rule, v).push(x));
                    }
                }
            }
            out.push(x);
            proof {
                assert(out@ == prev.push(x));
                vstd::seq_lib::to_multiset_build(prev, x);
                vstd::seq_lib::to_multiset_build(sa.take(ia), x);
                assert(out@.to_multiset() =~= sa.take(ia + 1).to_multiset().add(sb.take(ib).to_multiset()));
                ia = ia + 1;
                assert(sorted_by(out@, rule));
            }
        } else {
            let y = qb.pop_front().unwrap();
            proof {
                assert(y == sb[ib]);
                assert(sb.take(ib + 1) =~= sb.take(ib).push(y));
                lemma_ranked_push(prev, y, rule);
                lemma_ranked_push(sb.take(ib), y, rule);
                assert forall|v: int| #[trigger] ranked(prev.push(y), rule, v) == ranked(sa.take(ia), rule, v)
                    + ranked(sb.take(ib + 1), rule, v) by {
                    if rank(y, rule) == v {
                        assert(ranked(sa.take(ia), rule, v) + ranked(sb.take(ib), rule, v).push(y)
                            =~= (ranked(sa.take(ia), rule, v) + ranked(sb.take(ib), rule, v)).push(y));
                    }
                }
            }
            out.push(y);
            proof {
                assert(out@ == prev.push(y));
                vstd::seq_lib::to_multiset_build(prev, y);
                vstd::seq_lib::to_multiset_build(sb.take(ib), y);
                assert(out@.to_multiset() =~= sa.take(ia).to_multiset().add(sb.take(ib + 1).to_multiset()));
                ib = ib + 1;
                assert(sorted_by(out@, rule));
            }
        }
    }
    proof {
        assert(sa.take(ia) =~= sa);
        assert(sb.take(ib) =~= sb);
    }
    out
}

/// Sorts a run by splitting it into halves of ⌈n/2⌉ and ⌊n/2⌋ records, sorting both and
/// merging them; a run of at most one record is sorted already.
fn thunk_mergesort(collection: Vec<SimProcess>, rule: SortRule) -> (out: Vec<SimProcess>)
    ensures
        stable_sort_of(out@, collection@, rule),
    decreases collection@.len(),
{
    let length = collection.len();
    if length <= 1 {
        return collection;
    }
    let len_a = length - length / 2;
    let mut collection_a = collection;
    let collection_b = collection_a.split_off(len_a);
    let ghost sa = collection_a@;
    let ghost sb = collection_b@;
    let sorted_a = thunk_mergesort(collection_a, rule);
    let sorted_b = thunk_mergesort(collection_b, rule);
    let out = merge(sorted_a, sorted_b, rule);
    proof {
        assert(sa + sb =~= collection@);
        vstd::seq_lib::lemma_multiset_commutative(sa, sb);
        assert forall|v: int| #[trigger] ranked(out@, rule, v) == ranked(collection@, rule, v) by {
            Seq::filter_distributes_over_add(sa, sb, |p: SimProcess| rank(p, rule) == v);
        }
    }
    out
}

/// A stable merge sort under `rule`: the result holds the same records in non-decreasing
/// rank, and records of equal rank keep their relative order.
pub fn mergesort(collection: Vec<SimProcess>, rule: SortRule) -> (out: Vec<SimProcess>)
    ensures
        stable_sort_of(out@, collection@, rule),
{
    if collection.len() == 0 {
        collection
    } else {
        thunk_mergesort(collection, rule)
    }
}

/// The CPU time that the records of `s` still need, together.
pub open spec fn total_burst(s: Seq<SimProcess>) -> int
    decreases s.len(),
{
    if s.len() == 0 {
        0
    } else {
        total_burst(s.drop_last()) + s.last().remaining_burst
    }
}

/// No record of `s` has run yet.
pub open spec fn all_fresh(s: Seq<SimProcess>) -> bool {
    forall|i: int| 0 <= i < s.len() ==> (#[trigger] s[i]).running_time == 0
}

/// First-come-first-served on `s`: each record in turn runs its whole remaining burst,
/// dispatched when all those before it have finished.
pub open spec fn fcfs_of(s: Seq<SimProcess>) -> Seq<SimProcess> {
    Seq::new(s.len(), |i: int| ran(s[i], total_burst(s.take(i)), s[i].remaining_burst as int))
}

proof fn lemma_total_burst_prefix(s: Seq<SimProcess>, i: int)
    requires
        0 <= i <= s.len(),
    ensures
        0 <= total_burst(s.take(i)) <= total_burst(s),
    decreases s.len() - i,
{
    if i == s.len() {
        assert(s.take(i) =~= s);
        lemma_total_burst_nonneg(s);
    } else {
        lemma_total_burst_prefix(s, i + 1);
        assert(s.take(i + 1).drop_last() =~= s.take(i));
        lemma_total_burst_nonneg(s.take(i));
    }
}

proof fn lemma_total_burst_nonneg(s: Seq<SimProcess>)
    ensures
        total_burst(s) >= 0,
    decreases s.len(),
{
    if s.len() > 0 {
        lemma_total_burst_nonneg(s.drop_last());
    }
}

proof fn lemma_total_burst_remove(s: Seq<SimProcess>, i: int)
    requires
        0 <= i < s.len(),
    ensures
        total_burst(s) == total_burst(s.remove(i)) + s[i].remaining_burst,
    decreases s.len(),
{
    if i < s.len() - 1 {
        lemma_total_burst_remove(s.drop_last(), i);
        assert(s.remove(i).drop_last() =~= s.drop_last().remove(i));
    } else {
        assert(s.remove(i) =~= s.drop_last());
    }
}

/// Reordering records does not change the CPU time they need together.
proof fn lemma_total_burst_permutation(a: Seq<SimProcess>, b: Seq<SimProcess>)
    requires
        a.to_multiset() == b.to_multiset(),
    ensures
        total_burst(a) == total_burst(b),
    decreases a.len(),
{
    broadcast use vstd::seq_lib::group_to_multiset_ensures, vstd::multiset::group_multiset_axioms;

    if a.len() == 0 {
        assert(b.to_multiset().len() == 0);
    } else {
        let x = a.last();
        assert(a.drop_last().push(x) =~= a);
        vstd::seq_lib::to_multiset_build(a.drop_last(), x);
        assert(b.to_multiset().count(x) > 0);
        assert(b.contains(x));
        let j = choose|j: int| 0 <= j < b.len() && b[j] == x;
        assert(b.remove(j).to_multiset() =~= b.to_multiset().remove(x));
        assert(a.drop_last().to_multiset() =~= a.to_multiset().remove(x));
        lemma_total_burst_permutation(a.drop_last(), b.remove(j));
        lemma_total_burst_remove(b, j);
    }
}

/// First-come-first-served: runs each process to completion in arrival order.
pub fn fcfs(incoming: Vec<SimProcess>) -> (finished: Vec<SimProcess>)
    requires
        all_fresh(incoming@),
        total_burst(incoming@) <= u32::MAX,
    ensures
        finished@ == fcfs_of(incoming@),
{
    let ghost s = incoming@;
    let mut queue = DLL::from_vec(incoming);
    let mut finished: Vec<SimProcess> = Vec::new();
    let mut running_time: u32 = 0;
    let ghost mut i: int = 0;
    while !queue.is_empty()
        invariant
            queue.wf(),
            0 <= i <= s.len(),
            queue@ == s.subrange(i, s.len() as int),
            finished@ == fcfs_of(s).take(i),
            running_time == total_burst(s.take(i)),
            all_fresh(s),
            total_burst(s) <= u32::MAX,
        decreases queue@.len(),
    {
        let mut process_current = queue.pop_front().unwrap();
        let burst_time = process_current.remaining_burst;
        proof {
            assert(process_current == s[i]);
            assert(s.take(i + 1).drop_last() =~= s.take(i));
            lemma_total_burst_prefix(s, i + 1);
        }
        process_current.run_burst(running_time, burst_time);
        finished.push(process_current);
        running_time = running_time + burst_time;
        proof {
            assert(finished@ =~= fcfs_of(s).take(i + 1));
            i = i + 1;
        }
    }
    proof {
        assert(fcfs_of(s).take(i) =~= fcfs_of(s));
    }
    finished
}

/// Orders the processes by their keys, smallest first and arrival order among equal keys,
/// then runs them first-come-first-served.  With burst keys this is shortest-job-first;
/// with priority keys, priority scheduling.
pub fn sort_before_fcfs(incoming: Vec<SimProcess>) -> (finished: Vec<SimProcess>)
    requires
        all_fresh(incoming@),
        total_burst(incoming@) <= u32::MAX,
    ensures
        exists|sorted: Seq<SimProcess>|
            stable_sort_of(sorted, incoming@, SortRule::ByKey) && finished@ == fcfs_of(sorted),
{
    let ghost s = incoming@;
    let sorted = mergesort(incoming, SortRule::ByKey);
    proof {
        lemma_total_burst_permutation(sorted@, s);
        broadcast use vstd::seq_lib::group_to_multiset_ensures;
        assert forall|i: int| 0 <= i < sorted@.len() implies (#[trigger] sorted@[i]).running_time == 0 by {
            assert(sorted@.to_multiset().count(sorted@[i]) > 0);
            assert(s.contains(sorted@[i]));
        }
    }
    fcfs(sorted)
}

/// The position in `q` of the first record whose priority is below `priority`, or the
/// length of `q` where there is none.
pub open spec fn first_lower(q: Seq<SimProcess>, priority: u8) -> int
    decreases q.len(),
{
    if q.len() == 0 {
        0
    } else if q[0].priority < priority {
        0
    } else {
        1 + first_lower(q.drop_first(), priority)
    }
}

/// Where a record that still needs CPU time goes back into the queue: at the tail for
/// plain round-robin; by priority, just before the first record of lower priority.
pub open spec fn requeue(q: Seq<SimProcess>, p: SimProcess, by_priority: bool) -> Seq<SimProcess> {
    if by_priority {
        q.insert(first_lower(q, p.priority), p)
    } else {
        q.push(p)
    }
}

/// The CPU time granted to `p` in one dispatch: a quantum, or what is left where that
/// is less.
pub open spec fn slice_of(p: SimProcess, quantum: int) -> int {
    if p.remaining_burst > quantum {
        quantum
    } else {
        p.remaining_burst as int
    }
}

/// One dispatch of a rotating scheduler on (queue, finished, clock): the head of the queue
/// runs for its slice; it then joins the finished records if it has no burst left, and
/// goes back into the queue otherwise.  An empty queue stays as it is.
pub open spec fn rotation_step(
    st: (Seq<SimProcess>, Seq<SimProcess>, int),
    quantum: int,
    by_priority: bool,
) -> (Seq<SimProcess>, Seq<SimProcess>, int) {
    let (q, done, clock) = st;
    if q.len() == 0 {
        st
    } else {
        let b = slice_of(q[0], quantum);
        let p = ran(q[0], clock, b);
        if p.remaining_burst == 0 {
            (q.drop_first(), done.push(p), clock + b)
        } else {
            (requeue(q.drop_first(), p, by_priority), done, clock + b)
        }
    }
}

/// The state of a rotating scheduler after `n` dispatches from `st`.
pub open spec fn rotation_after(
    st: (Seq<SimProcess>, Seq<SimProcess>, int),
    quantum: int,
    by_priority: bool,
    n: nat,
) -> (Seq<SimProcess>, Seq<SimProcess>, int)
    decreases n,
{
    if n == 0 {
        st
    } else {
        rotation_step(rotation_after(st, quantum, by_priority, (n - 1) as nat), quantum, by_priority)
    }
}

/// What a rotating scheduler started on `q` at time 0 has finished once its queue is empty.
pub open spec fn rotation_result(
    q: Seq<SimProcess>,
    quantum: int,
    by_priority: bool,
    finished: Seq<SimProcess>,
) -> bool {
    exists|n: nat|
        {
            let st = #[trigger] rotation_after((q, Seq::empty(), 0), quantum, by_priority, n);
            st.0.len() == 0 && st.1 == finished
        }
}

proof fn lemma_first_lower(q: Seq<SimProcess>, priority: u8)
    ensures
        0 <= first_lower(q, priority) <= q.len(),
        forall|i: int| 0 <= i < first_lower(q, priority) ==> (#[trigger] q[i]).priority >= priority,
        first_lower(q, priority) < q.len() ==> q[first_lower(q, priority)].priority < priority,
    decreases q.len(),
{
    if q.len() > 0 && q[0].priority >= priority {
        lemma_first_lower(q.drop_first(), priority);
        assert forall|i: int| 0 <= i < first_lower(q, priority) implies (#[trigger] q[i]).priority >= priority by {
            if i > 0 {
                assert(q[i] == q.drop_first()[i - 1]);
            }
        }
    }
}

/// The position of the first queued record whose priority is below `priority`, or the
/// length of the queue where there is none.
fn find_first_lower(queue: &DLL<SimProcess>, priority: u8) -> (r: usize)
    requires
        queue.wf(),
    ensures
        r == first_lower(queue@, priority),
{
    proof {
        lemma_first_lower(queue@, priority);
    }
    let total = queue.len();
    let mut it = queue.iter();
    let mut index: usize = 0;
    loop
        invariant
            total == queue@.len(),
            it.wf(),
            queue.wf(),
            index + it@.len() == queue@.len(),
            it@ == queue@.subrange(index as int, queue@.len() as int),
            index <= first_lower(queue@, priority),
            0 <= first_lower(queue@, priority) <= queue@.len(),
            forall|i: int| 0 <= i < first_lower(queue@, priority) ==> (#[trigger] queue@[i]).priority >= priority,
            first_lower(queue@, priority) < queue@.len() ==> queue@[first_lower(queue@, priority)].priority < priority,
        decreases it@.len(),
    {
        match it.next() {
            None => {
                return index;
            },
            Some(p) => {
                proof {
                    assert(*p == queue@[index as int]);
                }
                if p.priority < priority {
                    return index;
                }
                index = index + 1;
            },
        }
    }
}

proof fn lemma_total_burst_requeue(q: Seq<SimProcess>, p: SimProcess, by_priority: bool)
    ensures
        total_burst(requeue(q, p, by_priority)) == total_burst(q) + p.remaining_burst,
{
    if by_priority {
        lemma_first_lower(q, p.priority);
        let k = first_lower(q, p.priority);
        lemma_total_burst_remove(q.insert(k, p), k);
        assert(q.insert(k, p).remove(k) =~= q);
    } else {
        assert(q.push(p).drop_last() =~= q);
    }
}

proof fn lemma_requeue_members(q: Seq<SimProcess>, p: SimProcess, by_priority: bool, i: int)
    requires
        0 <= i < requeue(q, p, by_priority).len(),
    ensures
        requeue(q, p, by_priority).len() == q.len() + 1,
        requeue(q, p, by_priority)[i] == p || exists|j: int|
            0 <= j < q.len() && requeue(q, p, by_priority)[i] == q[j],
{
    lemma_first_lower(q, p.priority);
    if by_priority {
        let k = first_lower(q, p.priority);
        if i < k {
            assert(requeue(q, p, by_priority)[i] == q[i]);
        } else if i > k {
            assert(requeue(q, p, by_priority)[i] == q[i - 1]);
        }
    } else {
        if i < q.len() {
            assert(requeue(q, p, by_priority)[i] == q[i]);
        }
    }
}

/// One dispatch of a rotating scheduler: see `rotation_step`.
fn dispatch(
    queue: &mut DLL<SimProcess>,
    finished: &mut Vec<SimProcess>,
    clock: &mut u32,
    quantum: u32,
    by_priority: bool,
)
    requires
        old(queue).wf(),
        old(queue)@.len() > 0,
        quantum > 0,
        *old(clock) + total_burst(old(queue)@) <= u32::MAX,
        forall|i: int| 0 <= i < old(queue)@.len() ==> (#[trigger] old(queue)@[i]).running_time <= *old(clock),
    ensures
        final(queue).wf(),
        (final(queue)@, final(finished)@, *final(clock) as int) == rotation_step(
            (old(queue)@, old(finished)@, *old(clock) as int),
            quantum as int,
            by_priority,
        ),
        *final(clock) + total_burst(final(queue)@) == *old(clock) + total_burst(old(queue)@),
        forall|i: int| 0 <= i < final(queue)@.len() ==> (#[trigger] final(queue)@[i]).running_time <= *final(clock),
        total_burst(final(queue)@) + final(queue)@.len() < total_burst(old(queue)@) + old(queue)@.len(),
{
    let ghost q = queue@;
    let _ = queue.len();
    let mut process = queue.pop_front().unwrap();
    proof {
        assert(q.remove(0) =~= q.drop_first());
        lemma_total_burst_remove(q, 0);
        lemma_total_burst_nonneg(q.drop_first());
        assert(process == q[0]);
    }
    let burst = if process.remaining_burst > quantum {
        quantum
    } else {
        process.remaining_burst
    };
    process.run_burst(*clock, burst);
    *clock = *clock + burst;
    if process.remaining_burst == 0 {
        finished.push(process);
    } else {
        proof {
            lemma_total_burst_requeue(q.drop_first(), process, by_priority);
        }
        if by_priority {
            let index = find_first_lower(queue, process.priority);
            proof {
                lemma_first_lower(queue@, process.priority);
            }
            let _ = queue.insert(index, process);
        } else {
            queue.append(process);
        }
        proof {
            assert forall|i: int| 0 <= i < queue@.len() implies (#[trigger] queue@[i]).running_time <= *clock by {
                lemma_requeue_members(q.drop_first(), ran(q[0], *old(clock) as int, burst as int), by_priority, i);
            }
        }
    }
}

/// Runs a rotating scheduler on `queue` from time 0 until the queue is empty.
fn rotate(queue: DLL<SimProcess>, quantum: u32, by_priority: bool) -> (finished: Vec<SimProcess>)
    requires
        queue.wf(),
        quantum > 0,
        all_fresh(queue@),
        total_burst(queue@) <= u32::MAX,
    ensures
        rotation_result(queue@, quantum as int, by_priority, finished@),
{
    let ghost init = (queue@, Seq::<SimProcess>::empty(), 0int);
    let mut queue = queue;
    let mut finished: Vec<SimProcess> = Vec::new();
    let mut clock: u32 = 0;
    let ghost mut n: nat = 0;
    proof {
        lemma_total_burst_nonneg(queue@);
        assert(finished@ =~= Seq::<SimProcess>::empty());
    }
    while !queue.is_empty()
        invariant
            queue.wf(),
            quantum > 0,
            (queue@, finished@, clock as int) == rotation_after(init, quantum as int, by_priority, n),
            clock + total_burst(queue@) == total_burst(init.0),
            total_burst(init.0) <= u32::MAX,
            forall|i: int| 0 <= i < queue@.len() ==> (#[trigger] queue@[i]).running_time <= clock,
        decreases total_burst(queue@) + queue@.len(),
    {
        dispatch(&mut queue, &mut finished, &mut clock, quantum, by_priority);
        proof {
            lemma_total_burst_nonneg(queue@);
            n = n + 1;
        }
    }
    proof {
        let st = rotation_after(init, quantum as int, by_priority, n);
        assert(st.0.len() == 0 && st.1 == finished@);
    }
    finished
}

/// Round-robin in arrival order: the head of the queue runs for one quantum, or for what
/// it has left where that is less; a record with burst left goes back to the tail.
pub fn round_robin(incoming: Vec<SimProcess>, quantum: u32) -> (finished: Vec<SimProcess>)
    requires
        quantum > 0,
        all_fresh(incoming@),
        total_burst(incoming@) <= u32::MAX,
    ensures
        rotation_result(incoming@, quantum as int, false, finished@),
{
    rotate(DLL::from_vec(incoming), quantum, false)
}

/// Priority round-robin: the processes are first put in order of priority, highest first
/// and arrival order among equals; the head of the queue then runs as in round-robin, and
/// one with burst left goes back just before the first queued record of lower priority.
pub fn priority_rr(incoming: Vec<SimProcess>, quantum: u32) -> (finished: Vec<SimProcess>)
    requires
        quantum > 0,
        all_fresh(incoming@),
        total_burst(incoming@) <= u32::MAX,
    ensures
        exists|sorted: Seq<SimProcess>|
            stable_sort_of(sorted, incoming@, SortRule::HighestPriorityFirst) && rotation_result(
                sorted,
                quantum as int,
                true,
                finished@,
            ),
{
    let ghost s = incoming@;
    let sorted = mergesort(incoming, SortRule::HighestPriorityFirst);
    proof {
        lemma_total_burst_permutation(sorted@, s);
        broadcast use vstd::seq_lib::group_to_multiset_ensures;
        assert forall|i: int| 0 <= i < sorted@.len() implies (#[trigger] sorted@[i]).running_time == 0 by {
            assert(sorted@.to_multiset().count(sorted@[i]) > 0);
            assert(s.contains(sorted@[i]));
        }
    }
    rotate(DLL::from_vec(sorted), quantum, true)
}

/// The priorities in `q` never rise from head to tail.
pub open spec fn by_priority_descending(q: Seq<SimProcess>) -> bool {
    forall|i: int, j: int| 0 <= i < j < q.len() ==> q[i].priority >= q[j].priority
}

/// A record that priority round-robin puts back into its queue lands strictly before the
/// first queued record of lower priority and after all the records ahead of that one, which
/// have equal or higher priority; the other records keep their order.  A queue ordered by
/// priority, highest first, stays so.
pub proof fn lemma_requeue_by_priority(q: Seq<SimProcess>, p: SimProcess)
    ensures
        exists|k: int|
            {
                &&& 0 <= k <= q.len()
                &&& requeue(q, p, true) == q.take(k).push(p) + q.skip(k)
                &&& forall|i: int| 0 <= i < k ==> (#[trigger] q[i]).priority >= p.priority
                &&& k < q.len() ==> q[k].priority < p.priority
            },
        by_priority_descending(q) ==> by_priority_descending(requeue(q, p, true)),
{
    lemma_first_lower(q, p.priority);
    let k = first_lower(q, p.priority);
    let r = requeue(q, p, true);
    assert(r =~= q.take(k).push(p) + q.skip(k));
    if by_priority_descending(q) {
        assert forall|i: int, j: int| 0 <= i < j < r.len() implies r[i].priority >= r[j].priority by {
            if j < k {
                assert(r[i] == q[i] && r[j] == q[j]);
            } else if j == k {
                assert(r[i] == q[i]);
            } else if i < k {
                assert(r[i] == q[i] && r[j] == q[j - 1]);
            } else if i == k {
                assert(r[j] == q[j - 1]);
            } else {
                assert(r[i] == q[i - 1] && r[j] == q[j - 1]);
            }
        }
    }
}

proof fn lemma_ranked_last(s: Seq<SimProcess>, rule: SortRule)
    requires
        s.len() > 0,
    ensures
        ranked(s, rule, rank(s.last(), rule)) == ranked(s.drop_last(), rule, rank(s.last(), rule)).push(s.last()),
        forall|v: int| v != rank(s.last(), rule) ==> #[trigger] ranked(s, rule, v) == ranked(s.drop_last(), rule, v),
{
    assert(s.drop_last().push(s.last()) =~= s);
    lemma_ranked_push(s.drop_last(), s.last(), rule);
}

proof fn lemma_ranked_member(s: Seq<SimProcess>, rule: SortRule, v: int)
    requires
        ranked(s, rule, v).len() > 0,
    ensures
        exists|j: int| 0 <= j < s.len() && rank(#[trigger] s[j], rule) == v,
    decreases s.len(),
{
    reveal(Seq::filter);
    if s.len() > 0 && rank(s.last(), rule) != v {
        lemma_ranked_member(s.drop_last(), rule, v);
        let j = choose|j: int| 0 <= j < s.drop_last().len() && rank(#[trigger] s.drop_last()[j], rule) == v;
        assert(s[j] == s.drop_last()[j]);
    }
}

proof fn lemma_same_ranked_equal(a: Seq<SimProcess>, b: Seq<SimProcess>, rule: SortRule)
    requires
        a.len() == b.len(),
        sorted_by(a, rule),
        sorted_by(b, rule),
        forall|v: int| #[trigger] ranked(a, rule, v) == ranked(b, rule, v),
    ensures
        a == b,
    decreases a.len(),
{
    if a.len() == 0 {
        assert(a =~= b);
    } else {
        let ra = rank(a.last(), rule);
        let rb = rank(b.last(), rule);
        lemma_ranked_last(a, rule);
        lemma_ranked_last(b, rule);
        if ra > rb {
            assert(ranked(b, rule, ra).len() > 0);
            lemma_ranked_member(b, rule, ra);
        } else if rb > ra {
            assert(ranked(a, rule, rb).len() > 0);
            lemma_ranked_member(a, rule, rb);
        }
        assert(ra == rb);
        assert(ranked(a, rule, ra).last() == a.last());
        assert(ranked(b, rule, rb).last() == b.last());
        assert forall|v: int| #[trigger] ranked(a.drop_last(), rule, v) == ranked(b.drop_last(), rule, v) by {
            assert(ranked(a, rule, v) == ranked(b, rule, v));
            if v == ra {
                assert(ranked(a.drop_last(), rule, v) == ranked(a, rule, v).drop_last());
                assert(ranked(b.drop_last(), rule, v) == ranked(b, rule, v).drop_last());
            } else {
                assert(ranked(a, rule, v) == ranked(a.drop_last(), rule, v));
                assert(ranked(b, rule, v) == ranked(b.drop_last(), rule, v));
            }
        }
        lemma_same_ranked_equal(a.drop_last(), b.drop_last(), rule);
        assert(a =~= a.drop_last().push(a.last()));
        assert(b =~= b.drop_last().push(b.last()));
    }
}

/// A stable sort has one outcome: two sequences that are both a stable sort of the same
/// input under the same rule are equal.
pub proof fn lemma_stable_sort_unique(a: Seq<SimProcess>, b: Seq<SimProcess>, inp: Seq<SimProcess>, rule: SortRule)
    requires
        stable_sort_of(a, inp, rule),
        stable_sort_of(b, inp, rule),
    ensures
        a == b,
{
    broadcast use vstd::seq_lib::group_to_multiset_ensures;

    assert(a.to_multiset().len() == b.to_multiset().len());
    lemma_same_ranked_equal(a, b, rule);
}

proof fn lemma_rotation_settles(
    st: (Seq<SimProcess>, Seq<SimProcess>, int),
    quantum: int,
    by_priority: bool,
    n: nat,
    m: nat,
)
    requires
        n <= m,
        rotation_after(st, quantum, by_priority, n).0.len() == 0,
    ensures
        rotation_after(st, quantum, by_priority, m) == rotation_after(st, quantum, by_priority, n),
    decreases m - n,
{
    if n < m {
        lemma_rotation_settles(st, quantum, by_priority, n, (m - 1) as nat);
    }
}

/// A rotating scheduler has one outcome: it finishes the same records, in the same order,
/// whichever number of dispatches empties its queue.
pub proof fn lemma_rotation_unique(
    q: Seq<SimProcess>,
    quantum: int,
    by_priority: bool,
    f1: Seq<SimProcess>,
    f2: Seq<SimProcess>,
)
    requires
        rotation_result(q, quantum, by_priority, f1),
        rotation_result(q, quantum, by_priority, f2),
    ensures
        f1 == f2,
{
    let st = (q, Seq::<SimProcess>::empty(), 0int);
    let n1 = choose|n: nat|
        {
            let s = #[trigger] rotation_after(st, quantum, by_priority, n);
            s.0.len() == 0 && s.1 == f1
        };
    let n2 = choose|n: nat|
        {
            let s = #[trigger] rotation_after(st, quantum, by_priority, n);
            s.0.len() == 0 && s.1 == f2
        };
    if n1 <= n2 {
        lemma_rotation_settles(st, quantum, by_priority, n1, n2);
    } else {
        lemma_rotation_settles(st, quantum, by_priority, n2, n1);
    }
}

} // verus!
