//! What each probe contributes to the scan's report, and what the report
//! therefore holds: every pair that accepted a connection, and nothing else.
//!
//! The probes run concurrently and their successes arrive at one shared
//! queue in a nondeterministic order; the queue is drained only after every
//! probe has finished. The functions here model that protocol over plain
//! values: per-target outcomes come in as booleans, and a run's printed
//! report is any reordering of the pairs the probes delivered.
use vstd::prelude::*;
use crate::scheduler::{ScanRequest, ScanTarget, lemma_targets_distinct};

verus! {

/// What one probe's task hands the run: the pair it delivered to the queue,
/// nothing (the port was closed — the expected, silent case), or a delivery
/// failure to surface as a diagnostic (the queue's receiver was gone).
#[derive(Clone, Copy, PartialEq, Eq, Structural, Debug)]
pub enum TaskReport {
    Delivered(ScanTarget),
    Nothing,
    DeliveryFailed(ScanTarget),
}

/// One task's decision (probe one target, report success only): a closed
/// port is silently discarded; an open port's pair is delivered, and if the
/// delivery itself failed, that — and only that — becomes a diagnostic.
/// A failed delivery never aborts the run: it stays one task's report.
pub fn task_report(target: ScanTarget, open: bool, delivered: bool) -> (r: TaskReport)
    ensures
        !open ==> r == TaskReport::Nothing,
        open && delivered ==> r == TaskReport::Delivered(target),
        open && !delivered ==> r == TaskReport::DeliveryFailed(target),
{
    if !open {
        TaskReport::Nothing
    } else if delivered {
        TaskReport::Delivered(target)
    } else {
        TaskReport::DeliveryFailed(target)
    }
}

/// The pairs delivered by the first `n` probes, in target order: target `i`
/// contributes itself exactly when its port was open.
pub open spec fn delivered_prefix(ts: Seq<ScanTarget>, open: Seq<bool>, n: int) -> Seq<
    ScanTarget,
>
    decreases n,
{
    if n <= 0 {
        Seq::empty()
    } else {
        delivered_prefix(ts, open, n - 1) + if open[n - 1] {
            seq![ts[n - 1]]
        } else {
            Seq::empty()
        }
    }
}

/// The pairs the whole scan delivers, in target order.
pub open spec fn delivered(ts: Seq<ScanTarget>, open: Seq<bool>) -> Seq<ScanTarget> {
    delivered_prefix(ts, open, ts.len() as int)
}

/// The set of reachable pairs among the attempted targets: those whose probe
/// found an open port.
pub open spec fn reachable_pairs(ts: Seq<ScanTarget>, open: Seq<bool>) -> Set<ScanTarget> {
    Set::new(
        |t: ScanTarget| exists|i: int| 0 <= i < ts.len() && ts[i] == t && open[i],
    )
}

/// Collect the scan's results: given the attempted targets and, for each,
/// whether its connection attempt succeeded, return exactly the successful
/// pairs, in target order. This is the queue's contents when the probes
/// happen to finish in launch order; a real run may reorder them.
pub fn collect_open(targets: &Vec<ScanTarget>, open: &Vec<bool>) -> (r: Vec<ScanTarget>)
    requires
        open@.len() == targets@.len(),
    ensures
        r@ == delivered(targets@, open@),
{
    let mut v: Vec<ScanTarget> = Vec::new();
    let mut i: usize = 0;
    while i < targets.len()
        invariant
            open@.len() == targets@.len(),
            i <= targets@.len(),
            v@ == delivered_prefix(targets@, open@, i as int),
        decreases targets@.len() - i,
    {
        if open[i] {
            v.push(targets[i]);
        }
        proof {
            assert(v@ =~= delivered_prefix(targets@, open@, i as int + 1));
        }
        i = i + 1;
    }
    v
}

/// The delivered pairs of the first `n` probes are exactly the reachable
/// pairs among them, without repetition if the targets do not repeat.
proof fn lemma_delivered_prefix_exact(ts: Seq<ScanTarget>, open: Seq<bool>, n: int)
    requires
        open.len() == ts.len(),
        0 <= n <= ts.len(),
    ensures
        forall|t: ScanTarget|
            #[trigger] delivered_prefix(ts, open, n).contains(t) <==> exists|i: int|
                0 <= i < n && ts[i] == t && open[i],
        ts.no_duplicates() ==> delivered_prefix(ts, open, n).no_duplicates(),
    decreases n,
{
    if n > 0 {
        lemma_delivered_prefix_exact(ts, open, n - 1);
        let prev = delivered_prefix(ts, open, n - 1);
        let cur = delivered_prefix(ts, open, n);
        assert forall|t: ScanTarget| #[trigger] cur.contains(t) implies exists|i: int|
            0 <= i < n && ts[i] == t && open[i] by {
            let j = choose|j: int| 0 <= j < cur.len() && cur[j] == t;
            if j < prev.len() {
                assert(prev.contains(t));
            } else {
                assert(open[n - 1] && ts[n - 1] == t);
            }
        }
        assert forall|t: ScanTarget| (exists|i: int| 0 <= i < n && ts[i] == t && open[i])
            implies #[trigger] cur.contains(t) by {
            let i = choose|i: int| 0 <= i < n && ts[i] == t && open[i];
            if i < n - 1 {
                assert(prev.contains(t));
                let j = choose|j: int| 0 <= j < prev.len() && prev[j] == t;
                assert(cur[j] == t);
            } else {
                assert(cur[prev.len() as int] == t);
            }
        }
        if ts.no_duplicates() {
            assert forall|p: int, q: int|
                0 <= p < q < cur.len() implies cur[p] != cur[q] by {
                if q < prev.len() {
                    assert(prev[p] != prev[q]);
                } else {
                    assert(cur[q] == ts[n - 1]);
                    assert(prev.contains(cur[p]));
                    let i = choose|i: int| 0 <= i < n - 1 && ts[i] == cur[p] && open[i];
                    assert(ts[i] != ts[n - 1]);
                }
            }
        }
    }
}

/// Law: the scan reports every reachable pair and no unreachable one — among
/// distinct attempted targets, the delivered pairs are exactly the reachable
/// set, each exactly once.
pub proof fn lemma_delivered_exact(ts: Seq<ScanTarget>, open: Seq<bool>)
    requires
        open.len() == ts.len(),
    ensures
        forall|t: ScanTarget|
            #[trigger] delivered(ts, open).contains(t) <==> reachable_pairs(ts, open).contains(
                t,
            ),
        ts.no_duplicates() ==> delivered(ts, open).no_duplicates(),
        ts.no_duplicates() ==> delivered(ts, open).len() == reachable_pairs(ts, open).len(),
{
    lemma_delivered_prefix_exact(ts, open, ts.len() as int);
    if ts.no_duplicates() {
        delivered(ts, open).unique_seq_to_set();
        assert(delivered(ts, open).to_set() =~= reachable_pairs(ts, open));
    }
}

/// A report a finished run can print: the delivered pairs in some arrival
/// order, so any reordering of `delivered`.
pub open spec fn is_possible_report(
    ts: Seq<ScanTarget>,
    open: Seq<bool>,
    r: Seq<ScanTarget>,
) -> bool {
    r.to_multiset() == delivered(ts, open).to_multiset()
}

/// Law: whatever order a run's results arrived in, a report of distinct
/// attempted targets holds exactly the reachable pairs, each on one line.
pub proof fn lemma_report_exact(ts: Seq<ScanTarget>, open: Seq<bool>, r: Seq<ScanTarget>)
    requires
        open.len() == ts.len(),
        ts.no_duplicates(),
        is_possible_report(ts, open, r),
    ensures
        forall|t: ScanTarget|
            #[trigger] r.contains(t) <==> reachable_pairs(ts, open).contains(t),
        r.no_duplicates(),
        r.len() == reachable_pairs(ts, open).len(),
{
    broadcast use vstd::seq_lib::group_to_multiset_ensures;

    let d = delivered(ts, open);
    lemma_delivered_exact(ts, open);
    assert forall|t: ScanTarget| #[trigger] r.contains(t) <==> d.contains(t) by {
        assert(r.contains(t) <==> r.to_multiset().count(t) > 0);
        assert(d.contains(t) <==> d.to_multiset().count(t) > 0);
    }
    d.lemma_multiset_has_no_duplicates();
    r.lemma_multiset_has_no_duplicates_conv();
    d.to_multiset_ensures();
    r.to_multiset_ensures();
}

/// Law: a finished run of a well-formed request prints exactly one line per
/// reachable pair — the plan never attempts a pair twice, so whatever order
/// the successes arrived in, the report holds the reachable pairs and only
/// those, each once.
pub proof fn lemma_scan_run_exact(req: ScanRequest, open: Seq<bool>, r: Seq<ScanTarget>)
    requires
        req.wf(),
        open.len() == req.targets().len(),
        is_possible_report(req.targets(), open, r),
    ensures
        forall|t: ScanTarget|
            #[trigger] r.contains(t) <==> reachable_pairs(req.targets(), open).contains(t),
        r.no_duplicates(),
        r.len() == reachable_pairs(req.targets(), open).len(),
{
    lemma_targets_distinct(req);
    lemma_report_exact(req.targets(), open, r);
}

/// Law: running the same scan twice against an unchanged set of listening
/// ports yields the same reported pairs, though not necessarily in the same
/// order — any two possible reports of one scan agree as sets and in length.
pub proof fn lemma_scan_idempotent(
    ts: Seq<ScanTarget>,
    open: Seq<bool>,
    first_run: Seq<ScanTarget>,
    second_run: Seq<ScanTarget>,
)
    requires
        open.len() == ts.len(),
        is_possible_report(ts, open, first_run),
        is_possible_report(ts, open, second_run),
    ensures
        first_run.to_set() == second_run.to_set(),
        first_run.len() == second_run.len(),
{
    broadcast use vstd::seq_lib::group_to_multiset_ensures;

    assert forall|t: ScanTarget| #[trigger] first_run.contains(t)
        <==> second_run.contains(t) by {
        assert(first_run.contains(t) <==> first_run.to_multiset().count(t) > 0);
        assert(second_run.contains(t) <==> second_run.to_multiset().count(t) > 0);
    }
    assert(first_run.to_set() =~= second_run.to_set());
    first_run.to_multiset_ensures();
    second_run.to_multiset_ensures();
}

} // verus!
