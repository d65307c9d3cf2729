//! Schedulability analysis: the response-time recurrence, per-mode
//! feasibility, and the adaptive-mixed-criticality mode-change analysis in
//! its exact (design-time) and approximate (online) variants.
//!
//! All functions here are pure: they inspect a snapshot of the task set and
//! never panic; non-convergence of a recurrence and structural violations
//! collapse to `None` or `false`.

use vstd::arithmetic::div_mod::lemma_div_is_ordered;
use vstd::prelude::*;

use crate::simulator::SimulatorMode;
use crate::task::{SimulatorTask, TimeUnit};

verus! {

/// Whether the exact (design-time) or the approximate (online, single-shot)
/// mode-change analysis is requested.
#[derive(Clone, Copy, Debug, PartialEq, Eq, Structural)]
pub enum AnalysisMode {
    Exact,
    Approximate,
}

/// How many times a fixed-point recurrence is iterated before giving up and
/// treating the task as infeasible.
pub const RECURRENCE_BOUND: u64 = 100;

/// The execution budget of `t` in `mode`.
pub open spec fn wcet_of(t: SimulatorTask, mode: SimulatorMode) -> TimeUnit {
    t.task.spec_props().spec_wcet_in_mode(mode)
}

/// Exact ceiling division on unbounded integers; `b` must be positive.
pub open spec fn ceil_div(a: int, b: int) -> int {
    (a + b - 1) / b
}

/// Every task in the snapshot has a positive period, so that the recurrences
/// are well defined.
pub open spec fn periods_positive(tasks: Seq<SimulatorTask>) -> bool {
    forall |i: int| 0 <= i < tasks.len() ==> #[trigger] tasks[i].task.spec_props().period >= 1
}

/// Interference that the first `n` tasks of the snapshot inflict on `task`
/// within a window of length `r`: each strictly higher-priority task `t`
/// preempts `ceil(r / period(t))` times, for `wcet(t, mode)` units each.
pub open spec fn interference_upto(
    task: SimulatorTask,
    tasks: Seq<SimulatorTask>,
    mode: SimulatorMode,
    r: int,
    n: nat,
) -> int
    decreases n,
{
    if n == 0 || n > tasks.len() {
        0
    } else {
        let t = tasks[n - 1];
        interference_upto(task, tasks, mode, r, (n - 1) as nat)
            + if t.spec_priority() < task.spec_priority() {
                ceil_div(r, t.task.spec_props().period as int)
                    * wcet_of(t, mode) as int
            } else {
                0
            }
    }
}

/// Interference from the whole snapshot.
pub open spec fn interference_of(
    task: SimulatorTask,
    tasks: Seq<SimulatorTask>,
    mode: SimulatorMode,
    r: int,
) -> int {
    interference_upto(task, tasks, mode, r, tasks.len())
}

/// The `k`-th iterate of the response-time recurrence
/// `R_0 = wcet(task)`, `R_{k+1} = wcet(task) + interference(R_k)`,
/// over unbounded integers.
pub open spec fn rt_iter(
    task: SimulatorTask,
    tasks: Seq<SimulatorTask>,
    mode: SimulatorMode,
    k: nat,
) -> int
    decreases k,
{
    if k == 0 {
        wcet_of(task, mode) as int
    } else {
        wcet_of(task, mode) + interference_of(task, tasks, mode, rt_iter(task, tasks, mode, (k - 1) as nat))
    }
}

/// The recurrence reaches a fixed point within the iteration bound.
pub open spec fn rt_converges(task: SimulatorTask, tasks: Seq<SimulatorTask>, mode: SimulatorMode) -> bool {
    exists |k: nat| k < RECURRENCE_BOUND
        && #[trigger] rt_iter(task, tasks, mode, (k + 1) as nat) == rt_iter(task, tasks, mode, k)
}

/// The value the recurrence has stabilised to (meaningful only when it
/// converges; the iterates are constant from the fixed point on).
pub open spec fn rt_fixed(task: SimulatorTask, tasks: Seq<SimulatorTask>, mode: SimulatorMode) -> int {
    rt_iter(task, tasks, mode, RECURRENCE_BOUND as nat)
}

/// What `response_time` returns: the fixed point of the recurrence if one is
/// reached within the iteration bound and it is representable, else `None`.
pub open spec fn rt_spec(task: SimulatorTask, tasks: Seq<SimulatorTask>, mode: SimulatorMode) -> Option<TimeUnit> {
    if rt_converges(task, tasks, mode) && rt_fixed(task, tasks, mode) <= u64::MAX {
        Some(rt_fixed(task, tasks, mode) as u64)
    } else {
        None
    }
}

proof fn lemma_ceil_div_nonneg(a: int, b: int)
    requires
        a >= 0,
        b >= 1,
    ensures
        ceil_div(a, b) >= 0,
{
    assert((a + b - 1) / b >= 0) by (nonlinear_arith)
        requires a >= 0 && b >= 1;
}

proof fn lemma_ceil_div_mono(a1: int, a2: int, b: int)
    requires
        a1 <= a2,
        b >= 1,
    ensures
        ceil_div(a1, b) <= ceil_div(a2, b),
{
    lemma_div_is_ordered(a1 + b - 1, a2 + b - 1, b);
}

proof fn lemma_interference_nonneg(
    task: SimulatorTask,
    tasks: Seq<SimulatorTask>,
    mode: SimulatorMode,
    r: int,
    n: nat,
)
    requires
        periods_positive(tasks),
        r >= 0,
    ensures
        interference_upto(task, tasks, mode, r, n) >= 0,
    decreases n,
{
    if n == 0 || n > tasks.len() {
    } else {
        lemma_interference_nonneg(task, tasks, mode, r, (n - 1) as nat);
        let t = tasks[n - 1];
        if t.spec_priority() < task.spec_priority() {
            lemma_ceil_div_nonneg(r, t.task.spec_props().period as int);
            assert(ceil_div(r, t.task.spec_props().period as int) * wcet_of(t, mode) >= 0)
                by (nonlinear_arith)
                requires ceil_div(r, t.task.spec_props().period as int) >= 0 && wcet_of(t, mode) >= 0;
        }
    }
}

/// Partial interference sums only grow as more tasks are taken in.
proof fn lemma_interference_upto_mono_n(
    task: SimulatorTask,
    tasks: Seq<SimulatorTask>,
    mode: SimulatorMode,
    r: int,
    n1: nat,
    n2: nat,
)
    requires
        periods_positive(tasks),
        r >= 0,
        n1 <= n2 <= tasks.len(),
    ensures
        interference_upto(task, tasks, mode, r, n1) <= interference_upto(task, tasks, mode, r, n2),
    decreases n2,
{
    if n1 == n2 || n2 == 0 {
    } else {
        lemma_interference_upto_mono_n(task, tasks, mode, r, n1, (n2 - 1) as nat);
        let t = tasks[n2 - 1];
        if t.spec_priority() < task.spec_priority() {
            lemma_ceil_div_nonneg(r, t.task.spec_props().period as int);
            assert(ceil_div(r, t.task.spec_props().period as int) * wcet_of(t, mode) >= 0)
                by (nonlinear_arith)
                requires ceil_div(r, t.task.spec_props().period as int) >= 0 && wcet_of(t, mode) >= 0;
        }
    }
}

/// Interference is monotone in the window length.
proof fn lemma_interference_mono_r(
    task: SimulatorTask,
    tasks: Seq<SimulatorTask>,
    mode: SimulatorMode,
    r1: int,
    r2: int,
    n: nat,
)
    requires
        periods_positive(tasks),
        0 <= r1 <= r2,
    ensures
        interference_upto(task, tasks, mode, r1, n) <= interference_upto(task, tasks, mode, r2, n),
    decreases n,
{
    if n == 0 || n > tasks.len() {
    } else {
        lemma_interference_mono_r(task, tasks, mode, r1, r2, (n - 1) as nat);
        let t = tasks[n - 1];
        if t.spec_priority() < task.spec_priority() {
            let p = t.task.spec_props().period as int;
            lemma_ceil_div_mono(r1, r2, p);
            assert(ceil_div(r1, p) * wcet_of(t, mode) <= ceil_div(r2, p) * wcet_of(t, mode))
                by (nonlinear_arith)
                requires ceil_div(r1, p) <= ceil_div(r2, p) && wcet_of(t, mode) >= 0;
        }
    }
}

/// The iterates never go below the seed and never decrease from one step to
/// the next.
proof fn lemma_rt_iter_nondecreasing(
    task: SimulatorTask,
    tasks: Seq<SimulatorTask>,
    mode: SimulatorMode,
    k: nat,
)
    requires
        periods_positive(tasks),
    ensures
        wcet_of(task, mode) <= rt_iter(task, tasks, mode, k),
        rt_iter(task, tasks, mode, k) <= rt_iter(task, tasks, mode, (k + 1) as nat),
    decreases k,
{
    if k == 0 {
        lemma_interference_nonneg(task, tasks, mode, wcet_of(task, mode) as int, tasks.len());
    } else {
        lemma_rt_iter_nondecreasing(task, tasks, mode, (k - 1) as nat);
        lemma_interference_nonneg(task, tasks, mode, rt_iter(task, tasks, mode, (k - 1) as nat), tasks.len());
        lemma_interference_mono_r(
            task,
            tasks,
            mode,
            rt_iter(task, tasks, mode, (k - 1) as nat),
            rt_iter(task, tasks, mode, k),
            tasks.len(),
        );
    }
}

/// Monotonicity of the iterates in the iteration count.
proof fn lemma_rt_iter_mono_k(
    task: SimulatorTask,
    tasks: Seq<SimulatorTask>,
    mode: SimulatorMode,
    k1: nat,
    k2: nat,
)
    requires
        periods_positive(tasks),
        k1 <= k2,
    ensures
        rt_iter(task, tasks, mode, k1) <= rt_iter(task, tasks, mode, k2),
    decreases k2,
{
    if k1 < k2 {
        lemma_rt_iter_mono_k(task, tasks, mode, k1, (k2 - 1) as nat);
        lemma_rt_iter_nondecreasing(task, tasks, mode, (k2 - 1) as nat);
    }
}

/// Once two consecutive iterates agree, all later iterates keep that value.
proof fn lemma_rt_stable(
    task: SimulatorTask,
    tasks: Seq<SimulatorTask>,
    mode: SimulatorMode,
    k: nat,
    j: nat,
)
    requires
        rt_iter(task, tasks, mode, (k + 1) as nat) == rt_iter(task, tasks, mode, k),
        j >= k,
    ensures
        rt_iter(task, tasks, mode, j) == rt_iter(task, tasks, mode, k),
    decreases j,
{
    if j > k {
        lemma_rt_stable(task, tasks, mode, k, (j - 1) as nat);
        if j > k + 1 {
            assert(rt_iter(task, tasks, mode, j)
                == wcet_of(task, mode) + interference_of(task, tasks, mode, rt_iter(task, tasks, mode, (j - 1) as nat)));
            assert(rt_iter(task, tasks, mode, (k + 1) as nat)
                == wcet_of(task, mode) + interference_of(task, tasks, mode, rt_iter(task, tasks, mode, k)));
        }
    }
}

/// Interference of `task` over a window of `r`, computed exactly; `None`
/// means the true value exceeds `u64::MAX` (and the recurrence is then
/// already known to diverge beyond any representable response time).
fn interference_checked(
    task: &SimulatorTask,
    tasks: &Vec<SimulatorTask>,
    mode: SimulatorMode,
    r: u64,
) -> (res: Option<u64>)
    requires
        periods_positive(tasks@),
    ensures
        match res {
            Some(v) => v == interference_of(*task, tasks@, mode, r as int),
            None => interference_of(*task, tasks@, mode, r as int) > u64::MAX,
        },
{
    let mut acc: u128 = 0;
    let mut i: usize = 0;
    while i < tasks.len()
        invariant
            periods_positive(tasks@),
            i <= tasks@.len(),
            acc == interference_upto(*task, tasks@, mode, r as int, i as nat),
            acc <= u64::MAX,
        decreases tasks@.len() - i,
    {
        let t = tasks[i];
        if t.priority() < task.priority() {
            let p = t.task.props().period;
            let c: u128 = (r as u128 + p as u128 - 1) / (p as u128);
            let w: u128 = t.task.props().wcet_in_mode(mode) as u128;
            proof {
                assert(c == ceil_div(r as int, p as int));
                assert(c <= u64::MAX as u128 + 1) by {
                    lemma_div_is_ordered(
                        r as int + p as int - 1,
                        u64::MAX as int + p as int - 1,
                        p as int,
                    );
                    assert((u64::MAX as int + p - 1) / (p as int) <= u64::MAX + 1)
                        by (nonlinear_arith)
                        requires 1 <= p <= u64::MAX;
                }
                assert(c * w <= (u64::MAX as u128 + 1) * (u64::MAX as u128)) by (nonlinear_arith)
                    requires c <= u64::MAX as u128 + 1 && w <= u64::MAX as u128;
            }
            let term: u128 = c * w;
            acc = acc + term;
            if acc > u64::MAX as u128 {
                proof {
                    lemma_interference_upto_mono_n(
                        *task, tasks@, mode, r as int, (i + 1) as nat, tasks@.len(),
                    );
                }
                return None;
            }
        }
        i = i + 1;
    }
    Some(acc as u64)
}

/// Classic response-time recurrence for `task` against the higher-priority
/// tasks of the snapshot: seeded at the task's own budget, iterated to a
/// fixed point, at most `RECURRENCE_BOUND` times.  `None` means the
/// recurrence did not stabilise at a representable value and the task must be
/// treated as infeasible.
pub fn response_time(
    task: &SimulatorTask,
    tasks: &Vec<SimulatorTask>,
    mode: SimulatorMode,
) -> (r: Option<TimeUnit>)
    requires
        periods_positive(tasks@),
    ensures
        r == rt_spec(*task, tasks@, mode),
{
    let wcet = task.task.props().wcet_in_mode(mode);
    let mut cur: u64 = wcet;
    let mut k: u64 = 0;
    while k < RECURRENCE_BOUND
        invariant
            periods_positive(tasks@),
            k <= RECURRENCE_BOUND,
            wcet == wcet_of(*task, mode),
            cur == rt_iter(*task, tasks@, mode, k as nat),
            forall |j: nat| j < k ==> #[trigger] rt_iter(*task, tasks@, mode, (j + 1) as nat)
                != rt_iter(*task, tasks@, mode, j),
        decreases RECURRENCE_BOUND - k,
    {
        proof {
            assert(rt_iter(*task, tasks@, mode, (k + 1) as nat)
                == wcet_of(*task, mode)
                    + interference_of(*task, tasks@, mode, rt_iter(*task, tasks@, mode, k as nat)));
            assert(wcet == wcet_of(*task, mode));
        }
        let next: u64 = match interference_checked(task, tasks, mode, cur) {
            Some(intf) => {
                let s: u128 = wcet as u128 + intf as u128;
                if s > u64::MAX as u128 {
                    proof {
                        assert(rt_iter(*task, tasks@, mode, (k + 1) as nat) > u64::MAX);
                        lemma_rt_iter_mono_k(*task, tasks@, mode, (k + 1) as nat, RECURRENCE_BOUND as nat);
                        assert(!(rt_fixed(*task, tasks@, mode) <= u64::MAX));
                    }
                    return None;
                }
                s as u64
            },
            None => {
                proof {
                    lemma_interference_nonneg(*task, tasks@, mode, cur as int, tasks@.len());
                    assert(rt_iter(*task, tasks@, mode, (k + 1) as nat) > u64::MAX);
                    lemma_rt_iter_mono_k(*task, tasks@, mode, (k + 1) as nat, RECURRENCE_BOUND as nat);
                }
                return None;
            },
        };
        if next == cur {
            proof {
                assert(rt_converges(*task, tasks@, mode)) by {
                    assert(rt_iter(*task, tasks@, mode, (k + 1) as nat) == rt_iter(*task, tasks@, mode, k as nat));
                }
                lemma_rt_stable(*task, tasks@, mode, k as nat, RECURRENCE_BOUND as nat);
            }
            return Some(cur);
        }
        cur = next;
        k = k + 1;
    }
    proof {
        assert(forall |j: nat| j < RECURRENCE_BOUND ==> #[trigger] rt_iter(*task, tasks@, mode, (j + 1) as nat)
            != rt_iter(*task, tasks@, mode, j));
        assert(!rt_converges(*task, tasks@, mode));
    }
    None
}

/// The high-criticality tasks of the snapshot, in order.
pub open spec fn high_tasks(tasks: Seq<SimulatorTask>) -> Seq<SimulatorTask>
    decreases tasks.len(),
{
    if tasks.len() == 0 {
        Seq::empty()
    } else {
        let rest = high_tasks(tasks.drop_last());
        if tasks.last().task.spec_is_high() {
            rest.push(tasks.last())
        } else {
            rest
        }
    }
}

proof fn lemma_high_tasks_periods_positive(tasks: Seq<SimulatorTask>)
    requires
        periods_positive(tasks),
    ensures
        periods_positive(high_tasks(tasks)),
        high_tasks(tasks).len() <= tasks.len(),
        forall |i: int| 0 <= i < high_tasks(tasks).len()
            ==> #[trigger] high_tasks(tasks)[i].task.spec_is_high(),
    decreases tasks.len(),
{
    if tasks.len() > 0 {
        assert(periods_positive(tasks.drop_last())) by {
            assert(forall |i: int| 0 <= i < tasks.len() - 1
                ==> tasks.drop_last()[i] == #[trigger] tasks[i]);
        }
        lemma_high_tasks_periods_positive(tasks.drop_last());
    }
}

/// The tasks admitted in `mode`: all of them in low mode, only the
/// high-criticality ones in high mode.
pub open spec fn eligible_in_mode(tasks: Seq<SimulatorTask>, mode: SimulatorMode) -> Seq<SimulatorTask> {
    match mode {
        SimulatorMode::LMode => tasks,
        SimulatorMode::HMode => high_tasks(tasks),
    }
}

/// A single admitted task passes the per-mode check: a non-zero budget and a
/// converging response time no larger than its period.
pub open spec fn task_feasible_in_mode(
    t: SimulatorTask,
    eligible: Seq<SimulatorTask>,
    mode: SimulatorMode,
) -> bool {
    &&& wcet_of(t, mode) != 0
    &&& match rt_spec(t, eligible, mode) {
        Some(r) => r <= t.task.spec_props().period,
        None => false,
    }
}

/// What `feasible_in_mode` decides: every task admitted in `mode` passes the
/// per-mode check against the other admitted tasks.
pub open spec fn feasible_in_mode_spec(tasks: Seq<SimulatorTask>, mode: SimulatorMode) -> bool {
    forall |i: int| 0 <= i < eligible_in_mode(tasks, mode).len()
        ==> task_feasible_in_mode(
            #[trigger] eligible_in_mode(tasks, mode)[i],
            eligible_in_mode(tasks, mode),
            mode,
        )
}

/// Per-mode feasibility of the snapshot.
pub fn feasible_in_mode(tasks: &Vec<SimulatorTask>, mode: SimulatorMode) -> (b: bool)
    requires
        periods_positive(tasks@),
    ensures
        b == feasible_in_mode_spec(tasks@, mode),
{
    let mut eligible: Vec<SimulatorTask> = Vec::new();
    match mode {
        SimulatorMode::LMode => {
            let mut i: usize = 0;
            while i < tasks.len()
                invariant
                    i <= tasks@.len(),
                    eligible@ == tasks@.subrange(0, i as int),
                decreases tasks@.len() - i,
            {
                eligible.push(tasks[i]);
                proof {
                    assert(eligible@ =~= tasks@.subrange(0, i + 1));
                }
                i = i + 1;
            }
            proof {
                assert(eligible@ =~= tasks@);
            }
        },
        SimulatorMode::HMode => {
            let mut i: usize = 0;
            while i < tasks.len()
                invariant
                    i <= tasks@.len(),
                    eligible@ == high_tasks(tasks@.subrange(0, i as int)),
                decreases tasks@.len() - i,
            {
                let t = tasks[i];
                if t.task.is_high() {
                    eligible.push(t);
                }
                proof {
                    assert(tasks@.subrange(0, i + 1).drop_last() =~= tasks@.subrange(0, i as int));
                    assert(tasks@.subrange(0, i + 1).last() == tasks@[i as int]);
                }
                i = i + 1;
            }
            proof {
                assert(tasks@.subrange(0, tasks@.len() as int) =~= tasks@);
            }
        },
    }
    proof {
        assert(eligible@ == eligible_in_mode(tasks@, mode));
        if mode is HMode {
            lemma_high_tasks_periods_positive(tasks@);
        }
    }
    let mut i: usize = 0;
    while i < eligible.len()
        invariant
            periods_positive(tasks@),
            periods_positive(eligible@),
            eligible@ == eligible_in_mode(tasks@, mode),
            i <= eligible@.len(),
            forall |j: int| 0 <= j < i ==> task_feasible_in_mode(
                #[trigger] eligible@[j],
                eligible@,
                mode,
            ),
        decreases eligible@.len() - i,
    {
        let t = eligible[i];
        if t.task.props().wcet_in_mode(mode) == 0 {
            return false;
        }
        match response_time(&t, &eligible, mode) {
            Some(r) => {
                if r > t.task.props().period {
                    return false;
                }
            },
            None => {
                return false;
            },
        }
        i = i + 1;
    }
    true
}

/// The low-mode response time used for task `i` by the online analysis: the
/// cached value if one was supplied, else the one the recurrence gives.
pub open spec fn rlo_of(
    tasks: Seq<SimulatorTask>,
    cached: Seq<Option<TimeUnit>>,
    i: int,
) -> Option<TimeUnit> {
    if 0 <= i < cached.len() && cached[i] is Some {
        cached[i]
    } else {
        rt_spec(tasks[i], tasks, SimulatorMode::LMode)
    }
}

/// Interference inflicted on `task` by the strictly higher-priority tasks
/// among the first `n`, each bounded by its low-mode response time:
/// `ceil(R_lo(t) / period(t)) * wcet_l(t)`.  With `only_low`, only
/// low-criticality tasks are taken in.  `None` when a needed low-mode
/// response time is unavailable.
pub open spec fn cached_interference_upto(
    task: SimulatorTask,
    tasks: Seq<SimulatorTask>,
    cached: Seq<Option<TimeUnit>>,
    only_low: bool,
    n: nat,
) -> Option<int>
    decreases n,
{
    if n == 0 || n > tasks.len() {
        Some(0)
    } else {
        let rest = cached_interference_upto(task, tasks, cached, only_low, (n - 1) as nat);
        let t = tasks[n - 1];
        if (!only_low || !t.task.spec_is_high()) && t.spec_priority() < task.spec_priority() {
            match (rest, rlo_of(tasks, cached, n - 1)) {
                (Some(s), Some(rl)) => Some(
                    s + ceil_div(rl as int, t.task.spec_props().period as int)
                        * t.task.spec_props().wcet_l as int,
                ),
                _ => None,
            }
        } else {
            rest
        }
    }
}

/// Interference from all low-criticality higher-priority tasks, as the
/// mode-change recurrence uses it.
pub open spec fn l_interference(
    task: SimulatorTask,
    tasks: Seq<SimulatorTask>,
    cached: Seq<Option<TimeUnit>>,
) -> Option<int> {
    cached_interference_upto(task, tasks, cached, true, tasks.len())
}

/// Interference on `task` from the strictly higher-priority high-criticality
/// tasks among the first `n`, in high mode, over a window of `r`.
pub open spec fn h_interference_upto(
    task: SimulatorTask,
    tasks: Seq<SimulatorTask>,
    r: int,
    n: nat,
) -> int
    decreases n,
{
    if n == 0 || n > tasks.len() {
        0
    } else {
        let t = tasks[n - 1];
        h_interference_upto(task, tasks, r, (n - 1) as nat)
            + if t.task.spec_is_high() && t.spec_priority() < task.spec_priority() {
                ceil_div(r, t.task.spec_props().period as int)
                    * t.task.spec_props().wcet_h as int
            } else {
                0
            }
    }
}

/// The `k`-th iterate of the mode-change recurrence for a high-criticality
/// task: seeded at its high-mode budget, adding the (constant) low-task
/// interference `li` and the high-task interference over the previous window.
pub open spec fn rtmc_iter(
    task: SimulatorTask,
    tasks: Seq<SimulatorTask>,
    li: int,
    k: nat,
) -> int
    decreases k,
{
    if k == 0 {
        task.task.spec_props().wcet_h as int
    } else {
        task.task.spec_props().wcet_h
            + h_interference_upto(task, tasks, rtmc_iter(task, tasks, li, (k - 1) as nat), tasks.len())
            + li
    }
}

pub open spec fn rtmc_converges(task: SimulatorTask, tasks: Seq<SimulatorTask>, li: int) -> bool {
    exists |k: nat| k < RECURRENCE_BOUND
        && #[trigger] rtmc_iter(task, tasks, li, (k + 1) as nat) == rtmc_iter(task, tasks, li, k)
}

pub open spec fn rtmc_fixed(task: SimulatorTask, tasks: Seq<SimulatorTask>, li: int) -> int {
    rtmc_iter(task, tasks, li, RECURRENCE_BOUND as nat)
}

/// What `response_time_in_mode_changes` returns.  Only defined for
/// high-criticality tasks.  The approximate variant replaces the recurrence
/// by a single evaluation at the task's own period, a conservative stand-in
/// for its response time.
pub open spec fn rtmc_spec(
    task: SimulatorTask,
    tasks: Seq<SimulatorTask>,
    amode: AnalysisMode,
    cached: Seq<Option<TimeUnit>>,
) -> Option<TimeUnit> {
    if !task.task.spec_is_high() {
        None
    } else {
        match l_interference(task, tasks, cached) {
            None => None,
            Some(li) => match amode {
                AnalysisMode::Approximate => {
                    let v = task.task.spec_props().wcet_h + li
                        + h_interference_upto(task, tasks, task.task.spec_props().period as int, tasks.len());
                    if v <= u64::MAX {
                        Some(v as u64)
                    } else {
                        None
                    }
                },
                AnalysisMode::Exact => {
                    if rtmc_converges(task, tasks, li) && rtmc_fixed(task, tasks, li) <= u64::MAX {
                        Some(rtmc_fixed(task, tasks, li) as u64)
                    } else {
                        None
                    }
                },
            },
        }
    }
}

proof fn lemma_h_interference_nonneg(
    task: SimulatorTask,
    tasks: Seq<SimulatorTask>,
    r: int,
    n: nat,
)
    requires
        periods_positive(tasks),
        r >= 0,
    ensures
        h_interference_upto(task, tasks, r, n) >= 0,
    decreases n,
{
    if n == 0 || n > tasks.len() {
    } else {
        lemma_h_interference_nonneg(task, tasks, r, (n - 1) as nat);
        let t = tasks[n - 1];
        if t.task.spec_is_high() && t.spec_priority() < task.spec_priority() {
            lemma_ceil_div_nonneg(r, t.task.spec_props().period as int);
            assert(ceil_div(r, t.task.spec_props().period as int) * t.task.spec_props().wcet_h >= 0)
                by (nonlinear_arith)
                requires ceil_div(r, t.task.spec_props().period as int) >= 0
                    && t.task.spec_props().wcet_h >= 0;
        }
    }
}

proof fn lemma_h_interference_upto_mono_n(
    task: SimulatorTask,
    tasks: Seq<SimulatorTask>,
    r: int,
    n1: nat,
    n2: nat,
)
    requires
        periods_positive(tasks),
        r >= 0,
        n1 <= n2 <= tasks.len(),
    ensures
        h_interference_upto(task, tasks, r, n1) <= h_interference_upto(task, tasks, r, n2),
    decreases n2,
{
    if n1 == n2 || n2 == 0 {
    } else {
        lemma_h_interference_upto_mono_n(task, tasks, r, n1, (n2 - 1) as nat);
        let t = tasks[n2 - 1];
        if t.task.spec_is_high() && t.spec_priority() < task.spec_priority() {
            lemma_ceil_div_nonneg(r, t.task.spec_props().period as int);
            assert(ceil_div(r, t.task.spec_props().period as int) * t.task.spec_props().wcet_h >= 0)
                by (nonlinear_arith)
                requires ceil_div(r, t.task.spec_props().period as int) >= 0
                    && t.task.spec_props().wcet_h >= 0;
        }
    }
}

proof fn lemma_h_interference_mono_r(
    task: SimulatorTask,
    tasks: Seq<SimulatorTask>,
    r1: int,
    r2: int,
    n: nat,
)
    requires
        periods_positive(tasks),
        0 <= r1 <= r2,
    ensures
        h_interference_upto(task, tasks, r1, n) <= h_interference_upto(task, tasks, r2, n),
    decreases n,
{
    if n == 0 || n > tasks.len() {
    } else {
        lemma_h_interference_mono_r(task, tasks, r1, r2, (n - 1) as nat);
        let t = tasks[n - 1];
        if t.task.spec_is_high() && t.spec_priority() < task.spec_priority() {
            let p = t.task.spec_props().period as int;
            lemma_ceil_div_mono(r1, r2, p);
            assert(ceil_div(r1, p) * t.task.spec_props().wcet_h
                <= ceil_div(r2, p) * t.task.spec_props().wcet_h) by (nonlinear_arith)
                requires ceil_div(r1, p) <= ceil_div(r2, p) && t.task.spec_props().wcet_h >= 0;
        }
    }
}

proof fn lemma_rtmc_iter_nondecreasing(
    task: SimulatorTask,
    tasks: Seq<SimulatorTask>,
    li: int,
    k: nat,
)
    requires
        periods_positive(tasks),
        li >= 0,
    ensures
        task.task.spec_props().wcet_h <= rtmc_iter(task, tasks, li, k),
        rtmc_iter(task, tasks, li, k) <= rtmc_iter(task, tasks, li, (k + 1) as nat),
    decreases k,
{
    if k == 0 {
        lemma_h_interference_nonneg(task, tasks, task.task.spec_props().wcet_h as int, tasks.len());
    } else {
        lemma_rtmc_iter_nondecreasing(task, tasks, li, (k - 1) as nat);
        lemma_h_interference_nonneg(task, tasks, rtmc_iter(task, tasks, li, (k - 1) as nat), tasks.len());
        lemma_h_interference_mono_r(
            task,
            tasks,
            rtmc_iter(task, tasks, li, (k - 1) as nat),
            rtmc_iter(task, tasks, li, k),
            tasks.len(),
        );
    }
}

proof fn lemma_rtmc_iter_mono_k(
    task: SimulatorTask,
    tasks: Seq<SimulatorTask>,
    li: int,
    k1: nat,
    k2: nat,
)
    requires
        periods_positive(tasks),
        li >= 0,
        k1 <= k2,
    ensures
        rtmc_iter(task, tasks, li, k1) <= rtmc_iter(task, tasks, li, k2),
    decreases k2,
{
    if k1 < k2 {
        lemma_rtmc_iter_mono_k(task, tasks, li, k1, (k2 - 1) as nat);
        lemma_rtmc_iter_nondecreasing(task, tasks, li, (k2 - 1) as nat);
    }
}

proof fn lemma_rtmc_stable(
    task: SimulatorTask,
    tasks: Seq<SimulatorTask>,
    li: int,
    k: nat,
    j: nat,
)
    requires
        rtmc_iter(task, tasks, li, (k + 1) as nat) == rtmc_iter(task, tasks, li, k),
        j >= k,
    ensures
        rtmc_iter(task, tasks, li, j) == rtmc_iter(task, tasks, li, k),
    decreases j,
{
    if j > k {
        lemma_rtmc_stable(task, tasks, li, k, (j - 1) as nat);
        if j > k + 1 {
            assert(rtmc_iter(task, tasks, li, j)
                == task.task.spec_props().wcet_h
                    + h_interference_upto(task, tasks, rtmc_iter(task, tasks, li, (j - 1) as nat), tasks.len())
                    + li);
            assert(rtmc_iter(task, tasks, li, (k + 1) as nat)
                == task.task.spec_props().wcet_h
                    + h_interference_upto(task, tasks, rtmc_iter(task, tasks, li, k), tasks.len())
                    + li);
        }
    }
}

/// The cached-interference term never goes negative, and cutting it short at
/// a partial sum only loses nonnegative terms.
proof fn lemma_cached_interference_nonneg(
    task: SimulatorTask,
    tasks: Seq<SimulatorTask>,
    cached: Seq<Option<TimeUnit>>,
    only_low: bool,
    n1: nat,
    n2: nat,
)
    requires
        periods_positive(tasks),
        n1 <= n2 <= tasks.len(),
    ensures
        match (cached_interference_upto(task, tasks, cached, only_low, n1),
               cached_interference_upto(task, tasks, cached, only_low, n2)) {
            (Some(s1), Some(s2)) => 0 <= s1 <= s2,
            (None, Some(_)) => false,
            _ => true,
        },
    decreases n2,
{
    if n2 == 0 {
    } else {
        if n1 == n2 {
            lemma_cached_interference_nonneg(task, tasks, cached, only_low, (n1 - 1) as nat, (n1 - 1) as nat);
        } else {
            lemma_cached_interference_nonneg(task, tasks, cached, only_low, n1, (n2 - 1) as nat);
            lemma_cached_interference_nonneg(task, tasks, cached, only_low, (n2 - 1) as nat, (n2 - 1) as nat);
        }
        let t = tasks[n2 - 1];
        if (!only_low || !t.task.spec_is_high()) && t.spec_priority() < task.spec_priority() {
            match rlo_of(tasks, cached, n2 - 1) {
                Some(rl) => {
                    let p = t.task.spec_props().period as int;
                    lemma_ceil_div_nonneg(rl as int, p);
                    assert(ceil_div(rl as int, p) * t.task.spec_props().wcet_l >= 0)
                        by (nonlinear_arith)
                        requires ceil_div(rl as int, p) >= 0 && t.task.spec_props().wcet_l >= 0;
                },
                None => {},
            }
        }
    }
}

/// Exact computation of the cached-interference sum.  `None` means the sum is
/// either undefined (a needed low-mode response time is unavailable) or
/// larger than any representable time; the ensures keeps the two apart.
fn cached_interference_checked(
    task: &SimulatorTask,
    tasks: &Vec<SimulatorTask>,
    cached: &Vec<Option<TimeUnit>>,
    only_low: bool,
) -> (res: Option<u64>)
    requires
        periods_positive(tasks@),
    ensures
        match res {
            Some(v) => cached_interference_upto(*task, tasks@, cached@, only_low, tasks@.len())
                == Some(v as int),
            None => match cached_interference_upto(*task, tasks@, cached@, only_low, tasks@.len()) {
                Some(s) => s > u64::MAX,
                None => true,
            },
        },
{
    let ghost n_all = tasks@.len();
    let mut acc: u128 = 0;
    let mut i: usize = 0;
    while i < tasks.len()
        invariant
            periods_positive(tasks@),
            i <= tasks@.len(),
            cached_interference_upto(*task, tasks@, cached@, only_low, i as nat) == Some(acc as int),
            acc <= u64::MAX,
        decreases tasks@.len() - i,
    {
        let t = tasks[i];
        if (!only_low || !t.task.is_high()) && t.priority() < task.priority() {
            let rlo: Option<TimeUnit> = if i < cached.len() && cached[i].is_some() {
                cached[i]
            } else {
                response_time(&t, tasks, SimulatorMode::LMode)
            };
            proof {
                assert(rlo == rlo_of(tasks@, cached@, i as int));
            }
            match rlo {
                None => {
                    proof {
                        assert(cached_interference_upto(*task, tasks@, cached@, only_low, (i + 1) as nat) is None);
                        lemma_cached_interference_nonneg(
                            *task, tasks@, cached@, only_low, (i + 1) as nat, tasks@.len(),
                        );
                    }
                    return None;
                },
                Some(rl) => {
                    let p = t.task.props().period;
                    let c: u128 = (rl as u128 + p as u128 - 1) / (p as u128);
                    let w: u128 = t.task.props().wcet_l as u128;
                    proof {
                        assert(c == ceil_div(rl as int, p as int));
                        assert(c <= u64::MAX as u128 + 1) by {
                            lemma_div_is_ordered(
                                rl as int + p as int - 1,
                                u64::MAX as int + p as int - 1,
                                p as int,
                            );
                            assert((u64::MAX as int + p - 1) / (p as int) <= u64::MAX + 1)
                                by (nonlinear_arith)
                                requires 1 <= p <= u64::MAX;
                        }
                        assert(c * w <= (u64::MAX as u128 + 1) * (u64::MAX as u128)) by (nonlinear_arith)
                            requires c <= u64::MAX as u128 + 1 && w <= u64::MAX as u128;
                    }
                    let term: u128 = c * w;
                    acc = acc + term;
                    if acc > u64::MAX as u128 {
                        proof {
                            lemma_cached_interference_nonneg(
                                *task, tasks@, cached@, only_low, (i + 1) as nat, tasks@.len(),
                            );
                        }
                        return None;
                    }
                },
            }
        }
        i = i + 1;
    }
    Some(acc as u64)
}

/// Exact computation of the high-task interference over a window of `r`;
/// `None` when the true value exceeds `u64::MAX`.
fn h_interference_checked(
    task: &SimulatorTask,
    tasks: &Vec<SimulatorTask>,
    r: u64,
) -> (res: Option<u64>)
    requires
        periods_positive(tasks@),
    ensures
        match res {
            Some(v) => v == h_interference_upto(*task, tasks@, r as int, tasks@.len()),
            None => h_interference_upto(*task, tasks@, r as int, tasks@.len()) > u64::MAX,
        },
{
    let mut acc: u128 = 0;
    let mut i: usize = 0;
    while i < tasks.len()
        invariant
            periods_positive(tasks@),
            i <= tasks@.len(),
            acc == h_interference_upto(*task, tasks@, r as int, i as nat),
            acc <= u64::MAX,
        decreases tasks@.len() - i,
    {
        let t = tasks[i];
        if t.task.is_high() && t.priority() < task.priority() {
            let p = t.task.props().period;
            let c: u128 = (r as u128 + p as u128 - 1) / (p as u128);
            let w: u128 = t.task.props().wcet_h as u128;
            proof {
                assert(c == ceil_div(r as int, p as int));
                assert(c <= u64::MAX as u128 + 1) by {
                    lemma_div_is_ordered(
                        r as int + p as int - 1,
                        u64::MAX as int + p as int - 1,
                        p as int,
                    );
                    assert((u64::MAX as int + p - 1) / (p as int) <= u64::MAX + 1)
                        by (nonlinear_arith)
                        requires 1 <= p <= u64::MAX;
                }
                assert(c * w <= (u64::MAX as u128 + 1) * (u64::MAX as u128)) by (nonlinear_arith)
                    requires c <= u64::MAX as u128 + 1 && w <= u64::MAX as u128;
            }
            let term: u128 = c * w;
            acc = acc + term;
            if acc > u64::MAX as u128 {
                proof {
                    lemma_h_interference_upto_mono_n(
                        *task, tasks@, r as int, (i + 1) as nat, tasks@.len(),
                    );
                }
                return None;
            }
        }
        i = i + 1;
    }
    Some(acc as u64)
}

/// Response time of a high-criticality task across a criticality mode
/// change: low-criticality tasks interfere up to their low-mode response
/// time, higher-priority high-criticality tasks with their high-mode budget.
/// Exact: iterated to a fixed point.  Approximate: a single evaluation using
/// the task's own period as a worst-case stand-in for its response time.
/// `None` for a low-criticality task, on non-convergence, or when a needed
/// low-mode response time is unavailable.
pub fn response_time_in_mode_changes(
    task: &SimulatorTask,
    tasks: &Vec<SimulatorTask>,
    amode: AnalysisMode,
    cached_response_times: &Vec<Option<TimeUnit>>,
) -> (r: Option<TimeUnit>)
    requires
        periods_positive(tasks@),
    ensures
        r == rtmc_spec(*task, tasks@, amode, cached_response_times@),
{
    let ghost n_all = tasks@.len();
    if !task.task.is_high() {
        return None;
    }
    let wcet_h = task.task.props().wcet_h;
    let li: u64 = match cached_interference_checked(task, tasks, cached_response_times, true) {
        Some(v) => v,
        None => {
            proof {
                match l_interference(*task, tasks@, cached_response_times@) {
                    Some(s) => {
                        // The interference alone already exceeds any
                        // representable response time.
                        match amode {
                            AnalysisMode::Approximate => {
                                lemma_h_interference_nonneg(
                                    *task, tasks@, task.task.spec_props().period as int, n_all,
                                );
                            },
                            AnalysisMode::Exact => {
                                lemma_h_interference_nonneg(
                                    *task, tasks@, rtmc_iter(*task, tasks@, s, 0), n_all,
                                );
                                lemma_rtmc_iter_mono_k(*task, tasks@, s, 1, RECURRENCE_BOUND as nat);
                            },
                        }
                    },
                    None => {},
                }
            }
            return None;
        },
    };
    match amode {
        AnalysisMode::Approximate => {
            match h_interference_checked(task, tasks, task.task.props().period) {
                Some(h) => {
                    let s: u128 = wcet_h as u128 + li as u128 + h as u128;
                    if s > u64::MAX as u128 {
                        None
                    } else {
                        Some(s as u64)
                    }
                },
                None => {
                    proof {
                        lemma_cached_interference_nonneg(
                            *task, tasks@, cached_response_times@, true, n_all, n_all,
                        );
                    }
                    None
                },
            }
        },
        AnalysisMode::Exact => {
            let mut cur: u64 = wcet_h;
            let mut k: u64 = 0;
            proof {
                lemma_cached_interference_nonneg(
                    *task, tasks@, cached_response_times@, true, n_all, n_all,
                );
            }
            while k < RECURRENCE_BOUND
                invariant
                    periods_positive(tasks@),
                    task.task.spec_is_high(),
                    amode is Exact,
                    k <= RECURRENCE_BOUND,
                    wcet_h == task.task.spec_props().wcet_h,
                    l_interference(*task, tasks@, cached_response_times@) == Some(li as int),
                    cur == rtmc_iter(*task, tasks@, li as int, k as nat),
                    forall |j: nat| j < k ==> #[trigger] rtmc_iter(*task, tasks@, li as int, (j + 1) as nat)
                        != rtmc_iter(*task, tasks@, li as int, j),
                decreases RECURRENCE_BOUND - k,
            {
                proof {
                    assert(rtmc_iter(*task, tasks@, li as int, (k + 1) as nat)
                        == task.task.spec_props().wcet_h
                            + h_interference_upto(
                                *task, tasks@, rtmc_iter(*task, tasks@, li as int, k as nat), tasks@.len(),
                            )
                            + li);
                }
                let next: u64 = match h_interference_checked(task, tasks, cur) {
                    Some(h) => {
                        let s: u128 = wcet_h as u128 + h as u128 + li as u128;
                        if s > u64::MAX as u128 {
                            proof {
                                lemma_rtmc_iter_mono_k(
                                    *task, tasks@, li as int, (k + 1) as nat, RECURRENCE_BOUND as nat,
                                );
                            }
                            return None;
                        }
                        s as u64
                    },
                    None => {
                        proof {
                            lemma_rtmc_iter_mono_k(
                                *task, tasks@, li as int, (k + 1) as nat, RECURRENCE_BOUND as nat,
                            );
                        }
                        return None;
                    },
                };
                if next == cur {
                    proof {
                        assert(rtmc_converges(*task, tasks@, li as int)) by {
                            assert(rtmc_iter(*task, tasks@, li as int, (k + 1) as nat)
                                == rtmc_iter(*task, tasks@, li as int, k as nat));
                        }
                        lemma_rtmc_stable(*task, tasks@, li as int, k as nat, RECURRENCE_BOUND as nat);
                    }
                    return Some(cur);
                }
                cur = next;
                k = k + 1;
            }
            proof {
                assert(!rtmc_converges(*task, tasks@, li as int));
            }
            None
        },
    }
}

/// The necessary condition the approximate analysis enforces first: the
/// task's own low-mode budget plus the response-time-bounded interference of
/// every strictly higher-priority task must fit within the task's own
/// low-mode response time.
pub open spec fn budget_within_rlo(
    tasks: Seq<SimulatorTask>,
    cached: Seq<Option<TimeUnit>>,
    i: int,
) -> bool {
    match (cached_interference_upto(tasks[i], tasks, cached, false, tasks.len()),
           rlo_of(tasks, cached, i)) {
        (Some(intf), Some(rlo)) => tasks[i].task.spec_props().wcet_l + intf <= rlo,
        _ => false,
    }
}

/// What `feasible_mode_changes` decides: in the approximate variant every
/// high-criticality task first passes the cheap necessary condition; in both
/// variants every high-criticality task's mode-change response time exists
/// and fits within its period.
pub open spec fn feasible_mode_changes_spec(
    tasks: Seq<SimulatorTask>,
    amode: AnalysisMode,
    cached: Seq<Option<TimeUnit>>,
) -> bool {
    &&& (amode is Approximate ==> forall |i: int|
        0 <= i < tasks.len() && (#[trigger] tasks[i]).task.spec_is_high()
            ==> budget_within_rlo(tasks, cached, i))
    &&& forall |i: int| 0 <= i < tasks.len() && (#[trigger] tasks[i]).task.spec_is_high()
        ==> match rtmc_spec(tasks[i], tasks, amode, cached) {
            Some(r) => r <= tasks[i].task.spec_props().period,
            None => false,
        }
}

/// Adaptive-mixed-criticality mode-change feasibility of the snapshot.
pub fn feasible_mode_changes(
    tasks: &Vec<SimulatorTask>,
    amode: AnalysisMode,
    cached_response_times: &Vec<Option<TimeUnit>>,
) -> (b: bool)
    requires
        periods_positive(tasks@),
    ensures
        b == feasible_mode_changes_spec(tasks@, amode, cached_response_times@),
{
    let ghost n_all = tasks@.len();
    if matches!(amode, AnalysisMode::Approximate) {
        let mut i: usize = 0;
        while i < tasks.len()
            invariant
                periods_positive(tasks@),
                amode is Approximate,
                i <= tasks@.len(),
                forall |j: int| 0 <= j < i && (#[trigger] tasks@[j]).task.spec_is_high()
                    ==> budget_within_rlo(tasks@, cached_response_times@, j),
            decreases tasks@.len() - i,
        {
            let t = tasks[i];
            if t.task.is_high() {
                let intf = match cached_interference_checked(&t, tasks, cached_response_times, false) {
                    Some(v) => v,
                    None => {
                        proof {
                            assert(!budget_within_rlo(tasks@, cached_response_times@, i as int));
                        }
                        return false;
                    },
                };
                let rlo: Option<TimeUnit> = if i < cached_response_times.len()
                    && cached_response_times[i].is_some() {
                    cached_response_times[i]
                } else {
                    response_time(&t, tasks, SimulatorMode::LMode)
                };
                proof {
                    assert(rlo == rlo_of(tasks@, cached_response_times@, i as int));
                }
                match rlo {
                    None => {
                        return false;
                    },
                    Some(rl) => {
                        if t.task.props().wcet_l as u128 + intf as u128 > rl as u128 {
                            return false;
                        }
                    },
                }
            }
            i = i + 1;
        }
    }
    let mut i: usize = 0;
    while i < tasks.len()
        invariant
            periods_positive(tasks@),
            i <= tasks@.len(),
            amode is Approximate ==> forall |j: int|
                0 <= j < tasks@.len() && (#[trigger] tasks@[j]).task.spec_is_high()
                    ==> budget_within_rlo(tasks@, cached_response_times@, j),
            forall |j: int| 0 <= j < i && (#[trigger] tasks@[j]).task.spec_is_high()
                ==> match rtmc_spec(tasks@[j], tasks@, amode, cached_response_times@) {
                    Some(r) => r <= tasks@[j].task.spec_props().period,
                    None => false,
                },
        decreases tasks@.len() - i,
    {
        let t = tasks[i];
        if t.task.is_high() {
            match response_time_in_mode_changes(&t, tasks, amode, cached_response_times) {
                Some(r) => {
                    if r > t.task.props().period {
                        return false;
                    }
                },
                None => {
                    return false;
                },
            }
        }
        i = i + 1;
    }
    true
}

/// The structural invariant the analyzer enforces on every task:
/// `0 < wcet_l <= wcet_h <= period`.
pub open spec fn props_valid(tasks: Seq<SimulatorTask>) -> bool {
    forall |i: int| 0 <= i < tasks.len() ==> {
        let p = (#[trigger] tasks[i]).task.spec_props();
        0 < p.wcet_l && p.wcet_l <= p.wcet_h && p.wcet_h <= p.period
    }
}

/// Executable check of the structural invariant.
pub fn check_props_valid(tasks: &Vec<SimulatorTask>) -> (b: bool)
    ensures
        b == props_valid(tasks@),
{
    let mut i: usize = 0;
    while i < tasks.len()
        invariant
            i <= tasks@.len(),
            forall |j: int| 0 <= j < i ==> {
                let p = (#[trigger] tasks@[j]).task.spec_props();
                0 < p.wcet_l && p.wcet_l <= p.wcet_h && p.wcet_h <= p.period
            },
        decreases tasks@.len() - i,
    {
        let p = tasks[i].task.props();
        if !(0 < p.wcet_l && p.wcet_l <= p.wcet_h && p.wcet_h <= p.period) {
            return false;
        }
        i = i + 1;
    }
    true
}

/// What the design-time verdict states: the structural invariant holds, the
/// set is feasible in both modes, and the exact mode-change analysis passes.
pub open spec fn feasible_schedule_design_time_spec(tasks: Seq<SimulatorTask>) -> bool {
    &&& props_valid(tasks)
    &&& feasible_in_mode_spec(tasks, SimulatorMode::LMode)
    &&& feasible_in_mode_spec(tasks, SimulatorMode::HMode)
    &&& feasible_mode_changes_spec(tasks, AnalysisMode::Exact, Seq::empty())
}

/// What the online verdict states: the structural invariant holds, the set
/// is feasible in low mode, and the approximate mode-change analysis passes.
/// High-mode feasibility is not re-checked online because only low-mode
/// budgets are ever perturbed at runtime.
pub open spec fn feasible_schedule_online_spec(
    tasks: Seq<SimulatorTask>,
    cached: Seq<Option<TimeUnit>>,
) -> bool {
    &&& props_valid(tasks)
    &&& feasible_in_mode_spec(tasks, SimulatorMode::LMode)
    &&& feasible_mode_changes_spec(tasks, AnalysisMode::Approximate, cached)
}

proof fn lemma_props_valid_periods_positive(tasks: Seq<SimulatorTask>)
    requires
        props_valid(tasks),
    ensures
        periods_positive(tasks),
{
    assert forall |i: int| 0 <= i < tasks.len()
        implies #[trigger] tasks[i].task.spec_props().period >= 1 by {
        assert(tasks[i].task.spec_props().wcet_l > 0);
    }
}

/// Design-time deployability of a task set: assessed with the full, exact
/// recurrences.
pub fn feasible_schedule_design_time(tasks: &Vec<SimulatorTask>) -> (b: bool)
    ensures
        b == feasible_schedule_design_time_spec(tasks@),
{
    if !check_props_valid(tasks) {
        return false;
    }
    proof {
        lemma_props_valid_periods_positive(tasks@);
    }
    let empty: Vec<Option<TimeUnit>> = Vec::new();
    feasible_in_mode(tasks, SimulatorMode::LMode)
        && feasible_in_mode(tasks, SimulatorMode::HMode)
        && feasible_mode_changes(tasks, AnalysisMode::Exact, &empty)
}

/// Online admissibility of a (possibly just mutated) task set: cheap enough
/// to run inside the simulation, using cached low-mode response times where
/// supplied.
pub fn feasible_schedule_online(
    tasks: &Vec<SimulatorTask>,
    cached_response_times: &Vec<Option<TimeUnit>>,
) -> (b: bool)
    ensures
        b == feasible_schedule_online_spec(tasks@, cached_response_times@),
{
    if !check_props_valid(tasks) {
        return false;
    }
    proof {
        lemma_props_valid_periods_positive(tasks@);
    }
    feasible_in_mode(tasks, SimulatorMode::LMode)
        && feasible_mode_changes(tasks, AnalysisMode::Approximate, cached_response_times)
}

/// `b` is `a` with the execution budget of `mode` possibly raised and
/// everything the response-time recurrence reads unchanged: same priority,
/// same period.
pub open spec fn wcet_raised(a: SimulatorTask, b: SimulatorTask, mode: SimulatorMode) -> bool {
    &&& wcet_of(a, mode) <= wcet_of(b, mode)
    &&& a.spec_priority() == b.spec_priority()
    &&& a.task.spec_props().period == b.task.spec_props().period
    &&& a.task.spec_is_high() == b.task.spec_is_high()
}

proof fn lemma_interference_pointwise(
    task: SimulatorTask,
    tasks1: Seq<SimulatorTask>,
    tasks2: Seq<SimulatorTask>,
    j: int,
    mode: SimulatorMode,
    r: int,
    n: nat,
)
    requires
        periods_positive(tasks1),
        tasks1.len() == tasks2.len(),
        0 <= j < tasks1.len(),
        forall |i: int| 0 <= i < tasks1.len() && i != j ==> #[trigger] tasks2[i] == tasks1[i],
        wcet_raised(tasks1[j], tasks2[j], mode),
        r >= 0,
        n <= tasks1.len(),
    ensures
        interference_upto(task, tasks1, mode, r, n) <= interference_upto(task, tasks2, mode, r, n),
    decreases n,
{
    if n == 0 {
    } else {
        lemma_interference_pointwise(task, tasks1, tasks2, j, mode, r, (n - 1) as nat);
        let t1 = tasks1[n - 1];
        let t2 = tasks2[n - 1];
        if t1.spec_priority() < task.spec_priority() {
            let p = t1.task.spec_props().period as int;
            lemma_ceil_div_nonneg(r, p);
            assert(ceil_div(r, p) * wcet_of(t1, mode) <= ceil_div(r, p) * wcet_of(t2, mode))
                by (nonlinear_arith)
                requires ceil_div(r, p) >= 0 && wcet_of(t1, mode) <= wcet_of(t2, mode);
        }
    }
}

proof fn lemma_rt_iter_pointwise(
    task: SimulatorTask,
    tasks1: Seq<SimulatorTask>,
    tasks2: Seq<SimulatorTask>,
    j: int,
    mode: SimulatorMode,
    k: nat,
)
    requires
        periods_positive(tasks1),
        periods_positive(tasks2),
        tasks1.len() == tasks2.len(),
        0 <= j < tasks1.len(),
        forall |i: int| 0 <= i < tasks1.len() && i != j ==> #[trigger] tasks2[i] == tasks1[i],
        wcet_raised(tasks1[j], tasks2[j], mode),
    ensures
        rt_iter(task, tasks1, mode, k) <= rt_iter(task, tasks2, mode, k),
    decreases k,
{
    if k > 0 {
        lemma_rt_iter_pointwise(task, tasks1, tasks2, j, mode, (k - 1) as nat);
        lemma_rt_iter_nondecreasing(task, tasks1, mode, (k - 1) as nat);
        lemma_interference_mono_r(
            task,
            tasks1,
            mode,
            rt_iter(task, tasks1, mode, (k - 1) as nat),
            rt_iter(task, tasks2, mode, (k - 1) as nat),
            tasks1.len(),
        );
        lemma_interference_pointwise(
            task, tasks1, tasks2, j, mode,
            rt_iter(task, tasks2, mode, (k - 1) as nat),
            tasks1.len(),
        );
    }
}

/// Response-time monotonicity: raising the budget of a task in the snapshot
/// (with priority and period unchanged) never shrinks the response time of
/// any task.  When both snapshots yield a response time, the one computed
/// against the raised budget is at least as large.
pub proof fn lemma_response_time_monotonic(
    task: SimulatorTask,
    tasks1: Seq<SimulatorTask>,
    tasks2: Seq<SimulatorTask>,
    j: int,
    mode: SimulatorMode,
)
    requires
        periods_positive(tasks1),
        periods_positive(tasks2),
        tasks1.len() == tasks2.len(),
        0 <= j < tasks1.len(),
        forall |i: int| 0 <= i < tasks1.len() && i != j ==> #[trigger] tasks2[i] == tasks1[i],
        wcet_raised(tasks1[j], tasks2[j], mode),
    ensures
        match (rt_spec(task, tasks1, mode), rt_spec(task, tasks2, mode)) {
            (Some(r1), Some(r2)) => r1 <= r2,
            _ => true,
        },
{
    lemma_rt_iter_pointwise(task, tasks1, tasks2, j, mode, RECURRENCE_BOUND as nat);
    lemma_rt_iter_mono_k(task, tasks1, mode, 0, RECURRENCE_BOUND as nat);
    lemma_rt_iter_mono_k(task, tasks2, mode, 0, RECURRENCE_BOUND as nat);
}

/// Response-time monotonicity in the task's own budget: the recurrence for a
/// task with a raised budget, against the same snapshot, yields a response
/// time at least as large, whenever both converge.
pub proof fn lemma_response_time_monotonic_self(
    task1: SimulatorTask,
    task2: SimulatorTask,
    tasks: Seq<SimulatorTask>,
    mode: SimulatorMode,
)
    requires
        periods_positive(tasks),
        wcet_raised(task1, task2, mode),
    ensures
        match (rt_spec(task1, tasks, mode), rt_spec(task2, tasks, mode)) {
            (Some(r1), Some(r2)) => r1 <= r2,
            _ => true,
        },
{
    assert forall |k: nat| k <= RECURRENCE_BOUND
        implies rt_iter(task1, tasks, mode, k) <= rt_iter(task2, tasks, mode, k) by {
        lemma_rt_iter_pointwise_self(task1, task2, tasks, mode, k);
    }
    lemma_rt_iter_mono_k(task1, tasks, mode, 0, RECURRENCE_BOUND as nat);
    lemma_rt_iter_mono_k(task2, tasks, mode, 0, RECURRENCE_BOUND as nat);
}

proof fn lemma_rt_iter_pointwise_self(
    task1: SimulatorTask,
    task2: SimulatorTask,
    tasks: Seq<SimulatorTask>,
    mode: SimulatorMode,
    k: nat,
)
    requires
        periods_positive(tasks),
        wcet_raised(task1, task2, mode),
    ensures
        rt_iter(task1, tasks, mode, k) <= rt_iter(task2, tasks, mode, k),
    decreases k,
{
    if k == 0 {
    } else {
        lemma_rt_iter_pointwise_self(task1, task2, tasks, mode, (k - 1) as nat);
        lemma_rt_iter_nondecreasing(task1, tasks, mode, (k - 1) as nat);
        lemma_interference_mono_r(
            task1,
            tasks,
            mode,
            rt_iter(task1, tasks, mode, (k - 1) as nat),
            rt_iter(task2, tasks, mode, (k - 1) as nat),
            tasks.len(),
        );
        assert(interference_upto(task1, tasks, mode, rt_iter(task2, tasks, mode, (k - 1) as nat), tasks.len())
            == interference_upto(task2, tasks, mode, rt_iter(task2, tasks, mode, (k - 1) as nat), tasks.len())) by {
            lemma_interference_same_shape(
                task1, task2, tasks, mode,
                rt_iter(task2, tasks, mode, (k - 1) as nat),
                tasks.len(),
            );
        }
    }
}

proof fn lemma_interference_same_shape(
    task1: SimulatorTask,
    task2: SimulatorTask,
    tasks: Seq<SimulatorTask>,
    mode: SimulatorMode,
    r: int,
    n: nat,
)
    requires
        task1.spec_priority() == task2.spec_priority(),
    ensures
        interference_upto(task1, tasks, mode, r, n) == interference_upto(task2, tasks, mode, r, n),
    decreases n,
{
    if n > 0 && n <= tasks.len() {
        lemma_interference_same_shape(task1, task2, tasks, mode, r, (n - 1) as nat);
    }
}

/// Idempotence of the exact recurrence: the value `response_time` returns is
/// a genuine fixed point, so feeding it once more through the recurrence body
/// gives it back unchanged.
pub proof fn lemma_response_time_idempotent(
    task: SimulatorTask,
    tasks: Seq<SimulatorTask>,
    mode: SimulatorMode,
)
    requires
        periods_positive(tasks),
        rt_spec(task, tasks, mode) is Some,
    ensures
        rt_spec(task, tasks, mode) matches Some(r)
            ==> wcet_of(task, mode) + interference_of(task, tasks, mode, r as int) == r,
{
    let k = choose |k: nat| k < RECURRENCE_BOUND
        && #[trigger] rt_iter(task, tasks, mode, (k + 1) as nat) == rt_iter(task, tasks, mode, k);
    lemma_rt_iter_mono_k(task, tasks, mode, 0, RECURRENCE_BOUND as nat);
    lemma_rt_stable(task, tasks, mode, k, RECURRENCE_BOUND as nat);
    lemma_rt_stable(task, tasks, mode, k, (RECURRENCE_BOUND + 1) as nat);
    assert(rt_iter(task, tasks, mode, (RECURRENCE_BOUND + 1) as nat)
        == wcet_of(task, mode)
            + interference_of(task, tasks, mode, rt_iter(task, tasks, mode, RECURRENCE_BOUND as nat)));
}

proof fn lemma_rtmc_iter_bounded(
    task: SimulatorTask,
    tasks: Seq<SimulatorTask>,
    li: int,
    k: nat,
)
    requires
        periods_positive(tasks),
        li >= 0,
        task.task.spec_props().wcet_h + li
            + h_interference_upto(task, tasks, task.task.spec_props().period as int, tasks.len())
            <= task.task.spec_props().period,
    ensures
        rtmc_iter(task, tasks, li, k)
            <= task.task.spec_props().wcet_h + li
                + h_interference_upto(task, tasks, task.task.spec_props().period as int, tasks.len()),
    decreases k,
{
    let p = task.task.spec_props().period as int;
    if k == 0 {
        lemma_h_interference_nonneg(task, tasks, p, tasks.len());
    } else {
        lemma_rtmc_iter_bounded(task, tasks, li, (k - 1) as nat);
        lemma_rtmc_iter_nondecreasing(task, tasks, li, (k - 1) as nat);
        lemma_h_interference_mono_r(
            task,
            tasks,
            rtmc_iter(task, tasks, li, (k - 1) as nat),
            p,
            tasks.len(),
        );
    }
}

/// Mode-change soundness: whenever the approximate (online) mode-change
/// analysis accepts a task set, the exact (design-time) analysis accepts it
/// too, provided the exact recurrence stabilises within the iteration bound
/// for every high-criticality task.  The approximate check is conservative,
/// never optimistic: its single-shot evaluation at the task's own period
/// bounds every iterate of the exact recurrence.
pub proof fn lemma_mode_change_approx_sound(
    tasks: Seq<SimulatorTask>,
    cached: Seq<Option<TimeUnit>>,
)
    requires
        periods_positive(tasks),
        feasible_mode_changes_spec(tasks, AnalysisMode::Approximate, cached),
        forall |i: int| 0 <= i < tasks.len() && (#[trigger] tasks[i]).task.spec_is_high()
            ==> rtmc_spec(tasks[i], tasks, AnalysisMode::Exact, cached) is Some,
    ensures
        feasible_mode_changes_spec(tasks, AnalysisMode::Exact, cached),
{
    assert forall |i: int| 0 <= i < tasks.len() && (#[trigger] tasks[i]).task.spec_is_high()
        implies match rtmc_spec(tasks[i], tasks, AnalysisMode::Exact, cached) {
            Some(r) => r <= tasks[i].task.spec_props().period,
            None => false,
        } by {
        let task = tasks[i];
        let li = match l_interference(task, tasks, cached) {
            Some(v) => v,
            None => 0,
        };
        assert(l_interference(task, tasks, cached) == Some(li));
        lemma_cached_interference_nonneg(task, tasks, cached, true, tasks.len(), tasks.len());
        lemma_h_interference_nonneg(task, tasks, task.task.spec_props().period as int, tasks.len());
        let a = task.task.spec_props().wcet_h + li
            + h_interference_upto(task, tasks, task.task.spec_props().period as int, tasks.len());
        assert(a >= 0);
        assert(match rtmc_spec(task, tasks, AnalysisMode::Approximate, cached) {
            Some(r) => r <= task.task.spec_props().period,
            None => false,
        });
        assert(a <= u64::MAX);
        assert(rtmc_spec(task, tasks, AnalysisMode::Approximate, cached) == Some(a as u64));
        assert(a <= task.task.spec_props().period);
        lemma_rtmc_iter_bounded(task, tasks, li, RECURRENCE_BOUND as nat);
        lemma_rtmc_iter_mono_k(task, tasks, li, 0, RECURRENCE_BOUND as nat);
        assert(rtmc_fixed(task, tasks, li) <= a);
    }
}

} // verus!
