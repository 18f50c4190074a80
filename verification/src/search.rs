//! The depth-first search that a solving client runs on one search buffer:
//! steps of the scheduler over a stack of search buffers.
use vstd::prelude::*;
use crate::scheduler::{Scheduler, Grid, extends, lemma_extends_trans};

verus! {

/// What a run of the search on one search buffer left behind.
pub struct SearchRun {
    /// The stack of search buffers still to explore, bottom first, one search
    /// buffer after the other; empty when the whole search space was explored.
    pub remaining: Vec<u64>,
    /// Whether the whole search space of the search buffer was explored.
    pub exhausted: bool,
    /// The number of steps taken.
    pub steps: u64,
    /// The search buffers that no table was left to branch on in.
    pub solutions: Vec<Vec<u64>>,
}

impl<'a> Scheduler<'a> {
    /// A search buffer at depth `k` of a stack: valid, and holding at least
    /// `k` placements.
    pub open spec fn stack_entry_ok(&self, b: Seq<u64>, k: int) -> bool {
        &&& b.len() == self.spec_block_size()
        &&& self.valid_buffer(b)
        &&& self.state_of(b).placed >= k
    }

    /// A search buffer in which no table is left to branch on: each table to
    /// explore stands for a table of the schedule that admits no more players.
    /// Such a table is full, or was filled by the step and left with free
    /// seats that no one may take; `search_run` says which buffers the search
    /// reports.
    pub open spec fn is_solution(&self, b: Seq<u64>) -> bool {
        &&& self.valid_buffer(b)
        &&& forall|n: int|
            self.explore_of(b).contains(n) ==> self.explore_in_range(n) && self.is_filled(self.state_of(b), n)
    }
}

/// Search buffer `k` of a stack of search buffers of `size` words each, laid
/// one after the other in `words`.
pub open spec fn stack_block(words: Seq<u64>, size: int, k: int) -> Seq<u64> {
    words.subrange(k * size, (k + 1) * size)
}

/// A search buffer as the search sees it: its state and its to-explore numbers.
pub open spec fn buffer_view(sch: &Scheduler, b: Seq<u64>) -> (Grid, Set<int>) {
    (sch.state_of(b), sch.explore_of(b))
}

/// The search buffer of `size` zero words, as the search sees it.
pub open spec fn zero_view(sch: &Scheduler, size: nat) -> (Grid, Set<int>) {
    buffer_view(sch, Seq::new(size, |i: int| 0u64))
}

/// One step of the depth-first search on the machine `m`: the stack of search
/// buffers, the depth of the current one, the solutions found, and whether the
/// stack was emptied. The step runs on the current search buffer, with the one
/// above it as room for a branch (a fresh one, `zero`, when there is none). A
/// solution is kept and popped; a dead end is popped; a branch replaces the
/// current search buffer and pushes the new one.
pub open spec fn search_step(
    sch: &Scheduler,
    m: (Seq<(Grid, Set<int>)>, int, Seq<(Grid, Set<int>)>, bool),
    zero: (Grid, Set<int>),
) -> (Seq<(Grid, Set<int>)>, int, Seq<(Grid, Set<int>)>, bool) {
    let (stack, depth, sols, done) = m;
    let stack1 = if depth + 1 >= stack.len() {
        stack.push(zero)
    } else {
        stack
    };
    let res = sch.step_result(stack1[depth].0, stack1[depth].1);
    let up = if depth == 0 {
        0
    } else {
        depth - 1
    };
    if res.0 == Some(true) {
        (stack1, up, sols.push((res.1, res.2)), depth == 0)
    } else if res.0 == Some(false) {
        (stack1.update(depth, (res.1, res.2)).update(depth + 1, (res.3, res.2)), depth + 1, sols, false)
    } else {
        (stack1, up, sols, depth == 0)
    }
}

/// The machine of the depth-first search after `k` steps from the stack that
/// holds `start` alone.
pub open spec fn search_run(sch: &Scheduler, start: (Grid, Set<int>), zero: (Grid, Set<int>), k: nat) -> (
    Seq<(Grid, Set<int>)>,
    int,
    Seq<(Grid, Set<int>)>,
    bool,
)
    decreases k,
{
    if k == 0 {
        (seq![start], 0, Seq::empty(), false)
    } else {
        search_step(sch, search_run(sch, start, zero, (k - 1) as nat), zero)
    }
}

/// How a step moves the search: a branch goes one buffer deeper and never
/// ends the search; a solution or a dead end at a buffer above the bottom goes
/// back to the buffer below it and does not end the search either; only a
/// solution or a dead end at the bottom buffer ends it. A solution, and only a
/// solution, is added to those found, and the buffers below the current one
/// stay as they were.
pub proof fn lemma_search_step_moves(
    sch: &Scheduler,
    m: (Seq<(Grid, Set<int>)>, int, Seq<(Grid, Set<int>)>, bool),
    zero: (Grid, Set<int>),
)
    requires
        0 <= m.1 < m.0.len(),
    ensures
        ({
            let res = sch.step_result(m.0[m.1].0, m.0[m.1].1);
            let next = search_step(sch, m, zero);
            &&& res.0 == Some(false) ==> next.1 == m.1 + 1 && !next.3 && next.2 == m.2
            &&& res.0 != Some(false) && m.1 > 0 ==> next.1 == m.1 - 1 && !next.3
            &&& res.0 != Some(false) && m.1 == 0 ==> next.3
            &&& next.3 ==> m.1 == 0
            &&& res.0 == Some(true) ==> next.2 == m.2.push((res.1, res.2))
            &&& res.0 is None ==> next.2 == m.2
            &&& forall|k: int| 0 <= k < m.1 ==> #[trigger] next.0[k] == m.0[k]
        }),
{
}

/// A run of the search ends only with a step at the bottom of the stack.
pub proof fn lemma_search_run_ends_at_bottom(
    sch: &Scheduler,
    start: (Grid, Set<int>),
    zero: (Grid, Set<int>),
    k: nat,
)
    requires
        !search_run(sch, start, zero, k).3,
        search_run(sch, start, zero, k + 1).3,
    ensures
        search_run(sch, start, zero, k).1 == 0,
{
}

/// A search buffer of zeros.
fn zero_block(n: usize) -> (r: Vec<u64>)
    ensures
        r@ == Seq::new(n as nat, |i: int| 0u64),
{
    let mut v: Vec<u64> = Vec::new();
    let mut i: usize = 0;
    while i < n
        invariant
            i <= n,
            v@ == Seq::new(i as nat, |j: int| 0u64),
        decreases n - i,
    {
        v.push(0);
        i = i + 1;
        assert(v@ =~= Seq::new(i as nat, |j: int| 0u64));
    }
    v
}

/// Runs the depth-first search from the search buffer `start` for up to
/// `steps_per_sync + 1` steps. A step that branches pushes the new search
/// buffer; a step that finds a solution or a dead end pops the current one. The
/// run ends when the stack is empty or the steps are used up, or before a step
/// whose placement counter could overflow. Every solution found, and every
/// search buffer left on the stack, extends the search buffer `start`. The
/// stack left, the solutions and whether the stack was emptied are those of
/// `search_run` after the steps taken.
pub fn run_search(scheduler: &Scheduler, start: &[u64], steps_per_sync: u64) -> (r: SearchRun)
    requires
        scheduler.wf(),
        scheduler.counts_fit(),
        scheduler.spec_to_explore_size() > 0,
        start@.len() == scheduler.spec_block_size(),
        scheduler.valid_buffer(start@),
        steps_per_sync < u64::MAX,
    ensures
        r.steps <= steps_per_sync as int + 1,
        r.exhausted ==> r.remaining@.len() == 0 && r.steps >= 1,
        !r.exhausted ==> exists|depth: int|
            0 <= depth && #[trigger] ((depth + 1) * scheduler.spec_block_size()) == r.remaining@.len() && {
                &&& forall|k: int|
                    0 <= k <= depth ==> scheduler.stack_entry_ok(
                        #[trigger] stack_block(r.remaining@, scheduler.spec_block_size(), k),
                        k,
                    ) && extends(
                        scheduler.state_of(start@),
                        scheduler.state_of(stack_block(r.remaining@, scheduler.spec_block_size(), k)),
                    )
                &&& r.steps == steps_per_sync as int + 1 || scheduler.state_of(
                    stack_block(r.remaining@, scheduler.spec_block_size(), depth),
                ).placed + scheduler.step_budget() > u64::MAX
            },
        forall|i: int|
            0 <= i < r.solutions@.len() ==> #[trigger] scheduler.is_solution(r.solutions@[i]@) && extends(
                scheduler.state_of(start@),
                scheduler.state_of(r.solutions@[i]@),
            ),
        ({
            let m = search_run(
                scheduler,
                buffer_view(scheduler, start@),
                zero_view(scheduler, scheduler.spec_block_size() as nat),
                r.steps as nat,
            );
            &&& r.exhausted == m.3
            &&& r.solutions@.len() == m.2.len()
            &&& forall|i: int| 0 <= i < r.solutions@.len() ==> #[trigger] buffer_view(scheduler, r.solutions@[i]@) == m.2[i]
            &&& !r.exhausted ==> (m.1 + 1) * scheduler.spec_block_size() == r.remaining@.len()
            &&& !r.exhausted ==> forall|k: int|
                0 <= k <= m.1 ==> #[trigger] buffer_view(
                    scheduler,
                    stack_block(r.remaining@, scheduler.spec_block_size(), k),
                ) == m.0[k]
        }),
{
    let bs = scheduler.get_block_size();
    let room = scheduler.step_room();
    let mut stack: Vec<Vec<u64>> = Vec::new();
    stack.push(prefix_copy(start));
    let mut depth: usize = 0;
    let mut steps: u64 = 0;
    let mut exhausted = false;
    let mut solutions: Vec<Vec<u64>> = Vec::new();
    let mut stopped = false;
    proof {
        assert(stack@[0]@ == start@);
        let m = search_run(scheduler, buffer_view(scheduler, start@), zero_view(scheduler, bs as nat), 0);
        assert(m.0[0] == buffer_view(scheduler, stack@[0]@));
    }
    while steps <= steps_per_sync && !exhausted && !stopped
        invariant
            scheduler.wf(),
            scheduler.counts_fit(),
            scheduler.spec_to_explore_size() > 0,
            bs == scheduler.spec_block_size(),
            room matches Some(x) ==> x + scheduler.step_budget() == u64::MAX,
            room is None ==> scheduler.step_budget() > u64::MAX,
            steps <= steps_per_sync as int + 1,
            !exhausted ==> depth < stack@.len(),
            steps_per_sync < u64::MAX,
            forall|k: int| 0 <= k < stack@.len() ==> #[trigger] stack@[k]@.len() == bs,
            forall|k: int| 0 <= k <= depth && k < stack@.len() ==> #[trigger] scheduler.stack_entry_ok(stack@[k]@, k),
            forall|i: int| 0 <= i < solutions@.len() ==> #[trigger] scheduler.is_solution(solutions@[i]@),
            forall|i: int|
                0 <= i < solutions@.len() ==> extends(
                    scheduler.state_of(start@),
                    scheduler.state_of(#[trigger] solutions@[i]@),
                ),
            forall|k: int|
                0 <= k <= depth && k < stack@.len() ==> extends(
                    scheduler.state_of(start@),
                    scheduler.state_of(#[trigger] stack@[k]@),
                ),
            exhausted ==> steps >= 1,
            exhausted ==> !stopped,
            ({
                let m = search_run(scheduler, buffer_view(scheduler, start@), zero_view(scheduler, bs as nat), steps as nat);
                &&& m.3 == exhausted
                &&& m.1 == depth
                &&& m.0.len() == stack@.len()
                &&& forall|k: int| 0 <= k < stack@.len() ==> #[trigger] m.0[k] == buffer_view(scheduler, stack@[k]@)
                &&& m.2.len() == solutions@.len()
                &&& forall|i: int| 0 <= i < solutions@.len() ==> #[trigger] m.2[i] == buffer_view(scheduler, solutions@[i]@)
            }),
            stopped ==> scheduler.state_of(stack@[depth as int]@).placed + scheduler.step_budget() > u64::MAX,
        decreases steps_per_sync as int + 1 - steps + (if exhausted || stopped { 0int } else { 1int }),
    {
        proof {
            assert(depth < stack@.len());
            assert(scheduler.stack_entry_ok(stack@[depth as int]@, depth as int));
        }
        let placed = scheduler.placed_in(stack[depth].as_slice());
        let full = match room {
            None => true,
            Some(x) => placed > x,
        };
        if full {
            proof {
                assert(scheduler.state_of(stack@[depth as int]@).placed == placed);
            }
            stopped = true;
            continue;
        }
        let ghost m0 = search_run(scheduler, buffer_view(scheduler, start@), zero_view(scheduler, bs as nat), steps as nat);
        let sl = stack.len();
        if depth >= sl - 1 {
            stack.push(zero_block(bs));
        }
        let ghost stack1 = if depth + 1 >= m0.0.len() {
            m0.0.push(zero_view(scheduler, bs as nat))
        } else {
            m0.0
        };
        proof {
            assert(stack1.len() == stack@.len());
            assert forall|k: int| 0 <= k < stack@.len() implies #[trigger] stack1[k] == buffer_view(scheduler, stack@[k]@) by {
                if k < m0.0.len() {
                    assert(m0.0[k] == buffer_view(scheduler, stack@[k]@));
                }
            }
        }
        let sl2 = stack.len();
        assert(depth + 1 < sl2);
        let mut b1 = stack[depth].clone();
        let mut b2 = stack[depth + 1].clone();
        proof {
            assert(b1@ =~= stack@[depth as int]@);
            assert(scheduler.stack_entry_ok(stack@[depth as int]@, depth as int));
        }
        let ghost in1 = b1@;
        let res = scheduler.step(b1.as_mut_slice(), b2.as_mut_slice());
        let ghost s1 = b1@;
        let ghost s2 = b2@;
        proof {
            assert(in1 == stack@[depth as int]@);
            assert(stack1[depth as int] == buffer_view(scheduler, in1));
            scheduler.lemma_step_result(
                scheduler.state_of(in1),
                scheduler.explore_of(in1),
                res,
                scheduler.state_of(s1),
                scheduler.explore_of(s1),
                scheduler.state_of(s2),
            );
            lemma_extends_placed(scheduler.state_of(stack@[depth as int]@), scheduler.state_of(s1));
            assert(extends(scheduler.state_of(start@), scheduler.state_of(stack@[depth as int]@)));
            lemma_extends_trans(
                scheduler.state_of(start@),
                scheduler.state_of(stack@[depth as int]@),
                scheduler.state_of(s1),
            );
        }
        match res {
            Some(true) => {
                proof {
                    assert(scheduler.is_solution(s1));
                }
                solutions.push(b1);
                if depth == 0 {
                    exhausted = true;
                } else {
                    depth = depth - 1;
                }
            },
            Some(false) => {
                proof {
                    let (n, p) = choose|n: int, p: int|
                        scheduler.explore_of(s1).contains(n) && scheduler.explore_in_range(n) && scheduler.is_branch(
                            scheduler.state_of(s1),
                            scheduler.state_of(s2),
                            n,
                            p,
                        );
                    assert(scheduler.state_of(s2).placed == scheduler.state_of(s1).placed + 1);
                    scheduler.lemma_branch_extends(s1, s2, n, p);
                    lemma_extends_trans(scheduler.state_of(start@), scheduler.state_of(s1), scheduler.state_of(s2));
                }
                stack.set(depth, b1);
                stack.set(depth + 1, b2);
                depth = depth + 1;
            },
            None => {
                if depth == 0 {
                    exhausted = true;
                } else {
                    depth = depth - 1;
                }
            },
        }
        steps = steps + 1;
    }
    let mut remaining: Vec<u64> = Vec::new();
    if !exhausted {
        proof {
            assert forall|j: int| 0 <= j <= depth implies #[trigger] stack@[j]@.len() == bs by {
                assert(scheduler.stack_entry_ok(stack@[j]@, j));
            }
        }
        let slen = stack.len();
        let mut k: usize = 0;
        while k <= depth
            invariant
                k <= depth + 1,
                depth < slen,
                slen == stack@.len(),
                bs == scheduler.spec_block_size(),
                forall|j: int| 0 <= j <= depth ==> #[trigger] stack@[j]@.len() == bs,
                remaining@.len() == k * bs,
                forall|j: int| 0 <= j < k ==> #[trigger] stack_block(remaining@, bs as int, j) == stack@[j]@,
            decreases depth + 1 - k,
        {
            let ghost before = remaining@;
            let mut blk = stack[k].clone();
            let ghost bk = blk@;
            remaining.append(&mut blk);
            proof {
                assert(bk == stack@[k as int]@);
                assert(remaining@ == before + bk);
                assert(remaining@.len() == (k + 1) * bs) by (nonlinear_arith)
                    requires remaining@.len() == k * bs + bs;
                assert forall|j: int| 0 <= j < k + 1 implies #[trigger] stack_block(remaining@, bs as int, j) == stack@[j]@ by {
                    assert(j * bs + bs == (j + 1) * bs) by (nonlinear_arith);
                    if j < k {
                        assert((j + 1) * bs <= k * bs) by (nonlinear_arith)
                            requires j < k, bs >= 0;
                        assert(j * bs >= 0) by (nonlinear_arith)
                            requires j >= 0, bs >= 0;
                        assert(stack_block(remaining@, bs as int, j) =~= stack_block(before, bs as int, j));
                    } else {
                        assert(stack_block(remaining@, bs as int, j) =~= bk);
                    }
                }
            }
            k = k + 1;
        }
        proof {
            assert(((depth + 1) * scheduler.spec_block_size()) == remaining@.len());
            assert forall|j: int| 0 <= j <= depth implies scheduler.stack_entry_ok(
                #[trigger] stack_block(remaining@, scheduler.spec_block_size(), j),
                j,
            ) && extends(
                scheduler.state_of(start@),
                scheduler.state_of(stack_block(remaining@, scheduler.spec_block_size(), j)),
            ) by {
                assert(stack_block(remaining@, bs as int, j) == stack@[j]@);
                assert(scheduler.stack_entry_ok(stack@[j]@, j));
                assert(extends(scheduler.state_of(start@), scheduler.state_of(stack@[j]@)));
            }
            assert(stack_block(remaining@, bs as int, depth as int) == stack@[depth as int]@);
        }
    }
    SearchRun { remaining, exhausted, steps, solutions }
}

/// A copy of the words of `src`.
fn prefix_copy(src: &[u64]) -> (r: Vec<u64>)
    ensures
        r@ == src@,
{
    let mut v: Vec<u64> = Vec::new();
    let mut i: usize = 0;
    while i < src.len()
        invariant
            i <= src@.len(),
            v@ == src@.subrange(0, i as int),
        decreases src@.len() - i,
    {
        v.push(src[i]);
        i = i + 1;
        assert(v@ =~= src@.subrange(0, i as int));
    }
    assert(v@ =~= src@);
    v
}

/// Extending never lowers the placement count.
proof fn lemma_extends_placed(g: crate::scheduler::Grid, g2: crate::scheduler::Grid)
    requires
        extends(g, g2),
    ensures
        g2.placed >= g.placed,
{
}

} // verus!
