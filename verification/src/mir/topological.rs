//! The block ordering in which every value is defined before it is used.
//!
//! The order is computed by a depth-first walk from the entry block that holds back the block
//! where branches merge until every branch leading to it has been placed. The walk is modelled
//! below one step at a time ([topo_step]); [Definition::topological_sort] is proved to produce
//! the order of that model, and that order is proved to hold each block exactly once, starting
//! with the entry block.
use crate::fx::{fx_set_contains, fx_set_insert, fx_set_new};
use crate::mir::definition::{Block, Definition};
use crate::mir::instruction::{JmpTarget, TerminatorInstruction};
use crate::mir::values::BlockId;
use vstd::prelude::*;

verus! {

/// The state of the walk: blocks still to visit (the top is the last), the order so far, the
/// blocks placed, and the merge blocks held back until the listed branch blocks are placed.
pub struct TopoState {
    pub stack: Seq<BlockId>,
    pub order: Seq<BlockId>,
    pub visited: Set<u32>,
    pub merge_points: Seq<(BlockId, Seq<BlockId>)>,
    /// The walk reached a block that does not exist or has no terminator.
    pub failed: bool,
}

/// The targets of the cases of a switch, last case first.
pub open spec fn case_targets_rev(cases: Seq<(u32, JmpTarget)>) -> Seq<BlockId>
    decreases cases.len(),
{
    if cases.len() == 0 {
        seq![]
    } else {
        case_targets_rev(cases.subrange(1, cases.len() as int)) + seq![cases[0].1.0]
    }
}

/// The blocks a terminator puts on the stack, in the order they are pushed.
pub open spec fn pushed(t: TerminatorInstruction) -> Seq<BlockId> {
    match t {
        TerminatorInstruction::Jmp((target, _)) => seq![target],
        TerminatorInstruction::If { then, else_, end, .. } => seq![end, else_.0, then.0],
        TerminatorInstruction::Switch { cases, else_, end, .. } => seq![end, else_.0] + case_targets_rev(
            cases@,
        ),
        _ => seq![],
    }
}

/// The merge point a terminator holds back, if any.
pub open spec fn merge_of(t: TerminatorInstruction) -> Seq<(BlockId, Seq<BlockId>)> {
    match t {
        TerminatorInstruction::If { else_, end, .. } => if else_.0 != end {
            seq![(end, seq![else_.0])]
        } else {
            seq![]
        },
        TerminatorInstruction::Switch { cases, else_, end, .. } => seq![
            (end, seq![else_.0] + case_targets_rev(cases@)),
        ],
        _ => seq![],
    }
}

pub open spec fn all_visited(s: Seq<BlockId>, visited: Set<u32>) -> bool {
    forall|i: int| 0 <= i < s.len() ==> visited.contains(#[trigger] s[i].0)
}

/// Whether the top of the stack is the merge block at the top of the merge points.
pub open spec fn at_merge(s: TopoState, block: BlockId) -> bool {
    s.merge_points.len() > 0 && s.merge_points.last().0 == block
}

/// One step of the walk: pop a block; skip it if it is a merge block whose branches are not
/// all placed yet, or if it is placed already; otherwise place it and push its successors.
pub open spec fn topo_step(blocks: Seq<Block>, s: TopoState) -> TopoState {
    let block = s.stack.last();
    let stack = s.stack.drop_last();
    if at_merge(s, block) && !all_visited(s.merge_points.last().1, s.visited) {
        TopoState { stack, ..s }
    } else {
        let merge_points = if at_merge(s, block) {
            s.merge_points.drop_last()
        } else {
            s.merge_points
        };
        if s.visited.contains(block.0) {
            TopoState { stack, merge_points, ..s }
        } else if block.0 >= blocks.len() || blocks[block.0 as int].terminator is None {
            TopoState {
                stack,
                merge_points,
                visited: s.visited.insert(block.0),
                order: s.order.push(block),
                failed: true,
            }
        } else {
            let t = blocks[block.0 as int].terminator->Some_0;
            TopoState {
                stack: stack + pushed(t),
                order: s.order.push(block),
                visited: s.visited.insert(block.0),
                merge_points: merge_points + merge_of(t),
                failed: false,
            }
        }
    }
}

/// Up to `fuel` steps of the walk; it stops early once the stack is empty or it has failed.
pub open spec fn topo_run(blocks: Seq<Block>, s: TopoState, fuel: nat) -> TopoState
    decreases fuel,
{
    if fuel == 0 || s.stack.len() == 0 || s.failed {
        s
    } else {
        topo_run(blocks, topo_step(blocks, s), (fuel - 1) as nat)
    }
}

pub open spec fn topo_init() -> TopoState {
    TopoState {
        stack: seq![BlockId(0)],
        order: seq![],
        visited: Set::empty(),
        merge_points: seq![],
        failed: false,
    }
}

/// The number of blocks that `block`'s terminator pushes.
pub open spec fn push_count(blocks: Seq<Block>, b: int) -> nat {
    match blocks[b].terminator {
        Some(t) => pushed(t).len(),
        None => 0,
    }
}

/// The pushes of the first `n` blocks that are not in `visited`.
pub open spec fn unvisited_pushes(blocks: Seq<Block>, visited: Set<u32>, n: nat) -> nat
    decreases n,
{
    if n == 0 {
        0
    } else {
        unvisited_pushes(blocks, visited, (n - 1) as nat) + if visited.contains((n - 1) as u32) {
            0
        } else {
            push_count(blocks, n - 1)
        }
    }
}

/// More steps than the walk can take: each block is placed at most once and each step pops.
pub open spec fn topo_fuel(blocks: Seq<Block>) -> nat {
    1 + unvisited_pushes(blocks, Set::empty(), blocks.len())
}

/// The state in which the walk ends.
pub open spec fn topo_final(blocks: Seq<Block>) -> TopoState {
    topo_run(blocks, topo_init(), topo_fuel(blocks))
}

/// The walk ends having placed every block, without reaching a missing block or a block without
/// a terminator, and with no merge block left held back.
pub open spec fn topo_completes(blocks: Seq<Block>) -> bool {
    let f = topo_final(blocks);
    &&& !f.failed
    &&& f.merge_points.len() == 0
    &&& f.visited.len() == blocks.len()
}

pub open spec fn potential(blocks: Seq<Block>, s: TopoState) -> nat {
    s.stack.len() + unvisited_pushes(blocks, s.visited, blocks.len())
}

/// The invariants of the walk that the order's properties rest on.
pub open spec fn topo_inv(blocks: Seq<Block>, s: TopoState) -> bool {
    &&& s.visited.finite()
    &&& s.visited.len() == s.order.len()
    &&& forall|i: int| 0 <= i < s.order.len() ==> s.visited.contains(#[trigger] s.order[i].0)
    &&& forall|i: int, j: int| 0 <= i < j < s.order.len() ==> s.order[i] != s.order[j]
    &&& !s.failed ==> forall|x: u32| s.visited.contains(x) ==> x < blocks.len()
    &&& s.order.len() == 0 ==> s.stack == seq![BlockId(0)] && s.merge_points.len() == 0
    &&& s.order.len() > 0 ==> s.order[0] == BlockId(0)
}

proof fn lemma_unvisited_insert(blocks: Seq<Block>, visited: Set<u32>, b: u32, n: nat)
    requires
        !visited.contains(b),
        n <= 0x1_0000_0000,
    ensures
        b < n ==> unvisited_pushes(blocks, visited.insert(b), n) + push_count(blocks, b as int)
            == unvisited_pushes(blocks, visited, n),
        b >= n ==> unvisited_pushes(blocks, visited.insert(b), n) == unvisited_pushes(blocks, visited, n),
    decreases n,
{
    if n > 0 {
        lemma_unvisited_insert(blocks, visited, b, (n - 1) as nat);
    }
}

proof fn lemma_run_failed(blocks: Seq<Block>, s: TopoState, fuel: nat)
    requires
        s.failed,
    ensures
        topo_run(blocks, s, fuel) == s,
{
}

/// A step from a state that has not failed keeps the invariants and lowers the potential by one.
proof fn lemma_step(blocks: Seq<Block>, s: TopoState)
    requires
        blocks.len() <= 0x1_0000_0000,
        s.stack.len() > 0,
        !s.failed,
        topo_inv(blocks, s),
    ensures
        topo_inv(blocks, topo_step(blocks, s)),
        !topo_step(blocks, s).failed ==> potential(blocks, topo_step(blocks, s)) + 1 == potential(
            blocks,
            s,
        ),
{
    let next = topo_step(blocks, s);
    let block = s.stack.last();
    if s.order.len() == 0 {
        assert(block == BlockId(0));
        assert(!at_merge(s, block));
    }
    if at_merge(s, block) && !all_visited(s.merge_points.last().1, s.visited) {
    } else if s.visited.contains(block.0) {
    } else {
        lemma_unvisited_insert(blocks, s.visited, block.0, blocks.len());
        assert forall|i: int| 0 <= i < next.order.len() implies next.visited.contains(
            #[trigger] next.order[i].0,
        ) by {
            if i < s.order.len() {
                assert(next.order[i] == s.order[i]);
            }
        }
        assert forall|i: int, j: int| 0 <= i < j < next.order.len() implies next.order[i]
            != next.order[j] by {
            if j == s.order.len() {
                assert(s.visited.contains(s.order[i].0));
            }
        }
        if s.order.len() == 0 {
            assert(next.order[0] == BlockId(0));
        } else {
            assert(next.order[0] == s.order[0]);
        }
    }
}

/// The final state of the walk holds the invariants.
proof fn lemma_run_inv(blocks: Seq<Block>, s: TopoState, fuel: nat)
    requires
        blocks.len() <= 0x1_0000_0000,
        topo_inv(blocks, s),
    ensures
        topo_inv(blocks, topo_run(blocks, s, fuel)),
    decreases fuel,
{
    if fuel == 0 || s.stack.len() == 0 || s.failed {
    } else {
        lemma_step(blocks, s);
        lemma_run_inv(blocks, topo_step(blocks, s), (fuel - 1) as nat);
    }
}

proof fn lemma_init(blocks: Seq<Block>)
    ensures
        topo_inv(blocks, topo_init()),
        potential(blocks, topo_init()) == topo_fuel(blocks),
{
}

/// The order the walk produces, when it completes, lists every block exactly once and starts
/// with the entry block.
pub proof fn lemma_topological_order_is_permutation(blocks: Seq<Block>)
    requires
        blocks.len() <= 0x1_0000_0000,
        topo_completes(blocks),
    ensures
        topo_final(blocks).order.len() == blocks.len(),
        topo_final(blocks).order.no_duplicates(),
        forall|i: int|
            0 <= i < topo_final(blocks).order.len() ==> (#[trigger] topo_final(blocks).order[i]).0
                < blocks.len(),
        blocks.len() > 0 ==> topo_final(blocks).order[0] == BlockId(0),
        forall|b: u32| b < blocks.len() ==> topo_final(blocks).order.contains(BlockId(b)),
{
    lemma_init(blocks);
    lemma_run_inv(blocks, topo_init(), topo_fuel(blocks));
    let f = topo_final(blocks);
    assert forall|i: int, j: int| 0 <= i < f.order.len() && 0 <= j < f.order.len() && i != j implies f.order[i]
        != f.order[j] by {
        if i < j {
        } else {
        }
    }
    // Every block index below the length is among the visited ones: the visited set is a
    // subset of those indices with as many elements.
    let all = Set::new(|x: u32| x < blocks.len());
    assert(f.visited.subset_of(all));
    lemma_block_indices(blocks.len());
    assert forall|x: u32| all.contains(x) implies f.visited.contains(x) by {
        if !f.visited.contains(x) {
            lemma_len_strict_subset(f.visited, all, x);
        }
    }
    assert forall|b: u32| b < blocks.len() implies f.order.contains(BlockId(b)) by {
        assert(all.contains(b));
        assert(f.visited.contains(b));
        lemma_visited_in_order(f, b);
    }
}

/// Block `b` can be reached from block `a` in one step: `a`'s terminator branches to it.
pub open spec fn jumps_to(blocks: Seq<Block>, a: BlockId, b: BlockId) -> bool {
    &&& a.0 < blocks.len()
    &&& blocks[a.0 as int].terminator matches Some(t)
    &&& pushed(t).contains(b)
}

/// Every placed block but the first comes after a placed block that branches to it, and every
/// block waiting on the stack is a branch target of a placed block (or the entry block, before
/// anything is placed).
pub open spec fn reached_inv(blocks: Seq<Block>, s: TopoState) -> bool {
    &&& forall|i: int| 0 < i < s.order.len() ==> exists|j: int| 0 <= j < i && jumps_to(blocks, s.order[j], #[trigger] s.order[i])
    &&& s.order.len() > 0 ==> forall|k: int|
        0 <= k < s.stack.len() ==> exists|j: int| 0 <= j < s.order.len() && jumps_to(blocks, s.order[j], #[trigger] s.stack[k])
}

proof fn lemma_step_reached(blocks: Seq<Block>, s: TopoState)
    requires
        s.stack.len() > 0,
        !s.failed,
        topo_inv(blocks, s),
        reached_inv(blocks, s),
    ensures
        reached_inv(blocks, topo_step(blocks, s)),
{
    let next = topo_step(blocks, s);
    let block = s.stack.last();
    let stack = s.stack.drop_last();
    if s.order.len() > 0 {
        assert forall|k: int| 0 <= k < stack.len() implies exists|j: int|
            0 <= j < s.order.len() && jumps_to(blocks, s.order[j], #[trigger] stack[k]) by {
            assert(stack[k] == s.stack[k]);
        }
    }
    if next.order.len() > s.order.len() {
        let n = s.order.len() as int;
        assert(next.order[n] == block);
        assert forall|i: int| 0 < i < next.order.len() implies exists|j: int|
            0 <= j < i && jumps_to(blocks, next.order[j], #[trigger] next.order[i]) by {
            if i < n {
                assert(next.order[i] == s.order[i]);
                let j = choose|j: int| 0 <= j < i && jumps_to(blocks, s.order[j], #[trigger] s.order[i]);
                assert(next.order[j] == s.order[j]);
            } else {
                assert(s.stack[s.stack.len() - 1] == block);
                let j = choose|j: int| 0 <= j < s.order.len() && jumps_to(blocks, s.order[j], #[trigger] s.stack[s.stack.len() - 1]);
                assert(next.order[j] == s.order[j]);
            }
        }
        assert forall|k: int| 0 <= k < next.stack.len() implies exists|j: int|
            0 <= j < next.order.len() && jumps_to(blocks, next.order[j], #[trigger] next.stack[k]) by {
            if k < stack.len() {
                assert(next.stack[k] == stack[k]);
                if s.order.len() > 0 {
                    let j = choose|j: int| 0 <= j < s.order.len() && jumps_to(blocks, s.order[j], #[trigger] stack[k]);
                    assert(next.order[j] == s.order[j]);
                } else {
                    assert(stack.len() == 0);
                }
            } else {
                let t = blocks[block.0 as int].terminator->Some_0;
                assert(next.stack[k] == pushed(t)[k - stack.len()]);
                assert(jumps_to(blocks, next.order[n], next.stack[k]));
            }
        }
    } else {
        assert forall|k: int| 0 <= k < next.stack.len() implies exists|j: int|
            0 <= j < next.order.len() && jumps_to(blocks, next.order[j], #[trigger] next.stack[k]) by {
            if s.order.len() > 0 {
                assert(next.stack[k] == stack[k]);
            }
        }
    }
}

proof fn lemma_run_reached(blocks: Seq<Block>, s: TopoState, fuel: nat)
    requires
        blocks.len() <= 0x1_0000_0000,
        topo_inv(blocks, s),
        reached_inv(blocks, s),
    ensures
        reached_inv(blocks, topo_run(blocks, s, fuel)),
    decreases fuel,
{
    if fuel == 0 || s.stack.len() == 0 || s.failed {
    } else {
        lemma_step(blocks, s);
        lemma_step_reached(blocks, s);
        lemma_run_reached(blocks, topo_step(blocks, s), (fuel - 1) as nat);
    }
}

/// Some block before position `i` of `order` branches to the block at `i`.
pub open spec fn follows_a_predecessor(blocks: Seq<Block>, order: Seq<BlockId>, i: int) -> bool {
    exists|j: int| 0 <= j < i && jumps_to(blocks, order[j], order[i])
}

/// In the walk's order every block but the entry comes after a block that branches to it: a
/// block is placed only once a block from which control reaches it has been, so the values
/// defined along that edge are placed first.
pub proof fn lemma_each_block_follows_a_predecessor(blocks: Seq<Block>)
    requires
        blocks.len() <= 0x1_0000_0000,
    ensures
        forall|i: int| 0 < i < topo_final(blocks).order.len() ==> #[trigger] follows_a_predecessor(blocks, topo_final(blocks).order, i),
{
    lemma_init(blocks);
    assert(reached_inv(blocks, topo_init()));
    lemma_run_reached(blocks, topo_init(), topo_fuel(blocks));
    let f = topo_final(blocks);
    assert(reached_inv(blocks, f));
    assert forall|i: int| 0 < i < f.order.len() implies #[trigger] follows_a_predecessor(blocks, f.order, i) by {
        let j = choose|j: int| 0 <= j < i && jumps_to(blocks, f.order[j], #[trigger] f.order[i]);
        assert(0 <= j < i && jumps_to(blocks, f.order[j], f.order[i]));
    }
}

proof fn lemma_visited_in_order(s: TopoState, b: u32)
    requires
        s.visited.finite(),
        s.visited.len() == s.order.len(),
        forall|i: int| 0 <= i < s.order.len() ==> s.visited.contains(#[trigger] s.order[i].0),
        forall|i: int, j: int| 0 <= i < j < s.order.len() ==> s.order[i] != s.order[j],
        s.visited.contains(b),
    ensures
        s.order.contains(BlockId(b)),
{
    let ids = s.order.map_values(|x: BlockId| x.0);
    assert forall|i: int, j: int| 0 <= i < j < ids.len() implies ids[i] != ids[j] by {
        assert(s.order[i] != s.order[j]);
    }
    assert(ids.no_duplicates());
    ids.unique_seq_to_set();
    assert(ids.to_set().subset_of(s.visited));
    vstd::set_lib::lemma_len_subset(ids.to_set(), s.visited);
    if !ids.to_set().contains(b) {
        lemma_len_strict_subset(ids.to_set(), s.visited, b);
    }
    let k = choose|k: int| 0 <= k < ids.len() && ids[k] == b;
    assert(s.order[k] == BlockId(b));
}

proof fn lemma_len_strict_subset(a: Set<u32>, b: Set<u32>, x: u32)
    requires
        b.finite(),
        a.subset_of(b),
        b.contains(x),
        !a.contains(x),
    ensures
        a.len() < b.len(),
{
    vstd::set_lib::lemma_len_subset(a, b.remove(x));
}

proof fn lemma_block_indices(n: nat)
    requires
        n <= 0x1_0000_0000,
    ensures
        Set::new(|x: u32| x < n).finite(),
        Set::new(|x: u32| x < n).len() == n,
    decreases n,
{
    if n == 0 {
        assert(Set::new(|x: u32| x < n) =~= Set::<u32>::empty());
    } else {
        lemma_block_indices((n - 1) as nat);
        assert(Set::new(|x: u32| x < n) =~= Set::new(|x: u32| x < (n - 1) as nat).insert((n - 1) as u32));
    }
}

fn all_placed(remaining: &Vec<BlockId>, visited: &rustc_hash::FxHashSet<u32>) -> (r: bool)
    ensures
        r == all_visited(remaining@, visited@),
{
    let mut i: usize = 0;
    while i < remaining.len()
        invariant
            0 <= i <= remaining@.len(),
            forall|j: int| 0 <= j < i ==> visited@.contains(#[trigger] remaining@[j].0),
        decreases remaining@.len() - i,
    {
        if !fx_set_contains(visited, remaining[i].0) {
            return false;
        }
        i = i + 1;
    }
    true
}

pub open spec fn merge_view(mp: Seq<(BlockId, Vec<BlockId>)>) -> Seq<(BlockId, Seq<BlockId>)> {
    mp.map_values(|p: (BlockId, Vec<BlockId>)| (p.0, p.1@))
}

impl Definition {
    /// Returns a topological sort of the blocks in this function.
    /// This ordering is beneficial to consumers as it will ensure
    /// all values are defined before they are used when iterating
    /// blocks in this order.
    ///
    /// Note that in the presense of loops a strict topological ordering is typically undefined.
    /// In this case, loop blocks will be ordered before blocks after the loop.
    pub fn topological_sort(&self) -> (r: Vec<BlockId>)
        requires
            self.blocks@.len() <= 0x1_0000_0000,
            !topo_final(self.blocks@).failed,
        ensures
            r@ == topo_final(self.blocks@).order,
            r@.no_duplicates(),
            forall|i: int| 0 <= i < r@.len() ==> (#[trigger] r@[i]).0 < self.blocks@.len(),
            r@.len() > 0 && r@[0] == BlockId(0),
            forall|i: int| 0 < i < r@.len() ==> #[trigger] follows_a_predecessor(self.blocks@, r@, i),
            topo_completes(self.blocks@) ==> r@.len() == self.blocks@.len(),
            topo_completes(self.blocks@) ==> forall|b: u32| b < self.blocks@.len() ==> r@.contains(BlockId(b)),
    {
        let ghost blocks = self.blocks@;
        let mut stack: Vec<BlockId> = Vec::new();
        stack.push(BlockId::entry_block());
        let mut order: Vec<BlockId> = Vec::new();
        let mut visited = fx_set_new();
        let mut merge_points: Vec<(BlockId, Vec<BlockId>)> = Vec::new();
        let ghost mut fuel: nat = topo_fuel(blocks);
        proof {
            lemma_init(blocks);
            assert(merge_view(merge_points@) =~= seq![]);
            assert(stack@ =~= seq![BlockId(0)]);
        }
        while stack.len() > 0
            invariant
                blocks == self.blocks@,
                blocks.len() <= 0x1_0000_0000,
                !topo_final(blocks).failed,
                ({
                    let cur = TopoState {
                        stack: stack@,
                        order: order@,
                        visited: visited@,
                        merge_points: merge_view(merge_points@),
                        failed: false,
                    };
                    &&& topo_run(blocks, cur, fuel) == topo_final(blocks)
                    &&& fuel >= potential(blocks, cur)
                    &&& topo_inv(blocks, cur)
                }),
            decreases fuel,
        {
            let ghost cur = TopoState {
                stack: stack@,
                order: order@,
                visited: visited@,
                merge_points: merge_view(merge_points@),
                failed: false,
            };
            let ghost next = topo_step(blocks, cur);
            proof {
                lemma_step(blocks, cur);
                if next.failed {
                    lemma_run_failed(blocks, next, (fuel - 1) as nat);
                }
            }
            let block = stack.pop().unwrap();
            let n = merge_points.len();
            let mut skip = false;
            if n > 0 && merge_points[n - 1].0 == block {
                if !all_placed(&merge_points[n - 1].1, &visited) {
                    skip = true;
                } else {
                    merge_points.pop();
                    proof {
                        assert(merge_view(merge_points@) =~= cur.merge_points.drop_last());
                    }
                }
            }
            if !skip {
                if fx_set_insert(&mut visited, block.0) {
                    order.push(block);
                    match &self.blocks[block.0 as usize].terminator {
                        Some(TerminatorInstruction::Jmp((target, _))) => {
                            stack.push(*target);
                        },
                        Some(TerminatorInstruction::If { condition: _, then, else_, end }) => {
                            stack.push(*end);
                            stack.push(else_.0);
                            stack.push(then.0);
                            if else_.0 != *end {
                                let mut remaining: Vec<BlockId> = Vec::new();
                                remaining.push(else_.0);
                                merge_points.push((*end, remaining));
                            }
                        },
                        Some(TerminatorInstruction::Switch { int_value: _, cases, else_, end }) => {
                            let mut remaining: Vec<BlockId> = Vec::new();
                            stack.push(*end);
                            stack.push(else_.0);
                            remaining.push(else_.0);
                            let ghost stack0 = stack@;
                            let mut k: usize = cases.len();
                            proof {
                                assert(cases@.subrange(k as int, cases@.len() as int) =~= seq![]);
                            }
                            while k > 0
                                invariant
                                    0 <= k <= cases@.len(),
                                    stack@ == stack0 + case_targets_rev(
                                        cases@.subrange(k as int, cases@.len() as int),
                                    ),
                                    remaining@ == seq![else_.0] + case_targets_rev(
                                        cases@.subrange(k as int, cases@.len() as int),
                                    ),
                                decreases k,
                            {
                                k = k - 1;
                                stack.push(cases[k].1.0);
                                remaining.push(cases[k].1.0);
                                proof {
                                    let tail = cases@.subrange(k as int, cases@.len() as int);
                                    assert(tail.subrange(1, tail.len() as int) =~= cases@.subrange(
                                        k + 1,
                                        cases@.len() as int,
                                    ));
                                    assert(stack@ =~= stack0 + case_targets_rev(tail));
                                    assert(remaining@ =~= seq![else_.0] + case_targets_rev(tail));
                                }
                            }
                            proof {
                                assert(cases@.subrange(0, cases@.len() as int) =~= cases@);
                            }
                            merge_points.push((*end, remaining));
                        },
                        _ => {},
                    }
                }
            }
            proof {
                assert(stack@ =~= next.stack);
                assert(order@ =~= next.order);
                assert(merge_view(merge_points@) =~= next.merge_points);
                assert(visited@ =~= next.visited);
                assert(!next.failed);
                let new_cur = TopoState {
                    stack: stack@,
                    order: order@,
                    visited: visited@,
                    merge_points: merge_view(merge_points@),
                    failed: false,
                };
                assert(new_cur == next);
                assert(topo_run(blocks, cur, fuel) == topo_run(blocks, next, (fuel - 1) as nat));
                fuel = (fuel - 1) as nat;
            }
        }
        proof {
            lemma_init(blocks);
            lemma_run_inv(blocks, topo_init(), topo_fuel(blocks));
            lemma_each_block_follows_a_predecessor(blocks);
            let f = topo_final(blocks);
            assert(f.order.len() > 0) by {
                if f.order.len() == 0 {
                    assert(f.stack == seq![BlockId(0)]);
                }
            }
            assert forall|i: int, j: int| 0 <= i < f.order.len() && 0 <= j < f.order.len() && i != j implies f.order[i]
                != f.order[j] by {
                if i < j {
                } else {
                }
            }
            if topo_completes(blocks) {
                lemma_topological_order_is_permutation(blocks);
            }
        }
        order
    }
}

} // verus!
