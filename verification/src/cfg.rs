//! Control-flow and call-graph queries shared by the two analyses.
use vstd::prelude::*;

use crate::mir::{
    BasicBlockData, Body, FnEntry, TerminatorKind, VarDebugInfo, START_BLOCK, block_ok, callee_def_id, funcs_wf,
    spec_callee,
};

verus! {

// ---------------------------------------------------------------------------
// Paths and cycles in the control-flow graph.
// ---------------------------------------------------------------------------

/// `p` is a walk along control-flow edges.
pub open spec fn is_path(body: &Body, p: Seq<usize>) -> bool {
    &&& p.len() >= 1
    &&& forall|i: int| 0 <= i < p.len() ==> #[trigger] p[i] < body.n_blocks()
    &&& forall|i: int| 0 <= i < p.len() - 1 ==> body.succs(#[trigger] p[i] as int).contains(p[i + 1])
}

/// Some walk from the entry block comes back to a block it already visited.
pub open spec fn has_reachable_cycle(body: &Body) -> bool {
    exists|p: Seq<usize>, j: int|
        #![trigger is_path(body, p), p[j]]
        p[0] == START_BLOCK && is_path(body, p) && 0 <= j < p.len() - 1 && p[j] == p.last()
}

/// `o` lists distinct blocks, starts at the entry, every edge out of a listed
/// block leads to a block listed later, and every listed block but the first
/// is entered from a block listed earlier.
pub open spec fn is_topo_order(body: &Body, o: Seq<usize>) -> bool {
    &&& o.len() >= 1
    &&& o[0] == START_BLOCK
    &&& o.no_duplicates()
    &&& forall|i: int| 0 <= i < o.len() ==> #[trigger] o[i] < body.n_blocks()
    &&& forall|i: int, k: int|
        0 <= i < o.len() && 0 <= k < body.succs(o[i] as int).len() ==> #[trigger] succ_listed_later(
            body,
            o,
            i,
            k,
        )
    &&& forall|j: int| 0 < j < o.len() ==> #[trigger] entered_earlier(body, o, j)
}

/// The `k`-th successor of `o[i]` is listed after position `i`.
pub open spec fn succ_listed_later(body: &Body, o: Seq<usize>, i: int, k: int) -> bool {
    exists|j: int| i < j < o.len() && o[j] == body.succs(o[i] as int)[k]
}

/// Some block listed before position `j` has an edge into `o[j]`.
pub open spec fn entered_earlier(body: &Body, o: Seq<usize>, j: int) -> bool {
    exists|i: int| 0 <= i < j && body.succs(o[i] as int).contains(o[j])
}

/// Along any walk from the entry, the blocks appear in a topological order at
/// strictly increasing positions.
proof fn lemma_path_follows_order(body: &Body, o: Seq<usize>, p: Seq<usize>, n: int) -> (pos: int)
    requires
        is_topo_order(body, o),
        is_path(body, p),
        p[0] == START_BLOCK,
        0 <= n < p.len(),
    ensures
        0 <= pos < o.len(),
        o[pos] == p[n],
        pos >= n,
        n + 1 < p.len() ==> exists|q: int| pos < q < o.len() && o[q] == p[n + 1],
    decreases n,
{
    let pos = if n == 0 {
        0
    } else {
        let prev = lemma_path_follows_order(body, o, p, n - 1);
        choose|q: int| prev < q < o.len() && o[q] == p[n]
    };
    if n + 1 < p.len() {
        assert(body.succs(p[n] as int).contains(p[n + 1]));
        let k = choose|k: int|
            0 <= k < body.succs(p[n] as int).len() && body.succs(p[n] as int)[k] == p[n + 1];
        assert(body.succs(o[pos] as int)[k] == p[n + 1]);
        assert(succ_listed_later(body, o, pos, k));
    }
    pos
}

/// A topological order of the blocks reachable from the entry rules out any
/// cycle reachable from the entry.
pub proof fn lemma_topo_order_acyclic(body: &Body, o: Seq<usize>)
    requires
        is_topo_order(body, o),
    ensures
        !has_reachable_cycle(body),
{
    if has_reachable_cycle(body) {
        let (p, j) = choose|p: Seq<usize>, j: int|
            #![trigger is_path(body, p), p[j]]
            p[0] == START_BLOCK && is_path(body, p) && 0 <= j < p.len() - 1 && p[j] == p.last();
        let a = lemma_path_follows_order(body, o, p, j);
        let b = lemma_path_follows_order(body, o, p, p.len() - 1);
        lemma_positions_increase(body, o, p, j, p.len() - 1);
        assert(o[a] == o[b]);
        assert(false);
    }
}

proof fn lemma_positions_increase(body: &Body, o: Seq<usize>, p: Seq<usize>, a: int, b: int)
    requires
        is_topo_order(body, o),
        is_path(body, p),
        p[0] == START_BLOCK,
        0 <= a < b < p.len(),
    ensures
        exists|x: int, y: int|
            0 <= x < y < o.len() && o[x] == p[a] && o[y] == p[b],
    decreases b - a,
{
    let x = lemma_path_follows_order(body, o, p, a);
    let y = choose|q: int| x < q < o.len() && o[q] == p[a + 1];
    if a + 1 < b {
        lemma_positions_increase(body, o, p, a + 1, b);
        let (x2, y2) = choose|x2: int, y2: int|
            0 <= x2 < y2 < o.len() && o[x2] == p[a + 1] && o[y2] == p[b];
        assert(o.no_duplicates());
        assert(x2 == y);
        assert(o[x] == p[a] && o[y2] == p[b] && x < y2);
    } else {
        assert(o[x] == p[a] && o[y] == p[b]);
    }
}

/// Every block reachable from the entry is listed by a topological order.
pub proof fn lemma_topo_order_covers(body: &Body, o: Seq<usize>, p: Seq<usize>)
    requires
        is_topo_order(body, o),
        is_path(body, p),
        p[0] == START_BLOCK,
    ensures
        o.contains(p.last()),
{
    let q = lemma_path_follows_order(body, o, p, p.len() - 1);
    assert(o[q] == p.last());
}

// ---------------------------------------------------------------------------
// Depth-first search over the blocks.
// ---------------------------------------------------------------------------

pub enum Mark {
    Open,
    Done,
}

pub open spec fn count_unmarked(m: Seq<Option<Mark>>) -> nat
    decreases m.len(),
{
    if m.len() == 0 {
        0
    } else {
        count_unmarked(m.drop_last()) + if m.last() is None {
            1nat
        } else {
            0nat
        }
    }
}

proof fn lemma_count_mark(m: Seq<Option<Mark>>, v: int, x: Mark)
    requires
        0 <= v < m.len(),
        m[v] is None,
    ensures
        count_unmarked(m.update(v, Some(x))) + 1 == count_unmarked(m),
    decreases m.len(),
{
    let m2 = m.update(v, Some(x));
    if v == m.len() - 1 {
        assert(m2.drop_last() =~= m.drop_last());
    } else {
        assert(m2.drop_last() =~= m.drop_last().update(v, Some(x)));
        lemma_count_mark(m.drop_last(), v, x);
    }
}

proof fn lemma_count_keep(m: Seq<Option<Mark>>, v: int, x: Mark)
    requires
        0 <= v < m.len(),
        m[v] is Some,
    ensures
        count_unmarked(m.update(v, Some(x))) == count_unmarked(m),
    decreases m.len(),
{
    let m2 = m.update(v, Some(x));
    if v == m.len() - 1 {
        assert(m2.drop_last() =~= m.drop_last());
    } else {
        assert(m2.drop_last() =~= m.drop_last().update(v, Some(x)));
        lemma_count_keep(m.drop_last(), v, x);
    }
}

/// The edges still to be explored by the frames of the search stack.
pub open spec fn remaining(body: &Body, stack: Seq<(usize, usize)>) -> int
    decreases stack.len(),
{
    if stack.len() == 0 {
        0
    } else {
        remaining(body, stack.drop_last()) + (body.succs(stack.last().0 as int).len()
            - stack.last().1) + 1
    }
}

pub open spec fn is_open(m: Seq<Option<Mark>>, v: int) -> bool {
    m[v] == Some(Mark::Open)
}

pub open spec fn is_done(m: Seq<Option<Mark>>, v: int) -> bool {
    m[v] == Some(Mark::Done)
}

/// The frames of the search stack: in range, rooted at the entry, and each
/// frame's last followed edge leads to the frame above it.
#[verifier::opaque]
spec fn inv_frames(body: &Body, stack: Seq<(usize, usize)>) -> bool {
    &&& forall|f: int|
        0 <= f < stack.len() ==> (#[trigger] stack[f]).0 < body.n_blocks() && stack[f].1
            <= body.succs(stack[f].0 as int).len()
    &&& stack.len() > 0 ==> stack[0].0 == START_BLOCK
    &&& forall|f: int|
        0 <= f < stack.len() - 1 ==> (#[trigger] stack[f]).1 >= 1 && body.succs(
            stack[f].0 as int,
        )[stack[f].1 - 1] == stack[f + 1].0
}

/// The open blocks are exactly the blocks on the stack, each once.
#[verifier::opaque]
spec fn inv_open(body: &Body, mark: Seq<Option<Mark>>, stack: Seq<(usize, usize)>) -> bool {
    &&& forall|f: int| 0 <= f < stack.len() ==> is_open(mark, (#[trigger] stack[f]).0 as int)
    &&& forall|v: int|
        0 <= v < body.n_blocks() && is_open(mark, v) ==> exists|f: int|
            0 <= f < stack.len() && (#[trigger] stack[f]).0 == v
    &&& forall|f1: int, f2: int|
        0 <= f1 < stack.len() && 0 <= f2 < stack.len() && f1 != f2 ==> (#[trigger] stack[f1]).0
            != (#[trigger] stack[f2]).0
}

/// The finished blocks are exactly the blocks of `post`, each once.
#[verifier::opaque]
spec fn inv_post(body: &Body, mark: Seq<Option<Mark>>, post: Seq<usize>) -> bool {
    &&& post.no_duplicates()
    &&& forall|j: int|
        0 <= j < post.len() ==> #[trigger] post[j] < body.n_blocks() && is_done(mark, post[j] as int)
    &&& forall|v: int|
        0 <= v < body.n_blocks() && is_done(mark, v) ==> exists|j: int|
            0 <= j < post.len() && #[trigger] post[j] == v
}

/// Every edge already followed from a frame leads to a finished block, except
/// the one that leads to the frame above it.
#[verifier::opaque]
spec fn inv_edges(body: &Body, mark: Seq<Option<Mark>>, stack: Seq<(usize, usize)>) -> bool {
    forall|f: int, k: int|
        #![trigger stack[f], body.succs(stack[f].0 as int)[k]]
        0 <= f < stack.len() && 0 <= k < stack[f].1 ==> is_done(
            mark,
            body.succs(stack[f].0 as int)[k] as int,
        ) || (f + 1 < stack.len() && k == stack[f].1 - 1)
}

/// The successors of a finished block finished before it.
#[verifier::opaque]
spec fn inv_succ(body: &Body, post: Seq<usize>) -> bool {
    forall|j: int, k: int|
        0 <= j < post.len() && 0 <= k < body.succs(post[j] as int).len() ==> #[trigger] succ_done_before(
            body,
            post,
            j,
            k,
        )
}

spec fn succ_done_before(body: &Body, post: Seq<usize>, j: int, k: int) -> bool {
    exists|m: int| 0 <= m < j && post[m] == body.succs(post[j] as int)[k]
}

/// Every finished block but the entry was entered from a block that is still
/// open or finished after it.
#[verifier::opaque]
spec fn inv_parent(body: &Body, mark: Seq<Option<Mark>>, post: Seq<usize>) -> bool {
    forall|j: int|
        0 <= j < post.len() && post[j] != START_BLOCK ==> #[trigger] entered_from(body, mark, post, j)
}

spec fn entered_from(body: &Body, mark: Seq<Option<Mark>>, post: Seq<usize>, j: int) -> bool {
    exists|q: int| #[trigger] parent_at(body, mark, post, j, q)
}

/// Block `q` has an edge into `post[j]` and is open or finished after it.
spec fn parent_at(body: &Body, mark: Seq<Option<Mark>>, post: Seq<usize>, j: int, q: int) -> bool {
    &&& 0 <= q < body.n_blocks()
    &&& body.succs(q).contains(post[j])
    &&& is_open(mark, q) || exists|m: int| #[trigger] finished_after(post, j, m, q)
}

spec fn finished_after(post: Seq<usize>, j: int, m: int, q: int) -> bool {
    j < m < post.len() && post[m] == q
}

/// The state of the search between two steps.
spec fn dfs_inv(
    body: &Body,
    mark: Seq<Option<Mark>>,
    stack: Seq<(usize, usize)>,
    post: Seq<usize>,
) -> bool {
    &&& mark.len() == body.n_blocks()
    &&& mark[START_BLOCK as int] is Some
    &&& inv_frames(body, stack)
    &&& inv_open(body, mark, stack)
    &&& inv_post(body, mark, post)
    &&& inv_edges(body, mark, stack)
    &&& inv_succ(body, post)
    &&& inv_parent(body, mark, post)
    &&& stack.len() == 0 ==> post.len() > 0 && post.last() == START_BLOCK
}

/// The state of the depth-first search: each block's mark, the stack of
/// frames (a block and how many of its edges have been followed), the
/// finished blocks in order, and whether an edge into an open block (a
/// cycle) was met.
pub struct Dfs {
    pub mark: Seq<Option<Mark>>,
    pub stack: Seq<(usize, usize)>,
    pub post: Seq<usize>,
    pub cycle: bool,
}

pub open spec fn dfs_start(body: &Body) -> Dfs {
    Dfs {
        mark: Seq::new(body.n_blocks(), |v: int| if v == START_BLOCK { Some(Mark::Open) } else { None }),
        stack: seq![(START_BLOCK, 0usize)],
        post: seq![],
        cycle: false,
    }
}

pub open spec fn dfs_finished(d: Dfs) -> bool {
    d.cycle || d.stack.len() == 0
}

/// One step of the search: the top frame follows its next edge (opening an
/// unmarked block, stopping at an open one, passing over a finished one), or,
/// with no edge left, finishes its block.
pub open spec fn dfs_step(body: &Body, d: Dfs) -> Dfs {
    if dfs_finished(d) {
        d
    } else {
        let top = d.stack.len() - 1;
        let bb = d.stack[top].0;
        let i = d.stack[top].1;
        let edges = body.succs(bb as int);
        if i < edges.len() {
            let t = edges[i as int];
            let st1 = d.stack.update(top, (bb, (i + 1) as usize));
            match d.mark[t as int] {
                None => Dfs { mark: d.mark.update(t as int, Some(Mark::Open)), stack: st1.push((t, 0usize)), ..d },
                Some(Mark::Open) => Dfs { stack: st1, cycle: true, ..d },
                Some(Mark::Done) => Dfs { stack: st1, ..d },
            }
        } else {
            Dfs {
                mark: d.mark.update(bb as int, Some(Mark::Done)),
                stack: d.stack.drop_last(),
                post: d.post.push(bb),
                ..d
            }
        }
    }
}

pub open spec fn dfs_steps(body: &Body, n: nat) -> Dfs
    decreases n,
{
    if n == 0 {
        dfs_start(body)
    } else {
        dfs_step(body, dfs_steps(body, (n - 1) as nat))
    }
}

/// The search run to its end.
pub open spec fn dfs_end(body: &Body) -> Dfs {
    dfs_steps(body, choose|n: nat| #[trigger] dfs_finished(dfs_steps(body, n)))
}

/// The blocks in the order the depth-first search gives: its finished blocks
/// in reverse, or nothing when it met a cycle.
pub open spec fn dfs_order(body: &Body) -> Option<Seq<usize>> {
    if dfs_end(body).cycle {
        None
    } else {
        Some(dfs_end(body).post.reverse())
    }
}

/// The order in which the blocks are evaluated: the depth-first order, or no
/// block when a cycle is reachable.
pub open spec fn block_order(body: &Body) -> Seq<usize> {
    match dfs_order(body) {
        Some(o) => o,
        None => seq![],
    }
}

proof fn lemma_dfs_stays(body: &Body, n: nat, m: nat)
    requires
        dfs_finished(dfs_steps(body, n)),
        n <= m,
    ensures
        dfs_steps(body, m) == dfs_steps(body, n),
    decreases m - n,
{
    if n < m {
        lemma_dfs_stays(body, n, (m - 1) as nat);
    }
}

/// Once finished after `n` steps, the search's end is its state after `n`
/// steps.
proof fn lemma_dfs_end(body: &Body, n: nat)
    requires
        dfs_finished(dfs_steps(body, n)),
    ensures
        dfs_end(body) == dfs_steps(body, n),
{
    let m = choose|m: nat| #[trigger] dfs_finished(dfs_steps(body, m));
    if m <= n {
        lemma_dfs_stays(body, m, n);
    } else {
        lemma_dfs_stays(body, n, m);
    }
}

/// A depth-first search from the entry block: `None` when it meets a block
/// that is still open (a cycle), else the blocks in reverse post-order.
pub fn topo_order(body: &Body) -> (r: Option<Vec<usize>>)
    requires
        body.wf(),
    ensures
        match r {
            Some(o) => dfs_order(body) == Some(o@),
            None => dfs_order(body) is None,
        },
        r matches Some(o) ==> is_topo_order(body, o@),
        r is None ==> has_reachable_cycle(body),
{
    let nb = body.basic_blocks.len();
    let mut mark: Vec<Option<Mark>> = Vec::new();
    let mut z: usize = 0;
    while z < nb
        invariant
            z <= nb,
            mark@.len() == z,
            forall|v: int| 0 <= v < z ==> mark@[v] is None,
        decreases nb - z,
    {
        mark.push(None);
        z = z + 1;
    }
    let mut post: Vec<usize> = Vec::new();
    let mut stack: Vec<(usize, usize)> = Vec::new();
    stack.push((START_BLOCK, 0));
    mark.set(START_BLOCK, Some(Mark::Open));
    proof {
        lemma_dfs_init(body, mark@, stack@, post@);
        reveal(inv_frames);
        lemma_remaining_nonneg(body, stack@);
        assert(mark@ =~= dfs_start(body).mark);
        assert(stack@ =~= dfs_start(body).stack);
        assert(post@ =~= dfs_start(body).post);
    }
    let ghost mut n: nat = 0;
    while stack.len() > 0
        invariant
            body.wf(),
            nb == body.n_blocks(),
            dfs_inv(body, mark@, stack@, post@),
            remaining(body, stack@) >= 0,
            dfs_steps(body, n) == (Dfs { mark: mark@, stack: stack@, post: post@, cycle: false }),
        decreases count_unmarked(mark@), remaining(body, stack@) + stack@.len(),
    {
        let ghost before = Dfs { mark: mark@, stack: stack@, post: post@, cycle: false };
        let top = stack.len() - 1;
        let (bb, i) = stack[top];
        proof {
            reveal(inv_frames);
            assert(stack@[top as int].0 == bb);
        }
        let edges = &body.basic_blocks[bb].terminator.successors;
        let ghost old_mark = mark@;
        let ghost old_stack = stack@;
        let ghost old_post = post@;
        assert(old_stack.drop_last() =~= old_stack.subrange(0, top as int));
        if i < edges.len() {
            let s = edges[i];
            proof {
                assert(block_ok(body.basic_blocks@[bb as int], body.n_locals(), body.n_blocks()));
            }
            stack.set(top, (bb, i + 1));
            assert(stack@.drop_last() =~= old_stack.drop_last());
            match mark[s] {
                None => {
                    proof {
                        lemma_count_mark(mark@, s as int, Mark::Open);
                    }
                    mark.set(s, Some(Mark::Open));
                    stack.push((s, 0));
                    proof {
                        assert(dfs_step(body, before) == (Dfs { mark: mark@, stack: stack@, post: post@, cycle: false }));
                        n = n + 1;
                        lemma_dfs_push(body, old_mark, old_stack, post@, s);
                        assert(stack@ =~= old_stack.update(top as int, (bb, (i + 1) as usize)).push(
                            (s, 0usize),
                        ));
                        reveal(inv_frames);
                        lemma_remaining_nonneg(body, stack@);
                    }
                },
                Some(Mark::Open) => {
                    proof {
                        lemma_dfs_cycle(body, old_mark, old_stack, post@, s);
                        assert(dfs_steps(body, n + 1) == dfs_step(body, before));
                        assert(dfs_steps(body, n + 1).cycle);
                        lemma_dfs_end(body, n + 1);
                    }
                    return None;
                },
                Some(Mark::Done) => {
                    proof {
                        assert(dfs_step(body, before) == (Dfs { mark: mark@, stack: stack@, post: post@, cycle: false }));
                        n = n + 1;
                        lemma_dfs_skip(body, old_mark, old_stack, post@, s);
                        reveal(inv_frames);
                        lemma_remaining_nonneg(body, stack@);
                    }
                },
            }
        } else {
            proof {
                reveal(inv_open);
                assert(stack@[top as int].0 == bb);
                assert(is_open(mark@, bb as int));
                lemma_count_keep(mark@, bb as int, Mark::Done);
            }
            mark.set(bb, Some(Mark::Done));
            post.push(bb);
            stack.pop();
            proof {
                assert(stack@ =~= old_stack.drop_last());
                assert(dfs_step(body, before) == (Dfs { mark: mark@, stack: stack@, post: post@, cycle: false }));
                n = n + 1;
                lemma_dfs_pop(body, old_mark, old_stack, old_post);
                assert(stack@ =~= old_stack.drop_last());
                reveal(inv_frames);
                lemma_remaining_nonneg(body, stack@);
            }
        }
    }
    let ghost final_post = post@;
    assert(stack@ =~= Seq::<(usize, usize)>::empty());
    proof {
        lemma_dfs_end(body, n);
    }
    let mut order: Vec<usize> = Vec::new();
    let mut k: usize = post.len();
    while k > 0
        invariant
            k <= post@.len(),
            post@ == final_post,
            order@.len() == post@.len() - k,
            forall|t: int| 0 <= t < order@.len() ==> order@[t] == post@[post@.len() - 1 - t],
        decreases k,
    {
        k = k - 1;
        order.push(post[k]);
    }
    proof {
        lemma_reverse_post(body, mark@, post@, order@);
        assert(order@ =~= post@.reverse());
    }
    Some(order)
}

proof fn lemma_succs_in_range(body: &Body)
    requires
        body.wf(),
    ensures
        forall|b: int, k: int|
            0 <= b < body.n_blocks() && 0 <= k < body.succs(b).len() ==> #[trigger] body.succs(
                b,
            )[k] < body.n_blocks(),
{
    assert forall|b: int, k: int|
        0 <= b < body.n_blocks() && 0 <= k < body.succs(b).len() implies #[trigger] body.succs(
        b,
    )[k] < body.n_blocks() by {
        assert(block_ok(body.basic_blocks@[b], body.n_locals(), body.n_blocks()));
    }
}

proof fn lemma_frames_in_range(body: &Body, stack: Seq<(usize, usize)>)
    requires
        inv_frames(body, stack),
    ensures
        forall|f: int|
            0 <= f < stack.len() ==> (#[trigger] stack[f]).0 < body.n_blocks() && stack[f].1
                <= body.succs(stack[f].0 as int).len(),
{
    reveal(inv_frames);
}

proof fn lemma_dfs_init(
    body: &Body,
    mark: Seq<Option<Mark>>,
    stack: Seq<(usize, usize)>,
    post: Seq<usize>,
)
    requires
        body.wf(),
        mark.len() == body.n_blocks(),
        forall|v: int| 0 <= v < mark.len() && v != START_BLOCK ==> mark[v] is None,
        mark[START_BLOCK as int] == Some(Mark::Open),
        stack == seq![(START_BLOCK, 0usize)],
        post == Seq::<usize>::empty(),
    ensures
        dfs_inv(body, mark, stack, post),
{
    reveal(inv_frames);
    reveal(inv_open);
    reveal(inv_post);
    reveal(inv_edges);
    reveal(inv_succ);
    reveal(inv_parent);
    assert forall|v: int| 0 <= v < body.n_blocks() && is_open(mark, v) implies exists|f: int|
        0 <= f < stack.len() && (#[trigger] stack[f]).0 == v by {
        assert(v == 0);
        assert(stack[0].0 == v);
    }
}

proof fn lemma_remaining_nonneg(body: &Body, stack: Seq<(usize, usize)>)
    requires
        forall|f: int|
            0 <= f < stack.len() ==> (#[trigger] stack[f]).1 <= body.succs(stack[f].0 as int).len(),
    ensures
        remaining(body, stack) >= 0,
    decreases stack.len(),
{
    if stack.len() > 0 {
        let d = stack.drop_last();
        assert forall|f: int| 0 <= f < d.len() implies (#[trigger] d[f]).1 <= body.succs(
            d[f].0 as int,
        ).len() by {
            assert(d[f] == stack[f]);
        }
        lemma_remaining_nonneg(body, d);
    }
}

/// The step that follows a fresh edge and opens its target.
proof fn lemma_dfs_push(
    body: &Body,
    mark: Seq<Option<Mark>>,
    stack: Seq<(usize, usize)>,
    post: Seq<usize>,
    s: usize,
)
    requires
        body.wf(),
        dfs_inv(body, mark, stack, post),
        stack.len() > 0,
        stack.last().1 < body.succs(stack.last().0 as int).len(),
        s == body.succs(stack.last().0 as int)[stack.last().1 as int],
        s < body.n_blocks(),
        mark[s as int] is None,
    ensures
        dfs_inv(
            body,
            mark.update(s as int, Some(Mark::Open)),
            stack.update(
                stack.len() - 1,
                (stack.last().0, (stack.last().1 + 1) as usize),
            ).push((s, 0usize)),
            post,
        ),
{
    lemma_succs_in_range(body);
    lemma_frames_in_range(body, stack);
    let top = stack.len() - 1;
    let bb = stack.last().0;
    let i = stack.last().1;
    assert(bb < body.n_blocks()) by {
        reveal(inv_frames);
        assert(stack[top] == stack.last());
    }
    assert(block_ok(body.basic_blocks@[bb as int], body.n_locals(), body.n_blocks()));
    assert(i + 1 <= usize::MAX) by {
        assert(body.succs(bb as int).len() <= crate::mir::size_bound());
    }
    let st1 = stack.update(top, (bb, (i + 1) as usize));
    let st2 = st1.push((s, 0usize));
    let m2 = mark.update(s as int, Some(Mark::Open));
    let nb = body.n_blocks();
    assert(s != START_BLOCK);
    assert(st2.len() == stack.len() + 1);
    assert forall|f: int| 0 <= f < top implies #[trigger] st2[f] == stack[f] by {}
    assert(st2[top] == (bb, (i + 1) as usize));
    assert(st2[top + 1] == (s, 0usize));
    assert(inv_frames(body, st2)) by {
        reveal(inv_frames);
        assert forall|f: int| 0 <= f < st2.len() - 1 implies (#[trigger] st2[f]).1 >= 1 && body.succs(
            st2[f].0 as int,
        )[st2[f].1 - 1] == st2[f + 1].0 by {
            if f < top {
                assert(st2[f] == stack[f]);
                assert(st2[f + 1].0 == stack[f + 1].0);
            }
        }
        assert forall|f: int|
            0 <= f < st2.len() implies (#[trigger] st2[f]).0 < nb && st2[f].1 <= body.succs(
            st2[f].0 as int,
        ).len() by {
            if f < top {
                assert(st2[f] == stack[f]);
            }
        }
        assert(st2[0].0 == stack[0].0);
    }
    assert(inv_open(body, m2, st2)) by {
        reveal(inv_open);
        assert forall|v: int| 0 <= v < nb && is_open(m2, v) implies exists|f: int|
            0 <= f < st2.len() && (#[trigger] st2[f]).0 == v by {
            if v == s {
                assert(st2[top + 1].0 == v);
            } else {
                assert(is_open(mark, v));
                let f = choose|f: int| 0 <= f < stack.len() && (#[trigger] stack[f]).0 == v;
                assert(st2[f].0 == v);
            }
        }
        assert forall|f: int| 0 <= f < st2.len() implies is_open(m2, (#[trigger] st2[f]).0 as int) by {
            if f <= top {
                assert(st2[f].0 == stack[f].0);
                assert(is_open(mark, stack[f].0 as int));
            }
        }
        assert forall|f1: int, f2: int|
            0 <= f1 < st2.len() && 0 <= f2 < st2.len() && f1 != f2 implies (#[trigger] st2[f1]).0
            != (#[trigger] st2[f2]).0 by {
            if f1 == top + 1 {
                assert(st2[f2].0 == stack[f2].0);
                assert(is_open(mark, stack[f2].0 as int));
            } else if f2 == top + 1 {
                assert(st2[f1].0 == stack[f1].0);
                assert(is_open(mark, stack[f1].0 as int));
            } else {
                assert(st2[f1].0 == stack[f1].0 && st2[f2].0 == stack[f2].0);
            }
        }
    }
    assert(inv_post(body, m2, post)) by {
        reveal(inv_post);
        assert forall|v: int| 0 <= v < nb && is_done(m2, v) implies exists|j: int|
            0 <= j < post.len() && #[trigger] post[j] == v by {
            assert(is_done(mark, v));
        }
        assert forall|j: int| 0 <= j < post.len() implies #[trigger] post[j] < nb && is_done(
            m2,
            post[j] as int,
        ) by {
            assert(is_done(mark, post[j] as int));
        }
    }
    assert(inv_edges(body, m2, st2)) by {
        reveal(inv_edges);
        assert forall|f: int, k: int|
            #![trigger st2[f], body.succs(st2[f].0 as int)[k]]
            0 <= f < st2.len() && 0 <= k < st2[f].1 implies is_done(
            m2,
            body.succs(st2[f].0 as int)[k] as int,
        ) || (f + 1 < st2.len() && k == st2[f].1 - 1) by {
            let x = body.succs(stack[f].0 as int)[k];
            if f < top {
                assert(st2[f] == stack[f]);
                assert(x == body.succs(st2[f].0 as int)[k]);
                assert(is_done(mark, x as int) || (f + 1 < stack.len() && k == stack[f].1 - 1));
                if is_done(mark, x as int) {
                    assert(x < nb);
                    assert(x != s);
                    assert(is_done(m2, x as int));
                }
            } else if f == top {
                assert(st2[f].1 == i + 1);
                if k < i {
                    assert(x == body.succs(st2[f].0 as int)[k]);
                    assert(is_done(mark, x as int) || (f + 1 < stack.len() && k == stack[f].1 - 1));
                    assert(is_done(mark, x as int));
                    assert(x < nb);
                    assert(x != s);
                    assert(is_done(m2, x as int));
                } else {
                    assert(k == st2[f].1 - 1);
                }
            }
        }
    }
    assert(inv_parent(body, m2, post)) by {
        reveal(inv_parent);
        assert forall|j: int|
            0 <= j < post.len() && post[j] != START_BLOCK implies #[trigger] entered_from(
            body,
            m2,
            post,
            j,
        ) by {
            assert(entered_from(body, mark, post, j));
            let q = choose|q: int| parent_at(body, mark, post, j, q);
            if is_open(mark, q) {
                assert(q != s);
                assert(m2[q] == mark[q]);
                assert(is_open(m2, q));
            }
            assert(parent_at(body, m2, post, j, q));
            assert(entered_from(body, m2, post, j));
        }
    }
}

/// The step that follows an edge to a finished block.
proof fn lemma_dfs_skip(
    body: &Body,
    mark: Seq<Option<Mark>>,
    stack: Seq<(usize, usize)>,
    post: Seq<usize>,
    s: usize,
)
    requires
        body.wf(),
        dfs_inv(body, mark, stack, post),
        stack.len() > 0,
        stack.last().1 < body.succs(stack.last().0 as int).len(),
        s == body.succs(stack.last().0 as int)[stack.last().1 as int],
        s < body.n_blocks(),
        mark[s as int] == Some(Mark::Done),
    ensures
        dfs_inv(
            body,
            mark,
            stack.update(stack.len() - 1, (stack.last().0, (stack.last().1 + 1) as usize)),
            post,
        ),
{
    lemma_succs_in_range(body);
    lemma_frames_in_range(body, stack);
    let top = stack.len() - 1;
    let bb = stack.last().0;
    let i = stack.last().1;
    assert(bb < body.n_blocks()) by {
        reveal(inv_frames);
        assert(stack[top] == stack.last());
    }
    assert(block_ok(body.basic_blocks@[bb as int], body.n_locals(), body.n_blocks()));
    let st1 = stack.update(top, (bb, (i + 1) as usize));
    let nb = body.n_blocks();
    assert forall|f: int| 0 <= f < top implies #[trigger] st1[f] == stack[f] by {}
    assert(st1[top] == (bb, (i + 1) as usize));
    assert(inv_frames(body, st1)) by {
        reveal(inv_frames);
        assert forall|f: int| 0 <= f < st1.len() - 1 implies (#[trigger] st1[f]).1 >= 1 && body.succs(
            st1[f].0 as int,
        )[st1[f].1 - 1] == st1[f + 1].0 by {
            assert(st1[f] == stack[f]);
            assert(st1[f + 1].0 == stack[f + 1].0);
        }
        assert forall|f: int|
            0 <= f < st1.len() implies (#[trigger] st1[f]).0 < nb && st1[f].1 <= body.succs(
            st1[f].0 as int,
        ).len() by {
            if f < top {
                assert(st1[f] == stack[f]);
            }
        }
        assert(st1[0].0 == stack[0].0);
    }
    assert(inv_open(body, mark, st1)) by {
        reveal(inv_open);
        assert forall|v: int| 0 <= v < nb && is_open(mark, v) implies exists|f: int|
            0 <= f < st1.len() && (#[trigger] st1[f]).0 == v by {
            let f = choose|f: int| 0 <= f < stack.len() && (#[trigger] stack[f]).0 == v;
            assert(st1[f].0 == v);
        }
        assert forall|f1: int, f2: int|
            0 <= f1 < st1.len() && 0 <= f2 < st1.len() && f1 != f2 implies (#[trigger] st1[f1]).0
            != (#[trigger] st1[f2]).0 by {
            assert(st1[f1].0 == stack[f1].0 && st1[f2].0 == stack[f2].0);
        }
        assert forall|f: int| 0 <= f < st1.len() implies is_open(mark, (#[trigger] st1[f]).0 as int) by {
            assert(st1[f].0 == stack[f].0);
        }
    }
    assert(inv_edges(body, mark, st1)) by {
        reveal(inv_edges);
        assert forall|f: int, k: int|
            #![trigger st1[f], body.succs(st1[f].0 as int)[k]]
            0 <= f < st1.len() && 0 <= k < st1[f].1 implies is_done(
            mark,
            body.succs(st1[f].0 as int)[k] as int,
        ) || (f + 1 < st1.len() && k == st1[f].1 - 1) by {
            if f < top {
                assert(st1[f] == stack[f]);
            } else {
                assert(body.succs(stack[f].0 as int)[k] == body.succs(st1[f].0 as int)[k]);
            }
        }
    }
}

/// The step that meets an open block: the stack and the edge form a cycle.
proof fn lemma_dfs_cycle(
    body: &Body,
    mark: Seq<Option<Mark>>,
    stack: Seq<(usize, usize)>,
    post: Seq<usize>,
    s: usize,
)
    requires
        body.wf(),
        dfs_inv(body, mark, stack, post),
        stack.len() > 0,
        stack.last().1 < body.succs(stack.last().0 as int).len(),
        s == body.succs(stack.last().0 as int)[stack.last().1 as int],
        s < body.n_blocks(),
        mark[s as int] == Some(Mark::Open),
    ensures
        has_reachable_cycle(body),
{
    reveal(inv_frames);
    reveal(inv_open);
    let nb = body.n_blocks();
    assert(is_open(mark, s as int));
    let f0 = choose|f: int| 0 <= f < stack.len() && (#[trigger] stack[f]).0 == s;
    let p = Seq::new(stack.len(), |f: int| stack[f].0).push(s);
    let j = f0;
    assert(p[0] == START_BLOCK);
    assert forall|i: int| 0 <= i < p.len() implies #[trigger] p[i] < nb by {
        if i < stack.len() {
            assert(p[i] == stack[i].0);
        }
    }
    assert forall|i: int| 0 <= i < p.len() - 1 implies body.succs(#[trigger] p[i] as int).contains(
        p[i + 1],
    ) by {
        if i < stack.len() - 1 {
            assert(stack[i].1 >= 1);
            assert(body.succs(stack[i].0 as int)[stack[i].1 - 1] == stack[i + 1].0);
            assert(p[i] == stack[i].0);
            assert(p[i + 1] == stack[i + 1].0);
        } else {
            assert(p[i] == stack.last().0);
            assert(body.succs(p[i] as int)[stack.last().1 as int] == p[i + 1]);
        }
    }
    assert(is_path(body, p));
    assert(p[j] == stack[f0].0);
    assert(p[j] == p.last());
    assert(0 <= j < p.len() - 1);
}

/// The step that finishes the block on top of the stack.
proof fn lemma_dfs_pop(
    body: &Body,
    mark: Seq<Option<Mark>>,
    stack: Seq<(usize, usize)>,
    post: Seq<usize>,
)
    requires
        body.wf(),
        dfs_inv(body, mark, stack, post),
        stack.len() > 0,
        stack.last().1 >= body.succs(stack.last().0 as int).len(),
    ensures
        dfs_inv(
            body,
            mark.update(stack.last().0 as int, Some(Mark::Done)),
            stack.drop_last(),
            post.push(stack.last().0),
        ),
{
    lemma_succs_in_range(body);
    lemma_frames_in_range(body, stack);
    let nb = body.n_blocks();
    let top = stack.len() - 1;
    let bb = stack.last().0;
    let m2 = mark.update(bb as int, Some(Mark::Done));
    let st2 = stack.drop_last();
    let p2 = post.push(bb);
    assert(stack[top].0 == bb);
    assert(bb < nb) by {
        reveal(inv_frames);
    }
    assert(is_open(mark, bb as int)) by {
        reveal(inv_open);
    }
    assert forall|j: int| 0 <= j < post.len() implies post[j] != bb by {
        reveal(inv_post);
        assert(is_done(mark, post[j] as int));
    }
    assert forall|f: int| 0 <= f < top implies #[trigger] st2[f] == stack[f] by {}
    assert(inv_frames(body, st2)) by {
        reveal(inv_frames);
        assert forall|f: int| 0 <= f < st2.len() - 1 implies (#[trigger] st2[f]).1 >= 1 && body.succs(
            st2[f].0 as int,
        )[st2[f].1 - 1] == st2[f + 1].0 by {
            assert(st2[f] == stack[f]);
            assert(st2[f + 1] == stack[f + 1]);
        }
        assert forall|f: int|
            0 <= f < st2.len() implies (#[trigger] st2[f]).0 < nb && st2[f].1 <= body.succs(
            st2[f].0 as int,
        ).len() by {
            assert(st2[f] == stack[f]);
        }
        if st2.len() > 0 {
            assert(st2[0] == stack[0]);
        }
    }
    assert(inv_open(body, m2, st2)) by {
        reveal(inv_open);
        assert forall|f: int| 0 <= f < st2.len() implies is_open(m2, (#[trigger] st2[f]).0 as int) by {
            assert(st2[f] == stack[f]);
            assert(stack[f].0 != stack[top].0);
            assert(is_open(mark, stack[f].0 as int));
        }
        assert forall|v: int| 0 <= v < nb && is_open(m2, v) implies exists|f: int|
            0 <= f < st2.len() && (#[trigger] st2[f]).0 == v by {
            assert(v != bb);
            assert(is_open(mark, v));
            let f = choose|f: int| 0 <= f < stack.len() && (#[trigger] stack[f]).0 == v;
            assert(f != top);
            assert(st2[f].0 == v);
        }
        assert forall|f1: int, f2: int|
            0 <= f1 < st2.len() && 0 <= f2 < st2.len() && f1 != f2 implies (#[trigger] st2[f1]).0
            != (#[trigger] st2[f2]).0 by {
            assert(st2[f1] == stack[f1] && st2[f2] == stack[f2]);
        }
    }
    assert(inv_post(body, m2, p2)) by {
        reveal(inv_post);
        assert(p2.no_duplicates()) by {
            assert forall|a: int, b: int| 0 <= a < p2.len() && 0 <= b < p2.len() && a != b implies p2[a]
                != p2[b] by {
                if b == post.len() {
                    assert(p2[a] == post[a]);
                } else if a == post.len() {
                    assert(p2[b] == post[b]);
                } else {
                    assert(p2[a] == post[a] && p2[b] == post[b]);
                }
            }
        }
        assert forall|j: int| 0 <= j < p2.len() implies #[trigger] p2[j] < nb && is_done(
            m2,
            p2[j] as int,
        ) by {
            if j < post.len() {
                assert(p2[j] == post[j]);
                assert(is_done(mark, post[j] as int));
            }
        }
        assert forall|v: int| 0 <= v < nb && is_done(m2, v) implies exists|j: int|
            0 <= j < p2.len() && #[trigger] p2[j] == v by {
            if v == bb {
                assert(p2[post.len() as int] == v);
            } else {
                assert(is_done(mark, v));
                let j = choose|j: int| 0 <= j < post.len() && #[trigger] post[j] == v;
                assert(p2[j] == v);
            }
        }
    }
    // every successor of the finished block is finished
    assert forall|k: int| 0 <= k < body.succs(bb as int).len() implies is_done(
        mark,
        #[trigger] body.succs(bb as int)[k] as int,
    ) by {
        reveal(inv_edges);
        reveal(inv_frames);
        assert(0 <= k < stack[top].1);
        assert(body.succs(stack[top].0 as int)[k] == body.succs(bb as int)[k]);
    }
    assert(inv_edges(body, m2, st2)) by {
        reveal(inv_edges);
        reveal(inv_frames);
        assert forall|f: int, k: int|
            #![trigger st2[f], body.succs(st2[f].0 as int)[k]]
            0 <= f < st2.len() && 0 <= k < st2[f].1 implies is_done(
            m2,
            body.succs(st2[f].0 as int)[k] as int,
        ) || (f + 1 < st2.len() && k == st2[f].1 - 1) by {
            assert(st2[f] == stack[f]);
            if !is_done(mark, body.succs(stack[f].0 as int)[k] as int) {
                assert(f + 1 < stack.len() && k == stack[f].1 - 1);
                if f + 1 == top {
                    assert(body.succs(stack[f].0 as int)[stack[f].1 - 1] == stack[f + 1].0);
                }
            }
        }
    }
    lemma_pop_succ(body, mark, post, bb);
    assert(top >= 1 ==> body.succs(stack[top - 1].0 as int).contains(bb)
        && is_open(m2, stack[top - 1].0 as int)) by {
        reveal(inv_frames);
        reveal(inv_open);
        if top >= 1 {
            let q = stack[top - 1].0;
            let k = stack[top - 1].1 - 1;
            assert(body.succs(q as int)[k] == stack[top].0);
            assert(is_open(mark, q as int));
            assert(q != bb);
        }
    }
    assert(bb != START_BLOCK ==> top >= 1) by {
        reveal(inv_frames);
    }
    lemma_pop_parent(body, mark, post, bb, if top >= 1 {
        stack[top - 1].0 as int
    } else {
        0
    });
    if st2.len() == 0 {
        reveal(inv_frames);
        assert(bb == START_BLOCK);
        assert(p2.last() == bb);
    }
}

proof fn lemma_pop_succ(body: &Body, mark: Seq<Option<Mark>>, post: Seq<usize>, bb: usize)
    requires
        body.wf(),
        inv_succ(body, post),
        inv_post(body, mark, post),
        bb < body.n_blocks(),
        forall|k: int|
            0 <= k < body.succs(bb as int).len() ==> is_done(
                mark,
                #[trigger] body.succs(bb as int)[k] as int,
            ),
    ensures
        inv_succ(body, post.push(bb)),
{
    lemma_succs_in_range(body);
    let p2 = post.push(bb);
    reveal(inv_succ);
    reveal(inv_post);
    assert forall|j: int, k: int|
        0 <= j < p2.len() && 0 <= k < body.succs(p2[j] as int).len() implies #[trigger] succ_done_before(
        body,
        p2,
        j,
        k,
    ) by {
        if j < post.len() {
            assert(p2[j] == post[j]);
            let x = body.succs(post[j] as int)[k];
            assert(x == body.succs(p2[j] as int)[k]);
            assert(succ_done_before(body, post, j, k));
            let m = choose|m: int| 0 <= m < j && post[m] == x;
            assert(p2[m] == post[m]);
            assert(0 <= m < j && p2[m] == body.succs(p2[j] as int)[k]);
        } else {
            assert(p2[j] == bb);
            let v = body.succs(bb as int)[k];
            assert(is_done(mark, v as int));
            assert(v < body.n_blocks());
            assert(exists|m: int| 0 <= m < post.len() && #[trigger] post[m] == v);
            let m = choose|m: int| 0 <= m < post.len() && #[trigger] post[m] == v;
            assert(p2[m] == post[m]);
            assert(0 <= m < j && p2[m] == body.succs(p2[j] as int)[k]);
        }
    }
}

proof fn lemma_pop_parent(
    body: &Body,
    mark: Seq<Option<Mark>>,
    post: Seq<usize>,
    bb: usize,
    parent: int,
)
    requires
        inv_parent(body, mark, post),
        mark.len() == body.n_blocks(),
        bb < body.n_blocks(),
        is_open(mark, bb as int),
        bb != START_BLOCK ==> 0 <= parent < body.n_blocks() && body.succs(parent).contains(bb)
            && is_open(mark.update(bb as int, Some(Mark::Done)), parent),
    ensures
        inv_parent(body, mark.update(bb as int, Some(Mark::Done)), post.push(bb)),
{
    reveal(inv_parent);
    let m2 = mark.update(bb as int, Some(Mark::Done));
    let p2 = post.push(bb);
    let nb = body.n_blocks();
    assert forall|j: int|
        0 <= j < p2.len() && p2[j] != START_BLOCK implies #[trigger] entered_from(body, m2, p2, j) by {
        if j < post.len() {
            assert(p2[j] == post[j]);
            assert(entered_from(body, mark, post, j));
            let q = choose|q: int| parent_at(body, mark, post, j, q);
            if is_open(mark, q) && q == bb {
                assert(finished_after(p2, j, post.len() as int, q));
            } else if is_open(mark, q) {
                assert(m2[q] == mark[q]);
                assert(is_open(m2, q));
            } else {
                let m = choose|m: int| finished_after(post, j, m, q);
                assert(p2[m] == post[m]);
                assert(finished_after(p2, j, m, q));
            }
            assert(parent_at(body, m2, p2, j, q));
        } else {
            assert(p2[j] == bb);
            assert(parent_at(body, m2, p2, j, parent));
        }
    }
}

proof fn lemma_none_open(body: &Body, mark: Seq<Option<Mark>>, post: Seq<usize>, q: int)
    requires
        dfs_inv(body, mark, Seq::<(usize, usize)>::empty(), post),
        0 <= q < body.n_blocks(),
    ensures
        !is_open(mark, q),
{
    reveal(inv_open);
    let e = Seq::<(usize, usize)>::empty();
    if is_open(mark, q) {
        assert(exists|f: int| 0 <= f < e.len() && (#[trigger] e[f]).0 == q);
        let f = choose|f: int| 0 <= f < e.len() && (#[trigger] e[f]).0 == q;
        assert(false);
    }
}

proof fn lemma_reverse_post(
    body: &Body,
    mark: Seq<Option<Mark>>,
    post: Seq<usize>,
    order: Seq<usize>,
)
    requires
        dfs_inv(body, mark, Seq::<(usize, usize)>::empty(), post),
        order.len() == post.len(),
        forall|t: int| 0 <= t < order.len() ==> order[t] == post[post.len() - 1 - t],
    ensures
        is_topo_order(body, order),
{
    reveal(inv_post);
    reveal(inv_succ);
    reveal(inv_parent);
    let n = post.len();
    assert(order[0] == post.last());
    assert(order.no_duplicates()) by {
        assert forall|a: int, b: int| 0 <= a < n && 0 <= b < n && a != b implies order[a]
            != order[b] by {
            assert(order[a] == post[n - 1 - a]);
            assert(order[b] == post[n - 1 - b]);
        }
    }
    assert forall|i: int| 0 <= i < n implies #[trigger] order[i] < body.n_blocks() by {
        assert(order[i] == post[n - 1 - i]);
    }
    assert forall|i: int, k: int|
        0 <= i < n && 0 <= k < body.succs(order[i] as int).len() implies #[trigger] succ_listed_later(
        body,
        order,
        i,
        k,
    ) by {
        let jj = n - 1 - i;
        assert(order[i] == post[jj]);
        assert(body.succs(post[jj] as int)[k] == body.succs(order[i] as int)[k]);
        assert(succ_done_before(body, post, jj, k));
        let m = choose|m: int| 0 <= m < jj && post[m] == body.succs(post[jj] as int)[k];
        assert(order[n - 1 - m] == post[m]);
        assert(i < n - 1 - m < n && order[n - 1 - m] == body.succs(order[i] as int)[k]);
    }
    assert forall|j: int| 0 < j < n implies #[trigger] entered_earlier(body, order, j) by {
        let jj = n - 1 - j;
        assert(order[j] == post[jj]);
        assert(post[jj] != post[n - 1]);
        assert(post[jj] != START_BLOCK);
        assert(entered_from(body, mark, post, jj));
        let q = choose|q: int| parent_at(body, mark, post, jj, q);
        lemma_none_open(body, mark, post, q);
        let m = choose|m: int| finished_after(post, jj, m, q);
        assert(order[n - 1 - m] == post[m]);
        assert(0 <= n - 1 - m < j);
        assert(body.succs(order[n - 1 - m] as int).contains(order[j]));
    }
}

/// Whether a cycle of blocks can be reached from the entry.
pub fn has_loop(body: &Body) -> (r: bool)
    requires
        body.wf(),
    ensures
        r == has_reachable_cycle(body),
{
    match topo_order(body) {
        Some(o) => {
            proof {
                lemma_topo_order_acyclic(body, o@);
            }
            false
        },
        None => true,
    }
}

} // verus!

verus! {

// ---------------------------------------------------------------------------
// Direct callees and the order in which functions are summarized.
// ---------------------------------------------------------------------------

/// The ids of the functions of the crate, in order.
pub open spec fn fn_ids(funcs: Seq<FnEntry>) -> Seq<u64> {
    funcs.map_values(|f: FnEntry| f.def_id)
}

/// The ids of the functions of the crate.
pub fn crate_ids(funcs: &Vec<FnEntry>) -> (r: Vec<u64>)
    ensures
        r@ == fn_ids(funcs@),
{
    let mut out: Vec<u64> = Vec::new();
    let mut i: usize = 0;
    while i < funcs.len()
        invariant
            i <= funcs@.len(),
            out@ == fn_ids(funcs@.take(i as int)),
        decreases funcs@.len() - i,
    {
        out.push(funcs[i].def_id);
        proof {
            assert(fn_ids(funcs@.take(i + 1)) =~= fn_ids(funcs@.take(i as int)).push(funcs@[i as int].def_id));
        }
        i = i + 1;
    }
    proof {
        assert(funcs@.take(funcs@.len() as int) =~= funcs@);
    }
    out
}

/// The callee named by the terminator of each block, in block order, when the
/// terminator is a call that names its callee directly.
pub open spec fn named_callees(blocks: Seq<BasicBlockData>) -> Seq<u64>
    decreases blocks.len(),
{
    if blocks.len() == 0 {
        seq![]
    } else {
        named_callees(blocks.drop_last()) + match blocks.last().terminator.kind {
            TerminatorKind::Call { func, .. } => match spec_callee(func) {
                Some(d) => seq![d],
                None => seq![],
            },
            _ => seq![],
        }
    }
}

/// The elements of `s` that `keep` holds, each once, in order of first
/// occurrence.
pub open spec fn distinct_in(s: Seq<u64>, keep: Seq<u64>) -> Seq<u64>
    decreases s.len(),
{
    if s.len() == 0 {
        seq![]
    } else {
        let prev = distinct_in(s.drop_last(), keep);
        if keep.contains(s.last()) && !prev.contains(s.last()) {
            prev.push(s.last())
        } else {
            prev
        }
    }
}

fn vec_contains(v: &Vec<u64>, x: u64) -> (r: bool)
    ensures
        r == v@.contains(x),
{
    let mut i: usize = 0;
    while i < v.len()
        invariant
            i <= v@.len(),
            forall|k: int| 0 <= k < i ==> v@[k] != x,
        decreases v@.len() - i,
    {
        if v[i] == x {
            assert(v@[i as int] == x);
            return true;
        }
        i = i + 1;
    }
    false
}

/// The functions of the crate that `body` calls directly, each once, in the
/// order of the blocks that call them.
pub fn direct_callees(body: &Body, in_crate: &Vec<u64>) -> (r: Vec<u64>)
    ensures
        r@ == distinct_in(named_callees(body.basic_blocks@), in_crate@),
{
    let mut out: Vec<u64> = Vec::new();
    let mut b: usize = 0;
    while b < body.basic_blocks.len()
        invariant
            b <= body.basic_blocks@.len(),
            out@ == distinct_in(named_callees(body.basic_blocks@.take(b as int)), in_crate@),
        decreases body.basic_blocks@.len() - b,
    {
        let ghost before = body.basic_blocks@.take(b as int);
        let ghost after = body.basic_blocks@.take(b + 1);
        assert(after.drop_last() =~= before);
        if let TerminatorKind::Call { func, .. } = &body.basic_blocks[b].terminator.kind {
            if let Some(did) = callee_def_id(func) {
                assert(named_callees(after) =~= named_callees(before).push(did));
                assert(named_callees(after).drop_last() =~= named_callees(before));
                if vec_contains(in_crate, did) && !vec_contains(&out, did) {
                    out.push(did);
                }
            } else {
                assert(named_callees(after) =~= named_callees(before));
            }
        } else {
            assert(named_callees(after) =~= named_callees(before));
        }
        b = b + 1;
    }
    proof {
        assert(body.basic_blocks@.take(body.basic_blocks@.len() as int) =~= body.basic_blocks@);
    }
    out
}

/// The direct in-crate callees of every function, in the order of `funcs`.
pub fn call_graph(funcs: &Vec<FnEntry>) -> (r: Vec<Vec<u64>>)
    ensures
        r@.len() == funcs@.len(),
        forall|i: int|
            0 <= i < funcs@.len() ==> (#[trigger] r@[i])@ == distinct_in(
                named_callees(funcs@[i].body.basic_blocks@),
                fn_ids(funcs@),
            ),
{
    let in_crate = crate_ids(funcs);
    let mut graph: Vec<Vec<u64>> = Vec::new();
    let mut i: usize = 0;
    while i < funcs.len()
        invariant
            i <= funcs@.len(),
            in_crate@ == fn_ids(funcs@),
            graph@.len() == i,
            forall|j: int|
                0 <= j < i ==> (#[trigger] graph@[j])@ == distinct_in(
                    named_callees(funcs@[j].body.basic_blocks@),
                    fn_ids(funcs@),
                ),
        decreases funcs@.len() - i,
    {
        graph.push(direct_callees(&funcs[i].body, &in_crate));
        i = i + 1;
    }
    graph
}

/// Function `i` calls function `j`.
pub open spec fn calls(funcs: Seq<FnEntry>, graph: Seq<Vec<u64>>, i: int, j: int) -> bool {
    &&& 0 <= i < funcs.len()
    &&& 0 <= j < funcs.len()
    &&& graph[i]@.contains(funcs[j].def_id)
}

/// `p` is a chain of calls from function `a` to function `b`.
pub open spec fn call_path(
    funcs: Seq<FnEntry>,
    graph: Seq<Vec<u64>>,
    p: Seq<int>,
    a: int,
    b: int,
) -> bool {
    &&& p.len() >= 1
    &&& p[0] == a
    &&& p.last() == b
    &&& forall|t: int| 0 <= t < p.len() ==> 0 <= #[trigger] p[t] < funcs.len()
    &&& forall|t: int| 0 <= t < p.len() - 1 ==> calls(funcs, graph, #[trigger] p[t], p[t + 1])
}

/// Function `a` reaches function `b` through zero or more calls.
pub open spec fn reaches(funcs: Seq<FnEntry>, graph: Seq<Vec<u64>>, a: int, b: int) -> bool {
    exists|p: Seq<int>| #[trigger] call_path(funcs, graph, p, a, b)
}

/// Every callee id names a function of the crate.
pub open spec fn graph_ok(funcs: Seq<FnEntry>, graph: Seq<Vec<u64>>) -> bool {
    &&& graph.len() == funcs.len()
    &&& forall|i: int, k: int|
        0 <= i < graph.len() && 0 <= k < graph[i]@.len() ==> fn_ids(funcs).contains(
            #[trigger] graph[i]@[k],
        )
}

/// `id` sits at position `p` of `order`.
pub open spec fn at(order: Seq<u64>, p: int, id: u64) -> bool {
    0 <= p < order.len() && order[p] == id
}

/// The `k`-th callee of function `j` is listed before function `j`, or it
/// reaches function `j` again through calls.
pub open spec fn callee_first_or_cycle(
    funcs: Seq<FnEntry>,
    graph: Seq<Vec<u64>>,
    order: Seq<u64>,
    j: int,
    k: int,
) -> bool {
    let c = graph[j]@[k];
    ||| exists|p: int, q: int| p < q && #[trigger] at(order, p, c) && #[trigger] at(order, q, funcs[j].def_id)
    ||| exists|c_idx: int|
        0 <= c_idx < funcs.len() && funcs[c_idx].def_id == c && #[trigger] reaches(
            funcs,
            graph,
            c_idx,
            j,
        )
}

pub open spec fn count_true(s: Seq<bool>) -> nat
    decreases s.len(),
{
    if s.len() == 0 {
        0
    } else {
        count_true(s.drop_last()) + if s.last() {
            1nat
        } else {
            0nat
        }
    }
}

proof fn lemma_count_true_mono(a: Seq<bool>, b: Seq<bool>)
    requires
        a.len() == b.len(),
        forall|i: int| 0 <= i < a.len() && a[i] ==> b[i],
    ensures
        count_true(a) <= count_true(b),
    decreases a.len(),
{
    if a.len() > 0 {
        lemma_count_true_mono(a.drop_last(), b.drop_last());
    }
}

proof fn lemma_count_true_set(a: Seq<bool>, i: int)
    requires
        0 <= i < a.len(),
        !a[i],
    ensures
        count_true(a.update(i, true)) == count_true(a) + 1,
    decreases a.len(),
{
    let b = a.update(i, true);
    if i == a.len() - 1 {
        assert(b.drop_last() =~= a.drop_last());
    } else {
        assert(b.drop_last() =~= a.drop_last().update(i, true));
        lemma_count_true_set(a.drop_last(), i);
    }
}

proof fn lemma_count_true_bound(a: Seq<bool>)
    ensures
        count_true(a) <= a.len(),
    decreases a.len(),
{
    if a.len() > 0 {
        lemma_count_true_bound(a.drop_last());
    }
}

/// The position in `funcs` of the function with id `id`.
fn index_of(funcs: &Vec<FnEntry>, id: u64) -> (r: usize)
    requires
        fn_ids(funcs@).contains(id),
    ensures
        r < funcs@.len(),
        funcs@[r as int].def_id == id,
{
    let ghost w = choose|w: int| 0 <= w < fn_ids(funcs@).len() && fn_ids(funcs@)[w] == id;
    let mut i: usize = 0;
    while i < funcs.len()
        invariant
            i <= funcs@.len(),
            0 <= w < funcs@.len(),
            funcs@[w].def_id == id,
            forall|k: int| 0 <= k < i ==> funcs@[k].def_id != id,
        decreases funcs@.len() - i,
    {
        if funcs[i].def_id == id {
            return i;
        }
        i = i + 1;
    }
    assert(funcs@[w].def_id != id);
    0
}

/// What holds between two visits: the open functions form a chain of calls,
/// every visited function is open or listed, and every listed function's
/// callees were listed before it or reach it again.
spec fn visit_inv(
    funcs: Seq<FnEntry>,
    graph: Seq<Vec<u64>>,
    seen: Seq<bool>,
    order: Seq<u64>,
    active: Seq<int>,
) -> bool {
    let n = funcs.len();
    &&& seen.len() == n
    &&& order.no_duplicates()
    &&& forall|t: int| 0 <= t < active.len() ==> 0 <= #[trigger] active[t] < n && seen[active[t]]
    &&& forall|t: int| 0 <= t < active.len() - 1 ==> calls(funcs, graph, #[trigger] active[t], active[t + 1])
    &&& forall|t: int, u: int| 0 <= t < active.len() && 0 <= u < active.len() && t != u ==> #[trigger] active[t] != #[trigger] active[u]
    &&& forall|p: int| 0 <= p < order.len() ==> #[trigger] listed_fn(funcs, seen, active, order[p])
    &&& forall|i: int| 0 <= i < n && #[trigger] seen[i] ==> active.contains(i) || order.contains(funcs[i].def_id)
    &&& forall|i: int, k: int|
        0 <= i < n && order.contains(funcs[i].def_id) && 0 <= k < graph[i]@.len()
            ==> #[trigger] callee_first_or_cycle(funcs, graph, order, i, k)
}

/// `id` is the id of a visited function that is no longer open.
spec fn listed_fn(funcs: Seq<FnEntry>, seen: Seq<bool>, active: Seq<int>, id: u64) -> bool {
    exists|i: int| 0 <= i < funcs.len() && funcs[i].def_id == id && seen[i] && !active.contains(i)
}

proof fn lemma_ids_distinct(funcs: Seq<FnEntry>, i: int, j: int)
    requires
        funcs_wf(funcs),
        0 <= i < funcs.len(),
        0 <= j < funcs.len(),
        funcs[i].def_id == funcs[j].def_id,
    ensures
        i == j,
{
}

proof fn lemma_visit_enter(
    funcs: Seq<FnEntry>,
    graph: Seq<Vec<u64>>,
    seen: Seq<bool>,
    order: Seq<u64>,
    active: Seq<int>,
    d: int,
)
    requires
        funcs_wf(funcs),
        visit_inv(funcs, graph, seen, order, active),
        0 <= d < funcs.len(),
        !seen[d],
        active.len() > 0 ==> calls(funcs, graph, active.last(), d),
    ensures
        visit_inv(funcs, graph, seen.update(d, true), order, active.push(d)),
{
    let s2 = seen.update(d, true);
    let a2 = active.push(d);
    let n = funcs.len();
    assert forall|t: int| 0 <= t < a2.len() implies 0 <= #[trigger] a2[t] < n && s2[a2[t]] by {
        if t < active.len() {
            assert(a2[t] == active[t]);
        }
    }
    assert forall|t: int| 0 <= t < a2.len() - 1 implies calls(funcs, graph, #[trigger] a2[t], a2[t + 1]) by {
        assert(a2[t] == active[t]);
        if t + 1 < active.len() {
            assert(a2[t + 1] == active[t + 1]);
        }
    }
    assert forall|t: int, u: int| 0 <= t < a2.len() && 0 <= u < a2.len() && t != u implies #[trigger] a2[t] != #[trigger] a2[u] by {
        if t < active.len() && u < active.len() {
            assert(a2[t] == active[t] && a2[u] == active[u]);
        } else if t < active.len() {
            assert(seen[active[t]]);
            assert(a2[t] == active[t]);
        } else {
            assert(seen[active[u]]);
            assert(a2[u] == active[u]);
        }
    }
    assert forall|p: int| 0 <= p < order.len() implies #[trigger] listed_fn(funcs, s2, a2, order[p]) by {
        assert(listed_fn(funcs, seen, active, order[p]));
        let i = choose|i: int| 0 <= i < funcs.len() && funcs[i].def_id == order[p] && seen[i] && !active.contains(i);
        assert(i != d);
        if a2.contains(i) {
            let t = choose|t: int| 0 <= t < a2.len() && a2[t] == i;
            assert(t < active.len());
            assert(active[t] == i);
        }
        assert(0 <= i < funcs.len() && funcs[i].def_id == order[p] && s2[i] && !a2.contains(i));
    }
    assert forall|i: int| 0 <= i < n && #[trigger] s2[i] implies a2.contains(i) || order.contains(funcs[i].def_id) by {
        if i == d {
            assert(a2[a2.len() - 1] == d);
        } else {
            assert(seen[i]);
            if active.contains(i) {
                let t = choose|t: int| 0 <= t < active.len() && active[t] == i;
                assert(a2[t] == i);
            }
        }
    }
}

proof fn lemma_visit_leave(
    funcs: Seq<FnEntry>,
    graph: Seq<Vec<u64>>,
    seen: Seq<bool>,
    order: Seq<u64>,
    active: Seq<int>,
    d: int,
)
    requires
        funcs_wf(funcs),
        graph_ok(funcs, graph),
        0 <= d < funcs.len(),
        visit_inv(funcs, graph, seen, order, active.push(d)),
        forall|k: int|
            0 <= k < graph[d]@.len() ==> #[trigger] seen_callee(funcs, seen, graph[d]@[k]),
    ensures
        visit_inv(funcs, graph, seen, order.push(funcs[d].def_id), active),
{
    let a2 = active.push(d);
    let o2 = order.push(funcs[d].def_id);
    let n = funcs.len();
    let id = funcs[d].def_id;
    assert(a2[a2.len() - 1] == d);
    assert(!active.contains(d)) by {
        if active.contains(d) {
            let t = choose|t: int| 0 <= t < active.len() && active[t] == d;
            assert(a2[t] == active[t]);
        }
    }
    assert forall|p: int| 0 <= p < order.len() implies order[p] != id by {
        assert(listed_fn(funcs, seen, a2, order[p]));
        let i = choose|i: int| 0 <= i < funcs.len() && funcs[i].def_id == order[p] && seen[i] && !a2.contains(i);
        if order[p] == id {
            lemma_ids_distinct(funcs, i, d);
        }
    }
    assert(o2.no_duplicates()) by {
        assert forall|p: int, q: int| 0 <= p < o2.len() && 0 <= q < o2.len() && p != q implies o2[p] != o2[q] by {
            if p < order.len() && q < order.len() {
                assert(o2[p] == order[p] && o2[q] == order[q]);
            } else if p < order.len() {
                assert(o2[p] == order[p]);
            } else {
                assert(o2[q] == order[q]);
            }
        }
    }
    assert forall|t: int| 0 <= t < active.len() implies 0 <= #[trigger] active[t] < n && seen[active[t]] by {
        assert(a2[t] == active[t]);
    }
    assert forall|t: int| 0 <= t < active.len() - 1 implies calls(funcs, graph, #[trigger] active[t], active[t + 1]) by {
        assert(a2[t] == active[t]);
        assert(a2[t + 1] == active[t + 1]);
    }
    assert forall|t: int, u: int| 0 <= t < active.len() && 0 <= u < active.len() && t != u implies #[trigger] active[t] != #[trigger] active[u] by {
        assert(a2[t] == active[t] && a2[u] == active[u]);
    }
    assert forall|p: int| 0 <= p < o2.len() implies #[trigger] listed_fn(funcs, seen, active, o2[p]) by {
        if p < order.len() {
            assert(o2[p] == order[p]);
            assert(listed_fn(funcs, seen, a2, order[p]));
            let i = choose|i: int| 0 <= i < funcs.len() && funcs[i].def_id == order[p] && seen[i] && !a2.contains(i);
            if active.contains(i) {
                let t = choose|t: int| 0 <= t < active.len() && active[t] == i;
                assert(a2[t] == i);
            }
        } else {
            assert(seen[a2[a2.len() - 1]]);
            assert(0 <= d < funcs.len() && funcs[d].def_id == o2[p] && seen[d] && !active.contains(d));
        }
    }
    assert forall|i: int| 0 <= i < n && #[trigger] seen[i] implies active.contains(i) || o2.contains(funcs[i].def_id) by {
        if a2.contains(i) {
            let t = choose|t: int| 0 <= t < a2.len() && a2[t] == i;
            if t < active.len() {
                assert(active[t] == i);
            } else {
                assert(o2[order.len() as int] == funcs[i].def_id);
            }
        } else {
            let p = choose|p: int| 0 <= p < order.len() && order[p] == funcs[i].def_id;
            assert(o2[p] == order[p]);
        }
    }
    assert forall|i: int, k: int|
        0 <= i < n && o2.contains(funcs[i].def_id) && 0 <= k < graph[i]@.len() implies #[trigger] callee_first_or_cycle(funcs, graph, o2, i, k) by {
        let c = graph[i]@[k];
        if i != d {
            let p = choose|p: int| 0 <= p < o2.len() && o2[p] == funcs[i].def_id;
            if p == order.len() {
                lemma_ids_distinct(funcs, i, d);
            }
            assert(o2[p] == order[p]);
            assert(order.contains(funcs[i].def_id));
            assert(callee_first_or_cycle(funcs, graph, order, i, k));
            if exists|p: int, q: int| p < q && #[trigger] at(order, p, c) && #[trigger] at(order, q, funcs[i].def_id) {
                let (p1, q1) = choose|p: int, q: int| p < q && #[trigger] at(order, p, c) && #[trigger] at(order, q, funcs[i].def_id);
                assert(at(o2, p1, c) && at(o2, q1, funcs[i].def_id));
            }
        } else {
            assert(seen_callee(funcs, seen, c));
            let ci = choose|ci: int| 0 <= ci < funcs.len() && funcs[ci].def_id == c && seen[ci];
            if a2.contains(ci) {
                let t = choose|t: int| 0 <= t < a2.len() && a2[t] == ci;
                let path = a2.subrange(t, a2.len() as int);
                assert forall|u: int| 0 <= u < path.len() implies 0 <= #[trigger] path[u] < funcs.len() by {
                    assert(path[u] == a2[t + u]);
                }
                assert forall|u: int| 0 <= u < path.len() - 1 implies calls(funcs, graph, #[trigger] path[u], path[u + 1]) by {
                    assert(path[u] == a2[t + u]);
                    assert(path[u + 1] == a2[t + u + 1]);
                }
                assert(call_path(funcs, graph, path, ci, d));
                assert(reaches(funcs, graph, ci, d));
            } else {
                let p = choose|p: int| 0 <= p < order.len() && order[p] == funcs[ci].def_id;
                assert(at(o2, p, c));
                assert(at(o2, order.len() as int, funcs[d].def_id));
            }
        }
    }
}

/// Some function with id `c` has been visited.
/// The position of the function with id `id`.
pub open spec fn fn_index(funcs: Seq<FnEntry>, id: u64) -> int {
    choose|j: int| 0 <= j < funcs.len() && funcs[j].def_id == id
}

/// The callee lists of a call graph.
pub open spec fn graph_seqs(graph: Seq<Vec<u64>>) -> Seq<Seq<u64>> {
    graph.map_values(|v: Vec<u64>| v@)
}

/// The number of functions not yet visited.
pub open spec fn unseen(seen: Seq<bool>) -> int {
    seen.len() - count_true(seen)
}

/// A depth-first visit of function `d`: unless already visited, mark it, visit
/// its callees in order, then list it. `fuel` bounds the depth; the number of
/// unvisited functions is always enough.
pub open spec fn visit_spec(
    funcs: Seq<FnEntry>,
    graph: Seq<Seq<u64>>,
    fuel: nat,
    d: int,
    seen: Seq<bool>,
    order: Seq<u64>,
) -> (Seq<bool>, Seq<u64>)
    decreases fuel, 0nat, 0int,
{
    if fuel == 0 || seen[d] {
        (seen, order)
    } else {
        let r = callees_spec(funcs, graph, (fuel - 1) as nat, d, graph[d].len() as int, seen.update(d, true), order);
        (r.0, r.1.push(funcs[d].def_id))
    }
}

/// The visits of the first `k` callees of `d`, in order.
pub open spec fn callees_spec(
    funcs: Seq<FnEntry>,
    graph: Seq<Seq<u64>>,
    fuel: nat,
    d: int,
    k: int,
    seen: Seq<bool>,
    order: Seq<u64>,
) -> (Seq<bool>, Seq<u64>)
    decreases fuel, 1nat, k,
{
    if k <= 0 {
        (seen, order)
    } else {
        let r = callees_spec(funcs, graph, fuel, d, k - 1, seen, order);
        visit_spec(funcs, graph, fuel, fn_index(funcs, graph[d][k - 1]), r.0, r.1)
    }
}

/// The visits from the first `i` functions in turn.
pub open spec fn order_upto(funcs: Seq<FnEntry>, graph: Seq<Seq<u64>>, i: int) -> (Seq<bool>, Seq<u64>)
    decreases i,
{
    if i <= 0 {
        (Seq::new(funcs.len(), |j: int| false), seq![])
    } else {
        let r = order_upto(funcs, graph, i - 1);
        visit_spec(funcs, graph, unseen(r.0) as nat, i - 1, r.0, r.1)
    }
}

/// The order in which the functions are summarized: a depth-first walk of
/// the call graph from each function in turn, listing a function once all of
/// its callees have been visited.
pub open spec fn call_order_of(funcs: Seq<FnEntry>, graph: Seq<Seq<u64>>) -> Seq<u64> {
    order_upto(funcs, graph, funcs.len() as int).1
}

/// The call graph of the crate: each function's direct callees in the crate.
pub open spec fn crate_graph(funcs: Seq<FnEntry>) -> Seq<Seq<u64>> {
    Seq::new(funcs.len(), |i: int| distinct_in(named_callees(funcs[i].body.basic_blocks@), fn_ids(funcs)))
}

/// The order in which the crate's functions are summarized.
pub open spec fn crate_order(funcs: Seq<FnEntry>) -> Seq<u64> {
    call_order_of(funcs, crate_graph(funcs))
}

/// Every callee names a function of the crate.
pub open spec fn graph_in_crate(funcs: Seq<FnEntry>, graph: Seq<Seq<u64>>) -> bool {
    &&& graph.len() == funcs.len()
    &&& forall|i: int, k: int| 0 <= i < graph.len() && 0 <= k < graph[i].len() ==> fn_ids(funcs).contains(#[trigger] graph[i][k])
}

proof fn lemma_fn_index(funcs: Seq<FnEntry>, id: u64)
    requires
        fn_ids(funcs).contains(id),
    ensures
        0 <= fn_index(funcs, id) < funcs.len(),
        funcs[fn_index(funcs, id)].def_id == id,
{
    let w = choose|w: int| 0 <= w < fn_ids(funcs).len() && fn_ids(funcs)[w] == id;
    assert(funcs[w].def_id == id);
}

/// Visits only add marks.
proof fn lemma_visit_grows(funcs: Seq<FnEntry>, graph: Seq<Seq<u64>>, fuel: nat, d: int, seen: Seq<bool>, order: Seq<u64>)
    requires
        graph_in_crate(funcs, graph),
        seen.len() == funcs.len(),
        0 <= d < funcs.len(),
    ensures
        visit_spec(funcs, graph, fuel, d, seen, order).0.len() == seen.len(),
        forall|i: int| 0 <= i < seen.len() && seen[i] ==> #[trigger] visit_spec(funcs, graph, fuel, d, seen, order).0[i],
    decreases fuel, 0nat, 0int,
{
    if !(fuel == 0 || seen[d]) {
        lemma_callees_grow(funcs, graph, (fuel - 1) as nat, d, graph[d].len() as int, seen.update(d, true), order);
    }
}

proof fn lemma_callees_grow(
    funcs: Seq<FnEntry>,
    graph: Seq<Seq<u64>>,
    fuel: nat,
    d: int,
    k: int,
    seen: Seq<bool>,
    order: Seq<u64>,
)
    requires
        graph_in_crate(funcs, graph),
        seen.len() == funcs.len(),
        0 <= d < funcs.len(),
        k <= graph[d].len(),
    ensures
        callees_spec(funcs, graph, fuel, d, k, seen, order).0.len() == seen.len(),
        forall|i: int| 0 <= i < seen.len() && seen[i] ==> #[trigger] callees_spec(funcs, graph, fuel, d, k, seen, order).0[i],
    decreases fuel, 1nat, k,
{
    if k > 0 {
        lemma_callees_grow(funcs, graph, fuel, d, k - 1, seen, order);
        let r = callees_spec(funcs, graph, fuel, d, k - 1, seen, order);
        lemma_fn_index(funcs, graph[d][k - 1]);
        lemma_visit_grows(funcs, graph, fuel, fn_index(funcs, graph[d][k - 1]), r.0, r.1);
    }
}

proof fn lemma_unseen_drop(seen: Seq<bool>, d: int)
    requires
        0 <= d < seen.len(),
        !seen[d],
    ensures
        unseen(seen.update(d, true)) == unseen(seen) - 1,
        unseen(seen) >= 1,
{
    lemma_count_true_set(seen, d);
    lemma_count_true_bound(seen.update(d, true));
}

proof fn lemma_unseen_mono(a: Seq<bool>, b: Seq<bool>)
    requires
        a.len() == b.len(),
        forall|i: int| 0 <= i < a.len() && a[i] ==> b[i],
    ensures
        unseen(b) <= unseen(a),
        unseen(b) >= 0,
{
    lemma_count_true_mono(a, b);
    lemma_count_true_bound(b);
}

/// Any fuel at least the number of unvisited functions gives the same visit.
proof fn lemma_visit_fuel(
    funcs: Seq<FnEntry>,
    graph: Seq<Seq<u64>>,
    f1: nat,
    f2: nat,
    d: int,
    seen: Seq<bool>,
    order: Seq<u64>,
)
    requires
        graph_in_crate(funcs, graph),
        seen.len() == funcs.len(),
        0 <= d < funcs.len(),
        f1 >= unseen(seen),
        f2 >= unseen(seen),
    ensures
        visit_spec(funcs, graph, f1, d, seen, order) == visit_spec(funcs, graph, f2, d, seen, order),
    decreases f1, 0nat, 0int,
{
    if !seen[d] {
        lemma_unseen_drop(seen, d);
        lemma_callees_fuel(
            funcs,
            graph,
            (f1 - 1) as nat,
            (f2 - 1) as nat,
            d,
            graph[d].len() as int,
            seen.update(d, true),
            order,
        );
    }
}

proof fn lemma_callees_fuel(
    funcs: Seq<FnEntry>,
    graph: Seq<Seq<u64>>,
    f1: nat,
    f2: nat,
    d: int,
    k: int,
    seen: Seq<bool>,
    order: Seq<u64>,
)
    requires
        graph_in_crate(funcs, graph),
        seen.len() == funcs.len(),
        0 <= d < funcs.len(),
        k <= graph[d].len(),
        f1 >= unseen(seen),
        f2 >= unseen(seen),
    ensures
        callees_spec(funcs, graph, f1, d, k, seen, order) == callees_spec(funcs, graph, f2, d, k, seen, order),
    decreases f1, 1nat, k,
{
    if k > 0 {
        lemma_callees_fuel(funcs, graph, f1, f2, d, k - 1, seen, order);
        let r = callees_spec(funcs, graph, f1, d, k - 1, seen, order);
        lemma_callees_grow(funcs, graph, f1, d, k - 1, seen, order);
        lemma_unseen_mono(seen, r.0);
        lemma_fn_index(funcs, graph[d][k - 1]);
        lemma_visit_fuel(funcs, graph, f1, f2, fn_index(funcs, graph[d][k - 1]), r.0, r.1);
    }
}

spec fn seen_callee(funcs: Seq<FnEntry>, seen: Seq<bool>, c: u64) -> bool {
    exists|ci: int| 0 <= ci < funcs.len() && funcs[ci].def_id == c && seen[ci]
}

fn visit(
    funcs: &Vec<FnEntry>,
    graph: &Vec<Vec<u64>>,
    d: usize,
    seen: &mut Vec<bool>,
    order: &mut Vec<u64>,
    Ghost(active): Ghost<Seq<int>>,
)
    requires
        funcs_wf(funcs@),
        graph_ok(funcs@, graph@),
        d < funcs@.len(),
        visit_inv(funcs@, graph@, old(seen)@, old(order)@, active),
        active.len() > 0 ==> calls(funcs@, graph@, active.last(), d as int),
    ensures
        visit_inv(funcs@, graph@, final(seen)@, final(order)@, active),
        final(seen)@[d as int],
        forall|i: int| 0 <= i < old(seen)@.len() && old(seen)@[i] ==> final(seen)@[i],
        forall|p: int| 0 <= p < old(order)@.len() ==> final(order)@[p] == old(order)@[p],
        final(order)@.len() >= old(order)@.len(),
        (final(seen)@, final(order)@) == visit_spec(
            funcs@,
            graph_seqs(graph@),
            unseen(old(seen)@) as nat,
            d as int,
            old(seen)@,
            old(order)@,
        ),
    decreases funcs@.len() - count_true(old(seen)@),
{
    let ghost g = graph_seqs(graph@);
    proof {
        lemma_graph_in_crate(funcs@, graph@);
    }
    if seen[d] {
        return;
    }
    let ghost f0 = unseen(seen@);
    proof {
        lemma_unseen_drop(seen@, d as int);
    }
    proof {
        lemma_count_true_set(seen@, d as int);
        lemma_count_true_bound(seen@.update(d as int, true));
        lemma_visit_enter(funcs@, graph@, seen@, order@, active, d as int);
    }
    seen.set(d, true);
    let ghost act2 = active.push(d as int);
    let ghost seen0 = seen@;
    let ghost order0 = order@;
    let callees = &graph[d];
    assert(g[d as int] == callees@);
    let mut k: usize = 0;
    while k < callees.len()
        invariant
            funcs_wf(funcs@),
            graph_ok(funcs@, graph@),
            d < funcs@.len(),
            *callees == graph@[d as int],
            k <= callees@.len(),
            act2 == active.push(d as int),
            visit_inv(funcs@, graph@, seen@, order@, act2),
            seen@.len() == seen0.len(),
            forall|i: int| 0 <= i < seen0.len() && seen0[i] ==> seen@[i],
            count_true(seen0) <= count_true(seen@),
            count_true(seen0) == count_true(old(seen)@) + 1,
            forall|p: int| 0 <= p < order0.len() ==> order@[p] == order0[p],
            order@.len() >= order0.len(),
            forall|kk: int| 0 <= kk < k ==> #[trigger] seen_callee(funcs@, seen@, callees@[kk]),
            g == graph_seqs(graph@),
            graph_in_crate(funcs@, g),
            g[d as int] == callees@,
            f0 >= 1,
            unseen(seen0) == f0 - 1,
            (seen@, order@) == callees_spec(funcs@, g, (f0 - 1) as nat, d as int, k as int, seen0, order0),
        decreases callees@.len() - k,
    {
        proof {
            lemma_count_true_bound(seen@);
        }
        let c = index_of(funcs, callees[k]);
        let ghost seen1 = seen@;
        let ghost order1 = order@;
        proof {
            lemma_fn_index(funcs@, g[d as int][k as int]);
            lemma_ids_distinct(funcs@, c as int, fn_index(funcs@, g[d as int][k as int]));
        }
        visit(funcs, graph, c, seen, order, Ghost(act2));
        proof {
            lemma_unseen_mono(seen0, seen1);
            lemma_visit_fuel(funcs@, g, (f0 - 1) as nat, unseen(seen1) as nat, c as int, seen1, order1);
            lemma_count_true_mono(seen1, seen@);
            assert forall|kk: int| 0 <= kk < k + 1 implies #[trigger] seen_callee(funcs@, seen@, callees@[kk]) by {
                if kk < k {
                    assert(seen_callee(funcs@, seen1, callees@[kk]));
                    let ci = choose|ci: int| 0 <= ci < funcs@.len() && funcs@[ci].def_id == callees@[kk] && seen1[ci];
                    assert(seen@[ci]);
                } else {
                    assert(seen@[c as int]);
                }
            }
        }
        k = k + 1;
    }
    proof {
        lemma_visit_leave(funcs@, graph@, seen@, order@, active, d as int);
        assert(seen0[d as int]);
        assert(seen@[d as int]);
        assert forall|i: int| 0 <= i < old(seen)@.len() && old(seen)@[i] implies seen@[i] by {
            assert(seen0[i]);
        }
    }
    order.push(funcs[d].def_id);
}

proof fn lemma_graph_in_crate(funcs: Seq<FnEntry>, graph: Seq<Vec<u64>>)
    requires
        graph_ok(funcs, graph),
    ensures
        graph_in_crate(funcs, graph_seqs(graph)),
{
    assert forall|i: int, k: int| 0 <= i < graph_seqs(graph).len() && 0 <= k < graph_seqs(graph)[i].len() implies fn_ids(funcs).contains(
        #[trigger] graph_seqs(graph)[i][k],
    ) by {
        assert(graph_seqs(graph)[i] == graph[i]@);
    }
}

/// The order in which the functions of the crate are summarized: a
/// depth-first walk of the call graph from each function in turn, listing a
/// function once all of its callees have been visited.
pub fn call_order(funcs: &Vec<FnEntry>, graph: &Vec<Vec<u64>>) -> (r: Vec<u64>)
    requires
        funcs_wf(funcs@),
        graph_ok(funcs@, graph@),
    ensures
        r@ == call_order_of(funcs@, graph_seqs(graph@)),
        r@.no_duplicates(),
        forall|p: int| 0 <= p < r@.len() ==> fn_ids(funcs@).contains(#[trigger] r@[p]),
        forall|i: int| 0 <= i < funcs@.len() ==> r@.contains(#[trigger] funcs@[i].def_id),
        forall|j: int, k: int|
            0 <= j < funcs@.len() && 0 <= k < graph@[j]@.len() ==> #[trigger] callee_first_or_cycle(
                funcs@,
                graph@,
                r@,
                j,
                k,
            ),
{
    let n = funcs.len();
    let mut seen: Vec<bool> = Vec::new();
    let mut z: usize = 0;
    while z < n
        invariant
            z <= n,
            n == funcs@.len(),
            seen@.len() == z,
            forall|i: int| 0 <= i < z ==> !seen@[i],
        decreases n - z,
    {
        seen.push(false);
        z = z + 1;
    }
    let mut order: Vec<u64> = Vec::new();
    let ghost empty = Seq::<int>::empty();
    assert(visit_inv(funcs@, graph@, seen@, order@, empty));
    assert(seen@ =~= order_upto(funcs@, graph_seqs(graph@), 0).0);
    let mut i: usize = 0;
    while i < n
        invariant
            i <= n,
            n == funcs@.len(),
            funcs_wf(funcs@),
            graph_ok(funcs@, graph@),
            visit_inv(funcs@, graph@, seen@, order@, empty),
            empty == Seq::<int>::empty(),
            forall|j: int| 0 <= j < i ==> seen@[j],
            (seen@, order@) == order_upto(funcs@, graph_seqs(graph@), i as int),
        decreases n - i,
    {
        visit(funcs, graph, i, &mut seen, &mut order, Ghost(empty));
        i = i + 1;
    }
    proof {
        assert forall|p: int| 0 <= p < order@.len() implies fn_ids(funcs@).contains(#[trigger] order@[p]) by {
            assert(listed_fn(funcs@, seen@, empty, order@[p]));
            let j = choose|j: int| 0 <= j < funcs@.len() && funcs@[j].def_id == order@[p] && seen@[j] && !empty.contains(j);
            assert(fn_ids(funcs@)[j] == order@[p]);
        }
        assert forall|j: int| 0 <= j < funcs@.len() implies order@.contains(#[trigger] funcs@[j].def_id) by {
            assert(seen@[j]);
            if empty.contains(j) {
                let t = choose|t: int| 0 <= t < empty.len() && empty[t] == j;
            }
        }
    }
    order
}

} // verus!

verus! {

/// The name the debug info gives local `i`: that of the last entry that
/// places a user variable exactly in `i`.
pub open spec fn debug_name(infos: Seq<VarDebugInfo>, i: int) -> Option<Seq<char>>
    decreases infos.len(),
{
    if infos.len() == 0 {
        None
    } else {
        match infos.last().place {
            Some(p) => if p.projection@.len() == 0 && p.local == i {
                Some(infos.last().name@)
            } else {
                debug_name(infos.drop_last(), i)
            },
            None => debug_name(infos.drop_last(), i),
        }
    }
}

/// The printable name of local `i`: its variable name, else `_i`.
pub open spec fn local_name(body: &Body, i: int) -> Seq<char> {
    match debug_name(body.var_debug_info@, i) {
        Some(n) => n,
        None => "_"@ + crate::text::dec(i as nat),
    }
}

/// The printable names of all locals.
pub fn local_names(body: &Body) -> (r: Vec<String>)
    requires
        body.wf(),
    ensures
        r@.len() == body.n_locals(),
        forall|i: int| 0 <= i < body.n_locals() ==> (#[trigger] r@[i])@ == local_name(body, i),
{
    let n = body.local_decls.len();
    let mut names: Vec<String> = Vec::new();
    let mut i: usize = 0;
    while i < n
        invariant
            i <= n,
            n == body.n_locals(),
            names@.len() == i,
            forall|j: int| 0 <= j < i ==> (#[trigger] names@[j])@ == "_"@ + crate::text::dec(j as nat),
        decreases n - i,
    {
        let d = crate::text::fmt_usize(i);
        let s = crate::text::wrap("_", &d, "");
        proof {
            reveal_strlit("");
            assert(s@ =~= "_"@ + crate::text::dec(i as nat));
        }
        names.push(s);
        i = i + 1;
    }
    let infos = &body.var_debug_info;
    let mut k: usize = 0;
    while k < infos.len()
        invariant
            k <= infos@.len(),
            *infos == body.var_debug_info,
            body.wf(),
            n == body.n_locals(),
            names@.len() == n,
            forall|j: int|
                0 <= j < n ==> (#[trigger] names@[j])@ == match debug_name(infos@.take(k as int), j) {
                    Some(nm) => nm,
                    None => "_"@ + crate::text::dec(j as nat),
                },
        decreases infos@.len() - k,
    {
        let ghost before = infos@.take(k as int);
        assert(infos@.take(k + 1).drop_last() =~= before);
        if let Some(p) = &infos[k].place {
            if p.projection.len() == 0 {
                assert(crate::mir::place_ok(*p, body.n_locals()));
                names.set(p.local, infos[k].name.clone());
            }
        }
        k = k + 1;
    }
    proof {
        assert(infos@.take(infos@.len() as int) =~= infos@);
    }
    names
}

} // verus!
