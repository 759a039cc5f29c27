//! The execution order over committed instances.
//!
//! Committed, unexecuted instances form a graph: one instance depends on
//! another when its final dependency vector covers the other's id. An
//! instance is eligible only when everything it transitively depends on
//! can be executed past: every covered instance, known or not yet
//! received, must be stored here and committed or already executed. The
//! executor orders the eligible instances by a deterministic key: first
//! the number of instances reachable through dependencies (dependencies
//! reach fewer instances than their dependents, and the members of a
//! cycle reach the same set), then the instance id. The key is a
//! function of the committed graph alone, so every replica holding the
//! same committed instances executes them in the same order.

use vstd::prelude::*;

use crate::command::CommandView;
use crate::command::OpCode;
use crate::deps::dep_at;
use crate::deps::dep_contains;
use crate::deps::iids_wf;
use crate::deps::InstanceIdVec;
use crate::engine::it_contains;
use crate::engine::it_map;
use crate::engine::it_sorted;
use crate::engine::lemma_it_unique;
use crate::engine::DBColumnFamily;
use crate::engine::InstPair;
use crate::engine::MemEngine;
use crate::ids::iid_lt;
use crate::ids::InstanceId;
use crate::instance::inst_wf;
use crate::instance::InstanceView;

verus! {

/// One node of the execution graph: a committed instance's id and its
/// final dependency vector.
pub struct ExecNode {
    pub iid: InstanceId,
    pub deps: InstanceIdVec,
}

/// The mathematical value of a node.
pub struct ExecNodeView {
    pub iid: InstanceId,
    pub deps: Seq<InstanceId>,
}

impl View for ExecNode {
    type V = ExecNodeView;

    open spec fn view(&self) -> ExecNodeView {
        ExecNodeView { iid: self.iid, deps: self.deps@ }
    }
}

impl DeepView for ExecNode {
    type V = ExecNodeView;

    open spec fn deep_view(&self) -> ExecNodeView {
        self@
    }
}

/// Well-formedness of a graph: dependency vectors name each replica at
/// most once, and node ids are distinct.
pub open spec fn graph_wf(g: Seq<ExecNodeView>) -> bool {
    &&& forall|i: int| 0 <= i < g.len() ==> iids_wf(#[trigger] g[i].deps)
    &&& forall|i: int, j: int| 0 <= i < j < g.len() ==> #[trigger] g[i].iid != #[trigger] g[j].iid
}

/// Node `i` depends on node `j`: `i`'s dependency vector records, for
/// `j`'s replica, an index at or above `j`'s.
pub open spec fn edge(g: Seq<ExecNodeView>, i: int, j: int) -> bool {
    &&& 0 <= i < g.len()
    &&& 0 <= j < g.len()
    &&& dep_contains(g[i].deps, g[j].iid.replica_id as int)
    &&& dep_at(g[i].deps, g[j].iid.replica_id as int) >= g[j].iid.idx as int
}

/// The membership vector holding node `i` alone.
pub open spec fn unitb(n: int, i: int) -> Seq<bool> {
    Seq::new(n as nat, |j: int| j == i)
}

/// One expansion step: a node joins when it is in, or some member
/// depends on it.
pub open spec fn stepb(g: Seq<ExecNodeView>, s: Seq<bool>) -> Seq<bool> {
    Seq::new(
        g.len(),
        |j: int| s[j] || exists|i: int| 0 <= i < g.len() && s[i] && #[trigger] edge(g, i, j),
    )
}

/// The expansion step applied `k` times.
pub open spec fn iterb(g: Seq<ExecNodeView>, s: Seq<bool>, k: nat) -> Seq<bool>
    decreases k,
{
    if k == 0 {
        s
    } else {
        iterb(g, stepb(g, s), (k - 1) as nat)
    }
}

/// The membership vector of everything node `i` reaches through
/// dependencies, closed within `g.len()` steps.
pub open spec fn reachb(g: Seq<ExecNodeView>, i: int) -> Seq<bool> {
    iterb(g, unitb(g.len() as int, i), g.len())
}

/// The number of members of a membership vector.
pub open spec fn countb(s: Seq<bool>) -> int
    decreases s.len(),
{
    if s.len() == 0 {
        0
    } else {
        countb(s.drop_last()) + if s.last() {
            1int
        } else {
            0int
        }
    }
}

/// The execution key order: fewer reachable instances first, the node
/// position (equivalently, the instance id of a sorted graph) breaking
/// ties.
pub open spec fn key_lt(g: Seq<ExecNodeView>, i: int, j: int) -> bool {
    countb(reachb(g, i)) < countb(reachb(g, j)) || (countb(reachb(g, i)) == countb(reachb(g, j))
        && i < j)
}

/// Node `i` is eligible when nothing it reaches is blocked.
pub open spec fn eligible(g: Seq<ExecNodeView>, dbl: Seq<bool>, i: int) -> bool {
    &&& 0 <= i < g.len()
    &&& forall|j: int| 0 <= j < g.len() && reachb(g, i)[j] ==> !dbl[j]
}

/// A membership count never exceeds the vector's length.
proof fn lemma_countb_bound(s: Seq<bool>)
    ensures
        0 <= countb(s) <= s.len(),
    decreases s.len(),
{
    if s.len() > 0 {
        lemma_countb_bound(s.drop_last());
    }
}

/// Applying the step inside or outside the iteration is the same.
proof fn lemma_iterb_step(g: Seq<ExecNodeView>, s: Seq<bool>, k: nat)
    ensures
        iterb(g, stepb(g, s), k) == stepb(g, iterb(g, s, k)),
    decreases k,
{
    if k > 0 {
        lemma_iterb_step(g, stepb(g, s), (k - 1) as nat);
    }
}

/// Whether node `i` of `g` depends on node `j`.
fn edge_exec(g: &Vec<ExecNode>, i: usize, j: usize) -> (b: bool)
    requires
        graph_wf(g.deep_view()),
        i < g@.len(),
        j < g@.len(),
    ensures
        b == edge(g.deep_view(), i as int, j as int),
{
    let target = g[j].iid;
    match g[i].deps.get(target.replica_id) {
        Some(d) => d.idx >= target.idx,
        None => false,
    }
}

/// One expansion step over the membership vector.
fn step_exec(g: &Vec<ExecNode>, s: &Vec<bool>) -> (r: Vec<bool>)
    requires
        graph_wf(g.deep_view()),
        s@.len() == g@.len(),
    ensures
        r@ == stepb(g.deep_view(), s@),
{
    let ghost gv = g.deep_view();
    let n = g.len();
    let mut r: Vec<bool> = Vec::new();
    let mut j: usize = 0;
    while j < n
        invariant
            graph_wf(gv),
            gv == g.deep_view(),
            n == gv.len(),
            s@.len() == n,
            0 <= j <= n,
            r@.len() == j,
            forall|x: int| 0 <= x < j ==> #[trigger] r@[x] == stepb(gv, s@)[x],
        decreases n - j,
    {
        let mut hit = s[j];
        let mut i: usize = 0;
        while i < n && !hit
            invariant
                graph_wf(gv),
                gv == g.deep_view(),
                n == gv.len(),
                s@.len() == n,
                0 <= i <= n,
                j < n,
                hit ==> s@[j as int] || exists|x: int|
                    0 <= x < n && s@[x] && #[trigger] edge(gv, x, j as int),
                !hit ==> !s@[j as int] && forall|x: int|
                    0 <= x < i ==> !(s@[x] && #[trigger] edge(gv, x, j as int)),
            decreases n - i,
        {
            if s[i] && edge_exec(g, i, j) {
                hit = true;
            }
            i += 1;
        }
        proof {
            if hit {
                assert(stepb(gv, s@)[j as int]);
            } else {
                assert(!(exists|x: int|
                    0 <= x < gv.len() && s@[x] && #[trigger] edge(gv, x, j as int)));
                assert(!stepb(gv, s@)[j as int]);
            }
        }
        r.push(hit);
        j += 1;
    }
    proof {
        assert(r@ =~= stepb(gv, s@));
    }
    r
}

/// The membership vector of everything node `i` reaches.
fn compute_reach(g: &Vec<ExecNode>, i: usize) -> (r: Vec<bool>)
    requires
        graph_wf(g.deep_view()),
        i < g@.len(),
    ensures
        r@ == reachb(g.deep_view(), i as int),
        r@.len() == g@.len(),
{
    let ghost gv = g.deep_view();
    let n = g.len();
    let mut s: Vec<bool> = Vec::new();
    let mut j: usize = 0;
    while j < n
        invariant
            0 <= j <= n,
            s@.len() == j,
            forall|x: int| 0 <= x < j ==> #[trigger] s@[x] == (x == i as int),
        decreases n - j,
    {
        s.push(j == i);
        j += 1;
    }
    proof {
        assert(s@ =~= unitb(n as int, i as int));
    }
    let mut k: usize = 0;
    while k < n
        invariant
            graph_wf(gv),
            gv == g.deep_view(),
            n == gv.len(),
            i < n,
            0 <= k <= n,
            s@ == iterb(gv, unitb(n as int, i as int), k as nat),
            s@.len() == n,
        decreases n - k,
    {
        proof {
            lemma_iterb_step(gv, unitb(n as int, i as int), k as nat);
        }
        let ns = step_exec(g, &s);
        s = ns;
        proof {
            assert(stepb(gv, s@).len() == n || true);
        }
        k += 1;
    }
    s
}

/// The number of members of a membership vector.
fn count_true(s: &Vec<bool>) -> (c: usize)
    ensures
        c == countb(s@),
{
    let n = s.len();
    let mut c: usize = 0;
    let mut k: usize = 0;
    while k < n
        invariant
            n == s@.len(),
            0 <= k <= n,
            c <= k,
            c == countb(s@.take(k as int)),
        decreases n - k,
    {
        proof {
            assert(s@.take(k as int + 1).drop_last() =~= s@.take(k as int));
            assert(s@.take(k as int + 1).last() == s@[k as int]);
        }
        if s[k] {
            c += 1;
        }
        k += 1;
    }
    proof {
        assert(s@.take(n as int) =~= s@);
    }
    c
}

/// Orders the eligible nodes of a graph by the execution key: reach
/// count first, node position breaking ties. The result holds exactly
/// the eligible node positions, in strictly ascending key order; it is
/// the unique such sequence.
pub fn exec_order(g: &Vec<ExecNode>, dbl: &Vec<bool>) -> (out: Vec<usize>)
    requires
        graph_wf(g.deep_view()),
        dbl@.len() == g@.len(),
        g@.len() < usize::MAX,
    ensures
        forall|t: int| 0 <= t < out@.len() ==> eligible(g.deep_view(), dbl@, #[trigger] out@[t] as int),
        forall|j: int|
            eligible(g.deep_view(), dbl@, j) ==> exists|t: int|
                0 <= t < out@.len() && #[trigger] out@[t] as int == j,
        forall|a: int, b: int|
            0 <= a < b < out@.len() ==> key_lt(g.deep_view(), #[trigger] out@[a] as int, #[trigger] out@[b] as int),
{
    let ghost gv = g.deep_view();
    let n = g.len();
    // per-node reach counts and eligibility
    let mut cnt: Vec<usize> = Vec::new();
    let mut elig: Vec<bool> = Vec::new();
    let mut i: usize = 0;
    while i < n
        invariant
            graph_wf(gv),
            gv == g.deep_view(),
            n == gv.len(),
            dbl@.len() == n,
            0 <= i <= n,
            cnt@.len() == i,
            elig@.len() == i,
            forall|x: int| 0 <= x < i ==> #[trigger] cnt@[x] as int == countb(reachb(gv, x)),
            forall|x: int| 0 <= x < i ==> #[trigger] elig@[x] == eligible(gv, dbl@, x),
        decreases n - i,
    {
        let r = compute_reach(g, i);
        proof {
            lemma_countb_bound(r@);
        }
        let c = count_true(&r);
        let mut ok = true;
        let mut j: usize = 0;
        while j < n
            invariant
                n == gv.len(),
                i < n,
                r@ == reachb(gv, i as int),
                r@.len() == n,
                dbl@.len() == n,
                0 <= j <= n,
                ok == (forall|y: int| 0 <= y < j && r@[y] ==> !(#[trigger] dbl@[y])),
            decreases n - j,
        {
            if r[j] && dbl[j] {
                ok = false;
                proof {
                    assert(r@[j as int] && dbl@[j as int]);
                }
            }
            j += 1;
        }
        cnt.push(c);
        elig.push(ok);
        proof {
            assert(elig@[i as int] == eligible(gv, dbl@, i as int));
        }
        i += 1;
    }
    // bucket by count, node position breaking ties inside one count
    proof {
        assert forall|x: int| 0 <= x < n implies countb(#[trigger] reachb(gv, x)) >= 0 by {
            lemma_countb_bound(reachb(gv, x));
        }
    }
    let mut out: Vec<usize> = Vec::new();
    let mut c: usize = 0;
    while c <= n
        invariant
            graph_wf(gv),
            gv == g.deep_view(),
            n == gv.len(),
            n < usize::MAX,
            forall|x: int| 0 <= x < n ==> countb(#[trigger] reachb(gv, x)) >= 0,
            dbl@.len() == n,
            cnt@.len() == n,
            elig@.len() == n,
            forall|x: int| 0 <= x < n ==> #[trigger] cnt@[x] as int == countb(reachb(gv, x)),
            forall|x: int| 0 <= x < n ==> #[trigger] elig@[x] == eligible(gv, dbl@, x),
            0 <= c <= n + 1,
            forall|t: int| 0 <= t < out@.len() ==> eligible(gv, dbl@, #[trigger] out@[t] as int),
            forall|t: int|
                0 <= t < out@.len() ==> countb(reachb(gv, #[trigger] out@[t] as int)) < c,
            forall|j: int|
                0 <= j < n && eligible(gv, dbl@, j) && countb(reachb(gv, j)) < c ==> exists|t: int|
                    0 <= t < out@.len() && #[trigger] out@[t] as int == j,
            forall|a: int, b: int|
                0 <= a < b < out@.len() ==> key_lt(gv, #[trigger] out@[a] as int, #[trigger] out@[b] as int),
        decreases n + 1 - c,
    {
        let mut j: usize = 0;
        while j < n
            invariant
                graph_wf(gv),
                gv == g.deep_view(),
                n == gv.len(),
                forall|x: int| 0 <= x < n ==> countb(#[trigger] reachb(gv, x)) >= 0,
                dbl@.len() == n,
                cnt@.len() == n,
                elig@.len() == n,
                forall|x: int| 0 <= x < n ==> #[trigger] cnt@[x] as int == countb(reachb(gv, x)),
                forall|x: int| 0 <= x < n ==> #[trigger] elig@[x] == eligible(gv, dbl@, x),
                c <= n,
                0 <= j <= n,
                forall|t: int| 0 <= t < out@.len() ==> eligible(gv, dbl@, #[trigger] out@[t] as int),
                forall|t: int|
                    0 <= t < out@.len() ==> countb(reachb(gv, #[trigger] out@[t] as int)) < c || (
                    countb(reachb(gv, out@[t] as int)) == c && out@[t] < j),
                forall|x: int|
                    0 <= x < n && eligible(gv, dbl@, x) && (countb(reachb(gv, x)) < c || (countb(
                        reachb(gv, x),
                    ) == c && x < j)) ==> exists|t: int|
                        0 <= t < out@.len() && #[trigger] out@[t] as int == x,
                forall|a: int, b: int|
                    0 <= a < b < out@.len() ==> key_lt(gv, #[trigger] out@[a] as int, #[trigger] out@[b] as int),
            decreases n - j,
        {
            if elig[j] && cnt[j] == c {
                proof {
                    assert forall|t: int| 0 <= t < out@.len() implies key_lt(
                        gv,
                        out@[t] as int,
                        j as int,
                    ) by {
                        assert(countb(reachb(gv, out@[t] as int)) < c || (countb(
                            reachb(gv, out@[t] as int),
                        ) == c && out@[t] < j));
                    }
                }
                let ghost pre = out@;
                out.push(j);
                proof {
                    assert(out@ == pre.push(j as usize));
                    assert(out@[out@.len() - 1] as int == j as int);
                    assert forall|x: int|
                        0 <= x < n && eligible(gv, dbl@, x) && (countb(reachb(gv, x)) < c || (
                        countb(reachb(gv, x)) == c && x < j + 1)) implies exists|t: int|
                        0 <= t < out@.len() && #[trigger] out@[t] as int == x by {
                        if x == j as int {
                            assert(out@[out@.len() - 1] as int == x);
                        } else {
                            assert(eligible(gv, dbl@, x) && (countb(reachb(gv, x)) < c || (countb(
                                reachb(gv, x),
                            ) == c && x < j)));
                            let t = choose|t: int|
                                0 <= t < pre.len() && #[trigger] pre[t] as int == x;
                            assert(out@[t] as int == x);
                        }
                    }
                }
            } else {
                proof {
                    assert forall|x: int|
                        0 <= x < n && eligible(gv, dbl@, x) && (countb(reachb(gv, x)) < c || (
                        countb(reachb(gv, x)) == c && x < j + 1)) implies exists|t: int|
                        0 <= t < out@.len() && #[trigger] out@[t] as int == x by {
                        if x == j as int {
                            assert(elig@[x] == eligible(gv, dbl@, x));
                            assert(cnt@[x] as int == countb(reachb(gv, x)));
                            assert(!(countb(reachb(gv, x)) == c));
                        } else {
                            assert(eligible(gv, dbl@, x) && (countb(reachb(gv, x)) < c || (countb(
                                reachb(gv, x),
                            ) == c && x < j)));
                        }
                    }
                }
            }
            j += 1;
        }
        c += 1;
    }
    proof {
        assert forall|j: int| eligible(gv, dbl@, j) implies exists|t: int|
            0 <= t < out@.len() && #[trigger] out@[t] as int == j by {
            lemma_countb_bound(reachb(gv, j));
            assert(reachb(gv, j).len() == n) by {
                lemma_iterb_len(gv, unitb(n as int, j), gv.len());
            }
            assert(countb(reachb(gv, j)) < n + 1);
        }
    }
    out
}

/// The iteration keeps the vector's length.
proof fn lemma_iterb_len(g: Seq<ExecNodeView>, s: Seq<bool>, k: nat)
    requires
        s.len() == g.len(),
    ensures
        iterb(g, s, k).len() == g.len(),
    decreases k,
{
    if k > 0 {
        lemma_iterb_step(g, s, (k - 1) as nat);
        lemma_iterb_len(g, s, (k - 1) as nat);
    }
}

/// The execution key order is antisymmetric: two nodes neither of which
/// is below the other are the same node.
proof fn lemma_key_antisymmetric(g: Seq<ExecNodeView>, i: int, j: int)
    requires
        !key_lt(g, i, j),
        !key_lt(g, j, i),
    ensures
        i == j,
{
}

/// The execution order is unique: two sequences that hold the same node
/// positions, each strictly ascending in the execution key, are equal.
/// Every replica holding the same committed graph therefore executes its
/// instances, conflicting ones included, in the same order.
pub proof fn lemma_exec_order_deterministic(g: Seq<ExecNodeView>, out1: Seq<usize>, out2: Seq<usize>)
    requires
        forall|a: int, b: int|
            0 <= a < b < out1.len() ==> key_lt(g, #[trigger] out1[a] as int, #[trigger] out1[b] as int),
        forall|a: int, b: int|
            0 <= a < b < out2.len() ==> key_lt(g, #[trigger] out2[a] as int, #[trigger] out2[b] as int),
        forall|x: usize| out1.contains(x) <==> out2.contains(x),
    ensures
        out1 == out2,
    decreases out1.len(),
{
    if out1.len() == 0 {
        if out2.len() > 0 {
            assert(out2.contains(out2[0]));
            assert(out1.contains(out2[0]));
        }
        assert(out1 =~= out2);
    } else {
        assert(out1.contains(out1[0]));
        assert(out2.contains(out1[0]));
        assert(out2.len() > 0);
        assert(out2.contains(out2[0]));
        assert(out1.contains(out2[0]));
        let p = choose|p: int| 0 <= p < out2.len() && out2[p] == out1[0];
        let q = choose|q: int| 0 <= q < out1.len() && out1[q] == out2[0];
        assert(!key_lt(g, out2[0] as int, out1[0] as int) ==> !key_lt(
            g,
            out1[0] as int,
            out2[0] as int,
        ) ==> out1[0] == out2[0]) by {
            if !key_lt(g, out2[0] as int, out1[0] as int) && !key_lt(
                g,
                out1[0] as int,
                out2[0] as int,
            ) {
                lemma_key_antisymmetric(g, out1[0] as int, out2[0] as int);
            }
        }
        if out1[0] != out2[0] {
            assert(p > 0 || q > 0);
            if p > 0 {
                assert(key_lt(g, out2[0] as int, out2[p] as int));
            }
            if q > 0 {
                assert(key_lt(g, out1[0] as int, out1[q] as int));
            }
            if p == 0 {
                assert(out2[0] == out1[0]);
            }
            if q == 0 {
                assert(out1[0] == out2[0]);
            }
            assert(p > 0 && q > 0);
            assert(key_lt(g, out2[0] as int, out1[0] as int));
            assert(key_lt(g, out1[0] as int, out2[0] as int));
            assert(false);
        }
        let t1 = out1.drop_first();
        let t2 = out2.drop_first();
        assert forall|a: int, b: int| 0 <= a < b < t1.len() implies key_lt(
            g,
            #[trigger] t1[a] as int,
            #[trigger] t1[b] as int,
        ) by {
            assert(t1[a] == out1[a + 1] && t1[b] == out1[b + 1]);
        }
        assert forall|a: int, b: int| 0 <= a < b < t2.len() implies key_lt(
            g,
            #[trigger] t2[a] as int,
            #[trigger] t2[b] as int,
        ) by {
            assert(t2[a] == out2[a + 1] && t2[b] == out2[b + 1]);
        }
        assert forall|x: usize| t1.contains(x) == t2.contains(x) by {
            lemma_tail_membership(g, out1, x);
            lemma_tail_membership(g, out2, x);
            assert(out1.contains(x) == out2.contains(x));
            assert(out1[0] == out2[0]);
        }
        lemma_exec_order_deterministic(g, t1, t2);
        assert(out1.len() == out2.len());
        assert forall|i: int| 0 <= i < out1.len() implies out1[i] == out2[i] by {
            if i > 0 {
                assert(t1[i - 1] == t2[i - 1]);
            }
        }
        assert(out1 =~= out2);
    }
}

/// Replicas agree on execution: two executions over the same committed
/// graph and the same blocked vector run the same instances in the same
/// order, so any two conflicting committed commands execute in the same
/// order on every replica.
pub proof fn lemma_execution_agrees(
    g: Seq<ExecNodeView>,
    dbl: Seq<bool>,
    out1: Seq<usize>,
    out2: Seq<usize>,
    ids1: Seq<InstanceId>,
    ids2: Seq<InstanceId>,
)
    requires
        out1.len() == ids1.len(),
        out2.len() == ids2.len(),
        forall|t: int| 0 <= t < out1.len() ==> #[trigger] ids1[t] == g[out1[t] as int].iid,
        forall|t: int| 0 <= t < out2.len() ==> #[trigger] ids2[t] == g[out2[t] as int].iid,
        forall|t: int| 0 <= t < out1.len() ==> eligible(g, dbl, #[trigger] out1[t] as int),
        forall|t: int| 0 <= t < out2.len() ==> eligible(g, dbl, #[trigger] out2[t] as int),
        forall|j: int|
            eligible(g, dbl, j) ==> exists|t: int| 0 <= t < out1.len() && #[trigger] out1[t] as int
                == j,
        forall|j: int|
            eligible(g, dbl, j) ==> exists|t: int| 0 <= t < out2.len() && #[trigger] out2[t] as int
                == j,
        forall|a: int, b: int|
            0 <= a < b < out1.len() ==> key_lt(g, #[trigger] out1[a] as int, #[trigger] out1[b] as int),
        forall|a: int, b: int|
            0 <= a < b < out2.len() ==> key_lt(g, #[trigger] out2[a] as int, #[trigger] out2[b] as int),
    ensures
        out1 == out2,
        ids1 == ids2,
{
    assert forall|x: usize| out1.contains(x) == out2.contains(x) by {
        if out1.contains(x) {
            let t = choose|t: int| 0 <= t < out1.len() && out1[t] == x;
            assert(eligible(g, dbl, out1[t] as int));
            let t2 = choose|t2: int| 0 <= t2 < out2.len() && #[trigger] out2[t2] as int == x as int;
            assert(out2[t2] == x);
        }
        if out2.contains(x) {
            let t = choose|t: int| 0 <= t < out2.len() && out2[t] == x;
            assert(eligible(g, dbl, out2[t] as int));
            let t1 = choose|t1: int| 0 <= t1 < out1.len() && #[trigger] out1[t1] as int == x as int;
            assert(out1[t1] == x);
        }
    }
    lemma_exec_order_deterministic(g, out1, out2);
    assert forall|t: int| 0 <= t < ids1.len() implies ids1[t] == ids2[t] by {
        assert(out1[t] == out2[t]);
    }
    assert(ids1 =~= ids2);
}

/// An element of a strictly ascending sequence sits in the tail exactly
/// when it is in the sequence and is not the head.
proof fn lemma_tail_membership(g: Seq<ExecNodeView>, out: Seq<usize>, x: usize)
    requires
        out.len() > 0,
        forall|a: int, b: int|
            0 <= a < b < out.len() ==> key_lt(g, #[trigger] out[a] as int, #[trigger] out[b] as int),
    ensures
        out.drop_first().contains(x) <==> (out.contains(x) && x != out[0]),
{
    let t = out.drop_first();
    if t.contains(x) {
        let p = choose|p: int| 0 <= p < t.len() && t[p] == x;
        assert(out[p + 1] == x);
        assert(out.contains(x));
        assert(key_lt(g, out[0] as int, out[p + 1] as int));
        if x == out[0] {
            lemma_key_antisymmetric(g, out[0] as int, out[p + 1] as int);
            assert(false);
        }
    }
    if out.contains(x) && x != out[0] {
        let p = choose|p: int| 0 <= p < out.len() && out[p] == x;
        assert(p > 0);
        assert(t[p - 1] == x);
        assert(t.contains(x));
    }
}


/// Whether an instance takes part in execution: committed, not yet
/// executed, final dependencies known.
pub open spec fn candidate(v: InstanceView) -> bool {
    v.committed && !v.executed && v.final_deps is Some
}

/// The execution graph of an instance table: one node per candidate, in
/// table order.
pub open spec fn candidates(s: Seq<InstPair>) -> Seq<ExecNodeView>
    decreases s.len(),
{
    if s.len() == 0 {
        Seq::<ExecNodeView>::empty()
    } else {
        let rest = candidates(s.drop_last());
        if candidate(s.last().inst@) {
            rest.push(
                ExecNodeView { iid: s.last().iid, deps: s.last().inst@.final_deps->Some_0 },
            )
        } else {
            rest
        }
    }
}

/// A dependency is satisfied on this replica when the instance is stored
/// and already committed or executed.
pub open spec fn dep_satisfied(store: Map<InstanceId, InstanceView>, w: InstanceId) -> bool {
    store.dom().contains(w) && (store[w].committed || store[w].executed)
}

/// A dependency vector is blocked when it covers an instance the replica
/// cannot yet execute past: some id at or below a recorded index (the
/// zero sentinel aside) is absent from the log, or present but neither
/// committed nor executed.
pub open spec fn blocked_by_store(
    store: Map<InstanceId, InstanceView>,
    deps: Seq<InstanceId>,
) -> bool {
    exists|w: InstanceId|
        #![trigger dep_satisfied(store, w)]
        w.idx >= 1 && dep_contains(deps, w.replica_id as int) && w.idx as int <= dep_at(
            deps,
            w.replica_id as int,
        ) && !dep_satisfied(store, w)
}

/// The blocked vector of a graph against a log.
pub open spec fn blocked_of(
    store: Map<InstanceId, InstanceView>,
    g: Seq<ExecNodeView>,
) -> Seq<bool> {
    Seq::new(g.len(), |i: int| blocked_by_store(store, g[i].deps))
}

/// The log after marking a sequence of instances executed, in order.
pub open spec fn mark_executed(
    m: Map<InstanceId, InstanceView>,
    ids: Seq<InstanceId>,
) -> Map<InstanceId, InstanceView>
    decreases ids.len(),
{
    if ids.len() == 0 {
        m
    } else {
        let m2 = mark_executed(m, ids.drop_last());
        m2.insert(ids.last(), InstanceView { executed: true, ..m2[ids.last()] })
    }
}

/// One command applied to the user-visible keyspace: a write stores its
/// value, everything else reads only.
pub open spec fn apply_cmd(d: Map<Seq<u8>, Seq<u8>>, c: CommandView) -> Map<Seq<u8>, Seq<u8>> {
    if c.op == OpCode::Put {
        d.insert(c.key, c.value)
    } else {
        d
    }
}

/// A command batch applied in order.
pub open spec fn apply_cmds(d: Map<Seq<u8>, Seq<u8>>, cs: Seq<CommandView>) -> Map<Seq<u8>, Seq<u8>>
    decreases cs.len(),
{
    if cs.len() == 0 {
        d
    } else {
        apply_cmd(apply_cmds(d, cs.drop_last()), cs.last())
    }
}

/// The command batches of a sequence of instances applied in order.
pub open spec fn apply_insts(
    store: Map<InstanceId, InstanceView>,
    d: Map<Seq<u8>, Seq<u8>>,
    ids: Seq<InstanceId>,
) -> Map<Seq<u8>, Seq<u8>>
    decreases ids.len(),
{
    if ids.len() == 0 {
        d
    } else {
        apply_cmds(apply_insts(store, d, ids.drop_last()), store[ids.last()].cmds)
    }
}

/// Marking instances executed touches no other id and changes nothing
/// but the executed flag.
proof fn lemma_mark_untouched(m: Map<InstanceId, InstanceView>, ids: Seq<InstanceId>, x: InstanceId)
    requires
        !ids.contains(x),
    ensures
        mark_executed(m, ids).dom().contains(x) == m.dom().contains(x),
        m.dom().contains(x) ==> mark_executed(m, ids)[x] == m[x],
    decreases ids.len(),
{
    if ids.len() > 0 {
        assert(ids.last() != x) by {
            assert(ids[ids.len() - 1] == ids.last());
        }
        assert(!ids.drop_last().contains(x)) by {
            if ids.drop_last().contains(x) {
                let t = choose|t: int| 0 <= t < ids.drop_last().len() && ids.drop_last()[t] == x;
                assert(ids[t] == x);
            }
        }
        lemma_mark_untouched(m, ids.drop_last(), x);
    }
}

/// The candidates of a sorted table lie in the table, with the table's
/// value.
proof fn lemma_candidates_in_store(s: Seq<InstPair>, t: int)
    requires
        it_sorted(s),
        0 <= t < candidates(s).len(),
    ensures
        it_map(s).dom().contains(candidates(s)[t].iid),
        candidate(it_map(s)[candidates(s)[t].iid]),
        it_map(s)[candidates(s)[t].iid].final_deps == Some(candidates(s)[t].deps),
    decreases s.len(),
{
    if s.len() > 0 {
        let rest = candidates(s.drop_last());
        assert(it_sorted(s.drop_last())) by {
            assert(forall|i: int|
                0 <= i < s.drop_last().len() ==> #[trigger] s.drop_last()[i] == s[i]);
        }
        if candidate(s.last().inst@) && t == candidates(s).len() - 1 {
            lemma_it_unique(s, s.len() - 1);
        } else {
            lemma_candidates_in_store(s.drop_last(), t);
            let iid = candidates(s.drop_last())[t].iid;
            let i = choose|i: int|
                0 <= i < s.drop_last().len() && #[trigger] s.drop_last()[i].iid == iid;
            assert(s[i].iid == iid);
            lemma_it_unique(s.drop_last(), i);
            lemma_it_unique(s, i);
        }
    }
}

/// The candidates of a sorted table keep the table's strict id order.
proof fn lemma_candidates_sorted(s: Seq<InstPair>)
    requires
        it_sorted(s),
    ensures
        forall|a: int, b: int|
            0 <= a < b < candidates(s).len() ==> iid_lt(
                #[trigger] candidates(s)[a].iid,
                #[trigger] candidates(s)[b].iid,
            ),
    decreases s.len(),
{
    if s.len() > 0 {
        assert(it_sorted(s.drop_last())) by {
            assert(forall|i: int|
                0 <= i < s.drop_last().len() ==> #[trigger] s.drop_last()[i] == s[i]);
        }
        lemma_candidates_sorted(s.drop_last());
        if candidate(s.last().inst@) {
            assert forall|a: int, b: int| 0 <= a < b < candidates(s).len() implies iid_lt(
                #[trigger] candidates(s)[a].iid,
                #[trigger] candidates(s)[b].iid,
            ) by {
                if b == candidates(s).len() - 1 {
                    assert(candidates(s)[a] == candidates(s.drop_last())[a]);
                    lemma_candidates_in_store(s.drop_last(), a);
                    assert(it_contains(s.drop_last(), candidates(s.drop_last())[a].iid));
                    let e = choose|e: int|
                        0 <= e < s.drop_last().len() && #[trigger] s.drop_last()[e].iid
                            == candidates(s.drop_last())[a].iid;
                    assert(s.drop_last()[e] == s[e]);
                    assert(iid_lt(s[e].iid, s[s.len() - 1].iid));
                    assert(candidates(s)[b].iid == s[s.len() - 1].iid);
                } else {
                    assert(candidates(s)[a] == candidates(s.drop_last())[a]);
                    assert(candidates(s)[b] == candidates(s.drop_last())[b]);
                }
            }
        }
    }
}

/// A table never yields more candidates than entries.
proof fn lemma_candidates_len(s: Seq<InstPair>)
    ensures
        candidates(s).len() <= s.len(),
    decreases s.len(),
{
    if s.len() > 0 {
        lemma_candidates_len(s.drop_last());
    }
}

/// Marking stored instances executed keeps the log well-formed: only the
/// executed flag moves.
proof fn lemma_mark_wf(m: Map<InstanceId, InstanceView>, ids: Seq<InstanceId>)
    requires
        forall|y: InstanceId| m.dom().contains(y) ==> inst_wf(#[trigger] m[y]),
        forall|t: int| 0 <= t < ids.len() ==> m.dom().contains(#[trigger] ids[t]),
    ensures
        mark_executed(m, ids).dom() =~= m.dom(),
        forall|y: InstanceId|
            mark_executed(m, ids).dom().contains(y) ==> inst_wf(#[trigger] mark_executed(m, ids)[y]),
    decreases ids.len(),
{
    if ids.len() > 0 {
        assert(forall|t: int| 0 <= t < ids.drop_last().len() ==> #[trigger] ids.drop_last()[t] == ids[t]);
        lemma_mark_wf(m, ids.drop_last());
        let m2 = mark_executed(m, ids.drop_last());
        assert(ids[ids.len() - 1] == ids.last());
        assert(m2.dom().contains(ids.last()));
        assert(inst_wf(m2[ids.last()]));
        assert(inst_wf(InstanceView { executed: true, ..m2[ids.last()] }));
    }
}

/// Whether every covered index of one replica, from one up to the
/// recorded bound, is stored here and committed or executed.
fn covered_ok(eng: &MemEngine, rid: i64, bound: i64) -> (b: bool)
    requires
        eng.wf(),
        bound >= 1,
    ensures
        b == (forall|j: i64|
            1 <= j <= bound ==> dep_satisfied(
                eng.inst_view(),
                InstanceId { replica_id: rid, idx: j },
            )),
{
    let ghost es = eng.insts.entries@;
    let n = eng.insts.entries.len();
    let mut expected: i64 = 1;
    let mut t: usize = 0;
    while t < n
        invariant
            eng.wf(),
            es == eng.insts.entries@,
            n == es.len(),
            bound >= 1,
            1 <= expected <= bound,
            0 <= t <= n,
            forall|j: i64|
                1 <= j < expected ==> dep_satisfied(
                    eng.inst_view(),
                    InstanceId { replica_id: rid, idx: j },
                ),
            forall|e: int|
                0 <= e < t && (#[trigger] es[e]).iid.replica_id == rid ==> es[e].iid.idx
                    < expected,
        decreases n - t,
    {
        let ent = &eng.insts.entries[t];
        if ent.iid.replica_id == rid {
            if ent.iid.idx > expected {
                // the expected index is absent: scanned entries of this
                // replica sit below it, later ones at or above this one
                proof {
                    let w = InstanceId { replica_id: rid, idx: expected };
                    assert(!dep_satisfied(eng.inst_view(), w)) by {
                        if eng.inst_view().dom().contains(w) {
                            let e = choose|e: int|
                                0 <= e < es.len() && (#[trigger] es[e]).iid == w;
                            if e < t {
                                assert(es[e].iid.idx < expected);
                            } else if e > t {
                                assert(iid_lt(es[t as int].iid, es[e].iid));
                            }
                        }
                    }
                }
                return false;
            } else if ent.iid.idx == expected {
                if ent.inst.committed || ent.inst.executed {
                    proof {
                        lemma_it_unique(es, t as int);
                        assert(dep_satisfied(
                            eng.inst_view(),
                            InstanceId { replica_id: rid, idx: expected },
                        ));
                    }
                    if expected == bound {
                        return true;
                    }
                    expected += 1;
                } else {
                    proof {
                        lemma_it_unique(es, t as int);
                        assert(!dep_satisfied(
                            eng.inst_view(),
                            InstanceId { replica_id: rid, idx: expected },
                        ));
                    }
                    return false;
                }
            }
        }
        t += 1;
    }
    // the table is exhausted and the expected index never appeared
    proof {
        let w = InstanceId { replica_id: rid, idx: expected };
        assert(!dep_satisfied(eng.inst_view(), w)) by {
            if eng.inst_view().dom().contains(w) {
                let e = choose|e: int| 0 <= e < es.len() && (#[trigger] es[e]).iid == w;
                assert(es[e].iid.idx < expected);
            }
        }
    }
    false
}

/// Whether a node's dependency vector covers an instance this replica
/// cannot yet execute past: absent, or present but neither committed nor
/// executed.
fn directly_blocked(eng: &MemEngine, node: &ExecNode) -> (b: bool)
    requires
        eng.wf(),
        iids_wf(node@.deps),
    ensures
        b == blocked_by_store(eng.inst_view(), node@.deps),
{
    let dn = node.deps.ids.len();
    let mut e: usize = 0;
    while e < dn
        invariant
            eng.wf(),
            iids_wf(node@.deps),
            dn == node@.deps.len(),
            0 <= e <= dn,
            forall|x: int, j: i64|
                0 <= x < e && 1 <= j <= node@.deps[x].idx ==> #[trigger] dep_satisfied(
                    eng.inst_view(),
                    InstanceId { replica_id: (#[trigger] node@.deps[x]).replica_id, idx: j },
                ),
        decreases dn - e,
    {
        let d = node.deps.ids[e];
        if d.idx >= 1 {
            if !covered_ok(eng, d.replica_id, d.idx) {
                proof {
                    let j = choose|j: i64|
                        1 <= j <= d.idx && !dep_satisfied(
                            eng.inst_view(),
                            InstanceId { replica_id: d.replica_id, idx: j },
                        );
                    let w = InstanceId { replica_id: d.replica_id, idx: j };
                    crate::deps::lemma_wf_unique(node@.deps, e as int);
                    assert(dep_contains(node@.deps, w.replica_id as int));
                    assert(w.idx as int <= dep_at(node@.deps, w.replica_id as int));
                    assert(blocked_by_store(eng.inst_view(), node@.deps));
                }
                return true;
            }
        }
        e += 1;
    }
    proof {
        assert forall|w: InstanceId|
            !(w.idx >= 1 && dep_contains(node@.deps, w.replica_id as int) && w.idx as int
                <= dep_at(node@.deps, w.replica_id as int) && !(#[trigger] dep_satisfied(
                eng.inst_view(),
                w,
            ))) by {
            if w.idx >= 1 && dep_contains(node@.deps, w.replica_id as int) && w.idx as int
                <= dep_at(node@.deps, w.replica_id as int) {
                let x = choose|x: int|
                    0 <= x < node@.deps.len() && (#[trigger] node@.deps[x]).replica_id
                        == w.replica_id;
                crate::deps::lemma_wf_unique(node@.deps, x);
                assert(dep_at(node@.deps, w.replica_id as int) == node@.deps[x].idx as int);
                assert(dep_satisfied(
                    eng.inst_view(),
                    InstanceId { replica_id: node@.deps[x].replica_id, idx: w.idx },
                ));
            }
        }
    }
    false
}

impl crate::replica::Replica {
    /// Executes every eligible committed instance, in the deterministic
    /// order of the execution key: writes are applied to the user-visible
    /// keyspace and each instance is marked executed, atomically with its
    /// effects. Returns the executed instance ids, in execution order.
    pub fn execute(&mut self) -> (r: Result<Vec<InstanceId>, crate::errors::ReplicaError>)
        requires
            old(self).wf(),
            old(self).storage.insts.entries@.len() < usize::MAX,
        ensures
            final(self).wf(),
            crate::replica::unchanged_but_storage(*old(self), *final(self)),
            r is Ok,
            ({
                let ids = r->Ok_0@;
                let store = old(self).insts();
                let g = candidates(old(self).storage.insts.entries@);
                let dbl = blocked_of(store, g);
                &&& final(self).insts() == mark_executed(store, ids)
                &&& final(self).storage.kv_state().data == apply_insts(
                    store,
                    old(self).storage.kv_state().data,
                    ids,
                )
                &&& final(self).storage.kv_state().instance == old(self).storage.kv_state().instance
                &&& final(self).storage.kv_state().status == old(self).storage.kv_state().status
                &&& exists|out: Seq<usize>|
                    {
                        &&& out.len() == ids.len()
                        &&& (forall|t: int|
                            0 <= t < out.len() ==> #[trigger] ids[t] == g[out[t] as int].iid)
                        &&& (forall|t: int|
                            0 <= t < out.len() ==> eligible(g, dbl, #[trigger] out[t] as int))
                        &&& (forall|j: int|
                            eligible(g, dbl, j) ==> exists|t: int|
                                0 <= t < out.len() && #[trigger] out[t] as int == j)
                        &&& (forall|a: int, b: int|
                            0 <= a < b < out.len() ==> key_lt(
                                g,
                                #[trigger] out[a] as int,
                                #[trigger] out[b] as int,
                            ))
                    }
            }),
    {
        let ghost store0 = self.insts();
        let ghost data0 = self.storage.kv_state().data;
        let ghost entries0 = self.storage.insts.entries@;
        // the execution graph: committed, unexecuted instances
        let mut g: Vec<ExecNode> = Vec::new();
        let ne = self.storage.insts.entries.len();
        let mut k: usize = 0;
        while k < ne
            invariant
                old(self) == self,
                self.wf(),
                entries0 == self.storage.insts.entries@,
                ne == entries0.len(),
                0 <= k <= ne,
                g.deep_view() == candidates(entries0.take(k as int)),
            decreases ne - k,
        {
            let e = &self.storage.insts.entries[k];
            proof {
                assert(entries0.take(k as int + 1).drop_last() =~= entries0.take(k as int));
                assert(entries0.take(k as int + 1).last() == entries0[k as int]);
            }
            if e.inst.committed && !e.inst.executed {
                match &e.inst.final_deps {
                    Some(d) => {
                        let node = ExecNode { iid: e.iid, deps: d.clone() };
                        g.push(node);
                        proof {
                            assert(g.deep_view() =~= candidates(entries0.take(k as int + 1)));
                        }
                    },
                    None => {
                        proof {
                            assert(!candidate(entries0[k as int].inst@));
                            assert(g.deep_view() =~= candidates(entries0.take(k as int + 1)));
                        }
                    },
                }
            } else {
                proof {
                    assert(!candidate(entries0[k as int].inst@));
                    assert(g.deep_view() =~= candidates(entries0.take(k as int + 1)));
                }
            }
            k += 1;
        }
        proof {
            assert(entries0.take(ne as int) =~= entries0);
            assert(g.deep_view() == candidates(entries0));
            lemma_candidates_sorted(entries0);
            lemma_candidates_len(entries0);
            assert forall|i: int, j: int|
                0 <= i < j < g.deep_view().len() implies #[trigger] g.deep_view()[i].iid
                != #[trigger] g.deep_view()[j].iid by {
                assert(iid_lt(g.deep_view()[i].iid, g.deep_view()[j].iid));
            }
            assert forall|i: int| 0 <= i < g.deep_view().len() implies iids_wf(
                #[trigger] g.deep_view()[i].deps,
            ) by {
                lemma_candidates_in_store(entries0, i);
                assert(inst_wf(store0[g.deep_view()[i].iid]));
            }
            assert(graph_wf(g.deep_view()));
        }
        // which nodes are blocked by an uncommitted dependency
        let gn = g.len();
        let mut dbl: Vec<bool> = Vec::new();
        let mut i: usize = 0;
        while i < gn
            invariant
                old(self) == self,
                self.wf(),
                store0 == self.insts(),
                graph_wf(g.deep_view()),
                gn == g.deep_view().len(),
                0 <= i <= gn,
                dbl@.len() == i,
                forall|x: int|
                    0 <= x < i ==> #[trigger] dbl@[x] == blocked_by_store(
                        store0,
                        g.deep_view()[x].deps,
                    ),
            decreases gn - i,
        {
            proof {
                assert(g.deep_view()[i as int] == g@[i as int]@);
                assert(iids_wf(g.deep_view()[i as int].deps));
            }
            let b = directly_blocked(&self.storage, &g[i]);
            dbl.push(b);
            i += 1;
        }
        proof {
            assert(dbl@ =~= blocked_of(store0, g.deep_view()));
        }
        let out = exec_order(&g, &dbl);
        // apply, in order: effects and the executed mark together
        let mut ids: Vec<InstanceId> = Vec::new();
        let m = out.len();
        let mut t: usize = 0;
        while t < m
            invariant
                self.wf(),
                graph_wf(g.deep_view()),
                g.deep_view() == candidates(entries0),
                it_sorted(entries0),
                store0 == it_map(entries0),
                forall|y: InstanceId| store0.dom().contains(y) ==> inst_wf(#[trigger] store0[y]),
                m == out@.len(),
                dbl@ == blocked_of(store0, g.deep_view()),
                forall|a: int, b: int|
                    0 <= a < b < out@.len() ==> key_lt(
                        g.deep_view(),
                        #[trigger] out@[a] as int,
                        #[trigger] out@[b] as int,
                    ),
                forall|x: int|
                    0 <= x < out@.len() ==> eligible(
                        g.deep_view(),
                        dbl@,
                        #[trigger] out@[x] as int,
                    ),
                0 <= t <= m,
                ids@.len() == t,
                forall|x: int|
                    0 <= x < t ==> #[trigger] ids@[x] == g.deep_view()[out@[x] as int].iid,
                forall|x: int| 0 <= x < t ==> store0.dom().contains(#[trigger] ids@[x]),
                self.insts() == mark_executed(store0, ids@),
                crate::replica::unchanged_but_storage(*old(self), *self),
                self.storage.kv_state().data == apply_insts(store0, data0, ids@),
                self.storage.kv_state().instance == old(self).storage.kv_state().instance,
                self.storage.kv_state().status == old(self).storage.kv_state().status,
            decreases m - t,
        {
            let idx = out[t];
            proof {
                assert(eligible(g.deep_view(), dbl@, idx as int));
            }
            let iid = g[idx].iid;
            proof {
                // earlier executed ids are other instances
                assert forall|x: int| 0 <= x < t implies #[trigger] ids@[x] != iid by {
                    let a = out@[x] as int;
                    let b = out@[t as int] as int;
                    assert(key_lt(g.deep_view(), a, b));
                    if a == b {
                        assert(!key_lt(g.deep_view(), a, b));
                    } else if a < b {
                        assert(g.deep_view()[a].iid != g.deep_view()[b].iid);
                    } else {
                        assert(g.deep_view()[b].iid != g.deep_view()[a].iid);
                    }
                }
                assert(!ids@.contains(iid)) by {
                    if ids@.contains(iid) {
                        let x = choose|x: int| 0 <= x < ids@.len() && ids@[x] == iid;
                        assert(ids@[x] != iid);
                    }
                }
                lemma_mark_untouched(store0, ids@, iid);
                lemma_candidates_in_store(entries0, idx as int);
                assert(store0.dom().contains(iid));
                assert(self.insts()[iid] == store0[iid]);
            }
            let inst_opt = self.storage.get_instance(iid);
            let mut inst = match inst_opt {
                Some(v) => v,
                None => {
                    proof {
                        assert(false);
                    }
                    crate::instance::Instance::default()
                },
            };
            proof {
                assert(inst@ == store0[iid]);
            }
            let ghost data_pre = self.storage.kv_state().data;
            let cn = inst.cmds.len();
            let mut u: usize = 0;
            while u < cn
                invariant
                    self.wf(),
                    cn == inst.cmds@.len(),
                    0 <= u <= cn,
                    crate::replica::unchanged_but_storage(*old(self), *self),
                    self.storage.kv_state().data == apply_cmds(data_pre, inst@.cmds.take(u as int)),
                    self.insts() == mark_executed(store0, ids@),
                    self.storage.kv_state().instance == old(self).storage.kv_state().instance,
                    self.storage.kv_state().status == old(self).storage.kv_state().status,
                decreases cn - u,
            {
                proof {
                    assert(inst@.cmds.take(u as int + 1).drop_last() =~= inst@.cmds.take(u as int));
                    assert(inst@.cmds.take(u as int + 1).last() == inst@.cmds[u as int]);
                }
                let c = &inst.cmds[u];
                if matches!(c.op, OpCode::Put) {
                    self.storage.set(DBColumnFamily::Data, &c.key, &c.value);
                }
                u += 1;
            }
            proof {
                assert(inst@.cmds.take(cn as int) =~= inst@.cmds);
                assert(self.storage.kv_state().data == apply_cmds(data_pre, inst@.cmds));
            }
            inst.executed = true;
            let _ = self.storage.set_obj(iid, &inst);
            let ghost prev = ids@;
            ids.push(iid);
            proof {
                assert(ids@ == prev.push(iid));
                assert(ids@.drop_last() =~= prev);
                assert(ids@.last() == iid);
                assert(self.insts() =~= mark_executed(store0, ids@)) by {
                    assert(mark_executed(store0, ids@) == mark_executed(store0, prev).insert(
                        iid,
                        InstanceView { executed: true, ..mark_executed(store0, prev)[iid] },
                    ));
                    assert(mark_executed(store0, prev)[iid] == store0[iid]);
                    assert(inst@ == (InstanceView { executed: true, ..store0[iid] }));
                }
                assert(self.storage.kv_state().data == apply_insts(store0, data0, ids@)) by {
                    assert(apply_insts(store0, data0, ids@) == apply_cmds(
                        apply_insts(store0, data0, prev),
                        store0[iid].cmds,
                    ));
                }
                assert(forall|x: int|
                    0 <= x < ids@.len() ==> store0.dom().contains(#[trigger] ids@[x]));
                lemma_mark_wf(store0, ids@);
                assert(self.wf());
            }
            t += 1;
        }
        Ok(ids)
    }
}

} // verus!
