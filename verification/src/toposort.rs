use vstd::prelude::*;
use crate::graph::Graph;

verus! {

/// Visitation state of one node during the depth-first traversal.
#[derive(Clone, Copy, PartialEq, Eq, Structural)]
pub enum VisitState {
    Unvisited,
    InProgress,
    Done,
}

/// The graph holds a dependency cycle; `cycle` lists the node indices on the
/// cycle, each depending on the next, the last depending on the first.
#[derive(Debug)]
pub struct CycleError {
    pub cycle: Vec<usize>,
}

/// How many entries of `s` equal `v`.
pub(crate) open spec fn count_val(s: Seq<VisitState>, v: VisitState) -> int
    decreases s.len(),
{
    if s.len() == 0 {
        0
    } else {
        count_val(s.drop_last(), v) + if s.last() == v {
            1int
        } else {
            0int
        }
    }
}

proof fn lemma_count_nonneg(s: Seq<VisitState>, v: VisitState)
    ensures
        count_val(s, v) >= 0,
    decreases s.len(),
{
    if s.len() > 0 {
        lemma_count_nonneg(s.drop_last(), v);
    }
}

proof fn lemma_count_update(s: Seq<VisitState>, i: int, w: VisitState, v: VisitState)
    requires
        0 <= i < s.len(),
    ensures
        count_val(s.update(i, w), v) == count_val(s, v) - (if s[i] == v {
            1int
        } else {
            0int
        }) + (if w == v {
            1int
        } else {
            0int
        }),
    decreases s.len(),
{
    if i == s.len() - 1 {
        assert(s.update(i, w).drop_last() =~= s.drop_last());
    } else {
        assert(s.update(i, w).drop_last() =~= s.drop_last().update(i, w));
        lemma_count_update(s.drop_last(), i, w, v);
    }
}

proof fn lemma_count_all(s: Seq<VisitState>, v: VisitState)
    requires
        forall|i: int| 0 <= i < s.len() ==> s[i] == v,
    ensures
        count_val(s, v) == s.len(),
    decreases s.len(),
{
    if s.len() > 0 {
        lemma_count_all(s.drop_last(), v);
    }
}

proof fn lemma_count_none(s: Seq<VisitState>, v: VisitState)
    requires
        forall|i: int| 0 <= i < s.len() ==> s[i] != v,
    ensures
        count_val(s, v) == 0,
    decreases s.len(),
{
    if s.len() > 0 {
        lemma_count_none(s.drop_last(), v);
    }
}

/// Every dependency of every node of `o` appears at an earlier position of `o`.
pub open spec fn ordered_prefix(g: &Graph, o: Seq<usize>) -> bool {
    forall|k: int, d: usize|
        0 <= k < o.len() && #[trigger] g.edge(o[k] as int, d as int) ==> exists|k2: int|
            0 <= k2 < k && o[k2] == d
}

/// `o` is a topological order of `g`: a permutation of the node set (same
/// size, no duplicates, no omissions) in which every dependency precedes
/// every node that depends on it.
pub open spec fn valid_order(g: &Graph, o: Seq<usize>) -> bool {
    &&& o.len() == g.node_count()
    &&& forall|k: int| 0 <= k < o.len() ==> (#[trigger] o[k]) < g.node_count()
    &&& o.no_duplicates()
    &&& forall|i: usize| i < g.node_count() ==> o.contains(i)
    &&& ordered_prefix(g, o)
}

/// `c` is a dependency cycle of `g`: a nonempty run of nodes, each depending
/// on the next, whose last node depends on the first. A self-loop is the run
/// of length one.
pub open spec fn is_cycle(g: &Graph, c: Seq<usize>) -> bool {
    &&& c.len() > 0
    &&& forall|k: int| 0 <= k < c.len() ==> (#[trigger] c[k]) < g.node_count()
    &&& forall|k: int| 0 <= k < c.len() - 1 ==> g.edge((#[trigger] c[k]) as int, c[k + 1] as int)
    &&& g.edge(c[c.len() - 1] as int, c[0] as int)
}

/// Whether any dependency cycle exists in `g`.
pub open spec fn has_cycle(g: &Graph) -> bool {
    exists|c: Seq<usize>| is_cycle(g, c)
}

/// Internal invariant of the traversal: `out` holds exactly the done nodes,
/// already in topological order; `path` is the chain of in-progress nodes,
/// each depending on the next.
pub(crate) open spec fn sorter_inv(
    g: &Graph,
    st: Seq<VisitState>,
    out: Seq<usize>,
    path: Seq<usize>,
) -> bool {
    &&& st.len() == g.node_count()
    &&& forall|k: int| 0 <= k < out.len() ==> (#[trigger] out[k]) < g.node_count()
    &&& out.no_duplicates()
    &&& forall|i: usize|
        i < st.len() ==> ((#[trigger] st[i as int]) == VisitState::Done <==> out.contains(i))
    &&& out.len() == count_val(st, VisitState::Done)
    &&& forall|k: int| 0 <= k < path.len() ==> (#[trigger] path[k]) < g.node_count()
    &&& forall|k: int|
        0 <= k < path.len() ==> st[(#[trigger] path[k]) as int] == VisitState::InProgress
    &&& forall|i: usize|
        i < st.len() && (#[trigger] st[i as int]) == VisitState::InProgress ==> path.contains(i)
    &&& forall|k: int|
        0 <= k < path.len() - 1 ==> g.edge((#[trigger] path[k]) as int, path[k + 1] as int)
    &&& ordered_prefix(g, out)
}

spec fn position_of(o: Seq<usize>, v: usize) -> int {
    choose|k: int| 0 <= k < o.len() && o[k] == v
}

proof fn lemma_position(o: Seq<usize>, v: usize)
    requires
        o.contains(v),
    ensures
        0 <= position_of(o, v) < o.len(),
        o[position_of(o, v)] == v,
{
    assert(exists|k: int| 0 <= k < o.len() && o[k] == v);
}

proof fn lemma_dep_earlier(g: &Graph, o: Seq<usize>, a: usize, b: usize)
    requires
        g.wf(),
        valid_order(g, o),
        g.edge(a as int, b as int),
    ensures
        position_of(o, b) < position_of(o, a),
{
    assert(a < g.node_count() && b < g.node_count());
    assert(o.contains(a));
    assert(o.contains(b));
    lemma_position(o, a);
    lemma_position(o, b);
    let ka = position_of(o, a);
    let kb = position_of(o, b);
    assert(g.edge(o[ka] as int, b as int));
    let k2 = choose|k2: int| 0 <= k2 < ka && o[k2] == b;
    assert(o[k2] == o[kb]);
    if k2 != kb {
        assert(false);
    }
}

proof fn lemma_chain_positions(g: &Graph, o: Seq<usize>, c: Seq<usize>, t: int)
    requires
        g.wf(),
        valid_order(g, o),
        is_cycle(g, c),
        0 <= t < c.len(),
    ensures
        position_of(o, c[t]) <= position_of(o, c[0]) - t,
    decreases t,
{
    if t > 0 {
        lemma_chain_positions(g, o, c, t - 1);
        assert(g.edge(c[t - 1] as int, c[t] as int));
        lemma_dep_earlier(g, o, c[t - 1], c[t]);
    }
}

/// A graph with a dependency cycle admits no topological order: no sequence
/// can both respect every edge and contain every node of the cycle.
pub proof fn lemma_cycle_admits_no_order(g: &Graph, o: Seq<usize>, c: Seq<usize>)
    requires
        g.wf(),
        is_cycle(g, c),
    ensures
        !valid_order(g, o),
{
    if valid_order(g, o) {
        let last = c.len() - 1;
        lemma_chain_positions(g, o, c, last);
        lemma_dep_earlier(g, o, c[last], c[0]);
    }
}

/// Cut the witness cycle out of the traversal chain: the suffix of `path`
/// from the first occurrence of `d` onward, which `node` (the chain's last
/// element) closes by depending on `d`.
fn extract_cycle(g: &Graph, node: usize, d: usize, path: &Vec<usize>) -> (e: CycleError)
    requires
        g.wf(),
        path@.len() > 0,
        path@.last() == node,
        forall|k: int| 0 <= k < path@.len() ==> (#[trigger] path@[k]) < g.node_count(),
        forall|k: int|
            0 <= k < path@.len() - 1 ==> g.edge((#[trigger] path@[k]) as int, path@[k + 1] as int),
        path@.contains(d),
        g.edge(node as int, d as int),
    ensures
        is_cycle(g, e.cycle@),
{
    let plen = path.len();
    let mut m: usize = 0;
    while path[m] != d
        invariant
            plen == path@.len(),
            m < plen,
            exists|j: int| m <= j < path@.len() && path@[j] == d,
        decreases path@.len() - m,
    {
        proof {
            let j = choose|j: int| m <= j < path@.len() && path@[j] == d;
            assert(j >= m + 1);
        }
        m += 1;
    }
    let mut cyc: Vec<usize> = Vec::new();
    let mut t: usize = m;
    while t < plen
        invariant
            plen == path@.len(),
            m <= t <= plen,
            path@[m as int] == d,
            cyc@ == path@.subrange(m as int, t as int),
        decreases plen - t,
    {
        cyc.push(path[t]);
        proof {
            assert(cyc@ =~= path@.subrange(m as int, t + 1));
        }
        t += 1;
    }
    proof {
        let c = cyc@;
        assert(c.len() == path@.len() - m);
        assert(c[0] == path@[m as int]);
        assert(c[c.len() - 1] == path@[path@.len() - 1]);
        assert forall|q: int| 0 <= q < c.len() - 1 implies g.edge(
            (#[trigger] c[q]) as int,
            c[q + 1] as int,
        ) by {
            assert(c[q] == path@[m + q]);
            assert(c[q + 1] == path@[m + q + 1]);
        }
        assert(g.edge(c[c.len() - 1] as int, c[0] as int));
    }
    CycleError { cycle: cyc }
}

#[verifier::rlimit(100)]
fn visit(
    g: &Graph,
    node: usize,
    st: &mut Vec<VisitState>,
    out: &mut Vec<usize>,
    path: &mut Vec<usize>,
) -> (r: Result<(), CycleError>)
    requires
        g.wf(),
        sorter_inv(g, old(st)@, old(out)@, old(path)@),
        node < g.node_count(),
        old(st)@[node as int] == VisitState::Unvisited,
        old(path)@.len() > 0 ==> g.edge(old(path)@.last() as int, node as int),
    ensures
        match r {
            Ok(_) => {
                &&& sorter_inv(g, final(st)@, final(out)@, final(path)@)
                &&& final(path)@ == old(path)@
                &&& final(st)@.len() == old(st)@.len()
                &&& final(st)@[node as int] == VisitState::Done
                &&& forall|i: int|
                    0 <= i < final(st)@.len() && (#[trigger] old(st)@[i]) == VisitState::Done
                        ==> final(st)@[i] == VisitState::Done
                &&& forall|i: int|
                    0 <= i < final(st)@.len() && (#[trigger] old(st)@[i]) == VisitState::InProgress
                        ==> final(st)@[i] == VisitState::InProgress
                &&& count_val(final(st)@, VisitState::Unvisited) <= count_val(
                    old(st)@,
                    VisitState::Unvisited,
                )
                &&& old(out)@.is_prefix_of(final(out)@)
            },
            Err(e) => is_cycle(g, e.cycle@),
        },
    decreases count_val(old(st)@, VisitState::Unvisited),
{
    let ghost c0 = count_val(st@, VisitState::Unvisited);
    proof {
        lemma_count_update(st@, node as int, VisitState::InProgress, VisitState::Unvisited);
        lemma_count_update(st@, node as int, VisitState::InProgress, VisitState::Done);
        lemma_count_nonneg(st@, VisitState::Unvisited);
    }
    st[node] = VisitState::InProgress;
    proof {
        assert forall|k: int| 0 <= k < old(path)@.len() implies old(path)@[k] != node by {
            assert(old(st)@[old(path)@[k] as int] == VisitState::InProgress);
        }
    }
    path.push(node);
    let ghost path1 = path@;
    proof {
        assert(path1.last() == node);
        assert forall|i: usize|
            i < st@.len() && (#[trigger] st@[i as int]) == VisitState::InProgress implies path1.contains(
            i,
        ) by {
            if i == node {
                assert(path1[path1.len() - 1] == node);
            } else {
                assert(old(st)@[i as int] == VisitState::InProgress);
                assert(old(path)@.contains(i));
                let k = choose|k: int| 0 <= k < old(path)@.len() && old(path)@[k] == i;
                assert(path1[k] == i);
            }
        }
    }
    let deps_len = g.deps[node].len();
    let mut k: usize = 0;
    while k < deps_len
        invariant
            g.wf(),
            node < g.node_count(),
            deps_len == g.deps@[node as int]@.len(),
            sorter_inv(g, st@, out@, path@),
            st@.len() == old(st)@.len(),
            path@ == path1,
            path1 == old(path)@.push(node),
            st@[node as int] == VisitState::InProgress,
            k <= deps_len,
            forall|t: int|
                0 <= t < k ==> st@[(#[trigger] g.deps@[node as int]@[t]) as int]
                    == VisitState::Done,
            c0 == count_val(old(st)@, VisitState::Unvisited),
            count_val(st@, VisitState::Unvisited) <= c0 - 1,
            forall|i: int|
                0 <= i < st@.len() && (#[trigger] old(st)@[i]) == VisitState::Done ==> st@[i]
                    == VisitState::Done,
            forall|i: int|
                0 <= i < st@.len() && (#[trigger] old(st)@[i]) == VisitState::InProgress ==> st@[i]
                    == VisitState::InProgress,
            old(out)@.is_prefix_of(out@),
        decreases deps_len - k,
    {
        let d = g.deps[node][k];
        let sd = st[d];
        if sd == VisitState::Done {
            k += 1;
        } else if sd == VisitState::InProgress {
            proof {
                assert(path@.contains(d));
                assert(path@.last() == node);
                assert(g.deps@[node as int]@.contains(d));
                assert(g.edge(node as int, d as int));
            }
            let e = extract_cycle(g, node, d, path);
            return Err(e);
        } else {
            proof {
                assert(path@.last() == node);
                assert(g.deps@[node as int]@.contains(d));
                assert(g.edge(node as int, d as int));
                lemma_count_nonneg(st@, VisitState::Unvisited);
            }
            let ghost st_before = st@;
            let ghost out_before = out@;
            let res = visit(g, d, st, out, path);
            if let Err(e) = res {
                return Err(e);
            }
            proof {
                assert(out_before.is_prefix_of(out@));
                assert forall|i: int|
                    0 <= i < st@.len() && (#[trigger] old(st)@[i]) == VisitState::Done implies st@[i]
                    == VisitState::Done by {
                    assert(st_before[i] == VisitState::Done);
                }
                assert forall|i: int|
                    0 <= i < st@.len() && (#[trigger] old(st)@[i])
                        == VisitState::InProgress implies st@[i] == VisitState::InProgress by {
                    assert(st_before[i] == VisitState::InProgress);
                }
            }
            k += 1;
        }
    }
    let ghost st2 = st@;
    let ghost out2 = out@;
    path.pop();
    proof {
        assert(path@ =~= old(path)@);
        lemma_count_update(st@, node as int, VisitState::Done, VisitState::Unvisited);
        lemma_count_update(st@, node as int, VisitState::Done, VisitState::Done);
        lemma_count_update(st@, node as int, VisitState::Done, VisitState::InProgress);
    }
    st[node] = VisitState::Done;
    proof {
        assert(!out2.contains(node));
    }
    out.push(node);
    proof {
        assert(out@ =~= out2.push(node));
        assert(out@[out@.len() - 1] == node);
        assert forall|i: int, j: int|
            0 <= i < j < out@.len() implies out@[i] != out@[j] by {
            if j < out@.len() - 1 {
                assert(out2[i] != out2[j]);
            } else {
                if out@[i] == node {
                    assert(out2[i] == node);
                    assert(out2.contains(node));
                }
            }
        }
        assert(out@.no_duplicates());
        assert forall|i: usize|
            i < st@.len() implies ((#[trigger] st@[i as int]) == VisitState::Done <==> out@.contains(
            i,
        )) by {
            if i == node {
                assert(out@[out@.len() - 1] == node);
            } else {
                if st2[i as int] == VisitState::Done {
                    assert(out2.contains(i));
                    let w = choose|w: int| 0 <= w < out2.len() && out2[w] == i;
                    assert(out@[w] == i);
                } else {
                    if out@.contains(i) {
                        let w = choose|w: int| 0 <= w < out@.len() && out@[w] == i;
                        if w == out@.len() - 1 {
                            assert(out@[w] == node);
                        }
                        assert(w < out@.len() - 1);
                        assert(out2[w] == i);
                        assert(out2.contains(i));
                    }
                }
            }
        }
        assert forall|i: usize|
            i < st@.len() && (#[trigger] st@[i as int]) == VisitState::InProgress implies path@.contains(
            i,
        ) by {
            assert(i != node);
            assert(st2[i as int] == VisitState::InProgress);
            assert(path1.contains(i));
            let w = choose|w: int| 0 <= w < path1.len() && path1[w] == i;
            assert(w < path1.len() - 1) by {
                if w == path1.len() - 1 {
                    assert(path1[w] == node);
                }
            }
            assert(path@[w] == i);
        }
        assert forall|kk: int, d: usize|
            0 <= kk < out@.len() && #[trigger] g.edge(out@[kk] as int, d as int) implies exists|
            k2: int,
        | 0 <= k2 < kk && out@[k2] == d by {
            if kk < out@.len() - 1 {
                assert(g.edge(out2[kk] as int, d as int));
                let k2 = choose|k2: int| 0 <= k2 < kk && out2[k2] == d;
                assert(out@[k2] == d);
            } else {
                assert(out@[kk] == node);
                assert(g.deps@[node as int]@.contains(d));
                let t = choose|t: int|
                    0 <= t < g.deps@[node as int]@.len() && g.deps@[node as int]@[t] == d;
                assert(st2[g.deps@[node as int]@[t] as int] == VisitState::Done);
                assert(st2[d as int] == VisitState::Done);
                assert(out2.contains(d));
                let k2 = choose|k2: int| 0 <= k2 < out2.len() && out2[k2] == d;
                assert(out@[k2] == d);
            }
        }
        assert(ordered_prefix(g, out@));
        assert forall|kk: int|
            0 <= kk < path@.len() implies st@[(#[trigger] path@[kk]) as int]
            == VisitState::InProgress by {
            assert(path1[kk] == path@[kk]);
            assert(st2[path@[kk] as int] == VisitState::InProgress);
            assert(path@[kk] != node);
        }
        assert(sorter_inv(g, st@, out@, path@));
    }
    Ok(())
}

/// The package names at the given node indices, in order.
pub fn order_names(g: &Graph, order: &Vec<usize>) -> (r: Vec<String>)
    requires
        forall|k: int| 0 <= k < order@.len() ==> (#[trigger] order@[k]) < g.node_count(),
    ensures
        r@.len() == order@.len(),
        forall|k: int| 0 <= k < order@.len() ==> (#[trigger] r@[k]@) == g.names@[order@[k] as int]@,
{
    let mut r: Vec<String> = Vec::new();
    let mut k: usize = 0;
    while k < order.len()
        invariant
            forall|t: int| 0 <= t < order@.len() ==> (#[trigger] order@[t]) < g.node_count(),
            k <= order@.len(),
            r@.len() == k,
            forall|t: int| 0 <= t < k ==> (#[trigger] r@[t]@) == g.names@[order@[t] as int]@,
        decreases order@.len() - k,
    {
        r.push(g.names[order[k]].clone());
        k += 1;
    }
    r
}

/// Topologically sort `g` by depth-first traversal over all roots in index
/// order.
///
/// Returns the build order on success: a permutation of the node set in which
/// every dependency precedes its dependents. Succeeds exactly when the graph
/// has no dependency cycle; on failure the error carries one witness cycle.
pub fn sort(g: &Graph) -> (r: Result<Vec<usize>, CycleError>)
    requires
        g.wf(),
    ensures
        r is Ok <==> !has_cycle(g),
        match r {
            Ok(o) => valid_order(g, o@),
            Err(e) => is_cycle(g, e.cycle@),
        },
{
    let n = g.names.len();
    let mut st: Vec<VisitState> = Vec::new();
    let mut i: usize = 0;
    while i < n
        invariant
            i <= n,
            st@.len() == i,
            forall|t: int| 0 <= t < i ==> st@[t] == VisitState::Unvisited,
        decreases n - i,
    {
        st.push(VisitState::Unvisited);
        i += 1;
    }
    let mut out: Vec<usize> = Vec::new();
    let mut path: Vec<usize> = Vec::new();
    proof {
        lemma_count_none(st@, VisitState::Done);
        assert(sorter_inv(g, st@, out@, path@));
    }
    let mut i: usize = 0;
    while i < n
        invariant
            g.wf(),
            n == g.node_count(),
            st@.len() == n,
            sorter_inv(g, st@, out@, path@),
            path@.len() == 0,
            forall|t: int| 0 <= t < i ==> st@[t] == VisitState::Done,
        decreases n - i,
    {
        let ghost st_pre = st@;
        let s = st[i];
        if s == VisitState::Unvisited {
            let res = visit(g, i, &mut st, &mut out, &mut path);
            if let Err(e) = res {
                proof {
                    assert(has_cycle(g));
                }
                return Err(e);
            }
            proof {
                assert forall|t: int| 0 <= t < i + 1 implies st@[t] == VisitState::Done by {
                    if t < i {
                        assert(st_pre[t] == VisitState::Done);
                    } else {
                        assert(st@[i as int] == VisitState::Done);
                    }
                }
            }
        } else {
            proof {
                if st@[i as int] == VisitState::InProgress {
                    assert(path@.contains(i));
                }
                assert(st@[i as int] == VisitState::Done);
            }
        }
        i += 1;
    }
    proof {
        lemma_count_all(st@, VisitState::Done);
        assert(out@.len() == n);
        assert forall|j: usize| j < g.node_count() implies out@.contains(j) by {
            assert(st@[j as int] == VisitState::Done);
        }
        assert(valid_order(g, out@));
        assert(!has_cycle(g)) by {
            if has_cycle(g) {
                let c = choose|c: Seq<usize>| is_cycle(g, c);
                lemma_cycle_admits_no_order(g, out@, c);
            }
        }
    }
    Ok(out)
}

} // verus!
