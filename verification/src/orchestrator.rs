use vstd::prelude::*;
use crate::graph::Graph;
use crate::progress::{has_name, Progress};

verus! {

/// Resolve the recorded artifact paths of `node`'s dependencies: one pair
/// per dependency edge, in edge order, holding the dependency's name and,
/// when the store records one, its artifact path. A missing path forces a
/// rebuild of `node`; processed in topological order it can only come from
/// a store that lost the dependency's artifact.
pub fn dependency_artifacts(g: &Graph, node: usize, p: &Progress) -> (r: Vec<
    (String, Option<String>),
>)
    requires
        g.wf(),
        node < g.node_count(),
    ensures
        r@.len() == g.deps@[node as int]@.len(),
        forall|k: int|
            0 <= k < r@.len() ==> (#[trigger] r@[k]).0@ == g.names@[g.deps@[node as int]@[k] as int]@,
        forall|k: int|
            0 <= k < r@.len() ==> (match (#[trigger] r@[k]).1 {
                Some(path) => exists|t: int|
                    0 <= t < p@.len() && (#[trigger] p@[t]).0 == g.names@[g.deps@[node as int]@[k] as int]@
                        && p@[t].1 == path@,
                None => !has_name(p@, g.names@[g.deps@[node as int]@[k] as int]@),
            }),
{
    let mut r: Vec<(String, Option<String>)> = Vec::new();
    let deps_len = g.deps[node].len();
    let mut k: usize = 0;
    while k < deps_len
        invariant
            g.wf(),
            node < g.node_count(),
            deps_len == g.deps@[node as int]@.len(),
            k <= deps_len,
            r@.len() == k,
            forall|t: int|
                0 <= t < k ==> (#[trigger] r@[t]).0@ == g.names@[g.deps@[node as int]@[t] as int]@,
            forall|t: int|
                0 <= t < k ==> (match (#[trigger] r@[t]).1 {
                    Some(path) => exists|u: int|
                        0 <= u < p@.len() && (#[trigger] p@[u]).0 == g.names@[g.deps@[node as int]@[t] as int]@
                            && p@[u].1 == path@,
                    None => !has_name(p@, g.names@[g.deps@[node as int]@[t] as int]@),
                }),
        decreases deps_len - k,
    {
        let d = g.deps[node][k];
        let name = g.names[d].clone();
        let path = p.lookup(&name);
        r.push((name, path));
        k += 1;
    }
    r
}

} // verus!
