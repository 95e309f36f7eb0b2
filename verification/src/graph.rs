use vstd::prelude::*;
use crate::PackageDescriptor;

verus! {

/// Two descriptors carried the same package name; the graph cannot be built.
#[derive(Debug)]
pub struct DuplicatePackageName {
    pub name: String,
}

/// A dependency graph over packages, with nodes identified by their index in
/// `names`. `deps[i]` lists the indices of the packages that package `i`
/// depends on, restricted to packages that are part of this build.
#[derive(Debug)]
pub struct Graph {
    pub names: Vec<String>,
    pub deps: Vec<Vec<usize>>,
}

impl Graph {
    /// Number of nodes in the graph.
    pub open spec fn node_count(&self) -> nat {
        self.names@.len()
    }

    /// Well-formed: one dependency list per node, every dependency index is a
    /// node, no dependency listed twice, and node names are pairwise distinct.
    pub open spec fn wf(&self) -> bool {
        &&& self.deps@.len() == self.names@.len()
        &&& forall|i: int, k: int|
            0 <= i < self.deps@.len() && 0 <= k < self.deps@[i]@.len()
                ==> (#[trigger] self.deps@[i]@[k]) < self.names@.len()
        &&& forall|i: int| 0 <= i < self.deps@.len() ==> (#[trigger] self.deps@[i]@).no_duplicates()
        &&& forall|i: int, j: int|
            0 <= i < j < self.names@.len() ==> self.names@[i]@ != self.names@[j]@
    }

    /// Package `a` depends on package `b`.
    pub open spec fn edge(&self, a: int, b: int) -> bool {
        &&& 0 <= a < self.deps@.len()
        &&& 0 <= b < self.names@.len()
        &&& self.deps@[a]@.contains(b as usize)
    }
}

/// Whether two descriptors in the input share one name.
pub open spec fn has_duplicate_name(ds: Seq<PackageDescriptor>) -> bool {
    exists|i: int, j: int| 0 <= i < j < ds.len() && ds[i].name@ == ds[j].name@
}

/// Whether descriptor `d` declares a dependency called `name`.
pub open spec fn declares_dependency(d: PackageDescriptor, name: Seq<char>) -> bool {
    exists|t: int| 0 <= t < d.dependency_names@.len() && (#[trigger] d.dependency_names@[t]@) == name
}

/// Find the index of `target` in `names`, comparing by contents.
fn find_name(names: &Vec<String>, target: &String) -> (r: Option<usize>)
    ensures
        match r {
            Some(k) => k < names@.len() && names@[k as int]@ == target@,
            None => forall|j: int| 0 <= j < names@.len() ==> (#[trigger] names@[j]@) != target@,
        },
{
    let mut j: usize = 0;
    while j < names.len()
        invariant
            j <= names@.len(),
            forall|t: int| 0 <= t < j ==> (#[trigger] names@[t]@) != target@,
        decreases names@.len() - j,
    {
        if names[j] == *target {
            return Some(j);
        }
        j += 1;
    }
    None
}

/// Whether `v` already holds `x`.
fn contains_index(v: &Vec<usize>, x: usize) -> (r: bool)
    ensures
        r == v@.contains(x),
{
    let mut j: usize = 0;
    while j < v.len()
        invariant
            j <= v@.len(),
            forall|t: int| 0 <= t < j ==> v@[t] != x,
        decreases v@.len() - j,
    {
        if v[j] == x {
            return true;
        }
        j += 1;
    }
    false
}

/// Build the dependency graph for a set of package descriptors.
///
/// Node `i` of the graph is descriptor `i`; its dependency list holds exactly
/// the indices of the descriptors whose names appear among descriptor `i`'s
/// declared dependency names. Dependencies on packages outside the input set
/// are pruned. Duplicate descriptor names are an error.
pub fn build_graph(descriptors: &Vec<PackageDescriptor>) -> (r: Result<Graph, DuplicatePackageName>)
    ensures
        r is Err <==> has_duplicate_name(descriptors@),
        match r {
            Ok(g) => {
                &&& g.wf()
                &&& g.names@.len() == descriptors@.len()
                &&& forall|i: int|
                    0 <= i < descriptors@.len() ==> (#[trigger] g.names@[i]@) == descriptors@[i].name@
                &&& forall|i: int, j: int|
                    0 <= i < descriptors@.len() && 0 <= j < descriptors@.len() ==> (g.edge(i, j)
                        <==> declares_dependency(descriptors@[i], g.names@[j]@))
            },
            Err(e) => exists|i: int, j: int|
                0 <= i < j < descriptors@.len() && descriptors@[i].name@ == descriptors@[j].name@
                    && e.name@ == descriptors@[j].name@,
        },
{
    let n = descriptors.len();
    let mut names: Vec<String> = Vec::new();
    let mut i: usize = 0;
    while i < n
        invariant
            n == descriptors@.len(),
            i <= n,
            names@.len() == i,
            forall|t: int| 0 <= t < i ==> (#[trigger] names@[t]@) == descriptors@[t].name@,
            forall|t: int, u: int| 0 <= t < u < i ==> descriptors@[t].name@ != descriptors@[u].name@,
        decreases n - i,
    {
        if let Some(j) = find_name(&names, &descriptors[i].name) {
            proof {
                assert(descriptors@[j as int].name@ == descriptors@[i as int].name@);
            }
            return Err(DuplicatePackageName { name: descriptors[i].name.clone() });
        }
        proof {
            assert forall|t: int| 0 <= t < i implies descriptors@[t].name@
                != descriptors@[i as int].name@ by {
                assert(names@[t]@ == descriptors@[t].name@);
            }
        }
        names.push(descriptors[i].name.clone());
        i += 1;
    }

    let mut deps: Vec<Vec<usize>> = Vec::new();
    let mut i: usize = 0;
    while i < n
        invariant
            n == descriptors@.len(),
            i <= n,
            names@.len() == n,
            forall|t: int| 0 <= t < n ==> (#[trigger] names@[t]@) == descriptors@[t].name@,
            forall|t: int, u: int| 0 <= t < u < n ==> names@[t]@ != names@[u]@,
            deps@.len() == i,
            forall|t: int, k: int|
                0 <= t < i && 0 <= k < deps@[t]@.len() ==> (#[trigger] deps@[t]@[k]) < n,
            forall|t: int| 0 <= t < i ==> (#[trigger] deps@[t]@).no_duplicates(),
            forall|t: int, j: int|
                0 <= t < i && 0 <= j < n ==> ((#[trigger] deps@[t]@.contains(j as usize))
                    <==> declares_dependency(descriptors@[t], names@[j]@)),
        decreases n - i,
    {
        let dn = &descriptors[i].dependency_names;
        let mut di: Vec<usize> = Vec::new();
        let mut k: usize = 0;
        while k < dn.len()
            invariant
                n == descriptors@.len(),
                names@.len() == n,
                i < n,
                dn@ == descriptors@[i as int].dependency_names@,
                forall|t: int| 0 <= t < n ==> (#[trigger] names@[t]@) == descriptors@[t].name@,
                forall|t: int, u: int| 0 <= t < u < n ==> names@[t]@ != names@[u]@,
                k <= dn@.len(),
                forall|t: int| 0 <= t < di@.len() ==> (#[trigger] di@[t]) < n,
                di@.no_duplicates(),
                forall|j: int|
                    0 <= j < n ==> ((#[trigger] di@.contains(j as usize)) <==> exists|t: int|
                        0 <= t < k && (#[trigger] dn@[t]@) == names@[j]@),
            decreases dn@.len() - k,
        {
            let found = find_name(&names, &dn[k]);
            let ghost di_before = di@;
            if let Some(j) = found {
                if !contains_index(&di, j) {
                    di.push(j);
                    proof {
                        assert(di@.drop_last() =~= di_before);
                        assert(di@[di@.len() - 1] == j);
                        assert forall|x: usize| #[trigger] di@.contains(x) implies di_before.contains(
                            x,
                        ) || x == j by {
                            let w = choose|w: int| 0 <= w < di@.len() && di@[w] == x;
                            if w < di@.len() - 1 {
                                assert(di_before[w] == x);
                            }
                        }
                        assert(di@.contains(j));
                    }
                }
            }
            proof {
                assert forall|j2: int| 0 <= j2 < n implies ((#[trigger] di@.contains(j2 as usize))
                    <==> exists|t: int| 0 <= t < k + 1 && (#[trigger] dn@[t]@) == names@[j2]@) by {
                    if di@.contains(j2 as usize) {
                        if di_before.contains(j2 as usize) {
                            let t = choose|t: int| 0 <= t < k && (#[trigger] dn@[t]@) == names@[j2]@;
                            assert(dn@[t]@ == names@[j2]@);
                        } else {
                            assert(found matches Some(j) && j2 == j as int);
                            assert(dn@[k as int]@ == names@[j2]@);
                        }
                    }
                    if exists|t: int| 0 <= t < k + 1 && (#[trigger] dn@[t]@) == names@[j2]@ {
                        let t = choose|t: int| 0 <= t < k + 1 && (#[trigger] dn@[t]@) == names@[j2]@;
                        if t < k {
                            assert(di_before.contains(j2 as usize));
                            assert(di@.contains(j2 as usize));
                        } else {
                            assert(dn@[k as int]@ == names@[j2]@);
                            let j = found.unwrap();
                            assert(names@[j as int]@ == names@[j2]@);
                            assert(j as int == j2);
                            assert(di@.contains(j2 as usize));
                        }
                    }
                }
            }
            k += 1;
        }
        deps.push(di);
        i += 1;
    }
    let g = Graph { names, deps };
    proof {
        assert forall|t: int, j: int|
            0 <= t < descriptors@.len() && 0 <= j < descriptors@.len() implies (g.edge(t, j)
            <==> declares_dependency(descriptors@[t], g.names@[j]@)) by {
            assert(g.deps@[t]@.contains(j as usize) <==> declares_dependency(
                descriptors@[t],
                g.names@[j]@,
            ));
        }
    }
    Ok(g)
}

} // verus!
