use integ::graph::{build_graph, Graph};
use integ::orchestrator::dependency_artifacts;
use integ::progress::Progress;
use integ::staleness::{decide, StalenessDecision};
use integ::PackageDescriptor;

fn descriptor(name: &str, deps: &[&str]) -> PackageDescriptor {
    PackageDescriptor {
        name: String::from(name),
        dependency_names: deps.iter().map(|d| String::from(*d)).collect(),
    }
}

/// A pretend filesystem: artifact path -> last-modified timestamp.
struct Artifacts {
    times: Vec<(String, u64)>,
    clock: u64,
}

impl Artifacts {
    fn time_of(&self, path: &str) -> Option<u64> {
        self.times.iter().find(|(p, _)| p == path).map(|(_, t)| *t)
    }

    fn write(&mut self, path: &str) -> u64 {
        self.clock += 1;
        self.times.retain(|(p, _)| p != path);
        self.times.push((String::from(path), self.clock));
        self.clock
    }
}

/// One orchestration pass: for each package in order, skip or "build"
/// (stamp a fresh artifact and record it). Returns how many were built.
fn run_pass(g: &Graph, order: &[usize], progress: &mut Progress, fs: &mut Artifacts) -> usize {
    let mut built = 0;
    for &node in order {
        let name = g.names[node].clone();
        let deps = dependency_artifacts(g, node, progress);
        let dep_times: Vec<Option<u64>> = deps
            .iter()
            .map(|(_, path)| path.as_ref().and_then(|p| fs.time_of(p)))
            .collect();
        let recorded = progress.lookup(&name).and_then(|p| fs.time_of(&p));
        match decide(recorded, &dep_times) {
            StalenessDecision::Skip => {}
            StalenessDecision::Rebuild => {
                let artifact = format!("/out/{}.tgz", name);
                fs.write(&artifact);
                progress.record(name, artifact);
                built += 1;
            }
        }
    }
    built
}

#[test]
fn diamond_build_skips_until_a_dependency_is_touched() {
    let ds = vec![
        descriptor("a", &[]),
        descriptor("b", &["a"]),
        descriptor("c", &["a", "b"]),
        descriptor("d", &["a", "b", "c"]),
    ];
    let g = build_graph(&ds).unwrap();
    let order = integ::toposort::sort(&g).unwrap();
    assert_eq!(order, vec![0, 1, 2, 3]);

    let mut fs = Artifacts { times: Vec::new(), clock: 0 };
    let mut progress = Progress::new();

    // first run: nothing recorded, everything is built
    assert_eq!(run_pass(&g, &order, &mut progress, &mut fs), 4);
    assert_eq!(progress.entries.len(), 4);

    // second run: artifacts unchanged, nothing is built
    assert_eq!(run_pass(&g, &order, &mut progress, &mut fs), 0);

    // touch a's artifact: its dependents b, c, d all rebuild, a does not
    fs.write("/out/a.tgz");
    assert_eq!(run_pass(&g, &order, &mut progress, &mut fs), 3);

    // and the run after that is again all skips
    assert_eq!(run_pass(&g, &order, &mut progress, &mut fs), 0);
}

#[test]
fn a_vanished_dependency_artifact_forces_a_rebuild_of_the_dependent() {
    let ds = vec![descriptor("a", &[]), descriptor("b", &["a"])];
    let g = build_graph(&ds).unwrap();
    let order = integ::toposort::sort(&g).unwrap();

    let mut fs = Artifacts { times: Vec::new(), clock: 0 };
    let mut progress = Progress::new();
    assert_eq!(run_pass(&g, &order, &mut progress, &mut fs), 2);

    // a's artifact disappears from disk but stays recorded: a itself is
    // rebuilt (its own timestamp is unreadable), and b follows
    fs.times.retain(|(p, _)| p != "/out/a.tgz");
    assert_eq!(run_pass(&g, &order, &mut progress, &mut fs), 2);
}
