use modgraph::graph::build_graph;
use modgraph::record::{build_inventory, failure_record, records_for_manifest};
use modgraph::record::{Dep, DepList, LoadOutcome, Manifest, ModRecord};

fn dep(target: &str, mandatory: bool) -> Dep {
    Dep { target: target.to_string(), mandatory }
}

fn record(source: &str, mod_id: &str, deps: Vec<Dep>) -> ModRecord {
    ModRecord { source: source.to_string(), mod_id: mod_id.to_string(), deps }
}

#[test]
fn empty_directory_gives_empty_graph() {
    let outcomes: Vec<LoadOutcome> = Vec::new();
    let inventory = build_inventory(&outcomes);
    assert_eq!(inventory.len(), 0);
    let mut g = build_graph(&inventory);
    assert_eq!(g.node_count(), 0);
    assert_eq!(g.edge_count(), 0);
    g.reduce();
    assert_eq!(g.node_count(), 0);
    assert_eq!(g.edge_count(), 0);
    assert_eq!(g.to_dot().as_str(), "digraph {\n}\n");
}

#[test]
fn duplicate_mod_id_collapses_to_one_node() {
    let records = vec![
        record("a.jar", "modA", vec![]),
        record("b.jar", "modA", vec![]),
    ];
    let g = build_graph(&records);
    assert_eq!(g.node_count(), 1);
    assert_eq!(g.edge_count(), 0);
}

#[test]
fn self_loop_is_removed_by_reduction() {
    let records = vec![record("a.jar", "modA", vec![dep("modA", true)])];
    let mut g = build_graph(&records);
    assert_eq!(g.node_count(), 1);
    assert_eq!(g.edge_count(), 1);
    g.reduce();
    assert_eq!(g.edge_count(), 0);
    assert_eq!(g.edge_flag(0, 0), None);
}

#[test]
fn platform_targets_never_become_edges() {
    let records = vec![record(
        "a.jar",
        "modA",
        vec![dep("forge", true), dep("minecraft", true), dep("modB", true)],
    )];
    let g = build_graph(&records);
    assert_eq!(g.node_count(), 2);
    assert_eq!(g.edge_count(), 1);
    assert_eq!(g.edge_flag(0, 1), Some(true));
}

#[test]
fn two_hop_shortcut_is_removed() {
    let records = vec![
        record("a.jar", "modA", vec![dep("modB", true), dep("modC", true)]),
        record("b.jar", "modB", vec![dep("modC", true)]),
        record("c.jar", "modC", vec![]),
    ];
    let mut g = build_graph(&records);
    assert_eq!(g.node_count(), 3);
    assert_eq!(g.edge_count(), 3);
    g.reduce();
    // modA = 0, modB = 1, modC = 2.
    assert_eq!(g.edge_flag(0, 1), Some(true));
    assert_eq!(g.edge_flag(1, 2), Some(true));
    assert_eq!(g.edge_flag(0, 2), None);
    assert_eq!(g.edge_count(), 2);
}

#[test]
fn single_pass_is_not_a_fixed_point() {
    // Chain modA -> modB -> modC -> modD plus the shortcuts
    // modA -> modC, modA -> modD and modB -> modD. Declaring modB first
    // gives the node order modB = 0, modA = 1, modC = 2, modD = 3.
    //
    // The single ascending pass visits source modB first and removes
    // modB -> modD (via modC); at source modA it removes modA -> modC
    // (via modB -> modC) only after the triple that could have removed
    // modA -> modD had already lost both witnesses (modB -> modD was
    // gone, and modA -> modC still present then but checked later).
    // Oracle: modA -> modB, modB -> modC, modC -> modD and the leftover
    // shortcut modA -> modD survive; a full transitive reduction would
    // have removed modA -> modD too.
    let records = vec![
        record("b.jar", "modB", vec![dep("modC", true), dep("modD", true)]),
        record("a.jar", "modA", vec![dep("modB", true), dep("modC", true), dep("modD", true)]),
        record("c.jar", "modC", vec![dep("modD", true)]),
        record("d.jar", "modD", vec![]),
    ];
    let mut g = build_graph(&records);
    assert_eq!(g.node_count(), 4);
    assert_eq!(g.edge_count(), 6);
    g.reduce();
    // modB = 0, modA = 1, modC = 2, modD = 3.
    assert_eq!(g.edge_flag(1, 0), Some(true)); // modA -> modB
    assert_eq!(g.edge_flag(0, 2), Some(true)); // modB -> modC
    assert_eq!(g.edge_flag(2, 3), Some(true)); // modC -> modD
    assert_eq!(g.edge_flag(1, 3), Some(true)); // modA -> modD survives
    assert_eq!(g.edge_flag(0, 3), None); // modB -> modD removed
    assert_eq!(g.edge_flag(1, 2), None); // modA -> modC removed
    assert_eq!(g.edge_count(), 4);
}

#[test]
fn parse_failure_yields_sentinel_and_keeps_valid_mod() {
    let outcomes = vec![
        LoadOutcome { path: "broken.jar".to_string(), manifest: None },
        LoadOutcome {
            path: "good.jar".to_string(),
            manifest: Some(Manifest {
                mods: vec!["modX".to_string()],
                deps: vec![DepList {
                    mod_id: "modX".to_string(),
                    deps: vec![dep("modY", true)],
                }],
            }),
        },
    ];
    let inventory = build_inventory(&outcomes);
    assert_eq!(inventory.len(), 2);
    assert_eq!(inventory[0].mod_id.as_str(), "");
    assert_eq!(inventory[0].source.as_str(), "broken.jar");
    assert_eq!(inventory[0].deps.len(), 0);
    assert_eq!(inventory[1].mod_id.as_str(), "modX");
    assert_eq!(inventory[1].deps.len(), 1);
    let g = build_graph(&inventory);
    // The sentinel's empty identifier contributes no node.
    assert_eq!(g.node_count(), 2);
    assert_eq!(g.edge_flag(0, 1), Some(true));
}

#[test]
fn records_for_manifest_looks_up_declared_deps() {
    let m = Manifest {
        mods: vec!["modA".to_string(), "modB".to_string()],
        deps: vec![DepList {
            mod_id: "modA".to_string(),
            deps: vec![dep("modB", true), dep("modC", false)],
        }],
    };
    let records = records_for_manifest(&"x.jar".to_string(), &m);
    assert_eq!(records.len(), 2);
    assert_eq!(records[0].mod_id.as_str(), "modA");
    assert_eq!(records[0].deps.len(), 2);
    assert_eq!(records[0].deps[1].target.as_str(), "modC");
    assert!(!records[0].deps[1].mandatory);
    assert_eq!(records[1].mod_id.as_str(), "modB");
    assert_eq!(records[1].deps.len(), 0);
}

#[test]
fn failure_record_is_the_empty_sentinel() {
    let r = failure_record("bad.jar".to_string());
    assert_eq!(r.source.as_str(), "bad.jar");
    assert_eq!(r.mod_id.as_str(), "");
    assert_eq!(r.deps.len(), 0);
}

#[test]
fn end_to_end_redundant_edge_removed() {
    let records = vec![
        record("a.jar", "modA", vec![dep("modB", true), dep("modC", true)]),
        record("b.jar", "modB", vec![dep("modC", true)]),
        record("c.jar", "modC", vec![]),
    ];
    let mut g = build_graph(&records);
    g.reduce();
    let out = g.to_dot();
    assert_eq!(
        out.as_str(),
        "digraph {\n    0 [ label = \"modA\" ]\n    1 [ label = \"modB\" ]\n    2 [ label = \"modC\" ]\n    0 -> 1 [ ]\n    1 -> 2 [ ]\n}\n"
    );
}

#[test]
fn optional_edge_is_rendered_gray() {
    let records = vec![record("a.jar", "modA", vec![dep("modB", false)])];
    let mut g = build_graph(&records);
    g.reduce();
    let out = g.to_dot();
    assert_eq!(
        out.as_str(),
        "digraph {\n    0 [ label = \"modA\" ]\n    1 [ label = \"modB\" ]\n    0 -> 1 [ color = gray36]\n}\n"
    );
}

#[test]
fn later_flag_overwrites_earlier_edge() {
    let records = vec![record(
        "a.jar",
        "modA",
        vec![dep("modB", true), dep("modB", false)],
    )];
    let g = build_graph(&records);
    assert_eq!(g.edge_count(), 1);
    assert_eq!(g.edge_flag(0, 1), Some(false));
}

#[test]
fn node_indices_render_in_decimal() {
    let mut records = Vec::new();
    for i in 0..12 {
        records.push(record("m.jar", &format!("mod{}", i), vec![]));
    }
    let g = build_graph(&records);
    let out = g.to_dot();
    assert!(out.contains("    10 [ label = \"mod10\" ]"));
    assert!(out.contains("    11 [ label = \"mod11\" ]"));
}
