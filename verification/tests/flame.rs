use kernelwhisper::flame::{add_path, sort_and_cap, sort_by_value_desc, FlameNode};
use kernelwhisper::profiler::{clone_tree, gpu_stack_from_telemetry, ProfileAggregator};
use kernelwhisper::types::{FlameKind, GpuUtilSource};

fn node(name: &str, value: u64) -> FlameNode {
    FlameNode { name: name.to_string(), value, children: Vec::new() }
}

fn frames(v: &[&str]) -> Vec<String> {
    v.iter().map(|s| s.to_string()).collect()
}

fn child<'a>(n: &'a FlameNode, name: &str) -> &'a FlameNode {
    n.children.iter().find(|c| c.name == name).unwrap()
}

#[test]
fn add_path_counts_inclusively() {
    let mut root = node("cpu", 0);
    add_path(&mut root, &frames(&["main", "work"]), 1);
    add_path(&mut root, &frames(&["main", "idle"]), 1);
    add_path(&mut root, &frames(&["main", "work", "inner"]), 2);
    add_path(&mut root, &frames(&["other"]), 1);
    assert_eq!(root.value, 5);
    let main = child(&root, "main");
    assert_eq!(main.value, 4);
    assert_eq!(child(main, "work").value, 3);
    assert_eq!(child(main, "idle").value, 1);
    assert_eq!(child(child(main, "work"), "inner").value, 2);
    assert_eq!(child(&root, "other").value, 1);
    // new children are appended in first-seen order
    assert_eq!(root.children[0].name, "main");
    assert_eq!(root.children[1].name, "other");
}

#[test]
fn add_path_saturates() {
    let mut root = node("r", u64::MAX - 1);
    add_path(&mut root, &frames(&[]), 5);
    assert_eq!(root.value, u64::MAX);
    assert!(root.children.is_empty());
}

#[test]
fn sort_is_stable_and_descending() {
    let mut v = vec![node("a", 1), node("b", 3), node("c", 1), node("d", 3), node("e", 2)];
    sort_by_value_desc(&mut v);
    let names: Vec<&str> = v.iter().map(|n| n.name.as_str()).collect();
    assert_eq!(names, vec!["b", "d", "e", "a", "c"]);
}

#[test]
fn sort_and_cap_merges_the_tail() {
    let mut root = node("cpu", 100);
    for i in 0..30u64 {
        root.children.push(node(&format!("f{i}"), i + 1));
    }
    sort_and_cap(&mut root);
    assert_eq!(root.children.len(), 25);
    assert_eq!(root.children[0].name, "f29");
    assert_eq!(root.children[23].name, "f6");
    let other = &root.children[24];
    assert_eq!(other.name, "… other ×6");
    assert_eq!(other.value, 1 + 2 + 3 + 4 + 5 + 6);
    assert_eq!(root.value, 100);
}

#[test]
fn sort_and_cap_drops_a_zero_tail() {
    let mut root = node("cpu", 5);
    for i in 0..26u64 {
        root.children.push(node(&format!("f{i}"), if i < 24 { 1 } else { 0 }));
    }
    sort_and_cap(&mut root);
    assert_eq!(root.children.len(), 24);
    assert!(root.children.iter().all(|c| c.value == 1));
}

#[test]
fn sort_and_cap_recurses() {
    let mut root = node("cpu", 3);
    let mut a = node("a", 3);
    a.children.push(node("x", 1));
    a.children.push(node("y", 2));
    root.children.push(a);
    sort_and_cap(&mut root);
    assert_eq!(root.children[0].children[0].name, "y");
    assert_eq!(root.children[0].children[1].name, "x");
}

#[test]
fn aggregator_merges_native_stacks() {
    let mut agg = ProfileAggregator::new();
    let stacks = vec![frames(&["main", "a"]), vec![], frames(&["main", "b"]), frames(&["main", "a"])];
    agg.merge_native_cpu(&stacks);
    let p = agg.cpu_profile(None);
    assert_eq!(p.kind, FlameKind::Cpu);
    assert_eq!(p.total_samples, 3);
    assert_eq!(p.root.name, "cpu");
    assert_eq!(p.root.value, 3);
    let main = &p.root.children[0];
    assert_eq!(main.value, 3);
    assert_eq!(main.children[0].name, "a");
    assert_eq!(main.children[0].value, 2);
    assert_eq!(main.children[1].name, "b");
}

#[test]
fn aggregator_ingests_gpu_ticks() {
    let mut agg = ProfileAggregator::new();
    agg.ingest_telemetry(GpuUtilSource::NvidiaSmi, "42");
    agg.ingest_telemetry(GpuUtilSource::NvidiaSmi, "42");
    agg.ingest_telemetry(GpuUtilSource::EstimatedFromCpu, "7");
    let p = agg.gpu_profile(None);
    assert_eq!(p.kind, FlameKind::Gpu);
    assert_eq!(p.total_samples, 3);
    assert_eq!(p.root.name, "gpu");
    assert_eq!(p.root.children[0].name, "nvidia_smi");
    assert_eq!(p.root.children[0].value, 2);
    assert_eq!(p.root.children[0].children[0].name, "42%");
    assert_eq!(p.root.children[1].name, "host_estimate");
    assert_eq!(p.root.children[1].children[0].name, "7%");
    assert_eq!(agg.cpu_profile(None).total_samples, 0);
}

#[test]
fn gpu_stack_names_source_and_percent() {
    assert_eq!(
        gpu_stack_from_telemetry(GpuUtilSource::Mock, "100"),
        vec!["mock_tracer".to_string(), "100%".to_string()]
    );
}

#[test]
fn clone_tree_copies_deeply() {
    let mut root = node("r", 2);
    add_path(&mut root, &frames(&["a", "b"]), 1);
    let c = clone_tree(&root);
    assert_eq!(c.name, "r");
    assert_eq!(c.value, 3);
    assert_eq!(c.children[0].children[0].name, "b");
}

#[test]
fn profiles_carry_the_given_timestamp() {
    let agg = ProfileAggregator::new();
    assert_eq!(agg.cpu_profile(Some(1_700_000_000_000_000_000)).updated_at_nanos, Some(1_700_000_000_000_000_000));
    assert_eq!(agg.gpu_profile(Some(-5)).updated_at_nanos, Some(-5));
    assert_eq!(agg.gpu_profile(None).updated_at_nanos, None);
}

#[test]
fn sort_and_cap_takes_children_whose_values_sum_past_u64() {
    let mut root = node("r", u64::MAX);
    root.children.push(node("a", u64::MAX));
    root.children.push(node("b", u64::MAX));
    sort_and_cap(&mut root);
    assert_eq!(root.children.len(), 2);
    assert_eq!(root.children[0].name, "a");
    assert_eq!(root.children[1].value, u64::MAX);
}

#[test]
fn gpu_tree_stays_two_levels_deep() {
    let mut agg = ProfileAggregator::new();
    for i in 0..50u32 {
        agg.ingest_telemetry(GpuUtilSource::Mock, &i.to_string());
    }
    let p = agg.gpu_profile(None);
    for src in &p.root.children {
        for pct in &src.children {
            assert!(pct.children.is_empty());
        }
    }
}

#[test]
fn two_merges_count_like_one() {
    let a = vec![frames(&["main", "a"]), frames(&["main", "b"])];
    let b = vec![frames(&["main", "a"]), vec![], frames(&["x"])];
    let mut p1 = ProfileAggregator::new();
    p1.merge_native_cpu(&a);
    p1.merge_native_cpu(&b);
    let mut p2 = ProfileAggregator::new();
    let both: Vec<Vec<String>> = a.iter().chain(b.iter()).cloned().collect();
    p2.merge_native_cpu(&both);
    let r1 = p1.cpu_profile(None);
    let r2 = p2.cpu_profile(None);
    assert_eq!(r1.total_samples, 4);
    assert_eq!(r1.total_samples, r2.total_samples);
    assert_eq!(child(&r1.root, "main").value, child(&r2.root, "main").value);
    assert_eq!(child(child(&r1.root, "main"), "a").value, 2);
    assert_eq!(child(child(&r2.root, "main"), "a").value, 2);
    assert_eq!(child(&r1.root, "x").value, child(&r2.root, "x").value);
}

#[test]
fn sort_and_cap_never_visits_a_dropped_child() {
    let mut root = node("r", 0);
    for i in 0..24 {
        root.children.push(node(&format!("k{i}"), 10));
    }
    // dropped into the merged node: its own children would overflow a sum
    let mut d = node("d", 1);
    for i in 0..26 {
        d.children.push(node(&format!("g{i}"), u64::MAX));
    }
    root.children.push(d);
    sort_and_cap(&mut root);
    assert_eq!(root.children.len(), 25);
    assert_eq!(root.children[24].name, "… other ×1");
    assert_eq!(root.children[24].value, 1);
    assert!(root.children[24].children.is_empty());
}
