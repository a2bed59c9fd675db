use nodejs_render::graph::{is_inside, is_valid_input, separate_assets, Artifact, ArtifactGraph};

fn artifact(path: &str, refs: Vec<usize>) -> Artifact {
    Artifact { path: path.to_string(), content: path.as_bytes().to_vec(), references: refs }
}

// 0 out/index.js -> 1, 2
// 1 out/chunk.js -> 3, 0 (cycle back to the entry)
// 2 node_modules/react.js -> 4 (never followed)
// 3 out/sub/deep.js -> 2 (boundary reached twice)
// 4 out/hidden.js (behind a boundary only)
// 5 out/unused.js (unreferenced)
fn sample() -> ArtifactGraph {
    ArtifactGraph {
        artifacts: vec![
            artifact("out/index.js", vec![1, 2]),
            artifact("out/chunk.js", vec![3, 0]),
            artifact("node_modules/react.js", vec![4]),
            artifact("out/sub/deep.js", vec![2]),
            artifact("out/hidden.js", vec![]),
            artifact("out/unused.js", vec![]),
        ],
    }
}

#[test]
fn inside_requires_segment_boundary() {
    assert!(is_inside("out/a.js", "out"));
    assert!(is_inside("out/sub/a.js", "out"));
    assert!(!is_inside("output/a.js", "out"));
    assert!(!is_inside("out", "out"));
    assert!(!is_inside("other/a.js", "out"));
    assert!(is_inside("a.js", ""));
    assert!(!is_inside("", ""));
}

#[test]
fn partition_follows_internal_references_only() {
    let g = sample();
    let r = separate_assets(&g, 0, "out");
    assert_eq!(r.internal_assets, vec![0, 1, 3]);
    assert_eq!(r.external_asset_entrypoints, vec![2]);
}

#[test]
fn partition_sets_are_disjoint_and_cover_reached() {
    let g = sample();
    let r = separate_assets(&g, 0, "out");
    for a in &r.internal_assets {
        assert!(!r.external_asset_entrypoints.contains(a));
    }
    let mut all: Vec<usize> = r.internal_assets.clone();
    all.extend(r.external_asset_entrypoints.iter().copied());
    all.sort();
    assert_eq!(all, vec![0, 1, 2, 3]);
}

#[test]
fn partition_is_repeatable_and_order_independent() {
    let g = sample();
    let first = separate_assets(&g, 0, "out");
    let second = separate_assets(&g, 0, "out");
    assert_eq!(first.internal_assets, second.internal_assets);
    assert_eq!(first.external_asset_entrypoints, second.external_asset_entrypoints);
    let mut permuted = sample();
    for a in permuted.artifacts.iter_mut() {
        a.references.reverse();
    }
    let third = separate_assets(&permuted, 0, "out");
    assert_eq!(first.internal_assets, third.internal_assets);
    assert_eq!(first.external_asset_entrypoints, third.external_asset_entrypoints);
}

#[test]
fn entry_outside_root_is_boundary_only() {
    let g = sample();
    let r = separate_assets(&g, 2, "out");
    assert!(r.internal_assets.is_empty());
    assert_eq!(r.external_asset_entrypoints, vec![2]);
}

#[test]
fn everything_internal_under_empty_root() {
    let g = sample();
    let r = separate_assets(&g, 0, "");
    assert_eq!(r.internal_assets, vec![0, 1, 2, 3, 4]);
    assert!(r.external_asset_entrypoints.is_empty());
}

#[test]
fn single_artifact_graph() {
    let g = ArtifactGraph { artifacts: vec![artifact("out/index.js", vec![0])] };
    let r = separate_assets(&g, 0, "out");
    assert_eq!(r.internal_assets, vec![0]);
    assert!(r.external_asset_entrypoints.is_empty());
}

#[test]
fn valid_input_checks_references_and_entry() {
    let g = sample();
    assert!(is_valid_input(&g, 0));
    assert!(is_valid_input(&g, 5));
    assert!(!is_valid_input(&g, 6));
    let broken = ArtifactGraph { artifacts: vec![artifact("out/a.js", vec![1])] };
    assert!(!is_valid_input(&broken, 0));
}
