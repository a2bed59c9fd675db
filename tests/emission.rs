use nodejs_render::emission::{emit, emit_once, external_asset_entrypoints, internal_assets};
use nodejs_render::graph::{Artifact, ArtifactGraph};
use nodejs_render::ledger::{EmitAction, EmitLedger};

fn sample() -> ArtifactGraph {
    ArtifactGraph {
        artifacts: vec![
            Artifact { path: "out/index.js".to_string(), content: b"main".to_vec(), references: vec![1, 2] },
            Artifact { path: "out/chunk.js".to_string(), content: b"chunk".to_vec(), references: vec![] },
            Artifact { path: "lib/ext.js".to_string(), content: b"ext".to_vec(), references: vec![] },
        ],
    }
}

#[test]
fn internal_and_external_lists() {
    let g = sample();
    assert_eq!(internal_assets(&g, 0, "out"), vec![0, 1]);
    assert_eq!(external_asset_entrypoints(&g, 0, "out"), vec![2]);
}

#[test]
fn emit_writes_each_internal_artifact() {
    let g = sample();
    let writes = emit(&g, 0, "out");
    assert_eq!(writes.len(), 2);
    assert_eq!(writes[0].path, "out/index.js");
    assert_eq!(writes[0].content, b"main".to_vec());
    assert_eq!(writes[1].path, "out/chunk.js");
    assert_eq!(writes[1].content, b"chunk".to_vec());
}

#[test]
fn emit_outside_entry_writes_nothing() {
    let g = sample();
    assert!(emit(&g, 2, "out").is_empty());
}

#[test]
fn ledger_hands_out_one_write_pass() {
    let mut ledger = EmitLedger::new();
    assert_eq!(ledger.request(0, "out"), EmitAction::Write);
    for _ in 0..5 {
        assert_eq!(ledger.request(0, "out"), EmitAction::Wait);
    }
    assert_eq!(ledger.request(0, "other"), EmitAction::Write);
    assert_eq!(ledger.request(1, "out"), EmitAction::Write);
    assert_eq!(ledger.status_of(0, "out"), Some(false));
    ledger.complete(0, "out");
    assert_eq!(ledger.status_of(0, "out"), Some(true));
    assert_eq!(ledger.request(0, "out"), EmitAction::Ready);
    assert_eq!(ledger.request(0, "other"), EmitAction::Wait);
    assert_eq!(ledger.status_of(2, "out"), None);
}

#[test]
fn emit_once_hands_out_writes_once() {
    let g = sample();
    let mut ledger = EmitLedger::new();
    let (first, writes) = emit_once(&mut ledger, &g, 0, "out");
    assert_eq!(first, EmitAction::Write);
    assert_eq!(writes.len(), 2);
    assert_eq!(writes[1].path, "out/chunk.js");
    for _ in 0..3 {
        let (again, none) = emit_once(&mut ledger, &g, 0, "out");
        assert_eq!(again, EmitAction::Wait);
        assert!(none.is_empty());
    }
    ledger.complete(0, "out");
    let (done, none) = emit_once(&mut ledger, &g, 0, "out");
    assert_eq!(done, EmitAction::Ready);
    assert!(none.is_empty());
}
