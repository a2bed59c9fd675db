use vstd::prelude::*;

use crate::ledger::{request_spec, EmitAction, EmitLedger};
use crate::graph::{lemma_members_below, lemma_outside_entry_sets, members_below, separate_assets, ArtifactGraph};

verus! {

/// One file to write: its destination and its bytes.
pub struct FileWrite {
    pub path: String,
    pub content: Vec<u8>,
}

/// The internal subgraph of `entry` under `root`, in increasing index order.
pub fn internal_assets(g: &ArtifactGraph, entry: usize, root: &str) -> (r: Vec<usize>)
    requires
        g.wf(),
        entry < g.len(),
    ensures
        r@ == members_below(g.internal_set(root@, entry), g.len()),
{
    separate_assets(g, entry, root).internal_assets
}

/// The boundary artifacts that the internal subgraph of `entry` refers to,
/// in increasing index order.
pub fn external_asset_entrypoints(g: &ArtifactGraph, entry: usize, root: &str) -> (r: Vec<usize>)
    requires
        g.wf(),
        entry < g.len(),
    ensures
        r@ == members_below(g.external_set(root@, entry), g.len()),
{
    separate_assets(g, entry, root).external_asset_entrypoints
}

fn copy_bytes(src: &Vec<u8>) -> (r: Vec<u8>)
    ensures
        r@ == src@,
{
    let mut out: Vec<u8> = Vec::new();
    let mut i: usize = 0;
    while i < src.len()
        invariant
            i <= src@.len(),
            out@ == src@.subrange(0, i as int),
        decreases src@.len() - i,
    {
        out.push(src[i]);
        i = i + 1;
        assert(out@ =~= src@.subrange(0, i as int));
    }
    assert(out@ =~= src@);
    out
}

/// `w` writes exactly the artifacts `ids`, in that order, each to its own
/// destination with its own content.
pub open spec fn writes_match(g: &ArtifactGraph, ids: Seq<usize>, w: Seq<FileWrite>) -> bool {
    &&& w.len() == ids.len()
    &&& forall|i: int|
        0 <= i < w.len() ==> (#[trigger] w[i]).path@ == g.path_of(ids[i]) && w[i].content@
            == g.artifacts@[ids[i] as int].content@
}

/// The writes that emitting `entry` under `root` performs: one per artifact
/// of the internal subgraph, and none when the entry lies outside `root`.
pub fn emit(g: &ArtifactGraph, entry: usize, root: &str) -> (r: Vec<FileWrite>)
    requires
        g.wf(),
        entry < g.len(),
    ensures
        writes_match(g, members_below(g.internal_set(root@, entry), g.len()), r@),
{
    let ids = internal_assets(g, entry, root);
    let mut out: Vec<FileWrite> = Vec::new();
    let mut i: usize = 0;
    assert forall|k: int| 0 <= k < ids@.len() implies #[trigger] ids@[k] < g.len() by {
        lemma_members_below(g.internal_set(root@, entry), g.len(), ids@[k]);
    }
    while i < ids.len()
        invariant
            i <= ids@.len(),
            forall|k: int| 0 <= k < ids@.len() ==> #[trigger] ids@[k] < g.len(),
            writes_match(g, ids@.subrange(0, i as int), out@),
        decreases ids@.len() - i,
    {
        let a = &g.artifacts[ids[i]];
        let ghost before = out@;
        out.push(FileWrite { path: a.path.clone(), content: copy_bytes(&a.content) });
        i = i + 1;
        assert forall|k: int| 0 <= k < out@.len() implies (#[trigger] out@[k]).path@ == g.path_of(
            ids@.subrange(0, i as int)[k],
        ) && out@[k].content@ == g.artifacts@[ids@.subrange(0, i as int)[k] as int].content@ by {
            if k < before.len() {
                assert(out@[k] == before[k]);
            }
        }
    }
    assert(ids@.subrange(0, ids@.len() as int) =~= ids@);
    out
}

/// Emits `entry` under `root` at most once across callers sharing `ledger`:
/// the first caller gets `Write` together with the writes to perform (and
/// calls `complete` once all of them finished); later callers get `Wait` or
/// `Ready` and no writes.
pub fn emit_once(ledger: &mut EmitLedger, g: &ArtifactGraph, entry: usize, root: &str) -> (r: (
    EmitAction,
    Vec<FileWrite>,
))
    requires
        g.wf(),
        entry < g.len(),
    ensures
        (final(ledger)@, r.0) == request_spec(old(ledger)@, entry, root@),
        r.0 == EmitAction::Write ==> writes_match(g, members_below(g.internal_set(root@, entry), g.len()), r.1@),
        r.0 != EmitAction::Write ==> r.1@.len() == 0,
{
    let action = ledger.request(entry, root);
    match action {
        EmitAction::Write => (action, emit(g, entry, root)),
        _ => (action, Vec::new()),
    }
}

/// Emitting an entry that lies outside the root writes nothing.
pub proof fn lemma_outside_entry_writes_nothing(
    g: &ArtifactGraph,
    entry: usize,
    root: Seq<char>,
    writes: Seq<FileWrite>,
)
    requires
        entry < g.len() <= usize::MAX,
        !g.inside(entry, root),
        writes_match(g, members_below(g.internal_set(root, entry), g.len()), writes),
    ensures
        writes.len() == 0,
{
    lemma_outside_entry_sets(g, entry, root);
}

} // verus!
