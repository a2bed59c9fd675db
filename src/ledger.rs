use vstd::prelude::*;

verus! {

/// What a caller that asks to emit a target is told to do.
#[derive(PartialEq, Eq, Structural, Clone, Copy, Debug)]
pub enum EmitAction {
    /// Nobody has started: this caller performs the writes.
    Write,
    /// Another caller is writing: wait for its completion.
    Wait,
    /// The writes have all finished.
    Ready,
}

/// One event of the ledger: emission of `entry` under `root` started, or
/// (with `finished`) completed.
pub struct EmitRecord {
    pub entry: usize,
    pub root: String,
    pub finished: bool,
}

/// The history of emissions, keyed by (entry, output root); the latest record
/// of a key is its state.
pub struct EmitLedger {
    records: Vec<EmitRecord>,
}

/// The state of a key: absent, started (`false`) or finished (`true`).
pub open spec fn status(log: Seq<(usize, Seq<char>, bool)>, entry: usize, root: Seq<char>) -> Option<bool>
    decreases log.len(),
{
    if log.len() == 0 {
        None
    } else if log.last().0 == entry && log.last().1 == root {
        Some(log.last().2)
    } else {
        status(log.drop_last(), entry, root)
    }
}

pub open spec fn action_for(s: Option<bool>) -> EmitAction {
    match s {
        None => EmitAction::Write,
        Some(false) => EmitAction::Wait,
        Some(true) => EmitAction::Ready,
    }
}

/// A request: the first for a key records the start and gets `Write`.
pub open spec fn request_spec(log: Seq<(usize, Seq<char>, bool)>, entry: usize, root: Seq<char>) -> (
    Seq<(usize, Seq<char>, bool)>,
    EmitAction,
) {
    let s = status(log, entry, root);
    (
        if s is None {
            log.push((entry, root, false))
        } else {
            log
        },
        action_for(s),
    )
}

/// The answers to a run of requests, one after another.
pub open spec fn run_requests(log: Seq<(usize, Seq<char>, bool)>, keys: Seq<(usize, Seq<char>)>) -> Seq<
    EmitAction,
>
    decreases keys.len(),
{
    if keys.len() == 0 {
        Seq::empty()
    } else {
        let next = request_spec(log, keys[0].0, keys[0].1);
        seq![next.1] + run_requests(next.0, keys.drop_first())
    }
}

impl View for EmitLedger {
    type V = Seq<(usize, Seq<char>, bool)>;

    closed spec fn view(&self) -> Seq<(usize, Seq<char>, bool)> {
        self.records@.map_values(|r: EmitRecord| (r.entry, r.root@, r.finished))
    }
}

impl EmitLedger {
    pub fn new() -> (r: EmitLedger)
        ensures
            r@ == Seq::<(usize, Seq<char>, bool)>::empty(),
    {
        let r = EmitLedger { records: Vec::new() };
        assert(r@ =~= Seq::<(usize, Seq<char>, bool)>::empty());
        r
    }

    /// The state of `(entry, root)`.
    pub fn status_of(&self, entry: usize, root: &str) -> (r: Option<bool>)
        ensures
            r == status(self@, entry, root@),
    {
        let ghost log = self@;
        let mut i: usize = self.records.len();
        proof {
            assert(log.subrange(0, i as int) =~= log);
        }
        while i > 0
            invariant
                i <= self.records@.len(),
                log == self@,
                status(log, entry, root@) == status(log.subrange(0, i as int), entry, root@),
            decreases i,
        {
            i = i - 1;
            let rec = &self.records[i];
            let root_owned = String::from_str(root);
            proof {
                let pre = log.subrange(0, i + 1);
                assert(pre.drop_last() =~= log.subrange(0, i as int));
                assert(pre.last() == log[i as int]);
            }
            if rec.entry == entry && rec.root == root_owned {
                return Some(rec.finished);
            }
        }
        None
    }

    /// Asks to emit `(entry, root)`: the first caller is told to write, later
    /// ones to wait for it or that the writes are done.
    pub fn request(&mut self, entry: usize, root: &str) -> (r: EmitAction)
        ensures
            (final(self)@, r) == request_spec(old(self)@, entry, root@),
    {
        let s = self.status_of(entry, root);
        match s {
            None => {
                self.records.push(EmitRecord { entry, root: String::from_str(root), finished: false });
                assert(self@ =~= old(self)@.push((entry, root@, false)));
                EmitAction::Write
            },
            Some(false) => EmitAction::Wait,
            Some(true) => EmitAction::Ready,
        }
    }

    /// Records that every write of `(entry, root)` has finished.
    pub fn complete(&mut self, entry: usize, root: &str)
        ensures
            final(self)@ == old(self)@.push((entry, root@, true)),
    {
        self.records.push(EmitRecord { entry, root: String::from_str(root), finished: true });
        assert(self@ =~= old(self)@.push((entry, root@, true)));
    }
}

/// Any number of requests for the same target, however interleaved with
/// requests for others, hand out `Write` at most once, and never once the
/// target is known; none is told `Ready` before the completion is recorded.
pub proof fn lemma_single_write_pass(
    log: Seq<(usize, Seq<char>, bool)>,
    keys: Seq<(usize, Seq<char>)>,
    entry: usize,
    root: Seq<char>,
)
    ensures
        forall|i: int, j: int|
            0 <= i < j < keys.len() && keys[i] == (entry, root) && keys[j] == (entry, root) ==> !(
            #[trigger] run_requests(log, keys)[i] == EmitAction::Write && #[trigger] run_requests(
                log,
                keys,
            )[j] == EmitAction::Write),
        status(log, entry, root) is Some ==> forall|i: int|
            0 <= i < keys.len() && keys[i] == (entry, root) ==> #[trigger] run_requests(log, keys)[i]
                != EmitAction::Write,
        status(log, entry, root) != Some(true) ==> forall|i: int|
            0 <= i < keys.len() && keys[i] == (entry, root) ==> #[trigger] run_requests(log, keys)[i]
                != EmitAction::Ready,
    decreases keys.len(),
{
    if keys.len() > 0 {
        let next = request_spec(log, keys[0].0, keys[0].1);
        let tail = keys.drop_first();
        lemma_single_write_pass(next.0, tail, entry, root);
        let run = run_requests(log, keys);
        let rest = run_requests(next.0, tail);
        assert(run == seq![next.1] + rest);
        assert(run.len() == keys.len()) by {
            lemma_run_len(log, keys);
        }
        if keys[0] == (entry, root) {
            if status(log, entry, root) is None {
                assert(status(next.0, entry, root) == Some(false));
            }
            assert(status(next.0, entry, root) is Some);
            assert(status(next.0, entry, root) == Some(true) <==> status(log, entry, root) == Some(true));
        } else {
            if status(log, keys[0].0, keys[0].1) is None {
                assert(next.0.drop_last() =~= log);
            }
            assert(status(next.0, entry, root) == status(log, entry, root));
        }
        assert forall|i: int| 0 < i < keys.len() implies #[trigger] run[i] == rest[i - 1] && keys[i] == tail[i - 1] by {}
    }
}

/// How many requests of a run for `(entry, root)` are told to write.
pub open spec fn write_passes(
    log: Seq<(usize, Seq<char>, bool)>,
    keys: Seq<(usize, Seq<char>)>,
    entry: usize,
    root: Seq<char>,
) -> nat
    decreases keys.len(),
{
    if keys.len() == 0 {
        0
    } else {
        let next = request_spec(log, keys[0].0, keys[0].1);
        (if keys[0] == (entry, root) && next.1 == EmitAction::Write {
            1nat
        } else {
            0nat
        }) + write_passes(next.0, keys.drop_first(), entry, root)
    }
}

/// However many requests for a target come, one write pass at most is
/// handed out for it, and none once the target is known to the ledger.
pub proof fn lemma_at_most_one_write_pass(
    log: Seq<(usize, Seq<char>, bool)>,
    keys: Seq<(usize, Seq<char>)>,
    entry: usize,
    root: Seq<char>,
)
    ensures
        write_passes(log, keys, entry, root) <= 1,
        status(log, entry, root) is Some ==> write_passes(log, keys, entry, root) == 0,
    decreases keys.len(),
{
    if keys.len() > 0 {
        let next = request_spec(log, keys[0].0, keys[0].1);
        lemma_at_most_one_write_pass(next.0, keys.drop_first(), entry, root);
        if keys[0] == (entry, root) {
            if status(log, entry, root) is None {
                assert(status(next.0, entry, root) == Some(false));
            }
        } else {
            if status(log, keys[0].0, keys[0].1) is None {
                assert(next.0.drop_last() =~= log);
            }
            assert(status(next.0, entry, root) == status(log, entry, root));
        }
    }
}

proof fn lemma_run_len(log: Seq<(usize, Seq<char>, bool)>, keys: Seq<(usize, Seq<char>)>)
    ensures
        run_requests(log, keys).len() == keys.len(),
    decreases keys.len(),
{
    if keys.len() > 0 {
        let next = request_spec(log, keys[0].0, keys[0].1);
        lemma_run_len(next.0, keys.drop_first());
    }
}

} // verus!
