use vstd::prelude::*;

verus! {

/// `path` lies strictly below the directory `root`: `root` is a prefix of
/// `path` that ends on a segment boundary (the empty root holds every path).
pub open spec fn path_is_inside(path: Seq<char>, root: Seq<char>) -> bool {
    &&& path.len() > root.len()
    &&& path.subrange(0, root.len() as int) == root
    &&& (root.len() == 0 || path[root.len() as int] == '/')
}

/// Decides `path_is_inside` on concrete strings.
pub fn is_inside(path: &str, root: &str) -> (r: bool)
    ensures
        r == path_is_inside(path@, root@),
{
    let path_len = path.unicode_len();
    let root_len = root.unicode_len();
    if path_len <= root_len {
        return false;
    }
    let prefix = String::from_str(path.substring_char(0, root_len));
    let root_owned = String::from_str(root);
    if !(prefix == root_owned) {
        return false;
    }
    root_len == 0 || path.get_char(root_len) == '/'
}

/// One compiled output file: where it is written, what it holds, and the
/// artifacts it refers to (as indices into the graph's arena).
pub struct Artifact {
    pub path: String,
    pub content: Vec<u8>,
    pub references: Vec<usize>,
}

/// An arena of artifacts; an artifact is identified by its index.
pub struct ArtifactGraph {
    pub artifacts: Vec<Artifact>,
}

impl ArtifactGraph {
    pub open spec fn len(&self) -> nat {
        self.artifacts@.len()
    }

    pub open spec fn path_of(&self, a: usize) -> Seq<char> {
        self.artifacts@[a as int].path@
    }

    pub open spec fn refs_of(&self, a: usize) -> Seq<usize> {
        self.artifacts@[a as int].references@
    }

    /// Every reference names an artifact of the arena.
    pub open spec fn wf(&self) -> bool {
        forall|a: usize, j: int|
            a < self.len() && 0 <= j < self.refs_of(a).len() ==> #[trigger] self.refs_of(a)[j]
                < self.len()
    }

    pub open spec fn inside(&self, a: usize, root: Seq<char>) -> bool {
        path_is_inside(self.path_of(a), root)
    }

    /// A chain of artifacts in which each step follows a reference of an
    /// artifact that lies inside `root`; only the last one may lie outside.
    pub open spec fn is_walk(&self, root: Seq<char>, w: Seq<usize>) -> bool {
        &&& w.len() >= 1
        &&& forall|i: int| 0 <= i < w.len() ==> #[trigger] w[i] < self.len()
        &&& forall|i: int|
            0 <= i < w.len() - 1 ==> self.inside(#[trigger] w[i], root) && self.refs_of(w[i]).contains(
                w[i + 1],
            )
    }

    /// `a` is met by the traversal from `entry` that looks only into
    /// artifacts inside `root`.
    pub open spec fn reaches(&self, root: Seq<char>, entry: usize, a: usize) -> bool {
        exists|w: Seq<usize>| #[trigger] self.is_walk(root, w) && w[0] == entry && w.last() == a
    }

    /// The internal subgraph: reached artifacts inside `root`.
    pub open spec fn internal_set(&self, root: Seq<char>, entry: usize) -> Set<usize> {
        Set::new(|a: usize| self.reaches(root, entry, a) && self.inside(a, root))
    }

    /// The boundary: reached artifacts outside `root`.
    pub open spec fn external_set(&self, root: Seq<char>, entry: usize) -> Set<usize> {
        Set::new(|a: usize| self.reaches(root, entry, a) && !self.inside(a, root))
    }

    /// Everything the traversal meets.
    pub open spec fn reached_set(&self, root: Seq<char>, entry: usize) -> Set<usize> {
        Set::new(|a: usize| self.reaches(root, entry, a))
    }
}

/// The members of `s` below `n`, in increasing order.
pub open spec fn members_below(s: Set<usize>, n: nat) -> Seq<usize>
    decreases n,
{
    if n == 0 {
        Seq::empty()
    } else {
        let rest = members_below(s, (n - 1) as nat);
        if s.contains((n - 1) as usize) {
            rest.push((n - 1) as usize)
        } else {
            rest
        }
    }
}

/// The artifacts of the internal subgraph and the boundary artifacts that it
/// refers to, each list in increasing index order.
pub struct SeparatedAssets {
    pub internal_assets: Vec<usize>,
    pub external_asset_entrypoints: Vec<usize>,
}

impl SeparatedAssets {
    /// The exact partition of `g` from `entry` under `root`.
    pub open spec fn is_partition_of(&self, g: &ArtifactGraph, entry: usize, root: Seq<char>) -> bool {
        &&& self.internal_assets@ == members_below(g.internal_set(root, entry), g.len())
        &&& self.external_asset_entrypoints@ == members_below(g.external_set(root, entry), g.len())
    }
}

pub open spec fn count_unvisited(s: Seq<bool>) -> nat
    decreases s.len(),
{
    if s.len() == 0 {
        0
    } else {
        count_unvisited(s.drop_last()) + if s.last() {
            0nat
        } else {
            1nat
        }
    }
}

proof fn lemma_count_push(s: Seq<bool>, b: bool)
    ensures
        count_unvisited(s.push(b)) == count_unvisited(s) + if b {
            0nat
        } else {
            1nat
        },
{
    assert(s.push(b).drop_last() =~= s);
}

proof fn lemma_count_mark(s: Seq<bool>, i: int)
    requires
        0 <= i < s.len(),
        !s[i],
    ensures
        count_unvisited(s.update(i, true)) + 1 == count_unvisited(s),
    decreases s.len(),
{
    if i == s.len() - 1 {
        assert(s.update(i, true).drop_last() =~= s.drop_last());
    } else {
        assert(s.update(i, true).drop_last() =~= s.drop_last().update(i, true));
        lemma_count_mark(s.drop_last(), i);
    }
}

proof fn lemma_count_bound(s: Seq<bool>)
    ensures
        count_unvisited(s) <= s.len(),
    decreases s.len(),
{
    if s.len() > 0 {
        lemma_count_bound(s.drop_last());
    }
}

/// A reached artifact inside `root` passes the traversal on to its references.
proof fn lemma_reach_step(g: &ArtifactGraph, root: Seq<char>, entry: usize, a: usize, b: usize)
    requires
        g.reaches(root, entry, a),
        g.inside(a, root),
        g.refs_of(a).contains(b),
        b < g.len(),
    ensures
        g.reaches(root, entry, b),
{
    let w = choose|w: Seq<usize>| #[trigger] g.is_walk(root, w) && w[0] == entry && w.last() == a;
    let w2 = w.push(b);
    assert forall|i: int| 0 <= i < w2.len() - 1 implies g.inside(#[trigger] w2[i], root)
        && g.refs_of(w2[i]).contains(w2[i + 1]) by {
        if i < w.len() - 1 {
            assert(w2[i] == w[i] && w2[i + 1] == w[i + 1]);
        } else {
            assert(w2[i] == a && w2[i + 1] == b);
        }
    }
    assert(g.is_walk(root, w2));
}

/// The entry alone is a walk.
proof fn lemma_reach_entry(g: &ArtifactGraph, root: Seq<char>, entry: usize)
    requires
        entry < g.len(),
    ensures
        g.reaches(root, entry, entry),
{
    let w = seq![entry];
    assert(g.is_walk(root, w));
}

/// A set of artifacts that holds the entry and every reference of each of its
/// members inside `root` holds every artifact the traversal reaches.
proof fn lemma_closed_holds_reached(
    g: &ArtifactGraph,
    root: Seq<char>,
    entry: usize,
    vis: Seq<bool>,
    a: usize,
)
    requires
        vis.len() == g.len(),
        entry < g.len(),
        vis[entry as int],
        forall|x: usize, y: usize|
            x < g.len() && vis[x as int] && g.inside(x, root) && #[trigger] g.refs_of(x).contains(y)
                ==> vis[y as int],
        g.reaches(root, entry, a),
    ensures
        vis[a as int],
{
    let w = choose|w: Seq<usize>| #[trigger] g.is_walk(root, w) && w[0] == entry && w.last() == a;
    lemma_walk_visited(g, root, vis, w, w.len() - 1);
}

proof fn lemma_walk_visited(g: &ArtifactGraph, root: Seq<char>, vis: Seq<bool>, w: Seq<usize>, k: int)
    requires
        vis.len() == g.len(),
        g.is_walk(root, w),
        vis[w[0] as int],
        forall|x: usize, y: usize|
            x < g.len() && vis[x as int] && g.inside(x, root) && #[trigger] g.refs_of(x).contains(y)
                ==> vis[y as int],
        0 <= k < w.len(),
    ensures
        vis[w[k] as int],
    decreases k,
{
    if k > 0 {
        lemma_walk_visited(g, root, vis, w, k - 1);
        assert(g.inside(w[k - 1], root) && g.refs_of(w[k - 1]).contains(w[k]));
    }
}

/// Tells whether `g` is well formed and `entry` one of its artifacts: what
/// the traversal needs of its inputs.
pub fn is_valid_input(g: &ArtifactGraph, entry: usize) -> (r: bool)
    ensures
        r == (g.wf() && entry < g.len()),
{
    let n = g.artifacts.len();
    let mut a: usize = 0;
    while a < n
        invariant
            n == g.len(),
            a <= n,
            forall|x: usize, j: int|
                x < a && 0 <= j < g.refs_of(x).len() ==> #[trigger] g.refs_of(x)[j] < g.len(),
        decreases n - a,
    {
        let refs = &g.artifacts[a].references;
        let mut j: usize = 0;
        while j < refs.len()
            invariant
                n == g.len(),
                a < n,
                refs@ == g.refs_of(a),
                j <= refs@.len(),
                forall|x: usize, jj: int|
                    x < a && 0 <= jj < g.refs_of(x).len() ==> #[trigger] g.refs_of(x)[jj] < g.len(),
                forall|jj: int| 0 <= jj < j ==> #[trigger] refs@[jj] < g.len(),
            decreases refs@.len() - j,
        {
            if refs[j] >= n {
                assert(g.refs_of(a)[j as int] >= g.len());
                return false;
            }
            j = j + 1;
        }
        a = a + 1;
    }
    entry < n
}

/// Splits the artifacts reachable from `entry` into those inside `root`,
/// whose references are followed, and the boundary artifacts outside it,
/// whose references are never examined.
pub fn separate_assets(g: &ArtifactGraph, entry: usize, root: &str) -> (r: SeparatedAssets)
    requires
        g.wf(),
        entry < g.len(),
    ensures
        r.is_partition_of(g, entry, root@),
{
    let n = g.artifacts.len();
    let mut visited: Vec<bool> = Vec::new();
    let mut i: usize = 0;
    while i < n
        invariant
            i <= n,
            n == g.len(),
            visited@.len() == i,
            count_unvisited(visited@) == i,
            forall|k: int| 0 <= k < i ==> !visited@[k],
        decreases n - i,
    {
        proof {
            lemma_count_push(visited@, false);
        }
        visited.push(false);
        i = i + 1;
    }
    proof {
        lemma_count_mark(visited@, entry as int);
        lemma_reach_entry(g, root@, entry);
    }
    visited.set(entry, true);
    let mut queue: Vec<usize> = Vec::new();
    queue.push(entry);
    let mut head: usize = 0;
    assert forall|x: usize| x < n && #[trigger] visited@[x as int] implies queue@.contains(x) by {
        assert(x == entry);
        assert(queue@[0] == entry);
    }
    while head < queue.len()
        invariant
            n == g.len(),
            g.wf(),
            entry < n,
            visited@.len() == n,
            visited@[entry as int],
            head <= queue.len(),
            queue.len() + count_unvisited(visited@) == n,
            forall|k: int| 0 <= k < queue.len() ==> #[trigger] queue@[k] < n && visited@[queue@[k] as int],
            forall|x: usize| x < n && #[trigger] visited@[x as int] ==> queue@.contains(x),
            forall|x: usize| x < n && #[trigger] visited@[x as int] ==> g.reaches(root@, entry, x),
            forall|k: int, y: usize|
                0 <= k < head && g.inside(queue@[k], root@) && #[trigger] g.refs_of(queue@[k]).contains(y)
                    ==> visited@[y as int],
        decreases n - head,
    {
        proof {
            lemma_count_bound(visited@);
        }
        let x = queue[head];
        let art = &g.artifacts[x];
        if is_inside(art.path.as_str(), root) {
            let refs = &art.references;
            let mut j: usize = 0;
            while j < refs.len()
                invariant
                    n == g.len(),
                    g.wf(),
                    entry < n,
                    x < n,
                    refs@ == g.refs_of(x),
                    g.inside(x, root@),
                    g.reaches(root@, entry, x),
                    head < queue.len(),
                    queue@[head as int] == x,
                    j <= refs.len(),
                    visited@.len() == n,
                    visited@[entry as int],
                    queue.len() + count_unvisited(visited@) == n,
                    forall|k: int| 0 <= k < queue.len() ==> #[trigger] queue@[k] < n && visited@[queue@[k] as int],
                    forall|x: usize| x < n && #[trigger] visited@[x as int] ==> queue@.contains(x),
                    forall|x: usize| x < n && #[trigger] visited@[x as int] ==> g.reaches(root@, entry, x),
                    forall|k: int, y: usize|
                        0 <= k < head && g.inside(queue@[k], root@) && #[trigger] g.refs_of(queue@[k]).contains(y)
                            ==> visited@[y as int],
                    forall|jj: int| 0 <= jj < j ==> visited@[#[trigger] refs@[jj] as int],
                decreases refs.len() - j,
            {
                let y = refs[j];
                assert(g.refs_of(x)[j as int] == y);
                if !visited[y] {
                    proof {
                        lemma_count_mark(visited@, y as int);
                        lemma_count_bound(visited@.update(y as int, true));
                        lemma_reach_step(g, root@, entry, x, y);
                    }
                    let ghost q0 = queue@;
                    visited.set(y, true);
                    queue.push(y);
                    assert forall|z: usize| z < n && #[trigger] visited@[z as int] implies queue@.contains(z) by {
                        if z != y {
                            let k = choose|k: int| 0 <= k < q0.len() && q0[k] == z;
                            assert(queue@[k] == z);
                        } else {
                            assert(queue@[queue@.len() - 1] == y);
                        }
                    }
                    assert forall|k: int| 0 <= k < queue.len() implies #[trigger] queue@[k] < n && visited@[queue@[k] as int] by {
                        if k < q0.len() {
                            assert(queue@[k] == q0[k]);
                        }
                    }
                }
                j = j + 1;
            }
            assert forall|k: int, y: usize|
                0 <= k < head + 1 && g.inside(queue@[k], root@) && #[trigger] g.refs_of(queue@[k]).contains(y)
                    implies visited@[y as int] by {
                if k == head {
                    let jj = choose|jj: int| 0 <= jj < refs@.len() && refs@[jj] == y;
                    assert(visited@[refs@[jj] as int]);
                }
            }
        }
        head = head + 1;
    }
    proof {
        assert forall|x: usize, y: usize|
            x < g.len() && visited@[x as int] && g.inside(x, root@) && #[trigger] g.refs_of(x).contains(y)
                implies visited@[y as int] by {
            let k = choose|k: int| 0 <= k < queue@.len() && queue@[k] == x;
            assert(g.refs_of(queue@[k]).contains(y));
        }
    }
    let mut internal: Vec<usize> = Vec::new();
    let mut external: Vec<usize> = Vec::new();
    let mut a: usize = 0;
    while a < n
        invariant
            n == g.len(),
            entry < n,
            a <= n,
            visited@.len() == n,
            visited@[entry as int],
            forall|x: usize| x < n && #[trigger] visited@[x as int] ==> g.reaches(root@, entry, x),
            forall|x: usize, y: usize|
                x < g.len() && visited@[x as int] && g.inside(x, root@) && #[trigger] g.refs_of(x).contains(y)
                    ==> visited@[y as int],
            internal@ == members_below(g.internal_set(root@, entry), a as nat),
            external@ == members_below(g.external_set(root@, entry), a as nat),
        decreases n - a,
    {
        proof {
            if g.reaches(root@, entry, a) {
                lemma_closed_holds_reached(g, root@, entry, visited@, a);
            }
        }
        if visited[a] {
            if is_inside(g.artifacts[a].path.as_str(), root) {
                internal.push(a);
            } else {
                external.push(a);
            }
        }
        a = a + 1;
    }
    SeparatedAssets { internal_assets: internal, external_asset_entrypoints: external }
}

pub(crate) proof fn lemma_members_below(s: Set<usize>, n: nat, x: usize)
    ensures
        members_below(s, n).contains(x) <==> (s.contains(x) && x < n),
    decreases n,
{
    if n > 0 {
        lemma_members_below(s, (n - 1) as nat, x);
        let rest = members_below(s, (n - 1) as nat);
        if s.contains((n - 1) as usize) {
            assert(rest.push((n - 1) as usize)[rest.len() as int] == (n - 1) as usize);
            if rest.contains(x) {
                let k = choose|k: int| 0 <= k < rest.len() && rest[k] == x;
                assert(rest.push((n - 1) as usize)[k] == x);
            }
            let full = rest.push((n - 1) as usize);
            if full.contains(x) && x != (n - 1) as usize {
                let k = choose|k: int| 0 <= k < full.len() && #[trigger] full[k] == x;
                assert(rest[k] == x);
            }
        }
    }
}

proof fn lemma_members_below_single(e: usize, n: nat)
    requires
        e < n,
        n <= usize::MAX,
    ensures
        members_below(set![e], n) == seq![e],
    decreases n,
{
    if n - 1 > e {
        lemma_members_below_single(e, (n - 1) as nat);
        assert(!set![e].contains((n - 1) as usize));
    } else {
        assert(set![e].contains((n - 1) as usize));
        lemma_members_below_empty(set![e], e as nat);
        assert(members_below(set![e], (n - 1) as nat).push(e) =~= seq![e]);
    }
}

proof fn lemma_members_below_empty(s: Set<usize>, n: nat)
    requires
        forall|x: usize| x < n ==> !s.contains(x),
    ensures
        members_below(s, n) == Seq::<usize>::empty(),
    decreases n,
{
    if n > 0 {
        lemma_members_below_empty(s, (n - 1) as nat);
    }
}

/// Every artifact the traversal reaches is one of the arena.
proof fn lemma_reached_in_arena(g: &ArtifactGraph, root: Seq<char>, entry: usize, a: usize)
    requires
        g.reaches(root, entry, a),
    ensures
        a < g.len(),
{
    let w = choose|w: Seq<usize>| #[trigger] g.is_walk(root, w) && w[0] == entry && w.last() == a;
    assert(w[w.len() - 1] < g.len());
}

/// The partition is a function of its inputs: any two results for the same
/// graph, entry and root are identical, lists and order included.
pub proof fn lemma_partition_deterministic(
    g: &ArtifactGraph,
    entry: usize,
    root: Seq<char>,
    r1: &SeparatedAssets,
    r2: &SeparatedAssets,
)
    requires
        r1.is_partition_of(g, entry, root),
        r2.is_partition_of(g, entry, root),
    ensures
        r1.internal_assets@ == r2.internal_assets@,
        r1.external_asset_entrypoints@ == r2.external_asset_entrypoints@,
{
}

/// The order in which each artifact lists its references does not matter:
/// two graphs with the same paths, whose artifacts each refer to the same
/// artifacts, partition alike.
pub proof fn lemma_partition_order_independent(
    g1: &ArtifactGraph,
    g2: &ArtifactGraph,
    entry: usize,
    root: Seq<char>,
)
    requires
        g1.len() == g2.len(),
        forall|a: usize| a < g1.len() ==> #[trigger] g1.path_of(a) == g2.path_of(a),
        forall|a: usize, y: usize|
            a < g1.len() ==> (#[trigger] g1.refs_of(a).contains(y) <==> g2.refs_of(a).contains(y)),
    ensures
        g1.internal_set(root, entry) == g2.internal_set(root, entry),
        g1.external_set(root, entry) == g2.external_set(root, entry),
        members_below(g1.internal_set(root, entry), g1.len()) == members_below(
            g2.internal_set(root, entry),
            g2.len(),
        ),
        members_below(g1.external_set(root, entry), g1.len()) == members_below(
            g2.external_set(root, entry),
            g2.len(),
        ),
{
    assert forall|w: Seq<usize>| g1.is_walk(root, w) implies g2.is_walk(root, w) by {
        assert forall|i: int| 0 <= i < w.len() - 1 implies g2.inside(#[trigger] w[i], root)
            && g2.refs_of(w[i]).contains(w[i + 1]) by {
            assert(g1.refs_of(w[i]).contains(w[i + 1]));
            assert(g1.path_of(w[i]) == g2.path_of(w[i]));
        }
    }
    assert forall|w: Seq<usize>| g2.is_walk(root, w) implies g1.is_walk(root, w) by {
        assert forall|i: int| 0 <= i < w.len() - 1 implies g1.inside(#[trigger] w[i], root)
            && g1.refs_of(w[i]).contains(w[i + 1]) by {
            assert(g2.refs_of(w[i]).contains(w[i + 1]));
            assert(g1.refs_of(w[i]).contains(w[i + 1]));
            assert(g1.path_of(w[i]) == g2.path_of(w[i]));
        }
    }
    assert forall|a: usize| g1.reaches(root, entry, a) <==> g2.reaches(root, entry, a) by {
        if g1.reaches(root, entry, a) {
            let w = choose|w: Seq<usize>| #[trigger] g1.is_walk(root, w) && w[0] == entry && w.last() == a;
            assert(g2.is_walk(root, w));
            lemma_reached_in_arena(g1, root, entry, a);
        }
        if g2.reaches(root, entry, a) {
            let w = choose|w: Seq<usize>| #[trigger] g2.is_walk(root, w) && w[0] == entry && w.last() == a;
            assert(g1.is_walk(root, w));
            lemma_reached_in_arena(g2, root, entry, a);
        }
    }
    assert forall|a: usize| g1.reaches(root, entry, a) implies g1.inside(a, root) == g2.inside(a, root) by {
        lemma_reached_in_arena(g1, root, entry, a);
        assert(g1.path_of(a) == g2.path_of(a));
    }
    assert(g1.internal_set(root, entry) =~= g2.internal_set(root, entry));
    assert(g1.external_set(root, entry) =~= g2.external_set(root, entry));
}

/// Internal and boundary artifacts never overlap, and together they are
/// exactly the artifacts that the traversal from the entry reaches.
pub proof fn lemma_partition_disjoint_cover(
    g: &ArtifactGraph,
    entry: usize,
    root: Seq<char>,
    r: &SeparatedAssets,
)
    requires
        r.is_partition_of(g, entry, root),
    ensures
        forall|a: usize|
            !(r.internal_assets@.contains(a) && r.external_asset_entrypoints@.contains(a)),
        forall|a: usize|
            (r.internal_assets@.contains(a) || r.external_asset_entrypoints@.contains(a))
                <==> #[trigger] g.reached_set(root, entry).contains(a),
{
    assert forall|a: usize|
        (r.internal_assets@.contains(a) || r.external_asset_entrypoints@.contains(a))
            <==> #[trigger] g.reached_set(root, entry).contains(a) by {
        lemma_members_below(g.internal_set(root, entry), g.len(), a);
        lemma_members_below(g.external_set(root, entry), g.len(), a);
        if g.reaches(root, entry, a) {
            lemma_reached_in_arena(g, root, entry, a);
        }
    }
    assert forall|a: usize|
        !(r.internal_assets@.contains(a) && r.external_asset_entrypoints@.contains(a)) by {
        lemma_members_below(g.internal_set(root, entry), g.len(), a);
        lemma_members_below(g.external_set(root, entry), g.len(), a);
    }
}

/// An entry placed outside the root is the only artifact met: it is a
/// boundary artifact and the internal subgraph is empty.
pub proof fn lemma_outside_entry_sets(g: &ArtifactGraph, entry: usize, root: Seq<char>)
    requires
        entry < g.len() <= usize::MAX,
        !g.inside(entry, root),
    ensures
        members_below(g.internal_set(root, entry), g.len()) == Seq::<usize>::empty(),
        members_below(g.external_set(root, entry), g.len()) == seq![entry],
{
    assert forall|a: usize| g.reaches(root, entry, a) implies a == entry by {
        let w = choose|w: Seq<usize>| #[trigger] g.is_walk(root, w) && w[0] == entry && w.last() == a;
        if w.len() > 1 {
            assert(g.inside(w[0], root));
        }
    }
    lemma_reach_entry(g, root, entry);
    assert(g.external_set(root, entry) =~= set![entry]);
    lemma_members_below_single(entry, g.len());
    lemma_members_below_empty(g.internal_set(root, entry), g.len());
}

/// The same, read on a partition result.
pub proof fn lemma_outside_entry(g: &ArtifactGraph, entry: usize, root: Seq<char>, r: &SeparatedAssets)
    requires
        entry < g.len() <= usize::MAX,
        !g.inside(entry, root),
        r.is_partition_of(g, entry, root),
    ensures
        r.internal_assets@.len() == 0,
        r.external_asset_entrypoints@ == seq![entry],
{
    lemma_outside_entry_sets(g, entry, root);
}

} // verus!
