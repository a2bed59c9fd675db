use vstd::prelude::*;

verus! {

/// The hard failure of setting up a renderer pool.
#[derive(PartialEq, Eq, Structural, Clone, Copy, Debug)]
pub enum RenderError {
    /// The output directory is not backed by a disk: workers need real files.
    UnsupportedFilesystem,
}

/// The number of worker processes in a renderer pool.
pub const RENDERER_POOL_SIZE: usize = 4;

/// Where and how a pool of workers is started: the directory they run in,
/// the script each one runs, and how many there are.
pub struct PoolConfig {
    pub dir: String,
    pub entrypoint: String,
    pub size: usize,
}

/// `rel` appended to the directory `base`, with one `/` between them.
pub open spec fn join_path_spec(base: Seq<char>, rel: Seq<char>) -> Seq<char> {
    if rel.len() == 0 {
        base
    } else if base.len() > 0 && base.last() == '/' {
        base + rel
    } else {
        base + seq!['/'] + rel
    }
}

pub open spec fn entrypoint_name() -> Seq<char> {
    seq!['i', 'n', 'd', 'e', 'x', '.', 'j', 's']
}

/// Appends the relative path `rel` to the directory `base`.
pub fn join_path(base: &str, rel: &str) -> (r: String)
    ensures
        r@ == join_path_spec(base@, rel@),
{
    let mut out = String::from_str(base);
    if rel.unicode_len() == 0 {
        return out;
    }
    let base_len = base.unicode_len();
    if !(base_len > 0 && base.get_char(base_len - 1) == '/') {
        out.append("/");
        proof {
            reveal_strlit("/");
        }
    }
    out.append(rel);
    assert(out@ =~= join_path_spec(base@, rel@));
    out
}

/// The pool for an output directory: `disk_root` is the disk location that
/// backs the directory's filesystem, if there is one, and `output_path` the
/// directory within it. Workers run `index.js` in that directory.
pub fn get_renderer_pool(disk_root: &Option<String>, output_path: &str) -> (r: Result<PoolConfig, RenderError>)
    ensures
        disk_root is None <==> (r matches Err(e) && e == RenderError::UnsupportedFilesystem),
        disk_root matches Some(root) ==> (r matches Ok(p) && p.dir@ == join_path_spec(root@, output_path@)
            && p.entrypoint@ == join_path_spec(p.dir@, entrypoint_name()) && p.size == RENDERER_POOL_SIZE),
{
    match disk_root {
        None => Err(RenderError::UnsupportedFilesystem),
        Some(root) => {
            let dir = join_path(root.as_str(), output_path);
            proof {
                reveal_strlit("index.js");
                assert("index.js"@ =~= entrypoint_name());
            }
            let entrypoint = join_path(dir.as_str(), "index.js");
            Ok(PoolConfig { dir, entrypoint, size: RENDERER_POOL_SIZE })
        },
    }
}

} // verus!
