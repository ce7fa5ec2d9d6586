//! Which paths may become workspace roots, and which directories an index
//! run walks into.

use vstd::prelude::*;
use crate::config::IgnoreConfig;
use crate::paths;
use crate::text;

verus! {

/// Why a path was refused as a workspace root.
#[derive(Debug, Clone, Copy, PartialEq, Eq, Structural)]
pub enum WorkspaceRejection {
    /// `/` may only be added with force.
    RootWithoutForce,
    /// The ignore rules block the path; force bypasses them.
    Ignored,
}

/// The path is the filesystem root: its only component is the root.
pub open spec fn is_filesystem_root(path: Seq<char>) -> bool {
    paths::components(path) == seq![paths::Component::RootDir]
}

/// Whether the path is the filesystem root (see [`is_filesystem_root`]).
pub fn is_root_path(path: &str) -> (r: bool)
    ensures
        r == is_filesystem_root(path@),
{
    let p = text::str_to_chars(path);
    let parts = paths::path_components(p.as_slice());
    let r = parts.len() == 1 && match parts[0] {
        paths::PathPart::RootDir => true,
        _ => false,
    };
    proof {
        let c = paths::components(p@);
        if parts@.len() == 1 {
            assert(c[0] == paths::part_view(p@, parts@[0]));
            if r {
                assert(c =~= seq![paths::Component::RootDir]);
            }
        }
    }
    r
}

/// Whether `path` may be added as a workspace root: without force, not the
/// filesystem root and not blocked by `rules`, which judge the path's
/// canonical form `canonical_path`. With force, always.
pub fn check_new_workspace(path: &str, force: bool, rules: &IgnoreConfig, canonical_path: &str) -> (r: Result<(), WorkspaceRejection>)
    ensures
        force ==> r is Ok,
        !force && is_filesystem_root(path@) ==> r == Err::<(), WorkspaceRejection>(WorkspaceRejection::RootWithoutForce),
        !force && !is_filesystem_root(path@) ==> (r is Ok <==> !((match paths::spec_file_name(canonical_path@) {
            Some(n) => rules.spec_names().contains(text::unicode_lowercase(n)),
            None => false,
        }) || exists|j: int|
            0 <= j < rules.spec_paths().len() && paths::spec_path_starts_with(
                canonical_path@,
                #[trigger] rules.spec_paths()[j],
            ))),
        r is Err ==> !force,
        r is Err && !is_filesystem_root(path@) ==> r == Err::<(), WorkspaceRejection>(WorkspaceRejection::Ignored),
{
    if force {
        return Ok(());
    }
    if is_root_path(path) {
        return Err(WorkspaceRejection::RootWithoutForce);
    }
    if rules.is_ignored(canonical_path) {
        return Err(WorkspaceRejection::Ignored);
    }
    Ok(())
}

/// Names an index run never walks into.
pub open spec fn is_skipped_name(name: Seq<char>) -> bool {
    ||| name == ".git"@
    ||| name == "node_modules"@
    ||| name == "target"@
    ||| name == "build"@
    ||| (name.len() > 0 && name[0] == '.')
}

/// Whether an index run walks into the entry named `name` found `depth`
/// levels below the workspace root: the root itself always, anything else
/// unless it is `.git`, `node_modules`, `target`, `build` or hidden.
pub fn should_descend(name: &str, depth: usize) -> (r: bool)
    ensures
        r == (depth == 0 || !is_skipped_name(name@)),
{
    if depth == 0 {
        return true;
    }
    let v = text::str_to_chars(name);
    let hidden = v.len() > 0 && v[0] == '.';
    !(text::str_eq(name, ".git") || text::str_eq(name, "node_modules") || text::str_eq(name, "target")
        || text::str_eq(name, "build") || hidden)
}

} // verus!

verus! {

/// Below the root, an index run never walks into `.git`, `node_modules`,
/// `target`, `build` or any hidden directory (a name starting with `.`), and
/// walks into every other directory; the root itself is always walked.
pub proof fn law_walk_skips_generated_and_hidden_directories(name: Seq<char>, depth: usize)
    ensures
        depth == 0 ==> (depth == 0 || !is_skipped_name(name)),
        depth > 0 && name.len() > 0 && name[0] == '.' ==> !(depth == 0 || !is_skipped_name(name)),
        depth > 0 && (name == "node_modules"@ || name == "target"@ || name == "build"@) ==> !(depth == 0
            || !is_skipped_name(name)),
        depth > 0 && (name.len() == 0 || name[0] != '.') && name != "node_modules"@ && name != "target"@ && name
            != "build"@ ==> (depth == 0 || !is_skipped_name(name)),
{
    broadcast use vstd::string::group_string_axioms;
    reveal_strlit(".git");
    if name == ".git"@ {
        assert(name[0] == '.');
    }
}

} // verus!
