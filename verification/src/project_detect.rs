//! Judging a directory's project type by the marker files it holds.

use vstd::prelude::*;
use crate::models::ProjectType;

verus! {

/// Which marker files a directory holds.
pub struct ProjectMarkers {
    /// `.git`
    pub git: bool,
    /// `Cargo.toml`
    pub cargo_toml: bool,
    /// `package.json`
    pub package_json: bool,
    /// `pyproject.toml`
    pub pyproject_toml: bool,
    /// `requirements.txt`
    pub requirements_txt: bool,
    /// `Dockerfile`
    pub dockerfile: bool,
}

/// The project type the markers give: the first of Git, Rust, Node, Python
/// and Docker whose marker is there, otherwise Unknown.
pub open spec fn spec_project_type(m: ProjectMarkers) -> ProjectType {
    if m.git {
        ProjectType::Git
    } else if m.cargo_toml {
        ProjectType::Rust
    } else if m.package_json {
        ProjectType::Node
    } else if m.pyproject_toml || m.requirements_txt {
        ProjectType::Python
    } else if m.dockerfile {
        ProjectType::Docker
    } else {
        ProjectType::Unknown
    }
}

/// The project type of a directory with the given marker files.
pub fn detect_project_type(markers: &ProjectMarkers) -> (r: ProjectType)
    ensures
        r == spec_project_type(*markers),
{
    if markers.git {
        return ProjectType::Git;
    }
    if markers.cargo_toml {
        return ProjectType::Rust;
    }
    if markers.package_json {
        return ProjectType::Node;
    }
    if markers.pyproject_toml || markers.requirements_txt {
        return ProjectType::Python;
    }
    if markers.dockerfile {
        return ProjectType::Docker;
    }
    ProjectType::Unknown
}

} // verus!

verus! {

/// `.git` decides first, then `Cargo.toml`, then `package.json`; without
/// those, `pyproject.toml` or `requirements.txt` (either alone) makes a
/// Python project, and without any of these a `Dockerfile` makes a Docker
/// one. A directory with no marker is of unknown type, and only such a
/// directory is.
pub proof fn law_marker_priority(m: ProjectMarkers)
    ensures
        m.git ==> spec_project_type(m) == ProjectType::Git,
        !m.git && m.cargo_toml ==> spec_project_type(m) == ProjectType::Rust,
        !m.git && !m.cargo_toml && m.package_json ==> spec_project_type(m) == ProjectType::Node,
        !m.git && !m.cargo_toml && !m.package_json && m.pyproject_toml ==> spec_project_type(m) == ProjectType::Python,
        !m.git && !m.cargo_toml && !m.package_json && m.requirements_txt ==> spec_project_type(m) == ProjectType::Python,
        !m.git && !m.cargo_toml && !m.package_json && !m.pyproject_toml && !m.requirements_txt && m.dockerfile
            ==> spec_project_type(m) == ProjectType::Docker,
        (spec_project_type(m) == ProjectType::Unknown) <==> !(m.git || m.cargo_toml || m.package_json
            || m.pyproject_toml || m.requirements_txt || m.dockerfile),
{
}

} // verus!
