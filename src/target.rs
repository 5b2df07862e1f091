use vstd::prelude::*;

use crate::dependency_groups::{
    merge_group_sources, merge_sources, sorted_keys, table_result, DependencyGroupError,
    FlatDependencyGroups, GroupErrorView,
};
use crate::names::{package_names, PackageName};
use crate::workspace::{Lock, VirtualProject, Workspace};

verus! {

/// A target that can be installed.
#[derive(Debug, Copy, Clone)]
pub enum InstallTarget<'env> {
    /// A project (which could be a workspace root or member).
    Project { workspace: &'env Workspace, name: &'env PackageName, lock: &'env Lock },
    /// An entire workspace.
    Workspace { workspace: &'env Workspace, lock: &'env Lock },
    /// A (legacy) workspace with a non-project root.
    NonProjectWorkspace { workspace: &'env Workspace, lock: &'env Lock },
}

/// The workspace that a target installs from.
pub open spec fn workspace_of(t: InstallTarget) -> Workspace {
    match t {
        InstallTarget::Project { workspace, .. } => *workspace,
        InstallTarget::Workspace { workspace, .. } => *workspace,
        InstallTarget::NonProjectWorkspace { workspace, .. } => *workspace,
    }
}

/// The lock that a target installs from.
pub open spec fn lock_of(t: InstallTarget) -> Lock {
    match t {
        InstallTarget::Project { lock, .. } => *lock,
        InstallTarget::Workspace { lock, .. } => *lock,
        InstallTarget::NonProjectWorkspace { lock, .. } => *lock,
    }
}

/// The packages that a target installs: the project itself; the members that the lock lists;
/// for a whole workspace whose lock lists none, the package at the root.
pub open spec fn packages_of(t: InstallTarget) -> Seq<Seq<char>> {
    match t {
        InstallTarget::Project { name, .. } => seq![name@],
        InstallTarget::NonProjectWorkspace { lock, .. } => lock@.members,
        InstallTarget::Workspace { lock, .. } => {
            if lock@.members.len() == 0 {
                match lock@.root {
                    Some(root) => seq![root],
                    None => Seq::empty(),
                }
            } else {
                lock@.members
            }
        },
    }
}

/// The groups that apply to the workspace root but to none of its members: only a root that is
/// not a project has any.
pub open spec fn groups_of(t: InstallTarget) -> Result<
    Map<Seq<char>, Seq<Seq<char>>>,
    GroupErrorView,
> {
    match t {
        InstallTarget::NonProjectWorkspace { workspace, .. } => merge_sources(
            workspace@.groups,
            workspace@.dev,
        ),
        _ => Ok(Map::empty()),
    }
}

/// The name of the project that a target installs, where it installs one.
pub open spec fn project_name_of(t: InstallTarget) -> Option<Seq<char>> {
    match t {
        InstallTarget::Project { name, .. } => Some(name@),
        _ => None,
    }
}

/// A lock lists a package to install for the target.
pub open spec fn has_packages(t: InstallTarget) -> bool {
    match t {
        InstallTarget::Project { .. } => true,
        InstallTarget::NonProjectWorkspace { lock, .. } => lock@.members.len() > 0,
        InstallTarget::Workspace { lock, .. } => lock@.members.len() > 0 || lock@.root is Some,
    }
}

impl<'env> InstallTarget<'env> {
    /// Return the [`Workspace`] of the target.
    pub fn workspace(&self) -> (r: &Workspace)
        ensures
            *r == workspace_of(*self),
    {
        match self {
            InstallTarget::Project { workspace, .. } => workspace,
            InstallTarget::Workspace { workspace, .. } => workspace,
            InstallTarget::NonProjectWorkspace { workspace, .. } => workspace,
        }
    }

    /// Return the names of the packages that the target installs.
    pub fn packages(&self) -> (r: Vec<PackageName>)
        ensures
            package_names(r@) == packages_of(*self),
    {
        let mut out: Vec<PackageName> = Vec::new();
        match self {
            InstallTarget::Project { name, .. } => {
                out.push(name.duplicate());
                proof {
                    assert(package_names(out@) =~= seq![name@]);
                }
            },
            InstallTarget::NonProjectWorkspace { lock, .. } => {
                out = copy_packages(lock.members());
            },
            InstallTarget::Workspace { lock, .. } => {
                // The members are listed in the lock, unless the workspace has a single member at
                // the root, which the lock names by its source.
                let members = lock.members();
                if members.len() == 0 {
                    match lock.root() {
                        Some(root) => {
                            out.push(root.duplicate());
                            proof {
                                assert(package_names(out@) =~= seq![root@]);
                            }
                        },
                        None => {
                            proof {
                                assert(package_names(out@) =~= Seq::<Seq<char>>::empty());
                            }
                        },
                    }
                } else {
                    out = copy_packages(members);
                }
            },
        }
        out
    }

    /// Return the [`InstallTarget`] dependency groups.
    ///
    /// Returns dependencies that apply to the workspace root, but not any of its members. As such,
    /// only returns a non-empty table for virtual workspaces, which can hold dev dependencies
    /// on the virtual root.
    pub fn groups(&self) -> (r: Result<FlatDependencyGroups, DependencyGroupError>)
        requires
            workspace_of(*self).wf(),
        ensures
            table_result(r) == groups_of(*self),
            r is Ok ==> r->Ok_0.wf() && sorted_keys(r->Ok_0@),
    {
        match self {
            InstallTarget::Project { .. } => Ok(FlatDependencyGroups::new()),
            InstallTarget::Workspace { .. } => Ok(FlatDependencyGroups::new()),
            InstallTarget::NonProjectWorkspace { workspace, .. } => {
                // For non-projects, the root (which isn't a member) may declare
                // `dependency-groups` and the legacy `dev-dependencies`.
                merge_group_sources(workspace.dependency_groups(), workspace.dev_dependencies())
            },
        }
    }

    /// Return the [`PackageName`] of the target, if available.
    pub fn project_name(&self) -> (r: Option<&PackageName>)
        ensures
            match r {
                Some(n) => project_name_of(*self) == Some(n@),
                None => project_name_of(*self) is None,
            },
    {
        match self {
            InstallTarget::Project { name, .. } => Some(name),
            InstallTarget::Workspace { .. } => None,
            InstallTarget::NonProjectWorkspace { .. } => None,
        }
    }

    /// The whole workspace of `project`, installed as a workspace when its root is a project.
    pub fn from_workspace(project: &'env VirtualProject, lock: &'env Lock) -> (r: Self)
        ensures
            match project {
                VirtualProject::Project(p) => r == (InstallTarget::Workspace {
                    workspace: &p.workspace,
                    lock,
                }),
                VirtualProject::NonProject(w) => r == (InstallTarget::NonProjectWorkspace {
                    workspace: w,
                    lock,
                }),
            },
    {
        match project {
            VirtualProject::Project(p) => InstallTarget::Workspace { workspace: &p.workspace, lock },
            VirtualProject::NonProject(w) => InstallTarget::NonProjectWorkspace { workspace: w, lock },
        }
    }

    /// The project of `project` alone, or its whole workspace when its root is not a project.
    pub fn from_project(project: &'env VirtualProject, lock: &'env Lock) -> (r: Self)
        ensures
            match project {
                VirtualProject::Project(p) => r == (InstallTarget::Project {
                    workspace: &p.workspace,
                    name: &p.project_name,
                    lock,
                }),
                VirtualProject::NonProject(w) => r == (InstallTarget::NonProjectWorkspace {
                    workspace: w,
                    lock,
                }),
            },
    {
        match project {
            VirtualProject::Project(p) => InstallTarget::Project {
                workspace: &p.workspace,
                name: &p.project_name,
                lock,
            },
            VirtualProject::NonProject(w) => InstallTarget::NonProjectWorkspace { workspace: w, lock },
        }
    }
}

/// Every target whose lock provides a package to install yields a non-empty list of packages, and
/// no package twice.
pub proof fn lemma_packages_nonempty_distinct(t: InstallTarget)
    requires
        lock_of(t).wf(),
        has_packages(t),
    ensures
        packages_of(t).len() > 0,
        packages_of(t).no_duplicates(),
{
    lock_of(t).lemma_members_distinct();
    match t {
        InstallTarget::Project { name, .. } => {
            assert(packages_of(t) == seq![name@]);
        },
        InstallTarget::Workspace { lock, .. } => {
            if lock@.members.len() == 0 {
                let root = lock@.root->Some_0;
                assert(packages_of(t) == seq![root]);
            }
        },
        InstallTarget::NonProjectWorkspace { .. } => {},
    }
}

/// A whole workspace whose lock lists no members installs exactly the package at the root.
pub proof fn lemma_workspace_falls_back_to_root(workspace: &Workspace, lock: &Lock)
    requires
        lock@.members.len() == 0,
        lock@.root is Some,
    ensures
        packages_of(InstallTarget::Workspace { workspace, lock }) == seq![lock@.root->Some_0],
{
}

/// A project target installs exactly the project it was made for, and names it as its project.
pub proof fn lemma_project_installs_itself(workspace: &Workspace, name: &PackageName, lock: &Lock)
    ensures
        packages_of(InstallTarget::Project { workspace, name, lock }) == seq![name@],
        project_name_of(InstallTarget::Project { workspace, name, lock }) == Some(name@),
{
}

/// Only a workspace whose root is not a project has groups of its own; any other target has none,
/// whatever its root declares.
pub proof fn lemma_groups_only_for_non_project_root(t: InstallTarget)
    requires
        !(t is NonProjectWorkspace),
    ensures
        groups_of(t) == Ok::<Map<Seq<char>, Seq<Seq<char>>>, GroupErrorView>(Map::empty()),
{
}

/// Copies of each package name of `names`, in order.
fn copy_packages(names: &Vec<PackageName>) -> (r: Vec<PackageName>)
    ensures
        package_names(r@) == package_names(names@),
{
    let mut out: Vec<PackageName> = Vec::new();
    let mut i: usize = 0;
    while i < names.len()
        invariant
            i <= names@.len(),
            out@.len() == i,
            forall|j: int| 0 <= j < i ==> out@[j]@ == names@[j]@,
        decreases names@.len() - i,
    {
        out.push(names[i].duplicate());
        i = i + 1;
    }
    proof {
        assert(package_names(out@) =~= package_names(names@));
    }
    out
}

} // verus!
