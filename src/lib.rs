pub mod dependency_groups;
pub mod names;
pub mod target;
pub mod workspace;

pub use dependency_groups::{
    merge_group_sources, DependencyGroupError, DependencyGroups, FlatDependencyGroups, GroupEntry,
};
pub use names::{GroupName, PackageName, Requirement};
pub use target::InstallTarget;
pub use workspace::{Lock, ProjectWorkspace, VirtualProject, Workspace};
