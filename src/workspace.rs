use vstd::prelude::*;

use crate::dependency_groups::{DependencyGroups, EntryView};
use crate::names::{package_names, requirement_texts, PackageName, Requirement};

verus! {

/// `names` with `name` added at the end, unless it is already there.
pub open spec fn add_name(names: Seq<Seq<char>>, name: Seq<char>) -> Seq<Seq<char>> {
    if names.contains(name) {
        names
    } else {
        names.push(name)
    }
}

/// Adds `name` to `names` unless a package of that name is already there.
fn insert_package(names: &mut Vec<PackageName>, name: PackageName)
    requires
        package_names(old(names)@).no_duplicates(),
    ensures
        package_names(final(names)@).no_duplicates(),
        package_names(final(names)@) == add_name(package_names(old(names)@), name@),
{
    let ghost before = package_names(names@);
    let mut i: usize = 0;
    while i < names.len()
        invariant
            before == package_names(names@),
            before.no_duplicates(),
            i <= names@.len(),
            forall|j: int| 0 <= j < i ==> names@[j]@ != name@,
        decreases names@.len() - i,
    {
        if names[i].same(&name) {
            proof {
                assert(before[i as int] == name@);
            }
            return;
        }
        i = i + 1;
    }
    proof {
        assert forall|j: int| 0 <= j < before.len() implies before[j] != name@ by {
            assert(before[j] == names@[j]@);
        }
    }
    names.push(name);
    proof {
        assert(package_names(names@) =~= before.push(name@));
        assert(!before.contains(name@));
    }
}

/// What a workspace holds: its members, and the dependency groups and legacy development
/// dependencies declared by its root.
pub struct WorkspaceView {
    pub members: Seq<Seq<char>>,
    pub groups: Seq<(Seq<char>, Seq<EntryView>)>,
    pub dev: Option<Seq<Seq<char>>>,
}

/// A workspace: its member packages, and what its root manifest declares.
#[derive(Debug, Clone)]
pub struct Workspace {
    members: Vec<PackageName>,
    dependency_groups: DependencyGroups,
    dev_dependencies: Option<Vec<Requirement>>,
}

impl View for Workspace {
    type V = WorkspaceView;

    closed spec fn view(&self) -> WorkspaceView {
        WorkspaceView {
            members: package_names(self.members@),
            groups: self.dependency_groups@,
            dev: match self.dev_dependencies {
                Some(l) => Some(requirement_texts(l@)),
                None => None,
            },
        }
    }
}

impl Workspace {
    /// The members are distinct, and so are the names of the declared groups.
    pub closed spec fn wf(&self) -> bool {
        &&& package_names(self.members@).no_duplicates()
        &&& self.dependency_groups.wf()
    }

    /// A workspace without members whose root declares `dependency_groups` and, where present,
    /// the legacy `dev_dependencies`.
    pub fn new(
        dependency_groups: DependencyGroups,
        dev_dependencies: Option<Vec<Requirement>>,
    ) -> (r: Workspace)
        requires
            dependency_groups.wf(),
        ensures
            r.wf(),
            r@.members == Seq::<Seq<char>>::empty(),
            r@.groups == dependency_groups@,
            r@.dev == match dev_dependencies {
                Some(l) => Some(requirement_texts(l@)),
                None => None,
            },
    {
        let r = Workspace { members: Vec::new(), dependency_groups, dev_dependencies };
        proof {
            assert(package_names(r.members@) =~= Seq::<Seq<char>>::empty());
        }
        r
    }

    /// Adds the member `name`, unless the workspace has it already.
    pub fn add_member(&mut self, name: PackageName)
        requires
            old(self).wf(),
        ensures
            final(self).wf(),
            final(self)@.members == add_name(old(self)@.members, name@),
            final(self)@.groups == old(self)@.groups,
            final(self)@.dev == old(self)@.dev,
    {
        insert_package(&mut self.members, name);
    }

    pub fn members(&self) -> (r: &Vec<PackageName>)
        ensures
            package_names(r@) == self@.members,
    {
        &self.members
    }

    pub fn dependency_groups(&self) -> (r: &DependencyGroups)
        ensures
            r@ == self@.groups,
            self.wf() ==> r.wf(),
    {
        &self.dependency_groups
    }

    pub fn dev_dependencies(&self) -> (r: Option<&Vec<Requirement>>)
        ensures
            match r {
                Some(l) => self@.dev == Some(requirement_texts(l@)),
                None => self@.dev is None,
            },
    {
        match &self.dev_dependencies {
            Some(l) => Some(l),
            None => None,
        }
    }
}

/// What a lock records of membership: the members it lists, and the package at the root.
pub struct LockView {
    pub members: Seq<Seq<char>>,
    pub root: Option<Seq<char>>,
}

/// A lock, as far as package membership goes.
#[derive(Debug, Clone)]
pub struct Lock {
    members: Vec<PackageName>,
    root: Option<PackageName>,
}

impl View for Lock {
    type V = LockView;

    closed spec fn view(&self) -> LockView {
        LockView {
            members: package_names(self.members@),
            root: match self.root {
                Some(p) => Some(p@),
                None => None,
            },
        }
    }
}

impl Lock {
    /// The listed members are distinct.
    pub closed spec fn wf(&self) -> bool {
        package_names(self.members@).no_duplicates()
    }

    /// No member is listed twice.
    pub proof fn lemma_members_distinct(&self)
        requires
            self.wf(),
        ensures
            self@.members.no_duplicates(),
    {
    }

    /// A lock that lists no members, with the package at the root where there is one.
    pub fn new(root: Option<PackageName>) -> (r: Lock)
        ensures
            r.wf(),
            r@.members == Seq::<Seq<char>>::empty(),
            r@.root == match root {
                Some(p) => Some(p@),
                None => None::<Seq<char>>,
            },
    {
        let r = Lock { members: Vec::new(), root };
        proof {
            assert(package_names(r.members@) =~= Seq::<Seq<char>>::empty());
        }
        r
    }

    /// Lists the member `name`, unless it is listed already.
    pub fn add_member(&mut self, name: PackageName)
        requires
            old(self).wf(),
        ensures
            final(self).wf(),
            final(self)@.members == add_name(old(self)@.members, name@),
            final(self)@.root == old(self)@.root,
    {
        insert_package(&mut self.members, name);
    }

    pub fn members(&self) -> (r: &Vec<PackageName>)
        ensures
            package_names(r@) == self@.members,
    {
        &self.members
    }

    pub fn root(&self) -> (r: Option<&PackageName>)
        ensures
            match r {
                Some(p) => self@.root == Some(p@),
                None => self@.root is None,
            },
    {
        match &self.root {
            Some(p) => Some(p),
            None => None,
        }
    }
}

/// A project together with the workspace it belongs to.
#[derive(Debug, Clone)]
pub struct ProjectWorkspace {
    pub project_name: PackageName,
    pub workspace: Workspace,
}

/// A workspace whose root is a project, or one whose root is not.
#[derive(Debug, Clone)]
pub enum VirtualProject {
    Project(ProjectWorkspace),
    NonProject(Workspace),
}

} // verus!
