use install_target::{
    merge_group_sources, DependencyGroupError, DependencyGroups, FlatDependencyGroups, GroupEntry,
    GroupName, InstallTarget, Lock, PackageName, ProjectWorkspace, Requirement, VirtualProject,
    Workspace,
};

fn req(text: &str) -> GroupEntry {
    GroupEntry::Requirement(Requirement::new(text))
}

fn inc(name: &str) -> GroupEntry {
    GroupEntry::IncludeGroup(GroupName::new(name))
}

fn table(groups: Vec<(&str, Vec<GroupEntry>)>) -> DependencyGroups {
    let mut t = DependencyGroups::new();
    for (name, entries) in groups {
        t.insert(GroupName::new(name), entries);
    }
    t
}

fn texts(reqs: &Vec<Requirement>) -> Vec<String> {
    reqs.iter().map(|r| r.as_str().to_string()).collect()
}

fn names(pkgs: &Vec<PackageName>) -> Vec<String> {
    pkgs.iter().map(|p| p.as_str().to_string()).collect()
}

fn group_list(flat: &FlatDependencyGroups, name: &str) -> Vec<String> {
    texts(flat.get(&GroupName::new(name)).expect("group is present"))
}

fn lock_with(members: &[&str], root: Option<&str>) -> Lock {
    let mut lock = Lock::new(root.map(PackageName::new));
    for m in members {
        lock.add_member(PackageName::new(m));
    }
    lock
}

fn empty_workspace() -> Workspace {
    Workspace::new(DependencyGroups::new(), None)
}

#[test]
fn project_installs_only_itself() {
    let ws = empty_workspace();
    let name = PackageName::new("app");
    let lock = lock_with(&["app", "lib"], None);
    let target = InstallTarget::Project { workspace: &ws, name: &name, lock: &lock };
    assert_eq!(names(&target.packages()), vec!["app"]);
    assert_eq!(target.project_name().map(|p| p.as_str().to_string()), Some("app".to_string()));
}

#[test]
fn workspace_installs_listed_members() {
    let ws = empty_workspace();
    let lock = lock_with(&["a", "b", "c"], Some("root"));
    let target = InstallTarget::Workspace { workspace: &ws, lock: &lock };
    assert_eq!(names(&target.packages()), vec!["a", "b", "c"]);
    assert!(target.project_name().is_none());
}

#[test]
fn workspace_without_listed_members_uses_root() {
    let ws = empty_workspace();
    let lock = lock_with(&[], Some("root"));
    let target = InstallTarget::Workspace { workspace: &ws, lock: &lock };
    assert_eq!(names(&target.packages()), vec!["root"]);
}

#[test]
fn workspace_without_members_or_root_installs_nothing() {
    let ws = empty_workspace();
    let lock = lock_with(&[], None);
    let target = InstallTarget::Workspace { workspace: &ws, lock: &lock };
    assert!(target.packages().is_empty());
}

#[test]
fn non_project_workspace_installs_listed_members() {
    let ws = empty_workspace();
    let lock = lock_with(&["x", "y"], Some("ignored"));
    let target = InstallTarget::NonProjectWorkspace { workspace: &ws, lock: &lock };
    assert_eq!(names(&target.packages()), vec!["x", "y"]);
    assert!(target.project_name().is_none());
}

#[test]
fn lock_members_are_never_repeated() {
    let ws = empty_workspace();
    let lock = lock_with(&["a", "b", "a", "b", "c"], None);
    let target = InstallTarget::NonProjectWorkspace { workspace: &ws, lock: &lock };
    assert_eq!(names(&target.packages()), vec!["a", "b", "c"]);
}

#[test]
fn project_and_workspace_have_no_root_groups() {
    let groups = table(vec![("lint", vec![req("ruff")])]);
    let ws = Workspace::new(groups, Some(vec![Requirement::new("pytest")]));
    let name = PackageName::new("app");
    let lock = lock_with(&["app"], None);
    let project = InstallTarget::Project { workspace: &ws, name: &name, lock: &lock };
    let whole = InstallTarget::Workspace { workspace: &ws, lock: &lock };
    assert!(project.groups().expect("no error").is_empty());
    assert!(whole.groups().expect("no error").is_empty());
}

#[test]
fn non_project_root_groups_are_merged() {
    let groups = table(vec![("lint", vec![req("ruff")]), ("dev", vec![req("A")])]);
    let ws = Workspace::new(groups, Some(vec![Requirement::new("B")]));
    let lock = lock_with(&["member"], None);
    let target = InstallTarget::NonProjectWorkspace { workspace: &ws, lock: &lock };
    let flat = target.groups().expect("no error");
    assert_eq!(flat.len(), 2);
    assert_eq!(flat.name_at(0).as_str(), "dev");
    assert_eq!(flat.name_at(1).as_str(), "lint");
    assert_eq!(group_list(&flat, "lint"), vec!["ruff"]);
    assert_eq!(group_list(&flat, "dev"), vec!["A", "B"]);
}

#[test]
fn non_project_root_group_error_is_reported() {
    let groups = table(vec![("x", vec![inc("missing")])]);
    let ws = Workspace::new(groups, None);
    let lock = lock_with(&[], None);
    let target = InstallTarget::NonProjectWorkspace { workspace: &ws, lock: &lock };
    match target.groups() {
        Err(DependencyGroupError::UnknownGroupReference { group, parent }) => {
            assert_eq!(group.as_str(), "missing");
            assert_eq!(parent.as_str(), "x");
        }
        other => panic!("unexpected result: {:?}", other),
    }
}

#[test]
fn merge_appends_legacy_after_current_schema() {
    let groups = table(vec![("dev", vec![req("A")])]);
    let legacy = vec![Requirement::new("B")];
    let flat = merge_group_sources(&groups, Some(&legacy)).expect("no error");
    assert_eq!(flat.len(), 1);
    assert_eq!(group_list(&flat, "dev"), vec!["A", "B"]);
}

#[test]
fn merge_keeps_duplicates_across_sources() {
    let groups = table(vec![("dev", vec![req("A")])]);
    let legacy = vec![Requirement::new("A")];
    let flat = merge_group_sources(&groups, Some(&legacy)).expect("no error");
    assert_eq!(group_list(&flat, "dev"), vec!["A", "A"]);
}

#[test]
fn merge_adds_dev_group_from_legacy_alone() {
    let groups = table(vec![("test", vec![req("pytest")])]);
    let legacy = vec![Requirement::new("black"), Requirement::new("mypy")];
    let flat = merge_group_sources(&groups, Some(&legacy)).expect("no error");
    assert_eq!(flat.len(), 2);
    assert_eq!(flat.name_at(0).as_str(), "dev");
    assert_eq!(flat.name_at(1).as_str(), "test");
    assert_eq!(group_list(&flat, "dev"), vec!["black", "mypy"]);
    assert_eq!(group_list(&flat, "test"), vec!["pytest"]);
}

#[test]
fn merge_without_legacy_adds_no_dev_group() {
    let groups = table(vec![("test", vec![req("pytest")])]);
    let flat = merge_group_sources(&groups, None).expect("no error");
    assert_eq!(flat.len(), 1);
    assert!(flat.get(&GroupName::dev()).is_none());
}

#[test]
fn cycle_is_rejected_with_its_chain() {
    let groups = table(vec![("x", vec![inc("y")]), ("y", vec![inc("x")])]);
    match FlatDependencyGroups::from_dependency_groups(&groups) {
        Err(DependencyGroupError::CyclicGroupReference(chain)) => {
            let chain: Vec<&str> = chain.iter().map(|g| g.as_str()).collect();
            assert_eq!(chain, vec!["x", "y"]);
        }
        other => panic!("unexpected result: {:?}", other),
    }
}

#[test]
fn self_include_is_a_cycle() {
    let groups = table(vec![("x", vec![req("a"), inc("x")])]);
    match FlatDependencyGroups::from_dependency_groups(&groups) {
        Err(DependencyGroupError::CyclicGroupReference(chain)) => {
            let chain: Vec<&str> = chain.iter().map(|g| g.as_str()).collect();
            assert_eq!(chain, vec!["x"]);
        }
        other => panic!("unexpected result: {:?}", other),
    }
}

#[test]
fn unknown_include_is_rejected() {
    let groups = table(vec![("x", vec![inc("missing")])]);
    match FlatDependencyGroups::from_dependency_groups(&groups) {
        Err(DependencyGroupError::UnknownGroupReference { group, parent }) => {
            assert_eq!(group.as_str(), "missing");
            assert_eq!(parent.as_str(), "x");
        }
        other => panic!("unexpected result: {:?}", other),
    }
}

#[test]
fn unknown_include_names_the_nested_parent() {
    let groups = table(vec![("a", vec![inc("b")]), ("b", vec![req("r"), inc("nowhere")])]);
    match FlatDependencyGroups::from_dependency_groups(&groups) {
        Err(DependencyGroupError::UnknownGroupReference { group, parent }) => {
            assert_eq!(group.as_str(), "nowhere");
            assert_eq!(parent.as_str(), "b");
        }
        other => panic!("unexpected result: {:?}", other),
    }
}

#[test]
fn include_expands_in_place() {
    let groups = table(vec![("base", vec![req("R1")]), ("extra", vec![inc("base"), req("R2")])]);
    let flat = FlatDependencyGroups::from_dependency_groups(&groups).expect("no error");
    assert_eq!(group_list(&flat, "extra"), vec!["R1", "R2"]);
    assert_eq!(group_list(&flat, "base"), vec!["R1"]);
}

#[test]
fn diamond_include_is_not_deduplicated() {
    let groups = table(vec![
        ("a", vec![req("R1")]),
        ("b", vec![inc("a")]),
        ("c", vec![inc("a"), inc("b")]),
    ]);
    let flat = FlatDependencyGroups::from_dependency_groups(&groups).expect("no error");
    assert_eq!(group_list(&flat, "c"), vec!["R1", "R1"]);
}

#[test]
fn empty_table_flattens_to_empty() {
    let flat = FlatDependencyGroups::from_dependency_groups(&DependencyGroups::new()).expect("no error");
    assert!(flat.is_empty());
}

#[test]
fn empty_group_flattens_to_empty_list() {
    let groups = table(vec![("none", vec![]), ("uses", vec![inc("none"), req("z")])]);
    let flat = FlatDependencyGroups::from_dependency_groups(&groups).expect("no error");
    assert!(group_list(&flat, "none").is_empty());
    assert_eq!(group_list(&flat, "uses"), vec!["z"]);
}

#[test]
fn redeclaring_a_group_replaces_it() {
    let groups = table(vec![("g", vec![req("old")]), ("g", vec![req("new")])]);
    assert_eq!(groups.len(), 1);
    let flat = FlatDependencyGroups::from_dependency_groups(&groups).expect("no error");
    assert_eq!(group_list(&flat, "g"), vec!["new"]);
}

#[test]
fn insert_or_extend_appends_and_adds() {
    let mut flat = FlatDependencyGroups::new();
    flat.insert_or_extend(GroupName::new("g"), vec![Requirement::new("a")]);
    flat.insert_or_extend(GroupName::new("g"), vec![Requirement::new("b")]);
    flat.insert_or_extend(GroupName::new("h"), vec![Requirement::new("c")]);
    assert_eq!(flat.len(), 2);
    assert_eq!(group_list(&flat, "g"), vec!["a", "b"]);
    assert_eq!(group_list(&flat, "h"), vec!["c"]);
}

#[test]
fn targets_from_virtual_projects() {
    let lock = lock_with(&["app"], None);
    let mut ws = empty_workspace();
    ws.add_member(PackageName::new("app"));
    let project = VirtualProject::Project(ProjectWorkspace {
        project_name: PackageName::new("app"),
        workspace: ws.clone(),
    });
    let non_project = VirtualProject::NonProject(ws);

    let t = InstallTarget::from_project(&project, &lock);
    assert!(matches!(t, InstallTarget::Project { .. }));
    assert_eq!(t.project_name().map(|p| p.as_str()), Some("app"));
    assert_eq!(names(t.workspace().members()), vec!["app"]);

    let t = InstallTarget::from_workspace(&project, &lock);
    assert!(matches!(t, InstallTarget::Workspace { .. }));
    assert!(t.project_name().is_none());

    let t = InstallTarget::from_project(&non_project, &lock);
    assert!(matches!(t, InstallTarget::NonProjectWorkspace { .. }));
    let t = InstallTarget::from_workspace(&non_project, &lock);
    assert!(matches!(t, InstallTarget::NonProjectWorkspace { .. }));
}

#[test]
fn dev_group_is_named_dev() {
    assert_eq!(GroupName::dev().as_str(), "dev");
}

#[test]
fn flattened_groups_come_in_ascending_order() {
    let groups = table(vec![
        ("zeta", vec![req("z")]),
        ("alpha", vec![inc("zeta")]),
        ("mid", vec![]),
        ("Mid", vec![req("m")]),
    ]);
    let flat = FlatDependencyGroups::from_dependency_groups(&groups).expect("no error");
    let order: Vec<&str> = (0..flat.len()).map(|i| flat.name_at(i).as_str()).collect();
    assert_eq!(order, vec!["Mid", "alpha", "mid", "zeta"]);
    assert_eq!(group_list(&flat, "alpha"), vec!["z"]);
}

#[test]
fn legacy_dev_group_takes_its_sorted_place() {
    let groups = table(vec![("lint", vec![req("ruff")]), ("build", vec![req("wheel")])]);
    let legacy = vec![Requirement::new("pytest")];
    let flat = merge_group_sources(&groups, Some(&legacy)).expect("no error");
    let order: Vec<&str> = (0..flat.len()).map(|i| flat.name_at(i).as_str()).collect();
    assert_eq!(order, vec!["build", "dev", "lint"]);
}

#[test]
fn first_error_in_name_order_is_reported() {
    let groups = table(vec![("b", vec![inc("gone")]), ("a", vec![inc("missing")])]);
    match FlatDependencyGroups::from_dependency_groups(&groups) {
        Err(DependencyGroupError::UnknownGroupReference { group, parent }) => {
            assert_eq!(group.as_str(), "missing");
            assert_eq!(parent.as_str(), "a");
        }
        other => panic!("unexpected result: {:?}", other),
    }
}

#[test]
fn names_compare_by_characters() {
    assert!(GroupName::new("a").compare(&GroupName::new("b")) < 0);
    assert!(GroupName::new("b").compare(&GroupName::new("a")) > 0);
    assert!(GroupName::new("ab").compare(&GroupName::new("a")) > 0);
    assert_eq!(GroupName::new("dev").compare(&GroupName::new("dev")), 0);
    assert!(GroupName::new("é").compare(&GroupName::new("z")) > 0);
}
