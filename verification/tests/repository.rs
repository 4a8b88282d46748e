use rgit::repository::{
    repo_create, repo_find_step, ConfigEntry, ConfigSection, DirState, RGitRepository, RepoConfig,
    RepoFindStep,
};
use rgit::GitError;

fn config_with_version(version: &str) -> RepoConfig {
    RepoConfig {
        sections: vec![ConfigSection {
            name: String::from("core"),
            entries: vec![ConfigEntry {
                key: String::from("repositoryformatversion"),
                value: Some(String::from(version)),
            }],
        }],
    }
}

#[test]
fn init_plan_contents() {
    let plan = repo_create(&String::from("/work/repo"));
    let dirs: Vec<&str> = plan.dirs.iter().map(|d| d.as_str()).collect();
    assert_eq!(
        dirs,
        vec![
            "/work/repo",
            "/work/repo/.git/branches",
            "/work/repo/.git/objects",
            "/work/repo/.git/refs/tags",
            "/work/repo/.git/refs/heads",
        ]
    );
    assert_eq!(plan.files.len(), 3);
    assert_eq!(plan.files[0].0, "/work/repo/.git/description");
    assert_eq!(
        plan.files[0].1,
        "Unnamed repository; edit this file 'description' to name the repository.\n"
    );
    assert_eq!(plan.files[1].0, "/work/repo/.git/HEAD");
    assert_eq!(plan.files[1].1, "ref: refs/heads/master\n");
    assert_eq!(plan.files[2].0, "/work/repo/.git/config");
    assert_eq!(
        plan.files[2].1,
        "[core]\nrepositoryformatversion=0\nfilemode=false\nbare=false\n"
    );
}

#[test]
fn discovery_ascends_three_levels() {
    // Discovery from three levels below a repository root reaches that root,
    // neither stopping early nor overshooting.
    let mut current = String::from("/repo/a/b/c");
    let parents = [("/repo/a/b/c", "/repo/a/b"), ("/repo/a/b", "/repo/a"), ("/repo/a", "/repo")];
    for _ in 0..3 {
        let parent = parents
            .iter()
            .find(|(p, _)| *p == current)
            .map(|(_, q)| q.to_string())
            .unwrap();
        match repo_find_step(current.clone(), false, parent) {
            RepoFindStep::Ascend(next) => current = next,
            other => panic!("expected to ascend, got {:?}", other),
        }
    }
    assert_eq!(current, "/repo");
    match repo_find_step(current, true, String::from("/")) {
        RepoFindStep::Found(root) => assert_eq!(root, "/repo"),
        other => panic!("expected to find the root, got {:?}", other),
    }
}

#[test]
fn discovery_stops_at_filesystem_root() {
    assert_eq!(
        repo_find_step(String::from("/"), false, String::from("/")),
        RepoFindStep::NotFound
    );
}

#[test]
fn init_requires_metadata_or_force() {
    assert_eq!(
        RGitRepository::init(String::from("/p"), false, false, None).unwrap_err(),
        GitError::NotFound
    );
}

#[test]
fn init_checks_format_version() {
    assert_eq!(
        RGitRepository::init(String::from("/p"), false, true, None).unwrap_err(),
        GitError::ConfigInvalid
    );
    assert_eq!(
        RGitRepository::init(String::from("/p"), false, true, Some(config_with_version("1")))
            .unwrap_err(),
        GitError::ConfigInvalid
    );
    let repo =
        RGitRepository::init(String::from("/p"), false, true, Some(config_with_version("0")))
            .unwrap();
    assert_eq!(repo.work_tree, "/p");
    assert_eq!(repo.git_dir, "/p/.git");
}

#[test]
fn config_lookup_finds_first_match() {
    let conf = config_with_version("0");
    assert_eq!(
        conf.get(&String::from("core"), &String::from("repositoryformatversion")),
        Some(Some(String::from("0")))
    );
    assert_eq!(conf.get(&String::from("core"), &String::from("bare")), None);
    assert_eq!(conf.get(&String::from("user"), &String::from("name")), None);
}

#[test]
fn repo_paths_join_under_the_metadata_root() {
    let repo =
        RGitRepository::init(String::from("/p"), true, true, None).unwrap();
    let segments = vec![String::from("objects"), String::from("ce"), String::from("0136")];
    assert_eq!(repo.repo_path(&segments), "/p/.git/objects/ce/0136");
    assert_eq!(
        repo.repo_file(&segments, DirState::IsDir, false),
        Some(String::from("/p/.git/objects/ce/0136"))
    );
    assert_eq!(
        repo.repo_file(&segments, DirState::Missing, true),
        Some(String::from("/p/.git/objects/ce/0136"))
    );
    assert_eq!(repo.repo_file(&segments, DirState::Missing, false), None);
    assert_eq!(repo.repo_file(&segments, DirState::NotDir, true), None);
}

#[test]
fn object_find_is_identity() {
    let repo = RGitRepository::init(String::from("/p"), true, false, None).unwrap();
    assert_eq!(
        repo.object_find(String::from("ce013625030ba8dba906f756967f9e9ca394464a"), None, None),
        "ce013625030ba8dba906f756967f9e9ca394464a"
    );
}
