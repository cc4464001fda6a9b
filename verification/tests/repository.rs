use pijul::repository::{
    bad_config_message, config_with_remote, created_message, init_default_config, init_dot_ignore,
    DirPath, Existing, Repository, RepositoryError, RootSearch, UserKind, CHANGES_DIR, CONFIG_FILE, DOT_DIR, PRISTINE_DIR,
};

fn path(s: &str) -> DirPath {
    DirPath {
        rooted: s.starts_with('/'),
        parts: s.split('/').filter(|p| !p.is_empty()).map(|p| p.as_bytes().to_vec()).collect(),
    }
}

fn text(p: &DirPath) -> String {
    let parts: Vec<String> =
        p.parts.iter().map(|p| String::from_utf8(p.clone()).unwrap()).collect();
    format!("{}{}", if p.rooted { "/" } else { "" }, parts.join("/"))
}

#[test]
fn names() {
    assert_eq!((DOT_DIR, PRISTINE_DIR, CHANGES_DIR, CONFIG_FILE), (".pijul", "pristine", "changes", "config"));
}

#[test]
fn paths() {
    let mut p = path("/a/b");
    p.push(&path("c/d"));
    assert_eq!(text(&p), "/a/b/c/d");
    assert!(p.pop());
    assert_eq!(text(&p), "/a/b/c");
    p.push(&path("/e"));
    assert_eq!(text(&p), "/e");
    assert!(p.pop());
    assert!(!p.pop());
    assert_eq!(text(&p), "/");
    assert!(path("a/b").same(&path("a/b")));
    assert!(!path("a/b").same(&path("/a/b")));
    assert!(!path("a/b").same(&path("a")));
    assert!(!path("a/b").same(&path("a/c")));
}

#[test]
fn searches_go_up() {
    let mut s = RootSearch::new(&path("/a/b"), &path(".other"));
    assert_eq!(text(&s.cur), "/a/b/.other");
    assert!(s.reject());
    assert_eq!(text(&s.cur), "/a/.pijul");
    assert!(s.reject());
    assert_eq!(text(&s.cur), "/.pijul");
    assert!(!s.reject());
}

#[test]
fn repositories_are_found() {
    let r = Repository::find_root(
        &path("/home/me/repo/src"),
        &vec![path("/home/.pijul"), path("/home/me/repo/.pijul")],
        None,
        3,
    )
    .ok()
    .unwrap();
    assert_eq!(text(&r.path), "/home/me/repo");
    assert_eq!(text(&r.working_copy), "/home/me/repo");
    assert_eq!(text(&r.changes.0), "/home/me/repo");
    assert_eq!(r.changes.1, 3);
    assert_eq!(text(&r.pristine), "/home/me/repo/.pijul/pristine/db");
    assert_eq!(text(&r.changes_dir), "/home/me/repo/.pijul/changes");
    assert!(r.config.is_none());
    let (file, written) = r.update_config(Some("x = 1\n".to_string())).unwrap();
    assert_eq!(text(&file), "/home/me/repo/.pijul/config");
    assert_eq!(written, "x = 1\n");
    assert!(r.update_config(None).is_none());
}

#[test]
fn repositories_are_not_found() {
    let r = Repository::find_root(&path("/home/me"), &vec![path("/home/you/.pijul")], None, 3);
    assert!(matches!(r, Err(RepositoryError::NotFound)));
}

#[test]
fn other_directories_are_looked_for_once() {
    let r = Repository::find_root_with_dot_dir(
        &path("/a/b"),
        &path(".other"),
        &vec![path("/a/.other"), path("/.pijul")],
        Some(b"[hooks]\n".to_vec()),
        1,
    )
    .ok()
    .unwrap();
    assert_eq!(text(&r.path), "/");
    assert_eq!(r.config.as_deref(), Some("[hooks]\n"));
    let r = Repository::find_root_with_dot_dir(
        &path("/a/b"),
        &path(".other"),
        &vec![path("/a/b/.other"), path("/.pijul")],
        None,
        1,
    )
    .ok()
    .unwrap();
    assert_eq!(text(&r.changes_dir), "/a/b/.other/changes");
}

#[test]
fn configurations_are_text() {
    assert_eq!(text(&Repository::config_path(&path("/a/.pijul"))), "/a/.pijul/config");
    let r = Repository::at(&path("/a/.pijul"), Some("é".as_bytes().to_vec()), 1).ok().unwrap();
    assert_eq!(r.config.as_deref(), Some("é"));
    let r = Repository::at(&path("/a/.pijul"), Some(vec![0xff]), 1);
    assert!(matches!(r, Err(RepositoryError::ConfigNotUtf8)));
}

fn ignore(kind: Option<&str>) -> String {
    init_dot_ignore(false, kind, &vec![]).unwrap()
}

#[test]
fn ignore_files() {
    assert_eq!(ignore(None), ".git\n.DS_Store\n");
    assert_eq!(ignore(Some("rust")), ".git\n.DS_Store\n/target\nCargo.lock\n");
    assert_eq!(ignore(Some("RuSt")), ignore(Some("rust")));
    assert_eq!(ignore(Some("node")), ".git\n.DS_Store\nnode_modules\n");
    assert_eq!(ignore(Some("NodeJS")), ignore(Some("node")));
    assert_eq!(ignore(Some("lean")), ".git\n.DS_Store\n/build\n");
    assert_eq!(ignore(Some("haskell")), ignore(None));
    assert_eq!(ignore(Some("rusty")), ignore(None));
    assert!(init_dot_ignore(true, Some("rust"), &vec![]).is_none());
}

#[test]
fn user_kinds_come_first() {
    let kinds = vec![
        UserKind { name: "rust".to_string(), entries: vec!["*.o".to_string(), "x".to_string()] },
        UserKind { name: "empty".to_string(), entries: vec![] },
    ];
    let f = |kind| init_dot_ignore(false, Some(kind), &kinds).unwrap();
    assert_eq!(f("rust"), ".git\n.DS_Store\n*.o\nx\n");
    // The names of the user are matched exactly.
    assert_eq!(f("Rust"), ".git\n.DS_Store\n/target\nCargo.lock\n");
    assert_eq!(f("empty"), ".git\n.DS_Store\n");
}

#[test]
fn configuration_files() {
    assert_eq!(init_default_config(false, None).unwrap(), "[hooks]\nrecord = []\n");
    assert_eq!(
        init_default_config(false, Some("me@host:a\"b\\c")).unwrap(),
        "default_remote = \"me@host:a\\\"b\\\\c\"\n[hooks]\nrecord = []\n"
    );
    assert!(init_default_config(true, Some("x")).is_none());
    assert_eq!(config_with_remote(Some("'x'")), "default_remote = 'x'\n[hooks]\nrecord = []\n");
    assert_eq!(config_with_remote(None), "[hooks]\nrecord = []\n");
}

#[test]
fn repositories_are_made() {
    let nothing = Existing { pristine: false, ignore: false, config: false };
    let p = Repository::init(&path("/a"), &nothing, Some("lean"), &vec![], Some("r"), 4)
        .ok()
        .unwrap();
    assert_eq!(text(&p.create), "/a/.pijul/pristine");
    assert_eq!(text(&Repository::pristine_dir(&path("/a"))), "/a/.pijul/pristine");
    assert_eq!(text(&p.ignore.0), "/a/.ignore");
    assert_eq!(p.ignore.1.unwrap(), ".git\n.DS_Store\n/build\n");
    assert_eq!(text(&p.config.0), "/a/.pijul/config");
    assert_eq!(p.config.1.unwrap(), "default_remote = \"r\"\n[hooks]\nrecord = []\n");
    assert_eq!(text(&p.repository.pristine), "/a/.pijul/pristine/db");
    assert_eq!(text(&p.repository.changes_dir), "/a/.pijul/changes");
    assert_eq!(p.repository.changes.1, 4);
    assert!(p.repository.config.is_none());
}

#[test]
fn existing_files_are_kept() {
    let files = Existing { pristine: false, ignore: true, config: true };
    let p = Repository::init(&path("/a"), &files, None, &vec![], None, 4).ok().unwrap();
    assert!(p.ignore.1.is_none());
    assert!(p.config.1.is_none());
    let all = Existing { pristine: true, ignore: false, config: false };
    let p = Repository::init(&path("/a"), &all, None, &vec![], None, 4);
    assert!(matches!(p, Err(RepositoryError::AlreadyInRepository)));
}

#[test]
fn made_repositories_are_found() {
    let nothing = Existing { pristine: false, ignore: false, config: false };
    let made = Repository::init(&path("/a/b"), &nothing, None, &vec![], None, 4).ok().unwrap();
    let mut dot_dir = made.create.copied();
    dot_dir.pop();
    for below in ["/a/b", "/a/b/c", "/a/b/c/d/e"] {
        let r = Repository::find_root(&path(below), &vec![dot_dir.copied()], None, 4).ok().unwrap();
        assert!(r.path.same(&made.repository.path));
        assert!(r.pristine.same(&made.repository.pristine));
        assert!(r.changes_dir.same(&made.repository.changes_dir));
    }
}

#[test]
fn configurations_come_back() {
    let nothing = Existing { pristine: false, ignore: false, config: false };
    let made = Repository::init(&path("/a"), &nothing, None, &vec![], Some("r"), 4).ok().unwrap();
    let mut dot_dir = made.create.copied();
    dot_dir.pop();
    let written = made.config.1.unwrap();
    let find = |config: &str| {
        let read = Some(config.as_bytes().to_vec());
        Repository::find_root(&path("/a/b"), &vec![dot_dir.copied()], read, 4).ok().unwrap()
    };
    let found = find(&written);
    assert_eq!(found.config.as_deref(), Some("default_remote = \"r\"\n[hooks]\nrecord = []\n"));
    let (file, text_written) = found.update_config(Some("default_remote = 'é'\n".into())).unwrap();
    assert!(file.same(&made.config.0));
    assert_eq!(find(&text_written).config.as_deref(), Some("default_remote = 'é'\n"));
}

#[test]
fn messages() {
    let message = |e: RepositoryError| e.message("\"/a/config\"");
    assert_eq!(message(RepositoryError::NotFound).unwrap(), "No Pijul repository found");
    assert_eq!(message(RepositoryError::AlreadyInRepository).unwrap(), "Already in a repository");
    assert_eq!(message(RepositoryError::ConfigNotUtf8), None);
    assert_eq!(
        message(RepositoryError::BadConfig).unwrap(),
        "Could not read configuration file at \"/a/config\""
    );
    assert_eq!(bad_config_message("\"x\""), "Could not read configuration file at \"x\"");
    assert_eq!(created_message("/a"), "Repository created at /a");
}

#[test]
fn broken_configurations_are_errors() {
    let at = |config: Option<&str>| {
        let read = config.map(|c| c.as_bytes().to_vec());
        Repository::at(&path("/a/.pijul"), read, 4).ok().unwrap()
    };
    let parse = |r: &Repository| r.config.as_ref().and_then(|t| toml::from_str(t).ok());
    let configured = |config| {
        let r = at(config);
        let parsed: Option<toml::Table> = parse(&r);
        r.configured(parsed, toml::Table::new())
    };
    assert!(matches!(configured(Some("default_remote = ")), Err(RepositoryError::BadConfig)));
    let (r, config) = configured(None).ok().unwrap();
    assert!(r.path.same(&path("/a")));
    assert!(config.is_empty());
    let (r, config) = configured(Some("default_remote = \"r\"\n")).ok().unwrap();
    assert!(r.path.same(&path("/a")));
    assert_eq!(config["default_remote"].as_str(), Some("r"));
}

#[test]
fn remotes_come_back() {
    let nothing = Existing { pristine: false, ignore: false, config: false };
    for remote in ["me@host:repo", "a \"b\" \\ c", "x~y!z"] {
        let made =
            Repository::init(&path("/a"), &nothing, None, &vec![], Some(remote), 4).ok().unwrap();
        let mut dot_dir = made.create.copied();
        dot_dir.pop();
        let read = Some(made.config.1.unwrap().into_bytes());
        let found = Repository::find_root(&path("/a/b"), &vec![dot_dir], read, 4).ok().unwrap();
        let parsed = toml::from_str(found.config.as_ref().unwrap()).ok();
        let (r, config): (_, toml::Table) =
            found.configured(parsed, toml::Table::new()).ok().unwrap();
        assert!(r.path.same(&path("/a")));
        assert_eq!(config["default_remote"].as_str(), Some(remote));
    }
}
