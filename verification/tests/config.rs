use libpijul::config::{global_config_dir, use_colors, Author, Choice, RawRemote, Remote, RemoteConfig, SshRemote};

#[test]
fn colors_unless_never() {
    assert!(use_colors(None));
    assert!(use_colors(Some(Choice::Auto)));
    assert!(use_colors(Some(Choice::Always)));
    assert!(!use_colors(Some(Choice::Never)));
    assert_eq!(Choice::default(), Choice::Auto);
}

#[test]
fn config_dir_from_environment_first() {
    assert_eq!(global_config_dir(Some(String::from("/etc/p")), Some(String::from("/home/u/.config"))), Some(String::from("/etc/p")));
    assert_eq!(global_config_dir(None, Some(String::from("/home/u/.config"))), Some(String::from("/home/u/.config/pijul")));
    assert_eq!(global_config_dir(None, None), None);
}

#[test]
fn default_author_has_no_details() {
    let a = Author::default();
    assert!(a.username.is_empty());
    assert!(a.email.is_empty());
    assert!(a.origin.is_empty());
    assert!(a.key_path.is_none());
}

#[test]
fn remote_config_name() {
    let r = RemoteConfig::Ssh { name: String::from("origin"), ssh: String::from("me@host") };
    assert_eq!(r.name(), "origin");
    let r = RemoteConfig::Http { name: String::from("web"), http: String::from("https://x"), headers: Vec::new() };
    assert_eq!(r.name(), "web");
}

fn same(a: &Remote, b: &Remote) -> bool {
    match (a, b) {
        (Remote::Ssh(x), Remote::Ssh(y)) => x.addr == y.addr,
        (Remote::Local { local: x }, Remote::Local { local: y }) => x == y,
        (Remote::Http { url: x }, Remote::Http { url: y }) => x == y,
        (Remote::Empty, Remote::Empty) => true,
        _ => false,
    }
}

#[test]
fn remote_round_trip() {
    let remotes = vec![
        Remote::Ssh(SshRemote { addr: String::from("me@host:repo") }),
        Remote::Local { local: String::from("/tmp/repo") },
        Remote::Http { url: String::from("https://nest/repo") },
        Remote::Empty,
    ];
    for r in remotes.iter() {
        let raw = r.to_raw();
        assert!(same(&Remote::from_raw(raw), r));
    }
}

#[test]
fn remote_fields_take_ssh_first() {
    let raw = RawRemote {
        ssh: Some(SshRemote { addr: String::from("a") }),
        local: Some(String::from("b")),
        url: Some(String::from("c")),
    };
    assert!(same(&Remote::from_raw(raw), &Remote::Ssh(SshRemote { addr: String::from("a") })));
    let raw = RawRemote { ssh: None, local: None, url: Some(String::from("c")) };
    assert!(same(&Remote::from_raw(raw), &Remote::Http { url: String::from("c") }));
    let raw = RawRemote { ssh: None, local: None, url: None };
    assert!(same(&Remote::from_raw(raw), &Remote::Empty));
}

#[test]
fn authors_are_copied_whole() {
    let a = Author {
        username: String::from("ada"),
        display_name: String::from("Ada"),
        email: String::from("ada@example.org"),
        origin: String::from("nest"),
        key_path: Some(String::from("/k")),
    };
    let b = a.clone_author();
    assert_eq!(b.username, "ada");
    assert_eq!(b.display_name, "Ada");
    assert_eq!(b.email, "ada@example.org");
    assert_eq!(b.origin, "nest");
    assert_eq!(b.key_path, Some(String::from("/k")));
}
