use commando::error::CommandoError;
use commando::pacutils::{with_aur, FetchAction, FetchEvent, MirrorFallback, Repo};

fn repo(name: &str, mirrors: &[&str]) -> Repo {
    Repo { name: name.to_string(), mirrors: mirrors.iter().map(|m| m.to_string()).collect() }
}

fn get_url(a: FetchAction) -> String {
    match a {
        FetchAction::Get(u) => u,
        _ => panic!("expected a request"),
    }
}

#[test]
fn mirror_fallback_returns_first_success() {
    let r = repo("core", &["https://a.example/core", "https://b.example/core", "https://c.example/core", "https://d.example/core"]);
    let mut f = MirrorFallback::new(&r);
    let mut asked = vec![get_url(f.request())];
    asked.push(get_url(f.on_event(FetchEvent::Failed)));
    asked.push(get_url(f.on_event(FetchEvent::Failed)));
    match f.on_event(FetchEvent::Fetched(b"manifest-c".to_vec())) {
        FetchAction::Done(b) => assert_eq!(b, b"manifest-c".to_vec()),
        _ => panic!("expected the fetched body"),
    }
    assert_eq!(
        asked,
        vec![
            "https://a.example/core/core.files".to_string(),
            "https://b.example/core/core.files".to_string(),
            "https://c.example/core/core.files".to_string(),
        ]
    );
}

#[test]
fn all_mirrors_failing_names_repo() {
    let r = repo("extra", &["https://a.example/x", "https://b.example/x"]);
    let mut f = MirrorFallback::new(&r);
    get_url(f.request());
    get_url(f.on_event(FetchEvent::Failed));
    match f.on_event(FetchEvent::Failed) {
        FetchAction::Fail(CommandoError::NoMirror { repo }) => assert_eq!(repo, "extra.files"),
        _ => panic!("expected the repository's error"),
    }
}

#[test]
fn no_mirrors_fails_at_once() {
    let mut f = MirrorFallback::new(&repo("multilib", &[]));
    assert!(matches!(f.request(), FetchAction::Fail(CommandoError::NoMirror { repo }) if repo == "multilib.files"));
}

#[test]
fn unusable_mirror_url_skipped() {
    let mut f = MirrorFallback::new(&repo("core", &["not a url", "https://ok.example/core/os/x86_64"]));
    assert_eq!(get_url(f.request()), "https://ok.example/core/os/x86_64/core.files");
}

#[test]
fn aur_repo_appended() {
    let repos = with_aur(vec![repo("core", &["https://a.example"])], "x86_64");
    assert_eq!(repos.len(), 2);
    assert_eq!(repos[0].name, "core");
    assert_eq!(repos[1].name, "chaotic-aur");
    assert_eq!(
        repos[1].mirrors,
        vec![
            "https://geo-mirror.chaotic.cx/chaotic-aur/x86_64".to_string(),
            "https://cdn-mirror.chaotic.cx/chaotic-aur/x86_64".to_string(),
        ]
    );
}

#[test]
fn pacman_conf_sections_become_repos() {
    let output = "[options]\nArchitecture = auto\n\n[core]\nServer = https://a.example/core/os/x86_64\nServer = https://b.example/core/os/x86_64\n\n[extra]\nServer = https://a.example/extra/os/x86_64\n";
    let repos = commando::pacutils::parse_pacman_conf(output);
    assert_eq!(repos.len(), 2);
    assert_eq!(repos[0].name, "core");
    assert_eq!(
        repos[0].mirrors,
        vec!["https://a.example/core/os/x86_64".to_string(), "https://b.example/core/os/x86_64".to_string()]
    );
    assert_eq!(repos[1].name, "extra");
    assert_eq!(repos[1].mirrors, vec!["https://a.example/extra/os/x86_64".to_string()]);
}

#[test]
fn pacman_conf_without_sections() {
    assert!(commando::pacutils::parse_pacman_conf("[options]\nX = y\n").is_empty());
    assert!(commando::pacutils::parse_pacman_conf("").is_empty());
}

#[test]
fn repo_named_by_first_header_capture() {
    let names = Some(vec![Some("core".to_string()), Some("other".to_string())]);
    let mirrors = Some(vec![Some("https://a.example".to_string()), None, Some("https://b.example".to_string())]);
    let r = commando::pacutils::repo_from_captures(names, mirrors).unwrap();
    assert_eq!(r.name, "core");
    assert_eq!(r.mirrors, vec!["https://a.example".to_string(), "https://b.example".to_string()]);
}

#[test]
fn repo_needs_a_header_capture() {
    assert!(commando::pacutils::repo_from_captures(Some(Vec::new()), None).is_none());
    assert!(commando::pacutils::repo_from_captures(Some(vec![None]), None).is_none());
    assert!(commando::pacutils::repo_from_captures(None, Some(Vec::new())).is_none());
    let r = commando::pacutils::repo_from_captures(Some(vec![Some("x".to_string())]), None).unwrap();
    assert!(r.mirrors.is_empty());
}

#[test]
fn downloads_all_fetched() {
    let r = commando::pacutils::collect_downloads(vec![Ok(vec![1, 2]), Ok(vec![3])]).unwrap();
    assert_eq!(r, vec![vec![1, 2], vec![3]]);
    assert!(commando::pacutils::collect_downloads(Vec::new()).unwrap().is_empty());
}

#[test]
fn one_failed_repo_aborts_update() {
    let r = commando::pacutils::collect_downloads(vec![
        Ok(vec![1]),
        Err(CommandoError::NoMirror { repo: "extra.files".to_string() }),
        Ok(vec![2]),
        Err(CommandoError::NoMirror { repo: "multilib.files".to_string() }),
    ]);
    assert!(matches!(r, Err(CommandoError::NoMirror { repo }) if repo == "extra.files"));
}
