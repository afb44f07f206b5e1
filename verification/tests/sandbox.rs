//! Paths inside and outside the allowed roots.
use yoagent::tools::sandbox::{
    normalize_lexically, Answer, Component, PathSandbox, Resolver, ToolError,
};

fn path(text: &str) -> Vec<Component> {
    let mut components = Vec::new();
    if text.starts_with('/') {
        components.push(Component::RootDir);
    }
    for name in text.split('/').filter(|n| !n.is_empty()) {
        components.push(match name {
            "." => Component::CurDir,
            ".." => Component::ParentDir,
            _ => Component::Normal(name.as_bytes().to_vec()),
        });
    }
    components
}

fn shown(path: &[Component]) -> String {
    let mut text = String::new();
    for component in path {
        if !text.is_empty() && text != "/" {
            text.push('/');
        }
        match component {
            Component::Prefix(name) | Component::Normal(name) => {
                text.push_str(std::str::from_utf8(name).unwrap())
            }
            Component::RootDir => text.push('/'),
            Component::CurDir => text.push('.'),
            Component::ParentDir => text.push_str(".."),
        }
    }
    text
}

/// A filesystem where exactly the paths on the left of `real` exist, as those on the right, and
/// where the paths on the left of `links` are links that say what stands on the right.
#[derive(Clone, Copy, Default)]
struct Disk<'a> {
    real: &'a [(&'a str, &'a str)],
    links: &'a [(&'a str, &'a str)],
}

fn resolve_on(text: &str, disk: Disk) -> Vec<Component> {
    let find = |table: &[(&str, &str)], name: &str| {
        table
            .iter()
            .find(|(left, _)| *left == name)
            .map(|(_, right)| path(right))
    };
    let mut resolver = Resolver::new(&path(text), &Some(path("/work")));
    loop {
        let candidate = shown(&resolver.candidate());
        let answer = match (find(disk.real, &candidate), find(disk.links, &candidate)) {
            (Some(real), _) => Answer::There(real),
            (None, Some(target)) => Answer::Link(target),
            (None, None) => Answer::Missing,
        };
        if let Some(done) = resolver.advance(answer) {
            return done;
        }
    }
}

fn resolve(text: &str, real: &[(&str, &str)]) -> Vec<Component> {
    resolve_on(text, Disk { real, links: &[] })
}

fn sandbox(root: &str) -> PathSandbox {
    PathSandbox::new(vec![resolve(root, &[("/", "/")])])
}

#[test]
fn empty_sandbox_allows_anything() {
    let s = PathSandbox::default();
    assert!(s.is_unrestricted());
    assert!(s.check("/etc/passwd", path("/etc/passwd")).is_ok());
    let s = PathSandbox::new(vec![]);
    assert!(s.is_unrestricted());
}

#[test]
fn inside_allowed_root_passes_outside_is_rejected() {
    let disk = [("/ws/ok.txt", "/ws/ok.txt"), ("/etc/passwd", "/etc/passwd")];
    let s = sandbox("/ws");
    assert!(!s.is_unrestricted());
    let inside = s.check("/ws/ok.txt", resolve("/ws/ok.txt", &disk)).unwrap();
    assert_eq!(shown(&inside), "/ws/ok.txt");
    assert!(s.check("/etc/passwd", resolve("/etc/passwd", &disk)).is_err());
    assert!(s.check("/ws2/x", path("/ws2/x")).is_err());
    assert!(s.check("/ws", path("/ws")).is_ok());
}

#[test]
fn traversal_out_of_the_root_is_rejected() {
    let s = sandbox("/tmp/workspace");
    let disk = [
        ("/tmp/workspace/../secret.txt", "/tmp/secret.txt"),
        ("/tmp/workspace", "/tmp/workspace"),
        ("/", "/"),
    ];
    let escape = "/tmp/workspace/../secret.txt";
    assert!(s.check(escape, resolve(escape, &disk)).is_err());
    let missing = "/tmp/workspace/nothing/../../secret.txt";
    assert_eq!(shown(&resolve(missing, &disk)), "/tmp/secret.txt");
    assert!(s.check(missing, resolve(missing, &disk)).is_err());
}

#[test]
fn nonexistent_file_under_allowed_root_is_permitted() {
    let s = sandbox("/tmp/ws");
    let disk = [("/tmp/ws", "/tmp/ws"), ("/tmp", "/tmp"), ("/", "/")];
    let new_file = "/tmp/ws/nested/deep/new.txt";
    assert!(s.check(new_file, resolve(new_file, &disk)).is_ok());
}

#[test]
fn nonexistent_path_outside_root_is_rejected() {
    let s = sandbox("/tmp/x/ws");
    let other = "/nonexistent-elsewhere/x.txt";
    assert!(s.check(other, resolve(other, &[("/", "/")])).is_err());
}

#[test]
fn symlink_out_of_the_root_is_rejected() {
    let s = sandbox("/tmp/workspace");
    let disk = [
        ("/tmp/workspace/link/secret.txt", "/tmp/outside/secret.txt"),
        ("/tmp/workspace/link", "/tmp/outside"),
        ("/tmp/workspace", "/tmp/workspace"),
    ];
    let linked = "/tmp/workspace/link/secret.txt";
    assert!(s.check(linked, resolve(linked, &disk)).is_err());
    let unwritten = "/tmp/workspace/link/new.txt";
    assert_eq!(shown(&resolve(unwritten, &disk)), "/tmp/outside/new.txt");
    assert!(s.check(unwritten, resolve(unwritten, &disk)).is_err());
}

#[test]
fn link_behind_a_missing_directory_is_still_followed() {
    let s = sandbox("/ws");
    let disk = [
        ("/ws/link/secret", "/outside/secret"),
        ("/ws/link", "/outside"),
        ("/ws", "/ws"),
        ("/", "/"),
    ];
    let escape = "/ws/nope/../link/secret";
    assert_eq!(shown(&resolve(escape, &disk)), "/outside/secret");
    assert!(s.check(escape, resolve(escape, &disk)).is_err());
    let unwritten = "/ws/nope/../link/new";
    assert_eq!(shown(&resolve(unwritten, &disk)), "/outside/new");
    let relative = [("/work/link", "/outside"), ("/work", "/work"), ("/", "/")];
    assert_eq!(shown(&resolve("nope/../link/x", &relative)), "/outside/x");
}

#[test]
fn link_to_what_does_not_exist_yet_is_followed() {
    let s = sandbox("/ws");
    let disk = Disk {
        real: &[("/ws", "/ws"), ("/outside", "/outside"), ("/", "/")],
        links: &[
            ("/ws/link", "/outside/new.txt"),
            ("/ws/relative", "../outside/./dir"),
            ("/ws/inner", "sub/new.txt"),
            ("/ws/chain", "link"),
        ],
    };
    for (text, place) in [
        ("/ws/link", "/outside/new.txt"),
        ("/ws/relative/x", "/outside/dir/x"),
        ("/ws/chain", "/outside/new.txt"),
        ("/ws/nope/../link", "/outside/new.txt"),
    ] {
        assert_eq!(shown(&resolve_on(text, disk)), place);
        assert!(s.check(text, resolve_on(text, disk)).is_err());
    }
    assert_eq!(shown(&resolve_on("/ws/inner", disk)), "/ws/sub/new.txt");
    assert!(s.check("/ws/inner", resolve_on("/ws/inner", disk)).is_ok());
}

#[test]
fn link_without_an_end_keeps_its_name() {
    let disk = Disk {
        real: &[
            ("/ws", "/ws"),
            ("/link", "/real"),
            ("/out", "/out"),
            ("/", "/"),
        ],
        links: &[
            ("/ws/self", "self"),
            ("/ws/a", "b"),
            ("/ws/b", "/ws/a"),
            ("/ws/grows", "grows/x"),
            ("/ws/new", "/out/new"),
            ("/link/ws", "ws"),
            ("/out/into", "/ws/self"),
        ],
    };
    let s = sandbox("/ws");
    for (text, place) in [
        ("/ws/self", "/ws/self"),
        ("/ws/a/x", "/ws/a/x"),
        ("/ws/b", "/ws/b"),
        ("/ws/grows/y", "/ws/grows/y"),
    ] {
        let inside = s.check(text, resolve_on(text, disk)).unwrap();
        assert_eq!(shown(&inside), place);
    }
    assert_eq!(shown(&resolve_on("/link/ws", disk)), "/real/ws");
    assert!(s
        .check("/out/into", resolve_on("/out/into", disk))
        .is_err());
    // A `..` after such a link leads to what is asked for in its own right.
    let behind = "/ws/self/../new";
    assert_eq!(shown(&resolve_on(behind, disk)), "/out/new");
    assert!(s.check(behind, resolve_on(behind, disk)).is_err());
    let root = PathSandbox::new(vec![resolve_on("/ws/self", disk)]);
    assert!(root.check("/ws/self", resolve_on("/ws/self", disk)).is_ok());
}

#[test]
fn long_chain_of_links_is_followed_or_keeps_its_name() {
    for (count, place) in [(50, "/ws/end"), (100, "/ws/l0")] {
        let names: Vec<(String, String)> = (0..count)
            .map(|i| {
                let next = if i + 1 < count {
                    format!("l{}", i + 1)
                } else {
                    "end".to_string()
                };
                (format!("/ws/l{i}"), next)
            })
            .collect();
        let links: Vec<(&str, &str)> = names
            .iter()
            .map(|(a, b)| (a.as_str(), b.as_str()))
            .collect();
        let disk = Disk {
            real: &[("/ws", "/ws"), ("/", "/")],
            links: &links,
        };
        assert_eq!(shown(&resolve_on("/ws/l0", disk)), place);
        assert!(sandbox("/ws")
            .check("/ws/l0", resolve_on("/ws/l0", disk))
            .is_ok());
    }
}

#[test]
fn drives_are_starts_of_their_own() {
    let drive = |rest: &str| {
        let mut whole = vec![Component::Prefix(b"C:".to_vec())];
        whole.extend(path(rest));
        whole
    };
    let mut resolver = Resolver::new(&drive("/ws/new/../x"), &Some(path("/work")));
    let place = loop {
        let candidate = shown(&resolver.candidate());
        let answer = match candidate.as_str() {
            "C:///ws" => Answer::There(drive("/ws")),
            _ => Answer::Missing,
        };
        if let Some(done) = resolver.advance(answer) {
            break done;
        }
    };
    assert_eq!(shown(&place), shown(&drive("/ws/x")));
    let mut resolver = Resolver::new(&drive("/q"), &None);
    assert!(resolver.advance(Answer::Missing).is_none());
    let done = resolver.advance(Answer::Missing).unwrap();
    assert_eq!(shown(&done), shown(&drive("/q")));
}

#[test]
fn workspace_created_later_still_matches() {
    let before = [("/link", "/real"), ("/", "/")];
    let s = PathSandbox::new(vec![resolve("/link/ws", &before)]);
    let after = [
        ("/link/ws/f", "/real/ws/f"),
        ("/link/ws", "/real/ws"),
        ("/link", "/real"),
        ("/", "/"),
    ];
    let inside = s.check("/link/ws/f", resolve("/link/ws/f", &after)).unwrap();
    assert_eq!(shown(&inside), "/real/ws/f");
    assert!(s
        .clone()
        .check("/link/ws/g", resolve("/link/ws/g", &after))
        .is_ok());
    assert!(s.check("/link/other", resolve("/link/other", &after)).is_err());
}

#[test]
fn error_does_not_disclose_the_allowed_roots() {
    let s = sandbox("/srv/secret-workspace-name");
    match s.check("/etc/passwd", path("/etc/passwd")) {
        Err(ToolError::Failed(text)) => {
            assert_eq!(text, "path '/etc/passwd' is outside the allowed directories");
            assert!(!text.contains("secret-workspace-name"));
        }
        Ok(_) => panic!("outside"),
    }
}

#[test]
fn relative_paths_start_at_the_current_directory() {
    let cwd = Some(path("/work/dir"));
    let normal = |text: &str| shown(&normalize_lexically(&path(text), &cwd));
    assert_eq!(normal("a/./b"), "/work/dir/a/b");
    assert_eq!(normal("a/../b"), "/work/dir/b");
    assert_eq!(normal("../b"), "/work/b");
    assert_eq!(normal("a/../../b"), "/work/b");
    assert_eq!(normal("../../../.."), "/");
    assert_eq!(normal(""), "/work/dir");
    assert_eq!(normal("."), "/work/dir");
    assert_eq!(normal("/a/../../b/."), "/b");
}

#[test]
fn without_a_current_directory_paths_stay_relative() {
    let normal = |text: &str| shown(&normalize_lexically(&path(text), &None));
    assert_eq!(normal("a/../b"), "b");
    assert_eq!(normal("a/.."), ".");
    assert_eq!(normal("../a/.."), "..");
    assert_eq!(normal("/a/./b"), "/a/b");
}

#[test]
fn nearest_existing_ancestor_is_taken() {
    let disk = [
        ("/work/a/b", "/real/b"),
        ("/work/a", "/other"),
        ("/real/b", "/real/b"),
    ];
    assert_eq!(shown(&resolve("a/b/c/../d", &disk)), "/real/b/d");
    assert_eq!(shown(&resolve("a/b", &disk)), "/real/b");
    assert_eq!(shown(&resolve("./a/./x", &disk)), "/other/x");
    assert_eq!(shown(&resolve("y/x", &disk)), "/work/y/x");
}

#[test]
fn roots_are_taken_where_they_really_are() {
    let disk = [("/work/link", "/real"), ("/work", "/work"), ("/", "/")];
    let s = PathSandbox::new(vec![
        resolve("link", &disk),
        resolve("later/../ws", &disk),
    ]);
    assert!(s.check("x", path("/real/x")).is_ok());
    assert!(s.check("x", path("/work/ws/x")).is_ok());
    assert!(s.check("x", path("/work/link/x")).is_err());
}
