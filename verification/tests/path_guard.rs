use rsync_http::guard::{admit_canonical, join_target, locate, GuardError};
use rsync_http::path::{
    bytes_equal, join_components, normalize, path_is_absolute, path_is_under, path_steps_up,
    relativize, resolve_components, significant_components, split_path,
};

fn comps(parts: &[&str]) -> Vec<Vec<u8>> {
    parts.iter().map(|p| p.as_bytes().to_vec()).collect()
}

#[test]
fn split_cuts_at_every_separator() {
    assert_eq!(split_path(b"a/b/c"), comps(&["a", "b", "c"]));
    assert_eq!(split_path(b""), comps(&[""]));
    assert_eq!(split_path(b"/"), comps(&["", ""]));
    assert_eq!(split_path(b"/a"), comps(&["", "a"]));
    assert_eq!(split_path(b"a/"), comps(&["a", ""]));
    assert_eq!(split_path(b"a//b"), comps(&["a", "", "b"]));
    assert_eq!(split_path(b"docs/readme.txt"), comps(&["docs", "readme.txt"]));
}

#[test]
fn join_puts_one_separator_between_components() {
    assert_eq!(join_components(&comps(&[])), b"".to_vec());
    assert_eq!(join_components(&comps(&["a"])), b"a".to_vec());
    assert_eq!(join_components(&comps(&["a", "b", "c"])), b"a/b/c".to_vec());
    assert_eq!(join_components(&comps(&["", "a"])), b"/a".to_vec());
}

#[test]
fn join_undoes_split() {
    for p in ["a/b/c", "", "/", "//x/./../y/", "docs/readme.txt"] {
        assert_eq!(join_components(&split_path(p.as_bytes())), p.as_bytes().to_vec());
    }
}

#[test]
fn significant_drops_empty_and_current() {
    assert_eq!(
        significant_components(&comps(&["", "a", ".", "", "..", "b", ""])),
        comps(&["a", "..", "b"])
    );
}

#[test]
fn resolve_cancels_names_with_parents() {
    assert_eq!(resolve_components(&comps(&["a", "b", "..", "c"])), Some(comps(&["a", "c"])));
    assert_eq!(resolve_components(&comps(&["a", ".", "", "b"])), Some(comps(&["a", "b"])));
    assert_eq!(resolve_components(&comps(&["a", ".."])), Some(comps(&[])));
    assert_eq!(resolve_components(&comps(&[".."])), None);
    assert_eq!(resolve_components(&comps(&["a", "..", "..", "a", "b"])), None);
    assert_eq!(resolve_components(&comps(&["...", "..a", "a.."])), Some(comps(&["...", "..a", "a.."])));
}

#[test]
fn normalize_resolves_relative_paths() {
    assert_eq!(normalize(b"docs/readme.txt"), Some(b"docs/readme.txt".to_vec()));
    assert_eq!(normalize(b"docs/./x/../readme.txt"), Some(b"docs/readme.txt".to_vec()));
    assert_eq!(normalize(b"a//b/"), Some(b"a/b".to_vec()));
    assert_eq!(normalize(b""), Some(b"".to_vec()));
    assert_eq!(normalize(b"."), Some(b"".to_vec()));
    assert_eq!(normalize(b"a/.."), Some(b"".to_vec()));
}

#[test]
fn normalize_refuses_escaping_paths() {
    assert_eq!(normalize(b"../../etc/passwd"), None);
    assert_eq!(normalize(b".."), None);
    assert_eq!(normalize(b"a/../../b"), None);
    assert_eq!(normalize(b"a/b/../../../a/b"), None);
    assert_eq!(normalize(b"/etc/passwd"), None);
    assert_eq!(normalize(b"/"), None);
}

#[test]
fn normalize_is_idempotent_on_its_results() {
    for p in ["docs/./x/../readme.txt", "a//b/", "x/y/z", "a/b/../c/./d"] {
        let once = normalize(p.as_bytes()).unwrap();
        assert_eq!(normalize(&once), Some(once.clone()));
    }
}

#[test]
fn absolute_paths_start_with_a_separator() {
    assert!(path_is_absolute(b"/"));
    assert!(path_is_absolute(b"/home/user"));
    assert!(!path_is_absolute(b""));
    assert!(!path_is_absolute(b"home/user"));
    assert!(!path_is_absolute(b"./home"));
}

#[test]
fn bytes_equal_compares_content() {
    assert!(bytes_equal(b"", b""));
    assert!(bytes_equal(b"abc", b"abc"));
    assert!(!bytes_equal(b"abc", b"abd"));
    assert!(!bytes_equal(b"abc", b"ab"));
    assert!(!bytes_equal(b"ab", b"abc"));
}

#[test]
fn under_compares_whole_components() {
    assert!(path_is_under(b"/home/user", b"/home/user"));
    assert!(path_is_under(b"/home/user", b"/home/user/watched"));
    assert!(path_is_under(b"/home/user/", b"/home/user/watched/deep"));
    assert!(path_is_under(b"/home//user/.", b"/home/user/watched"));
    assert!(path_is_under(b"/", b"/etc/passwd"));
    assert!(!path_is_under(b"/home/user", b"/home/username"));
    assert!(!path_is_under(b"/home/user", b"/home"));
    assert!(!path_is_under(b"/home/user", b"/etc/passwd"));
    assert!(!path_is_under(b"/home/user", b"home/user/x"));
    assert!(path_is_under(b"a/b", b"a/b/c"));
}

#[test]
fn relativize_strips_the_base() {
    assert_eq!(relativize(b"/srv/root", b"/srv/root/docs/readme.txt"), Some(b"docs/readme.txt".to_vec()));
    assert_eq!(relativize(b"/srv/root/", b"/srv/root//a.txt"), Some(b"a.txt".to_vec()));
    assert_eq!(relativize(b"/srv/root", b"/srv/root"), Some(b"".to_vec()));
    assert_eq!(relativize(b"/srv/root", b"/srv/rootless/a.txt"), None);
    assert_eq!(relativize(b"/srv/root", b"/srv"), None);
    assert_eq!(relativize(b"/srv/root", b"srv/root/a.txt"), None);
}

#[test]
fn guard_turns_absolute_targets_away() {
    assert_eq!(join_target(b"/home/user", b"/etc"), Err(GuardError::PathEscapesRoot));
    assert_eq!(join_target(b"/home/user", b"/"), Err(GuardError::PathEscapesRoot));
    assert_eq!(join_target(b"/home/user", b"/home/user/watched"), Err(GuardError::PathEscapesRoot));
}

#[test]
fn guard_joins_relative_targets() {
    assert_eq!(join_target(b"/home/user", b"watched"), Ok(b"/home/user/watched".to_vec()));
    assert_eq!(join_target(b"/home/user/", b"watched"), Ok(b"/home/user/watched".to_vec()));
    assert_eq!(join_target(b"/home/user", b"."), Ok(b"/home/user/.".to_vec()));
    assert_eq!(join_target(b"/home/user", b"../../etc/passwd"), Ok(b"/home/user/../../etc/passwd".to_vec()));
    assert_eq!(join_target(b"/", b"x"), Ok(b"/x".to_vec()));
    assert_eq!(join_target(b"", b"x"), Ok(b"x".to_vec()));
    assert_eq!(join_target(b"/home/user", b""), Ok(b"/home/user/".to_vec()));
}

#[test]
fn guard_admits_only_canonical_paths_under_the_working_directory() {
    assert_eq!(admit_canonical(b"/home/user", None), Err(GuardError::InvalidPath));
    assert_eq!(
        admit_canonical(b"/home/user", Some(b"/home/user/watched".to_vec())),
        Ok(b"/home/user/watched".to_vec())
    );
    assert_eq!(admit_canonical(b"/home/user", Some(b"/home/user".to_vec())), Ok(b"/home/user".to_vec()));
    assert_eq!(
        admit_canonical(b"/home/user", Some(b"/etc/passwd".to_vec())),
        Err(GuardError::PathEscapesRoot)
    );
    assert_eq!(
        admit_canonical(b"/home/user", Some(b"/home/username".to_vec())),
        Err(GuardError::PathEscapesRoot)
    );
    assert_eq!(admit_canonical(b"/home/user", Some(b"/home".to_vec())), Err(GuardError::PathEscapesRoot));
}

#[test]
fn store_guard_rejects_escaping_paths() {
    assert_eq!(locate(b"../../etc/passwd"), Err(GuardError::PathEscapesRoot));
    assert_eq!(locate(b"/etc/passwd"), Err(GuardError::PathEscapesRoot));
    assert_eq!(locate(b"docs/../../x"), Err(GuardError::PathEscapesRoot));
    assert_eq!(locate(b".."), Err(GuardError::PathEscapesRoot));
}

#[test]
fn store_guard_rejects_the_root_itself() {
    assert_eq!(locate(b""), Err(GuardError::InvalidPath));
    assert_eq!(locate(b"."), Err(GuardError::InvalidPath));
    assert_eq!(locate(b"docs/.."), Err(GuardError::InvalidPath));
}

#[test]
fn store_guard_resolves_paths_inside_the_root() {
    assert_eq!(locate(b"docs/readme.txt"), Ok(b"docs/readme.txt".to_vec()));
    assert_eq!(locate(b"./docs//x/../readme.txt"), Ok(b"docs/readme.txt".to_vec()));
    assert_eq!(locate(b"a.txt"), Ok(b"a.txt".to_vec()));
}

#[test]
fn steps_up_are_whole_components() {
    assert!(path_steps_up(b".."));
    assert!(path_steps_up(b"../x"));
    assert!(path_steps_up(b"a/../b"));
    assert!(path_steps_up(b"a/b/.."));
    assert!(path_steps_up(b"/.."));
    assert!(!path_steps_up(b""));
    assert!(!path_steps_up(b"a/b"));
    assert!(!path_steps_up(b"..."));
    assert!(!path_steps_up(b"..a/a.."));
    assert!(!path_steps_up(b"./a"));
}
