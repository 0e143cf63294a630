use pathranger::paths::{abbreviate_home, format_path, normalize_path};
use pathranger::ranking::rank_by_key;
use pathranger::shell::Shell;
use pathranger::text::compare_text;

#[test]
fn rank_by_key_picks_best_first() {
    let keys = vec![Some(3), None, Some(7), Some(3), Some(1)];
    let texts: Vec<String> = ["m", "n", "o", "c", "c"].iter().map(|s| s.to_string()).collect();
    assert_eq!(rank_by_key(&keys, &texts, 10), vec![2, 3, 0, 4]);
    assert_eq!(rank_by_key(&keys, &texts, 2), vec![2, 3]);
    assert_eq!(rank_by_key(&keys, &texts, 0), Vec::<usize>::new());
    assert_eq!(rank_by_key(&Vec::new(), &Vec::new(), 3), Vec::<usize>::new());
    let same: Vec<String> = vec!["t".to_string(); 3];
    assert_eq!(rank_by_key(&vec![Some(1), Some(1), Some(1)], &same, 3), vec![0, 1, 2]);
}

#[test]
fn compare_text_is_lexicographic() {
    assert!(compare_text("abc", "abd") < 0);
    assert!(compare_text("abd", "abc") > 0);
    assert!(compare_text("ab", "abc") < 0);
    assert_eq!(compare_text("same", "same"), 0);
    assert!(compare_text("", "a") < 0);
    assert!(compare_text("Z", "a") < 0);
    assert!(compare_text("é", "z") > 0);
}

#[test]
fn abbreviate_home_replaces_prefix() {
    assert_eq!(abbreviate_home("/home/u/work", "/home/u"), "~/work");
    assert_eq!(abbreviate_home("/home/u", "/home/u"), "~");
    assert_eq!(abbreviate_home("/tmp/x", "/home/u"), "/tmp/x");
    assert_eq!(abbreviate_home("/ho", "/home/u"), "/ho");
    assert_eq!(abbreviate_home("/etc", "/"), "~etc");
}

#[test]
fn format_path_keeps_paths_elsewhere_or_abbreviates() {
    let shown = format_path("/definitely/not/home/x");
    assert!(shown == "/definitely/not/home/x" || shown.starts_with('~'));
}

#[test]
fn normalize_path_expands_leading_tilde_only() {
    assert_eq!(normalize_path("/abs/path"), "/abs/path");
    assert_eq!(normalize_path("rel/path"), "rel/path");
    assert_eq!(normalize_path("~user/x"), "~user/x");
    let expanded = normalize_path("~/projects");
    assert!(expanded.ends_with("/projects"));
    assert_ne!(expanded, "~/projects");
}

#[test]
fn shell_names() {
    assert_eq!(Shell::from_name("bash"), Some(Shell::Bash));
    assert_eq!(Shell::from_name("zsh"), Some(Shell::Zsh));
    assert_eq!(Shell::from_name("fish"), Some(Shell::Fish));
    assert_eq!(Shell::from_name("tcsh"), None);
    assert_eq!(Shell::from_name(""), None);
}
