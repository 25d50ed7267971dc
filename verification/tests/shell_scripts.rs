use gig::shell::{detect_shell, init_script};

#[test]
fn zsh_script_contains_pick_widget() {
    let script = init_script("zsh", "/usr/local/bin/gig");
    assert!(script.contains("_gig_fzf_complete"));
    assert!(script.contains("pick --output"));
    assert!(script.contains("bindkey"));
    assert!(script.contains("/dev/tty"));
    assert!(script.contains("mktemp"));
}

#[test]
fn zsh_script_embeds_binary_path() {
    let script = init_script("zsh", "/usr/local/bin/gig");
    assert!(script.contains("/gig") || script.contains("\"gig\""));
    assert!(script.contains("\"/usr/local/bin/gig\" pick --output \"$tmpfile\""));
    assert!(script.contains("tokens=(${(z)LBUFFER})"));
}

#[test]
fn bash_script_contains_complete() {
    let script = init_script("bash", "gig");
    assert!(script.contains("complete -F"));
    assert!(script.contains("_gig_completions"));
    assert!(script.contains("COMPREPLY"));
    assert!(script.contains("local completions=$(\"gig\" complete \"$cmd\" $args 2>/dev/null)"));
}

#[test]
fn unsupported_shell_returns_comment() {
    let script = init_script("fish", "gig");
    assert!(script.contains("Unsupported"));
    assert_eq!(script, "# Unsupported shell\n");
}

#[test]
fn shell_detection_from_variable() {
    assert_eq!(detect_shell(Some("/bin/zsh")), "zsh");
    assert_eq!(detect_shell(Some("/usr/bin/bash")), "bash");
    assert_eq!(detect_shell(Some("/usr/bin/fish")), "zsh");
    assert_eq!(detect_shell(None), "zsh");
}
