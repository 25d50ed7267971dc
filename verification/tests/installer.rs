use gig::installer::{
    hook_block, hook_markers_in_order, installed_content, is_installed, rc_file_name,
    uninstalled_content, HOOK_MARKER_BEGIN, HOOK_MARKER_END,
};

#[test]
fn is_installed_detects_marker() {
    assert!(is_installed("stuff\n# >>> gig >>>\neval\n# <<< gig <<<\n"));
    assert!(!is_installed("just normal shell config\n"));
}

#[test]
fn install_adds_hook_to_empty_file() {
    let content = installed_content("", "zsh");
    assert!(content.is_some());
    let content = content.unwrap();
    assert!(content.contains(HOOK_MARKER_BEGIN));
    assert!(content.contains("gig init zsh"));
    assert!(content.contains(HOOK_MARKER_END));
    assert_eq!(content, "# >>> gig >>>\neval \"$(gig init zsh)\"\n# <<< gig <<<\n");
}

#[test]
fn install_appends_to_existing_file() {
    let content = installed_content("export PATH=/usr/bin\n", "zsh");
    assert!(content.is_some());
    let content = content.unwrap();
    assert!(content.starts_with("export PATH=/usr/bin"));
    assert!(content.contains(HOOK_MARKER_BEGIN));
    assert_eq!(
        content,
        "export PATH=/usr/bin\n\n# >>> gig >>>\neval \"$(gig init zsh)\"\n# <<< gig <<<\n"
    );
}

#[test]
fn install_is_idempotent() {
    let once = installed_content("", "bash").unwrap();
    let modified = installed_content(&once, "bash");
    assert!(modified.is_none());
}

#[test]
fn uninstall_removes_hook() {
    let installed = installed_content("", "zsh").unwrap();
    let content = uninstalled_content(&installed);
    assert!(content.is_some());
    let content = content.unwrap();
    assert!(!content.contains(HOOK_MARKER_BEGIN));
    assert!(!content.contains("gig init"));
    assert_eq!(content, "");
}

#[test]
fn uninstall_preserves_other_content() {
    let installed = installed_content("export FOO=bar\n", "zsh").unwrap();
    let content = uninstalled_content(&installed).unwrap();
    assert!(content.contains("export FOO=bar"));
    assert!(!content.contains(HOOK_MARKER_BEGIN));
    assert_eq!(content, "export FOO=bar\n");
}

#[test]
fn uninstall_noop_when_not_installed() {
    let modified = uninstalled_content("# just a comment\n");
    assert!(modified.is_none());
}

#[test]
fn uninstall_keeps_lines_after_block() {
    let content = "a\n# >>> gig >>>\neval \"$(gig init bash)\"\n# <<< gig <<<\nb\n\n\n";
    assert!(hook_markers_in_order(content));
    assert_eq!(uninstalled_content(content).unwrap(), "a\nb\n");
}

#[test]
fn uninstall_without_end_marker_leaves_file() {
    let content = "a\n# >>> gig >>>\neval\n";
    assert!(hook_markers_in_order(content));
    assert!(uninstalled_content(content).is_none());
}

#[test]
fn markers_out_of_order_are_detected() {
    assert!(!hook_markers_in_order("# <<< gig <<<\nx\n# >>> gig >>>\n"));
    assert!(hook_markers_in_order("# <<< gig <<<\n# >>> gig >>>\n"));
}

#[test]
fn hook_block_text() {
    assert_eq!(hook_block("bash"), "# >>> gig >>>\neval \"$(gig init bash)\"\n# <<< gig <<<");
}

#[test]
fn rc_files_per_shell() {
    assert_eq!(rc_file_name("zsh"), Some(".zshrc"));
    assert_eq!(rc_file_name("bash"), Some(".bashrc"));
    assert_eq!(rc_file_name("fish"), None);
}

#[test]
fn uninstall_reports_no_change_when_nothing_removed() {
    let content = "# <<< gig <<<\n# >>> gig >>>\n";
    assert!(hook_markers_in_order(content));
    assert!(uninstalled_content(content).is_none());
    let changed = "# <<< gig <<<\n# >>> gig >>>\n\n";
    assert_eq!(uninstalled_content(changed).unwrap(), "# <<< gig <<<\n# >>> gig >>>\n");
}

#[test]
fn uninstall_undoes_install_for_odd_shell_names() {
    let installed = installed_content("alias ll='ls -l'  \n\n", "#weird shell").unwrap();
    assert_eq!(uninstalled_content(&installed).unwrap(), "alias ll='ls -l'\n");
}
