use gig::command_spec::{template_completions, template_dir};
use gig::{Completion, CompletionKind, DirEntry, GeneratorKind, Lookups, Opt, Spec, Subcommand, Template};

fn opt(name: &str, description: &str, short: Option<&str>, arg: Option<&str>) -> Opt {
    Opt {
        name: name.to_string(),
        description: Some(description.to_string()),
        short: short.map(|s| s.to_string()),
        arg: arg.map(|s| s.to_string()),
    }
}

fn sub(name: &str, description: Option<&str>, options: Vec<Opt>, template: Option<Template>) -> Subcommand {
    Subcommand {
        name: name.to_string(),
        description: description.map(|s| s.to_string()),
        options,
        generator: None,
        generator_kind: GeneratorKind::default(),
        template,
    }
}

/// A git spec with two options and two subcommands.
fn full_spec() -> Spec {
    Spec {
        name: "git".to_string(),
        description: Some("The stupid content tracker".to_string()),
        options: vec![
            opt("--version", "Prints the Git suite version", None, None),
            opt("-C", "Run as if git was started in <path>", None, Some("path")),
        ],
        subcommands: vec![
            sub(
                "clone",
                Some("Clone a repository"),
                vec![
                    opt("--bare", "Make a bare Git repository", None, None),
                    opt("--branch", "Point to a specific branch", Some("-b"), Some("branch")),
                ],
                None,
            ),
            sub(
                "commit",
                Some("Record changes"),
                vec![
                    opt("--message", "Commit message", Some("-m"), Some("message")),
                    opt("--amend", "Amend the previous commit", None, None),
                ],
                None,
            ),
        ],
        template: None,
    }
}

fn bare_spec(name: &str, template: Option<Template>, subcommands: Vec<Subcommand>) -> Spec {
    Spec { name: name.to_string(), description: None, options: vec![], subcommands, template }
}

fn entry(name: &str, is_dir: bool) -> DirEntry {
    DirEntry { name: name.to_string(), is_dir }
}

/// A listing of a project root.
fn root_listing() -> Option<Vec<DirEntry>> {
    Some(vec![entry("Cargo.toml", false), entry("src", true), entry("README.md", false), entry("target", true)])
}

/// A listing of its `src` directory.
fn src_listing() -> Option<Vec<DirEntry>> {
    Some(vec![entry("main.rs", false), entry("spec.rs", false), entry("tui.rs", false)])
}

fn nothing() -> Lookups {
    Lookups { entries: None, generator_output: None }
}

fn with_entries(entries: Option<Vec<DirEntry>>) -> Lookups {
    Lookups { entries, generator_output: None }
}

fn values(cs: &[Completion]) -> Vec<&str> {
    cs.iter().map(|c| c.value.as_str()).collect()
}

#[test]
fn completions_empty_args_returns_all() {
    let spec = full_spec();
    let completions = spec.completions(&[""], &nothing());
    let values = values(&completions);
    assert!(values.contains(&"clone"));
    assert!(values.contains(&"commit"));
    assert!(values.contains(&"--version"));
    assert!(values.contains(&"-C"));
}

#[test]
fn completions_partial_filters_subcommands() {
    let spec = full_spec();
    let completions = spec.completions(&["cl"], &nothing());
    assert_eq!(values(&completions), vec!["clone"]);
}

#[test]
fn completions_subcommand_shows_its_options() {
    let spec = full_spec();
    let completions = spec.completions(&["commit", ""], &nothing());
    let values = values(&completions);
    assert!(values.contains(&"--message"));
    assert!(values.contains(&"-m"));
    assert!(values.contains(&"--amend"));
}

#[test]
fn completions_subcommand_filters_options() {
    let spec = full_spec();
    let completions = spec.completions(&["commit", "--a"], &nothing());
    assert_eq!(values(&completions), vec!["--amend"]);
}

#[test]
fn completions_unknown_subcommand_returns_empty() {
    let spec = full_spec();
    let completions = spec.completions(&["nonexistent", ""], &nothing());
    assert!(completions.is_empty());
}

#[test]
fn template_filepaths_returns_files_and_dirs() {
    let completions = template_completions(Template::Filepaths, "", &root_listing());
    let values = values(&completions);
    assert!(values.contains(&"Cargo.toml"));
    assert!(values.contains(&"src/"));
    assert!(completions.iter().all(|c| c.kind == CompletionKind::File));
}

#[test]
fn template_folders_returns_only_dirs() {
    let completions = template_completions(Template::Folders, "", &root_listing());
    let values = values(&completions);
    assert!(values.contains(&"src/"));
    assert!(!values.contains(&"Cargo.toml"));
}

#[test]
fn template_folders_have_trailing_slash() {
    let completions = template_completions(Template::Folders, "", &root_listing());
    assert!(completions.iter().all(|c| c.value.ends_with('/')));
}

#[test]
fn template_subdirectory_traversal() {
    assert_eq!(template_dir("src/"), "src/");
    let completions = template_completions(Template::Filepaths, "src/", &src_listing());
    let values = values(&completions);
    assert!(values.contains(&"src/main.rs"));
    assert!(values.contains(&"src/spec.rs"));
}

#[test]
fn template_subdirectory_with_partial() {
    assert_eq!(template_dir("src/sp"), "src/");
    let completions = template_completions(Template::Filepaths, "src/sp", &src_listing());
    let values = values(&completions);
    assert!(values.contains(&"src/spec.rs"));
    assert!(!values.contains(&"src/main.rs"));
}

#[test]
fn completions_with_template_filepaths() {
    let spec = bare_spec("mycli", None, vec![sub("open", None, vec![], Some(Template::Filepaths))]);
    let args = ["open", ""];
    assert_eq!(spec.needs(&args).listing_dir.as_deref(), Some("."));
    let completions = spec.completions(&args, &with_entries(root_listing()));
    let values = values(&completions);
    assert!(values.contains(&"Cargo.toml"));
    assert!(values.contains(&"src/"));
}

#[test]
fn completions_with_template_filters_by_partial() {
    let spec = bare_spec("mycli", None, vec![sub("open", None, vec![], Some(Template::Filepaths))]);
    let completions = spec.completions(&["open", "Car"], &with_entries(root_listing()));
    let values = values(&completions);
    assert!(values.contains(&"Cargo.toml"));
    assert!(!values.contains(&"src/"));
}

#[test]
fn spec_level_template_folders_empty_args() {
    let mut spec = bare_spec("cd", Some(Template::Folders), vec![]);
    spec.description = Some("Change directory".to_string());
    let completions = spec.completions(&[""], &with_entries(root_listing()));
    let values = values(&completions);
    assert!(values.contains(&"src/"));
    assert!(!values.contains(&"Cargo.toml"));
}

#[test]
fn spec_level_template_filters_by_partial() {
    let spec = bare_spec("cd", Some(Template::Folders), vec![]);
    let completions = spec.completions(&["sr"], &with_entries(root_listing()));
    let values = values(&completions);
    assert!(values.contains(&"src/"));
}

#[test]
fn spec_level_template_subdirectory() {
    let spec = bare_spec("mycli", Some(Template::Filepaths), vec![]);
    assert_eq!(spec.needs(&["src/"]).listing_dir.as_deref(), Some("src/"));
    let completions = spec.completions(&["src/"], &with_entries(src_listing()));
    let values = values(&completions);
    assert!(values.contains(&"src/main.rs"));
    assert!(values.contains(&"src/spec.rs"));
}

#[test]
fn template_confirms_directory_already_typed() {
    let completions = template_completions(Template::Filepaths, "src/", &src_listing());
    assert_eq!(completions[0].value, "src/");
    assert_eq!(completions[0].display_name.as_deref(), Some("\u{21b5}"));
    assert_eq!(completions[0].description.as_deref(), Some("Enter the current directory"));
    assert_eq!(completions[0].kind, CompletionKind::Command);
    assert_eq!(completions[1].value, "src/main.rs");
    assert_eq!(completions[1].display_name.as_deref(), Some("main.rs"));
    assert_eq!(completions.len(), 4);
}

#[test]
fn template_unreadable_directory_gives_nothing() {
    let completions = template_completions(Template::Filepaths, "nope/", &None);
    assert!(completions.is_empty());
}

#[test]
fn template_top_level_has_no_display_name() {
    let completions = template_completions(Template::Filepaths, "", &root_listing());
    assert_eq!(values(&completions), vec!["Cargo.toml", "src/", "README.md", "target/"]);
    assert!(completions.iter().all(|c| c.display_name.is_none()));
}

#[test]
fn options_list_long_then_short_form() {
    let o = opt("--branch", "Point to a specific branch", Some("-b"), Some("branch"));
    let cs = gig::command_spec::opt_completions(&o);
    assert_eq!(values(&cs), vec!["--branch", "-b"]);
    assert!(cs.iter().all(|c| c.kind == CompletionKind::Option));
    assert_eq!(cs[1].description.as_deref(), Some("Point to a specific branch"));
}

#[test]
fn dash_word_offers_only_options() {
    let spec = full_spec();
    let completions = spec.completions(&["-"], &nothing());
    assert_eq!(values(&completions), vec!["--version", "-C"]);
    assert!(completions.iter().all(|c| c.kind == CompletionKind::Option));
}

#[test]
fn no_args_lists_subcommands_then_options() {
    let spec = full_spec();
    let completions = spec.completions(&[], &nothing());
    assert_eq!(values(&completions), vec!["clone", "commit", "--version", "-C"]);
    assert_eq!(completions[0].kind, CompletionKind::Subcommand);
    assert_eq!(completions[0].description.as_deref(), Some("Clone a repository"));
}

fn branch_spec(kind: GeneratorKind) -> Spec {
    let mut checkout = sub("checkout", Some("Switch branches"), vec![opt("--force", "Throw away local changes", Some("-f"), None)], None);
    checkout.generator = Some("git branch --format='%(refname:short)'".to_string());
    checkout.generator_kind = kind;
    bare_spec("git", None, vec![checkout])
}

#[test]
fn generator_output_becomes_candidates() {
    let spec = branch_spec(GeneratorKind::Branch);
    let args = ["checkout", ""];
    let needs = spec.needs(&args);
    assert_eq!(needs.command.as_deref(), Some("git branch --format='%(refname:short)'"));
    assert_eq!(needs.listing_dir, None);
    let found = Lookups { entries: None, generator_output: Some("main\n  feature/x \r\n\ndev\n".to_string()) };
    let completions = spec.completions(&args, &found);
    assert_eq!(values(&completions), vec!["main", "feature/x", "dev", "--force", "-f"]);
    assert_eq!(completions[0].kind, CompletionKind::Branch);
}

#[test]
fn generator_results_are_filtered_by_partial() {
    let spec = branch_spec(GeneratorKind::Branch);
    let found = Lookups { entries: None, generator_output: Some("main\nmaster\ndev".to_string()) };
    let completions = spec.completions(&["checkout", "ma"], &found);
    assert_eq!(values(&completions), vec!["main", "master"]);
}

#[test]
fn file_generator_results_are_not_filtered() {
    let spec = branch_spec(GeneratorKind::File);
    let found = Lookups { entries: None, generator_output: Some("a.txt\nb.txt".to_string()) };
    let completions = spec.completions(&["checkout", "zz"], &found);
    assert_eq!(values(&completions), vec!["a.txt", "b.txt"]);
    assert!(completions.iter().all(|c| c.kind == CompletionKind::File));
}

#[test]
fn failed_generator_gives_only_options() {
    let spec = branch_spec(GeneratorKind::Command);
    let completions = spec.completions(&["checkout", ""], &nothing());
    assert_eq!(values(&completions), vec!["--force", "-f"]);
}

#[test]
fn dash_after_subcommand_skips_generator() {
    let spec = branch_spec(GeneratorKind::Branch);
    assert_eq!(spec.needs(&["checkout", "-"]).command, None);
    let found = Lookups { entries: None, generator_output: Some("main\n".to_string()) };
    let completions = spec.completions(&["checkout", "-"], &found);
    assert_eq!(values(&completions), vec!["--force", "-f"]);
}

#[test]
fn unknown_word_with_template_joins_words_as_path() {
    let spec = bare_spec("mycli", Some(Template::Filepaths), vec![]);
    let args = ["sr", "c/"];
    assert_eq!(spec.needs(&args).listing_dir.as_deref(), Some("src/"));
    let completions = spec.completions(&args, &with_entries(src_listing()));
    assert_eq!(values(&completions), vec!["src/", "src/main.rs", "src/spec.rs", "src/tui.rs"]);
}

#[test]
fn no_template_needs_no_listing() {
    let spec = full_spec();
    let needs = spec.needs(&["co"]);
    assert_eq!(needs.listing_dir, None);
    assert_eq!(needs.command, None);
    let completions = spec.completions(&["co"], &with_entries(root_listing()));
    assert_eq!(values(&completions), vec!["commit"]);
}
