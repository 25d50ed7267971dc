use gig::{find_spec, generate_completions, is_spec_file};
use gig::{GeneratorKind, Lookups, Opt, Spec, Subcommand};

fn sub(name: &str, description: &str, options: Vec<Opt>) -> Subcommand {
    Subcommand {
        name: name.to_string(),
        description: Some(description.to_string()),
        options,
        generator: None,
        generator_kind: GeneratorKind::Branch,
        template: None,
    }
}

/// The specs of the test directory: git and docker.
fn test_specs() -> Vec<Spec> {
    let git = Spec {
        name: "git".to_string(),
        description: Some("Version control".to_string()),
        options: vec![],
        subcommands: vec![
            sub(
                "commit",
                "Record changes",
                vec![Opt {
                    name: "--message".to_string(),
                    description: Some("Commit message".to_string()),
                    short: Some("-m".to_string()),
                    arg: None,
                }],
            ),
            sub("push", "Update remote", vec![]),
        ],
        template: None,
    };
    let docker = Spec {
        name: "docker".to_string(),
        description: Some("Container runtime".to_string()),
        options: vec![],
        subcommands: vec![sub("run", "Run a container", vec![]), sub("build", "Build an image", vec![])],
        template: None,
    };
    vec![git, docker]
}

fn nothing() -> Lookups {
    Lookups { entries: None, generator_output: None }
}

#[test]
fn find_spec_by_name() {
    let specs = test_specs();
    assert!(find_spec(&specs, "git").is_some());
    assert!(find_spec(&specs, "docker").is_some());
    assert!(find_spec(&specs, "npm").is_none());
}

#[test]
fn find_spec_returns_first_of_that_name() {
    let mut specs = test_specs();
    let mut again = test_specs().remove(0);
    again.description = None;
    specs.push(again);
    let found = find_spec(&specs, "git").unwrap();
    assert_eq!(found.description.as_deref(), Some("Version control"));
}

#[test]
fn generate_completions_with_descriptions() {
    let specs = test_specs();
    let git = find_spec(&specs, "git").unwrap();
    let output = generate_completions(git, &[""], &nothing());
    assert!(output.contains("commit\tRecord changes"));
    assert!(output.contains("push\tUpdate remote"));
}

#[test]
fn generate_completions_subcommand_options() {
    let specs = test_specs();
    let git = find_spec(&specs, "git").unwrap();
    let output = generate_completions(git, &["commit", ""], &nothing());
    assert!(output.contains("--message\tCommit message"));
    assert!(output.contains("-m\tCommit message"));
}

#[test]
fn generate_completions_no_match() {
    let specs = test_specs();
    let git = find_spec(&specs, "git").unwrap();
    let output = generate_completions(git, &["xyz"], &nothing());
    assert!(output.is_empty());
}

#[test]
fn generate_completions_exact_text() {
    let specs = test_specs();
    let git = find_spec(&specs, "git").unwrap();
    let output = generate_completions(git, &[], &nothing());
    assert_eq!(output, "commit\tRecord changes\npush\tUpdate remote");
    let mut bare = test_specs().remove(0);
    bare.subcommands[1].description = None;
    assert_eq!(generate_completions(&bare, &["p"], &nothing()), "push");
}

#[test]
fn spec_files_have_toml_extension() {
    assert!(is_spec_file("git.toml"));
    assert!(is_spec_file("a.toml"));
    assert!(is_spec_file("a.b.toml"));
    assert!(!is_spec_file("readme.txt"));
    assert!(!is_spec_file("readme.md"));
    assert!(!is_spec_file(".toml"));
    assert!(!is_spec_file("toml"));
    assert!(!is_spec_file("git.TOML"));
}
