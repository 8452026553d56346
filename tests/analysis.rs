use compi::{has_file_relationship, paths_match, Task};

fn task(id: &str, inputs: &[&str], outputs: &[&str]) -> Task {
    Task {
        id: id.to_string(),
        command: String::new(),
        dependencies: Vec::new(),
        aliases: Vec::new(),
        inputs: inputs.iter().map(|s| s.to_string()).collect(),
        outputs: outputs.iter().map(|s| s.to_string()).collect(),
        auto_remove: false,
        timeout: None,
    }
}

#[test]
fn equal_paths_match() {
    assert!(paths_match("build/app", "build/app", &Vec::new()));
    assert!(!paths_match("build/app", "build/lib", &Vec::new()));
}

#[test]
fn glob_matches_count_only_for_globs() {
    let matches = vec!["out/a.o".to_string(), "out/b.o".to_string()];
    assert!(paths_match("out/b.o", "out/*.o", &matches));
    assert!(!paths_match("out/c.o", "out/*.o", &matches));
    assert!(!paths_match("out/b.o", "out/list", &matches));
}

#[test]
fn double_star_prefix_matches() {
    assert!(paths_match("gen/deep/file.rs", "gen/**/*.rs", &Vec::new()));
    assert!(!paths_match("other/file.rs", "gen/**/*.rs", &Vec::new()));
    assert!(!paths_match("anything", "**/x", &Vec::new()));
}

#[test]
fn relationship_needs_an_output_feeding_an_input() {
    let producer = task("p", &[], &["gen/code.rs"]);
    let consumer = task("c", &["gen/**"], &[]);
    assert!(has_file_relationship(&consumer, &producer, &vec![Vec::new()]));
    let unrelated = task("u", &["docs/index.md"], &[]);
    assert!(!has_file_relationship(&unrelated, &producer, &vec![Vec::new()]));
    let no_inputs = task("n", &[], &[]);
    assert!(!has_file_relationship(&no_inputs, &producer, &Vec::new()));
}
