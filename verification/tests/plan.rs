use rustery::edges::extract_bases;
use rustery::executor::{compose_image_invocations, compose_plan, render_invocation, PlanConfig};
use rustery::names::{canonical_image_name, local_file_path};
use rustery::pipeline::{make_plan, PlanError, SourceFile};

fn cv(s: &str) -> Vec<char> {
    s.chars().collect()
}

fn sv(v: &Vec<char>) -> String {
    v.iter().collect()
}

fn svs(vs: &Vec<Vec<char>>) -> Vec<String> {
    vs.iter().map(sv).collect()
}

fn config(client: &str, extension: &str, registry: Option<&str>) -> PlanConfig {
    PlanConfig { client: cv(client), extension: cv(extension), registry: registry.map(cv) }
}

fn file(path: &str, contents: &str) -> SourceFile {
    SourceFile { path: cv(path), contents: cv(contents) }
}

#[test]
fn canonical_name_simple() {
    let name = canonical_image_name(&cv("./a.docker"), &cv("docker")).unwrap();
    assert_eq!(sv(&name), "localhost/a");
}

#[test]
fn canonical_name_tag_separator() {
    let name = canonical_image_name(&cv("./web__v2.docker"), &cv("docker")).unwrap();
    assert_eq!(sv(&name), "localhost/web:v2");
}

#[test]
fn canonical_name_removes_dots() {
    let name = canonical_image_name(&cv("./sub.dir/app.docker"), &cv("docker")).unwrap();
    assert_eq!(sv(&name), "localhost/subdir/app");
}

#[test]
fn canonical_name_wrong_extension() {
    assert!(canonical_image_name(&cv("./a.docker"), &cv("container")).is_none());
}

#[test]
fn round_trip_simple() {
    let name = canonical_image_name(&cv("./a.docker"), &cv("docker")).unwrap();
    let path = local_file_path(&name, &cv("docker"));
    assert_eq!(sv(&path), "./a.docker");
}

#[test]
fn round_trip_with_tag() {
    let name = canonical_image_name(&cv("./web__v2.docker"), &cv("docker")).unwrap();
    let path = local_file_path(&name, &cv("docker"));
    assert_eq!(sv(&path), "./web__v2.docker");
}

#[test]
fn extract_bases_simple() {
    let bases = extract_bases(&cv("FROM scratch\nRUN echo hi\n")).unwrap();
    assert_eq!(svs(&bases), vec!["scratch"]);
}

#[test]
fn extract_bases_multiple() {
    let bases = extract_bases(&cv("FROM a AS one\nCOPY x y\nFROM b\n")).unwrap();
    assert_eq!(svs(&bases), vec!["a", "b"]);
}

#[test]
fn extract_bases_leading_whitespace() {
    let bases = extract_bases(&cv("  FROM spaced\n")).unwrap();
    assert_eq!(svs(&bases), vec!["spaced"]);
}

#[test]
fn extract_bases_keyword_must_stand_alone() {
    let bases = extract_bases(&cv("FROMX not-a-declaration\n")).unwrap();
    assert!(bases.is_empty());
}

#[test]
fn extract_bases_empty_file() {
    let bases = extract_bases(&cv("")).unwrap();
    assert!(bases.is_empty());
}

#[test]
fn extract_bases_malformed_line() {
    let err = extract_bases(&cv("FROM ok\nFROM\n")).unwrap_err();
    assert_eq!(err.line, 1);
}

#[test]
fn scenario_two_files_linear_chain() {
    let files = vec![
        file("./a.docker", "FROM localhost/b\n"),
        file("./b.docker", "FROM scratch\n"),
    ];
    let plan = make_plan(&files, &config("podman", "docker", None), 20).unwrap();
    assert_eq!(svs(&plan.queue), vec!["scratch", "localhost/b", "localhost/a"]);
    assert!(plan.unresolved.is_empty());
}

#[test]
fn scenario_cycle_reported_and_excluded() {
    let files = vec![
        file("./a.docker", "FROM localhost/b\n"),
        file("./b.docker", "FROM localhost/a\n"),
    ];
    let plan = make_plan(&files, &config("podman", "docker", None), 20).unwrap();
    assert!(plan.queue.is_empty());
    assert_eq!(plan.unresolved.len(), 2);
    assert_eq!(sv(&plan.unresolved[0].image), "localhost/a");
    assert_eq!(svs(&plan.unresolved[0].missing), vec!["localhost/b"]);
    assert_eq!(sv(&plan.unresolved[1].image), "localhost/b");
    assert_eq!(svs(&plan.unresolved[1].missing), vec!["localhost/a"]);
}

#[test]
fn external_base_seeded_exactly_once() {
    let files = vec![
        file("./a.docker", "FROM scratch\n"),
        file("./b.docker", "FROM scratch\n"),
    ];
    let plan = make_plan(&files, &config("podman", "docker", None), 20).unwrap();
    assert_eq!(svs(&plan.queue), vec!["scratch", "localhost/a", "localhost/b"]);
}

#[test]
fn deep_chain_orders_dependencies_first() {
    let files = vec![
        file("./top.docker", "FROM localhost/mid\n"),
        file("./mid.docker", "FROM localhost/bottom\n"),
        file("./bottom.docker", "FROM alpine\n"),
    ];
    let plan = make_plan(&files, &config("podman", "docker", None), 20).unwrap();
    let queue = svs(&plan.queue);
    assert_eq!(queue, vec!["alpine", "localhost/bottom", "localhost/mid", "localhost/top"]);
}

#[test]
fn multiple_bases_all_precede_dependent() {
    let files = vec![
        file("./app.docker", "FROM localhost/base\nFROM debian\n"),
        file("./base.docker", "FROM debian\n"),
    ];
    let plan = make_plan(&files, &config("podman", "docker", None), 20).unwrap();
    let queue = svs(&plan.queue);
    assert_eq!(queue, vec!["debian", "localhost/base", "localhost/app"]);
}

#[test]
fn file_without_declarations_stays_out() {
    let files = vec![file("./plain.docker", "RUN echo nothing\n")];
    let plan = make_plan(&files, &config("podman", "docker", None), 20).unwrap();
    assert!(plan.queue.is_empty());
    assert!(plan.unresolved.is_empty());
    assert!(plan.invocations.is_empty());
}

#[test]
fn duplicate_image_is_a_conflict() {
    let files = vec![
        file("./a.b.docker", "FROM scratch\n"),
        file("./ab.docker", "FROM scratch\n"),
    ];
    let err = make_plan(&files, &config("podman", "docker", None), 20).unwrap_err();
    match err {
        PlanError::DuplicateImage { image } => assert_eq!(sv(&image), "localhost/ab"),
        _ => panic!("expected a duplicate-image conflict"),
    }
}

#[test]
fn bad_extension_reported_with_file_index() {
    let files = vec![
        file("./a.docker", "FROM scratch\n"),
        file("./b.container", "FROM scratch\n"),
    ];
    let err = make_plan(&files, &config("podman", "docker", None), 20).unwrap_err();
    assert!(matches!(err, PlanError::BadExtension { file: 1 }));
}

#[test]
fn malformed_declaration_reported_with_position() {
    let files = vec![file("./a.docker", "RUN echo\nFROM\n")];
    let err = make_plan(&files, &config("podman", "docker", None), 20).unwrap_err();
    assert!(matches!(err, PlanError::MalformedDeclaration { file: 0, line: 1 }));
}

#[test]
fn build_invocation_for_podman() {
    let invs = compose_image_invocations(&cv("localhost/a"), &config("podman", "docker", None));
    assert_eq!(invs.len(), 1);
    assert_eq!(sv(&invs[0].program), "podman");
    assert_eq!(
        svs(&invs[0].args),
        vec!["build", "--file", "./a.docker", "--tag", "localhost/a", "--format", "docker", "."]
    );
}

#[test]
fn build_invocation_without_compat_flag() {
    let invs = compose_image_invocations(&cv("localhost/a"), &config("docker", "docker", None));
    assert_eq!(
        svs(&invs[0].args),
        vec!["build", "--file", "./a.docker", "--tag", "localhost/a", "."]
    );
}

#[test]
fn registry_adds_tag_invocation_with_rewritten_destination() {
    let invs = compose_image_invocations(
        &cv("localhost/a"),
        &config("podman", "docker", Some("registry.example.com")),
    );
    assert_eq!(invs.len(), 2);
    assert_eq!(sv(&invs[1].program), "podman");
    assert_eq!(svs(&invs[1].args), vec!["tag", "localhost/a", "registry.example.com/a"]);
}

#[test]
fn pull_invocation_for_external_image() {
    let invs = compose_image_invocations(&cv("scratch"), &config("podman", "docker", None));
    assert_eq!(invs.len(), 1);
    assert_eq!(svs(&invs[0].args), vec!["pull", "scratch"]);
}

#[test]
fn plan_composes_build_and_pull_in_queue_order() {
    let files = vec![
        file("./a.docker", "FROM localhost/b\n"),
        file("./b.docker", "FROM scratch\n"),
    ];
    let plan = make_plan(&files, &config("podman", "docker", None), 20).unwrap();
    let lines: Vec<String> =
        plan.invocations.iter().map(|inv| sv(&render_invocation(inv))).collect();
    assert_eq!(
        lines,
        vec![
            "podman pull scratch",
            "podman build --file ./b.docker --tag localhost/b --format docker .",
            "podman build --file ./a.docker --tag localhost/a --format docker .",
        ]
    );
}

#[test]
fn rendered_line_matches_spawned_command_exactly() {
    // Dry-run printing and real execution consume the same composed
    // invocation: the printed line is the program and the argument list the
    // real mode hands to the engine, joined by single spaces.
    let queue = vec![cv("localhost/a"), cv("busybox")];
    let invs = compose_plan(&queue, &config("podman", "docker", Some("r.example.org")));
    for inv in &invs {
        let mut expected = sv(&inv.program);
        for arg in &inv.args {
            expected.push(' ');
            expected.push_str(&sv(arg));
        }
        assert_eq!(sv(&render_invocation(inv)), expected);
    }
    assert_eq!(invs.len(), 3);
    assert_eq!(svs(&invs[1].args), vec!["tag", "localhost/a", "r.example.org/a"]);
    assert_eq!(svs(&invs[2].args), vec!["pull", "busybox"]);
}

#[test]
fn exhausted_round_budget_reports_missing_bases() {
    // A chain deeper than the round budget exhausts it even without a cycle.
    let files = vec![
        file("./c.docker", "FROM localhost/b\n"),
        file("./b.docker", "FROM localhost/a\n"),
        file("./a.docker", "FROM scratch\n"),
    ];
    let plan = make_plan(&files, &config("podman", "docker", None), 1).unwrap();
    let queue = svs(&plan.queue);
    assert_eq!(queue, vec!["scratch", "localhost/a"]);
    assert_eq!(plan.unresolved.len(), 2);
    assert_eq!(sv(&plan.unresolved[0].image), "localhost/c");
    assert_eq!(svs(&plan.unresolved[0].missing), vec!["localhost/b"]);
    assert_eq!(sv(&plan.unresolved[1].image), "localhost/b");
}

#[test]
fn candidate_file_filter_checks_suffix() {
    assert!(rustery::is_candidate_file(&cv("a.docker"), &cv("docker")));
    assert!(!rustery::is_candidate_file(&cv("a.dockerfile"), &cv("docker")));
    assert!(!rustery::is_candidate_file(&cv("doc"), &cv("docker")));
}
