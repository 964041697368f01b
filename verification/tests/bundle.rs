use rayonet::bundle::{
    add_calls, check_dependencies, check_manifest, check_path_dependencies, declared_dependencies,
    declares_workspace, find_item, find_netmap_calls, generate_registry, has_workspace, in_source_order,
    is_bundled,
    netmap_target, netmap_targets, workspace_root, Dependency, Entry, MethodCall, Section,
};
use rayonet::workloads::{crunch, double};

#[test]
fn generates_registry_from_functions() {
    let code = generate_registry(&["double".to_string(), "tasks::score".to_string()]);
    assert_eq!(
        code,
        "rayonet::agent::Registry::new().with_fn(double).with_fn(tasks::score)"
    );
}

#[test]
fn generates_an_empty_registry() {
    assert_eq!(generate_registry(&[]), "rayonet::agent::Registry::new()");
}

#[test]
fn rejects_non_rayonet_path_dependencies() {
    let err = check_path_dependencies(
        "rayonet",
        "[dependencies]\n\
         rayonet = { path = \"../rayonet\" }\n\
         helper = { path = \"../helper\" }\n\
         serde = \"1\"\n",
    )
    .unwrap_err();
    assert!(err.contains("helper"));
    assert_eq!(
        err,
        "rayonet does not support local path dependencies yet: `helper` uses `path = ...`; \
         publish, vendor, or inline it"
    );
}

#[test]
fn accepts_rayonet_path_and_registry_dependencies() {
    check_path_dependencies(
        "rayonet",
        "[dependencies]\n\
         rayonet = { path = \"../rayonet\" }\n\
         serde = \"1\"\n\
         [build-dependencies]\n\
         rayonet-build = { path = \"../rayonet-build\" }\n",
    )
    .unwrap();
}

#[test]
fn rejects_non_rayonette_path_dependencies() {
    let err = check_path_dependencies(
        "rayonette",
        "[dependencies]\nrayonette = { path = \"../r\" }\n[dev-dependencies]\nhelper = { path = \"../helper\" }\n",
    )
    .unwrap_err();
    assert!(err.contains("helper"));
}

#[test]
fn accepts_rayonette_path_and_registry_dependencies() {
    check_path_dependencies(
        "rayonette",
        "[dependencies]\nrayonette = { path = \"../r\" }\nserde = { version = \"1\" }\n[build-dependencies]\nrayonette-build = { path = \"../rb\" }\n",
    )
    .unwrap();
}

#[test]
fn lib_rejects_unparseable_cargo_toml() {
    let err = check_path_dependencies("rayonet", "not = = valid").unwrap_err();
    assert!(err.starts_with("Cargo.toml: "), "{err}");
}

#[test]
fn the_first_local_dependency_is_named() {
    let dep = |name: &str, local: bool| Dependency {
        name: name.to_string(),
        local,
    };
    assert!(check_dependencies("x", &vec![dep("a", false), dep("x-build", true)]).is_ok());
    let err = check_dependencies("x", &vec![dep("b", true), dep("c", true)]).unwrap_err();
    assert!(err.contains("`b`"));
}

#[test]
fn finds_named_function_netmap_call_sites() {
    let source = r"
            fn run() {
                let a = data.into_par_iter().netmap(evolve).collect();
                things.netmap(score);
                ignored.netmap(|x| x);
                regular_call(foo);
            }
        ";
    let calls = find_netmap_calls(source).unwrap();
    assert_eq!(calls, vec!["evolve".to_string(), "score".to_string()]);
}

#[test]
fn rejects_unparseable_source() {
    assert!(find_netmap_calls("fn (").is_err());
}

#[test]
fn task_calls_come_in_source_order() {
    let source = "fn run() { x.netmap(a).netmap(m::b); y.map(z.netmap(c)).netmap(d); n.netmap(); }";
    assert_eq!(
        find_netmap_calls(source).unwrap(),
        vec![
            "a".to_string(),
            "m::b".to_string(),
            "c".to_string(),
            "d".to_string()
        ]
    );
    assert_eq!(find_netmap_calls("").unwrap(), Vec::<String>::new());
}

fn call(method: &str, arguments: &[Option<&[&str]>]) -> MethodCall {
    MethodCall {
        method: method.to_string(),
        arguments: arguments
            .iter()
            .map(|path| path.map(|p| p.iter().map(|s| (*s).to_string()).collect()))
            .collect(),
        line: 1,
        column: 0,
    }
}

#[test]
fn calls_are_ordered_by_where_their_names_stand() {
    let at = |method: &str, line: usize, column: usize| MethodCall {
        line,
        column,
        ..call(method, &[])
    };
    let names: Vec<String> = in_source_order(vec![
        at("e", 3, 2),
        at("c", 2, 7),
        at("a", 1, 9),
        at("d", 2, 7),
        at("b", 2, 1),
    ])
    .into_iter()
    .map(|c| c.method)
    .collect();
    assert_eq!(names, vec!["a", "b", "c", "d", "e"]);
    assert!(in_source_order(Vec::new()).is_empty());
}

#[test]
fn task_calls_over_lines_come_in_source_order() {
    let source = "fn run() {\n    x\n        .netmap(a)\n        .netmap(b);\n    y(|| z.netmap(c));\n}\n";
    for _ in 0..2 {
        // A text read before does not matter.
        assert_eq!(
            find_netmap_calls(source).unwrap(),
            vec!["a".to_string(), "b".to_string(), "c".to_string()]
        );
    }
}

#[test]
fn only_a_path_given_to_netmap_is_a_task() {
    let found = vec![
        call("netmap", &[Some(&["evolve"])]),
        call("netmap", &[Some(&["tasks", "score"]), None]),
        call("netmap", &[None, Some(&["late"])]),
        call("netmap", &[]),
        call("map", &[Some(&["evolve"])]),
    ];
    assert_eq!(netmap_target(&found[0]), Some("evolve".to_string()));
    assert_eq!(netmap_target(&found[1]), Some("tasks::score".to_string()));
    assert_eq!(netmap_target(&found[2]), None);
    assert_eq!(netmap_target(&found[3]), None);
    assert_eq!(netmap_target(&found[4]), None);
    assert_eq!(
        netmap_targets(&found),
        vec!["evolve".to_string(), "tasks::score".to_string()]
    );
}

#[test]
fn a_manifest_is_judged_by_its_tables() {
    let entry = |key: &str, keys: Option<&[&str]>| Entry {
        key: key.to_string(),
        keys: keys.map(|k| k.iter().map(|s| (*s).to_string()).collect()),
    };
    let deps = vec![
        entry("serde", None),
        entry("toml", Some(&["version"])),
        entry("near", Some(&["version", "path"])),
    ];
    let local: Vec<bool> = declared_dependencies(&deps)
        .iter()
        .map(|d| d.local)
        .collect();
    assert_eq!(local, vec![false, false, true]);

    let doc = vec![
        Section {
            key: "dependencies".to_string(),
            entries: None,
        },
        Section {
            key: "dev-dependencies".to_string(),
            entries: Some(deps),
        },
    ];
    assert_eq!(find_item(&doc, "dev-dependencies"), 1);
    assert_eq!(find_item(&doc, "workspace"), 2);
    assert!(!has_workspace(&doc));
    assert!(check_manifest("near", &doc).is_ok());
    assert!(check_manifest("far", &doc).unwrap_err().contains("`near`"));
}

#[test]
fn each_task_is_registered_once() {
    let mut known = vec!["a".to_string()];
    add_calls(
        &mut known,
        &vec!["b".to_string(), "a".to_string(), "b".to_string()],
    );
    assert_eq!(known, vec!["a".to_string(), "b".to_string()]);
}

#[test]
fn bundles_from_the_workspace_root() {
    assert!(declares_workspace("[workspace]\nmembers = []\n"));
    assert!(!declares_workspace("[package]\nname = \"x\"\n"));
    assert!(!declares_workspace("not = = valid"));
    // Nearest first: the highest one that declares a workspace wins.
    assert_eq!(workspace_root(&vec![false, true, false, true, false]), 3);
    assert_eq!(workspace_root(&vec![false, false]), 0);
    assert_eq!(workspace_root(&Vec::new()), 0);
}

#[test]
fn bundle_skips_build_output_and_vcs() {
    assert!(is_bundled("src", false));
    assert!(!is_bundled("target", false));
    assert!(!is_bundled(".git", false));
    assert!(!is_bundled("out", true));
}

#[test]
fn the_workloads_compute() {
    assert_eq!(double(21), 42);
    // The wrapping recurrence, written out with std's operations.
    let mut acc = 7u32;
    for i in 0..200_000_000u32 {
        acc = acc.wrapping_mul(31).wrapping_add(i);
    }
    assert_eq!(crunch(7), acc);
}
