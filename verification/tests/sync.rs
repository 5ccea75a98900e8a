use pub_cli::catalog::Catalog;
use pub_cli::catalog::Meta;
use pub_cli::catalog::Repo;
use pub_cli::sync::description;
use pub_cli::sync::homepage;
use pub_cli::sync::normalize_color;
use pub_cli::sync::plan_labels;
use pub_cli::sync::plan_properties;
use pub_cli::sync::plan_repo;
use pub_cli::sync::plan_settings;
use pub_cli::sync::plan_topics;
use pub_cli::sync::properties;
use pub_cli::sync::properties_of;
use pub_cli::sync::remote_repo;
use pub_cli::sync::properties_satisfied;
use pub_cli::sync::same_value;
use pub_cli::sync::summary;
use pub_cli::sync::targets;
use pub_cli::sync::topics;
use pub_cli::sync::Label;
use pub_cli::sync::Outcome;
use pub_cli::sync::Property;
use pub_cli::sync::PropertyValue;
use pub_cli::sync::RemoteRepo;
use pub_cli::sync::Write;
use pub_cli::sync::WriteBody;
use pub_cli::sync::DESCRIPTION_MAX;

fn repo(name: &str, ring: &str, layers: &[&str], purpose: &str, contents: &str) -> Repo {
    Repo {
        name: name.to_string(),
        ring: ring.to_string(),
        purpose: purpose.to_string(),
        contents: contents.to_string(),
        layers: layers.iter().map(|l| l.to_string()).collect(),
        wave: 1,
    }
}

fn fixture() -> Catalog {
    Catalog {
        catalog: Meta {
            version: 1,
            org: "public-software".to_string(),
            site: "https://publicsoftware.dev".to_string(),
        },
        repo: vec![
            repo("catalog", "spine", &["L18"], "Machine-readable ledger.", "catalog.toml · schema"),
            repo(
                "kernel",
                "system",
                &["L3", "L4"],
                "Kernel hardening, scheduler, driver ABI.",
                "pub-kernel · pub-libc",
            ),
            repo(".github", "spine", &["all"], "Org profile.", "profile/README"),
        ],
    }
}

fn kernel(cat: &Catalog) -> &Repo {
    cat.repo.iter().find(|r| r.name == "kernel").unwrap()
}

fn label(name: &str, color: &str, description: &str) -> Label {
    Label { name: name.into(), color: color.into(), description: Some(description.into()) }
}

fn remote(description: Option<&str>, homepage: Option<&str>, topics: &[&str]) -> RemoteRepo {
    RemoteRepo {
        description: description.map(|s| s.to_string()),
        homepage: homepage.map(|s| s.to_string()),
        topics: topics.iter().map(|t| t.to_string()).collect(),
    }
}

#[test]
fn description_follows_the_kit_formula_and_is_cut_at_350_chars() {
    let cat = fixture();
    assert_eq!(description(kernel(&cat)), "L3 · Kernel hardening, scheduler, driver ABI. · wave 1");
    let mut long = kernel(&cat).clone();
    long.purpose = "é".repeat(400);
    assert_eq!(description(&long).chars().count(), DESCRIPTION_MAX);
}

#[test]
fn homepage_and_topics() {
    let cat = fixture();
    assert_eq!(homepage(&cat.catalog, kernel(&cat)), "https://publicsoftware.dev/kernel");
    assert_eq!(
        topics(&cat.catalog, kernel(&cat)),
        ["layer-l3", "layer-l4", "public-software", "ring-system", "rust", "wave-1"]
    );
}

#[test]
fn settings_plan_only_when_they_differ() {
    let cat = fixture();
    let repo = kernel(&cat);
    let d = description(repo);
    let converged = remote(Some(&d), Some("https://publicsoftware.dev/kernel"), &[]);
    assert!(plan_settings(&converged, &cat.catalog, repo).is_none());
    let fresh = remote(None, None, &[]);
    let write = plan_settings(&fresh, &cat.catalog, repo).unwrap();
    assert_eq!((write.method, write.path.as_str()), ("PATCH", "/repos/public-software/kernel"));
}

#[test]
fn topics_plan_ignores_order_and_notices_a_missing_topic() {
    let cat = fixture();
    let repo = kernel(&cat);
    let shuffled = remote(None, None, &["wave-1", "rust", "ring-system", "public-software", "layer-l4", "layer-l3"]);
    assert!(plan_topics(&shuffled, &cat.catalog, repo).is_none());
    let short = remote(None, None, &["rust"]);
    assert_eq!(plan_topics(&short, &cat.catalog, repo).unwrap().method, "PUT");
}

fn layers_property(values: &[&str]) -> Property {
    Property {
        name: "layers".to_string(),
        value: PropertyValue::List(values.iter().map(|v| v.to_string()).collect()),
    }
}

#[test]
fn properties_compare_arrays_as_sets_like_github_stores_them() {
    let cat = fixture();
    let repo = kernel(&cat);
    let mut github = properties(repo);
    github[5] = layers_property(&["L4", "L3"]);
    assert!(plan_properties(&github, &cat.catalog, repo).is_none());
    github[5] = layers_property(&["L3"]);
    assert!(plan_properties(&github, &cat.catalog, repo).is_some());
    assert!(plan_properties(&[], &cat.catalog, repo).is_some());
}

#[test]
fn label_plan_matches_the_kit() {
    let cat = fixture();
    let repo = kernel(&cat);
    let current = vec![
        label("bug", "d73a4a", ""),
        label("kind/bug", "4a5563", "Something is wrong"),
        label("stale", "000000", "old"),
    ];
    let wanted = vec![
        label("kind/bug", "4A5563", "Something is wrong"),
        label("stale", "#FFFFFF", "old"),
        label("new", "111111", "n"),
    ];
    let plan = plan_labels(&current, &wanted, &cat.catalog, repo);
    let whats: Vec<&str> = plan.iter().map(|w| w.what.as_str()).collect();
    assert_eq!(whats, ["delete label bug", "update label stale", "create label new"]);
    assert_eq!(plan[0].path, "/repos/public-software/kernel/labels/bug");
    assert_eq!(plan[1].method, "PATCH");
    match &plan[2].body {
        Some(WriteBody::Label { color, .. }) => assert_eq!(color, "111111"),
        other => panic!("{other:?}"),
    }
}

#[test]
fn null_descriptions_from_github_equal_empty_ones() {
    let github = Label { name: "x".into(), color: "AAAAAA".into(), description: None };
    let file = label("x", "#aaaaaa", "");
    assert!(github.same_as(&file));
}

#[test]
fn colors_lose_their_hashes_and_case() {
    assert_eq!(normalize_color("##AbC"), "abc");
    assert_eq!(normalize_color("fff"), "fff");
    assert!(!label("x", "111111", "").same_as(&label("x", "111112", "")));
    assert!(!label("x", "1", "a").same_as(&label("y", "1", "a")));
}

#[test]
fn a_label_set_planned_against_itself_needs_no_write() {
    let cat = fixture();
    let repo = kernel(&cat);
    let wanted = vec![label("kind/bug", "4A5563", "x"), label("bug", "d73a4a", "")];
    assert!(plan_labels(&wanted, &wanted, &cat.catalog, repo).is_empty());
}

#[test]
fn unknown_labels_are_left_alone_and_unused_defaults_go() {
    let cat = fixture();
    let repo = kernel(&cat);
    let current = vec![label("mine", "000000", ""), label("wontfix", "ffffff", "")];
    let plan = plan_labels(&current, &[], &cat.catalog, repo);
    assert_eq!(plan.len(), 1);
    assert_eq!(plan[0].method, "DELETE");
    assert_eq!(plan[0].path, "/repos/public-software/kernel/labels/wontfix");
    let plan = plan_labels(&[label("good first issue", "1", "")], &[], &cat.catalog, repo);
    assert_eq!(plan[0].path, "/repos/public-software/kernel/labels/good%20first%20issue");
}

#[test]
fn a_converged_repository_plans_no_write() {
    let cat = fixture();
    let repo = kernel(&cat);
    let d = description(repo);
    let current = remote(Some(&d), Some(&homepage(&cat.catalog, repo)), &["rust", "wave-1", "ring-system", "public-software", "layer-l3", "layer-l4"]);
    let props = properties(repo);
    let labels = vec![label("kind/bug", "4a5563", "x")];
    let plan = plan_repo(&cat.catalog, repo, Some(&current), &props, Some((&labels, &labels))).unwrap();
    assert!(plan.is_empty(), "{plan:?}");
}

#[test]
fn a_fresh_repository_plans_every_write_in_order() {
    let cat = fixture();
    let repo = kernel(&cat);
    let current = remote(None, None, &[]);
    let labels = vec![label("kind/bug", "4a5563", "x")];
    let plan = plan_repo(&cat.catalog, repo, Some(&current), &[], Some((&labels, &[]))).unwrap();
    let methods: Vec<(&str, &str)> = plan.iter().map(|w| (w.method, w.path.as_str())).collect();
    assert_eq!(
        methods,
        [
            ("PATCH", "/repos/public-software/kernel"),
            ("PUT", "/repos/public-software/kernel/topics"),
            ("PATCH", "/repos/public-software/kernel/properties/values"),
            ("POST", "/repos/public-software/kernel/labels"),
        ]
    );
    assert_eq!(
        plan_repo(&cat.catalog, repo, None, &[], None).unwrap_err(),
        "does not exist on GitHub — the bootstrap kit creates repositories"
    );
}

#[test]
fn property_values_agree_only_in_kind() {
    let t = PropertyValue::Text("L3".to_string());
    let l = PropertyValue::List(vec!["L3".to_string()]);
    assert!(!same_value(&t, &l));
    assert!(same_value(&l, &PropertyValue::List(vec!["L3".to_string(), "L3".to_string()])));
    assert!(!same_value(&PropertyValue::Other("3".to_string()), &PropertyValue::Text("3".to_string())));
    let want = properties(&repo("r", "domain", &[], "p", "c"));
    assert!(properties_satisfied(&want, &want));
    assert!(!properties_satisfied(&want[..5], &want));
}

#[test]
fn dot_github_is_never_synced_and_only_restricts() {
    let cat = fixture();
    let all: Vec<&str> = targets(&cat, &vec![]).iter().map(|r| r.name.as_str()).collect();
    assert_eq!(all, ["catalog", "kernel"]);
    let only: Vec<&str> = targets(&cat, &vec!["kernel".to_string(), ".github".to_string()]).iter().map(|r| r.name.as_str()).collect();
    assert_eq!(only, ["kernel"]);
}

fn write(what: &str) -> Write {
    Write { method: "PATCH", path: "/p".to_string(), body: None, what: what.to_string() }
}

#[test]
fn the_summary_counts_writes_and_failures() {
    let outcomes = vec![
        Outcome { name: "a".to_string(), writes: vec![], error: None },
        Outcome { name: "b".to_string(), writes: vec![write("topics"), write("x")], error: None },
        Outcome { name: "c".to_string(), writes: vec![], error: Some("boom".to_string()) },
    ];
    let (lines, ok) = summary(&outcomes, false);
    assert!(!ok);
    let texts: Vec<(bool, &str)> = lines.iter().map(|(e, t)| (*e, t.as_str())).collect();
    assert_eq!(
        texts,
        [
            (false, "  · a (up to date)"),
            (false, "  ✓ b (2 changes)"),
            (true, "  ✗ c: boom"),
            (false, "  3 repositories, 2 writes, 1 failures"),
        ]
    );
    let (lines, ok) = summary(&outcomes[..2], true);
    assert!(ok);
    assert_eq!(lines[1].1, "  $ PATCH /p — topics");
    assert_eq!(lines[3].1, "  → b (2 writes planned)");
    assert_eq!(lines[4].1, "  2 repositories, 2 writes planned, 0 failures");
}

#[test]
fn same_as_is_an_equivalence_on_examples() {
    let a = label("x", "#ABCDEF", "");
    let b = Label { name: "x".into(), color: "abcdef".into(), description: None };
    let c = label("x", "##abcdef", "");
    assert!(a.same_as(&a));
    assert!(a.same_as(&b) && b.same_as(&a));
    assert!(a.same_as(&b) && b.same_as(&c) && a.same_as(&c));
}

#[test]
fn a_converged_repository_may_differ_in_order_case_and_extras() {
    let cat = fixture();
    let repo = kernel(&cat);
    let d = description(repo);
    let current = remote(
        Some(&d),
        Some(&homepage(&cat.catalog, repo)),
        &["layer-l4", "public-software", "rust", "layer-l3", "ring-system", "wave-1", "rust"],
    );
    let mut props = vec![Property { name: "extra".into(), value: PropertyValue::Text("x".into()) }];
    let mut wanted_props = properties(repo);
    wanted_props.reverse();
    for p in wanted_props {
        let value = match p.value {
            PropertyValue::List(mut v) => {
                v.reverse();
                v.push(v[0].clone());
                PropertyValue::List(v)
            }
            other => other,
        };
        props.push(Property { name: p.name, value });
    }
    let wanted = vec![label("kind/bug", "4a5563", "x"), label("bug", "d73a4a", "")];
    let have = vec![
        label("mine", "000000", ""),
        label("bug", "#D73A4A", ""),
        label("kind/bug", "##4A5563", "x"),
    ];
    let plan = plan_repo(&cat.catalog, repo, Some(&current), &props, Some((&wanted, &have))).unwrap();
    assert!(plan.is_empty(), "{plan:?}");
    let stray = vec![label("bug", "d73a4a", ""), label("kind/bug", "4a5563", "x"), label("wontfix", "ffffff", "")];
    let plan = plan_repo(&cat.catalog, repo, Some(&current), &props, Some((&wanted, &stray))).unwrap();
    assert_eq!(plan.len(), 1);
    assert_eq!(plan[0].method, "DELETE");
}

#[test]
fn a_repository_is_read_from_its_json() {
    let body = r#"{"description": "Kernel", "homepage": null, "topics": ["rust", 3, "wave-1"], "x": 1}"#;
    let r = remote_repo(Some(body));
    assert_eq!(r.description.as_deref(), Some("Kernel"));
    assert_eq!(r.homepage, None);
    assert_eq!(r.topics, vec!["rust".to_string(), "wave-1".to_string()]);
    let empty = remote_repo(None);
    assert_eq!(empty.description, None);
    assert!(empty.topics.is_empty());
    let not_an_object = remote_repo(Some("[1, 2]"));
    assert_eq!(not_an_object.homepage, None);
    let odd_topics = remote_repo(Some(r#"{"topics": "rust"}"#));
    assert!(odd_topics.topics.is_empty());
}

#[test]
fn property_values_are_read_from_their_json() {
    let body = r#"[
        {"property_name": "ring", "value": "system"},
        {"property_name": "layers", "value": ["L3", "L4"]},
        {"property_name": "mixed", "value": ["L3", 4]},
        {"property_name": "count", "value": 7},
        {"property_name": "missing"},
        {"value": "no name"},
        {"property_name": 5, "value": "x"},
        "not an object"
    ]"#;
    let props = properties_of(Some(body));
    assert_eq!(props.len(), 5);
    assert_eq!(props[0].name, "ring");
    assert_eq!(props[0].value, PropertyValue::Text("system".into()));
    assert_eq!(props[1].value, PropertyValue::List(vec!["L3".into(), "L4".into()]));
    assert_eq!(props[2].value, PropertyValue::Other(r#"["L3",4]"#.into()));
    assert_eq!(props[3].value, PropertyValue::Other("7".into()));
    assert_eq!(props[4].name, "missing");
    assert_eq!(props[4].value, PropertyValue::Other("null".into()));
    assert!(properties_of(None).is_empty());
    assert!(properties_of(Some("null")).is_empty());
    assert!(properties_of(Some(r#"{"a": 1}"#)).is_empty());
}

#[test]
fn sending_stops_at_the_first_failed_write() {
    let mut o = Outcome::planned("kernel", Ok(vec![write("a"), write("b"), write("c")]));
    assert_eq!(o.to_send(false), 3);
    assert_eq!(o.to_send(true), 0);
    assert!(o.sent(0, Ok(())));
    assert!(!o.sent(1, Err("gh api PATCH /x: boom".to_string())));
    assert_eq!(o.error.as_deref(), Some("gh api PATCH /x: boom"));
    assert_eq!(o.writes.len(), 3);
    let mut done = Outcome::planned("kernel", Ok(vec![write("a")]));
    assert!(!done.sent(0, Ok(())));
    assert_eq!(done.error, None);
    let unplanned = Outcome::planned("kernel", Err("missing".to_string()));
    assert_eq!(unplanned.to_send(false), 0);
    assert!(unplanned.writes.is_empty());
}
