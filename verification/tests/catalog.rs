use pub_cli::catalog::is_layer;
use pub_cli::catalog::is_login;
use pub_cli::catalog::is_repo_name;
use pub_cli::catalog::is_ring;
use pub_cli::catalog::locate;
use pub_cli::catalog::Catalog;
use pub_cli::catalog::Meta;
use pub_cli::catalog::Repo;

fn repo(name: &str, ring: &str, wave: u32, layers: &[&str], purpose: &str, contents: &str) -> Repo {
    Repo {
        name: name.to_string(),
        ring: ring.to_string(),
        purpose: purpose.to_string(),
        contents: contents.to_string(),
        layers: layers.iter().map(|l| l.to_string()).collect(),
        wave,
    }
}

/// A small valid catalog: two repositories of the spine, one of the system ring.
fn fixture() -> Catalog {
    Catalog {
        catalog: Meta {
            version: 1,
            org: "public-software".to_string(),
            site: "https://publicsoftware.dev".to_string(),
        },
        repo: vec![
            repo("catalog", "spine", 1, &["L18"], "Machine-readable ledger.", "catalog.toml · schema"),
            repo(
                "kernel",
                "system",
                1,
                &["L3", "L4"],
                "Kernel hardening, scheduler, driver ABI.",
                "pub-kernel · pub-libc",
            ),
            repo(".github", "spine", 1, &["all"], "Org profile.", "profile/README"),
        ],
    }
}

#[test]
fn fixture_is_valid() {
    let cat = fixture();
    assert_eq!(cat.repo.len(), 3);
    assert_eq!(cat.catalog.org, "public-software");
    assert!(cat.validate().is_empty(), "{:?}", cat.validate());
}

#[test]
fn wrong_ring_names_the_field() {
    let mut cat = fixture();
    cat.repo[1].ring = "sysem".to_string();
    let problems = cat.validate();
    assert_eq!(problems.len(), 1);
    assert!(problems[0].starts_with("catalog.repo[1].ring:"), "{problems:?}");
}

#[test]
fn duplicate_name_is_reported_once_with_both_positions() {
    let mut cat = fixture();
    cat.repo[1].name = "catalog".to_string();
    let problems = cat.validate();
    assert_eq!(
        problems,
        vec!["catalog.repo[1].name: \"catalog\" is already repo[0]".to_string()]
    );
}

#[test]
fn wave_zero_and_bad_layers_fail() {
    let mut cat = fixture();
    cat.repo[1].wave = 0;
    cat.repo[1].layers = vec!["L3".to_string(), "L3".to_string(), "L19".to_string()];
    let problems = cat.validate();
    assert!(
        problems.iter().any(|p| p == "catalog.repo[1].wave: 0 is below 1"),
        "{problems:?}"
    );
    assert!(
        problems.iter().any(|p| p == "catalog.repo[1].layers: repeated items"),
        "{problems:?}"
    );
    assert!(
        problems.iter().any(|p| p.starts_with("catalog.repo[1].layers[2]:")),
        "{problems:?}"
    );
}

#[test]
fn names_layers_logins() {
    assert!(is_repo_name("3d") && is_repo_name("design-system") && is_repo_name(".github"));
    assert!(!is_repo_name("Kernel") && !is_repo_name("-x") && !is_repo_name("") && !is_repo_name("a b"));
    assert!(is_layer("L0") && is_layer("L18") && is_layer("all"));
    assert!(!is_layer("L19") && !is_layer("L01") && !is_layer("l3") && !is_layer("L"));
    assert!(is_login("public-software") && is_login("a") && is_login("a1"));
    assert!(!is_login("-a") && !is_login("a-") && !is_login("") && !is_login("Public"));
}

#[test]
fn locate_prefers_the_explicit_path() {
    let explicit = "/nowhere/catalog.toml";
    assert_eq!(locate(Some(explicit), &[true, true, true]).unwrap(), explicit);
}

#[test]
fn locate_takes_the_first_search_path_that_exists() {
    assert_eq!(locate(None, &[false, true, true]).unwrap(), "catalog.toml");
    assert_eq!(locate(None, &[true, false, false]).unwrap(), "catalog/catalog.toml");
    assert_eq!(locate(None, &[false, false, true]).unwrap(), "config/catalog.toml");
}

#[test]
fn locate_without_any_catalog_says_where_it_looked() {
    assert_eq!(
        locate(None, &[false, false, false]).unwrap_err(),
        "no catalog found: pass --catalog, or run where one of catalog/catalog.toml, catalog.toml, config/catalog.toml exists"
    );
    assert!(locate(None, &[]).is_err());
}

#[test]
fn layer_numbers_are_plain_digits() {
    assert!(!is_layer("L+5"));
    assert!(!is_layer("L+05"));
    assert!(!is_layer("L00"));
    assert!(is_layer("L9"));
    assert!(!is_layer("L+"));
    assert!(!is_layer("L-1"));
    assert!(!is_layer("L99999999999999999999"));
    assert!(!is_layer("L1a"));
    assert!(!is_layer("Lall"));
}

#[test]
fn names_and_logins_keep_their_limits() {
    assert!(is_repo_name(&"a".repeat(100)));
    assert!(!is_repo_name(&"a".repeat(101)));
    assert!(is_login(&"a".repeat(39)));
    assert!(!is_login(&"a".repeat(40)));
    assert!(!is_repo_name("sché"));
    assert!(is_ring("domain") && !is_ring("Domain") && !is_ring(""));
}

#[test]
fn every_rule_of_a_repository_is_reported_in_order() {
    let mut cat = fixture();
    cat.catalog.version = 2;
    cat.catalog.org = "Public".to_string();
    cat.repo[0] = repo("Bad Name", "ring", 0, &[], "", "");
    assert_eq!(
        cat.validate(),
        vec![
            "catalog.catalog.version: 2 is not 1".to_string(),
            "catalog.catalog.org: \"Public\" is not a GitHub login".to_string(),
            "catalog.repo[0].name: \"Bad Name\" is not a repository name (lowercase, digits, hyphens)".to_string(),
            "catalog.repo[0].ring: \"ring\" is not one of [\"spine\", \"platform\", \"system\", \"domain\", \"standards\"]".to_string(),
            "catalog.repo[0].wave: 0 is below 1".to_string(),
            "catalog.repo[0].layers: fewer than 1 items".to_string(),
            "catalog.repo[0].purpose: shorter than 1".to_string(),
            "catalog.repo[0].contents: shorter than 1".to_string(),
        ]
    );
}

#[test]
fn a_catalog_without_repositories_is_refused() {
    let mut cat = fixture();
    cat.repo.clear();
    assert_eq!(cat.validate(), vec!["catalog.repo: fewer than 1 items".to_string()]);
}

#[test]
fn a_bad_layer_is_quoted() {
    let mut cat = fixture();
    cat.repo[2].layers = vec!["l3".to_string()];
    assert_eq!(
        cat.validate(),
        vec!["catalog.repo[2].layers[0]: \"l3\" is not L0..L18 or \"all\"".to_string()]
    );
}

#[test]
fn repositories_of_a_ring_come_in_catalog_order() {
    let cat = fixture();
    let spine: Vec<&str> = cat.in_ring("spine").iter().map(|r| r.name.as_str()).collect();
    assert_eq!(spine, vec!["catalog", ".github"]);
    assert!(cat.in_ring("domain").is_empty());
}

#[test]
fn every_problem_names_where_it_is() {
    let mut cat = fixture();
    cat.catalog.version = 3;
    cat.repo[0] = repo("Bad", "x", 0, &["L1", "L1", "L40"], "", "");
    cat.repo[1].name = "kernel".to_string();
    cat.repo.push(repo("kernel", "system", 1, &["L3"], "p", "c"));
    let problems = cat.validate();
    assert!(problems.len() >= 8, "{problems:?}");
    for p in &problems {
        assert!(p.starts_with("catalog."), "{p}");
        assert!(p.contains(": "), "{p}");
    }
    assert!(problems.contains(&"catalog.repo[0].layers: repeated items".to_string()));
    assert!(problems.contains(&"catalog.repo[3].name: \"kernel\" is already repo[1]".to_string()));
}

#[test]
fn a_repository_adds_problems_only_when_it_breaks_a_rule() {
    let good = repo("kernel", "system", 1, &["L3", "all"], "p", "c");
    let mut problems = vec!["earlier".to_string()];
    good.check("catalog.repo[0]", &mut problems);
    assert_eq!(problems, vec!["earlier".to_string()]);
    let bad = repo("kernel", "system", 1, &["L3", "L3"], "p", "c");
    bad.check("catalog.repo[0]", &mut problems);
    assert_eq!(problems, vec!["earlier".to_string(), "catalog.repo[0].layers: repeated items".to_string()]);
}

#[test]
fn a_name_is_reported_against_its_first_namesake_only() {
    let mut cat = fixture();
    cat.repo[1].name = "catalog".to_string();
    cat.repo.push(repo("catalog", "spine", 1, &["L1"], "p", "c"));
    assert_eq!(
        cat.validate(),
        vec![
            "catalog.repo[1].name: \"catalog\" is already repo[0]".to_string(),
            "catalog.repo[3].name: \"catalog\" is already repo[0]".to_string(),
        ]
    );
}
