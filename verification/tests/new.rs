use pub_cli::new::check_component;
use pub_cli::new::component_entry;
use pub_cli::new::component_is_well_formed;
use pub_cli::new::crate_target;
use pub_cli::new::is_binary;
use pub_cli::new::join_path;
use pub_cli::new::listing::skeleton_listing;
use pub_cli::new::normalize;
use pub_cli::new::render;
use pub_cli::new::repo_name;
use pub_cli::new::repo_name_from;
use pub_cli::new::report;
use pub_cli::new::substitute;
use pub_cli::new::surviving_placeholder;
use pub_cli::new::vars;
use pub_cli::new::Kind;
use pub_cli::new::Repo;
use pub_cli::new::Skeleton;

fn kernel() -> Repo {
    Repo { root: "/work/kernel".to_string(), name: "kernel".to_string() }
}

#[test]
fn a_component_is_lowercase_words_joined_by_hyphens() {
    for good in ["sched", "boot-hello", "x11", "a-b-c"] {
        assert!(component_is_well_formed(good), "{good}");
    }
    for bad in ["", "Sched", "boot_hello", "-sched", "sched-", "a--b", "sché"] {
        assert!(!component_is_well_formed(bad), "{bad}");
    }
}

#[test]
fn the_vocabulary_derives_the_identifiers_from_the_names() {
    let vars = vars(Kind::Service, "kernel", "boot-hello", "pub-kernel-boot-hello");
    let get = |name: &str| vars.iter().find(|(n, _)| *n == name).unwrap().1.clone();
    assert_eq!(get("KIND"), "service");
    assert_eq!(get("COMPONENT_IDENT"), "boot_hello");
    assert_eq!(get("CRATE_IDENT"), "pub_kernel_boot_hello");
    assert_eq!(get("DAEMON_PREFIX"), "pubd");
    assert_eq!(vars.len(), 16);
}

#[test]
fn substitution_is_verbatim_and_leaves_other_braces_alone() {
    let vars = vars(Kind::Lib, "kernel", "sched", "pub-kernel-sched");
    let text = "{{CRATE}} ${{ github.ref }} {{CRATE_IDENT}}::NAME {{lower}}";
    assert_eq!(
        substitute(text, &vars),
        "pub-kernel-sched ${{ github.ref }} pub_kernel_sched::NAME {{lower}}"
    );
    assert_eq!(surviving_placeholder(&substitute(text, &vars)), None);
    assert_eq!(surviving_placeholder("a {{MAINT_TEAM}} b"), Some("MAINT_TEAM"));
}

#[test]
fn normalization_leaves_exactly_one_trailing_newline() {
    assert_eq!(normalize("x"), "x\n");
    assert_eq!(normalize("x\n"), "x\n");
    assert_eq!(normalize("x\n\n\n"), "x\n");
    assert_eq!(normalize("x\n\ny\n"), "x\n\ny\n");
}

#[test]
fn the_component_entry_is_the_toml_block_with_the_table() {
    let readme = "# c\n\n```sh\ncargo test\n```\n\nEntry:\n\n```toml\n[[component]]\ncrate = \"pub-k-c\"\nkind  = \"lib\"\n```\n";
    assert_eq!(
        component_entry(readme).as_deref(),
        Some("[[component]]\ncrate = \"pub-k-c\"\nkind  = \"lib\"\n")
    );
    assert_eq!(component_entry("```toml\nname = 1\n```\n"), None);
}

#[test]
fn binaries_are_told_by_extension() {
    assert!(is_binary("brand/logo.PNG"));
    assert!(!is_binary("src/lib.rs"));
    assert!(!is_binary("Cargo.toml"));
}

#[test]
fn extensions_follow_the_path_rules() {
    assert!(is_binary("a.tar.woff2"));
    assert!(!is_binary(".png"));
    assert!(!is_binary("dir.png/file"));
    assert!(is_binary("dir/x.pdf/"));
    assert!(is_binary("x.jpg/."));
    assert!(!is_binary(".."));
    assert!(!is_binary(""));
}

#[test]
fn normalizing_twice_changes_nothing() {
    for text in ["", "\n", "a\n\n", "a\nb", "\n\n\n"] {
        let once = normalize(text);
        assert_eq!(normalize(&once), once);
        assert!(once.ends_with('\n') && !once.ends_with("\n\n"));
    }
}

#[test]
fn a_placeholder_is_found_after_a_broken_one() {
    assert_eq!(surviving_placeholder("{{ x }} {{NAME_2}}"), None);
    assert_eq!(surviving_placeholder("{{ x }} {{NAME_TWO}}"), Some("NAME_TWO"));
    assert_eq!(surviving_placeholder("{{}} {{A}}"), Some("A"));
    assert_eq!(surviving_placeholder("{{A"), None);
    assert_eq!(surviving_placeholder("{{{MAINT_TEAM}}"), Some("MAINT_TEAM"));
    assert_eq!(surviving_placeholder("{{{{A}}}}"), Some("A"));
}

#[test]
fn a_text_without_placeholders_comes_out_as_it_went_in() {
    let vars = vars(Kind::App, "kernel", "ctl", "pub-kernel-ctl");
    let text = "plain ${{ x }} {lower} }} {{";
    assert_eq!(substitute(text, &vars), text);
    assert_eq!(substitute("{{REPO}}{{REPO}}", &vars), "kernelkernel");
}

#[test]
fn an_unclosed_toml_block_ends_the_search() {
    assert_eq!(component_entry("```toml\n[[component]]\n"), None);
    assert_eq!(
        component_entry("```toml\na = 1\n```\n```toml\n[[component]]\nx = 1\n```"),
        Some("[[component]]\nx = 1\n".to_string())
    );
}

#[test]
fn paths_join_as_the_standard_library_joins_them() {
    assert_eq!(join_path("a", "b"), "a/b");
    assert_eq!(join_path("a/", "b"), "a/b");
    assert_eq!(join_path("", "b"), "b");
    assert_eq!(join_path("a", "/b"), "/b");
}

fn skeleton_files() -> Vec<(String, Result<Vec<u8>, String>)> {
    vec![
        ("README.md".to_string(), Ok(b"# {{CRATE}}\n\n\n".to_vec())),
        ("logo.png".to_string(), Ok(b"\x89PNG {{CRATE}}\n\n".to_vec())),
        ("src/lib.rs".to_string(), Ok(b"//! {{CRATE_IDENT}} of {{REPO}}".to_vec())),
    ]
}

#[test]
fn text_is_normalized_and_binaries_are_copied_byte_for_byte() {
    let rendered = render(Kind::Lib, &kernel(), "sched", "/t/crate/lib", false, &skeleton_files()).unwrap();
    assert_eq!(rendered.crate_name, "pub-kernel-sched");
    assert_eq!(rendered.dir, "/work/kernel/crates/pub-kernel-sched");
    assert_eq!(rendered.files[0], ("README.md".to_string(), b"# pub-kernel-sched\n".to_vec()));
    assert_eq!(rendered.files[1], ("logo.png".to_string(), b"\x89PNG {{CRATE}}\n\n".to_vec()));
    assert_eq!(
        rendered.files[2],
        ("src/lib.rs".to_string(), b"//! pub_kernel_sched of kernel\n".to_vec())
    );
    assert_eq!(rendered.component_entry(), None);
}

#[test]
fn an_existing_crate_directory_is_refused() {
    let err = render(Kind::Lib, &kernel(), "sched", "/t", true, &skeleton_files()).unwrap_err();
    assert_eq!(err, "/work/kernel/crates/pub-kernel-sched exists");
}

#[test]
fn an_unknown_placeholder_is_refused_naming_it() {
    let files = vec![(
        "Cargo.toml".to_string(),
        Ok(b"name = \"{{CRATE}}\"\nowner = \"{{MAINT_TEAM}}\"\n".to_vec()),
    )];
    let err = render(Kind::Lib, &kernel(), "sched", "/t", false, &files).unwrap_err();
    assert_eq!(
        err,
        "the skeleton knows a placeholder this command does not: {{MAINT_TEAM}} in Cargo.toml (nothing written)"
    );
}

#[test]
fn a_file_that_is_not_text_or_cannot_be_read_is_refused() {
    let files = vec![("data.bin".to_string(), Ok(vec![0xff, 0xfe]))];
    assert_eq!(
        render(Kind::Lib, &kernel(), "sched", "/t", false, &files).unwrap_err(),
        "/t/data.bin: not UTF-8 text (an unknown binary extension?)"
    );
    let files = vec![("a.rs".to_string(), Err("denied".to_string()))];
    assert_eq!(
        render(Kind::Lib, &kernel(), "sched", "/t/", false, &files).unwrap_err(),
        "/t/a.rs: denied"
    );
}

#[test]
fn the_report_carries_the_component_entry() {
    let files = vec![(
        "README.md".to_string(),
        Ok(b"x\n```toml\n[[component]]\ncrate     = \"{{CRATE}}\"\nkind      = \"{{KIND}}\"\n```\n".to_vec()),
    )];
    let repo = kernel();
    let rendered = render(Kind::Lib, &repo, "sched", "/t", false, &files).unwrap();
    let text = report(&rendered, "/t", &repo);
    assert!(text.contains("[[component]]"), "{text}");
    assert!(text.contains("crate     = \"pub-kernel-sched\""), "{text}");
    assert!(text.contains("kind      = \"lib\""), "{text}");
    assert!(text.starts_with("  ✓ pub-kernel-sched rendered into /work/kernel/crates/pub-kernel-sched (from /t)\n"), "{text}");
    assert!(text.ends_with("\n  2. add a Status row to /work/kernel/README.md\n  3. pub check\n"), "{text}");
}

#[test]
fn a_component_with_an_uppercase_letter_is_refused() {
    assert_eq!(
        check_component("Sched").unwrap_err(),
        "`Sched` is not a component name: lowercase words joined by hyphens (a-z, 0-9, -)"
    );
    assert!(check_component("sched").is_ok());
}

#[test]
fn the_crate_lands_under_crates() {
    let (name, dir) = crate_target(&kernel(), "boot-hello");
    assert_eq!(name, "pub-kernel-boot-hello");
    assert_eq!(dir, "/work/kernel/crates/pub-kernel-boot-hello");
}

#[test]
fn the_repository_name_comes_from_the_repo_table() {
    assert_eq!(repo_name("C", "[repo]\nname = \"kernel\"\n").unwrap(), "kernel");
    assert_eq!(repo_name("C", "[repo]\nring = \"x\"\n").unwrap_err(), "C: no [repo] name");
    assert_eq!(repo_name("C", "[repo]\nname = 3\n").unwrap_err(), "C: no [repo] name");
    assert!(repo_name("C", "[repo\n").unwrap_err().starts_with("C: "));
    assert_eq!(repo_name_from("C", Ok(Some("k".to_string()))).unwrap(), "k");
    assert_eq!(repo_name_from("C", Err("bad".to_string())).unwrap_err(), "C: bad");
}

#[test]
fn a_catalog_without_a_workspace_beside_it_is_refused() {
    let step = Repo::locate_step("/r", Some((Ok("kernel".to_string()), false)));
    let problem = step.unwrap().unwrap_err();
    assert!(problem.contains("Cargo.toml"), "{problem}");
    assert_eq!(problem, "/r/CATALOG.toml has no Cargo.toml beside it; a crate needs a workspace to land in");
}

#[test]
fn a_repository_is_found_where_its_catalog_lies() {
    assert!(Repo::locate_step("/r/crates", None).is_none());
    let repo = Repo::locate_step("/r", Some((Ok("kernel".to_string()), true))).unwrap().unwrap();
    assert_eq!(repo, Repo { root: "/r".to_string(), name: "kernel".to_string() });
    assert!(Repo::not_in_repository("/tmp").contains("CATALOG.toml"));
    assert!(Repo::locate_step("/r/crates", Some((Err("C: no [repo] name".to_string()), true))).is_none());
}

#[test]
fn a_templates_path_without_the_kind_is_refused_naming_the_path() {
    let err = Skeleton::pick(Kind::Lib, "/t", &[false, false]).unwrap_err();
    assert!(err.contains("crate/lib"), "{err}");
    assert_eq!(Skeleton::pick(Kind::Spec, "/t", &[false, true]).unwrap().dir, "/t/templates/skeleton/crate/spec");
    assert_eq!(Skeleton::pick(Kind::Spec, "/t", &[true, true]).unwrap().dir, "/t/crate/spec");
    let cloned = Skeleton::from_clone(Kind::App, "/tmp/c", "main", Ok(true)).unwrap();
    assert_eq!(cloned.dir, "/tmp/c/crate/app");
    assert_eq!(cloned.clone.as_deref(), Some("/tmp/c"));
    assert!(Skeleton::from_clone(Kind::App, "/tmp/c", "v1", Ok(false)).unwrap_err().contains("carries no crate/app yet"));
    assert!(Skeleton::from_clone(Kind::App, "/tmp/c", "v1", Err("fatal".to_string())).unwrap_err().starts_with("git clone https://github.com/public-software/templates at v1 failed: fatal"));
}

#[test]
fn every_kind_has_its_directory_name() {
    let names: Vec<&str> = [Kind::Lib, Kind::App, Kind::Service, Kind::Plugin, Kind::Spec].iter().map(|k| k.name()).collect();
    assert_eq!(names, vec!["lib", "app", "service", "plugin", "spec"]);
}

#[test]
fn the_skeleton_listing_leaves_out_finder_files_and_sorts_as_paths() {
    let found: Vec<String> = ["src/lib.rs", ".DS_Store", "README.md", "logo.png", "a/.DS_Store", "a-b", "a/b", "logo.png"]
        .iter()
        .map(|p| p.to_string())
        .collect();
    assert_eq!(skeleton_listing(found), vec!["README.md", "a/b", "a-b", "logo.png", "src/lib.rs"]);
    assert!(skeleton_listing(vec![".DS_Store".to_string()]).is_empty());
}

#[test]
fn a_skeleton_walked_in_any_order_renders_in_path_order() {
    let walked: Vec<String> = ["src/lib.rs", ".DS_Store", "logo.png", "README.md"].iter().map(|p| p.to_string()).collect();
    let all = skeleton_files();
    let listed: Vec<(String, Result<Vec<u8>, String>)> = skeleton_listing(walked)
        .into_iter()
        .map(|rel| {
            let bytes = all.iter().find(|(p, _)| *p == rel).map(|(_, b)| b.clone()).unwrap();
            (rel, bytes)
        })
        .collect();
    let rendered = render(Kind::Lib, &kernel(), "sched", "/t/crate/lib", false, &listed).unwrap();
    assert_eq!(
        rendered.files,
        vec![
            ("README.md".to_string(), b"# pub-kernel-sched\n".to_vec()),
            ("logo.png".to_string(), b"\x89PNG {{CRATE}}\n\n".to_vec()),
            ("src/lib.rs".to_string(), b"//! pub_kernel_sched of kernel\n".to_vec()),
        ]
    );
}
