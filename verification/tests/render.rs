use pub_cli::catalog::Catalog;
use pub_cli::catalog::Meta;
use pub_cli::catalog::Repo;
use pub_cli::catalog::RINGS;
use pub_cli::render::readme;
use pub_cli::render::row;

fn repo(name: &str, ring: &str, layers: &[&str], purpose: &str, contents: &str) -> Repo {
    Repo {
        name: name.to_string(),
        ring: ring.to_string(),
        purpose: purpose.to_string(),
        contents: contents.to_string(),
        layers: layers.iter().map(|l| l.to_string()).collect(),
        wave: 1,
    }
}

fn fixture() -> Catalog {
    Catalog {
        catalog: Meta {
            version: 1,
            org: "public-software".to_string(),
            site: "https://publicsoftware.dev".to_string(),
        },
        repo: vec![
            repo("catalog", "spine", &["L18"], "Machine-readable ledger.", "catalog.toml · schema"),
            repo(
                "kernel",
                "system",
                &["L3", "L4"],
                "Kernel hardening, scheduler, driver ABI.",
                "pub-kernel · pub-libc",
            ),
            repo(".github", "spine", &["all"], "Org profile.", "profile/README"),
        ],
    }
}

#[test]
fn readme_tables_match_the_kit_renderer_shape() {
    let cat = fixture();
    let text = readme(&cat);
    let expected_spine = "\n### Spine — defines, assembles and documents everything else\n\n\
| Repository | Purpose | Layers | Starts |\n|---|---|---|---|\n\
| [catalog](https://github.com/public-software/catalog) | Machine-readable ledger. | L18 | wave 1 |\n\
| [.github](https://github.com/public-software/.github) | Org profile. | all | wave 1 |\n\
\n### Platform ring — the only cross-ring dependencies\n\n| Repository | Purpose | Layers | Starts |\n|---|---|---|---|\n";
    assert!(text.starts_with(expected_spine), "{text}");
    assert!(text.contains("| [kernel](https://github.com/public-software/kernel) | Kernel hardening, scheduler, driver ABI. | L3, L4 | wave 1 |\n"));
    assert!(text.ends_with("\n### Specs & content\n\n| Repository | Purpose | Layers | Starts |\n|---|---|---|---|\n"));
    assert_eq!(text.matches("\n### ").count(), RINGS.len());
}

#[test]
fn a_row_links_the_repository_and_lists_its_layers() {
    let mut r = repo("x", "domain", &[], "P", "C");
    r.wave = 12;
    assert_eq!(row("org", &r), "| [x](https://github.com/org/x) | P |  | wave 12 |");
}
