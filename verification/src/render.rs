//! Views of a valid catalog: the ring tables the organization README embeds.

use vstd::prelude::*;

use crate::catalog::Catalog;
use crate::catalog::Repo;
use crate::catalog::RINGS;
use crate::catalog::rings;
use crate::text::decimal;
use crate::text::join_strings;
use crate::text::joined_with;
use crate::text::push_decimal;
use crate::text::texts;

verus! {

/// The heading each ring's table carries in the organization README.
pub const RING_TITLES: [(&'static str, &'static str); 5] = [
    ("spine", "Spine — defines, assembles and documents everything else"),
    ("platform", "Platform ring — the only cross-ring dependencies"),
    (
        "system",
        "System ring — toolchain, silicon, kernel, base, infrastructure, media, platform shells",
    ),
    ("domain", "Domain ring — the products"),
    ("standards", "Specs & content"),
];

/// The heading of ring `k` of [`RINGS`], as [`RING_TITLES`] gives it.
pub open spec fn ring_title(k: int) -> Seq<char> {
    RING_TITLES@[k].1@
}

/// One table row: the linked name, purpose, layers and wave of a repository.
pub open spec fn row_text(org: Seq<char>, repo: Repo) -> Seq<char> {
    "| ["@ + repo.name@ + "](https://github.com/"@ + org + "/"@ + repo.name@ + ") | "@
        + repo.purpose@ + " | "@ + joined_with(texts(repo.layers@), ", "@) + " | wave "@ + decimal(
        repo.wave as nat,
    ) + " |"@
}

/// The rows of `repos`, each ended by a newline, in order.
pub open spec fn rows_text(org: Seq<char>, repos: Seq<Repo>) -> Seq<char>
    decreases repos.len(),
{
    if repos.len() == 0 {
        seq![]
    } else {
        rows_text(org, repos.drop_last()) + row_text(org, repos.last()) + "\n"@
    }
}

/// The table header under each ring's heading.
pub open spec fn table_head() -> Seq<char> {
    "\n\n| Repository | Purpose | Layers | Starts |\n|---|---|---|---|\n"@
}

/// The section of ring `k`: its heading, the table head, and the rows of its repositories in
/// catalog order.
pub open spec fn ring_section(c: Catalog, k: int) -> Seq<char> {
    "\n### "@ + ring_title(k) + table_head() + rows_text(
        c.catalog.org@,
        c.repo@.filter(|x: Repo| x.ring@ == rings()[k]),
    )
}

/// The sections of the first `n` rings.
pub open spec fn sections_text(c: Catalog, n: nat) -> Seq<char>
    decreases n,
{
    if n == 0 {
        seq![]
    } else {
        sections_text(c, (n - 1) as nat) + ring_section(c, n - 1)
    }
}

/// One table row of `repo`.
pub fn row(org: &str, repo: &Repo) -> (r: String)
    ensures
        r@ == row_text(org@, *repo),
{
    let mut out = String::from_str("| [");
    out.append(repo.name.as_str());
    out.append("](https://github.com/");
    out.append(org);
    out.append("/");
    out.append(repo.name.as_str());
    out.append(") | ");
    out.append(repo.purpose.as_str());
    out.append(" | ");
    out.append(join_strings(&repo.layers, ", ").as_str());
    out.append(" | wave ");
    push_decimal(&mut out, repo.wave as u64);
    out.append(" |");
    out
}

/// The ring tables the organization README embeds between its catalog markers: one `###`
/// section per ring in [`RINGS`] order, rows in catalog order.
pub fn readme(cat: &Catalog) -> (r: String)
    ensures
        r@ == sections_text(*cat, 5),
{
    let mut out = String::new();
    let mut k: usize = 0;
    while k < 5
        invariant
            k <= 5,
            out@ == sections_text(*cat, k as nat),
        decreases 5 - k,
    {
        let ring = RINGS[k];
        let title = RING_TITLES[k].1;
        assert(ring@ == rings()[k as int]);
        out.append("\n### ");
        out.append(title);
        out.append("\n\n| Repository | Purpose | Layers | Starts |\n|---|---|---|---|\n");
        let members = cat.in_ring(ring);
        let ghost listed = members@.map_values(|x: &Repo| *x);
        let ghost start = out@;
        let mut i: usize = 0;
        while i < members.len()
            invariant
                listed == members@.map_values(|x: &Repo| *x),
                i <= members@.len(),
                out@ == start + rows_text(cat.catalog.org@, listed.take(i as int)),
            decreases members@.len() - i,
        {
            out.append(row(cat.catalog.org.as_str(), members[i]).as_str());
            out.append("\n");
            assert(listed.take(i + 1).drop_last() =~= listed.take(i as int));
            assert(listed.take(i + 1).last() == *members@[i as int]);
            i = i + 1;
        }
        assert(listed.take(i as int) =~= listed);
        assert(out@ =~= sections_text(*cat, (k + 1) as nat));
        k = k + 1;
    }
    out
}

} // verus!
