//! The catalog model (`catalog.toml` as data) and the rules its schema states.

use vstd::prelude::*;

pub mod duplicates;

use crate::text::chars_eq;
use crate::text::chars_of;
use crate::text::debug_str;
use crate::text::debug_string;
use crate::text::decimal;
use crate::text::matches_at;
use crate::text::occurs_in;
use crate::text::push_decimal;
use crate::text::texts;
use vstd::utf8::encode_scalar;
use vstd::utf8::encode_utf8;

verus! {

/// Highest stack layer; layers are `L0`..`L18`, or `all` for the spine.
pub const TOP_LAYER: u32 = 18;

/// The only catalog format version this library understands.
pub const VERSION: u32 = 1;

/// Where `catalog.toml` is looked for when no path is given, in order.
pub const SEARCH_PATHS: [&'static str; 3] = [
    "catalog/catalog.toml",
    "catalog.toml",
    "config/catalog.toml",
];

/// The dependency rings, outermost last.
pub const RINGS: [&'static str; 5] = ["spine", "platform", "system", "domain", "standards"];

/// The organization's community-health repository; the one name outside the pattern.
pub const DOTGITHUB: &'static str = ".github";

/// The `[catalog]` table.
#[derive(Debug)]
pub struct Meta {
    /// Format version; see [`VERSION`].
    pub version: u32,
    /// The GitHub organization every repository belongs to.
    pub org: String,
    /// The organization's site; a repository's homepage is `<site>/<name>`.
    pub site: String,
}

/// One repository. Field order is the order of the JSON view.
#[derive(Debug, Clone, PartialEq, Eq)]
pub struct Repo {
    /// GitHub repository name.
    pub name: String,
    /// Dependency ring; one of `rings()`.
    pub ring: String,
    /// One sentence: what the repository is for.
    pub purpose: String,
    /// Planned crates, apps, services or documents, separated by `·`.
    pub contents: String,
    /// Stack layers served: `L0`..`L18`, or `all`.
    pub layers: Vec<String>,
    /// The wave in which work starts; 1 or more.
    pub wave: u32,
}

/// The whole file.
#[derive(Debug)]
pub struct Catalog {
    /// The `[catalog]` table.
    pub catalog: Meta,
    /// Every `[[repo]]`, in file order.
    pub repo: Vec<Repo>,
}

/// The dependency rings, outermost last, as [`RINGS`] lists them.
pub open spec fn rings() -> Seq<Seq<char>> {
    seq!["spine"@, "platform"@, "system"@, "domain"@, "standards"@]
}

/// A lowercase ASCII letter or an ASCII digit.
pub open spec fn lower_or_digit(c: char) -> bool {
    ('a' <= c && c <= 'z') || ('0' <= c && c <= '9')
}

/// An ASCII digit.
pub open spec fn is_digit(c: char) -> bool {
    '0' <= c && c <= '9'
}

/// `.github`, or `[a-z0-9][a-z0-9-]{0,99}`.
pub open spec fn repo_name_ok(s: Seq<char>) -> bool {
    ||| s == DOTGITHUB@
    ||| {
        &&& 1 <= s.len() <= 100
        &&& lower_or_digit(s[0])
        &&& forall|i: int| 1 <= i < s.len() ==> lower_or_digit(#[trigger] s[i]) || s[i] == '-'
    }
}

/// A GitHub login: `[a-z0-9]([a-z0-9-]{0,37}[a-z0-9])?`.
pub open spec fn login_ok(s: Seq<char>) -> bool {
    &&& 1 <= s.len() <= 39
    &&& lower_or_digit(s[0])
    &&& lower_or_digit(s[s.len() - 1])
    &&& forall|i: int| 0 < i < s.len() - 1 ==> lower_or_digit(#[trigger] s[i]) || s[i] == '-'
}

/// The value of a string of decimal digits.
pub open spec fn digits_value(s: Seq<char>) -> nat
    decreases s.len(),
{
    if s.len() == 0 {
        0
    } else {
        digits_value(s.drop_last()) * 10 + ((s.last() as u32) - 48) as nat
    }
}

/// The number after `L` of a layer: plain decimal digits, at least one, no leading zero,
/// and at most [`TOP_LAYER`].
pub open spec fn layer_number_ok(n: Seq<char>) -> bool {
    &&& n.len() > 0
    &&& !(n.len() > 1 && n[0] == '0')
    &&& forall|i: int| 0 <= i < n.len() ==> is_digit(#[trigger] n[i])
    &&& digits_value(n) <= TOP_LAYER
}

/// `all`, or `L<n>` with `0 <= n <= 18` and no leading zero.
pub open spec fn layer_ok(s: Seq<char>) -> bool {
    ||| s == "all"@
    ||| (s.len() > 0 && s[0] == 'L' && layer_number_ok(s.skip(1)))
}

/// `.github`, or `[a-z0-9][a-z0-9-]{0,99}`.
pub fn is_repo_name(name: &str) -> (r: bool)
    ensures
        r == repo_name_ok(name@),
{
    let cs = chars_of(name);
    let dot = chars_of(DOTGITHUB);
    if chars_eq(cs.as_slice(), dot.as_slice()) {
        return true;
    }
    if cs.len() == 0 || cs.len() > 100 {
        return false;
    }
    let first = cs[0];
    if !(('a' <= first && first <= 'z') || ('0' <= first && first <= '9')) {
        return false;
    }
    let mut i: usize = 1;
    while i < cs.len()
        invariant
            cs@ == name@,
            cs@ != DOTGITHUB@,
            1 <= i <= cs@.len(),
            forall|k: int| 1 <= k < i ==> lower_or_digit(#[trigger] cs@[k]) || cs@[k] == '-',
        decreases cs@.len() - i,
    {
        let c = cs[i];
        if !(('a' <= c && c <= 'z') || ('0' <= c && c <= '9') || c == '-') {
            assert(!(lower_or_digit(cs@[i as int]) || cs@[i as int] == '-'));
            return false;
        }
        i = i + 1;
    }
    true
}

/// A GitHub login: `[a-z0-9]([a-z0-9-]{0,37}[a-z0-9])?`.
pub fn is_login(login: &str) -> (r: bool)
    ensures
        r == login_ok(login@),
{
    let cs = chars_of(login);
    let n = cs.len();
    if n == 0 || n > 39 {
        return false;
    }
    let first = cs[0];
    let last = cs[n - 1];
    if !(('a' <= first && first <= 'z') || ('0' <= first && first <= '9')) {
        return false;
    }
    if !(('a' <= last && last <= 'z') || ('0' <= last && last <= '9')) {
        return false;
    }
    let mut i: usize = 1;
    while i < n - 1
        invariant
            cs@ == login@,
            n == cs@.len(),
            1 <= i <= n,
            i <= n - 1 || n == 1,
            forall|k: int| 0 < k < i ==> lower_or_digit(#[trigger] cs@[k]) || cs@[k] == '-',
        decreases n - i,
    {
        let c = cs[i];
        if !(('a' <= c && c <= 'z') || ('0' <= c && c <= '9') || c == '-') {
            return false;
        }
        i = i + 1;
    }
    true
}

proof fn lemma_digits_value_push(s: Seq<char>, c: char)
    ensures
        digits_value(s.push(c)) == digits_value(s) * 10 + ((c as u32) - 48) as nat,
{
    assert(s.push(c).drop_last() =~= s);
}

/// `all`, or `L<n>` with `0 <= n <= 18` written in plain decimal digits, without a
/// leading zero.
pub fn is_layer(layer: &str) -> (r: bool)
    ensures
        r == layer_ok(layer@),
{
    let cs = chars_of(layer);
    let all = chars_of("all");
    if chars_eq(cs.as_slice(), all.as_slice()) {
        return true;
    }
    if cs.len() < 2 || cs[0] != 'L' {
        return false;
    }
    let ghost number = cs@.skip(1);
    if cs.len() > 2 && cs[1] == '0' {
        return false;
    }
    let mut value: u32 = 0;
    let mut i: usize = 1;
    while i < cs.len()
        invariant
            cs@ == layer@,
            cs@ != "all"@,
            cs@[0] == 'L',
            cs@.len() >= 2,
            number == cs@.skip(1),
            !(number.len() > 1 && number[0] == '0'),
            1 <= i <= cs@.len(),
            forall|k: int| 1 <= k < i ==> is_digit(#[trigger] cs@[k]),
            value <= 19,
            value == (if digits_value(cs@.subrange(1, i as int)) <= 18 {
                digits_value(cs@.subrange(1, i as int))
            } else {
                19
            }),
        decreases cs@.len() - i,
    {
        let c = cs[i];
        if !('0' <= c && c <= '9') {
            assert(number[i - 1] == c);
            return false;
        }
        proof {
            lemma_digits_value_push(cs@.subrange(1, i as int), c);
            assert(cs@.subrange(1, i as int).push(c) =~= cs@.subrange(1, i + 1));
        }
        let d: u32 = (c as u32) - 48;
        if value <= 18 {
            value = value * 10 + d;
            if value > 18 {
                value = 19;
            }
        }
        i = i + 1;
    }
    assert(cs@.subrange(1, cs@.len() as int) =~= number);
    value <= 18
}

/// Whether `ring` is one of [`rings`].
pub fn is_ring(ring: &str) -> (r: bool)
    ensures
        r == rings().contains(ring@),
{
    let cs = chars_of(ring);
    let r = chars_eq(cs.as_slice(), chars_of("spine").as_slice()) || chars_eq(
        cs.as_slice(),
        chars_of("platform").as_slice(),
    ) || chars_eq(cs.as_slice(), chars_of("system").as_slice()) || chars_eq(
        cs.as_slice(),
        chars_of("domain").as_slice(),
    ) || chars_eq(cs.as_slice(), chars_of("standards").as_slice());
    proof {
        if r {
            assert(rings().contains(ring@)) by {
                if ring@ == "spine"@ {
                    assert(rings()[0] == ring@);
                } else if ring@ == "platform"@ {
                    assert(rings()[1] == ring@);
                } else if ring@ == "system"@ {
                    assert(rings()[2] == ring@);
                } else if ring@ == "domain"@ {
                    assert(rings()[3] == ring@);
                } else {
                    assert(rings()[4] == ring@);
                }
            }
        } else {
            assert forall|i: int| 0 <= i < rings().len() implies rings()[i] != ring@ by {
                if i == 0 {
                } else if i == 1 {
                } else if i == 2 {
                } else if i == 3 {
                } else {
                }
            }
        }
    }
    r
}

/// The first of `present` that holds, among the first `n`.
pub open spec fn first_present(present: Seq<bool>, n: int, k: int) -> bool {
    &&& 0 <= k < n
    &&& k < present.len()
    &&& present[k]
    &&& forall|j: int| 0 <= j < k ==> !#[trigger] present[j]
}

/// What [`locate`] answers when no path is given and none of [`SEARCH_PATHS`] exists.
pub open spec fn no_catalog_message() -> Seq<char> {
    "no catalog found: pass --catalog, or run where one of catalog/catalog.toml, catalog.toml, config/catalog.toml exists"@
}

/// The catalog file to use: the explicit path, else the first of [`SEARCH_PATHS`] that exists.
/// `present[k]` tells whether `SEARCH_PATHS[k]` is a file; a missing entry counts as absent.
pub fn locate(explicit: Option<&str>, present: &[bool]) -> (r: Result<String, String>)
    ensures
        explicit matches Some(p) ==> r matches Ok(found) && found@ == p@,
        explicit is None ==> match r {
            Ok(found) => exists|k: int|
                first_present(present@, 3, k) && found@ == SEARCH_PATHS@[k]@,
            Err(message) => message@ == no_catalog_message() && forall|k: int|
                0 <= k < 3 && k < present@.len() ==> !#[trigger] present@[k],
        },
{
    if let Some(path) = explicit {
        return Ok(String::from_str(path));
    }
    let mut k: usize = 0;
    while k < 3 && k < present.len()
        invariant
            explicit is None,
            k <= 3,
            forall|j: int| 0 <= j < k ==> !#[trigger] present@[j],
        decreases 3 - k,
    {
        if present[k] {
            assert(first_present(present@, 3, k as int));
            return Ok(String::from_str(SEARCH_PATHS[k]));
        }
        k = k + 1;
    }
    Err(
        String::from_str(
            "no catalog found: pass --catalog, or run where one of catalog/catalog.toml, catalog.toml, config/catalog.toml exists",
        ),
    )
}

/// `catalog.repo[<i>]`: where repository `i` sits in the catalog.
pub open spec fn repo_at(i: nat) -> Seq<char> {
    "catalog.repo["@ + decimal(i) + "]"@
}

/// One problem when `bad` holds, none otherwise.
pub open spec fn problem_if(bad: bool, problem: Seq<char>) -> Seq<Seq<char>> {
    if bad {
        seq![problem]
    } else {
        seq![]
    }
}

/// The problems of layer `j`: one when it is not a layer, then one when an earlier layer is
/// the same.
pub open spec fn layer_step(layers: Seq<Seq<char>>, at: Seq<char>, j: nat) -> Seq<Seq<char>> {
    let layer = layers[j as int];
    problem_if(
        !layer_ok(layer),
        at + ".layers["@ + decimal(j) + "]: "@ + debug_str(layer) + " is not L0..L18 or \"all\""@,
    ) + problem_if(layers.take(j as int).contains(layer), at + ".layers: repeated items"@)
}

/// The problems of the first `n` layers of a repository found at `at`: for each layer in
/// order, one when it is not a layer, then one when an earlier layer is the same.
pub open spec fn layers_problems(layers: Seq<Seq<char>>, at: Seq<char>, n: nat) -> Seq<Seq<char>>
    decreases n,
{
    if n == 0 {
        seq![]
    } else {
        layers_problems(layers, at, (n - 1) as nat) + layer_step(layers, at, (n - 1) as nat)
    }
}

/// The problem of a repository name that breaks [`repo_name_ok`].
pub open spec fn name_problems(repo: Repo, at: Seq<char>) -> Seq<Seq<char>> {
    problem_if(
        !repo_name_ok(repo.name@),
        at + ".name: "@ + debug_str(repo.name@)
            + " is not a repository name (lowercase, digits, hyphens)"@,
    )
}

/// The problem of a ring outside [`rings`].
pub open spec fn ring_problems(repo: Repo, at: Seq<char>) -> Seq<Seq<char>> {
    problem_if(
        !rings().contains(repo.ring@),
        at + ".ring: "@ + debug_str(repo.ring@)
            + " is not one of [\"spine\", \"platform\", \"system\", \"domain\", \"standards\"]"@,
    )
}

/// The problem of a wave below 1.
pub open spec fn wave_problems(repo: Repo, at: Seq<char>) -> Seq<Seq<char>> {
    problem_if(repo.wave < 1, at + ".wave: "@ + decimal(repo.wave as nat) + " is below 1"@)
}

/// Every problem of one repository found at `at`, in the order they are reported.
pub open spec fn repo_problems(repo: Repo, at: Seq<char>) -> Seq<Seq<char>> {
    name_problems(repo, at) + ring_problems(repo, at) + wave_problems(repo, at) + problem_if(
        repo.layers@.len() == 0,
        at + ".layers: fewer than 1 items"@,
    ) + layers_problems(texts(repo.layers@), at, repo.layers@.len()) + problem_if(
        repo.purpose@.len() == 0,
        at + ".purpose: shorter than 1"@,
    ) + problem_if(repo.contents@.len() == 0, at + ".contents: shorter than 1"@)
}

/// Appends `m` to `problems`.
fn push_problem(problems: &mut Vec<String>, m: String)
    ensures
        texts(final(problems)@) == texts(old(problems)@).push(m@),
{
    problems.push(m);
    assert(texts(problems@) =~= texts(old(problems)@).push(m@));
}

proof fn lemma_problem_if(before: Seq<Seq<char>>, bad: bool, m: Seq<char>)
    ensures
        bad ==> before + problem_if(bad, m) == before.push(m),
        !bad ==> before + problem_if(bad, m) == before,
{
    assert(before + seq![m] =~= before.push(m));
    assert(before + Seq::<Seq<char>>::empty() =~= before);
}

impl Repo {
    fn check_name(&self, at: &str, problems: &mut Vec<String>)
        ensures
            texts(final(problems)@) == texts(old(problems)@) + name_problems(*self, at@),
    {
        let bad = !is_repo_name(self.name.as_str());
        if bad {
            let mut m = String::from_str(at);
            m.append(".name: ");
            m.append(debug_string(self.name.as_str()).as_str());
            m.append(" is not a repository name (lowercase, digits, hyphens)");
            push_problem(problems, m);
        }
        proof {
            lemma_problem_if(
                texts(old(problems)@),
                bad,
                at@ + ".name: "@ + debug_str(self.name@)
                    + " is not a repository name (lowercase, digits, hyphens)"@,
            );
        }
    }

    fn check_ring(&self, at: &str, problems: &mut Vec<String>)
        ensures
            texts(final(problems)@) == texts(old(problems)@) + ring_problems(*self, at@),
    {
        let bad = !is_ring(self.ring.as_str());
        if bad {
            let mut m = String::from_str(at);
            m.append(".ring: ");
            m.append(debug_string(self.ring.as_str()).as_str());
            m.append(
                " is not one of [\"spine\", \"platform\", \"system\", \"domain\", \"standards\"]",
            );
            push_problem(problems, m);
        }
        proof {
            lemma_problem_if(
                texts(old(problems)@),
                bad,
                at@ + ".ring: "@ + debug_str(self.ring@)
                    + " is not one of [\"spine\", \"platform\", \"system\", \"domain\", \"standards\"]"@,
            );
        }
    }

    fn check_wave(&self, at: &str, problems: &mut Vec<String>)
        ensures
            texts(final(problems)@) == texts(old(problems)@) + wave_problems(*self, at@),
    {
        let bad = self.wave < 1;
        if bad {
            let mut m = String::from_str(at);
            m.append(".wave: ");
            push_decimal(&mut m, self.wave as u64);
            m.append(" is below 1");
            push_problem(problems, m);
        }
        proof {
            lemma_problem_if(
                texts(old(problems)@),
                bad,
                at@ + ".wave: "@ + decimal(self.wave as nat) + " is below 1"@,
            );
        }
    }

    /// Appends `<at><suffix>` when `bad` holds.
    fn check_flag(at: &str, bad: bool, suffix: &str, problems: &mut Vec<String>)
        ensures
            texts(final(problems)@) == texts(old(problems)@) + problem_if(bad, at@ + suffix@),
    {
        if bad {
            let mut m = String::from_str(at);
            m.append(suffix);
            push_problem(problems, m);
        }
        proof {
            lemma_problem_if(texts(old(problems)@), bad, at@ + suffix@);
        }
    }

    fn check_layer(&self, at: &str, j: usize, problems: &mut Vec<String>)
        requires
            j < self.layers@.len(),
        ensures
            texts(final(problems)@) == texts(old(problems)@) + layer_step(
                texts(self.layers@),
                at@,
                j as nat,
            ),
    {
        let ghost layers = texts(self.layers@);
        let layer = &self.layers[j];
        let bad = !is_layer(layer.as_str());
        if bad {
            let mut m = String::from_str(at);
            m.append(".layers[");
            push_decimal(&mut m, j as u64);
            m.append("]: ");
            m.append(debug_string(layer.as_str()).as_str());
            m.append(" is not L0..L18 or \"all\"");
            push_problem(problems, m);
        }
        let ghost m1 = at@ + ".layers["@ + decimal(j as nat) + "]: "@ + debug_str(layers[j as int])
            + " is not L0..L18 or \"all\""@;
        proof {
            lemma_problem_if(texts(old(problems)@), bad, m1);
        }
        let ghost mid = texts(problems@);
        let mut k: usize = 0;
        let mut seen = false;
        while k < j
            invariant
                layers == texts(self.layers@),
                k <= j < self.layers@.len(),
                seen == layers.take(k as int).contains(layers[j as int]),
            decreases j - k,
        {
            if self.layers[k] == self.layers[j] {
                seen = true;
            }
            proof {
                assert(layers.take(k + 1) =~= layers.take(k as int).push(layers[k as int]));
                if seen && !layers.take(k as int).contains(layers[j as int]) {
                    assert(layers.take(k + 1)[k as int] == layers[j as int]);
                }
            }
            k = k + 1;
        }
        Self::check_flag(at, seen, ".layers: repeated items", problems);
        assert(texts(problems@) =~= texts(old(problems)@) + layer_step(layers, at@, j as nat));
    }

    /// Appends every problem of this repository, found at `at`, to `problems`.
    pub fn check(&self, at: &str, problems: &mut Vec<String>)
        ensures
            texts(final(problems)@) == texts(old(problems)@) + repo_problems(*self, at@),
    {
        let ghost start = texts(problems@);
        self.check_name(at, problems);
        self.check_ring(at, problems);
        self.check_wave(at, problems);
        Self::check_flag(at, self.layers.len() == 0, ".layers: fewer than 1 items", problems);
        let ghost before_layers = texts(problems@);
        let ghost layers = texts(self.layers@);
        let mut j: usize = 0;
        while j < self.layers.len()
            invariant
                layers == texts(self.layers@),
                j <= self.layers@.len(),
                texts(problems@) == before_layers + layers_problems(layers, at@, j as nat),
            decreases self.layers@.len() - j,
        {
            self.check_layer(at, j, problems);
            assert(texts(problems@) =~= before_layers + layers_problems(layers, at@, (j + 1) as nat));
            j = j + 1;
        }
        Self::check_flag(at, self.purpose.as_str().is_empty(), ".purpose: shorter than 1", problems);
        Self::check_flag(
            at,
            self.contents.as_str().is_empty(),
            ".contents: shorter than 1",
            problems,
        );
        assert(texts(problems@) =~= start + repo_problems(*self, at@));
    }
}

/// `j` is the first repository before `i` that carries the name of repository `i`.
pub open spec fn first_namesake(repos: Seq<Repo>, i: int, j: int) -> bool {
    &&& 0 <= j < i
    &&& repos[j].name@ == repos[i].name@
    &&& forall|k: int| 0 <= k < j ==> #[trigger] repos[k].name@ != repos[i].name@
}

/// The problem of a repository whose name an earlier one already has, naming the first.
pub open spec fn duplicate_problems(repos: Seq<Repo>, i: int) -> Seq<Seq<char>> {
    if exists|j: int| first_namesake(repos, i, j) {
        let j = choose|j: int| first_namesake(repos, i, j);
        seq![
            repo_at(i as nat) + ".name: "@ + debug_str(repos[i].name@) + " is already repo["@
                + decimal(j as nat) + "]"@,
        ]
    } else {
        seq![]
    }
}

/// The problems of the first `n` repositories, in order: each one's own, then its duplicate name.
pub open spec fn repos_problems(repos: Seq<Repo>, n: nat) -> Seq<Seq<char>>
    decreases n,
{
    if n == 0 {
        seq![]
    } else {
        let i = (n - 1) as nat;
        repos_problems(repos, i) + repo_problems(repos[i as int], repo_at(i)) + duplicate_problems(
            repos,
            i as int,
        )
    }
}

/// The problems of the `[catalog]` table and of a catalog without repositories.
pub open spec fn meta_problems(c: Catalog) -> Seq<Seq<char>> {
    problem_if(
        c.catalog.version != VERSION,
        "catalog.catalog.version: "@ + decimal(c.catalog.version as nat) + " is not 1"@,
    ) + problem_if(
        !login_ok(c.catalog.org@),
        "catalog.catalog.org: "@ + debug_str(c.catalog.org@) + " is not a GitHub login"@,
    ) + problem_if(c.repo@.len() == 0, "catalog.repo: fewer than 1 items"@)
}

/// Every problem the rules find in a catalog, in the order they are reported.
pub open spec fn catalog_problems(c: Catalog) -> Seq<Seq<char>> {
    meta_problems(c) + repos_problems(c.repo@, c.repo@.len())
}

impl Catalog {
    fn check_meta(&self, problems: &mut Vec<String>)
        requires
            old(problems)@.len() == 0,
        ensures
            texts(final(problems)@) == meta_problems(*self),
    {
        let bad_version = self.catalog.version != VERSION;
        if bad_version {
            let mut m = String::from_str("catalog.catalog.version: ");
            push_decimal(&mut m, self.catalog.version as u64);
            m.append(" is not 1");
            push_problem(problems, m);
        }
        proof {
            lemma_problem_if(
                texts(old(problems)@),
                bad_version,
                "catalog.catalog.version: "@ + decimal(self.catalog.version as nat) + " is not 1"@,
            );
        }
        let ghost after_version = texts(problems@);
        let bad_org = !is_login(self.catalog.org.as_str());
        if bad_org {
            let mut m = String::from_str("catalog.catalog.org: ");
            m.append(debug_string(self.catalog.org.as_str()).as_str());
            m.append(" is not a GitHub login");
            push_problem(problems, m);
        }
        proof {
            lemma_problem_if(
                after_version,
                bad_org,
                "catalog.catalog.org: "@ + debug_str(self.catalog.org@) + " is not a GitHub login"@,
            );
        }
        let ghost after_org = texts(problems@);
        let empty = self.repo.len() == 0;
        if empty {
            push_problem(problems, String::from_str("catalog.repo: fewer than 1 items"));
        }
        proof {
            lemma_problem_if(after_org, empty, "catalog.repo: fewer than 1 items"@);
            assert(texts(old(problems)@) =~= Seq::<Seq<char>>::empty());
        }
        assert(texts(problems@) =~= meta_problems(*self));
    }

    fn check_duplicate(&self, i: usize, problems: &mut Vec<String>)
        requires
            i < self.repo@.len(),
        ensures
            texts(final(problems)@) == texts(old(problems)@) + duplicate_problems(
                self.repo@,
                i as int,
            ),
    {
        let ghost repos = self.repo@;
        let mut j: usize = 0;
        while j < i
            invariant
                repos == self.repo@,
                problems@ == old(problems)@,
                j <= i < repos.len(),
                forall|k: int| 0 <= k < j ==> #[trigger] repos[k].name@ != repos[i as int].name@,
            decreases i - j,
        {
            if self.repo[j].name == self.repo[i].name {
                let mut m = String::from_str("catalog.repo[");
                push_decimal(&mut m, i as u64);
                m.append("]");
                m.append(".name: ");
                m.append(debug_string(self.repo[i].name.as_str()).as_str());
                m.append(" is already repo[");
                push_decimal(&mut m, j as u64);
                m.append("]");
                push_problem(problems, m);
                proof {
                    assert(first_namesake(repos, i as int, j as int));
                    let c = choose|c: int| first_namesake(repos, i as int, c);
                    assert(c == j) by {
                        if c < j {
                            assert(repos[c].name@ != repos[i as int].name@);
                        } else if c > j {
                            assert(repos[j as int].name@ != repos[i as int].name@);
                        }
                    }
                    assert(texts(problems@) =~= texts(old(problems)@) + duplicate_problems(
                        repos,
                        i as int,
                    ));
                }
                return ;
            }
            j = j + 1;
        }
        assert forall|c: int| !first_namesake(repos, i as int, c) by {
            if 0 <= c < i as int {
                assert(repos[c].name@ != repos[i as int].name@);
            }
        }
        assert(texts(problems@) =~= texts(old(problems)@) + duplicate_problems(repos, i as int));
    }

    /// Repositories in `ring`, in file order.
    pub fn in_ring<'a>(&'a self, ring: &str) -> (r: Vec<&'a Repo>)
        ensures
            r@.map_values(|x: &Repo| *x) == self.repo@.filter(|x: Repo| x.ring@ == ring@),
    {
        let ghost pred = |x: Repo| x.ring@ == ring@;
        let ghost repos = self.repo@;
        let mut out: Vec<&'a Repo> = Vec::new();
        let mut i: usize = 0;
        while i < self.repo.len()
            invariant
                repos == self.repo@,
                pred == (|x: Repo| x.ring@ == ring@),
                i <= repos.len(),
                out@.map_values(|x: &Repo| *x) == repos.take(i as int).filter(pred),
            decreases repos.len() - i,
        {
            reveal_with_fuel(Seq::<_>::filter, 1);
            assert(repos.take(i + 1).drop_last() =~= repos.take(i as int));
            let ghost before = out@;
            let repo = &self.repo[i];
            assert(repos.take(i + 1).last() == repos[i as int]);
            assert(repos.take(i + 1).filter(pred) == (if pred(repos[i as int]) {
                repos.take(i as int).filter(pred).push(repos[i as int])
            } else {
                repos.take(i as int).filter(pred)
            }));
            let same = chars_eq(chars_of(repo.ring.as_str()).as_slice(), chars_of(ring).as_slice());
            if same {
                out.push(repo);
                assert(out@.map_values(|x: &Repo| *x) =~= before.map_values(|x: &Repo| *x).push(
                    *repo,
                ));
            }
            assert(out@.map_values(|x: &Repo| *x) =~= repos.take(i + 1).filter(pred));
            i = i + 1;
        }
        assert(repos.take(i as int) =~= repos);
        out
    }

    /// Every problem the rules find, as `where: problem` lines; empty when the catalog is valid.
    #[verifier::rlimit(40)]
    #[verifier::spinoff_prover]
    pub fn validate(&self) -> (problems: Vec<String>)
        ensures
            texts(problems@) == catalog_problems(*self),
    {
        let mut problems: Vec<String> = Vec::new();
        self.check_meta(&mut problems);
        let ghost repos = self.repo@;
        let mut i: usize = 0;
        while i < self.repo.len()
            invariant
                repos == self.repo@,
                i <= repos.len(),
                texts(problems@) == meta_problems(*self) + repos_problems(repos, i as nat),
            decreases repos.len() - i,
        {
            let mut at = String::from_str("catalog.repo[");
            push_decimal(&mut at, i as u64);
            at.append("]");
            assert(at@ == repo_at(i as nat));
            self.repo[i].check(at.as_str(), &mut problems);
            self.check_duplicate(i, &mut problems);
            assert(texts(problems@) =~= meta_problems(*self) + repos_problems(repos, (i + 1) as nat));
            i = i + 1;
        }
        problems
    }
}

/// A repository that breaks none of the rules.
pub open spec fn repo_valid(r: Repo) -> bool {
    let layers = texts(r.layers@);
    &&& repo_name_ok(r.name@)
    &&& rings().contains(r.ring@)
    &&& r.wave >= 1
    &&& layers.len() >= 1
    &&& forall|j: int| 0 <= j < layers.len() ==> layer_ok(#[trigger] layers[j])
    &&& forall|j: int, k: int| 0 <= j < k < layers.len() ==> layers[j] != layers[k]
    &&& r.purpose@.len() > 0
    &&& r.contents@.len() > 0
}

/// A catalog that breaks none of the rules: the right version, a GitHub login as the
/// organization, at least one repository, every repository valid, and no name twice.
pub open spec fn catalog_valid(c: Catalog) -> bool {
    let repos = c.repo@;
    &&& c.catalog.version == VERSION
    &&& login_ok(c.catalog.org@)
    &&& repos.len() >= 1
    &&& forall|i: int| 0 <= i < repos.len() ==> repo_valid(#[trigger] repos[i])
    &&& forall|i: int, j: int| 0 <= i < j < repos.len() ==> repos[i].name@ != repos[j].name@
}

proof fn lemma_layers_problems_empty(layers: Seq<Seq<char>>, at: Seq<char>, n: nat)
    requires
        n <= layers.len(),
    ensures
        layers_problems(layers, at, n).len() == 0 <==> {
            &&& forall|j: int| 0 <= j < n ==> layer_ok(#[trigger] layers[j])
            &&& forall|j: int, k: int| 0 <= j < k < n ==> layers[j] != layers[k]
        },
    decreases n,
{
    if n > 0 {
        let m = (n - 1) as nat;
        lemma_layers_problems_empty(layers, at, m);
        let layer = layers[m as int];
        let seen = layers.take(m as int).contains(layer);
        assert(layer_step(layers, at, m).len() == 0 <==> layer_ok(layer) && !seen);
        assert(layers_problems(layers, at, n).len() == layers_problems(layers, at, m).len()
            + layer_step(layers, at, m).len());
        assert(seen <==> exists|w: int| 0 <= w < m && layers[w] == layer) by {
            if seen {
                let w = choose|w: int| 0 <= w < m && layers.take(m as int)[w] == layer;
                assert(layers[w] == layer);
            }
            if exists|w: int| 0 <= w < m && layers[w] == layer {
                let w = choose|w: int| 0 <= w < m && layers[w] == layer;
                assert(layers.take(m as int)[w] == layer);
            }
        }
        if layers_problems(layers, at, n).len() == 0 {
            assert forall|j: int, k: int| 0 <= j < k < n implies layers[j] != layers[k] by {
                if k == m {
                    assert(!(0 <= j < m && layers[j] == layer));
                }
            }
            assert forall|j: int| 0 <= j < n implies layer_ok(#[trigger] layers[j]) by {
            }
        }
        if (forall|j: int| 0 <= j < n ==> layer_ok(#[trigger] layers[j])) && (forall|
            j: int,
            k: int,
        | 0 <= j < k < n ==> layers[j] != layers[k]) {
            assert(layer_ok(layers[m as int]));
            assert forall|w: int| 0 <= w < m implies layers[w] != layer by {
                assert(layers[w] != layers[m as int]);
            }
        }
    }
}

pub(crate) proof fn lemma_first_namesake_exists(repos: Seq<Repo>, i: int, j: int)
    requires
        0 <= j < i,
        repos[j].name@ == repos[i].name@,
    ensures
        exists|c: int| first_namesake(repos, i, c),
    decreases j,
{
    if exists|k: int| 0 <= k < j && repos[k].name@ == repos[i].name@ {
        let k = choose|k: int| 0 <= k < j && repos[k].name@ == repos[i].name@;
        lemma_first_namesake_exists(repos, i, k);
    } else {
        assert(first_namesake(repos, i, j));
    }
}

#[verifier::rlimit(40)]
proof fn lemma_repos_problems_empty(repos: Seq<Repo>, n: nat)
    requires
        n <= repos.len(),
    ensures
        repos_problems(repos, n).len() == 0 <==> {
            &&& forall|i: int| 0 <= i < n ==> repo_valid(#[trigger] repos[i])
            &&& forall|i: int, j: int| 0 <= i < j < n ==> repos[i].name@ != repos[j].name@
        },
    decreases n,
{
    if n > 0 {
        let m = (n - 1) as nat;
        lemma_repos_problems_empty(repos, m);
        let r = repos[m as int];
        lemma_layers_problems_empty(texts(r.layers@), repo_at(m), r.layers@.len());
        if exists|j: int| 0 <= j < m && repos[j].name@ == repos[m as int].name@ {
            let j = choose|j: int| 0 <= j < m && repos[j].name@ == repos[m as int].name@;
            lemma_first_namesake_exists(repos, m as int, j);
        }
        if forall|i: int, j: int| 0 <= i < j < n ==> repos[i].name@ != repos[j].name@ {
            assert forall|c: int| !first_namesake(repos, m as int, c) by {
                if 0 <= c < m {
                    assert(repos[c].name@ != repos[m as int].name@);
                }
            }
        }
        if repos_problems(repos, n).len() == 0 {
            assert forall|i: int, j: int| 0 <= i < j < n implies repos[i].name@ != repos[j].name@ by {
                if j == m && repos[i].name@ == repos[j].name@ {
                    lemma_first_namesake_exists(repos, m as int, i);
                }
            }
        }
    }
}

/// `validate` reports nothing exactly when the catalog is valid: every rule of the schema
/// holds, and each broken rule yields at least one problem.
pub proof fn validate_is_empty_iff_valid(c: Catalog)
    ensures
        catalog_problems(c).len() == 0 <==> catalog_valid(c),
{
    lemma_repos_problems_empty(c.repo@, c.repo@.len());
}

/// `Repo::check` adds nothing exactly when the repository breaks none of the rules: a
/// repository name, a known ring, a wave of at least 1, at least one layer, each a layer and
/// none twice, and a purpose and contents that are not empty.
pub proof fn check_adds_nothing_iff_valid(r: Repo, at: Seq<char>)
    ensures
        repo_problems(r, at).len() == 0 <==> repo_valid(r),
{
    lemma_layers_problems_empty(texts(r.layers@), at, r.layers@.len());
}

/// `m` begins with `p`.
pub open spec fn starts_with(m: Seq<char>, p: Seq<char>) -> bool {
    p.len() <= m.len() && m.take(p.len() as int) == p
}

/// A problem as `validate` words it: `catalog.` and the rest of where, then `: ` and what is
/// wrong, the `: ` at `q`.
pub open spec fn located_at(m: Seq<char>, q: int) -> bool {
    starts_with(m, "catalog."@) && matches_at(m, q, ": "@)
}

/// A problem of the form `<where>: <problem>`, its where starting with `catalog.`.
pub open spec fn located(m: Seq<char>) -> bool {
    starts_with(m, "catalog."@) && occurs_in(m, ": "@)
}

/// Every problem of `s` has that form.
pub open spec fn all_located(s: Seq<Seq<char>>) -> bool {
    forall|k: int| 0 <= k < s.len() ==> located(#[trigger] s[k])
}

pub(crate) proof fn lemma_prefix_extends(a: Seq<char>, b: Seq<char>, p: Seq<char>)
    requires
        starts_with(a, p),
    ensures
        starts_with(a + b, p),
{
    assert((a + b).take(p.len() as int) =~= a.take(p.len() as int));
}

proof fn lemma_colon_after(at: Seq<char>, lit: Seq<char>, k: int)
    requires
        starts_with(at, "catalog."@),
        matches_at(lit, k, ": "@),
    ensures
        located_at(at + lit, at.len() + k),
{
    reveal_strlit(": ");
    lemma_prefix_extends(at, lit, "catalog."@);
    assert((at + lit).subrange(at.len() + k, at.len() + k + 2) =~= lit.subrange(k, k + 2));
}

proof fn lemma_located_extends(p: Seq<char>, q: int, x: Seq<char>)
    requires
        located_at(p, q),
    ensures
        located_at(p + x, q),
        located(p + x),
{
    reveal_strlit(": ");
    lemma_prefix_extends(p, x, "catalog."@);
    assert((p + x).subrange(q, q + 2) =~= p.subrange(q, q + 2));
    assert(matches_at(p + x, q, ": "@));
}

proof fn lemma_all_located_concat(a: Seq<Seq<char>>, b: Seq<Seq<char>>)
    requires
        all_located(a),
        all_located(b),
    ensures
        all_located(a + b),
{
    assert forall|k: int| 0 <= k < (a + b).len() implies located(#[trigger] (a + b)[k]) by {
        if k < a.len() {
            assert((a + b)[k] == a[k]);
        } else {
            assert((a + b)[k] == b[k - a.len()]);
        }
    }
}

proof fn lemma_problem_if_located(bad: bool, m: Seq<char>)
    requires
        bad ==> located(m),
    ensures
        all_located(problem_if(bad, m)),
{
}

proof fn lemma_layers_located(layers: Seq<Seq<char>>, at: Seq<char>, n: nat)
    requires
        starts_with(at, "catalog."@),
        n <= layers.len(),
    ensures
        all_located(layers_problems(layers, at, n)),
    decreases n,
{
    if n > 0 {
        let j = (n - 1) as nat;
        lemma_layers_located(layers, at, j);
        let layer = layers[j as int];
        reveal_strlit(".layers[");
        reveal_strlit("]: ");
        reveal_strlit(": ");
        reveal_strlit(".layers: repeated items");
        let p0 = at + ".layers["@ + decimal(j);
        lemma_prefix_extends(at, ".layers["@, "catalog."@);
        lemma_prefix_extends(at + ".layers["@, decimal(j), "catalog."@);
        assert("]: "@.subrange(1, 3) =~= ": "@);
        lemma_colon_after(p0, "]: "@, 1);
        let p1 = p0 + "]: "@;
        lemma_located_extends(p1, (p0.len() + 1) as int, debug_str(layer));
        lemma_located_extends(p1 + debug_str(layer), (p0.len() + 1) as int, " is not L0..L18 or \"all\""@);
        lemma_problem_if_located(
            !layer_ok(layer),
            at + ".layers["@ + decimal(j) + "]: "@ + debug_str(layer) + " is not L0..L18 or \"all\""@,
        );
        assert(".layers: repeated items"@.subrange(7, 9) =~= ": "@);
        lemma_colon_after(at, ".layers: repeated items"@, 7);
        assert(located(at + ".layers: repeated items"@));
        lemma_problem_if_located(
            layers.take(j as int).contains(layer),
            at + ".layers: repeated items"@,
        );
        lemma_all_located_concat(
            problem_if(
                !layer_ok(layer),
                at + ".layers["@ + decimal(j) + "]: "@ + debug_str(layer)
                    + " is not L0..L18 or \"all\""@,
            ),
            problem_if(layers.take(j as int).contains(layer), at + ".layers: repeated items"@),
        );
        lemma_all_located_concat(layers_problems(layers, at, j), layer_step(layers, at, j));
    }
}

/// A message `at` + `lit` + ..., where `lit` holds `: ` at `k`, has the form of a problem.
proof fn lemma_tail_located(at: Seq<char>, lit: Seq<char>, k: int, x: Seq<char>, y: Seq<char>)
    requires
        starts_with(at, "catalog."@),
        matches_at(lit, k, ": "@),
    ensures
        located(at + lit + x + y),
        located(at + lit + x),
{
    lemma_colon_after(at, lit, k);
    lemma_located_extends(at + lit, at.len() + k, x);
    lemma_located_extends(at + lit + x, at.len() + k, y);
}

#[verifier::rlimit(40)]
proof fn lemma_repo_located(r: Repo, at: Seq<char>)
    requires
        starts_with(at, "catalog."@),
    ensures
        all_located(repo_problems(r, at)),
{
    reveal_strlit(": ");
    reveal_strlit(".name: ");
    reveal_strlit(".ring: ");
    reveal_strlit(".wave: ");
    reveal_strlit(".layers: fewer than 1 items");
    reveal_strlit(".purpose: shorter than 1");
    reveal_strlit(".contents: shorter than 1");
    assert(".name: "@.subrange(5, 7) =~= ": "@);
    assert(".ring: "@.subrange(5, 7) =~= ": "@);
    assert(".wave: "@.subrange(5, 7) =~= ": "@);
    assert(".layers: fewer than 1 items"@.subrange(7, 9) =~= ": "@);
    assert(".purpose: shorter than 1"@.subrange(8, 10) =~= ": "@);
    assert(".contents: shorter than 1"@.subrange(9, 11) =~= ": "@);
    lemma_tail_located(
        at,
        ".name: "@,
        5,
        debug_str(r.name@),
        " is not a repository name (lowercase, digits, hyphens)"@,
    );
    lemma_tail_located(
        at,
        ".ring: "@,
        5,
        debug_str(r.ring@),
        " is not one of [\"spine\", \"platform\", \"system\", \"domain\", \"standards\"]"@,
    );
    lemma_tail_located(at, ".wave: "@, 5, decimal(r.wave as nat), " is below 1"@);
    lemma_colon_after(at, ".layers: fewer than 1 items"@, 7);
    lemma_colon_after(at, ".purpose: shorter than 1"@, 8);
    lemma_colon_after(at, ".contents: shorter than 1"@, 9);
    assert(located(at + ".layers: fewer than 1 items"@));
    assert(located(at + ".purpose: shorter than 1"@));
    assert(located(at + ".contents: shorter than 1"@));
    lemma_layers_located(texts(r.layers@), at, r.layers@.len());
    let a = name_problems(r, at);
    let b = ring_problems(r, at);
    let c = wave_problems(r, at);
    let d = problem_if(r.layers@.len() == 0, at + ".layers: fewer than 1 items"@);
    let e = layers_problems(texts(r.layers@), at, r.layers@.len());
    let f = problem_if(r.purpose@.len() == 0, at + ".purpose: shorter than 1"@);
    let g = problem_if(r.contents@.len() == 0, at + ".contents: shorter than 1"@);
    lemma_all_located_concat(a, b);
    lemma_all_located_concat(a + b, c);
    lemma_all_located_concat(a + b + c, d);
    lemma_all_located_concat(a + b + c + d, e);
    lemma_all_located_concat(a + b + c + d + e, f);
    lemma_all_located_concat(a + b + c + d + e + f, g);
}

proof fn lemma_repos_located(repos: Seq<Repo>, n: nat)
    requires
        n <= repos.len(),
    ensures
        all_located(repos_problems(repos, n)),
    decreases n,
{
    if n > 0 {
        let i = (n - 1) as nat;
        lemma_repos_located(repos, i);
        reveal_strlit("catalog.repo[");
        reveal_strlit("catalog.");
        reveal_strlit(": ");
        reveal_strlit(".name: ");
        assert("catalog.repo["@.take(8) =~= "catalog."@);
        lemma_prefix_extends("catalog.repo["@, decimal(i), "catalog."@);
        lemma_prefix_extends("catalog.repo["@ + decimal(i), "]"@, "catalog."@);
        let at = repo_at(i);
        lemma_repo_located(repos[i as int], at);
        if exists|j: int| first_namesake(repos, i as int, j) {
            let j = choose|j: int| first_namesake(repos, i as int, j);
            assert(".name: "@.subrange(5, 7) =~= ": "@);
            lemma_colon_after(at, ".name: "@, 5);
            let p = at + ".name: "@;
            lemma_located_extends(p, (at.len() + 5) as int, debug_str(repos[i as int].name@));
            lemma_located_extends(
                p + debug_str(repos[i as int].name@),
                (at.len() + 5) as int,
                " is already repo["@,
            );
            lemma_located_extends(
                p + debug_str(repos[i as int].name@) + " is already repo["@,
                (at.len() + 5) as int,
                decimal(j as nat),
            );
            lemma_located_extends(
                p + debug_str(repos[i as int].name@) + " is already repo["@ + decimal(j as nat),
                (at.len() + 5) as int,
                "]"@,
            );
        }
        lemma_all_located_concat(repos_problems(repos, i), repo_problems(repos[i as int], at));
        lemma_all_located_concat(
            repos_problems(repos, i) + repo_problems(repos[i as int], at),
            duplicate_problems(repos, i as int),
        );
    }
}

/// Every problem `validate` reports has the form `<where>: <problem>`, its where starting with
/// `catalog.`.
pub proof fn every_problem_is_located(c: Catalog)
    ensures
        forall|k: int| 0 <= k < catalog_problems(c).len() ==> located(#[trigger] catalog_problems(c)[k]),
{
    reveal_strlit("catalog.");
    reveal_strlit(": ");
    reveal_strlit("catalog.catalog.version: ");
    reveal_strlit("catalog.catalog.org: ");
    reveal_strlit("catalog.repo: fewer than 1 items");
    let v = "catalog.catalog.version: "@;
    let o = "catalog.catalog.org: "@;
    let e = "catalog.repo: fewer than 1 items"@;
    assert(v.take(8) =~= "catalog."@ && v.subrange(23, 25) =~= ": "@);
    assert(o.take(8) =~= "catalog."@ && o.subrange(19, 21) =~= ": "@);
    assert(e.take(8) =~= "catalog."@ && e.subrange(12, 14) =~= ": "@);
    lemma_located_extends(v, 23, decimal(c.catalog.version as nat));
    lemma_located_extends(v + decimal(c.catalog.version as nat), 23, " is not 1"@);
    lemma_located_extends(o, 19, debug_str(c.catalog.org@));
    lemma_located_extends(o + debug_str(c.catalog.org@), 19, " is not a GitHub login"@);
    assert(e + Seq::<char>::empty() =~= e);
    lemma_located_extends(e, 12, Seq::<char>::empty());
    let a = problem_if(
        c.catalog.version != VERSION,
        v + decimal(c.catalog.version as nat) + " is not 1"@,
    );
    let b = problem_if(
        !login_ok(c.catalog.org@),
        o + debug_str(c.catalog.org@) + " is not a GitHub login"@,
    );
    let d = problem_if(c.repo@.len() == 0, e);
    lemma_all_located_concat(a, b);
    lemma_all_located_concat(a + b, d);
    lemma_repos_located(c.repo@, c.repo@.len());
    lemma_all_located_concat(meta_problems(c), repos_problems(c.repo@, c.repo@.len()));
}

/// A repository's name is reported as a duplicate exactly when an earlier repository has the
/// same name, once, and the report names the first such repository.
pub proof fn duplicate_names_the_first_namesake(repos: Seq<Repo>, i: int)
    requires
        0 <= i < repos.len(),
    ensures
        duplicate_problems(repos, i).len() <= 1,
        duplicate_problems(repos, i).len() == 1 <==> exists|k: int|
            0 <= k < i && #[trigger] repos[k].name@ == repos[i].name@,
        duplicate_problems(repos, i).len() == 1 ==> exists|f: int|
            #[trigger] first_namesake(repos, i, f) && duplicate_problems(repos, i)[0] == repo_at(
                i as nat,
            ) + ".name: "@ + debug_str(repos[i].name@) + " is already repo["@ + decimal(f as nat)
                + "]"@,
{
    if exists|k: int| 0 <= k < i && #[trigger] repos[k].name@ == repos[i].name@ {
        let k = choose|k: int| 0 <= k < i && #[trigger] repos[k].name@ == repos[i].name@;
        lemma_first_namesake_exists(repos, i, k);
        let f = choose|f: int| first_namesake(repos, i, f);
        assert(first_namesake(repos, i, f));
    } else {
        if exists|f: int| first_namesake(repos, i, f) {
            let f = choose|f: int| first_namesake(repos, i, f);
            assert(repos[f].name@ == repos[i].name@);
        }
    }
}

/// An ASCII lower-case letter or digit, as a byte.
pub open spec fn lower_or_digit_byte(b: u8) -> bool {
    (97 <= b && b <= 122) || (48 <= b && b <= 57)
}

/// The repository-name rule over a name's UTF-8 bytes: `.github`, or 1 to 100 bytes of `a-z`,
/// `0-9` and `-`, the first not `-`.
pub open spec fn name_bytes_ok(b: Seq<u8>) -> bool {
    ||| b == seq![46u8, 103u8, 105u8, 116u8, 104u8, 117u8, 98u8]
    ||| {
        &&& 1 <= b.len() <= 100
        &&& lower_or_digit_byte(b[0])
        &&& forall|i: int| 1 <= i < b.len() ==> lower_or_digit_byte(#[trigger] b[i]) || b[i] == 45
    }
}

/// The login rule over a login's UTF-8 bytes: 1 to 39 bytes of `a-z`, `0-9` and `-`, neither
/// the first nor the last `-`.
pub open spec fn login_bytes_ok(b: Seq<u8>) -> bool {
    &&& 1 <= b.len() <= 39
    &&& lower_or_digit_byte(b[0])
    &&& lower_or_digit_byte(b[b.len() - 1])
    &&& forall|i: int| 0 < i < b.len() - 1 ==> lower_or_digit_byte(#[trigger] b[i]) || b[i] == 45
}

proof fn lemma_ascii_char(c: char, b: u8)
    requires
        b == c as u32,
    ensures
        lower_or_digit(c) <==> lower_or_digit_byte(b),
        c == '-' <==> b == 45,
{
}

proof fn lemma_ascii_encoding(s: Seq<char>)
    ensures
        (forall|i: int| 0 <= i < s.len() ==> (#[trigger] s[i] as u32) < 0x80) ==> {
            &&& encode_utf8(s).len() == s.len()
            &&& forall|i: int| 0 <= i < s.len() ==> #[trigger] encode_utf8(s)[i] == s[i] as u32
        },
        (exists|i: int| 0 <= i < s.len() && (#[trigger] s[i] as u32) >= 0x80) ==> exists|j: int|
            0 <= j < encode_utf8(s).len() && #[trigger] encode_utf8(s)[j] >= 0x80,
    decreases s.len(),
{
    if s.len() > 0 {
        let rest = s.drop_first();
        lemma_ascii_encoding(rest);
        let c = s[0] as u32;
        let head = encode_scalar(c);
        let e = encode_utf8(s);
        assert(e == head + encode_utf8(rest));
        if c < 0x80 {
            assert((c & 0x7F) == c) by (bit_vector)
                requires
                    c < 0x80,
            ;
            assert(head =~= seq![c as u8]);
            if forall|i: int| 0 <= i < s.len() ==> (#[trigger] s[i] as u32) < 0x80 {
                assert forall|i: int| 0 <= i < rest.len() implies (#[trigger] rest[i] as u32)
                    < 0x80 by {
                    assert(rest[i] == s[i + 1]);
                }
                assert forall|i: int| 0 <= i < s.len() implies #[trigger] e[i] == s[i] as u32 by {
                    if i > 0 {
                        assert(s[i] == rest[i - 1]);
                        assert(e[i] == encode_utf8(rest)[i - 1]);
                    }
                }
            }
            if exists|i: int| 0 <= i < s.len() && (#[trigger] s[i] as u32) >= 0x80 {
                let i = choose|i: int| 0 <= i < s.len() && (#[trigger] s[i] as u32) >= 0x80;
                assert(i > 0);
                assert(rest[i - 1] == s[i]);
                let j = choose|j: int|
                    0 <= j < encode_utf8(rest).len() && #[trigger] encode_utf8(rest)[j] >= 0x80;
                assert(e[j + 1] == encode_utf8(rest)[j]);
            }
        } else {
            vstd::utf8::char_is_scalar(s[0]);
            let y2: u8 = ((c >> 6) & 0x1F) as u8;
            let y3: u8 = ((c >> 12) & 0x0F) as u8;
            let y4: u8 = ((c >> 18) & 0x7) as u8;
            assert((0xC0u8 | y2) >= 0x80u8) by (bit_vector);
            assert((0xE0u8 | y3) >= 0x80u8) by (bit_vector);
            assert((0xF0u8 | y4) >= 0x80u8) by (bit_vector);
            assert(head[0] >= 0x80);
            assert(e[0] == head[0]);
        }
    }
}

/// The repository-name rule read over characters is the rule over the name's UTF-8 bytes.
pub proof fn repository_names_are_checked_byte_for_byte(s: Seq<char>)
    ensures
        repo_name_ok(s) <==> name_bytes_ok(encode_utf8(s)),
{
    lemma_ascii_encoding(s);
    reveal_strlit(".github");
    let b = encode_utf8(s);
    let dot = seq![46u8, 103u8, 105u8, 116u8, 104u8, 117u8, 98u8];
    if repo_name_ok(s) {
        assert forall|i: int| 0 <= i < s.len() implies (#[trigger] s[i] as u32) < 0x80 by {
            if s != DOTGITHUB@ && i > 0 {
                assert(lower_or_digit(s[i]) || s[i] == '-');
            }
        }
        if s == DOTGITHUB@ {
            assert(b =~= dot);
        } else {
            assert forall|i: int| 1 <= i < b.len() implies lower_or_digit_byte(#[trigger] b[i])
                || b[i] == 45 by {
                assert(lower_or_digit(s[i]) || s[i] == '-');
            }
        }
    }
    if name_bytes_ok(b) {
        assert forall|i: int| 0 <= i < s.len() implies (#[trigger] s[i] as u32) < 0x80 by {
            if (s[i] as u32) >= 0x80 {
                let j = choose|j: int| 0 <= j < b.len() && #[trigger] b[j] >= 0x80;
                if b != dot {
                    if j > 0 {
                        assert(lower_or_digit_byte(b[j]) || b[j] == 45);
                    }
                }
            }
        }
        assert(b.len() == s.len());
        if b == dot {
            let g = seq!['.', 'g', 'i', 't', 'h', 'u', 'b'];
            assert(DOTGITHUB@ =~= g);
            assert forall|i: int| 0 <= i < s.len() implies s[i] == g[i] by {
                assert(b[i] == s[i] as u32);
                assert(dot[i] == g[i] as u32);
                let u = s[i] as u32;
                vstd::utf8::char_u32_cast(s[i], u);
                vstd::utf8::char_u32_cast(g[i], u);
            }
            assert(s =~= DOTGITHUB@);
        } else {
            assert(b[0] == s[0] as u32);
            lemma_ascii_char(s[0], b[0]);
            assert forall|i: int| 1 <= i < s.len() implies lower_or_digit(#[trigger] s[i])
                || s[i] == '-' by {
                assert(lower_or_digit_byte(b[i]) || b[i] == 45);
                assert(b[i] == s[i] as u32);
                lemma_ascii_char(s[i], b[i]);
            }
        }
    }
}

/// The login rule read over characters is the rule over the login's UTF-8 bytes.
pub proof fn logins_are_checked_byte_for_byte(s: Seq<char>)
    ensures
        login_ok(s) <==> login_bytes_ok(encode_utf8(s)),
{
    lemma_ascii_encoding(s);
    let b = encode_utf8(s);
    if login_ok(s) {
        assert forall|i: int| 0 <= i < s.len() implies (#[trigger] s[i] as u32) < 0x80 by {
            if 0 < i < s.len() - 1 {
                assert(lower_or_digit(s[i]) || s[i] == '-');
            }
        }
        assert forall|i: int| 0 < i < b.len() - 1 implies lower_or_digit_byte(#[trigger] b[i])
            || b[i] == 45 by {
            assert(lower_or_digit(s[i]) || s[i] == '-');
        }
    }
    if login_bytes_ok(b) {
        assert forall|i: int| 0 <= i < s.len() implies (#[trigger] s[i] as u32) < 0x80 by {
            if (s[i] as u32) >= 0x80 {
                let j = choose|j: int| 0 <= j < b.len() && #[trigger] b[j] >= 0x80;
                if 0 < j < b.len() - 1 {
                    assert(lower_or_digit_byte(b[j]) || b[j] == 45);
                }
            }
        }
        assert(b.len() == s.len());
        assert(b[0] == s[0] as u32);
        lemma_ascii_char(s[0], b[0]);
        assert(b[b.len() - 1] == s[s.len() - 1] as u32);
        lemma_ascii_char(s[s.len() - 1], b[b.len() - 1]);
        assert forall|i: int| 0 < i < s.len() - 1 implies lower_or_digit(#[trigger] s[i])
            || s[i] == '-' by {
            assert(lower_or_digit_byte(b[i]) || b[i] == 45);
            assert(b[i] == s[i] as u32);
            lemma_ascii_char(s[i], b[i]);
        }
    }
}

proof fn lemma_contains_left(a: Seq<Seq<char>>, b: Seq<Seq<char>>, e: Seq<char>)
    requires
        a.contains(e),
    ensures
        (a + b).contains(e),
{
    let k = choose|k: int| 0 <= k < a.len() && a[k] == e;
    assert((a + b)[k] == e);
}

proof fn lemma_contains_right(a: Seq<Seq<char>>, b: Seq<Seq<char>>, e: Seq<char>)
    requires
        b.contains(e),
    ensures
        (a + b).contains(e),
{
    let k = choose|k: int| 0 <= k < b.len() && b[k] == e;
    assert((a + b)[a.len() + k] == e);
}

/// The line that reports layer `j` as no layer.
spec fn bad_layer_message(at: Seq<char>, j: nat, layer: Seq<char>) -> Seq<char> {
    at + ".layers["@ + decimal(j) + "]: "@ + debug_str(layer) + " is not L0..L18 or \"all\""@
}

proof fn lemma_layers_report(layers: Seq<Seq<char>>, at: Seq<char>, n: nat, j: int)
    requires
        0 <= j < n <= layers.len(),
        !layer_ok(layers[j]),
    ensures
        layers_problems(layers, at, n).contains(bad_layer_message(at, j as nat, layers[j])),
    decreases n,
{
    let m = (n - 1) as nat;
    let msg = bad_layer_message(at, j as nat, layers[j]);
    if j == m {
        let a = problem_if(!layer_ok(layers[j]), msg);
        assert(a[0] == msg);
        assert(a.contains(msg));
        lemma_contains_left(
            a,
            problem_if(layers.take(j).contains(layers[j]), at + ".layers: repeated items"@),
            msg,
        );
        lemma_contains_right(layers_problems(layers, at, m), layer_step(layers, at, m), msg);
    } else {
        lemma_layers_report(layers, at, m, j);
        lemma_contains_left(layers_problems(layers, at, m), layer_step(layers, at, m), msg);
    }
}

/// `Repo::check` reports every layer that is not a layer, each in its own line naming its
/// position and quoting it; one bad layer never hides another.
pub proof fn check_reports_every_bad_layer(r: Repo, at: Seq<char>, j: int)
    requires
        0 <= j < r.layers@.len(),
        !layer_ok(r.layers@[j]@),
    ensures
        repo_problems(r, at).contains(
            at + ".layers["@ + decimal(j as nat) + "]: "@ + debug_str(r.layers@[j]@)
                + " is not L0..L18 or \"all\""@,
        ),
{
    let layers = texts(r.layers@);
    assert(layers[j] == r.layers@[j]@);
    let msg = bad_layer_message(at, j as nat, r.layers@[j]@);
    lemma_layers_report(layers, at, r.layers@.len(), j);
    let a = name_problems(r, at) + ring_problems(r, at) + wave_problems(r, at) + problem_if(
        r.layers@.len() == 0,
        at + ".layers: fewer than 1 items"@,
    );
    let e = layers_problems(layers, at, r.layers@.len());
    let f = problem_if(r.purpose@.len() == 0, at + ".purpose: shorter than 1"@);
    let g = problem_if(r.contents@.len() == 0, at + ".contents: shorter than 1"@);
    lemma_contains_right(a, e, msg);
    lemma_contains_left(a + e, f, msg);
    lemma_contains_left(a + e + f, g, msg);
}

proof fn lemma_repos_report(repos: Seq<Repo>, n: nat, i: int, e: Seq<char>)
    requires
        0 <= i < n <= repos.len(),
        repo_problems(repos[i], repo_at(i as nat)).contains(e),
    ensures
        repos_problems(repos, n).contains(e),
    decreases n,
{
    let m = (n - 1) as nat;
    let before = repos_problems(repos, m);
    let own = repo_problems(repos[m as int], repo_at(m));
    let dup = duplicate_problems(repos, m as int);
    if i == m {
        lemma_contains_right(before, own, e);
    } else {
        lemma_repos_report(repos, m, i, e);
        lemma_contains_left(before, own, e);
    }
    lemma_contains_left(before + own, dup, e);
}

/// `validate` reports every layer of every repository that is not a layer, each in its own
/// line: `catalog.repo[<i>].layers[<j>]: "<layer>" is not L0..L18 or "all"`.
pub proof fn validate_reports_every_bad_layer(c: Catalog, i: int, j: int)
    requires
        0 <= i < c.repo@.len(),
        0 <= j < c.repo@[i].layers@.len(),
        !layer_ok(c.repo@[i].layers@[j]@),
    ensures
        catalog_problems(c).contains(
            "catalog.repo["@ + decimal(i as nat) + "]"@ + ".layers["@ + decimal(j as nat) + "]: "@
                + debug_str(c.repo@[i].layers@[j]@) + " is not L0..L18 or \"all\""@,
        ),
{
    let msg = bad_layer_message(repo_at(i as nat), j as nat, c.repo@[i].layers@[j]@);
    check_reports_every_bad_layer(c.repo@[i], repo_at(i as nat), j);
    lemma_repos_report(c.repo@, c.repo@.len(), i, msg);
    lemma_contains_right(meta_problems(c), repos_problems(c.repo@, c.repo@.len()), msg);
}

proof fn lemma_layers_report_repeat(layers: Seq<Seq<char>>, at: Seq<char>, n: nat, j: int, k: int)
    requires
        0 <= j < k < n <= layers.len(),
        layers[j] == layers[k],
    ensures
        layers_problems(layers, at, n).contains(at + ".layers: repeated items"@),
    decreases n,
{
    let m = (n - 1) as nat;
    let msg = at + ".layers: repeated items"@;
    if k == m {
        assert(layers.take(k)[j] == layers[k]);
        let b = problem_if(layers.take(k).contains(layers[k]), msg);
        assert(b[0] == msg);
        let bad = at + ".layers["@ + decimal(m) + "]: "@ + debug_str(layers[k])
            + " is not L0..L18 or \"all\""@;
        lemma_contains_right(problem_if(!layer_ok(layers[k]), bad), b, msg);
        lemma_contains_right(layers_problems(layers, at, m), layer_step(layers, at, m), msg);
    } else {
        lemma_layers_report_repeat(layers, at, m, j, k);
        lemma_contains_left(layers_problems(layers, at, m), layer_step(layers, at, m), msg);
    }
}

/// `Repo::check` reports a layer listed twice: `<at>.layers: repeated items`.
pub proof fn check_reports_a_repeated_layer(r: Repo, at: Seq<char>, j: int, k: int)
    requires
        0 <= j < k < r.layers@.len(),
        r.layers@[j]@ == r.layers@[k]@,
    ensures
        repo_problems(r, at).contains(at + ".layers: repeated items"@),
{
    let layers = texts(r.layers@);
    let msg = at + ".layers: repeated items"@;
    assert(layers[j] == r.layers@[j]@ && layers[k] == r.layers@[k]@);
    lemma_layers_report_repeat(layers, at, r.layers@.len(), j, k);
    let a = name_problems(r, at) + ring_problems(r, at) + wave_problems(r, at) + problem_if(
        r.layers@.len() == 0,
        at + ".layers: fewer than 1 items"@,
    );
    let e = layers_problems(layers, at, r.layers@.len());
    let f = problem_if(r.purpose@.len() == 0, at + ".purpose: shorter than 1"@);
    let g = problem_if(r.contents@.len() == 0, at + ".contents: shorter than 1"@);
    lemma_contains_right(a, e, msg);
    lemma_contains_left(a + e, f, msg);
    lemma_contains_left(a + e + f, g, msg);
}

} // verus!
