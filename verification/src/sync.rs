//! `pub catalog sync`: the GitHub state every repository should have, derived from the
//! catalog, and the smallest set of writes that gets there. Every write is planned from a
//! read of the current state, so a converged organization plans no write.

use vstd::prelude::*;

use crate::catalog::Catalog;
use crate::catalog::DOTGITHUB;
use crate::catalog::Meta;
use crate::catalog::Repo;
use crate::gh::array_items;
use crate::gh::json_items;
use crate::gh::json_member;
use crate::gh::json_of;
use crate::gh::json_strings;
use crate::gh::json_text;
use crate::gh::member;
use crate::gh::parse_json;
use crate::gh::string_items;
use crate::gh::text_value;
use crate::gh::text_view;
use crate::gh::Json;
use crate::gh::JsonView;
use crate::gh::percent_encode;
use crate::gh::segment;
use crate::text::ascii_lower;
use crate::text::chars_eq;
use crate::text::decimal;
use crate::text::insert_sorted;
use crate::text::push_decimal;
use crate::text::sorted_listing_is_unique;
use crate::text::strictly_sorted;
use crate::text::chars_of;
use crate::text::string_of;
use crate::text::texts;
use crate::text::to_ascii_lower;
use vstd::string::StringSliceAdditionalSpecFns;
use vstd::utf8::encode_utf8;

verus! {

/// GitHub caps repository descriptions at 350 characters.
pub const DESCRIPTION_MAX: usize = 350;

/// Every repository starts in this tier (custom property `tier`).
pub const TIER: &'static str = "incubating";

/// Every repository starts with this readiness (custom property `readiness`).
pub const READINESS: &'static str = "none";

/// Labels GitHub creates on a new repository; deleted when the label set does not use them.
pub const GITHUB_DEFAULT_LABELS: [&'static str; 9] = [
    "bug",
    "documentation",
    "duplicate",
    "enhancement",
    "good first issue",
    "help wanted",
    "invalid",
    "question",
    "wontfix",
];

/// The names of [`GITHUB_DEFAULT_LABELS`].
pub open spec fn default_labels() -> Seq<Seq<char>> {
    seq![
        "bug"@,
        "documentation"@,
        "duplicate"@,
        "enhancement"@,
        "good first issue"@,
        "help wanted"@,
        "invalid"@,
        "question"@,
        "wontfix"@,
    ]
}

/// A label, as the label file and GitHub describe it.
#[derive(Debug, Clone, PartialEq, Eq)]
pub struct Label {
    /// Label name.
    pub name: String,
    /// Six hex digits, with or without `#`.
    pub color: String,
    /// Description; GitHub answers `null` for an empty one.
    pub description: Option<String>,
}

/// A custom property value: a string, a list of strings (a `multi_select`), or any other
/// JSON value, kept as its JSON text.
#[derive(Debug, Clone, PartialEq, Eq)]
pub enum PropertyValue {
    /// A string value.
    Text(String),
    /// A list of strings.
    List(Vec<String>),
    /// Any other value, as JSON text.
    Other(String),
}

/// One custom property: its name and value.
#[derive(Debug, Clone, PartialEq, Eq)]
pub struct Property {
    /// `property_name`.
    pub name: String,
    /// `value`.
    pub value: PropertyValue,
}

/// The JSON body of a write.
#[derive(Debug, Clone, PartialEq, Eq)]
pub enum WriteBody {
    /// `{"description": .., "homepage": ..}`.
    Settings { description: String, homepage: String },
    /// `{"names": [..]}`.
    Topics { names: Vec<String> },
    /// `{"properties": [..]}`.
    Properties { properties: Vec<Property> },
    /// `{"name": .., "color": .., "description": ..}`.
    Label { name: String, color: String, description: String },
}

/// One planned API write.
#[derive(Debug, Clone, PartialEq, Eq)]
pub struct Write {
    /// HTTP method.
    pub method: &'static str,
    /// API path.
    pub path: String,
    /// JSON body, when the method takes one.
    pub body: Option<WriteBody>,
    /// What it changes, for people.
    pub what: String,
}

/// What a property value is, as plain text.
pub enum ValueView {
    Text(Seq<char>),
    List(Seq<Seq<char>>),
    Other(Seq<char>),
}

/// What a write body is, as plain text.
pub enum BodyView {
    Settings(Seq<char>, Seq<char>),
    Topics(Seq<Seq<char>>),
    Properties(Seq<(Seq<char>, ValueView)>),
    Label(Seq<char>, Seq<char>, Seq<char>),
}

/// What a write is, as plain text: method, path, body, and what it changes.
pub struct WriteView {
    pub method: Seq<char>,
    pub path: Seq<char>,
    pub body: Option<BodyView>,
    pub what: Seq<char>,
}

impl View for PropertyValue {
    type V = ValueView;

    open spec fn view(&self) -> ValueView {
        match self {
            PropertyValue::Text(s) => ValueView::Text(s@),
            PropertyValue::List(v) => ValueView::List(texts(v@)),
            PropertyValue::Other(s) => ValueView::Other(s@),
        }
    }
}

impl View for Property {
    type V = (Seq<char>, ValueView);

    open spec fn view(&self) -> (Seq<char>, ValueView) {
        (self.name@, self.value@)
    }
}

/// The plain views of a list of properties.
pub open spec fn properties_view(v: Seq<Property>) -> Seq<(Seq<char>, ValueView)> {
    v.map_values(|p: Property| p@)
}

impl View for WriteBody {
    type V = BodyView;

    open spec fn view(&self) -> BodyView {
        match self {
            WriteBody::Settings { description, homepage } => BodyView::Settings(
                description@,
                homepage@,
            ),
            WriteBody::Topics { names } => BodyView::Topics(texts(names@)),
            WriteBody::Properties { properties } => BodyView::Properties(
                properties_view(properties@),
            ),
            WriteBody::Label { name, color, description } => BodyView::Label(
                name@,
                color@,
                description@,
            ),
        }
    }
}

impl View for Write {
    type V = WriteView;

    open spec fn view(&self) -> WriteView {
        WriteView {
            method: self.method@,
            path: self.path@,
            body: match self.body {
                Some(b) => Some(b@),
                None => None,
            },
            what: self.what@,
        }
    }
}

/// The plain views of a list of writes.
pub open spec fn writes_view(v: Seq<Write>) -> Seq<WriteView> {
    v.map_values(|w: Write| w@)
}

/// A colour without its leading `#`s, in lower case.
pub open spec fn color_key(color: Seq<char>) -> Seq<char>
    decreases color.len(),
{
    if color.len() > 0 && color[0] == '#' {
        color_key(color.skip(1))
    } else {
        ascii_lower(color)
    }
}

/// A description, with none read as empty.
pub open spec fn description_text(d: Option<String>) -> Seq<char> {
    match d {
        Some(s) => s@,
        None => seq![],
    }
}

/// Two labels are the same on GitHub: same name, same colour up to `#` and case, same
/// description with none read as empty.
pub open spec fn same_label(a: Label, b: Label) -> bool {
    &&& a.name@ == b.name@
    &&& color_key(a.color@) == color_key(b.color@)
    &&& description_text(a.description) == description_text(b.description)
}

/// A colour without its leading `#`s, in lower case.
pub fn normalize_color(color: &str) -> (r: String)
    ensures
        r@ == color_key(color@),
{
    let cs = chars_of(color);
    let mut i: usize = 0;
    assert(cs@.skip(0) =~= cs@);
    while i < cs.len() && cs[i] == '#'
        invariant
            cs@ == color@,
            i <= cs@.len(),
            color_key(cs@.skip(i as int)) == color_key(color@),
        decreases cs@.len() - i,
    {
        assert(cs@.skip(i as int).skip(1) =~= cs@.skip(i + 1));
        i = i + 1;
    }
    let rest = string_of(vstd::slice::slice_subrange(cs.as_slice(), i, cs.len()));
    assert(rest@ =~= cs@.skip(i as int));
    to_ascii_lower(rest.as_str())
}

fn description_or_empty(d: &Option<String>) -> (r: String)
    ensures
        r@ == description_text(*d),
{
    match d {
        Some(s) => s.clone(),
        None => String::new(),
    }
}

impl Label {
    /// Whether GitHub holds this label as `other`: same name, colour and description.
    pub fn same_as(&self, other: &Label) -> (r: bool)
        ensures
            r == same_label(*self, *other),
    {
        self.name == other.name && normalize_color(self.color.as_str()) == normalize_color(
            other.color.as_str(),
        ) && description_or_empty(&self.description) == description_or_empty(&other.description)
    }
}

/// The body that creates or updates a label.
pub open spec fn label_body_view(label: Label) -> BodyView {
    BodyView::Label(label.name@, color_key(label.color@), description_text(label.description))
}

fn label_body(label: &Label) -> (r: WriteBody)
    ensures
        r@ == label_body_view(*label),
{
    WriteBody::Label {
        name: label.name.clone(),
        color: normalize_color(label.color.as_str()),
        description: description_or_empty(&label.description),
    }
}

/// `/repos/<org>/<name>`.
pub open spec fn repo_path(meta: Meta, repo: Repo) -> Seq<char> {
    "/repos/"@ + meta.org@ + "/"@ + repo.name@
}

/// `/repos/<org>/<name>`.
fn repo_path_of(meta: &Meta, repo: &Repo) -> (r: String)
    ensures
        r@ == repo_path(*meta, *repo),
{
    let mut p = String::from_str("/repos/");
    p.append(meta.org.as_str());
    p.append("/");
    p.append(repo.name.as_str());
    p
}

/// Some label of `labels` is named `name`.
pub open spec fn has_label_named(labels: Seq<Label>, name: Seq<char>) -> bool {
    exists|i: int| 0 <= i < labels.len() && #[trigger] labels[i].name@ == name
}

/// `k` is the first label of `labels` named `name`.
pub open spec fn first_named(labels: Seq<Label>, name: Seq<char>, k: int) -> bool {
    &&& 0 <= k < labels.len()
    &&& labels[k].name@ == name
    &&& forall|j: int| 0 <= j < k ==> #[trigger] labels[j].name@ != name
}

/// The path of one label under `base`: the name percent-encoded as a path segment.
pub open spec fn label_path(base: Seq<char>, name: Seq<char>) -> Seq<char> {
    base + "/"@ + percent_encode(encode_utf8(name))
}

/// The deletions: each GitHub default label among the first `n` of `current` that `wanted`
/// does not name, in order.
pub open spec fn label_deletions(
    current: Seq<Label>,
    wanted: Seq<Label>,
    base: Seq<char>,
    n: nat,
) -> Seq<WriteView>
    decreases n,
{
    if n == 0 {
        seq![]
    } else {
        let label = current[n - 1];
        label_deletions(current, wanted, base, (n - 1) as nat) + if default_labels().contains(
            label.name@,
        ) && !has_label_named(wanted, label.name@) {
            seq![
                WriteView {
                    method: "DELETE"@,
                    path: label_path(base, label.name@),
                    body: None,
                    what: "delete label "@ + label.name@,
                },
            ]
        } else {
            seq![]
        }
    }
}

/// What one wanted label needs: nothing when the first current label of its name is the
/// same, an update when it differs, a creation when there is none.
pub open spec fn label_upsert(current: Seq<Label>, want: Label, base: Seq<char>) -> Seq<
    WriteView,
> {
    if exists|k: int| first_named(current, want.name@, k) {
        let k = choose|k: int| first_named(current, want.name@, k);
        if same_label(current[k], want) {
            seq![]
        } else {
            seq![
                WriteView {
                    method: "PATCH"@,
                    path: label_path(base, want.name@),
                    body: Some(label_body_view(want)),
                    what: "update label "@ + want.name@,
                },
            ]
        }
    } else {
        seq![
            WriteView {
                method: "POST"@,
                path: base,
                body: Some(label_body_view(want)),
                what: "create label "@ + want.name@,
            },
        ]
    }
}

/// The creations and updates for the first `n` wanted labels, in order.
pub open spec fn label_upserts(current: Seq<Label>, wanted: Seq<Label>, base: Seq<char>, n: nat) -> Seq<
    WriteView,
>
    decreases n,
{
    if n == 0 {
        seq![]
    } else {
        label_upserts(current, wanted, base, (n - 1) as nat) + label_upsert(
            current,
            wanted[n - 1],
            base,
        )
    }
}

/// The label plan: deletions first, then creations and updates.
pub open spec fn label_plan(current: Seq<Label>, wanted: Seq<Label>, meta: Meta, repo: Repo) -> Seq<
    WriteView,
> {
    let base = repo_path(meta, repo) + "/labels"@;
    label_deletions(current, wanted, base, current.len()) + label_upserts(
        current,
        wanted,
        base,
        wanted.len(),
    )
}

fn is_default_label(name: &str) -> (r: bool)
    ensures
        r == default_labels().contains(name@),
{
    let cs = chars_of(name);
    let mut k: usize = 0;
    while k < 9
        invariant
            cs@ == name@,
            k <= 9,
            forall|j: int| 0 <= j < k ==> default_labels()[j] != name@,
        decreases 9 - k,
    {
        assert(GITHUB_DEFAULT_LABELS@[k as int]@ == default_labels()[k as int]);
        if chars_eq(chars_of(GITHUB_DEFAULT_LABELS[k]).as_slice(), cs.as_slice()) {
            assert(default_labels()[k as int] == name@);
            return true;
        }
        k = k + 1;
    }
    false
}

/// The index of the first label of `labels` named `name`.
fn find_label(labels: &[Label], name: &String) -> (r: Option<usize>)
    ensures
        r matches Some(k) ==> first_named(labels@, name@, k as int),
        r is None ==> !has_label_named(labels@, name@) && forall|k: int|
            !first_named(labels@, name@, k),
{
    let mut k: usize = 0;
    while k < labels.len()
        invariant
            k <= labels@.len(),
            forall|j: int| 0 <= j < k ==> #[trigger] labels@[j].name@ != name@,
        decreases labels@.len() - k,
    {
        if labels[k].name == *name {
            return Some(k);
        }
        k = k + 1;
    }
    None
}

proof fn lemma_first_named_unique(labels: Seq<Label>, name: Seq<char>, k: int)
    requires
        first_named(labels, name, k),
    ensures
        (choose|c: int| first_named(labels, name, c)) == k,
{
    let c = choose|c: int| first_named(labels, name, c);
    if c < k {
        assert(labels[c].name@ != name);
    } else if c > k {
        assert(labels[k].name@ != name);
    }
}

/// Deletes GitHub defaults the set does not use; creates or updates labels that are missing
/// or differ in colour or description. Labels the set does not know are left alone.
pub fn plan_labels(current: &[Label], wanted: &[Label], meta: &Meta, repo: &Repo) -> (r: Vec<
    Write,
>)
    ensures
        writes_view(r@) == label_plan(current@, wanted@, *meta, *repo),
{
    let mut base = repo_path_of(meta, repo);
    base.append("/labels");
    let mut writes: Vec<Write> = Vec::new();
    let mut i: usize = 0;
    assert(writes_view(writes@) =~= Seq::<WriteView>::empty());
    while i < current.len()
        invariant
            base@ == repo_path(*meta, *repo) + "/labels"@,
            i <= current@.len(),
            writes_view(writes@) == label_deletions(current@, wanted@, base@, i as nat),
        decreases current@.len() - i,
    {
        let label = &current[i];
        let ghost before = writes_view(writes@);
        let unused = find_label(wanted, &label.name).is_none();
        if is_default_label(label.name.as_str()) && unused {
            let mut path = base.clone();
            path.append("/");
            path.append(segment(label.name.as_str()).as_str());
            let mut what = String::from_str("delete label ");
            what.append(label.name.as_str());
            writes.push(Write { method: "DELETE", path, body: None, what });
            assert(writes_view(writes@) =~= before.push(writes@.last()@));
        }
        assert(writes_view(writes@) =~= label_deletions(current@, wanted@, base@, (i + 1) as nat));
        i = i + 1;
    }
    let ghost deletions = writes_view(writes@);
    let mut k: usize = 0;
    while k < wanted.len()
        invariant
            base@ == repo_path(*meta, *repo) + "/labels"@,
            k <= wanted@.len(),
            deletions == label_deletions(current@, wanted@, base@, current@.len()),
            writes_view(writes@) == deletions + label_upserts(current@, wanted@, base@, k as nat),
        decreases wanted@.len() - k,
    {
        let want = &wanted[k];
        let ghost before = writes_view(writes@);
        match find_label(current, &want.name) {
            Some(h) => {
                proof {
                    lemma_first_named_unique(current@, want.name@, h as int);
                }
                if !current[h].same_as(want) {
                    let mut path = base.clone();
                    path.append("/");
                    path.append(segment(want.name.as_str()).as_str());
                    let mut what = String::from_str("update label ");
                    what.append(want.name.as_str());
                    writes.push(Write { method: "PATCH", path, body: Some(label_body(want)), what });
                    assert(writes_view(writes@) =~= before.push(writes@.last()@));
                }
            },
            None => {
                let mut what = String::from_str("create label ");
                what.append(want.name.as_str());
                writes.push(
                    Write { method: "POST", path: base.clone(), body: Some(label_body(want)), what },
                );
                assert(writes_view(writes@) =~= before.push(writes@.last()@));
            },
        }
        assert(writes_view(writes@) =~= deletions + label_upserts(
            current@,
            wanted@,
            base@,
            (k + 1) as nat,
        ));
        k = k + 1;
    }
    writes
}

/// `<first layer> · <purpose> · wave <n>`, before the cut.
pub open spec fn description_full(repo: Repo) -> Seq<char> {
    (if repo.layers@.len() > 0 {
        repo.layers@[0]@
    } else {
        seq![]
    }) + " · "@ + repo.purpose@ + " · wave "@ + decimal(repo.wave as nat)
}

/// The repository description: [`description_full`] cut to [`DESCRIPTION_MAX`] characters.
pub open spec fn description_of(repo: Repo) -> Seq<char> {
    let full = description_full(repo);
    if full.len() <= DESCRIPTION_MAX {
        full
    } else {
        full.take(DESCRIPTION_MAX as int)
    }
}

/// `s` without the `/`s it ends with.
pub open spec fn without_trailing_slashes(s: Seq<char>) -> Seq<char>
    decreases s.len(),
{
    if s.len() > 0 && s.last() == '/' {
        without_trailing_slashes(s.drop_last())
    } else {
        s
    }
}

/// The repository homepage: `<site>/<name>`, the site without its trailing `/`s.
pub open spec fn homepage_of(meta: Meta, repo: Repo) -> Seq<char> {
    without_trailing_slashes(meta.site@) + "/"@ + repo.name@
}

/// The topics a repository should carry: the organization, `rust`, `ring-<ring>`,
/// `wave-<n>`, and `layer-<layer>` (lower case) for each layer.
pub open spec fn wanted_topics(meta: Meta, repo: Repo) -> Set<Seq<char>> {
    set![meta.org@, "rust"@, "ring-"@ + repo.ring@, "wave-"@ + decimal(repo.wave as nat)].union(
        Set::new(
            |t: Seq<char>|
                exists|j: int|
                    0 <= j < repo.layers@.len() && t == "layer-"@ + ascii_lower(
                        #[trigger] repo.layers@[j]@,
                    ),
        ),
    )
}

/// The wanted topics listed in sort order, each once: the one strictly sorted listing of
/// [`wanted_topics`].
pub open spec fn sorted_topics(meta: Meta, repo: Repo) -> Seq<Seq<char>> {
    choose|s: Seq<Seq<char>>| strictly_sorted(s) && s.to_set() == wanted_topics(meta, repo)
}

/// `<first layer> · <purpose> · wave <n>`, cut to [`DESCRIPTION_MAX`] characters.
pub fn description(repo: &Repo) -> (r: String)
    ensures
        r@ == description_of(*repo),
{
    let mut full = if repo.layers.len() > 0 {
        repo.layers[0].clone()
    } else {
        String::new()
    };
    full.append(" · ");
    full.append(repo.purpose.as_str());
    full.append(" · wave ");
    push_decimal(&mut full, repo.wave as u64);
    let cs = chars_of(full.as_str());
    if cs.len() <= DESCRIPTION_MAX {
        full
    } else {
        string_of(vstd::slice::slice_subrange(cs.as_slice(), 0, DESCRIPTION_MAX))
    }
}

/// `<site>/<name>`.
pub fn homepage(meta: &Meta, repo: &Repo) -> (r: String)
    ensures
        r@ == homepage_of(*meta, *repo),
{
    let cs = chars_of(meta.site.as_str());
    let mut end: usize = cs.len();
    assert(cs@.take(end as int) =~= cs@);
    while end > 0 && cs[end - 1] == '/'
        invariant
            cs@ == meta.site@,
            end <= cs@.len(),
            without_trailing_slashes(cs@.take(end as int)) == without_trailing_slashes(cs@),
        decreases end,
    {
        assert(cs@.take(end as int).drop_last() =~= cs@.take(end - 1));
        end = end - 1;
    }
    let mut out = string_of(vstd::slice::slice_subrange(cs.as_slice(), 0, end));
    assert(cs@.subrange(0, end as int) =~= cs@.take(end as int));
    out.append("/");
    out.append(repo.name.as_str());
    out
}

/// The organization, `rust`, the ring, the wave and every layer (lowercase), sorted and unique.
pub fn topics(meta: &Meta, repo: &Repo) -> (r: Vec<String>)
    ensures
        strictly_sorted(texts(r@)),
        texts(r@).to_set() == wanted_topics(*meta, *repo),
        texts(r@) == sorted_topics(*meta, *repo),
{
    let mut v: Vec<String> = Vec::new();
    assert(texts(v@) =~= Seq::<Seq<char>>::empty());
    insert_sorted(&mut v, meta.org.clone());
    insert_sorted(&mut v, String::from_str("rust"));
    let mut ring = String::from_str("ring-");
    ring.append(repo.ring.as_str());
    insert_sorted(&mut v, ring);
    let mut wave = String::from_str("wave-");
    push_decimal(&mut wave, repo.wave as u64);
    insert_sorted(&mut v, wave);
    let ghost fixed = set![meta.org@, "rust"@, "ring-"@ + repo.ring@, "wave-"@ + decimal(repo.wave as nat)];
    assert(texts(v@).to_set() =~= fixed);
    let mut j: usize = 0;
    while j < repo.layers.len()
        invariant
            j <= repo.layers@.len(),
            strictly_sorted(texts(v@)),
            texts(v@).to_set() == fixed.union(
                Set::new(
                    |t: Seq<char>|
                        exists|k: int|
                            0 <= k < j && t == "layer-"@ + ascii_lower(#[trigger] repo.layers@[k]@),
                ),
            ),
        decreases repo.layers@.len() - j,
    {
        let mut t = String::from_str("layer-");
        t.append(to_ascii_lower(repo.layers[j].as_str()).as_str());
        let ghost before = texts(v@).to_set();
        insert_sorted(&mut v, t);
        assert(texts(v@).to_set() =~= fixed.union(
            Set::new(
                |t: Seq<char>|
                    exists|k: int|
                        0 <= k < j + 1 && t == "layer-"@ + ascii_lower(
                            #[trigger] repo.layers@[k]@,
                        ),
            ),
        ));
        j = j + 1;
    }
    assert(texts(v@).to_set() =~= wanted_topics(*meta, *repo));
    proof {
        let c = sorted_topics(*meta, *repo);
        assert(strictly_sorted(c) && c.to_set() == wanted_topics(*meta, *repo));
        sorted_listing_is_unique(texts(v@), c);
    }
    v
}

/// What GitHub reports of a repository: its description and homepage (`None` for `null`), and
/// its topics.
#[derive(Debug, Clone, PartialEq, Eq)]
pub struct RemoteRepo {
    /// `description`.
    pub description: Option<String>,
    /// `homepage`.
    pub homepage: Option<String>,
    /// `topics`.
    pub topics: Vec<String>,
}

/// A text, with none read as empty.
pub open spec fn text_or_empty(d: Option<String>) -> Seq<char> {
    match d {
        Some(s) => s@,
        None => seq![],
    }
}

/// The settings write: `PATCH /repos/<org>/<name>` when description or homepage differ.
pub open spec fn settings_plan(current: RemoteRepo, meta: Meta, repo: Repo) -> Option<WriteView> {
    if text_or_empty(current.description) == description_of(repo) && text_or_empty(
        current.homepage,
    ) == homepage_of(meta, repo) {
        None
    } else {
        Some(
            WriteView {
                method: "PATCH"@,
                path: repo_path(meta, repo),
                body: Some(BodyView::Settings(description_of(repo), homepage_of(meta, repo))),
                what: "description and homepage"@,
            },
        )
    }
}

/// The view of an optional write.
pub open spec fn opt_write_view(w: Option<Write>) -> Option<WriteView> {
    match w {
        Some(w) => Some(w@),
        None => None,
    }
}

/// `PATCH /repos/{org}/{name}` when description or homepage differ.
pub fn plan_settings(current: &RemoteRepo, meta: &Meta, repo: &Repo) -> (r: Option<Write>)
    ensures
        opt_write_view(r) == settings_plan(*current, *meta, *repo),
{
    let want_description = description(repo);
    let want_homepage = homepage(meta, repo);
    let same = description_or_empty(&current.description) == want_description
        && description_or_empty(&current.homepage) == want_homepage;
    if same {
        None
    } else {
        Some(
            Write {
                method: "PATCH",
                path: repo_path_of(meta, repo),
                body: Some(
                    WriteBody::Settings { description: want_description, homepage: want_homepage },
                ),
                what: String::from_str("description and homepage"),
            },
        )
    }
}

/// Whether the string `x` is one of `v`.
fn contains_string(v: &Vec<String>, x: &String) -> (r: bool)
    ensures
        r == texts(v@).contains(x@),
{
    let mut k: usize = 0;
    while k < v.len()
        invariant
            k <= v@.len(),
            forall|j: int| 0 <= j < k ==> texts(v@)[j] != x@,
        decreases v@.len() - k,
    {
        if v[k] == *x {
            assert(texts(v@)[k as int] == x@);
            return true;
        }
        k = k + 1;
    }
    false
}

/// Whether `a` and `b` hold the same strings, ignoring order and repetition.
fn same_strings(a: &Vec<String>, b: &Vec<String>) -> (r: bool)
    ensures
        r == (texts(a@).to_set() == texts(b@).to_set()),
{
    let mut k: usize = 0;
    while k < a.len()
        invariant
            k <= a@.len(),
            forall|j: int| 0 <= j < k ==> texts(b@).contains(#[trigger] texts(a@)[j]),
        decreases a@.len() - k,
    {
        if !contains_string(b, &a[k]) {
            assert(!texts(b@).to_set().contains(texts(a@)[k as int]));
            assert(texts(a@).to_set().contains(texts(a@)[k as int]));
            return false;
        }
        k = k + 1;
    }
    let mut k: usize = 0;
    while k < b.len()
        invariant
            k <= b@.len(),
            forall|j: int| 0 <= j < a@.len() ==> texts(b@).contains(#[trigger] texts(a@)[j]),
            forall|j: int| 0 <= j < k ==> texts(a@).contains(#[trigger] texts(b@)[j]),
        decreases b@.len() - k,
    {
        if !contains_string(a, &b[k]) {
            assert(!texts(a@).to_set().contains(texts(b@)[k as int]));
            assert(texts(b@).to_set().contains(texts(b@)[k as int]));
            return false;
        }
        k = k + 1;
    }
    assert forall|e: Seq<char>| texts(a@).to_set().contains(e) <==> texts(b@).to_set().contains(
        e,
    ) by {
        if texts(a@).contains(e) {
            let w = choose|w: int| 0 <= w < texts(a@).len() && texts(a@)[w] == e;
            assert(texts(b@).contains(texts(a@)[w]));
        }
        if texts(b@).contains(e) {
            let w = choose|w: int| 0 <= w < texts(b@).len() && texts(b@)[w] == e;
            assert(texts(a@).contains(texts(b@)[w]));
        }
    }
    assert(texts(a@).to_set() =~= texts(b@).to_set());
    true
}

/// The topics write: `PUT /repos/<org>/<name>/topics` with the wanted topics when the topic
/// set differs.
pub open spec fn topics_plan(current: RemoteRepo, meta: Meta, repo: Repo) -> Option<
    WriteView,
> {
    if texts(current.topics@).to_set() == wanted_topics(meta, repo) {
        None
    } else {
        Some(
            WriteView {
                method: "PUT"@,
                path: repo_path(meta, repo) + "/topics"@,
                body: Some(BodyView::Topics(sorted_topics(meta, repo))),
                what: "topics"@,
            },
        )
    }
}

/// `PUT /repos/{org}/{name}/topics` when the topic set differs; the body holds the wanted
/// topics, sorted and unique.
pub fn plan_topics(current: &RemoteRepo, meta: &Meta, repo: &Repo) -> (r: Option<Write>)
    ensures
        opt_write_view(r) == topics_plan(*current, *meta, *repo),
{
    let want = topics(meta, repo);
    if same_strings(&current.topics, &want) {
        None
    } else {
        let mut path = repo_path_of(meta, repo);
        path.append("/topics");
        Some(
            Write {
                method: "PUT",
                path,
                body: Some(WriteBody::Topics { names: want }),
                what: String::from_str("topics"),
            },
        )
    }
}

/// Copies a list of strings.
fn copy_strings(v: &Vec<String>) -> (r: Vec<String>)
    ensures
        texts(r@) == texts(v@),
{
    let mut out: Vec<String> = Vec::new();
    let mut k: usize = 0;
    while k < v.len()
        invariant
            k <= v@.len(),
            texts(out@) == texts(v@).take(k as int),
        decreases v@.len() - k,
    {
        let ghost before = texts(out@);
        out.push(v[k].clone());
        assert(texts(out@) =~= before.push(v@[k as int]@));
        assert(texts(v@).take(k + 1) =~= texts(v@).take(k as int).push(v@[k as int]@));
        k = k + 1;
    }
    assert(texts(v@).take(k as int) =~= texts(v@));
    out
}

/// The custom property values the catalog decides, in this order.
pub open spec fn wanted_properties(repo: Repo) -> Seq<(Seq<char>, ValueView)> {
    seq![
        ("ring"@, ValueView::Text(repo.ring@)),
        ("wave"@, ValueView::Text(decimal(repo.wave as nat))),
        ("tier"@, ValueView::Text(TIER@)),
        ("readiness"@, ValueView::Text(READINESS@)),
        ("maintainer_team"@, ValueView::Text("maint-"@ + repo.name@)),
        ("layers"@, ValueView::List(texts(repo.layers@))),
    ]
}

/// The custom property values the catalog decides.
pub fn properties(repo: &Repo) -> (r: Vec<Property>)
    ensures
        properties_view(r@) == wanted_properties(*repo),
{
    let mut v: Vec<Property> = Vec::new();
    v.push(
        Property {
            name: String::from_str("ring"),
            value: PropertyValue::Text(repo.ring.clone()),
        },
    );
    let mut wave = String::new();
    push_decimal(&mut wave, repo.wave as u64);
    v.push(Property { name: String::from_str("wave"), value: PropertyValue::Text(wave) });
    v.push(
        Property {
            name: String::from_str("tier"),
            value: PropertyValue::Text(String::from_str(TIER)),
        },
    );
    v.push(
        Property {
            name: String::from_str("readiness"),
            value: PropertyValue::Text(String::from_str(READINESS)),
        },
    );
    let mut team = String::from_str("maint-");
    team.append(repo.name.as_str());
    v.push(
        Property { name: String::from_str("maintainer_team"), value: PropertyValue::Text(team) },
    );
    v.push(
        Property {
            name: String::from_str("layers"),
            value: PropertyValue::List(copy_strings(&repo.layers)),
        },
    );
    assert(properties_view(v@) =~= wanted_properties(*repo));
    v
}

/// Two property values agree: lists as sets (GitHub stores `multi_select` values sorted),
/// anything else by equality.
pub open spec fn same_value_spec(a: ValueView, b: ValueView) -> bool {
    match (a, b) {
        (ValueView::List(x), ValueView::List(y)) => x.to_set() == y.to_set(),
        _ => a == b,
    }
}

/// Whether two property values agree: lists compare as sets.
pub fn same_value(a: &PropertyValue, b: &PropertyValue) -> (r: bool)
    ensures
        r == same_value_spec(a@, b@),
{
    match (a, b) {
        (PropertyValue::List(x), PropertyValue::List(y)) => same_strings(x, y),
        (PropertyValue::Text(x), PropertyValue::Text(y)) => *x == *y,
        (PropertyValue::Other(x), PropertyValue::Other(y)) => *x == *y,
        _ => false,
    }
}

/// Some property of `current` carries the name of `w` with a value that agrees.
pub open spec fn property_holds(current: Seq<(Seq<char>, ValueView)>, w: (Seq<char>, ValueView)) -> bool {
    exists|j: int|
        0 <= j < current.len() && current[j].0 == w.0 && same_value_spec(current[j].1, w.1)
}

/// Every wanted property holds its value in `current`.
pub open spec fn properties_hold(
    current: Seq<(Seq<char>, ValueView)>,
    wanted: Seq<(Seq<char>, ValueView)>,
) -> bool {
    forall|i: int| 0 <= i < wanted.len() ==> property_holds(current, #[trigger] wanted[i])
}

/// Whether some property of `current` carries the name of `w` with the same value.
fn holds(current: &[Property], w: &Property) -> (r: bool)
    ensures
        r == property_holds(properties_view(current@), w@),
{
    let ghost cur = properties_view(current@);
    let mut j: usize = 0;
    while j < current.len()
        invariant
            cur == properties_view(current@),
            j <= current@.len(),
            forall|m: int|
                0 <= m < j ==> !(cur[m].0 == w@.0 && same_value_spec(#[trigger] cur[m].1, w@.1)),
        decreases current@.len() - j,
    {
        let c = &current[j];
        assert(cur[j as int] == c@);
        if c.name == w.name && same_value(&c.value, &w.value) {
            return true;
        }
        j = j + 1;
    }
    false
}

/// True when every wanted property holds its value; arrays compare as sets (GitHub stores
/// multi_select values sorted).
pub fn properties_satisfied(current: &[Property], wanted: &[Property]) -> (r: bool)
    ensures
        r == properties_hold(properties_view(current@), properties_view(wanted@)),
{
    let ghost cur = properties_view(current@);
    let ghost want = properties_view(wanted@);
    let mut i: usize = 0;
    while i < wanted.len()
        invariant
            cur == properties_view(current@),
            want == properties_view(wanted@),
            i <= wanted@.len(),
            forall|k: int| 0 <= k < i ==> property_holds(cur, #[trigger] want[k]),
        decreases wanted@.len() - i,
    {
        assert(want[i as int] == wanted@[i as int]@);
        if !holds(current, &wanted[i]) {
            return false;
        }
        i = i + 1;
    }
    true
}

/// The properties write: `PATCH /repos/<org>/<name>/properties/values` with every wanted
/// property when one is missing or differs.
pub open spec fn properties_plan(current: Seq<(Seq<char>, ValueView)>, meta: Meta, repo: Repo) -> Option<
    WriteView,
> {
    if properties_hold(current, wanted_properties(repo)) {
        None
    } else {
        Some(
            WriteView {
                method: "PATCH"@,
                path: repo_path(meta, repo) + "/properties/values"@,
                body: Some(BodyView::Properties(wanted_properties(repo))),
                what: "custom properties"@,
            },
        )
    }
}

/// `PATCH /repos/{org}/{name}/properties/values` when a property is missing or differs.
pub fn plan_properties(current: &[Property], meta: &Meta, repo: &Repo) -> (r: Option<Write>)
    ensures
        opt_write_view(r) == properties_plan(properties_view(current@), *meta, *repo),
{
    let want = properties(repo);
    if properties_satisfied(current, want.as_slice()) {
        None
    } else {
        let mut path = repo_path_of(meta, repo);
        path.append("/properties/values");
        Some(
            Write {
                method: "PATCH",
                path,
                body: Some(WriteBody::Properties { properties: want }),
                what: String::from_str("custom properties"),
            },
        )
    }
}

/// What `sync` does or would do.
#[derive(Debug, Default)]
pub struct Options {
    /// Plan only; print the writes instead of sending them.
    pub dry_run: bool,
    /// Repositories worked on at once.
    pub jobs: usize,
    /// Only these repositories (all when empty).
    pub only: Vec<String>,
    /// The label set to converge, when given.
    pub labels: Option<Vec<Label>>,
}

/// The result for one repository.
#[derive(Debug)]
pub struct Outcome {
    /// Repository name.
    pub name: String,
    /// Writes planned (dry run) or applied.
    pub writes: Vec<Write>,
    /// Why the repository did not converge, when it did not.
    pub error: Option<String>,
}

impl Outcome {
    /// The outcome of planning a repository, before any write is sent: the planned writes,
    /// or no write and the reason it could not be planned.
    pub fn planned(name: &str, plan: Result<Vec<Write>, String>) -> (r: Outcome)
        ensures
            r.name@ == name@,
            match plan {
                Ok(w) => r.writes == w && r.error is None,
                Err(e) => r.writes@.len() == 0 && r.error == Some(e),
            },
    {
        match plan {
            Ok(writes) => Outcome { name: String::from_str(name), writes, error: None },
            Err(error) => Outcome {
                name: String::from_str(name),
                writes: Vec::new(),
                error: Some(error),
            },
        }
    }

    /// How many of the planned writes are sent, in order: none in a dry run or when planning
    /// failed, else all of them, stopping at the first that fails (see [`Outcome::failed`]).
    pub fn to_send(&self, dry_run: bool) -> (r: usize)
        ensures
            r == (if dry_run || self.error is Some {
                0
            } else {
                self.writes@.len()
            }),
    {
        if dry_run || self.error.is_some() {
            0
        } else {
            self.writes.len()
        }
    }

    /// Records the failure of a write: the repository did not converge, and no later write
    /// is sent.
    pub fn failed(&mut self, error: String)
        ensures
            final(self).name == old(self).name,
            final(self).writes == old(self).writes,
            final(self).error == Some(error),
    {
        self.error = Some(error);
    }

    /// Records what sending write `k` gave, and says whether to send write `k + 1`: only when
    /// this one went through and there is a next one. A failure is recorded and stops the
    /// sending.
    pub fn sent(&mut self, k: usize, result: Result<(), String>) -> (go_on: bool)
        ensures
            final(self).name == old(self).name,
            final(self).writes == old(self).writes,
            match result {
                Ok(()) => final(self).error == old(self).error && go_on == (k + 1
                    < old(self).writes@.len()),
                Err(e) => final(self).error == Some(e) && !go_on,
            },
    {
        match result {
            Ok(()) => k < self.writes.len() && k + 1 < self.writes.len(),
            Err(e) => {
                self.failed(e);
                false
            },
        }
    }
}

/// The optional write as a sequence of none or one.
pub open spec fn maybe(w: Option<WriteView>) -> Seq<WriteView> {
    match w {
        Some(w) => seq![w],
        None => seq![],
    }
}

/// Why a repository cannot be planned when GitHub does not know it.
pub open spec fn missing_repo_message() -> Seq<char> {
    "does not exist on GitHub — the bootstrap kit creates repositories"@
}

/// Every write one repository needs, in order: settings, topics, properties, then labels when
/// a label set is given (as (wanted, current)).
pub open spec fn repo_plan(
    meta: Meta,
    repo: Repo,
    current: RemoteRepo,
    properties: Seq<(Seq<char>, ValueView)>,
    labels: Option<(Seq<Label>, Seq<Label>)>,
) -> Seq<WriteView> {
    maybe(settings_plan(current, meta, repo)) + maybe(topics_plan(current, meta, repo)) + maybe(
        properties_plan(properties, meta, repo),
    ) + match labels {
        Some((wanted, have)) => label_plan(have, wanted, meta, repo),
        None => seq![],
    }
}

/// A text given or not, by its view.
pub open spec fn body_view(body: Option<&str>) -> Option<Seq<char>> {
    match body {
        Some(t) => Some(t@),
        None => None,
    }
}

/// The member `key` of a repository's JSON, when it is a string.
pub open spec fn string_member(body: Option<Seq<char>>, key: Seq<char>) -> Option<Seq<char>> {
    match body {
        Some(t) => match json_member(t, key) {
            Some(m) => json_text(m),
            None => None,
        },
        None => None,
    }
}

/// The string topics of a repository's JSON; none when `topics` is no array.
pub open spec fn topics_member(body: Option<Seq<char>>) -> Seq<Seq<char>> {
    match body {
        Some(t) => match json_member(t, "topics"@) {
            Some(m) => json_strings(json_items(m)),
            None => seq![],
        },
        None => seq![],
    }
}

/// The member `key` of an optional JSON text, read as a string.
fn string_member_of(body: Option<&str>, key: &str) -> (r: Option<String>)
    ensures
        text_view(r) == string_member(body_view(body), key@),
{
    match body {
        Some(t) => match member(t, key) {
            Some(m) => text_value(m.as_str()),
            None => None,
        },
        None => None,
    }
}

/// What GitHub reports of a repository, read from its JSON (`None` when the reply was empty):
/// description and homepage when they are strings, and the string topics.
pub fn remote_repo(body: Option<&str>) -> (r: RemoteRepo)
    ensures
        text_view(r.description) == string_member(body_view(body), "description"@),
        text_view(r.homepage) == string_member(body_view(body), "homepage"@),
        texts(r.topics@) == topics_member(body_view(body)),
{
    let description = string_member_of(body, "description");
    let homepage = string_member_of(body, "homepage");
    let topics = match body {
        Some(t) => match member(t, "topics") {
            Some(m) => string_items(&array_items(m.as_str())),
            None => Vec::new(),
        },
        None => Vec::new(),
    };
    RemoteRepo { description, homepage, topics }
}

/// A property value read from its JSON text: a string, a list of strings, or else the text.
pub open spec fn value_of(v: Seq<char>) -> ValueView {
    match json_of(v) {
        Ok(JsonView::Text(s)) => ValueView::Text(s),
        Ok(JsonView::Array(items)) => if json_strings(items).len() == items.len() {
            ValueView::List(json_strings(items))
        } else {
            ValueView::Other(v)
        },
        _ => ValueView::Other(v),
    }
}

/// The `value` member of a reported property, `null` when it has none.
pub open spec fn value_member(c: Seq<char>) -> Seq<char> {
    match json_member(c, "value"@) {
        Some(m) => m,
        None => "null"@,
    }
}

/// The properties among the reported entries, in order: those with a string
/// `property_name`, each with its value.
pub open spec fn reported_properties(items: Seq<Seq<char>>) -> Seq<(Seq<char>, ValueView)>
    decreases items.len(),
{
    if items.len() == 0 {
        seq![]
    } else {
        let rest = reported_properties(items.drop_last());
        match json_text_member(items.last(), "property_name"@) {
            Some(name) => rest.push((name, value_of(value_member(items.last())))),
            None => rest,
        }
    }
}

/// The member `key` of the JSON object `c`, when it is a string.
pub open spec fn json_text_member(c: Seq<char>, key: Seq<char>) -> Option<Seq<char>> {
    string_member(Some(c), key)
}

/// One property value, read from its JSON text.
pub fn property_value(v: String) -> (r: PropertyValue)
    ensures
        r@ == value_of(v@),
{
    match parse_json(v.as_str()) {
        Ok(Json::Text(s)) => PropertyValue::Text(s),
        Ok(Json::Array(items)) => {
            let strings = string_items(&items);
            if strings.len() == items.len() {
                PropertyValue::List(strings)
            } else {
                PropertyValue::Other(v)
            }
        },
        _ => PropertyValue::Other(v),
    }
}

/// The custom property values GitHub reports, read from the JSON array of entries (`None`
/// when there was none); an entry without a string `property_name` matches no wanted
/// property and is left out.
pub fn properties_of(body: Option<&str>) -> (r: Vec<Property>)
    ensures
        properties_view(r@) == reported_properties(
            match body {
                Some(t) => json_items(t@),
                None => seq![],
            },
        ),
{
    let items = match body {
        Some(t) => array_items(t),
        None => Vec::new(),
    };
    let ghost all = texts(items@);
    let mut out: Vec<Property> = Vec::new();
    let mut k: usize = 0;
    while k < items.len()
        invariant
            k <= items@.len(),
            all == texts(items@),
            properties_view(out@) == reported_properties(all.take(k as int)),
        decreases items@.len() - k,
    {
        let ghost before = properties_view(out@);
        let ghost pre = all.take(k + 1);
        assert(pre.drop_last() =~= all.take(k as int));
        assert(pre.last() == items@[k as int]@);
        let c = items[k].as_str();
        match string_member_of(Some(c), "property_name") {
            Some(name) => {
                let v = match member(c, "value") {
                    Some(m) => m,
                    None => String::from_str("null"),
                };
                let value = property_value(v);
                out.push(Property { name, value });
                assert(properties_view(out@) =~= before.push((name@, value@)));
            },
            None => {},
        }
        k = k + 1;
    }
    assert(all.take(k as int) =~= all);
    out
}

fn push_maybe(writes: &mut Vec<Write>, w: Option<Write>)
    ensures
        writes_view(final(writes)@) == writes_view(old(writes)@) + maybe(opt_write_view(w)),
{
    match w {
        Some(w) => {
            writes.push(w);
            assert(writes_view(writes@) =~= writes_view(old(writes)@) + maybe(
                opt_write_view(Some(w)),
            ));
        },
        None => {
            assert(writes_view(writes@) =~= writes_view(old(writes)@) + maybe(None));
        },
    }
}

/// Plans one repository from what was read of it: `current` is `None` when GitHub answered
/// 404; `properties` are its custom property values; `labels` holds the wanted label set and
/// the labels it has, when a label set is given.
pub fn plan_repo(
    meta: &Meta,
    repo: &Repo,
    current: Option<&RemoteRepo>,
    properties: &[Property],
    labels: Option<(&[Label], &[Label])>,
) -> (r: Result<Vec<Write>, String>)
    ensures
        match current {
            None => r matches Err(m) && m@ == missing_repo_message(),
            Some(c) => r matches Ok(w) && writes_view(w@) == repo_plan(
                *meta,
                *repo,
                *c,
                properties_view(properties@),
                match labels {
                    Some((wanted, have)) => Some((wanted@, have@)),
                    None => None,
                },
            ),
        },
{
    let current = match current {
        None => {
            return Err(
                String::from_str(
                    "does not exist on GitHub — the bootstrap kit creates repositories",
                ),
            );
        },
        Some(c) => c,
    };
    let mut writes: Vec<Write> = Vec::new();
    assert(writes_view(writes@) =~= Seq::<WriteView>::empty());
    push_maybe(&mut writes, plan_settings(current, meta, repo));
    push_maybe(&mut writes, plan_topics(current, meta, repo));
    push_maybe(&mut writes, plan_properties(properties, meta, repo));
    let ghost before = writes_view(writes@);
    match labels {
        Some((wanted, have)) => {
            let mut planned = plan_labels(have, wanted, meta, repo);
            let ghost p = planned@;
            writes.append(&mut planned);
            assert(writes_view(writes@) =~= before + writes_view(p));
        },
        None => {},
    }
    Ok(writes)
}

/// A repository is synced: it is not `.github`, and `only` is empty or names it.
pub open spec fn is_target(only: Seq<Seq<char>>, repo: Repo) -> bool {
    repo.name@ != DOTGITHUB@ && (only.len() == 0 || only.contains(repo.name@))
}

/// Every catalog repository except `.github`, restricted to `only` when it names any, in
/// catalog order.
pub fn targets<'a>(cat: &'a Catalog, only: &Vec<String>) -> (r: Vec<&'a Repo>)
    ensures
        r@.map_values(|x: &Repo| *x) == cat.repo@.filter(|x: Repo| is_target(texts(only@), x)),
{
    let ghost pred = |x: Repo| is_target(texts(only@), x);
    let ghost repos = cat.repo@;
    let dot = chars_of(DOTGITHUB);
    let mut out: Vec<&'a Repo> = Vec::new();
    let mut i: usize = 0;
    while i < cat.repo.len()
        invariant
            repos == cat.repo@,
            pred == (|x: Repo| is_target(texts(only@), x)),
            dot@ == DOTGITHUB@,
            i <= repos.len(),
            out@.map_values(|x: &Repo| *x) == repos.take(i as int).filter(pred),
        decreases repos.len() - i,
    {
        reveal_with_fuel(Seq::<_>::filter, 1);
        assert(repos.take(i + 1).drop_last() =~= repos.take(i as int));
        assert(repos.take(i + 1).last() == repos[i as int]);
        let ghost before = out@;
        let repo = &cat.repo[i];
        let keep = !chars_eq(chars_of(repo.name.as_str()).as_slice(), dot.as_slice()) && (
        only.len() == 0 || contains_string(only, &repo.name));
        assert(keep == pred(repos[i as int]));
        if keep {
            out.push(repo);
            assert(out@.map_values(|x: &Repo| *x) =~= before.map_values(|x: &Repo| *x).push(
                *repo,
            ));
        }
        assert(out@.map_values(|x: &Repo| *x) =~= repos.take(i + 1).filter(pred));
        i = i + 1;
    }
    assert(repos.take(i as int) =~= repos);
    out
}

/// The line printed for a planned write in a dry run: `  $ <method> <path> — <what>`.
pub open spec fn write_line(w: Write) -> (bool, Seq<char>) {
    (false, "  $ "@ + w.method@ + " "@ + w.path@ + " — "@ + w.what@)
}

/// The dry-run lines of the first `n` writes.
pub open spec fn write_lines(ws: Seq<Write>, n: nat) -> Seq<(bool, Seq<char>)>
    decreases n,
{
    if n == 0 {
        seq![]
    } else {
        write_lines(ws, (n - 1) as nat).push(write_line(ws[n - 1]))
    }
}

/// The status line of one repository; `true` marks a line for the error stream.
pub open spec fn status_line(o: Outcome, dry_run: bool) -> (bool, Seq<char>) {
    match o.error {
        Some(e) => (true, "  ✗ "@ + o.name@ + ": "@ + e@),
        None => if o.writes@.len() == 0 {
            (false, "  · "@ + o.name@ + " (up to date)"@)
        } else if dry_run {
            (false, "  → "@ + o.name@ + " ("@ + decimal(o.writes@.len()) + " writes planned)"@)
        } else {
            (false, "  ✓ "@ + o.name@ + " ("@ + decimal(o.writes@.len()) + " changes)"@)
        },
    }
}

/// The lines of one repository: its writes in a dry run, then its status.
pub open spec fn outcome_lines(o: Outcome, dry_run: bool) -> Seq<(bool, Seq<char>)> {
    (if dry_run {
        write_lines(o.writes@, o.writes@.len())
    } else {
        seq![]
    }).push(status_line(o, dry_run))
}

/// The lines of the first `n` outcomes, with the number of writes and of failures among them.
pub open spec fn outcomes_lines(os: Seq<Outcome>, dry_run: bool, n: nat) -> (
    Seq<(bool, Seq<char>)>,
    nat,
    nat,
)
    decreases n,
{
    if n == 0 {
        (seq![], 0, 0)
    } else {
        let (lines, writes, failures) = outcomes_lines(os, dry_run, (n - 1) as nat);
        let o = os[n - 1];
        (
            lines + outcome_lines(o, dry_run),
            writes + o.writes@.len(),
            failures + if o.error is Some {
                1nat
            } else {
                0nat
            },
        )
    }
}

/// The closing line: how many repositories, writes and failures.
pub open spec fn totals_line(repos: nat, writes: nat, failures: nat, dry_run: bool) -> (
    bool,
    Seq<char>,
) {
    (
        false,
        "  "@ + decimal(repos) + " repositories, "@ + decimal(writes) + " writes"@ + (if dry_run {
            " planned"@
        } else {
            seq![]
        }) + ", "@ + decimal(failures) + " failures"@,
    )
}

/// The lines `sync` prints for its outcomes (each marked `true` when it goes to the error
/// stream), and whether every repository converged.
pub fn summary(outcomes: &[Outcome], dry_run: bool) -> (r: (Vec<(bool, String)>, bool))
    requires
        outcomes_lines(outcomes@, dry_run, outcomes@.len()).1 <= u64::MAX,
    ensures
        ({
            let (lines, writes, failures) = outcomes_lines(outcomes@, dry_run, outcomes@.len());
            &&& r.0@.map_values(|l: (bool, String)| (l.0, l.1@)) == lines.push(
                totals_line(outcomes@.len(), writes, failures, dry_run),
            )
            &&& r.1 == (failures == 0)
        }),
{
    let mut lines: Vec<(bool, String)> = Vec::new();
    let mut writes: u64 = 0;
    let mut failures: u64 = 0;
    let mut i: usize = 0;
    assert(lines@.map_values(|l: (bool, String)| (l.0, l.1@)) =~= Seq::<(bool, Seq<char>)>::empty());
    while i < outcomes.len()
        invariant
            i <= outcomes@.len(),
            outcomes_lines(outcomes@, dry_run, outcomes@.len()).1 <= u64::MAX,
            lines@.map_values(|l: (bool, String)| (l.0, l.1@)) == outcomes_lines(outcomes@, dry_run, i as nat).0,
            writes == outcomes_lines(outcomes@, dry_run, i as nat).1,
            failures == outcomes_lines(outcomes@, dry_run, i as nat).2,
            failures <= i,
        decreases outcomes@.len() - i,
    {
        let o = &outcomes[i];
        proof {
            lemma_writes_grow(outcomes@, dry_run, (i + 1) as nat, outcomes@.len());
        }
        let ghost start = lines@.map_values(|l: (bool, String)| (l.0, l.1@));
        writes = writes + o.writes.len() as u64;
        if dry_run {
            let mut k: usize = 0;
            while k < o.writes.len()
                invariant
                    k <= o.writes@.len(),
                    dry_run,
                    lines@.map_values(|l: (bool, String)| (l.0, l.1@)) == start + write_lines(o.writes@, k as nat),
                decreases o.writes@.len() - k,
            {
                let w = &o.writes[k];
                let mut t = String::from_str("  $ ");
                t.append(w.method);
                t.append(" ");
                t.append(w.path.as_str());
                t.append(" — ");
                t.append(w.what.as_str());
                let ghost before = lines@.map_values(|l: (bool, String)| (l.0, l.1@));
                lines.push((false, t));
                assert(lines@.map_values(|l: (bool, String)| (l.0, l.1@)) =~= before.push(write_line(*w)));
                k = k + 1;
            }
        }
        let ghost mid = lines@.map_values(|l: (bool, String)| (l.0, l.1@));
        let line = match &o.error {
            Some(e) => {
                failures = failures + 1;
                let mut t = String::from_str("  ✗ ");
                t.append(o.name.as_str());
                t.append(": ");
                t.append(e.as_str());
                (true, t)
            },
            None => {
                let n = o.writes.len();
                if n == 0 {
                    let mut t = String::from_str("  · ");
                    t.append(o.name.as_str());
                    t.append(" (up to date)");
                    (false, t)
                } else if dry_run {
                    let mut t = String::from_str("  → ");
                    t.append(o.name.as_str());
                    t.append(" (");
                    push_decimal(&mut t, n as u64);
                    t.append(" writes planned)");
                    (false, t)
                } else {
                    let mut t = String::from_str("  ✓ ");
                    t.append(o.name.as_str());
                    t.append(" (");
                    push_decimal(&mut t, n as u64);
                    t.append(" changes)");
                    (false, t)
                }
            },
        };
        lines.push(line);
        assert(lines@.map_values(|l: (bool, String)| (l.0, l.1@)) =~= mid.push(status_line(*o, dry_run)));
        assert(lines@.map_values(|l: (bool, String)| (l.0, l.1@)) =~= outcomes_lines(
            outcomes@,
            dry_run,
            (i + 1) as nat,
        ).0);
        i = i + 1;
    }
    let mut t = String::from_str("  ");
    push_decimal(&mut t, outcomes.len() as u64);
    t.append(" repositories, ");
    push_decimal(&mut t, writes);
    t.append(" writes");
    if dry_run {
        t.append(" planned");
    }
    t.append(", ");
    push_decimal(&mut t, failures);
    t.append(" failures");
    let ghost before = lines@.map_values(|l: (bool, String)| (l.0, l.1@));
    lines.push((false, t));
    assert(lines@.map_values(|l: (bool, String)| (l.0, l.1@)) =~= before.push(
        totals_line(outcomes@.len(), writes as nat, failures as nat, dry_run),
    ));
    (lines, failures == 0)
}

proof fn lemma_writes_grow(os: Seq<Outcome>, dry_run: bool, n: nat, m: nat)
    requires
        n <= m <= os.len(),
    ensures
        outcomes_lines(os, dry_run, n).1 <= outcomes_lines(os, dry_run, m).1,
    decreases m - n,
{
    if n < m {
        lemma_writes_grow(os, dry_run, n, (m - 1) as nat);
    }
}

/// `same_as` is an equivalence: every label is the same as itself, in both directions, and
/// through a third.
pub proof fn same_label_is_an_equivalence(a: Label, b: Label, c: Label)
    ensures
        same_label(a, a),
        same_label(a, b) ==> same_label(b, a),
        same_label(a, b) && same_label(b, c) ==> same_label(a, c),
{
}

/// A description never exceeds GitHub's cap, and a full one that fits is kept whole.
pub proof fn description_fits_the_cap(repo: Repo)
    ensures
        description_of(repo).len() <= DESCRIPTION_MAX,
        description_full(repo).len() <= DESCRIPTION_MAX ==> description_of(repo) == description_full(
            repo,
        ),
        description_of(repo) == description_full(repo).take(description_of(repo).len() as int),
{
    assert(description_full(repo).take(description_full(repo).len() as int) =~= description_full(
        repo,
    ));
}

/// Every wanted label is on GitHub as the set has it: the first current label of its name is
/// the same, colour compared without case or leading `#`s.
pub open spec fn labels_in_place(have: Seq<Label>, wanted: Seq<Label>) -> bool {
    forall|i: int|
        #![trigger wanted[i]]
        0 <= i < wanted.len() ==> exists|k: int|
            first_named(have, wanted[i].name@, k) && same_label(have[k], wanted[i])
}

/// No GitHub default label is on GitHub that the set does not name.
pub open spec fn no_stray_defaults(have: Seq<Label>, wanted: Seq<Label>) -> bool {
    forall|k: int|
        #![trigger have[k]]
        0 <= k < have.len() && default_labels().contains(have[k].name@) ==> has_label_named(
            wanted,
            have[k].name@,
        )
}

/// GitHub already holds what the catalog decides for a repository: its description and
/// homepage, its topic set, and every wanted custom property (other properties, their order,
/// and the order and repetition of list items aside).
pub open spec fn repository_converged(
    current: RemoteRepo,
    properties: Seq<(Seq<char>, ValueView)>,
    meta: Meta,
    repo: Repo,
) -> bool {
    &&& text_or_empty(current.description) == description_of(repo)
    &&& text_or_empty(current.homepage) == homepage_of(meta, repo)
    &&& texts(current.topics@).to_set() == wanted_topics(meta, repo)
    &&& properties_hold(properties, wanted_properties(repo))
}

proof fn lemma_deletions_empty(have: Seq<Label>, wanted: Seq<Label>, base: Seq<char>, n: nat)
    requires
        n <= have.len(),
    ensures
        label_deletions(have, wanted, base, n).len() == 0 <==> forall|k: int|
            #![trigger have[k]]
            0 <= k < n && default_labels().contains(have[k].name@) ==> has_label_named(
                wanted,
                have[k].name@,
            ),
    decreases n,
{
    if n > 0 {
        lemma_deletions_empty(have, wanted, base, (n - 1) as nat);
        let label = have[n - 1];
        if label_deletions(have, wanted, base, n).len() == 0 {
            assert forall|k: int|
                #![trigger have[k]]
                0 <= k < n && default_labels().contains(have[k].name@) implies has_label_named(
                wanted,
                have[k].name@,
            ) by {
                if k < n - 1 {
                } else {
                    assert(k == n - 1);
                }
            }
        }
    }
}

proof fn lemma_upserts_empty(have: Seq<Label>, wanted: Seq<Label>, base: Seq<char>, n: nat)
    requires
        n <= wanted.len(),
    ensures
        label_upserts(have, wanted, base, n).len() == 0 <==> forall|i: int|
            #![trigger wanted[i]]
            0 <= i < n ==> exists|k: int|
                first_named(have, wanted[i].name@, k) && same_label(have[k], wanted[i]),
    decreases n,
{
    if n > 0 {
        lemma_upserts_empty(have, wanted, base, (n - 1) as nat);
        let want = wanted[n - 1];
        let placed = exists|k: int| first_named(have, want.name@, k) && same_label(have[k], want);
        if placed {
            let k = choose|k: int| first_named(have, want.name@, k) && same_label(have[k], want);
            lemma_first_named_unique(have, want.name@, k);
            assert(label_upsert(have, want, base).len() == 0);
        } else {
            if exists|k: int| first_named(have, want.name@, k) {
                let k = choose|k: int| first_named(have, want.name@, k);
                assert(!same_label(have[k], want));
            }
            assert(label_upsert(have, want, base).len() == 1);
        }
        if label_upserts(have, wanted, base, n).len() == 0 {
            assert forall|i: int|
                #![trigger wanted[i]]
                0 <= i < n implies exists|k: int|
                first_named(have, wanted[i].name@, k) && same_label(have[k], wanted[i]) by {
                if i < n - 1 {
                } else {
                    assert(i == n - 1);
                }
            }
        }
    }
}

/// A repository plans no write exactly when it has converged: GitHub holds what the catalog
/// decides, every wanted label is in place, and no unused GitHub default label is left.
/// Labels in another order, colours that differ only in case or a leading `#`, and labels the
/// set does not know count as converged; so `sync` on a converged organization only reads.
pub proof fn plans_nothing_exactly_when_converged(
    meta: Meta,
    repo: Repo,
    current: RemoteRepo,
    properties: Seq<(Seq<char>, ValueView)>,
    wanted: Seq<Label>,
    have: Seq<Label>,
)
    ensures
        repo_plan(meta, repo, current, properties, Some((wanted, have))).len() == 0 <==> (
        repository_converged(current, properties, meta, repo) && labels_in_place(have, wanted)
            && no_stray_defaults(have, wanted)),
        repo_plan(meta, repo, current, properties, None).len() == 0 <==> repository_converged(
            current,
            properties,
            meta,
            repo,
        ),
{
    let base = repo_path(meta, repo) + "/labels"@;
    lemma_deletions_empty(have, wanted, base, have.len());
    lemma_upserts_empty(have, wanted, base, wanted.len());
}

proof fn lemma_label_path_injective(base: Seq<char>, a: Seq<char>, b: Seq<char>)
    requires
        label_path(base, a) == label_path(base, b),
    ensures
        a == b,
{
    let pre = base + "/"@;
    let ea = percent_encode(encode_utf8(a));
    let eb = percent_encode(encode_utf8(b));
    assert((pre + ea).skip(pre.len() as int) =~= ea);
    assert((pre + eb).skip(pre.len() as int) =~= eb);
    assert(label_path(base, a) =~= pre + ea);
    assert(label_path(base, b) =~= pre + eb);
    crate::gh::segment_decodes_to_its_bytes(encode_utf8(a));
    crate::gh::segment_decodes_to_its_bytes(encode_utf8(b));
    vstd::utf8::encode_utf8_decode_utf8(a);
    vstd::utf8::encode_utf8_decode_utf8(b);
}

proof fn lemma_deletions_spare(
    current: Seq<Label>,
    wanted: Seq<Label>,
    base: Seq<char>,
    n: nat,
    name: Seq<char>,
)
    requires
        n <= current.len(),
        !default_labels().contains(name),
    ensures
        forall|i: int|
            0 <= i < label_deletions(current, wanted, base, n).len() ==> (#[trigger] label_deletions(
                current,
                wanted,
                base,
                n,
            )[i]).path != label_path(base, name),
    decreases n,
{
    if n > 0 {
        lemma_deletions_spare(current, wanted, base, (n - 1) as nat, name);
        let label = current[n - 1];
        if default_labels().contains(label.name@) && label_path(base, label.name@) == label_path(
            base,
            name,
        ) {
            lemma_label_path_injective(base, label.name@, name);
        }
    }
}

proof fn lemma_upserts_spare(
    current: Seq<Label>,
    wanted: Seq<Label>,
    base: Seq<char>,
    n: nat,
    name: Seq<char>,
)
    requires
        n <= wanted.len(),
        !has_label_named(wanted, name),
    ensures
        forall|i: int|
            0 <= i < label_upserts(current, wanted, base, n).len() ==> (#[trigger] label_upserts(
                current,
                wanted,
                base,
                n,
            )[i]).path != label_path(base, name),
    decreases n,
{
    if n > 0 {
        lemma_upserts_spare(current, wanted, base, (n - 1) as nat, name);
        let want = wanted[n - 1];
        assert(want.name@ != name);
        if label_path(base, want.name@) == label_path(base, name) {
            lemma_label_path_injective(base, want.name@, name);
        }
        reveal_strlit("/");
        assert(base.len() < label_path(base, name).len());
    }
}

/// Labels the set does not know are left alone: no planned write addresses a label that is
/// neither one of GitHub's defaults nor named in the wanted set.
pub proof fn unknown_labels_are_left_alone(
    current: Seq<Label>,
    wanted: Seq<Label>,
    meta: Meta,
    repo: Repo,
    name: Seq<char>,
)
    requires
        !default_labels().contains(name),
        !has_label_named(wanted, name),
    ensures
        forall|i: int|
            0 <= i < label_plan(current, wanted, meta, repo).len() ==> (#[trigger] label_plan(
                current,
                wanted,
                meta,
                repo,
            )[i]).path != label_path(repo_path(meta, repo) + "/labels"@, name),
{
    let base = repo_path(meta, repo) + "/labels"@;
    lemma_deletions_spare(current, wanted, base, current.len(), name);
    lemma_upserts_spare(current, wanted, base, wanted.len(), name);
    let d = label_deletions(current, wanted, base, current.len());
    let u = label_upserts(current, wanted, base, wanted.len());
    assert forall|i: int| 0 <= i < (d + u).len() implies (#[trigger] (d + u)[i]).path != label_path(
        base,
        name,
    ) by {
        if i < d.len() {
            assert((d + u)[i] == d[i]);
        } else {
            assert((d + u)[i] == u[i - d.len()]);
        }
    }
}

/// Labels that differ in description (none read as empty) are not the same label, whatever
/// their name and colour.
pub proof fn labels_with_other_descriptions_differ(a: Label, b: Label)
    requires
        text_or_empty(a.description) != text_or_empty(b.description),
    ensures
        !same_label(a, b),
{
}

proof fn lemma_upserts_hold(current: Seq<Label>, wanted: Seq<Label>, base: Seq<char>, n: nat, i: int)
    requires
        0 <= i < n <= wanted.len(),
    ensures
        forall|w: WriteView|
            label_upsert(current, wanted[i], base).contains(w) ==> #[trigger] label_upserts(
                current,
                wanted,
                base,
                n,
            ).contains(w),
    decreases n,
{
    let m = (n - 1) as nat;
    let before = label_upserts(current, wanted, base, m);
    let last = label_upsert(current, wanted[m as int], base);
    assert(label_upserts(current, wanted, base, n) == before + last);
    assert forall|w: WriteView|
        label_upsert(current, wanted[i], base).contains(w) implies #[trigger] label_upserts(
        current,
        wanted,
        base,
        n,
    ).contains(w) by {
        if i == m {
            let k = choose|k: int| 0 <= k < last.len() && last[k] == w;
            assert((before + last)[before.len() + k] == w);
        } else {
            lemma_upserts_hold(current, wanted, base, m, i);
            assert(before.contains(w));
            let k = choose|k: int| 0 <= k < before.len() && before[k] == w;
            assert((before + last)[k] == w);
        }
    }
}

/// A wanted label whose first namesake on GitHub has another description, or another colour
/// up to `#` and case, is updated: the plan holds `PATCH <repo>/labels/<name>` with the
/// wanted name, colour and description.
pub proof fn a_label_differing_on_github_is_updated(
    have: Seq<Label>,
    wanted: Seq<Label>,
    meta: Meta,
    repo: Repo,
    i: int,
    k: int,
)
    requires
        0 <= i < wanted.len(),
        first_named(have, wanted[i].name@, k),
        text_or_empty(have[k].description) != text_or_empty(wanted[i].description)
            || color_key(have[k].color@) != color_key(wanted[i].color@),
    ensures
        label_plan(have, wanted, meta, repo).contains(
            WriteView {
                method: "PATCH"@,
                path: repo_path(meta, repo) + "/labels"@ + "/"@ + percent_encode(
                    encode_utf8(wanted[i].name@),
                ),
                body: Some(
                    BodyView::Label(
                        wanted[i].name@,
                        color_key(wanted[i].color@),
                        text_or_empty(wanted[i].description),
                    ),
                ),
                what: "update label "@ + wanted[i].name@,
            },
        ),
{
    let base = repo_path(meta, repo) + "/labels"@;
    let want = wanted[i];
    lemma_first_named_unique(have, want.name@, k);
    assert(!same_label(have[k], want));
    let w = label_upsert(have, want, base)[0];
    assert(label_upsert(have, want, base).contains(w));
    lemma_upserts_hold(have, wanted, base, wanted.len(), i);
    let dels = label_deletions(have, wanted, base, have.len());
    let ups = label_upserts(have, wanted, base, wanted.len());
    assert(ups.contains(w));
    let j = choose|j: int| 0 <= j < ups.len() && ups[j] == w;
    assert((dels + ups)[dels.len() + j] == w);
}

/// When the topics are written, the names sent are the wanted topics in sort order, each
/// once: the organization, `rust`, the ring, the wave and every layer, whatever GitHub held.
pub proof fn topics_are_written_as_the_wanted_set(current: RemoteRepo, meta: Meta, repo: Repo)
    ensures
        topics_plan(current, meta, repo) matches Some(w) ==> {
            &&& w.method == "PUT"@
            &&& w.path == "/repos/"@ + meta.org@ + "/"@ + repo.name@ + "/topics"@
            &&& forall|names: Seq<Seq<char>>|
                strictly_sorted(names) && names.to_set() == wanted_topics(meta, repo) ==> w.body
                    == Some(BodyView::Topics(names))
        },
{
    if topics_plan(current, meta, repo) is Some {
        assert forall|names: Seq<Seq<char>>|
            strictly_sorted(names) && names.to_set() == wanted_topics(
                meta,
                repo,
            ) implies sorted_topics(meta, repo) == names by {
            let s = sorted_topics(meta, repo);
            assert(strictly_sorted(s) && s.to_set() == wanted_topics(meta, repo));
            sorted_listing_is_unique(s, names);
        }
    }
}

/// The wanted topics name the organization, `rust`, `ring-<ring>`, `wave-<wave>` and
/// `layer-<layer>` for every layer in lower case, and nothing else.
pub proof fn wanted_topics_are_the_catalog_facts(meta: Meta, repo: Repo, t: Seq<char>)
    ensures
        wanted_topics(meta, repo).contains(t) <==> (t == meta.org@ || t == "rust"@ || t
            == "ring-"@ + repo.ring@ || t == "wave-"@ + decimal(repo.wave as nat) || exists|j: int|
            0 <= j < repo.layers@.len() && t == "layer-"@ + ascii_lower(
                #[trigger] repo.layers@[j]@,
            )),
{
}

/// The maintainer team a repository is given is `maint-` followed by its own name: one
/// `maintainer_team` property, and two repositories with different names get different teams.
pub proof fn the_maintainer_team_is_named_after_the_repository(repo: Repo)
    ensures
        exists|i: int|
            0 <= i < wanted_properties(repo).len() && #[trigger] wanted_properties(repo)[i] == (
                "maintainer_team"@,
                ValueView::Text("maint-"@ + repo.name@),
            ),
        forall|i: int|
            0 <= i < wanted_properties(repo).len() && #[trigger] wanted_properties(repo)[i].0
                == "maintainer_team"@ ==> wanted_properties(repo)[i].1 == ValueView::Text(
                "maint-"@ + repo.name@,
            ),
{
    reveal_strlit("maintainer_team");
    reveal_strlit("ring");
    reveal_strlit("wave");
    reveal_strlit("tier");
    reveal_strlit("readiness");
    reveal_strlit("layers");
    let w = wanted_properties(repo);
    assert(w[4] == ("maintainer_team"@, ValueView::Text("maint-"@ + repo.name@)));
    assert forall|i: int| 0 <= i < w.len() && #[trigger] w[i].0 == "maintainer_team"@ implies w[i].1
        == ValueView::Text("maint-"@ + repo.name@) by {
        if i == 0 {
            assert(w[0].0.len() != "maintainer_team"@.len());
        } else if i == 1 {
            assert(w[1].0.len() != "maintainer_team"@.len());
        } else if i == 2 {
            assert(w[2].0.len() != "maintainer_team"@.len());
        } else if i == 3 {
            assert(w[3].0.len() != "maintainer_team"@.len());
        } else if i == 5 {
            assert(w[5].0.len() != "maintainer_team"@.len());
        }
    }
}

/// The ring, wave and layers properties carry the repository's own ring, its wave in
/// decimal, and its layers in catalog order.
pub proof fn the_ring_wave_and_layers_properties_are_the_repository_s(repo: Repo)
    ensures
        exists|i: int|
            0 <= i < wanted_properties(repo).len() && #[trigger] wanted_properties(repo)[i] == (
                "ring"@,
                ValueView::Text(repo.ring@),
            ),
        exists|i: int|
            0 <= i < wanted_properties(repo).len() && #[trigger] wanted_properties(repo)[i] == (
                "wave"@,
                ValueView::Text(decimal(repo.wave as nat)),
            ),
        exists|i: int|
            0 <= i < wanted_properties(repo).len() && #[trigger] wanted_properties(repo)[i] == (
                "layers"@,
                ValueView::List(repo.layers@.map_values(|l: String| l@)),
            ),
{
    let w = wanted_properties(repo);
    assert(w[0] == ("ring"@, ValueView::Text(repo.ring@)));
    assert(w[1] == ("wave"@, ValueView::Text(decimal(repo.wave as nat))));
    assert(texts(repo.layers@) =~= repo.layers@.map_values(|l: String| l@));
    assert(w[5] == ("layers"@, ValueView::List(repo.layers@.map_values(|l: String| l@))));
}

} // verus!








