//! The Mod record type and its field mapper.
//!
//! A record type is a named shape with a fixed, ordered list of fields; the
//! mapper is the single place that shape is known.  `convert_to_field_map`
//! folds a record into the flat field-name/payload list that a field-bag
//! stores, and `from_field_map` unfolds it again.  Scalar fields are stored
//! directly ("N/A" stands for an absent value); the dependency and tag lists
//! go through the serialization capability; the item type is stored as one
//! of two lowercase tokens, and unrecognized tokens read back as the default
//! variant.

use vstd::prelude::*;
use crate::GlassError;
use crate::codec::decode_dep_list;
use crate::codec::decode_tag_list;
use crate::codec::deps_json_of;
use crate::codec::deps_json_parse;
use crate::codec::encode_dep_list;
use crate::codec::encode_tag_list;
use crate::codec::tags_json_of;
use crate::codec::tags_json_parse;
use crate::ident::Id;
use crate::ident::spec_hyphenated_of;
use crate::ident::spec_parse_id;
use crate::ident::lemma_hyphenated_round_trip;

verus! {

/// The classification of a stored item.
#[derive(Clone, Copy, Debug, PartialEq, Eq, Structural)]
pub enum ModType {
    Mod,
    Library,
}

impl Default for ModType {
    /// The default classification, also the fallback for unrecognized
    /// tokens.
    fn default() -> (r: Self)
        ensures
            r == ModType::Mod,
    {
        ModType::Mod
    }
}

/// One dependency of a mod.
#[derive(Clone, Debug, PartialEq, Eq)]
pub struct ModDependency {
    pub name: String,
    pub summary: String,
    pub version: String,
}

/// The mathematical value of a `ModDependency`.
#[verifier::ext_equal]
pub struct DepModel {
    pub name: Seq<char>,
    pub summary: Seq<char>,
    pub version: Seq<char>,
}

impl View for ModDependency {
    type V = DepModel;

    open spec fn view(&self) -> DepModel {
        DepModel { name: self.name@, summary: self.summary@, version: self.version@ }
    }
}

/// The Mod record: every scalar field is optional, the dependency and tag
/// lists are optional structurally-complex fields.
#[derive(Clone, Debug, PartialEq)]
pub struct Mod {
    pub name: Option<String>,
    pub author: Option<String>,
    pub img_url: Option<String>,
    pub summary: Option<String>,
    pub description: Option<String>,
    pub version: Option<String>,
    pub item_type: ModType,
    pub dependencies: Option<Vec<(Id, ModDependency)>>,
    pub tags: Option<Vec<String>>,
}

/// The mathematical value of a `Mod`.
#[verifier::ext_equal]
pub struct ModModel {
    pub name: Option<Seq<char>>,
    pub author: Option<Seq<char>>,
    pub img_url: Option<Seq<char>>,
    pub summary: Option<Seq<char>>,
    pub description: Option<Seq<char>>,
    pub version: Option<Seq<char>>,
    pub item_type: ModType,
    pub dependencies: Option<Seq<(Id, DepModel)>>,
    pub tags: Option<Seq<Seq<char>>>,
}

impl View for Mod {
    type V = ModModel;

    open spec fn view(&self) -> ModModel {
        ModModel {
            name: self.name.deep_view(),
            author: self.author.deep_view(),
            img_url: self.img_url.deep_view(),
            summary: self.summary.deep_view(),
            description: self.description.deep_view(),
            version: self.version.deep_view(),
            item_type: self.item_type,
            dependencies: match self.dependencies {
                Some(v) => Some(Seq::new(v@.len(), |i: int| (v@[i].0, v@[i].1@))),
                None => None,
            },
            tags: self.tags.deep_view(),
        }
    }
}

/// The model of a record with no field set.
pub open spec fn empty_model() -> ModModel {
    ModModel {
        name: None,
        author: None,
        img_url: None,
        summary: None,
        description: None,
        version: None,
        item_type: ModType::Mod,
        dependencies: None,
        tags: None,
    }
}

/// Whether every optional field of a model is present.
pub open spec fn all_present(m: ModModel) -> bool {
    &&& m.name is Some
    &&& m.author is Some
    &&& m.img_url is Some
    &&& m.summary is Some
    &&& m.description is Some
    &&& m.version is Some
    &&& m.dependencies is Some
    &&& m.tags is Some
}

/// How an optional scalar is written into a field-bag: the value itself, or
/// "N/A" when absent.
pub open spec fn collapse(o: Option<Seq<char>>) -> Seq<char> {
    match o {
        Some(s) => s,
        None => "N/A"@,
    }
}

/// The token a classification is stored as.
pub open spec fn spec_type_token(t: ModType) -> Seq<char> {
    match t {
        ModType::Mod => "mod"@,
        ModType::Library => "lib"@,
    }
}

/// The classification a token reads back as; unrecognized tokens fall back
/// to the default variant.
pub open spec fn spec_string_to_type(s: Seq<char>) -> ModType {
    if s == "mod"@ {
        ModType::Mod
    } else if s == "lib"@ {
        ModType::Library
    } else {
        ModType::Mod
    }
}

/// One dependency reduced to the plain values handed to the serialization
/// capability.
pub open spec fn dep_plain(d: (Id, DepModel)) -> (Seq<char>, (Seq<char>, Seq<char>, Seq<char>)) {
    (spec_hyphenated_of(d.0.value), (d.1.name, d.1.summary, d.1.version))
}

/// The whole dependency field reduced to plain values; an absent list is
/// written as an empty one.
pub open spec fn deps_plain(deps: Option<Seq<(Id, DepModel)>>) -> Seq<
    (Seq<char>, (Seq<char>, Seq<char>, Seq<char>)),
> {
    match deps {
        Some(s) => s.map_values(|d: (Id, DepModel)| dep_plain(d)),
        None => Seq::empty(),
    }
}

/// The ordered field-name/payload list a record flattens to.
pub open spec fn spec_flatten(m: ModModel) -> Seq<(Seq<char>, Seq<char>)> {
    seq![
        ("name"@, collapse(m.name)),
        ("author"@, collapse(m.author)),
        ("img_url"@, collapse(m.img_url)),
        ("summary"@, collapse(m.summary)),
        ("description"@, collapse(m.description)),
        ("version"@, collapse(m.version)),
        ("item_type"@, spec_type_token(m.item_type)),
        ("dependencies"@, deps_json_of(deps_plain(m.dependencies))),
        ("tags"@, tags_json_of(m.tags)),
    ]
}

/// The position of a field's first entry in a field map, if any.
pub open spec fn field_first(bag: Seq<(Seq<char>, Seq<char>)>, f: Seq<char>) -> Option<int>
    decreases bag.len(),
{
    if bag.len() == 0 {
        None
    } else if bag[0].0 == f {
        Some(0)
    } else {
        match field_first(bag.drop_first(), f) {
            Some(i) => Some(i + 1),
            None => None,
        }
    }
}

/// The payload stored under a field name, or `None` when the name is
/// absent: absent fields read back as defaults, never as errors.
pub open spec fn field_lookup(bag: Seq<(Seq<char>, Seq<char>)>, f: Seq<char>) -> Option<Seq<char>> {
    match field_first(bag, f) {
        Some(k) => Some(bag[k].1),
        None => None,
    }
}

/// One step of a first-occurrence scan over a field map.
pub proof fn lemma_field_first_skip_step(bag: Seq<(Seq<char>, Seq<char>)>, f: Seq<char>, j: int)
    requires
        0 <= j < bag.len(),
        bag[j].0 != f,
    ensures
        field_first(bag.skip(j), f) == match field_first(bag.skip(j + 1), f) {
            Some(i) => Some(i + 1),
            None => None::<int>,
        },
{
    assert(bag.skip(j)[0] == bag[j]);
    assert(bag.skip(j).drop_first() =~= bag.skip(j + 1));
}

/// A field whose name first occurs at a slot is found at that slot.
proof fn lemma_field_first_at(bag: Seq<(Seq<char>, Seq<char>)>, f: Seq<char>, k: int)
    requires
        0 <= k < bag.len(),
        bag[k].0 == f,
        forall|i: int| 0 <= i < k ==> (#[trigger] bag[i]).0 != f,
    ensures
        field_first(bag, f) == Some(k),
    decreases k,
{
    if k == 0 {
    } else {
        assert(bag[0].0 != f);
        assert(bag.drop_first()[k - 1] == bag[k]);
        assert(forall|i: int| 0 <= i < k - 1 ==> #[trigger] bag.drop_first()[i] == bag[i + 1]);
        lemma_field_first_at(bag.drop_first(), f, k - 1);
    }
}

/// An absent payload treated as the empty string.
pub open spec fn or_empty(o: Option<Seq<char>>) -> Seq<char> {
    match o {
        Some(s) => s,
        None => Seq::empty(),
    }
}

/// One plain dependency read back; fails when its identifier does not
/// parse.
pub open spec fn spec_parse_dep(p: (Seq<char>, (Seq<char>, Seq<char>, Seq<char>))) -> Option<
    (Id, DepModel),
> {
    match spec_parse_id(p.0) {
        Some(id) => Some((id, DepModel { name: p.1.0, summary: p.1.1, version: p.1.2 })),
        None => None,
    }
}

/// A plain dependency list read back, all entries or nothing.
pub open spec fn spec_parse_deps_list(l: Seq<(Seq<char>, (Seq<char>, Seq<char>, Seq<char>))>)
    -> Option<Seq<(Id, DepModel)>>
    decreases l.len(),
{
    if l.len() == 0 {
        Some(Seq::empty())
    } else {
        match spec_parse_dep(l[0]) {
            None => None,
            Some(d) => match spec_parse_deps_list(l.drop_first()) {
                None => None,
                Some(rest) => Some(seq![d] + rest),
            },
        }
    }
}

/// The dependency field a payload reads back to: a failed parse degrades to
/// an absent list.
pub open spec fn spec_decode_deps(s: Seq<char>) -> Option<Seq<(Id, DepModel)>> {
    match deps_json_parse(s) {
        Some(l) => spec_parse_deps_list(l),
        None => None,
    }
}

/// The record a field-bag reads back to.  Every declared field is
/// recovered under its own name; a name missing from the bag resolves to
/// that field's default, whatever else the bag holds.
pub open spec fn spec_unflatten(pairs: Seq<(Seq<char>, Seq<char>)>) -> ModModel {
    ModModel {
        name: field_lookup(pairs, "name"@),
        author: field_lookup(pairs, "author"@),
        img_url: field_lookup(pairs, "img_url"@),
        summary: field_lookup(pairs, "summary"@),
        description: field_lookup(pairs, "description"@),
        version: field_lookup(pairs, "version"@),
        item_type: spec_string_to_type(or_empty(field_lookup(pairs, "item_type"@))),
        dependencies: spec_decode_deps(or_empty(field_lookup(pairs, "dependencies"@))),
        tags: tags_json_parse(or_empty(field_lookup(pairs, "tags"@))),
    }
}

/// Character-wise string equality.
pub fn str_eq(a: &str, b: &str) -> (r: bool)
    ensures
        r == (a@ == b@),
{
    let na: usize = a.unicode_len();
    let nb: usize = b.unicode_len();
    if na != nb {
        return false;
    }
    let mut i: usize = 0;
    while i < na
        invariant
            na == a@.len(),
            na == b@.len(),
            0 <= i <= na,
            forall|j: int| 0 <= j < i ==> a@[j] == b@[j],
        decreases na - i,
    {
        if a.get_char(i) != b.get_char(i) {
            return false;
        }
        i += 1;
    }
    proof {
        assert(a@ =~= b@);
    }
    true
}

impl ModType {
    /// The stored token for this classification.
    pub fn type_to_string(&self) -> (r: &'static str)
        ensures
            r@ == spec_type_token(*self),
    {
        match self {
            ModType::Mod => "mod",
            ModType::Library => "lib",
        }
    }
}

/// Read a stored token back into a classification; anything unrecognized is
/// the default variant.
pub fn string_to_type(object: &str) -> (r: ModType)
    ensures
        r == spec_string_to_type(object@),
{
    if str_eq(object, "mod") {
        ModType::Mod
    } else if str_eq(object, "lib") {
        ModType::Library
    } else {
        ModType::Mod
    }
}

impl Mod {
    /// A record with no field set.
    pub fn new() -> (r: Self)
        ensures
            r@ == empty_model(),
    {
        Mod {
            name: None,
            author: None,
            img_url: None,
            summary: None,
            description: None,
            version: None,
            item_type: ModType::Mod,
            dependencies: None,
            tags: None,
        }
    }

    /// The record type's declared field names, in order.
    pub fn fields() -> (r: Vec<&'static str>)
        ensures
            r.deep_view() =~= seq![
                "name"@,
                "author"@,
                "img_url"@,
                "summary"@,
                "description"@,
                "version"@,
                "item_type"@,
                "dependencies"@,
                "tags"@,
            ],
    {
        let mut v: Vec<&'static str> = Vec::new();
        v.push("name");
        v.push("author");
        v.push("img_url");
        v.push("summary");
        v.push("description");
        v.push("version");
        v.push("item_type");
        v.push("dependencies");
        v.push("tags");
        v
    }

    /// The stored name, or "N/A" when absent.
    pub fn match_name(&self) -> (r: &str)
        ensures
            r@ == collapse(self@.name),
    {
        match &self.name {
            Some(v) => v.as_str(),
            None => "N/A",
        }
    }

    /// The stored author, or "N/A" when absent.
    pub fn match_author(&self) -> (r: &str)
        ensures
            r@ == collapse(self@.author),
    {
        match &self.author {
            Some(v) => v.as_str(),
            None => "N/A",
        }
    }

    /// The stored image URL, or "N/A" when absent.
    pub fn match_url(&self) -> (r: &str)
        ensures
            r@ == collapse(self@.img_url),
    {
        match &self.img_url {
            Some(v) => v.as_str(),
            None => "N/A",
        }
    }

    /// The stored summary, or "N/A" when absent.
    pub fn match_summary(&self) -> (r: &str)
        ensures
            r@ == collapse(self@.summary),
    {
        match &self.summary {
            Some(v) => v.as_str(),
            None => "N/A",
        }
    }

    /// The stored description, or "N/A" when absent.
    pub fn match_description(&self) -> (r: &str)
        ensures
            r@ == collapse(self@.description),
    {
        match &self.description {
            Some(v) => v.as_str(),
            None => "N/A",
        }
    }

    /// The stored version, or "N/A" when absent.
    pub fn match_version(&self) -> (r: &str)
        ensures
            r@ == collapse(self@.version),
    {
        match &self.version {
            Some(v) => v.as_str(),
            None => "N/A",
        }
    }
}

impl Default for Mod {
    /// Same as `Mod::new`: a record with no field set.
    fn default() -> (r: Self)
        ensures
            r@ == empty_model(),
    {
        Mod::new()
    }
}

/// An example shape whose field names are listed by a static metadata
/// table, the way every record type advertises its declared field order.
pub struct Test {
    pub name: Option<String>,
    pub author: Option<String>,
    pub img_url: Option<String>,
    pub summary: Option<String>,
    pub description: Option<String>,
    pub version: Option<String>,
}

impl Test {
    /// The declared field names, in order.
    pub fn fields() -> (r: Vec<&'static str>)
        ensures
            r.deep_view() =~= seq![
                "name"@,
                "author"@,
                "img_url"@,
                "summary"@,
                "description"@,
                "version"@,
            ],
    {
        let mut v: Vec<&'static str> = Vec::new();
        v.push("name");
        v.push("author");
        v.push("img_url");
        v.push("summary");
        v.push("description");
        v.push("version");
        v
    }
}

/// The model of an executable dependency list.
pub open spec fn deps_model(v: Seq<(Id, ModDependency)>) -> Seq<(Id, DepModel)> {
    Seq::new(v.len(), |i: int| (v[i].0, v[i].1@))
}

/// Reading back what a dependency list was reduced to gives the list back.
pub proof fn lemma_parse_deps_list_round(ds: Seq<(Id, DepModel)>)
    ensures
        spec_parse_deps_list(ds.map_values(|d: (Id, DepModel)| dep_plain(d))) == Some(ds),
    decreases ds.len(),
{
    let l = ds.map_values(|d: (Id, DepModel)| dep_plain(d));
    if ds.len() == 0 {
        assert(l.len() == 0);
    } else {
        assert(l[0] == dep_plain(ds[0]));
        lemma_hyphenated_round_trip(ds[0].0.value);
        assert(spec_hyphenated_of(ds[0].0.value).len() == 36);
        assert(spec_parse_id(dep_plain(ds[0]).0) == Some(ds[0].0));
        assert(spec_parse_dep(l[0]) == Some((ds[0].0, DepModel {
            name: ds[0].1.name,
            summary: ds[0].1.summary,
            version: ds[0].1.version,
        })));
        assert(DepModel {
            name: ds[0].1.name,
            summary: ds[0].1.summary,
            version: ds[0].1.version,
        } =~= ds[0].1);
        lemma_parse_deps_list_round(ds.drop_first());
        assert(l.drop_first() =~= ds.drop_first().map_values(
            |d: (Id, DepModel)| dep_plain(d),
        ));
        assert(seq![ds[0]] + ds.drop_first() =~= ds);
    }
}

/// A plain dependency list reads back entry by entry: it succeeds exactly
/// when every identifier parses, and then gives the parsed entries in
/// order.
pub proof fn lemma_parse_deps_list_structure(l: Seq<(Seq<char>, (Seq<char>, Seq<char>, Seq<char>))>)
    ensures
        (forall|i: int| 0 <= i < l.len() ==> (#[trigger] spec_parse_dep(l[i])) is Some)
            ==> spec_parse_deps_list(l) == Some(
            Seq::new(l.len(), |i: int| spec_parse_dep(l[i])->Some_0),
        ),
        (exists|i: int| 0 <= i < l.len() && (#[trigger] spec_parse_dep(l[i])) is None)
            ==> spec_parse_deps_list(l) is None,
    decreases l.len(),
{
    if l.len() == 0 {
    } else {
        lemma_parse_deps_list_structure(l.drop_first());
        assert(forall|i: int| 0 <= i < l.drop_first().len()
            ==> #[trigger] l.drop_first()[i] == l[i + 1]);
        if forall|i: int| 0 <= i < l.len() ==> (#[trigger] spec_parse_dep(l[i])) is Some {
            assert(spec_parse_deps_list(l.drop_first()) == Some(
                Seq::new(l.drop_first().len(), |i: int| spec_parse_dep(l.drop_first()[i])->Some_0),
            ));
            assert(seq![spec_parse_dep(l[0])->Some_0] + Seq::new(
                l.drop_first().len(),
                |i: int| spec_parse_dep(l.drop_first()[i])->Some_0,
            ) =~= Seq::new(l.len(), |i: int| spec_parse_dep(l[i])->Some_0));
        } else if spec_parse_dep(l[0]) is None {
        } else {
            assert(exists|i: int| 0 <= i < l.len() && (#[trigger] spec_parse_dep(l[i])) is None);
            let i = choose|i: int| 0 <= i < l.len() && (#[trigger] spec_parse_dep(l[i])) is None;
            assert(spec_parse_dep(l.drop_first()[i - 1]) is None);
        }
    }
}

/// Reduce a dependency list to the plain values handed to the
/// serialization capability.
fn deps_to_plain_list(list: &Vec<(Id, ModDependency)>) -> (r: Vec<
    (String, (String, String, String)),
>)
    ensures
        r.deep_view() =~= deps_model(list@).map_values(|d: (Id, DepModel)| dep_plain(d)),
{
    let ghost target = deps_model(list@).map_values(|d: (Id, DepModel)| dep_plain(d));
    let mut plain: Vec<(String, (String, String, String))> = Vec::new();
    let mut i: usize = 0;
    while i < list.len()
        invariant
            target == deps_model(list@).map_values(|d: (Id, DepModel)| dep_plain(d)),
            target.len() == list@.len(),
            0 <= i <= list@.len(),
            plain.deep_view() =~~= target.subrange(0, i as int),
        decreases list@.len() - i,
    {
        let entry = &list[i];
        let rendered: String = entry.0.to_hyphenated();
        plain.push(
            (rendered, (entry.1.name.clone(), entry.1.summary.clone(), entry.1.version.clone())),
        );
        proof {
            assert(target[i as int] == dep_plain((list@[i as int].0, list@[i as int].1@)));
            assert(plain.deep_view() =~~= target.subrange(0, i + 1));
        }
        i += 1;
    }
    proof {
        assert(target.subrange(0, list@.len() as int) =~= target);
    }
    plain
}

/// An absent scalar written and read back becomes the present "N/A" value;
/// the helper carrying that exec step.
fn collapse_field(o: &Option<String>) -> (r: String)
    ensures
        r@ == collapse(o.deep_view()),
{
    match o {
        Some(s) => s.clone(),
        None => String::from_str("N/A"),
    }
}

impl Mod {
    /// Fold the record into its ordered field-name/payload list.  The
    /// `Result` is the flattening interface's shape — `EncodingFailure` is
    /// what a failing serialization capability would surface — but this
    /// record type's fields always encode, so the call always succeeds:
    /// the list is exactly the record's flattening, and a record with
    /// every field present reads back from it unchanged.
    pub fn convert_to_field_map(&self) -> (r: Result<Vec<(String, String)>, GlassError>)
        ensures
            r is Ok,
            match r {
                Ok(pairs) => {
                    &&& pairs.deep_view() == spec_flatten(self@)
                    &&& all_present(self@) ==> spec_unflatten(pairs.deep_view()) == self@
                },
                Err(e) => e == GlassError::EncodingFailure,
            },
    {
        let plain: Vec<(String, (String, String, String))> = match &self.dependencies {
            Some(list) => deps_to_plain_list(list),
            None => Vec::new(),
        };
        proof {
            assert(plain.deep_view() =~= deps_plain(self@.dependencies));
        }
        let deps_payload: String = match encode_dep_list(&plain) {
            Some(s) => s,
            None => {
                return Err(GlassError::EncodingFailure);
            }
        };
        let tags_payload: String = match encode_tag_list(&self.tags) {
            Some(s) => s,
            None => {
                return Err(GlassError::EncodingFailure);
            }
        };
        let mut out: Vec<(String, String)> = Vec::new();
        out.push((String::from_str("name"), collapse_field(&self.name)));
        out.push((String::from_str("author"), collapse_field(&self.author)));
        out.push((String::from_str("img_url"), collapse_field(&self.img_url)));
        out.push((String::from_str("summary"), collapse_field(&self.summary)));
        out.push((String::from_str("description"), collapse_field(&self.description)));
        out.push((String::from_str("version"), collapse_field(&self.version)));
        out.push((String::from_str("item_type"), String::from_str(self.item_type.type_to_string())));
        out.push((String::from_str("dependencies"), deps_payload));
        out.push((String::from_str("tags"), tags_payload));
        proof {
            assert(out.deep_view() =~= spec_flatten(self@));
            if all_present(self@) {
                lemma_flatten_unflatten(self@, out.deep_view());
            }
        }
        Ok(out)
    }

    /// Unfold a field map back into a record.  Each declared field is read
    /// under its own name, wherever it stands in the map; an absent name
    /// resolves to the field's default, and a malformed complex payload
    /// resolves to an absent list, never to an error.
    pub fn from_field_map(field_map: Vec<(String, String)>) -> (r: Mod)
        ensures
            r@ == spec_unflatten(field_map.deep_view()),
            field_map.deep_view().len() == 0 ==> r@ == empty_model(),
    {
        let name: Option<String> = lookup_field(&field_map, "name");
        let author: Option<String> = lookup_field(&field_map, "author");
        let img_url: Option<String> = lookup_field(&field_map, "img_url");
        let summary: Option<String> = lookup_field(&field_map, "summary");
        let description: Option<String> = lookup_field(&field_map, "description");
        let version: Option<String> = lookup_field(&field_map, "version");
        let type_token: String = match lookup_field(&field_map, "item_type") {
            Some(s) => s,
            None => String::new(),
        };
        let item_type: ModType = string_to_type(type_token.as_str());
        let deps_payload: String = match lookup_field(&field_map, "dependencies") {
            Some(s) => s,
            None => String::new(),
        };
        let dependencies: Option<Vec<(Id, ModDependency)>> = match decode_dep_list(
            deps_payload.as_str(),
        ) {
            None => None,
            Some(list) => parse_dep_entries(list),
        };
        let tags_payload: String = match lookup_field(&field_map, "tags") {
            Some(s) => s,
            None => String::new(),
        };
        let tags: Option<Vec<String>> = decode_tag_list(tags_payload.as_str());
        let result = Mod {
            name,
            author,
            img_url,
            summary,
            description,
            version,
            item_type,
            dependencies,
            tags,
        };
        proof {
            let pairs = field_map.deep_view();
            assert(result@ =~= spec_unflatten(pairs));
            if pairs.len() == 0 {
                reveal_strlit("mod");
                reveal_strlit("lib");
                assert("mod"@.len() == 3 && "lib"@.len() == 3);
                assert(Seq::<char>::empty() != "mod"@ && Seq::<char>::empty() != "lib"@);
                assert(spec_string_to_type(Seq::<char>::empty()) == ModType::Mod);
                assert(result@ =~= empty_model());
            }
        }
        result
    }
}

/// Read the payload stored under a field name, scanning for the name's
/// first entry.
fn lookup_field(map: &Vec<(String, String)>, field: &str) -> (r: Option<String>)
    ensures
        r.deep_view() == field_lookup(map.deep_view(), field@),
{
    let ghost mdv = map.deep_view();
    let mut j: usize = 0;
    proof {
        assert(mdv.skip(0) =~= mdv);
    }
    while j < map.len()
        invariant
            mdv == map.deep_view(),
            mdv.len() == map@.len(),
            0 <= j <= mdv.len(),
            field_first(mdv, field@) == match field_first(mdv.skip(j as int), field@) {
                Some(i) => Some(i + j as int),
                None => None::<int>,
            },
        decreases mdv.len() - j,
    {
        let entry = &map[j];
        proof {
            assert(mdv.skip(j as int)[0] == mdv[j as int]);
        }
        if str_eq(entry.0.as_str(), field) {
            proof {
                assert(field_first(mdv, field@) == Some(j as int));
            }
            return Some(entry.1.clone());
        }
        proof {
            lemma_field_first_skip_step(mdv, field@, j as int);
        }
        j += 1;
    }
    proof {
        assert(mdv.skip(mdv.len() as int).len() == 0);
        assert(field_first(mdv, field@) is None);
    }
    None
}

/// Read a decoded plain dependency list back into typed entries; all
/// entries or nothing, matching the specification's read of the payload.
fn parse_dep_entries(list: Vec<(String, (String, String, String))>) -> (r: Option<
    Vec<(Id, ModDependency)>,
>)
    ensures
        match r {
            Some(v) => spec_parse_deps_list(list.deep_view()) == Some(deps_model(v@)),
            None => spec_parse_deps_list(list.deep_view()) is None,
        },
{
    let ghost l = list.deep_view();
    let mut out: Vec<(Id, ModDependency)> = Vec::new();
    let mut i: usize = 0;
    while i < list.len()
        invariant
            l == list.deep_view(),
            l.len() == list@.len(),
            0 <= i <= list@.len(),
            out@.len() == i,
            forall|j: int| 0 <= j < i ==> (#[trigger] spec_parse_dep(l[j])) is Some,
            forall|j: int| 0 <= j < i ==> #[trigger] deps_model(out@)[j] == spec_parse_dep(
                l[j],
            )->Some_0,
        decreases list@.len() - i,
    {
        let entry = &list[i];
        match Id::parse(entry.0.as_str()) {
            Err(_) => {
                proof {
                    assert(spec_parse_dep(l[i as int]) is None);
                    lemma_parse_deps_list_structure(l);
                }
                return None;
            }
            Ok(id) => {
                let ghost prev = out@;
                out.push(
                    (
                        id,
                        ModDependency {
                            name: entry.1.0.clone(),
                            summary: entry.1.1.clone(),
                            version: entry.1.2.clone(),
                        },
                    ),
                );
                proof {
                    assert(forall|j: int| 0 <= j < i ==> #[trigger] out@[j] == prev[j]);
                    assert(forall|j: int| 0 <= j < i ==> #[trigger] deps_model(out@)[j]
                        == deps_model(prev)[j]);
                    assert(spec_parse_dep(l[i as int]) is Some);
                    assert(deps_model(out@)[i as int] =~~= spec_parse_dep(l[i as int])->Some_0);
                }
                i += 1;
            }
        }
    }
    proof {
        lemma_parse_deps_list_structure(l);
        assert(deps_model(out@) =~= Seq::new(l.len(), |j: int| spec_parse_dep(l[j])->Some_0));
    }
    Some(out)
}

/// Flattening a record with every field present and unflattening the result
/// gives the record back; the payload facts come from the capability's
/// round trips.
proof fn lemma_flatten_unflatten(m: ModModel, pairs: Seq<(Seq<char>, Seq<char>)>)
    requires
        all_present(m),
        pairs == spec_flatten(m),
        deps_json_parse(deps_json_of(deps_plain(m.dependencies))) == Some(
            deps_plain(m.dependencies),
        ),
        tags_json_parse(tags_json_of(m.tags)) == m.tags,
    ensures
        spec_unflatten(pairs) == m,
{
    assert(pairs.len() == 9);
    lemma_flatten_field_at(m, 0);
    lemma_flatten_field_at(m, 1);
    lemma_flatten_field_at(m, 2);
    lemma_flatten_field_at(m, 3);
    lemma_flatten_field_at(m, 4);
    lemma_flatten_field_at(m, 5);
    lemma_flatten_field_at(m, 6);
    lemma_flatten_field_at(m, 7);
    lemma_flatten_field_at(m, 8);
    assert(field_lookup(pairs, "name"@) == Some(collapse(m.name)));
    assert(field_lookup(pairs, "author"@) == Some(collapse(m.author)));
    assert(field_lookup(pairs, "img_url"@) == Some(collapse(m.img_url)));
    assert(field_lookup(pairs, "summary"@) == Some(collapse(m.summary)));
    assert(field_lookup(pairs, "description"@) == Some(collapse(m.description)));
    assert(field_lookup(pairs, "version"@) == Some(collapse(m.version)));
    assert(field_lookup(pairs, "item_type"@) == Some(spec_type_token(m.item_type)));
    assert(spec_string_to_type(spec_type_token(m.item_type)) == m.item_type) by {
        reveal_strlit("mod");
        reveal_strlit("lib");
        assert("mod"@[0] == 'm' && "lib"@[0] == 'l');
    }
    let ds = m.dependencies->Some_0;
    assert(deps_plain(m.dependencies) == ds.map_values(|d: (Id, DepModel)| dep_plain(d)));
    lemma_parse_deps_list_round(ds);
    assert(field_lookup(pairs, "dependencies"@) == Some(deps_json_of(deps_plain(m.dependencies))));
    assert(spec_decode_deps(deps_json_of(deps_plain(m.dependencies))) == Some(ds));
    assert(field_lookup(pairs, "tags"@) == Some(tags_json_of(m.tags)));
    assert(spec_unflatten(pairs) =~= m);
}

/// Each declared field of a flattening is found at its declared slot.
proof fn lemma_flatten_field_at(m: ModModel, k: int)
    requires
        0 <= k < spec_flatten(m).len(),
    ensures
        field_first(spec_flatten(m), spec_flatten(m)[k].0) == Some(k),
{
    lemma_flatten_names_distinct(m);
    let pairs = spec_flatten(m);
    assert forall|i: int| 0 <= i < k implies (#[trigger] pairs[i]).0 != pairs[k].0 by {
        assert(spec_flatten(m)[i].0 != spec_flatten(m)[k].0);
    }
    lemma_field_first_at(pairs, pairs[k].0, k);
}

/// The flattened field names are pairwise distinct, so a field-bag built
/// from a flattening holds each field once.
pub proof fn lemma_flatten_names_distinct(m: ModModel)
    ensures
        forall|i: int, j: int| 0 <= i < j < spec_flatten(m).len()
            ==> (#[trigger] spec_flatten(m)[i]).0 != (#[trigger] spec_flatten(m)[j]).0,
{
    reveal_strlit("name");
    reveal_strlit("author");
    reveal_strlit("img_url");
    reveal_strlit("summary");
    reveal_strlit("description");
    reveal_strlit("version");
    reveal_strlit("item_type");
    reveal_strlit("dependencies");
    reveal_strlit("tags");
    assert("img_url"@[0] == 'i' && "summary"@[0] == 's' && "version"@[0] == 'v');
    assert("name"@[0] == 'n' && "tags"@[0] == 't');
    let p = spec_flatten(m);
    assert forall|i: int, j: int| 0 <= i < j < p.len() implies (#[trigger] p[i]).0 != (
    #[trigger] p[j]).0 by {
        assert(p.len() == 9);
        assert(p[0].0 == "name"@);
        assert(p[1].0 == "author"@);
        assert(p[2].0 == "img_url"@);
        assert(p[3].0 == "summary"@);
        assert(p[4].0 == "description"@);
        assert(p[5].0 == "version"@);
        assert(p[6].0 == "item_type"@);
        assert(p[7].0 == "dependencies"@);
        assert(p[8].0 == "tags"@);
        assert("name"@.len() == 4 && "author"@.len() == 6 && "img_url"@.len() == 7
            && "summary"@.len() == 7 && "description"@.len() == 11 && "version"@.len() == 7
            && "item_type"@.len() == 9 && "dependencies"@.len() == 12 && "tags"@.len() == 4);
    }
}

/// A generic hook tying a record type to its index name and its field
/// map, so database backends can work records without knowing their
/// shape.  A record type says in spec what its index is called and how it
/// folds to and from a field map; the methods are held to exactly that.
pub trait Sortable: View + Sized {
    type DataType: DeepView;

    /// The index name the record type's entries live under.
    spec fn index_name() -> Seq<char>;

    /// What a field map unfolds to.
    spec fn spec_map_to_object(map: Seq<(Seq<char>, <Self::DataType as DeepView>::V)>)
        -> Self::V;

    /// What a record folds to.
    spec fn spec_object_to_map(m: Self::V) -> Seq<(Seq<char>, <Self::DataType as DeepView>::V)>;

    /// The index name the record type's entries live under.
    fn object_to_index() -> (r: &'static str)
        ensures
            r@ == Self::index_name(),
    ;

    /// Unfold a field map into a record.
    fn map_to_object(map: Vec<(String, Self::DataType)>) -> (r: Self)
        ensures
            r@ == Self::spec_map_to_object(map.deep_view()),
    ;

    /// Fold a record into a field map.
    fn object_to_map(&self) -> (r: Vec<(String, Self::DataType)>)
        ensures
            r.deep_view() == Self::spec_object_to_map(self@),
    ;
}

impl Sortable for Mod {
    type DataType = String;

    open spec fn index_name() -> Seq<char> {
        "mods"@
    }

    open spec fn spec_map_to_object(map: Seq<(Seq<char>, Seq<char>)>) -> ModModel {
        spec_unflatten(map)
    }

    open spec fn spec_object_to_map(m: ModModel) -> Seq<(Seq<char>, Seq<char>)> {
        spec_flatten(m)
    }

    fn object_to_index() -> (r: &'static str) {
        "mods"
    }

    fn map_to_object(map: Vec<(String, String)>) -> (r: Self) {
        Mod::from_field_map(map)
    }

    fn object_to_map(&self) -> (r: Vec<(String, String)>) {
        match self.convert_to_field_map() {
            Ok(pairs) => pairs,
            Err(_) => Vec::new(),
        }
    }
}

} // verus!
