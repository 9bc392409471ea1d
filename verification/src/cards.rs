//! Card rendering. The layouts are JSON templates; changing a card's look is a
//! template edit, never string-building in code.
//!
//! The whole template language:
//!
//! 1. `{{key}}` inside any string value is replaced with the param's value.
//! 2. An element `{"tag": "__images__", "group": "<name>"}` is expanded into
//!    one `img` element per image registered under `<name>`, in order.
//! 3. Every `img` element's `img_key` is the placeholder `${image:<basename>}`
//!    and the image's path is listed among the attachments.
use crate::double;
use crate::double::Double;
use crate::json;
use crate::json::{Json, JsonView};
use crate::numerals;
use crate::paths;
use crate::state;
use crate::storage;
use crate::strmap::StrMap;
use crate::text;
use vstd::prelude::*;

verus! {

/// Which of the card layouts a rendered card came from.
#[derive(Debug, Clone, Copy, PartialEq, Eq, Structural)]
pub enum CardKind {
    RegressionAlert,
    Recovery,
    TrendDigest,
}

impl CardKind {
    pub open spec fn name_spec(self) -> Seq<char> {
        match self {
            CardKind::RegressionAlert => "RegressionAlert"@,
            CardKind::Recovery => "Recovery"@,
            CardKind::TrendDigest => "TrendDigest"@,
        }
    }

    pub fn name(self) -> (r: &'static str)
        ensures
            r@ == self.name_spec(),
    {
        match self {
            CardKind::RegressionAlert => "RegressionAlert",
            CardKind::Recovery => "Recovery",
            CardKind::TrendDigest => "TrendDigest",
        }
    }

    /// The tag that a relay logs and routes by.
    pub open spec fn tag_spec(self) -> Seq<char> {
        match self {
            CardKind::RegressionAlert => "regression_alert"@,
            CardKind::Recovery => "recovery"@,
            CardKind::TrendDigest => "trend_digest"@,
        }
    }

    pub fn tag(self) -> (r: &'static str)
        ensures
            r@ == self.tag_spec(),
    {
        match self {
            CardKind::RegressionAlert => "regression_alert",
            CardKind::Recovery => "recovery",
            CardKind::TrendDigest => "trend_digest",
        }
    }
}

/// A ready-to-post card: its JSON plus the local files to upload with it.
#[derive(Debug)]
pub struct RenderedCard {
    pub kind: CardKind,
    pub card: Json,
    pub attachments: Vec<String>,
}

/// An image slot: local file + alt text.
#[derive(Debug, Clone, PartialEq, Eq)]
pub struct ImageRef {
    pub path: String,
    pub alt: String,
}

pub struct ImageView {
    pub path: Seq<char>,
    pub alt: Seq<char>,
}

impl View for ImageRef {
    type V = ImageView;

    open spec fn view(&self) -> ImageView {
        ImageView { path: self.path@, alt: self.alt@ }
    }
}

impl ImageRef {
    pub fn new(path: &str, alt: &str) -> (r: ImageRef)
        ensures
            r.path@ == path@,
            r.alt@ == alt@,
    {
        ImageRef { path: path.to_string(), alt: alt.to_string() }
    }
}

/// `${image:<basename>}`.
pub open spec fn placeholder_spec(path: Seq<char>) -> Seq<char> {
    "${image:"@ + (match paths::file_name_spec(path) {
        Some(name) => name,
        None => Seq::empty(),
    }) + "}"@
}

pub fn image_placeholder(path: &str) -> (r: String)
    ensures
        r@ == placeholder_spec(path@),
{
    match paths::file_name(path) {
        Some(name) => text::cat3("${image:", name.as_str(), "}"),
        None => {
            let r: String = text::cat2("${image:", "}");
            assert(r@ =~= "${image:"@ + Seq::empty() + "}"@);
            r
        },
    }
}

// ---------------------------------------------------------------------------
// Placeholders
// ---------------------------------------------------------------------------

/// The values that placeholders stand for.
pub open spec fn vars_view(vars: StrMap<String>) -> Map<Seq<char>, Seq<char>> {
    vars@.map_values(|s: String| s@)
}

/// Single-pass `{{key}}` expansion: substituted values are never re-scanned,
/// and unknown keys are left as they are.
pub open spec fn expand_spec(s: Seq<char>, vars: Map<Seq<char>, Seq<char>>) -> Seq<char>
    decreases s.len(),
{
    match text::find_spec(s, "{{"@) {
        Some(start) => if start + 2 <= s.len() {
            let after = s.skip(start as int + 2);
            match text::find_spec(after, "}}"@) {
                Some(end) => if end + 2 <= after.len() && vars.dom().contains(
                    after.take(end as int),
                ) {
                    s.take(start as int) + vars[after.take(end as int)] + expand_spec(
                        after.skip(end as int + 2),
                        vars,
                    )
                } else {
                    s.take(start as int) + "{{"@ + expand_spec(after, vars)
                },
                None => s.take(start as int) + "{{"@ + expand_spec(after, vars),
            }
        } else {
            s
        },
        None => s,
    }
}

/// Appends characters of `v`.
fn push_chars(out: &mut Vec<char>, v: &Vec<char>, from: usize, to: usize)
    requires
        from <= to <= v@.len(),
    ensures
        final(out)@ == old(out)@ + v@.subrange(from as int, to as int),
{
    let ghost before = out@;
    let mut i: usize = from;
    proof {
        assert(before + v@.subrange(from as int, from as int) =~= before);
    }
    while i < to
        invariant
            from <= i <= to <= v@.len(),
            out@ == before + v@.subrange(from as int, i as int),
        decreases to - i,
    {
        out.push(v[i]);
        proof {
            assert(v@.subrange(from as int, i + 1) =~= v@.subrange(from as int, i as int).push(
                v@[i as int],
            ));
            assert(before + v@.subrange(from as int, i as int).push(v@[i as int]) =~= (before
                + v@.subrange(from as int, i as int)).push(v@[i as int]));
        }
        i = i + 1;
    }
}

pub fn expand_placeholders(template: &str, vars: &StrMap<String>) -> (r: String)
    requires
        vars.wf(),
    ensures
        r@ == expand_spec(template@, vars_view(*vars)),
{
    proof {
        reveal_strlit("{{");
        reveal_strlit("}}");
    }
    let ghost map = vars_view(*vars);
    let ghost all = expand_spec(template@, map);
    let v: Vec<char> = text::chars_of(template);
    let open: Vec<char> = text::chars_of("{{");
    let close: Vec<char> = text::chars_of("}}");
    let n: usize = v.len();
    let mut out: Vec<char> = Vec::new();
    let mut at: usize = 0;
    proof {
        assert(v@.skip(0) =~= v@);
        assert(Seq::<char>::empty() + all =~= all);
    }
    loop
        invariant
            vars.wf(),
            map == vars_view(*vars),
            at <= n,
            n == v@.len(),
            open@ == "{{"@,
            close@ == "}}"@,
            open@.len() == 2,
            close@.len() == 2,
            all == out@ + expand_spec(v@.skip(at as int), map),
            all == expand_spec(template@, map),
        decreases n - at,
    {
        let ghost rest = v@.skip(at as int);
        match text::find_from(&v, &open, at) {
            Some(start) => {
                let body: usize = at + start + 2;
                let ghost after = rest.skip(start + 2);
                let ghost done = out@;
                push_chars(&mut out, &v, at, at + start);
                proof {
                    assert(after =~= v@.skip(body as int));
                    assert(rest.take(start as int) =~= v@.subrange(at as int, at + start));
                }
                let mut found: bool = false;
                match text::find_from(&v, &close, body) {
                    Some(end) => {
                        let name: String = text::slice(&v, body, body + end);
                        proof {
                            assert(after.take(end as int) =~= name@);
                        }
                        match vars.get(name.as_str()) {
                            Some(value) => {
                                let ghost head = out@;
                                let chars: Vec<char> = text::chars_of(value.as_str());
                                let len: usize = chars.len();
                                push_chars(&mut out, &chars, 0, len);
                                proof {
                                    assert(chars@.subrange(0, len as int) =~= chars@);
                                    assert(map.dom().contains(name@));
                                    assert(map[name@] == value@);
                                    assert(after.skip(end + 2) =~= v@.skip(body + end + 2));
                                    let tail = expand_spec(after.skip(end + 2), map);
                                    assert(done + (rest.take(start as int) + value@ + tail) =~= (
                                    done + rest.take(start as int) + value@) + tail);
                                }
                                at = body + end + 2;
                                found = true;
                            },
                            None => {
                                assert(!map.dom().contains(name@));
                            },
                        }
                    },
                    None => {},
                }
                if !found {
                    push_chars(&mut out, &open, 0, 2);
                    proof {
                        assert(open@.subrange(0, 2) =~= "{{"@);
                        let tail = expand_spec(after, map);
                        assert(done + (rest.take(start as int) + "{{"@ + tail) =~= (done
                            + rest.take(start as int) + "{{"@) + tail);
                    }
                    at = body;
                }
            },
            None => {
                push_chars(&mut out, &v, at, n);
                proof {
                    assert(v@.subrange(at as int, n as int) =~= rest);
                }
                return text::string_of(out);
            },
        }
    }
}

/// A text without `{{` stays as it is.
pub proof fn law_plain_text_is_untouched(s: Seq<char>, vars: Map<Seq<char>, Seq<char>>)
    requires
        text::find_spec(s, "{{"@) is None,
    ensures
        expand_spec(s, vars) == s,
{
}

/// A substituted value comes out verbatim, whatever it holds: what follows the
/// placeholder is expanded on its own.
pub proof fn law_values_are_not_expanded_again(
    before: Seq<char>,
    key: Seq<char>,
    after: Seq<char>,
    vars: Map<Seq<char>, Seq<char>>,
)
    requires
        text::find_spec(before + "{{"@, "{{"@) == Some(before.len()),
        text::find_spec(key + "}}"@, "}}"@) == Some(key.len()),
        vars.dom().contains(key),
    ensures
        expand_spec(before + "{{"@ + key + "}}"@ + after, vars) == before + vars[key]
            + expand_spec(after, vars),
{
    reveal_strlit("{{");
    reveal_strlit("}}");
    let tail = key + "}}"@ + after;
    let s = before + "{{"@ + key + "}}"@ + after;
    assert(s =~= (before + "{{"@) + tail);
    lemma_find_extends(before + "{{"@, tail, "{{"@);
    let rest = s.skip(before.len() as int + 2);
    assert(rest =~= tail);
    assert(rest =~= (key + "}}"@) + after);
    lemma_find_extends(key + "}}"@, after, "}}"@);
    assert(rest.take(key.len() as int) =~= key);
    assert(rest.skip(key.len() as int + 2) =~= after);
    assert(s.take(before.len() as int) =~= before);
}

/// What is found in a text is found at the same place in a longer one.
proof fn lemma_find_extends(s: Seq<char>, more: Seq<char>, p: Seq<char>)
    requires
        text::find_spec(s, p) is Some,
        p.len() == 2,
    ensures
        text::find_spec(s + more, p) == text::find_spec(s, p),
    decreases s.len(),
{
    let t = s + more;
    if text::has_prefix(s, p) {
        assert(t.take(2) =~= s.take(2));
    } else {
        assert(s.len() > 0);
        lemma_find_extends(s.drop_first(), more, p);
        text::lemma_find_bound(s, p);
        assert(s.len() >= 2);
        assert(t.take(2) =~= s.take(2));
        assert(t.drop_first() =~= s.drop_first() + more);
    }
}

/// Every string of a value, expanded.
pub open spec fn substituted(j: JsonView, vars: Map<Seq<char>, Seq<char>>) -> JsonView
    decreases j,
{
    match j {
        JsonView::Text(s) => JsonView::Text(expand_spec(s, vars)),
        JsonView::List(items) => JsonView::List(list_substituted(items, vars)),
        JsonView::Object(fields) => JsonView::Object(fields_substituted(fields, vars)),
        _ => j,
    }
}

pub open spec fn list_substituted(
    items: Seq<JsonView>,
    vars: Map<Seq<char>, Seq<char>>,
) -> Seq<JsonView>
    decreases items,
{
    if items.len() == 0 {
        Seq::empty()
    } else {
        list_substituted(items.drop_last(), vars).push(substituted(items.last(), vars))
    }
}

pub open spec fn fields_substituted(
    fields: Seq<(Seq<char>, JsonView)>,
    vars: Map<Seq<char>, Seq<char>>,
) -> Seq<(Seq<char>, JsonView)>
    decreases fields,
{
    if fields.len() == 0 {
        Seq::empty()
    } else {
        fields_substituted(fields.drop_last(), vars).push(
            (fields.last().0, substituted(fields.last().1, vars)),
        )
    }
}

/// Expands the placeholders in every string of a value.
#[verifier::loop_isolation(false)]
pub fn substitute_strings(value: &Json, vars: &StrMap<String>) -> (r: Json)
    requires
        vars.wf(),
    ensures
        json::json_view(r) == substituted(json::json_view(*value), vars_view(*vars)),
    decreases *value,
{
    let ghost map = vars_view(*vars);
    match value {
        Json::Null => Json::Null,
        Json::Bool(b) => Json::Bool(*b),
        Json::Number(s) => Json::Number(s.clone()),
        Json::Text(s) => Json::Text(expand_placeholders(s.as_str(), vars)),
        Json::List(items) => {
            let mut out: Vec<Json> = Vec::new();
            let mut i: usize = 0;
            while i < items.len()
                invariant
                    i <= items@.len(),
                    *value == Json::List(*items),
                    json::list_view(out@) == list_substituted(
                        json::list_view(items@.take(i as int)),
                        map,
                    ),
                decreases items@.len() - i,
            {
                proof {
                    assert(decreases_to!(*value => value->List_0));
                    assert(decreases_to!(items => items@));
                    assert(decreases_to!(items@ => items@[i as int]));
                }
                let j: Json = substitute_strings(&items[i], vars);
                proof {
                    assert(out@.push(j).drop_last() =~= out@);
                    let now = items@.take(i + 1);
                    assert(now.drop_last() =~= items@.take(i as int));
                    assert(now.last() == items@[i as int]);
                    let seen = json::list_view(now);
                    assert(seen.drop_last() =~= json::list_view(items@.take(i as int)));
                }
                out.push(j);
                i = i + 1;
            }
            assert(items@.take(items@.len() as int) =~= items@);
            Json::List(out)
        },
        Json::Object(fields) => {
            let mut out: Vec<(String, Json)> = Vec::new();
            let mut i: usize = 0;
            while i < fields.len()
                invariant
                    i <= fields@.len(),
                    *value == Json::Object(*fields),
                    json::fields_view(out@) == fields_substituted(
                        json::fields_view(fields@.take(i as int)),
                        map,
                    ),
                decreases fields@.len() - i,
            {
                proof {
                    assert(decreases_to!(*value => value->Object_0));
                    assert(decreases_to!(fields => fields@));
                    assert(decreases_to!(fields@ => fields@[i as int]));
                    assert(decreases_to!(fields@[i as int] => fields@[i as int].1));
                }
                let j: Json = substitute_strings(&fields[i].1, vars);
                let f: (String, Json) = (fields[i].0.clone(), j);
                proof {
                    assert(out@.push(f).drop_last() =~= out@);
                    let now = fields@.take(i + 1);
                    assert(now.drop_last() =~= fields@.take(i as int));
                    assert(now.last() == fields@[i as int]);
                    let seen = json::fields_view(now);
                    assert(seen.drop_last() =~= json::fields_view(fields@.take(i as int)));
                }
                out.push(f);
                i = i + 1;
            }
            assert(fields@.take(fields@.len() as int) =~= fields@);
            Json::Object(out)
        },
    }
}

// ---------------------------------------------------------------------------
// Images
// ---------------------------------------------------------------------------

pub open spec fn image_views(images: Seq<ImageRef>) -> Seq<ImageView> {
    images.map_values(|i: ImageRef| i@)
}

/// The images of each group.
pub open spec fn images_view(images: StrMap<Vec<ImageRef>>) -> Map<Seq<char>, Seq<ImageView>> {
    images@.map_values(|v: Vec<ImageRef>| image_views(v@))
}

/// The element that shows an image.
pub open spec fn img_spec(image: ImageView) -> JsonView {
    JsonView::Object(
        seq![
            (
                "alt"@,
                JsonView::Object(
                    seq![
                        ("content"@, JsonView::Text(image.alt)),
                        ("tag"@, JsonView::Text("plain_text"@)),
                    ],
                ),
            ),
            ("img_key"@, JsonView::Text(placeholder_spec(image.path))),
            ("tag"@, JsonView::Text("img"@)),
        ],
    )
}

/// The group that an image marker names; none of other elements.
pub open spec fn marker_group(j: JsonView) -> Option<Seq<char>> {
    if json::text_of(json::get_spec(j, "tag"@)) == Some("__images__"@) {
        json::text_of(json::get_spec(j, "group"@))
    } else {
        None
    }
}

/// The elements of a group's images.
pub open spec fn group_elements(images: Map<Seq<char>, Seq<ImageView>>, group: Seq<char>) -> Seq<
    JsonView,
> {
    if images.dom().contains(group) {
        images[group].map_values(|i: ImageView| img_spec(i))
    } else {
        Seq::empty()
    }
}

/// A value with the image markers in its lists expanded.
pub open spec fn with_images(j: JsonView, images: Map<Seq<char>, Seq<ImageView>>) -> JsonView
    decreases j,
{
    match j {
        JsonView::List(items) => JsonView::List(list_with_images(items, images)),
        JsonView::Object(fields) => JsonView::Object(fields_with_images(fields, images)),
        _ => j,
    }
}

pub open spec fn list_with_images(
    items: Seq<JsonView>,
    images: Map<Seq<char>, Seq<ImageView>>,
) -> Seq<JsonView>
    decreases items,
{
    if items.len() == 0 {
        Seq::empty()
    } else {
        let before = list_with_images(items.drop_last(), images);
        match marker_group(items.last()) {
            Some(group) => before + group_elements(images, group),
            None => before.push(with_images(items.last(), images)),
        }
    }
}

pub open spec fn fields_with_images(
    fields: Seq<(Seq<char>, JsonView)>,
    images: Map<Seq<char>, Seq<ImageView>>,
) -> Seq<(Seq<char>, JsonView)>
    decreases fields,
{
    if fields.len() == 0 {
        Seq::empty()
    } else {
        fields_with_images(fields.drop_last(), images).push(
            (fields.last().0, with_images(fields.last().1, images)),
        )
    }
}

fn text_field(name: &str, value: String) -> (f: (String, Json))
    ensures
        f.0@ == name@,
        json::json_view(f.1) == JsonView::Text(value@),
{
    (name.to_string(), Json::Text(value))
}

/// The element that shows an image.
fn img_element(image: &ImageRef) -> (j: Json)
    ensures
        json::json_view(j) == img_spec(image@),
{
    let mut alt: Vec<(String, Json)> = Vec::new();
    alt.push(text_field("content", image.alt.clone()));
    alt.push(text_field("tag", "plain_text".to_string()));
    let ghost alt_fields = json::fields_view(alt@);
    proof {
        json::lemma_fields_view_index(alt@, 0);
        json::lemma_fields_view_index(alt@, 1);
        assert(alt_fields =~= seq![
            ("content"@, JsonView::Text(image.alt@)),
            ("tag"@, JsonView::Text("plain_text"@)),
        ]);
    }
    let mut fields: Vec<(String, Json)> = Vec::new();
    let alt_field: (String, Json) = ("alt".to_string(), Json::Object(alt));
    fields.push(alt_field);
    fields.push(text_field("img_key", image_placeholder(image.path.as_str())));
    fields.push(text_field("tag", "img".to_string()));
    proof {
        json::lemma_fields_view_index(fields@, 0);
        json::lemma_fields_view_index(fields@, 1);
        json::lemma_fields_view_index(fields@, 2);
        assert(json::fields_view(fields@) =~= img_spec(image@)->Object_0);
    }
    Json::Object(fields)
}

/// Copies a value without its image markers: see [`with_images`].
#[verifier::loop_isolation(false)]
pub fn expand_image_markers(value: &Json, images: &StrMap<Vec<ImageRef>>) -> (r: Json)
    requires
        images.wf(),
    ensures
        json::json_view(r) == with_images(json::json_view(*value), images_view(*images)),
    decreases *value,
{
    let ghost map = images_view(*images);
    match value {
        Json::Null => Json::Null,
        Json::Bool(b) => Json::Bool(*b),
        Json::Number(s) => Json::Number(s.clone()),
        Json::Text(s) => Json::Text(s.clone()),
        Json::List(items) => {
            let mut out: Vec<Json> = Vec::new();
            let mut i: usize = 0;
            while i < items.len()
                invariant
                    i <= items@.len(),
                    *value == Json::List(*items),
                    json::list_view(out@) == list_with_images(
                        json::list_view(items@.take(i as int)),
                        map,
                    ),
                decreases items@.len() - i,
            {
                let item: &Json = &items[i];
                let ghost before = json::list_view(out@);
                proof {
                    assert(decreases_to!(*value => value->List_0));
                    assert(decreases_to!(items => items@));
                    assert(decreases_to!(items@ => items@[i as int]));
                    let now = items@.take(i + 1);
                    assert(now.drop_last() =~= items@.take(i as int));
                    assert(now.last() == items@[i as int]);
                    let seen = json::list_view(now);
                    assert(seen.drop_last() =~= json::list_view(items@.take(i as int)));
                    assert(seen.last() == json::json_view(*item));
                }
                let is_marker: bool = match item.get_str("tag") {
                    Some(tag) => text::same(tag, "__images__"),
                    None => false,
                };
                let group: Option<&str> = if is_marker {
                    item.get_str("group")
                } else {
                    None
                };
                match group {
                    Some(group) => {
                        match images.get(group) {
                            Some(refs) => {
                                let ghost shown = group_elements(map, group@);
                                proof {
                                    assert(map.dom().contains(group@));
                                    assert(map[group@] == image_views(refs@));
                                    assert(before + shown.take(0) =~= before);
                                }
                                let mut k: usize = 0;
                                while k < refs.len()
                                    invariant
                                        k <= refs@.len(),
                                        shown.len() == refs@.len(),
                                        json::list_view(out@) == before + shown.take(k as int),
                                    decreases refs@.len() - k,
                                {
                                    let j: Json = img_element(&refs[k]);
                                    proof {
                                        assert(out@.push(j).drop_last() =~= out@);
                                        assert(shown[k as int] == json::json_view(j));
                                        assert(before + shown.take(k + 1) =~= (before
                                            + shown.take(k as int)).push(json::json_view(j)));
                                    }
                                    out.push(j);
                                    k = k + 1;
                                }
                                assert(shown.take(shown.len() as int) =~= shown);
                            },
                            None => {
                                assert(!map.dom().contains(group@));
                                assert(before + Seq::<JsonView>::empty() =~= before);
                            },
                        }
                    },
                    None => {
                        let j: Json = expand_image_markers(item, images);
                        proof {
                            assert(out@.push(j).drop_last() =~= out@);
                        }
                        out.push(j);
                    },
                }
                i = i + 1;
            }
            assert(items@.take(items@.len() as int) =~= items@);
            Json::List(out)
        },
        Json::Object(fields) => {
            let mut out: Vec<(String, Json)> = Vec::new();
            let mut i: usize = 0;
            while i < fields.len()
                invariant
                    i <= fields@.len(),
                    *value == Json::Object(*fields),
                    json::fields_view(out@) == fields_with_images(
                        json::fields_view(fields@.take(i as int)),
                        map,
                    ),
                decreases fields@.len() - i,
            {
                proof {
                    assert(decreases_to!(*value => value->Object_0));
                    assert(decreases_to!(fields => fields@));
                    assert(decreases_to!(fields@ => fields@[i as int]));
                    assert(decreases_to!(fields@[i as int] => fields@[i as int].1));
                }
                let j: Json = expand_image_markers(&fields[i].1, images);
                let f: (String, Json) = (fields[i].0.clone(), j);
                proof {
                    assert(out@.push(f).drop_last() =~= out@);
                    let now = fields@.take(i + 1);
                    assert(now.drop_last() =~= fields@.take(i as int));
                    assert(now.last() == fields@[i as int]);
                    let seen = json::fields_view(now);
                    assert(seen.drop_last() =~= json::fields_view(fields@.take(i as int)));
                }
                out.push(f);
                i = i + 1;
            }
            assert(fields@.take(fields@.len() as int) =~= fields@);
            Json::Object(out)
        },
    }
}

// ---------------------------------------------------------------------------
// Rendering
// ---------------------------------------------------------------------------

/// Fills a parsed template: `{{key}}` substitution, then `__images__`
/// expansion.
pub fn fill_template(
    template: &Json,
    vars: &StrMap<String>,
    images: &StrMap<Vec<ImageRef>>,
) -> (r: Json)
    requires
        vars.wf(),
        images.wf(),
    ensures
        json::json_view(r) == with_images(
            substituted(json::json_view(*template), vars_view(*vars)),
            images_view(*images),
        ),
{
    let filled: Json = substitute_strings(template, vars);
    expand_image_markers(&filled, images)
}

pub open spec fn image_paths(images: Seq<ImageView>) -> Seq<Seq<char>> {
    images.map_values(|i: ImageView| i.path)
}

/// Is `r` the card of a template whose only image group is `charts`, or the
/// error of a template that is not JSON?
pub open spec fn is_rendered(
    r: Result<RenderedCard, String>,
    template: Seq<char>,
    kind: CardKind,
    vars: Map<Seq<char>, Seq<char>>,
    charts: Seq<ImageView>,
) -> bool {
    match (r, json::parsed(template)) {
        (Ok(card), Ok(value)) => {
            &&& card.kind == kind
            &&& json::json_view(card.card) == with_images(
                substituted(value, vars),
                map!["charts"@ => charts],
            )
            &&& text::views(card.attachments@) == image_paths(charts)
        },
        (Err(e), Err(m)) => e@ == "card template for "@ + kind.name_spec() + " is not valid JSON: "@
            + m,
        _ => false,
    }
}

fn copy_images(images: &Vec<ImageRef>) -> (r: Vec<ImageRef>)
    ensures
        image_views(r@) == image_views(images@),
{
    let ghost all = image_views(images@);
    let mut out: Vec<ImageRef> = Vec::new();
    let mut i: usize = 0;
    while i < images.len()
        invariant
            i <= images@.len(),
            all == image_views(images@),
            image_views(out@) == all.take(i as int),
        decreases images@.len() - i,
    {
        let image = ImageRef { path: images[i].path.clone(), alt: images[i].alt.clone() };
        proof {
            assert(image_views(out@.push(image)) =~= image_views(out@).push(image@));
            assert(all[i as int] == image@);
            assert(all.take(i + 1) =~= all.take(i as int).push(image@));
        }
        out.push(image);
        i = i + 1;
    }
    assert(all.take(all.len() as int) =~= all);
    out
}

/// Renders a template with one group of images, `charts`.
pub fn render_template(
    template: &str,
    kind: CardKind,
    vars: &StrMap<String>,
    charts: &Vec<ImageRef>,
) -> (r: Result<RenderedCard, String>)
    requires
        vars.wf(),
    ensures
        is_rendered(r, template@, kind, vars_view(*vars), image_views(charts@)),
{
    let value: Json = match json::parse(template) {
        Ok(value) => value,
        Err(e) => {
            return Err(
                text::cat4(
                    "card template for ",
                    kind.name(),
                    " is not valid JSON: ",
                    e.as_str(),
                ),
            );
        },
    };
    let mut images: StrMap<Vec<ImageRef>> = StrMap::new();
    let group: Vec<ImageRef> = copy_images(charts);
    images.insert("charts".to_string(), group);
    proof {
        assert(images_view(images) =~= map!["charts"@ => image_views(charts@)]);
    }
    let card: Json = fill_template(&value, vars, &images);
    let ghost all = image_paths(image_views(charts@));
    let mut attachments: Vec<String> = Vec::new();
    let mut i: usize = 0;
    while i < charts.len()
        invariant
            i <= charts@.len(),
            all == image_paths(image_views(charts@)),
            text::views(attachments@) == all.take(i as int),
        decreases charts@.len() - i,
    {
        let path: String = charts[i].path.clone();
        proof {
            text::lemma_views_push(attachments@, path);
            assert(all.take(i + 1) =~= all.take(i as int).push(all[i as int]));
        }
        attachments.push(path);
        i = i + 1;
    }
    assert(all.take(all.len() as int) =~= all);
    Ok(RenderedCard { kind, card, attachments })
}

/// A ratio as it is shown: two decimals and a times sign.
pub open spec fn ratio_text(r: Double) -> Seq<char> {
    r.fixed_spec(2, false) + "×"@
}

pub fn format_ratio(r: Double) -> (s: String)
    ensures
        s@ == ratio_text(r),
{
    text::cat2(r.fixed(2, false).as_str(), "×")
}

/// `[<short sha>](https://github.com/<repo>/commit/<sha>)`.
pub open spec fn link_spec(github: Seq<char>, sha: Seq<char>) -> Seq<char> {
    "["@ + storage::short_spec(sha) + "](https://github.com/"@ + github + "/commit/"@ + sha + ")"@
}

pub fn commit_link(github: &str, sha: &str) -> (r: String)
    requires
        storage::can_shorten(sha@),
    ensures
        r@ == link_spec(github@, sha@),
{
    text::cat7(
        "[",
        storage::short_sha(sha),
        "](https://github.com/",
        github,
        "/commit/",
        sha,
        ")",
    )
}

// ---------------------------------------------------------------------------
// The alert card
// ---------------------------------------------------------------------------

/// One regressed / recovered row for the alert card.
#[derive(Debug, Clone, PartialEq)]
pub struct AlertRow {
    /// Full row key, e.g. `salt_dynamic_gas/rex5_salt/sstore_100`.
    pub row_key: String,
    /// Rolling-median baseline ratio before this run.
    pub median: Double,
    /// This run's ratio.
    pub current: Double,
}

impl AlertRow {
    /// How far the ratio lies from the median, in percent.
    pub fn pct_change(&self) -> (r: Double)
        ensures
            r == state::pct_over_spec(self.current, self.median),
    {
        self.current.minus(self.median).over(self.median).times(
            Double::from_bits(double::HUNDRED),
        )
    }
}

/// Params for the regression-alert / recovery card (same layout, different
/// color and wording).
#[derive(Debug, Clone, PartialEq)]
pub struct AlertCardParams {
    pub repo_name: String,
    /// `owner/repo` for commit links.
    pub github: String,
    pub sha: String,
    /// Rows that just crossed the regression threshold.
    pub regressed: Vec<AlertRow>,
    /// Rows that just recovered back under it.
    pub recovered: Vec<AlertRow>,
    /// Charts to embed.
    pub images: Vec<ImageRef>,
    /// The threshold/window that produced this alert (footer text).
    pub threshold_pct: Double,
    pub window: usize,
}

/// `- **<key>**: <median> → <current> (**<change>%**)`.
pub open spec fn regressed_line(row: AlertRow) -> Seq<char> {
    "- **"@ + row.row_key@ + "**: "@ + ratio_text(row.median) + " → "@ + ratio_text(row.current)
        + (" (**"@ + state::pct_over_spec(row.current, row.median).fixed_spec(1, true) + "%**)\n"@)
}

pub open spec fn recovered_line(row: AlertRow) -> Seq<char> {
    "- **"@ + row.row_key@ + "**: 回到 "@ + ratio_text(row.current) + " (滚动中位数 "@
        + ratio_text(row.median) + ")\n"@
}

pub open spec fn regressed_lines(rows: Seq<AlertRow>) -> Seq<char>
    decreases rows.len(),
{
    if rows.len() == 0 {
        Seq::empty()
    } else {
        regressed_lines(rows.drop_last()) + regressed_line(rows.last())
    }
}

pub open spec fn recovered_lines(rows: Seq<AlertRow>) -> Seq<char>
    decreases rows.len(),
{
    if rows.len() == 0 {
        Seq::empty()
    } else {
        recovered_lines(rows.drop_last()) + recovered_line(rows.last())
    }
}

/// The body of an alert card: the commit, then the rows that regressed, then
/// those that recovered.
pub open spec fn alert_body(params: AlertCardParams) -> Seq<char> {
    let head = "**提交:** "@ + link_spec(params.github@, params.sha@) + "\n"@;
    let regressed = if params.regressed@.len() == 0 {
        Seq::empty()
    } else {
        "\n**回归行**（相对 revm_pinned 的倍率 vs 滚动中位数）:\n"@ + regressed_lines(
            params.regressed@,
        )
    };
    let recovered = if params.recovered@.len() == 0 {
        Seq::empty()
    } else {
        "\n**已恢复**:\n"@ + recovered_lines(params.recovered@)
    };
    head + regressed + recovered
}

/// An alert with a regressed row is a regression alert, else a recovery.
pub open spec fn alert_kind(params: AlertCardParams) -> CardKind {
    if params.regressed@.len() > 0 {
        CardKind::RegressionAlert
    } else {
        CardKind::Recovery
    }
}

pub open spec fn alert_title(params: AlertCardParams) -> Seq<char> {
    let short = storage::short_spec(params.sha@);
    if params.regressed@.len() > 0 {
        "⚠️ "@ + params.repo_name@ + " 基准回归告警 @ "@ + short
    } else {
        "✅ "@ + params.repo_name@ + " 基准回归恢复 @ "@ + short
    }
}

pub open spec fn alert_footer(params: AlertCardParams) -> Seq<char> {
    "mega-bench-reporter · 阈值 +"@ + params.threshold_pct.fixed_spec(0, false)
        + "% vs 滚动中位数（窗口 "@ + numerals::digits(params.window as nat, 10) + "）"@
}

/// What the placeholders of an alert card stand for.
pub open spec fn alert_vars(params: AlertCardParams) -> Map<Seq<char>, Seq<char>> {
    let color = if params.regressed@.len() > 0 {
        "red"@
    } else {
        "green"@
    };
    map![
        "header_color"@ => color,
        "title"@ => alert_title(params),
        "body_md"@ => alert_body(params),
        "footer"@ => alert_footer(params),
    ]
}

fn regressed_text(rows: &Vec<AlertRow>) -> (r: String)
    ensures
        r@ == regressed_lines(rows@),
{
    let mut out: String = String::new();
    let mut i: usize = 0;
    while i < rows.len()
        invariant
            i <= rows@.len(),
            out@ == regressed_lines(rows@.take(i as int)),
        decreases rows@.len() - i,
    {
        let row: &AlertRow = &rows[i];
        proof {
            assert(rows@.take(i + 1).drop_last() =~= rows@.take(i as int));
            assert(rows@.take(i + 1).last() == rows@[i as int]);
        }
        let change: String = text::cat3(
            " (**",
            row.pct_change().fixed(1, true).as_str(),
            "%**)\n",
        );
        let line: String = text::cat7(
            "- **",
            row.row_key.as_str(),
            "**: ",
            format_ratio(row.median).as_str(),
            " → ",
            format_ratio(row.current).as_str(),
            change.as_str(),
        );
        out = text::cat2(out.as_str(), line.as_str());
        i = i + 1;
    }
    assert(rows@.take(rows@.len() as int) =~= rows@);
    out
}

fn recovered_text(rows: &Vec<AlertRow>) -> (r: String)
    ensures
        r@ == recovered_lines(rows@),
{
    let mut out: String = String::new();
    let mut i: usize = 0;
    while i < rows.len()
        invariant
            i <= rows@.len(),
            out@ == recovered_lines(rows@.take(i as int)),
        decreases rows@.len() - i,
    {
        let row: &AlertRow = &rows[i];
        proof {
            assert(rows@.take(i + 1).drop_last() =~= rows@.take(i as int));
            assert(rows@.take(i + 1).last() == rows@[i as int]);
        }
        let line: String = text::cat7(
            "- **",
            row.row_key.as_str(),
            "**: 回到 ",
            format_ratio(row.current).as_str(),
            " (滚动中位数 ",
            format_ratio(row.median).as_str(),
            ")\n",
        );
        out = text::cat2(out.as_str(), line.as_str());
        i = i + 1;
    }
    assert(rows@.take(rows@.len() as int) =~= rows@);
    out
}

proof fn lemma_vars_insert(vars: Map<Seq<char>, String>, k: Seq<char>, v: String)
    ensures
        vars.insert(k, v).map_values(|s: String| s@) == vars.map_values(|s: String| s@).insert(
            k,
            v@,
        ),
{
    assert(vars.insert(k, v).map_values(|s: String| s@) =~= vars.map_values(|s: String| s@).insert(
        k,
        v@,
    ));
}

/// Sets what a placeholder stands for.
fn set_var(vars: &mut StrMap<String>, key: &str, value: String)
    requires
        old(vars).wf(),
    ensures
        final(vars).wf(),
        vars_view(*final(vars)) == vars_view(*old(vars)).insert(key@, value@),
{
    proof {
        lemma_vars_insert(vars@, key@, value);
    }
    vars.insert(key.to_string(), value);
}

/// The regression-alert / recovery card.
pub fn render_alert_card(params: &AlertCardParams, template: &str) -> (r: Result<
    RenderedCard,
    String,
>)
    requires
        storage::can_shorten(params.sha@),
    ensures
        if params.regressed@.len() == 0 && params.recovered@.len() == 0 {
            r matches Err(e) && e@ == "alert card requested with no regressed or recovered rows"@
        } else {
            is_rendered(
                r,
                template@,
                alert_kind(*params),
                alert_vars(*params),
                image_views(params.images@),
            )
        },
{
    if params.regressed.len() == 0 && params.recovered.len() == 0 {
        return Err("alert card requested with no regressed or recovered rows".to_string());
    }
    let is_regression: bool = params.regressed.len() > 0;
    let kind: CardKind = if is_regression {
        CardKind::RegressionAlert
    } else {
        CardKind::Recovery
    };
    let color: String = if is_regression {
        "red".to_string()
    } else {
        "green".to_string()
    };
    let short: &str = storage::short_sha(params.sha.as_str());
    let title: String = if is_regression {
        text::cat4("⚠️ ", params.repo_name.as_str(), " 基准回归告警 @ ", short)
    } else {
        text::cat4("✅ ", params.repo_name.as_str(), " 基准回归恢复 @ ", short)
    };
    let link: String = commit_link(params.github.as_str(), params.sha.as_str());
    let head: String = text::cat3("**提交:** ", link.as_str(), "\n");
    let regressed: String = if params.regressed.len() == 0 {
        String::new()
    } else {
        text::cat2(
            "\n**回归行**（相对 revm_pinned 的倍率 vs 滚动中位数）:\n",
            regressed_text(&params.regressed).as_str(),
        )
    };
    let recovered: String = if params.recovered.len() == 0 {
        String::new()
    } else {
        text::cat2("\n**已恢复**:\n", recovered_text(&params.recovered).as_str())
    };
    let body: String = text::cat3(head.as_str(), regressed.as_str(), recovered.as_str());
    let footer: String = text::cat5(
        "mega-bench-reporter · 阈值 +",
        params.threshold_pct.fixed(0, false).as_str(),
        "% vs 滚动中位数（窗口 ",
        numerals::decimal(params.window as u64).as_str(),
        "）",
    );
    let mut vars: StrMap<String> = StrMap::new();
    proof {
        assert(vars_view(vars) =~= Map::empty());
    }
    set_var(&mut vars, "header_color", color);
    set_var(&mut vars, "title", title);
    set_var(&mut vars, "body_md", body);
    set_var(&mut vars, "footer", footer);
    proof {
        assert(vars_view(vars) =~= alert_vars(*params));
    }
    render_template(template, kind, &vars, &params.images)
}

// ---------------------------------------------------------------------------
// The digest card
// ---------------------------------------------------------------------------

/// One table row of the trend-digest card.
#[derive(Debug, Clone, PartialEq)]
pub struct DigestTableRow {
    pub row_key: String,
    /// Ratio at the first / last commit of the window (none = row missing that
    /// run, rendered as a dash).
    pub first: Option<Double>,
    pub last: Option<Double>,
    /// Median ratio across the window.
    pub median: Option<Double>,
}

/// How far the last ratio lies from the first, in percent.
pub open spec fn delta_pct_spec(first: Option<Double>, last: Option<Double>) -> Option<Double> {
    match (first, last) {
        (Some(f), Some(l)) => if f.zero() {
            None
        } else {
            Some(state::pct_over_spec(l, f))
        },
        _ => None,
    }
}

impl DigestTableRow {
    pub fn delta_pct(&self) -> (r: Option<Double>)
        ensures
            r == delta_pct_spec(self.first, self.last),
    {
        match (self.first, self.last) {
            (Some(f), Some(l)) => if f.bits % double::SIGN == 0 {
                None
            } else {
                Some(l.minus(f).over(f).times(Double::from_bits(double::HUNDRED)))
            },
            _ => None,
        }
    }
}

/// A ratio, or a dash.
pub open spec fn opt_ratio_text(r: Option<Double>) -> Seq<char> {
    match r {
        Some(r) => ratio_text(r),
        None => "–"@,
    }
}

fn opt_ratio(r: Option<Double>) -> (s: String)
    ensures
        s@ == opt_ratio_text(r),
{
    match r {
        Some(r) => format_ratio(r),
        None => "–".to_string(),
    }
}

/// Params for the trend-digest card.
#[derive(Debug, Clone, PartialEq)]
pub struct DigestCardParams {
    pub repo_name: String,
    pub github: String,
    pub first_sha: String,
    pub last_sha: String,
    pub commit_count: usize,
    pub rows: Vec<DigestTableRow>,
    /// Bench targets that failed in any commit of the window.
    pub failed_targets: Vec<String>,
    pub trend_image: ImageRef,
}

/// `|<key>|<median>|<first>|<last>|<delta>|`.
pub open spec fn table_line(row: DigestTableRow) -> Seq<char> {
    let delta = match delta_pct_spec(row.first, row.last) {
        Some(d) => d.fixed_spec(1, true) + "%"@,
        None => "–"@,
    };
    ("|"@ + row.row_key@ + "|"@ + opt_ratio_text(row.median) + "|"@) + (opt_ratio_text(row.first)
        + "|"@ + opt_ratio_text(row.last) + "|"@ + delta + "|\n"@)
}

pub open spec fn table_lines(rows: Seq<DigestTableRow>) -> Seq<char>
    decreases rows.len(),
{
    if rows.len() == 0 {
        "|基准行|区间中位|首次|最新|Δ 首→末|\n|---|---|---|---|---|\n"@
    } else {
        table_lines(rows.drop_last()) + table_line(rows.last())
    }
}

/// The table of a digest card, with the failed targets called out.
pub open spec fn digest_table(params: DigestCardParams) -> Seq<char> {
    if params.failed_targets@.len() == 0 {
        table_lines(params.rows@)
    } else {
        table_lines(params.rows@) + ("\n⚠️ 区间内有失败的 bench target: "@ + text::join_spec(
            text::views(params.failed_targets@),
            ", "@,
        ) + "\n"@)
    }
}

/// What the placeholders of a digest card stand for.
pub open spec fn digest_vars(params: DigestCardParams) -> Map<Seq<char>, Seq<char>> {
    map![
        "title"@ => "📈 "@ + params.repo_name@ + " 基准趋势汇总（近 "@ + numerals::digits(
            params.commit_count as nat,
            10,
        ) + " 次提交）"@,
        "summary_md"@ => "**区间:** "@ + link_spec(params.github@, params.first_sha@) + " … "@
            + link_spec(params.github@, params.last_sha@)
            + "\n**基准行倍率均为相对 revm_pinned 的执行耗时比（越低越好）**"@,
        "table_md"@ => digest_table(params),
        "footer"@ => "mega-bench-reporter · 每 10 次提交自动汇总"@,
    ]
}

fn table_text(rows: &Vec<DigestTableRow>) -> (r: String)
    ensures
        r@ == table_lines(rows@),
{
    let mut out: String =
        "|基准行|区间中位|首次|最新|Δ 首→末|\n|---|---|---|---|---|\n".to_string();
    let mut i: usize = 0;
    while i < rows.len()
        invariant
            i <= rows@.len(),
            out@ == table_lines(rows@.take(i as int)),
        decreases rows@.len() - i,
    {
        let row: &DigestTableRow = &rows[i];
        proof {
            assert(rows@.take(i + 1).drop_last() =~= rows@.take(i as int));
            assert(rows@.take(i + 1).last() == rows@[i as int]);
        }
        let delta: String = match row.delta_pct() {
            Some(d) => text::cat2(d.fixed(1, true).as_str(), "%"),
            None => "–".to_string(),
        };
        let front: String = text::cat5(
            "|",
            row.row_key.as_str(),
            "|",
            opt_ratio(row.median).as_str(),
            "|",
        );
        let back: String = text::cat6(
            opt_ratio(row.first).as_str(),
            "|",
            opt_ratio(row.last).as_str(),
            "|",
            delta.as_str(),
            "|\n",
        );
        let line: String = text::cat2(front.as_str(), back.as_str());
        out = text::cat2(out.as_str(), line.as_str());
        i = i + 1;
    }
    assert(rows@.take(rows@.len() as int) =~= rows@);
    out
}

/// The trend-digest card.
pub fn render_digest_card(params: &DigestCardParams, template: &str) -> (r: Result<
    RenderedCard,
    String,
>)
    requires
        storage::can_shorten(params.first_sha@),
        storage::can_shorten(params.last_sha@),
    ensures
        is_rendered(
            r,
            template@,
            CardKind::TrendDigest,
            digest_vars(*params),
            seq![params.trend_image@],
        ),
{
    let title: String = text::cat5(
        "📈 ",
        params.repo_name.as_str(),
        " 基准趋势汇总（近 ",
        numerals::decimal(params.commit_count as u64).as_str(),
        " 次提交）",
    );
    let first: String = commit_link(params.github.as_str(), params.first_sha.as_str());
    let last: String = commit_link(params.github.as_str(), params.last_sha.as_str());
    let summary: String = text::cat5(
        "**区间:** ",
        first.as_str(),
        " … ",
        last.as_str(),
        "\n**基准行倍率均为相对 revm_pinned 的执行耗时比（越低越好）**",
    );
    let rows: String = table_text(&params.rows);
    let table: String = if params.failed_targets.len() == 0 {
        rows
    } else {
        let names: String = text::join(&params.failed_targets, ", ");
        let note: String = text::cat3(
            "\n⚠️ 区间内有失败的 bench target: ",
            names.as_str(),
            "\n",
        );
        text::cat2(rows.as_str(), note.as_str())
    };
    let mut vars: StrMap<String> = StrMap::new();
    proof {
        assert(vars_view(vars) =~= Map::empty());
    }
    set_var(&mut vars, "title", title);
    set_var(&mut vars, "summary_md", summary);
    set_var(&mut vars, "table_md", table);
    set_var(&mut vars, "footer", "mega-bench-reporter · 每 10 次提交自动汇总".to_string());
    proof {
        assert(vars_view(vars) =~= digest_vars(*params));
    }
    let mut charts: Vec<ImageRef> = Vec::new();
    charts.push(
        ImageRef { path: params.trend_image.path.clone(), alt: params.trend_image.alt.clone() },
    );
    assert(image_views(charts@) =~= seq![params.trend_image@]);
    render_template(template, CardKind::TrendDigest, &vars, &charts)
}

} // verus!
