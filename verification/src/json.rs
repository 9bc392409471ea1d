//! JSON values: what `serde_json` reads, as a plain tree.
use crate::text;
use vstd::prelude::*;

verus! {

/// A JSON value. Numbers keep the text that they are written as.
#[derive(Debug)]
pub enum Json {
    Null,
    Bool(bool),
    Number(String),
    Text(String),
    List(Vec<Json>),
    Object(Vec<(String, Json)>),
}

/// A JSON value's contents.
pub enum JsonView {
    Null,
    Bool(bool),
    Number(Seq<char>),
    Text(Seq<char>),
    List(Seq<JsonView>),
    Object(Seq<(Seq<char>, JsonView)>),
}

pub open spec fn json_view(j: Json) -> JsonView
    decreases j,
{
    match j {
        Json::Null => JsonView::Null,
        Json::Bool(b) => JsonView::Bool(b),
        Json::Number(s) => JsonView::Number(s@),
        Json::Text(s) => JsonView::Text(s@),
        Json::List(items) => JsonView::List(list_view(items@)),
        Json::Object(fields) => JsonView::Object(fields_view(fields@)),
    }
}

pub open spec fn list_view(items: Seq<Json>) -> Seq<JsonView>
    decreases items,
{
    if items.len() == 0 {
        Seq::empty()
    } else {
        list_view(items.drop_last()).push(json_view(items.last()))
    }
}

pub open spec fn fields_view(fields: Seq<(String, Json)>) -> Seq<(Seq<char>, JsonView)>
    decreases fields,
{
    if fields.len() == 0 {
        Seq::empty()
    } else {
        fields_view(fields.drop_last()).push((fields.last().0@, json_view(fields.last().1)))
    }
}

// ---------------------------------------------------------------------------
// Reading
// ---------------------------------------------------------------------------

#[verifier::external_type_specification]
#[verifier::external_body]
pub struct ExValue(serde_json::Value);

/// The contents of a value that `serde_json` holds.
pub uninterp spec fn contents(value: serde_json::Value) -> JsonView;

/// What `serde_json` makes of a text: the contents of the value it reads, or
/// the message of the error it reports.
pub uninterp spec fn parsed(input: Seq<char>) -> Result<JsonView, Seq<char>>;

/// Calls `serde_json::from_str::<serde_json::Value>`. What it reads from a
/// text, and the message where the text is not JSON, is a function of the text
/// alone.
#[verifier::external_body]
fn read_value(input: &str) -> (r: Result<serde_json::Value, String>)
    ensures
        match r {
            Ok(value) => parsed(input@) == Result::<JsonView, Seq<char>>::Ok(contents(value)),
            Err(e) => parsed(input@) == Result::<JsonView, Seq<char>>::Err(e@),
        },
{
    serde_json::from_str::<serde_json::Value>(input).map_err(|e| e.to_string())
}

/// One layer of a `serde_json` value.
pub enum JsonNode {
    Null,
    Bool(bool),
    Number(String),
    Text(String),
    List(Vec<serde_json::Value>),
    Object(Vec<(String, serde_json::Value)>),
}

pub open spec fn node_view(node: JsonNode) -> JsonView {
    match node {
        JsonNode::Null => JsonView::Null,
        JsonNode::Bool(b) => JsonView::Bool(b),
        JsonNode::Number(s) => JsonView::Number(s@),
        JsonNode::Text(s) => JsonView::Text(s@),
        JsonNode::List(items) => JsonView::List(
            items@.map_values(|v: serde_json::Value| contents(v)),
        ),
        JsonNode::Object(fields) => JsonView::Object(
            fields@.map_values(|f: (String, serde_json::Value)| (f.0@, contents(f.1))),
        ),
    }
}

/// Takes a `serde_json::Value` apart into its variant: an array into its
/// items, an object into its fields as its iterator yields them, a number into
/// the text that its `Display` writes. The layer has the value's contents.
#[verifier::external_body]
fn open_value(value: serde_json::Value) -> (node: JsonNode)
    ensures
        node_view(node) == contents(value),
{
    match value {
        serde_json::Value::Null => JsonNode::Null,
        serde_json::Value::Bool(b) => JsonNode::Bool(b),
        serde_json::Value::Number(n) => JsonNode::Number(n.to_string()),
        serde_json::Value::String(s) => JsonNode::Text(s),
        serde_json::Value::Array(items) => JsonNode::List(items),
        serde_json::Value::Object(fields) => JsonNode::Object(fields.into_iter().collect()),
    }
}

proof fn lemma_list_view_push(items: Seq<Json>, j: Json)
    ensures
        list_view(items.push(j)) == list_view(items).push(json_view(j)),
{
    assert(items.push(j).drop_last() =~= items);
}

proof fn lemma_fields_view_push(fields: Seq<(String, Json)>, f: (String, Json))
    ensures
        fields_view(fields.push(f)) == fields_view(fields).push((f.0@, json_view(f.1))),
{
    assert(fields.push(f).drop_last() =~= fields);
}

/// The plain tree of a `serde_json` value.
#[verifier::loop_isolation(false)]
fn tree_of(value: serde_json::Value) -> (j: Json)
    ensures
        json_view(j) == contents(value),
    decreases contents(value),
{
    let ghost whole = contents(value);
    match open_value(value) {
        JsonNode::Null => Json::Null,
        JsonNode::Bool(b) => Json::Bool(b),
        JsonNode::Number(s) => Json::Number(s),
        JsonNode::Text(s) => Json::Text(s),
        JsonNode::List(values) => {
            let ghost all = values@.map_values(|v: serde_json::Value| contents(v));
            let mut rest: Vec<serde_json::Value> = values;
            let mut items: Vec<Json> = Vec::new();
            while rest.len() > 0
                invariant
                    whole == JsonView::List(all),
                    list_view(items@) == all.take(items@.len() as int),
                    items@.len() + rest@.len() == all.len(),
                    forall|k: int|
                        0 <= k < rest@.len() ==> contents(#[trigger] rest@[k]) == all[items@.len()
                            + k],
                decreases rest@.len(),
            {
                let ghost at = items@.len() as int;
                let ghost before = rest@;
                let v: serde_json::Value = rest.remove(0);
                proof {
                    assert(v == before[0]);
                    assert(contents(v) == all[at]);
                    assert(decreases_to!(whole => whole->List_0));
                    assert(decreases_to!(all => all[at]));
                    assert(decreases_to!(whole => contents(v)));
                }
                let j: Json = tree_of(v);
                proof {
                    lemma_list_view_push(items@, j);
                    assert(all.take(at + 1) =~= all.take(at).push(all[at]));
                }
                items.push(j);
                assert forall|k: int| 0 <= k < rest@.len() implies contents(#[trigger] rest@[k])
                    == all[items@.len() + k] by {
                    assert(rest@[k] == before[k + 1]);
                }
            }
            assert(all.take(all.len() as int) =~= all);
            Json::List(items)
        },
        JsonNode::Object(values) => {
            let ghost all = values@.map_values(
                |f: (String, serde_json::Value)| (f.0@, contents(f.1)),
            );
            let mut rest: Vec<(String, serde_json::Value)> = values;
            let mut fields: Vec<(String, Json)> = Vec::new();
            while rest.len() > 0
                invariant
                    whole == JsonView::Object(all),
                    fields_view(fields@) == all.take(fields@.len() as int),
                    fields@.len() + rest@.len() == all.len(),
                    forall|k: int|
                        0 <= k < rest@.len() ==> ((#[trigger] rest@[k]).0@, contents(rest@[k].1))
                            == all[fields@.len() + k],
                decreases rest@.len(),
            {
                let ghost at = fields@.len() as int;
                let ghost before = rest@;
                let (name, v): (String, serde_json::Value) = rest.remove(0);
                proof {
                    assert((name, v) == before[0]);
                    assert((name@, contents(v)) == all[at]);
                    assert(decreases_to!(whole => whole->Object_0));
                    assert(decreases_to!(all => all[at]));
                    assert(decreases_to!(all[at] => all[at].1));
                    assert(decreases_to!(whole => contents(v)));
                }
                let j: Json = tree_of(v);
                let field: (String, Json) = (name, j);
                proof {
                    lemma_fields_view_push(fields@, field);
                    assert(all.take(at + 1) =~= all.take(at).push(all[at]));
                }
                fields.push(field);
                assert forall|k: int| 0 <= k < rest@.len() implies ((#[trigger] rest@[k]).0@, contents(
                    rest@[k].1,
                )) == all[fields@.len() + k] by {
                    assert(rest@[k] == before[k + 1]);
                }
            }
            assert(all.take(all.len() as int) =~= all);
            Json::Object(fields)
        },
    }
}

/// Reads a JSON text.
pub fn parse(input: &str) -> (r: Result<Json, String>)
    ensures
        match r {
            Ok(j) => parsed(input@) == Result::<JsonView, Seq<char>>::Ok(json_view(j)),
            Err(e) => parsed(input@) == Result::<JsonView, Seq<char>>::Err(e@),
        },
{
    match read_value(input) {
        Ok(value) => Ok(tree_of(value)),
        Err(e) => Err(e),
    }
}

// ---------------------------------------------------------------------------
// Looking inside
// ---------------------------------------------------------------------------

/// The first field of this name.
pub open spec fn field_of(fields: Seq<(Seq<char>, JsonView)>, name: Seq<char>) -> Option<JsonView>
    decreases fields.len(),
{
    if fields.len() == 0 {
        None
    } else if fields[0].0 == name {
        Some(fields[0].1)
    } else {
        field_of(fields.drop_first(), name)
    }
}

/// A field of an object; none of anything else.
pub open spec fn get_spec(j: JsonView, name: Seq<char>) -> Option<JsonView> {
    match j {
        JsonView::Object(fields) => field_of(fields, name),
        _ => None,
    }
}

/// A text's characters; none of anything else.
pub open spec fn text_of(j: Option<JsonView>) -> Option<Seq<char>> {
    match j {
        Some(JsonView::Text(s)) => Some(s),
        _ => None,
    }
}

pub proof fn lemma_list_view_index(items: Seq<Json>, i: int)
    requires
        0 <= i < items.len(),
    ensures
        list_view(items).len() == items.len(),
        list_view(items)[i] == json_view(items[i]),
    decreases items.len(),
{
    let front = items.drop_last();
    lemma_list_view_len(front);
    if i < front.len() {
        lemma_list_view_index(front, i);
        assert(front[i] == items[i]);
    }
}

pub proof fn lemma_list_view_len(items: Seq<Json>)
    ensures
        list_view(items).len() == items.len(),
    decreases items.len(),
{
    if items.len() > 0 {
        lemma_list_view_len(items.drop_last());
    }
}

pub proof fn lemma_fields_view_index(fields: Seq<(String, Json)>, i: int)
    requires
        0 <= i < fields.len(),
    ensures
        fields_view(fields).len() == fields.len(),
        fields_view(fields)[i] == (fields[i].0@, json_view(fields[i].1)),
    decreases fields.len(),
{
    let front = fields.drop_last();
    lemma_fields_view_len(front);
    if i < front.len() {
        lemma_fields_view_index(front, i);
        assert(front[i] == fields[i]);
    }
}

pub proof fn lemma_fields_view_len(fields: Seq<(String, Json)>)
    ensures
        fields_view(fields).len() == fields.len(),
    decreases fields.len(),
{
    if fields.len() > 0 {
        lemma_fields_view_len(fields.drop_last());
    }
}

impl Json {
    /// A field of an object.
    pub fn get(&self, name: &str) -> (r: Option<&Json>)
        ensures
            match r {
                Some(j) => get_spec(json_view(*self), name@) == Some(json_view(*j)),
                None => get_spec(json_view(*self), name@) is None,
            },
    {
        match self {
            Json::Object(fields) => {
                let ghost all = fields_view(fields@);
                let mut i: usize = 0;
                proof {
                    lemma_fields_view_len(fields@);
                    assert(all.skip(0) =~= all);
                }
                while i < fields.len()
                    invariant
                        i <= fields@.len(),
                        json_view(*self) == JsonView::Object(all),
                        all == fields_view(fields@),
                        all.len() == fields@.len(),
                        field_of(all, name@) == field_of(all.skip(i as int), name@),
                    decreases fields@.len() - i,
                {
                    proof {
                        lemma_fields_view_index(fields@, i as int);
                        assert(all.skip(i as int)[0] == all[i as int]);
                    }
                    if text::same(fields[i].0.as_str(), name) {
                        return Some(&fields[i].1);
                    }
                    assert(all.skip(i as int).drop_first() =~= all.skip(i + 1));
                    i = i + 1;
                }
                assert(all.skip(i as int).len() == 0);
                None
            },
            _ => None,
        }
    }

    /// The text of a text value.
    pub fn as_str(&self) -> (r: Option<&str>)
        ensures
            match r {
                Some(s) => text_of(Some(json_view(*self))) == Some(s@),
                None => text_of(Some(json_view(*self))) is None,
            },
    {
        match self {
            Json::Text(s) => Some(s.as_str()),
            _ => None,
        }
    }

    /// The text of a field that holds one.
    pub fn get_str(&self, name: &str) -> (r: Option<&str>)
        ensures
            match r {
                Some(s) => text_of(get_spec(json_view(*self), name@)) == Some(s@),
                None => text_of(get_spec(json_view(*self), name@)) is None,
            },
    {
        match self.get(name) {
            Some(j) => j.as_str(),
            None => None,
        }
    }
}

} // verus!
