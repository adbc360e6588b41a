//! The parts of a JSON document that a configuration is read from.

use vstd::prelude::*;

verus! {

/// A JSON value, as far as the configuration looks at it: texts, lists and
/// records are told apart, everything else is `Other`.
#[derive(Eq, PartialEq, Debug)]
pub enum Json {
    /// A string.
    Text(String),
    /// An array, with its items in order.
    List(Vec<Json>),
    /// An object: the names of its members and, at the same positions, their
    /// values.
    Record(Vec<String>, Vec<Json>),
    /// A number, a boolean or null.
    Other,
}

/// The mathematical value of a [`Json`].
pub ghost enum JsonView {
    Text(Seq<char>),
    List(Seq<JsonView>),
    Record(Seq<Seq<char>>, Seq<JsonView>),
    Other,
}

/// The values of a sequence of JSON values, one by one.
pub open spec fn json_views(items: Seq<Json>) -> Seq<JsonView> {
    items.map_values(|item: Json| item@)
}

impl View for Json {
    type V = JsonView;

    open spec fn view(&self) -> JsonView
        decreases self,
    {
        match self {
            Json::Text(text) => JsonView::Text(text@),
            Json::List(items) => JsonView::List(
                Seq::new(
                    items@.len(),
                    |i: int|
                        if 0 <= i < items@.len() {
                            items@[i].view()
                        } else {
                            JsonView::Other
                        },
                ),
            ),
            Json::Record(names, values) => JsonView::Record(
                Seq::new(names@.len(), |i: int| names@[i]@),
                Seq::new(
                    values@.len(),
                    |i: int|
                        if 0 <= i < values@.len() {
                            values@[i].view()
                        } else {
                            JsonView::Other
                        },
                ),
            ),
            Json::Other => JsonView::Other,
        }
    }
}

/// The value of a list is the list of the values of its items.
pub proof fn lemma_list_view(items: Vec<Json>)
    ensures
        Json::List(items)@ == JsonView::List(json_views(items@)),
{
    assert(Json::List(items)@->List_0 =~= json_views(items@));
}

/// The value of a record holds the names and the values of its members.
pub proof fn lemma_record_view(names: Vec<String>, values: Vec<Json>)
    ensures
        Json::Record(names, values)@ == JsonView::Record(
            names@.map_values(|name: String| name@),
            json_views(values@),
        ),
{
    let record = Json::Record(names, values);
    assert(record@->Record_0 =~= names@.map_values(|name: String| name@));
    assert(record@->Record_1 =~= json_views(values@));
}

/// The position of the first member called `name` at or after `from`.
pub open spec fn position_of(names: Seq<Seq<char>>, name: Seq<char>, from: int) -> Option<int>
    decreases names.len() - from,
{
    if from < 0 || from >= names.len() {
        None
    } else if names[from] == name {
        Some(from)
    } else {
        position_of(names, name, from + 1)
    }
}

impl JsonView {
    /// The member called `name` of a record: the first of that name. There
    /// is none in anything but a record.
    pub open spec fn member(self, name: Seq<char>) -> Option<JsonView> {
        match self {
            JsonView::Record(names, values) => match position_of(names, name, 0) {
                Some(i) => if i < values.len() {
                    Some(values[i])
                } else {
                    None
                },
                None => None,
            },
            _ => None,
        }
    }

    /// The text of a member that is a string.
    pub open spec fn text_member(self, name: Seq<char>) -> Option<Seq<char>> {
        match self.member(name) {
            Some(JsonView::Text(text)) => Some(text),
            _ => None,
        }
    }

    /// The items of a member that is a list.
    pub open spec fn list_member(self, name: Seq<char>) -> Option<Seq<JsonView>> {
        match self.member(name) {
            Some(JsonView::List(items)) => Some(items),
            _ => None,
        }
    }
}

impl Json {
    /// The member called `name` of a record.
    pub fn member(&self, name: &str) -> (found: Option<&Json>)
        ensures
            match found {
                Some(value) => self@.member(name@) == Some(value@),
                None => self@.member(name@) is None,
            },
    {
        match self {
            Json::Record(names, values) => {
                proof {
                    lemma_record_view(*names, *values);
                }
                let wanted = name.to_owned();
                let ghost all = names@.map_values(|name: String| name@);
                let mut i: usize = 0;
                while i < names.len()
                    invariant
                        i <= names.len(),
                        wanted@ == name@,
                        all == names@.map_values(|name: String| name@),
                        self@ == JsonView::Record(all, json_views(values@)),
                        position_of(all, name@, 0) == position_of(all, name@, i as int),
                    decreases names.len() - i,
                {
                    assert(all[i as int] == names@[i as int]@);
                    if names[i] == wanted {
                        if i < values.len() {
                            assert(json_views(values@)[i as int] == values@[i as int]@);
                            return Some(&values[i]);
                        } else {
                            return None;
                        }
                    }
                    i += 1;
                }
                None
            },
            _ => None,
        }
    }

    /// The text of the member called `name`, where that is a string.
    pub fn text_member(&self, name: &str) -> (found: Option<&String>)
        ensures
            match found {
                Some(text) => self@.text_member(name@) == Some(text@),
                None => self@.text_member(name@) is None,
            },
    {
        match self.member(name) {
            Some(Json::Text(text)) => Some(text),
            _ => None,
        }
    }

    /// The items of the member called `name`, where that is a list.
    pub fn list_member(&self, name: &str) -> (found: Option<&Vec<Json>>)
        ensures
            match found {
                Some(items) => self@.list_member(name@) == Some(json_views(items@)),
                None => self@.list_member(name@) is None,
            },
    {
        match self.member(name) {
            Some(Json::List(items)) => {
                proof {
                    lemma_list_view(*items);
                }
                Some(items)
            },
            _ => None,
        }
    }
}

/// The document that the JSON parser reads from `text`, with strings as
/// texts, arrays as lists and objects as records of their members in the
/// order in which the parser keeps them: none where the text is no
/// well-formed JSON.
pub uninterp spec fn parsed_json(text: Seq<char>) -> Option<JsonView>;

/// A value of the JSON parser. Nothing in it is visible to the proofs: it
/// is only carried from the parser to [`json_value`].
#[verifier::external_type_specification]
#[verifier::external_body]
pub struct ExJsonValue(json::JsonValue);

/// Copies a value of the JSON parser into a [`Json`]: `JsonValue::Short` and
/// `JsonValue::String` become texts, arrays lists, objects records with
/// their members in the parser's order. Nothing is claimed of the copy by
/// itself: [`parse_json`] says what parsing and copying give together.
#[verifier::external_body]
fn json_value(value: &json::JsonValue) -> Json {
    match value {
        json::JsonValue::Short(text) => Json::Text(text.to_string()),
        json::JsonValue::String(text) => Json::Text(text.clone()),
        json::JsonValue::Array(items) => Json::List(items.iter().map(json_value).collect()),
        json::JsonValue::Object(object) => Json::Record(
            object.iter().map(|member| member.0.to_string()).collect(),
            object.iter().map(|member| json_value(member.1)).collect(),
        ),
        _ => Json::Other,
    }
}

/// Parses `text` with `json::parse`. Taken on trust: the result is the
/// document that [`parsed_json`] names, and there is none exactly where the
/// parser reports an error.
#[verifier::external_body]
pub(crate) fn parse_json(text: &str) -> (parsed: Option<Json>)
    ensures
        match parsed {
            Some(document) => parsed_json(text@) == Some(document@),
            None => parsed_json(text@) is None,
        },
{
    match json::parse(text) {
        Ok(value) => Some(json_value(&value)),
        Err(_) => None,
    }
}

} // verus!
