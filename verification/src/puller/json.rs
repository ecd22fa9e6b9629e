//! JSON values.
use vstd::prelude::*;

use crate::text;

verus! {

/// A JSON value.
#[derive(Debug)]
pub enum Json {
    Null,
    Bool(bool),
    /// Some number.
    Number,
    String(String),
    Array(Vec<Json>),
    /// An object, entry by entry. Where a key occurs twice, the first entry counts.
    Object(Vec<(String, Json)>),
}

/// What a JSON value amounts to.
pub ghost enum JsonView {
    Null,
    Bool(bool),
    Number,
    String(Seq<char>),
    Array(Seq<JsonView>),
    Object(Seq<(Seq<char>, JsonView)>),
}

impl Json {
    /// What the value amounts to.
    pub open spec fn view(self) -> JsonView
        decreases self,
    {
        match self {
            Json::Null => JsonView::Null,
            Json::Bool(value) => JsonView::Bool(value),
            Json::Number => JsonView::Number,
            Json::String(text) => JsonView::String(text@),
            Json::Array(items) => JsonView::Array(
                Seq::new(
                    items@.len(),
                    |i: int|
                        if 0 <= i < items@.len() {
                            items@[i].view()
                        } else {
                            JsonView::Null
                        },
                ),
            ),
            Json::Object(entries) => JsonView::Object(
                Seq::new(
                    entries@.len(),
                    |i: int|
                        if 0 <= i < entries@.len() {
                            (entries@[i].0@, entries@[i].1.view())
                        } else {
                            (Seq::empty(), JsonView::Null)
                        },
                ),
            ),
        }
    }
}

impl JsonView {
    /// The value of a key. `None` if it has none, or if this is no object.
    pub open spec fn get(self, key: Seq<char>) -> Option<JsonView> {
        match self {
            JsonView::Object(entries) => lookup(entries, key),
            _ => None,
        }
    }
}

/// The value in the first entry with the given key.
pub open spec fn lookup<V>(entries: Seq<(Seq<char>, V)>, key: Seq<char>) -> Option<V>
    decreases entries.len(),
{
    if entries.len() == 0 {
        None
    } else if entries.first().0 == key {
        Some(entries.first().1)
    } else {
        lookup(entries.drop_first(), key)
    }
}

impl Json {
    /// The value of a key. `None` if it has none, or if this is no object.
    pub fn get(&self, key: &str) -> (value: Option<&Json>)
        ensures
            match self@.get(key@) {
                Some(expected) => value matches Some(actual) && actual@ == expected,
                None => value is None,
            },
    {
        match self {
            Json::Object(entries) => {
                let ghost all = self@->Object_0;
                assert(all.skip(0) =~= all);
                for i in 0..entries.len()
                    invariant
                        *self == Json::Object(*entries),
                        all == self@->Object_0,
                        all.len() == entries.len(),
                        lookup(all, key@) == lookup(all.skip(i as int), key@),
                {
                    assert(all.skip(i as int).drop_first() =~= all.skip(i + 1));
                    assert(all[i as int] == (entries@[i as int].0@, entries@[i as int].1@));
                    if text::same(entries[i].0.as_str(), key) {
                        return Some(&entries[i].1);
                    }
                }
                None
            },
            _ => None,
        }
    }

    /// The text, if this is one.
    pub fn as_str(&self) -> (text: Option<&str>)
        ensures
            match self@ {
                JsonView::String(expected) => text matches Some(actual) && actual@ == expected,
                _ => text is None,
            },
    {
        match self {
            Json::String(text) => Some(text.as_str()),
            _ => None,
        }
    }

    /// The entries, if this is an object.
    pub fn as_object(&self) -> (entries: Option<&Vec<(String, Json)>>)
        ensures
            match self@ {
                JsonView::Object(expected) => entries matches Some(actual) && actual.len()
                    == expected.len() && forall|i: int|
                    0 <= i < expected.len() ==> (#[trigger] actual@[i]).0@ == expected[i].0
                        && actual@[i].1@ == expected[i].1,
                _ => entries is None,
            },
    {
        match self {
            Json::Object(entries) => Some(entries),
            _ => None,
        }
    }
}

/// The outermost layer of a value of `serde_json`.
pub enum Layer {
    Null,
    Bool(bool),
    Number,
    String(String),
    Array(Vec<serde_json::Value>),
    Object(serde_json::Map<String, serde_json::Value>),
}

/// What the outermost layer of a value amounts to.
pub ghost enum LayerView {
    Null,
    Bool(bool),
    Number,
    String(Seq<char>),
    Array(Seq<serde_json::Value>),
    Object(serde_json::Map<String, serde_json::Value>),
}

impl Layer {
    /// What the layer amounts to.
    pub open spec fn view(self) -> LayerView {
        match self {
            Layer::Null => LayerView::Null,
            Layer::Bool(value) => LayerView::Bool(value),
            Layer::Number => LayerView::Number,
            Layer::String(text) => LayerView::String(text@),
            Layer::Array(items) => LayerView::Array(items@),
            Layer::Object(entries) => LayerView::Object(entries),
        }
    }
}

/// The outermost layer of a value of `serde_json`.
pub uninterp spec fn layer(value: serde_json::Value) -> LayerView;

/// Tells the variants of a `serde_json::Value` apart and takes out what is in
/// them, except that of numbers. It depends on the value alone.
#[verifier::external_body]
fn outer_layer(value: serde_json::Value) -> (outer: Layer)
    ensures
        outer@ == layer(value),
{
    match value {
        serde_json::Value::Null => Layer::Null,
        serde_json::Value::Bool(value) => Layer::Bool(value),
        serde_json::Value::Number(_) => Layer::Number,
        serde_json::Value::String(text) => Layer::String(text),
        serde_json::Value::Array(items) => Layer::Array(items),
        serde_json::Value::Object(entries) => Layer::Object(entries),
    }
}

/// What a list of entries amounts to.
pub open spec fn listing(entries: Seq<(String, serde_json::Value)>) -> Seq<
    (Seq<char>, serde_json::Value),
> {
    entries.map_values(|e: (String, serde_json::Value)| (e.0@, e.1))
}

/// The entries of a map of `serde_json`, in the order in which it lists them.
pub uninterp spec fn listed_entries(entries: serde_json::Map<String, serde_json::Value>) -> Seq<
    (Seq<char>, serde_json::Value),
>;

/// Calls `serde_json::Map::into_iter`, which lists the entries of a map. Which
/// they are, and in which order, depends on the map alone; the order is not stated.
#[verifier::external_body]
fn into_entries(entries: serde_json::Map<String, serde_json::Value>) -> (list: Vec<
    (String, serde_json::Value),
>)
    ensures
        listing(list@) == listed_entries(entries),
{
    entries.into_iter().collect()
}

/// What a value of `serde_json` amounts to: `None` if more than `depth` values are
/// inside one another.
pub open spec fn json_of_value(value: serde_json::Value, depth: nat) -> Option<JsonView>
    decreases depth,
{
    if depth == 0 {
        None
    } else {
        let inner = (depth - 1) as nat;
        match layer(value) {
            LayerView::Null => Some(JsonView::Null),
            LayerView::Bool(value) => Some(JsonView::Bool(value)),
            LayerView::Number => Some(JsonView::Number),
            LayerView::String(text) => Some(JsonView::String(text)),
            LayerView::Array(items) => if forall|i: int|
                0 <= i < items.len() ==> json_of_value(#[trigger] items[i], inner) is Some {
                Some(
                    JsonView::Array(
                        Seq::new(items.len(), |i: int| json_of_value(items[i], inner)->0),
                    ),
                )
            } else {
                None
            },
            LayerView::Object(entries) => {
                let entries = listed_entries(entries);
                if forall|i: int|
                    0 <= i < entries.len() ==> json_of_value(
                        (#[trigger] entries[i]).1,
                        inner,
                    ) is Some {
                    Some(
                        JsonView::Object(
                            Seq::new(
                                entries.len(),
                                |i: int| (entries[i].0, json_of_value(entries[i].1, inner)->0),
                            ),
                        ),
                    )
                } else {
                    None
                }
            },
        }
    }
}

/// How many values can be inside one another in what `serde_json` parses: it
/// refuses what is nested deeper.
pub const MAX_DEPTH: usize = 128;

/// What `serde_json::from_slice` makes of bytes: `None` if they are no JSON.
pub uninterp spec fn json_document(bytes: Seq<u8>) -> Option<serde_json::Value>;

/// Calls `serde_json::from_slice` for a `serde_json::Value`. The outcome depends
/// on the bytes alone; what it is for which bytes is not stated, except that
/// documents are refused in which more than `MAX_DEPTH` values are inside one another.
#[verifier::external_body]
fn from_slice(bytes: &[u8]) -> (value: Option<serde_json::Value>)
    ensures
        value == json_document(bytes@),
        value matches Some(v) ==> json_of_value(v, MAX_DEPTH as nat) is Some,
{
    serde_json::from_slice(bytes).ok()
}

/// What bytes amount to if they are JSON.
pub open spec fn parsed_json(bytes: Seq<u8>) -> Option<JsonView> {
    match json_document(bytes) {
        Some(value) => json_of_value(value, MAX_DEPTH as nat),
        None => None,
    }
}

impl Json {
    /// Parses JSON. Returns `None` if it is malformed.
    pub fn parse(bytes: &[u8]) -> (json: Option<Json>)
        ensures
            match parsed_json(bytes@) {
                Some(expected) => json matches Some(actual) && actual@ == expected,
                None => json is None,
            },
            json is Some <==> json_document(bytes@) is Some,
    {
        match from_slice(bytes) {
            Some(value) => Json::from_value(value, MAX_DEPTH),
            None => None,
        }
    }

    /// Converts a value of `serde_json`. Returns `None` if more than `depth` values
    /// are inside one another in it.
    pub fn from_value(value: serde_json::Value, depth: usize) -> (json: Option<Json>)
        ensures
            match json_of_value(value, depth as nat) {
                Some(expected) => json matches Some(actual) && actual@ == expected,
                None => json is None,
            },
        decreases depth,
    {
        if depth == 0 {
            return None;
        }
        let ghost inner = (depth - 1) as nat;
        match outer_layer(value) {
            Layer::Null => Some(Json::Null),
            Layer::Bool(value) => Some(Json::Bool(value)),
            Layer::Number => Some(Json::Number),
            Layer::String(text) => Some(Json::String(text)),
            Layer::Array(items) => {
                let ghost all = items@;
                let mut converted: Vec<Json> = Vec::new();
                for item in it: items
                    invariant
                        it.seq() == all,
                        depth > 0,
                        inner == depth - 1,
                        layer(value) == LayerView::Array(all),
                        converted@.len() == it.index(),
                        forall|i: int|
                            0 <= i < it.index() ==> json_of_value(#[trigger] all[i], inner) == Some(
                                converted@[i]@,
                            ),
                {
                    match Json::from_value(item, depth - 1) {
                        Some(json) => converted.push(json),
                        None => {
                            assert(json_of_value(all[it.index()], inner) is None);
                            return None;
                        },
                    }
                }
                let json = Json::Array(converted);
                assert(json@->Array_0 =~= json_of_value(value, depth as nat)->0->Array_0);
                Some(json)
            },
            Layer::Object(entries) => {
                let ghost map = entries;
                let entries = into_entries(entries);
                let ghost all = entries@;
                let ghost view = listing(all);
                let mut converted: Vec<(String, Json)> = Vec::new();
                for entry in it: entries
                    invariant
                        it.seq() == all,
                        depth > 0,
                        inner == depth - 1,
                        view == listing(all),
                        layer(value) == LayerView::Object(map),
                        listed_entries(map) == view,
                        converted@.len() == it.index(),
                        forall|i: int|
                            0 <= i < it.index() ==> json_of_value((#[trigger] view[i]).1, inner)
                                == Some(converted@[i].1@) && view[i].0 == converted@[i].0@,
                {
                    assert(view[it.index()] == (entry.0@, entry.1));
                    let (key, item) = entry;
                    match Json::from_value(item, depth - 1) {
                        Some(json) => converted.push((key, json)),
                        None => {
                            assert(json_of_value(view[it.index()].1, inner) is None);
                            return None;
                        },
                    }
                }
                let json = Json::Object(converted);
                assert(json@->Object_0 =~= json_of_value(value, depth as nat)->0->Object_0);
                Some(json)
            },
        }
    }
}

/// The value of a key is the one in the first entry that has the key, wherever
/// that is and however many entries there are. If none has it, there is no value.
pub proof fn law_first_entry_counts<V>(entries: Seq<(Seq<char>, V)>, key: Seq<char>, k: int)
    ensures
        0 <= k < entries.len() && entries[k].0 == key && (forall|j: int|
            0 <= j < k ==> (#[trigger] entries[j]).0 != key) ==> lookup(entries, key) == Some(
            entries[k].1,
        ),
        (forall|j: int| 0 <= j < entries.len() ==> (#[trigger] entries[j]).0 != key)
            ==> lookup(entries, key) == None::<V>,
        lookup(entries, key) is Some ==> exists|j: int|
            0 <= j < entries.len() && (#[trigger] entries[j]).0 == key && lookup(entries, key)
                == Some(entries[j].1) && (forall|i: int|
                0 <= i < j ==> (#[trigger] entries[i]).0 != key),
    decreases entries.len(),
{
    if entries.len() > 0 && entries[0].0 != key {
        let rest = entries.drop_first();
        law_first_entry_counts(rest, key, k - 1);
        if 0 <= k < entries.len() && entries[k].0 == key && (forall|j: int|
            0 <= j < k ==> (#[trigger] entries[j]).0 != key) {
            assert forall|j: int| 0 <= j < k - 1 implies (#[trigger] rest[j]).0 != key by {
                assert(entries[j + 1] == rest[j]);
            }
            assert(rest[k - 1] == entries[k]);
        }
        if forall|j: int| 0 <= j < entries.len() ==> (#[trigger] entries[j]).0 != key {
            assert forall|j: int| 0 <= j < rest.len() implies (#[trigger] rest[j]).0 != key by {
                assert(entries[j + 1] == rest[j]);
            }
        }
        if lookup(rest, key) is Some {
            let j = choose|j: int|
                0 <= j < rest.len() && (#[trigger] rest[j]).0 == key && lookup(rest, key) == Some(
                    rest[j].1,
                ) && (forall|i: int| 0 <= i < j ==> (#[trigger] rest[i]).0 != key);
            assert(entries[j + 1] == rest[j]);
            assert forall|i: int| 0 <= i < j + 1 implies (#[trigger] entries[i]).0 != key by {
                if i > 0 {
                    assert(rest[i - 1] == entries[i]);
                }
            }
        }
    }
}

/// What a value amounts to is what it holds: texts and truth values as they are,
/// and of arrays and objects every part, in order.
pub proof fn law_values_amount_to_what_they_hold(
    text: String,
    value: bool,
    items: Vec<Json>,
    entries: Vec<(String, Json)>,
    i: int,
)
    ensures
        Json::String(text)@ == JsonView::String(text@),
        Json::Bool(value)@ == JsonView::Bool(value),
        Json::Null@ == JsonView::Null,
        Json::Number@ == JsonView::Number,
        Json::Array(items)@ is Array,
        Json::Array(items)@->Array_0.len() == items@.len(),
        0 <= i < items@.len() ==> Json::Array(items)@->Array_0[i] == items@[i]@,
        Json::Object(entries)@ is Object,
        Json::Object(entries)@->Object_0.len() == entries@.len(),
        0 <= i < entries@.len() ==> Json::Object(entries)@->Object_0[i].0 == entries@[i].0@,
        0 <= i < entries@.len() ==> Json::Object(entries)@->Object_0[i].1 == entries@[i].1@,
{
}

/// A key of an object is looked up among all of its entries, and of anything else
/// there are none.
pub proof fn law_only_objects_have_keys(json: JsonView, key: Seq<char>)
    ensures
        json matches JsonView::Object(entries) ==> json.get(key) == lookup(entries, key),
        !(json is Object) ==> json.get(key) == None::<JsonView>,
{
}

/// Whether a value of `serde_json` means `json`: they hold the same, layer by layer.
pub open spec fn means(value: serde_json::Value, json: JsonView) -> bool
    decreases json,
{
    match json {
        JsonView::Null => layer(value) is Null,
        JsonView::Bool(b) => layer(value) == LayerView::Bool(b),
        JsonView::Number => layer(value) is Number,
        JsonView::String(text) => layer(value) == LayerView::String(text),
        JsonView::Array(parts) => {
            &&& layer(value) is Array
            &&& layer(value)->Array_0.len() == parts.len()
            &&& forall|i: int|
                #![trigger parts[i]]
                0 <= i < parts.len() ==> means(layer(value)->Array_0[i], parts[i])
        },
        JsonView::Object(parts) => {
            &&& layer(value) is Object
            &&& listed_entries(layer(value)->Object_0).len() == parts.len()
            &&& forall|i: int|
                #![trigger parts[i]]
                0 <= i < parts.len() ==> listed_entries(layer(value)->Object_0)[i].0 == parts[i].0
                    && means(listed_entries(layer(value)->Object_0)[i].1, parts[i].1)
        },
    }
}

/// Whether at most `depth` values are inside one another.
pub open spec fn fits(json: JsonView, depth: nat) -> bool
    decreases json,
{
    &&& depth > 0
    &&& match json {
        JsonView::Array(parts) => forall|i: int|
            #![trigger parts[i]]
            0 <= i < parts.len() ==> fits(parts[i], (depth - 1) as nat),
        JsonView::Object(parts) => forall|i: int|
            #![trigger parts[i]]
            0 <= i < parts.len() ==> fits(parts[i].1, (depth - 1) as nat),
        _ => true,
    }
}

/// What a value is converted to is what it means, and a value is converted
/// whenever it means something that is not nested too deep, however large it is.
pub proof fn law_conversion_keeps_the_meaning(
    value: serde_json::Value,
    json: JsonView,
    depth: nat,
)
    ensures
        json_of_value(value, depth) == Some(json) <==> means(value, json) && fits(json, depth),
    decreases depth,
{
    if depth > 0 {
        let inner = (depth - 1) as nat;
        match layer(value) {
            LayerView::Array(items) => {
                if let JsonView::Array(parts) = json {
                    if json_of_value(value, depth) == Some(json) {
                        assert forall|i: int| 0 <= i < parts.len() implies means(
                            items[i],
                            #[trigger] parts[i],
                        ) && fits(parts[i], inner) by {
                            law_conversion_keeps_the_meaning(items[i], parts[i], inner);
                            assert(json_of_value(items[i], inner) is Some);
                        }
                    }
                    if means(value, json) && fits(json, depth) {
                        assert forall|i: int| 0 <= i < items.len() implies json_of_value(
                            #[trigger] items[i],
                            inner,
                        ) == Some(parts[i]) by {
                            law_conversion_keeps_the_meaning(items[i], parts[i], inner);
                            assert(means(items[i], parts[i]));
                        }
                        assert(json_of_value(value, depth)->0->Array_0 =~= parts);
                    }
                }
            },
            LayerView::Object(map) => {
                let entries = listed_entries(map);
                if let JsonView::Object(parts) = json {
                    if json_of_value(value, depth) == Some(json) {
                        assert forall|i: int| 0 <= i < parts.len() implies entries[i].0 == (
                        #[trigger] parts[i]).0 && means(entries[i].1, parts[i].1) && fits(
                            parts[i].1,
                            inner,
                        ) by {
                            law_conversion_keeps_the_meaning(entries[i].1, parts[i].1, inner);
                            assert(json_of_value(entries[i].1, inner) is Some);
                        }
                    }
                    if means(value, json) && fits(json, depth) {
                        assert forall|i: int| 0 <= i < entries.len() implies json_of_value(
                            (#[trigger] entries[i]).1,
                            inner,
                        ) == Some(parts[i].1) && entries[i].0 == parts[i].0 by {
                            law_conversion_keeps_the_meaning(entries[i].1, parts[i].1, inner);
                            assert(entries[i].0 == parts[i].0);
                        }
                        assert(json_of_value(value, depth)->0->Object_0 =~= parts);
                    }
                }
            },
            _ => {},
        }
    }
}

/// Bytes amount to what the document in them means, and to nothing exactly if
/// there is no document in them or it is nested too deep.
pub proof fn law_bytes_amount_to_their_document(bytes: Seq<u8>, json: JsonView)
    ensures
        parsed_json(bytes) == Some(json) <==> (json_document(bytes) matches Some(value) && means(
            value,
            json,
        ) && fits(json, 128)),
{
    if let Some(value) = json_document(bytes) {
        law_conversion_keeps_the_meaning(value, json, 128);
    }
}

/// The listing of entries is complete and in order.
pub proof fn law_listing_is_complete(entries: Seq<(String, serde_json::Value)>, i: int)
    ensures
        listing(entries).len() == entries.len(),
        0 <= i < entries.len() ==> listing(entries)[i].0 == entries[i].0@ && listing(entries)[i].1
            == entries[i].1,
{
}

/// What a layer amounts to is what it holds, in full.
pub proof fn law_layers_amount_to_what_they_hold(
    text: String,
    value: bool,
    items: Vec<serde_json::Value>,
    entries: serde_json::Map<String, serde_json::Value>,
)
    ensures
        Layer::Null@ == LayerView::Null,
        Layer::Bool(value)@ == LayerView::Bool(value),
        Layer::Number@ == LayerView::Number,
        Layer::String(text)@ == LayerView::String(text@),
        Layer::Array(items)@ == LayerView::Array(items@),
        Layer::Object(entries)@ == LayerView::Object(entries),
{
}

} // verus!
