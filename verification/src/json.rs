use crate::text::same_text;
use vstd::prelude::*;

verus! {

/// A JSON value. A number is held as its text.
#[derive(Debug)]
pub enum Json {
    Null,
    Bool(bool),
    Number(String),
    Text(String),
    Array(Vec<Json>),
    Object(Vec<Member>),
}

/// One entry of a JSON object: a key with its value.
#[derive(Debug)]
pub struct Member {
    pub key: String,
    pub value: Json,
}

/// What a JSON value holds.
pub enum JsonView {
    Null,
    Bool(bool),
    Number(Seq<char>),
    Text(Seq<char>),
    Array(Seq<JsonView>),
    Object(Seq<(Seq<char>, JsonView)>),
}

/// The entries of a JSON object: keys with their values, in order.
pub type JsonObject = Vec<Member>;

/// What the entries of a JSON object hold.
pub type ObjectView = Seq<(Seq<char>, JsonView)>;

/// What a JSON value holds.
pub open spec fn json_view(value: Json) -> JsonView
    decreases value,
{
    match value {
        Json::Null => JsonView::Null,
        Json::Bool(b) => JsonView::Bool(b),
        Json::Number(n) => JsonView::Number(n@),
        Json::Text(t) => JsonView::Text(t@),
        Json::Array(items) => JsonView::Array(
            Seq::new(
                items@.len(),
                |i: int|
                    if 0 <= i < items@.len() {
                        json_view(items@[i])
                    } else {
                        JsonView::Null
                    },
            ),
        ),
        Json::Object(entries) => JsonView::Object(
            Seq::new(
                entries@.len(),
                |i: int|
                    if 0 <= i < entries@.len() {
                        (entries@[i].key@, json_view(entries@[i].value))
                    } else {
                        (Seq::empty(), JsonView::Null)
                    },
            ),
        ),
    }
}

impl View for Json {
    type V = JsonView;

    open spec fn view(&self) -> JsonView {
        json_view(*self)
    }
}

/// What a list of JSON values holds.
pub open spec fn array_view(items: Seq<Json>) -> Seq<JsonView> {
    Seq::new(items.len(), |i: int| items[i]@)
}

/// What a list of entries holds.
pub open spec fn object_view(entries: Seq<Member>) -> ObjectView {
    Seq::new(entries.len(), |i: int| (entries[i].key@, entries[i].value@))
}

/// What entries that may be missing hold.
pub open spec fn optional_object_view(entries: Option<JsonObject>) -> Option<ObjectView> {
    match entries {
        Some(list) => Some(object_view(list@)),
        None => None,
    }
}

/// An array holds what its items hold, and an object what its entries hold.
pub proof fn lemma_json_views(value: Json)
    ensures
        value matches Json::Array(items) ==> value@ == JsonView::Array(array_view(items@)),
        value matches Json::Object(entries) ==> value@ == JsonView::Object(object_view(entries@)),
{
    match value {
        Json::Array(items) => {
            assert(value@->Array_0 =~= array_view(items@));
        },
        Json::Object(entries) => {
            let held = value@->Object_0;
            let expected = object_view(entries@);
            assert(held.len() == expected.len());
            assert forall|i: int| 0 <= i < held.len() implies held[i] == expected[i] by {
                assert(held[i].0 == entries@[i].key@);
                assert(held[i].1 == entries@[i].value@);
            }
            assert(held =~= expected);
        },
        _ => {},
    }
}

/// A copy of a list of entries.
pub fn clone_entries(entries: &Vec<Member>) -> (copy: Vec<Member>)
    ensures
        object_view(copy@) == object_view(entries@),
    decreases entries,
{
    let mut copy: Vec<Member> = Vec::new();
    let mut i: usize = 0;
    while i < entries.len()
        invariant
            i <= entries.len(),
            copy.len() == i,
            forall|j: int|
                0 <= j < i ==> (#[trigger] copy[j]).key@ == entries[j].key@ && copy[j].value@
                    == entries[j].value@,
        decreases entries.len() - i,
    {
        let key = entries[i].key.clone();
        let value = clone_json(&entries[i].value);
        copy.push(Member { key, value });
        i += 1;
    }
    assert(object_view(copy@) =~= object_view(entries@));
    copy
}

/// A copy of a list of values.
fn clone_items(items: &Vec<Json>) -> (copy: Vec<Json>)
    ensures
        array_view(copy@) == array_view(items@),
    decreases items,
{
    let mut copy: Vec<Json> = Vec::new();
    let mut i: usize = 0;
    while i < items.len()
        invariant
            i <= items.len(),
            copy.len() == i,
            forall|j: int| 0 <= j < i ==> (#[trigger] copy[j])@ == items[j]@,
        decreases items.len() - i,
    {
        copy.push(clone_json(&items[i]));
        i += 1;
    }
    assert(array_view(copy@) =~= array_view(items@));
    copy
}

/// A copy of a JSON value.
pub fn clone_json(value: &Json) -> (copy: Json)
    ensures
        copy@ == value@,
    decreases value,
{
    match value {
        Json::Null => Json::Null,
        Json::Bool(b) => Json::Bool(*b),
        Json::Number(n) => Json::Number(n.clone()),
        Json::Text(t) => Json::Text(t.clone()),
        Json::Array(items) => {
            let copy = clone_items(items);
            let made = Json::Array(copy);
            proof {
                lemma_json_views(made);
                lemma_json_views(*value);
            }
            made
        },
        Json::Object(entries) => {
            let copy = clone_entries(entries);
            let made = Json::Object(copy);
            proof {
                lemma_json_views(made);
                lemma_json_views(*value);
            }
            made
        },
    }
}

impl Clone for Member {
    fn clone(&self) -> (copy: Self)
        ensures
            copy.key@ == self.key@,
            copy.value@ == self.value@,
    {
        Member { key: self.key.clone(), value: clone_json(&self.value) }
    }
}

impl Clone for Json {
    fn clone(&self) -> (copy: Self)
        ensures
            copy@ == self@,
    {
        clone_json(self)
    }
}

/// The first position from `from` on whose entry has the key; the number of
/// entries where none has.
pub open spec fn key_position(entries: ObjectView, key: Seq<char>, from: int) -> int
    decreases entries.len() - from,
{
    if from < 0 || from >= entries.len() {
        entries.len() as int
    } else if entries[from].0 == key {
        from
    } else {
        key_position(entries, key, from + 1)
    }
}

/// `entries` with those entries of `extra` added at the end, in their
/// order, whose key the entries do not have by then.
pub open spec fn filled(entries: ObjectView, extra: ObjectView) -> ObjectView
    decreases extra.len(),
{
    if extra.len() == 0 {
        entries
    } else {
        let so_far = filled(entries, extra.drop_last());
        if key_position(so_far, extra.last().0, 0) < so_far.len() {
            so_far
        } else {
            so_far.push(extra.last())
        }
    }
}

/// A value with an extra field merged into it: where both are objects the
/// value gets the entries of the field that it lacks; else the value stays.
pub open spec fn merged_entry(value: JsonView, field: JsonView) -> JsonView {
    match (value, field) {
        (JsonView::Object(sub), JsonView::Object(extra)) => JsonView::Object(filled(sub, extra)),
        _ => value,
    }
}

/// The entries of a body with extra fields merged into them, one after the
/// other: a field whose key the body has is merged into the value under that
/// key; any other field is added at the end.
pub open spec fn merged_object(body: ObjectView, extra: ObjectView) -> ObjectView
    decreases extra.len(),
{
    if extra.len() == 0 {
        body
    } else {
        let so_far = merged_object(body, extra.drop_last());
        let at = key_position(so_far, extra.last().0, 0);
        if at < so_far.len() {
            so_far.update(at, (so_far[at].0, merged_entry(so_far[at].1, extra.last().1)))
        } else {
            so_far.push(extra.last())
        }
    }
}

/// A body with extra fields merged into it. A body that is no object, and a
/// body without extra fields, stays as it is.
pub open spec fn merged(body: JsonView, extra: Option<ObjectView>) -> JsonView {
    match (body, extra) {
        (JsonView::Object(entries), Some(fields)) => JsonView::Object(
            merged_object(entries, fields),
        ),
        _ => body,
    }
}

/// The position of the first entry with the key, or the number of entries.
fn find_key(entries: &Vec<Member>, key: &str) -> (at: usize)
    ensures
        at == key_position(object_view(entries@), key@, 0),
        at <= entries.len(),
{
    let ghost view = object_view(entries@);
    let mut at: usize = 0;
    while at < entries.len()
        invariant
            at <= entries.len(),
            view == object_view(entries@),
            key_position(view, key@, at as int) == key_position(view, key@, 0),
        decreases entries.len() - at,
    {
        if same_text(entries[at].key.as_str(), key) {
            assert(view[at as int].0 == key@);
            return at;
        }
        assert(view[at as int].0 != key@);
        at += 1;
    }
    at
}

/// Adds to `entries` the entries of `extra` that they lack.
fn fill_entries(entries: Vec<Member>, extra: &Vec<Member>) -> (out: Vec<Member>)
    ensures
        object_view(out@) == filled(object_view(entries@), object_view(extra@)),
{
    let ghost start = object_view(entries@);
    let ghost fields = object_view(extra@);
    let mut out = entries;
    let mut i: usize = 0;
    assert(fields.take(0) =~= Seq::<(Seq<char>, JsonView)>::empty());
    while i < extra.len()
        invariant
            i <= extra.len(),
            fields == object_view(extra@),
            object_view(out@) == filled(start, fields.take(i as int)),
        decreases extra.len() - i,
    {
        proof {
            assert(fields.take(i + 1).drop_last() =~= fields.take(i as int));
            assert(fields.take(i + 1).last() == fields[i as int]);
        }
        let at = find_key(&out, extra[i].key.as_str());
        if at == out.len() {
            let ghost before = object_view(out@);
            let key = extra[i].key.clone();
            let value = clone_json(&extra[i].value);
            out.push(Member { key, value });
            assert(object_view(out@) =~= before.push(fields[i as int]));
        }
        i += 1;
    }
    assert(fields.take(extra.len() as int) =~= fields);
    out
}

/// Merges an extra field into a value.
fn merge_entry(value: Json, field: &Json) -> (out: Json)
    ensures
        out@ == merged_entry(value@, field@),
{
    match value {
        Json::Object(sub) => {
            match field {
                Json::Object(extra) => {
                    proof {
                        lemma_json_views(value);
                        lemma_json_views(*field);
                    }
                    let out = Json::Object(fill_entries(sub, extra));
                    proof {
                        lemma_json_views(out);
                    }
                    out
                },
                _ => Json::Object(sub),
            }
        },
        other => other,
    }
}

/// Merges extra fields into the entries of a body.
fn merge_entries(body: Vec<Member>, extra: &Vec<Member>) -> (out: Vec<Member>)
    ensures
        object_view(out@) == merged_object(object_view(body@), object_view(extra@)),
{
    let ghost start = object_view(body@);
    let ghost fields = object_view(extra@);
    let mut out = body;
    let mut i: usize = 0;
    assert(fields.take(0) =~= Seq::<(Seq<char>, JsonView)>::empty());
    while i < extra.len()
        invariant
            i <= extra.len(),
            fields == object_view(extra@),
            object_view(out@) == merged_object(start, fields.take(i as int)),
        decreases extra.len() - i,
    {
        proof {
            assert(fields.take(i + 1).drop_last() =~= fields.take(i as int));
            assert(fields.take(i + 1).last() == fields[i as int]);
        }
        let ghost before = object_view(out@);
        let at = find_key(&out, extra[i].key.as_str());
        if at < out.len() {
            let mut slot = Member { key: String::new(), value: Json::Null };
            std::mem::swap(&mut slot, &mut out[at]);
            let value = merge_entry(slot.value, &extra[i].value);
            out.set(at, Member { key: slot.key, value });
            assert(object_view(out@) =~= before.update(
                at as int,
                (before[at as int].0, merged_entry(before[at as int].1, fields[i as int].1)),
            ));
        } else {
            let key = extra[i].key.clone();
            let value = clone_json(&extra[i].value);
            out.push(Member { key, value });
            assert(object_view(out@) =~= before.push(fields[i as int]));
        }
        i += 1;
    }
    assert(fields.take(extra.len() as int) =~= fields);
    out
}

/// Merges extra fields into the body of a request: a field that the body
/// lacks is added; a field that the body has is merged into it one level
/// down, where both are objects, and left alone otherwise.
pub fn merge_fields(extra_fields: &Option<JsonObject>, body: &mut Json)
    ensures
        final(body)@ == merged(old(body)@, optional_object_view(*extra_fields)),
{
    let mut taken = Json::Null;
    std::mem::swap(&mut taken, body);
    match extra_fields {
        Some(fields) => {
            match taken {
                Json::Object(entries) => {
                    proof {
                        lemma_json_views(taken);
                    }
                    let out = Json::Object(merge_entries(entries, fields));
                    proof {
                        lemma_json_views(out);
                    }
                    *body = out;
                },
                other => {
                    *body = other;
                },
            }
        },
        None => {
            *body = taken;
        },
    }
}

} // verus!
