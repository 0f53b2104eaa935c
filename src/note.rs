//! One photo's annotation, and its form in the saved document.
use vstd::prelude::*;
use crate::json::{
    depth_at_most, fields_map, json_array, json_field, json_model, json_models, json_object, json_str,
    JsonView,
};
use serde_json::Value;

verus! {

/// The note and tags attached to the photo at `path`, with the time the note
/// was last written (RFC 3339 text).
#[derive(Clone, Debug)]
pub struct PhotoNote {
    pub path: String,
    pub note: String,
    pub timestamp: String,
    pub tags: Vec<String>,
}

/// A `PhotoNote` as plain text values.
pub struct NoteView {
    pub path: Seq<char>,
    pub note: Seq<char>,
    pub timestamp: Seq<char>,
    pub tags: Seq<Seq<char>>,
}

impl View for PhotoNote {
    type V = NoteView;

    open spec fn view(&self) -> NoteView {
        NoteView {
            path: self.path@,
            note: self.note@,
            timestamp: self.timestamp@,
            tags: string_views(self.tags@),
        }
    }
}

/// The text of each of `s`, in order.
pub open spec fn string_views(s: Seq<String>) -> Seq<Seq<char>> {
    s.map_values(|t: String| t@)
}

/// The view of each of `s`, in order.
pub open spec fn note_views(s: Seq<PhotoNote>) -> Seq<NoteView> {
    s.map_values(|n: PhotoNote| n@)
}

/// The JSON strings holding `tags`, in order.
pub open spec fn tags_json(tags: Seq<Seq<char>>) -> JsonView {
    JsonView::Array(tags.map_values(|t: Seq<char>| JsonView::Str(t)))
}

/// The saved form of one record: an object with the fields `path`, `note`,
/// `timestamp` and `tags`.
pub open spec fn note_json(n: NoteView) -> JsonView {
    JsonView::Object(
        map![
            "path"@ => JsonView::Str(n.path),
            "note"@ => JsonView::Str(n.note),
            "timestamp"@ => JsonView::Str(n.timestamp),
            "tags"@ => tags_json(n.tags),
        ],
    )
}

/// The saved form of a list of records: an array of their objects.
pub open spec fn notes_json(ns: Seq<NoteView>) -> JsonView {
    JsonView::Array(ns.map_values(|n: NoteView| note_json(n)))
}

/// `s` with every repeat of an earlier item left out.
pub open spec fn dedup(s: Seq<Seq<char>>) -> Seq<Seq<char>>
    decreases s.len(),
{
    if s.len() == 0 {
        s
    } else {
        let d = dedup(s.drop_last());
        if d.contains(s.last()) {
            d
        } else {
            d.push(s.last())
        }
    }
}

/// Leaving out repeats keeps every item once, and changes nothing where
/// there are none.
pub proof fn lemma_dedup(s: Seq<Seq<char>>)
    ensures
        dedup(s).no_duplicates(),
        forall|x: Seq<char>| #[trigger] dedup(s).contains(x) <==> s.contains(x),
        s.no_duplicates() ==> dedup(s) == s,
    decreases s.len(),
{
    if s.len() > 0 {
        let init = s.drop_last();
        lemma_dedup(init);
        let d = dedup(init);
        assert forall|x: Seq<char>| #[trigger] dedup(s).contains(x) <==> s.contains(x) by {
            if s.contains(x) {
                let i = choose|i: int| 0 <= i < s.len() && s[i] == x;
                if i < s.len() - 1 {
                    assert(init[i] == x);
                    assert(init.contains(x));
                }
            }
            if init.contains(x) {
                let i = choose|i: int| 0 <= i < init.len() && init[i] == x;
                assert(s[i] == x);
            }
            if d.contains(x) && !d.contains(s.last()) {
                let i = choose|i: int| 0 <= i < d.len() && d[i] == x;
                assert(d.push(s.last())[i] == x);
            }
            if !d.contains(s.last()) {
                assert(d.push(s.last())[d.len() as int] == s.last());
            }
        }
        if !d.contains(s.last()) {
            let e = d.push(s.last());
            assert forall|i: int, j: int| 0 <= i < e.len() && 0 <= j < e.len() && i != j implies e[i]
                != e[j] by {
                if i == d.len() {
                    assert(d[j] == e[j]);
                } else if j == d.len() {
                    assert(d[i] == e[i]);
                }
            }
        }
        if s.no_duplicates() {
            assert(init.no_duplicates());
            if d.contains(s.last()) {
                let i = choose|i: int| 0 <= i < init.len() && init[i] == s.last();
                assert(s[i] == s[s.len() - 1]);
            }
            assert(s =~= init.push(s.last()));
        }
    }
}

/// The tags held by a JSON value: an array of strings, and nothing else.
/// A tag given twice counts once.
pub open spec fn decode_tags(j: JsonView) -> Option<Seq<Seq<char>>> {
    match j {
        JsonView::Array(items) => if forall|i: int| 0 <= i < items.len() ==> #[trigger] items[i] is Str {
            Some(dedup(items.map_values(|x: JsonView| x->Str_0)))
        } else {
            None
        },
        _ => None,
    }
}

/// The texts held by the strings among `items`.
pub open spec fn texts(items: Seq<JsonView>) -> Seq<Seq<char>> {
    items.map_values(|x: JsonView| x->Str_0)
}

/// The record held by a JSON value: an object whose `path`, `note` and
/// `timestamp` are strings, and whose `tags`, where present, are an array of
/// strings. A record without `tags` has none. Other fields are ignored.
pub open spec fn decode_note(j: JsonView) -> Option<NoteView> {
    match j {
        JsonView::Object(m) => {
            if m.contains_key("path"@) && m["path"@] is Str && m.contains_key("note"@)
                && m["note"@] is Str && m.contains_key("timestamp"@) && m["timestamp"@] is Str {
                if !m.contains_key("tags"@) {
                    Some(
                        NoteView {
                            path: m["path"@]->Str_0,
                            note: m["note"@]->Str_0,
                            timestamp: m["timestamp"@]->Str_0,
                            tags: Seq::empty(),
                        },
                    )
                } else if decode_tags(m["tags"@]) is Some {
                    Some(
                        NoteView {
                            path: m["path"@]->Str_0,
                            note: m["note"@]->Str_0,
                            timestamp: m["timestamp"@]->Str_0,
                            tags: decode_tags(m["tags"@])->Some_0,
                        },
                    )
                } else {
                    None
                }
            } else {
                None
            }
        },
        _ => None,
    }
}

/// The records held by a JSON value: an array all of whose items are
/// records, in order.
pub open spec fn decode_notes(j: JsonView) -> Option<Seq<NoteView>> {
    match j {
        JsonView::Array(items) => if forall|i: int|
            0 <= i < items.len() ==> #[trigger] decode_note(items[i]) is Some {
            Some(items.map_values(|x: JsonView| decode_note(x)->Some_0))
        } else {
            None
        },
        _ => None,
    }
}

/// The four field names of a saved record differ from one another.
proof fn lemma_field_keys_distinct()
    ensures
        "path"@ != "note"@ && "path"@ != "timestamp"@ && "path"@ != "tags"@,
        "note"@ != "timestamp"@ && "note"@ != "tags"@ && "timestamp"@ != "tags"@,
{
    reveal_strlit("path");
    reveal_strlit("note");
    reveal_strlit("timestamp");
    reveal_strlit("tags");
    assert("path"@[0] != "note"@[0] && "path"@[0] != "tags"@[0] && "note"@[0] != "tags"@[0]);
    assert("timestamp"@.len() != "path"@.len());
}

/// No record read from a document repeats a tag.
pub proof fn lemma_decoded_tags_distinct(j: JsonView, rs: Seq<NoteView>)
    requires
        decode_notes(j) == Some(rs),
    ensures
        forall|i: int| 0 <= i < rs.len() ==> (#[trigger] rs[i]).tags.no_duplicates(),
{
    {
        let items = j->Array_0;
        assert forall|i: int| 0 <= i < rs.len() implies (#[trigger] rs[i]).tags.no_duplicates() by {
            assert(rs[i] == decode_note(items[i])->Some_0);
            let m = items[i]->Object_0;
            if m.contains_key("tags"@) {
                lemma_dedup(texts(m["tags"@]->Array_0));
                assert(texts(m["tags"@]->Array_0) == m["tags"@]->Array_0.map_values(|x: JsonView| x->Str_0));
            }
        }
    }
}

/// A record's saved form reads back as the same record.
pub proof fn lemma_note_json_decodes(n: NoteView)
    requires
        n.tags.no_duplicates(),
    ensures
        decode_note(note_json(n)) == Some(n),
{
    reveal_strlit("path");
    reveal_strlit("note");
    reveal_strlit("timestamp");
    reveal_strlit("tags");
    let m = note_json(n)->Object_0;
    lemma_field_keys_distinct();
    assert(m.contains_key("path"@) && m["path"@] == JsonView::Str(n.path));
    assert(m.contains_key("note"@) && m["note"@] == JsonView::Str(n.note));
    assert(m.contains_key("timestamp"@) && m["timestamp"@] == JsonView::Str(n.timestamp));
    assert(m.contains_key("tags"@) && m["tags"@] == tags_json(n.tags));
    assert(decode_tags(tags_json(n.tags)) == Some(n.tags)) by {
        let items = n.tags.map_values(|t: Seq<char>| JsonView::Str(t));
        assert(items.map_values(|x: JsonView| x->Str_0) =~= n.tags);
        lemma_dedup(n.tags);
    }
}

/// A list of records' saved form reads back as the same list.
pub proof fn lemma_notes_json_decodes(ns: Seq<NoteView>)
    requires
        forall|i: int| 0 <= i < ns.len() ==> (#[trigger] ns[i]).tags.no_duplicates(),
    ensures
        decode_notes(notes_json(ns)) == Some(ns),
{
    let items = ns.map_values(|n: NoteView| note_json(n));
    assert forall|i: int| 0 <= i < items.len() implies #[trigger] decode_note(items[i]) == Some(
        ns[i],
    ) by {
        lemma_note_json_decodes(ns[i]);
    }
    assert(items.map_values(|x: JsonView| decode_note(x)->Some_0) =~= ns);
}

/// The saved form of a list of records nests containers three deep.
pub proof fn lemma_notes_json_depth(ns: Seq<NoteView>, n: nat)
    requires
        n >= 4,
    ensures
        depth_at_most(notes_json(ns), n),
{
    let n1 = (n - 1) as nat;
    let n2 = (n1 - 1) as nat;
    let n3 = (n2 - 1) as nat;
    let items = ns.map_values(|x: NoteView| note_json(x));
    assert forall|i: int| 0 <= i < items.len() implies depth_at_most(#[trigger] items[i], n1) by {
        assert(items[i] == note_json(ns[i]));
        let m = items[i]->Object_0;
        assert forall|k: Seq<char>| m.contains_key(k) implies depth_at_most(#[trigger] m[k], n2) by {
            if k != "tags"@ {
                assert(m[k] is Str);
            } else {
                let ts = ns[i].tags.map_values(|t: Seq<char>| JsonView::Str(t));
                assert(m[k] == JsonView::Array(ts));
                assert forall|t: int| 0 <= t < ts.len() implies depth_at_most(#[trigger] ts[t], n3) by {
                    assert(ts[t] is Str);
                }
            }
        }
    }
}

/// The JSON strings holding `tags`.
fn tags_to_json(tags: &Vec<String>) -> (r: Value)
    ensures
        json_model(r) == tags_json(string_views(tags@)),
{
    let mut items: Vec<Value> = Vec::new();
    let mut i: usize = 0;
    while i < tags.len()
        invariant
            i <= tags@.len(),
            items@.len() == i,
            forall|j: int| 0 <= j < i ==> json_model(#[trigger] items@[j]) == JsonView::Str(tags@[j]@),
        decreases tags@.len() - i,
    {
        items.push(json_str(tags[i].clone()));
        i += 1;
    }
    let r = json_array(items);
    assert(json_models(items@) =~= string_views(tags@).map_values(
        |t: Seq<char>| JsonView::Str(t),
    ));
    r
}

/// The saved form of one record.
pub(crate) fn note_to_json(n: &PhotoNote) -> (r: Value)
    ensures
        json_model(r) == note_json(n@),
{
    proof {
        lemma_field_keys_distinct();
    }
    let mut fields: Vec<(String, Value)> = Vec::new();
    fields.push(("path".to_owned(), json_str(n.path.clone())));
    fields.push(("note".to_owned(), json_str(n.note.clone())));
    fields.push(("timestamp".to_owned(), json_str(n.timestamp.clone())));
    fields.push(("tags".to_owned(), tags_to_json(&n.tags)));
    let r = json_object(fields);
    proof {
        let fs = fields@.map_values(|f: (String, Value)| (f.0@, json_model(f.1)));
        assert(fs =~= seq![
            ("path"@, JsonView::Str(n.path@)),
            ("note"@, JsonView::Str(n.note@)),
            ("timestamp"@, JsonView::Str(n.timestamp@)),
            ("tags"@, tags_json(n@.tags)),
        ]);
        reveal_with_fuel(fields_map, 5);
        assert(fs.drop_last().drop_last().drop_last().drop_last() =~= Seq::empty());
        assert(fields_map(fs) =~= note_json(n@)->Object_0);
    }
    r
}

/// The saved form of a list of records.
pub(crate) fn notes_to_json(ns: &Vec<PhotoNote>) -> (r: Value)
    ensures
        json_model(r) == notes_json(note_views(ns@)),
{
    let mut items: Vec<Value> = Vec::new();
    let mut i: usize = 0;
    while i < ns.len()
        invariant
            i <= ns@.len(),
            items@.len() == i,
            forall|j: int| 0 <= j < i ==> json_model(#[trigger] items@[j]) == note_json(ns@[j]@),
        decreases ns@.len() - i,
    {
        items.push(note_to_json(&ns[i]));
        i += 1;
    }
    let r = json_array(items);
    assert(json_models(items@) =~= note_views(ns@).map_values(
        |n: NoteView| note_json(n),
    ));
    r
}

/// The text of the string field `key` of `v`, where `v` is an object that
/// has one.
fn text_field(v: &Value, key: &str) -> (r: Option<String>)
    ensures
        match r {
            Some(t) => json_model(*v) is Object && json_model(*v)->Object_0.contains_key(key@)
                && json_model(*v)->Object_0[key@] == JsonView::Str(t@),
            None => !(json_model(*v) is Object && json_model(*v)->Object_0.contains_key(key@)
                && json_model(*v)->Object_0[key@] is Str),
        },
{
    match json_field(v, key) {
        Some(f) => match f.as_str() {
            Some(t) => Some(t.to_owned()),
            None => None,
        },
        None => None,
    }
}

/// Whether `t` is among `tags`.
fn holds_text(tags: &Vec<String>, t: &String) -> (r: bool)
    ensures
        r == string_views(tags@).contains(t@),
{
    let mut i: usize = 0;
    while i < tags.len()
        invariant
            i <= tags@.len(),
            forall|j: int| 0 <= j < i ==> #[trigger] string_views(tags@)[j] != t@,
        decreases tags@.len() - i,
    {
        if tags[i] == *t {
            assert(string_views(tags@)[i as int] == t@);
            return true;
        }
        i += 1;
    }
    false
}

/// The tags held by `v`: an array of strings, each kept once.
fn tags_from_json(v: &Value) -> (r: Option<Vec<String>>)
    ensures
        match r {
            Some(ts) => decode_tags(json_model(*v)) == Some(string_views(ts@)),
            None => decode_tags(json_model(*v)) is None,
        },
{
    let items = match v.as_array() {
        Some(a) => a,
        None => return None,
    };
    let ghost model = json_models(items@);
    let mut tags: Vec<String> = Vec::new();
    let mut i: usize = 0;
    while i < items.len()
        invariant
            i <= items@.len(),
            model == json_models(items@),
            json_model(*v) == JsonView::Array(model),
            forall|j: int| 0 <= j < i ==> #[trigger] model[j] is Str,
            string_views(tags@) == dedup(texts(model.take(i as int))),
        decreases items@.len() - i,
    {
        match items[i].as_str() {
            Some(t) => {
                let t = t.to_owned();
                let ghost before = tags@;
                proof {
                    let pre = texts(model.take(i as int));
                    assert(texts(model.take(i + 1)) =~= pre.push(t@));
                    assert(texts(model.take(i + 1)).drop_last() =~= pre);
                }
                if !holds_text(&tags, &t) {
                    tags.push(t);
                    assert(string_views(tags@) =~= string_views(before).push(string_views(tags@).last()));
                }
            },
            None => {
                assert(!(model[i as int] is Str));
                return None;
            },
        }
        i += 1;
    }
    assert(model.take(i as int) =~= model);
    Some(tags)
}

/// The record held by `v`.
pub(crate) fn note_from_json(v: &Value) -> (r: Option<PhotoNote>)
    ensures
        match r {
            Some(n) => decode_note(json_model(*v)) == Some(n@),
            None => decode_note(json_model(*v)) is None,
        },
{
    let path = match text_field(v, "path") {
        Some(t) => t,
        None => return None,
    };
    let note = match text_field(v, "note") {
        Some(t) => t,
        None => return None,
    };
    let timestamp = match text_field(v, "timestamp") {
        Some(t) => t,
        None => return None,
    };
    let tags = match json_field(v, "tags") {
        None => {
            let empty: Vec<String> = Vec::new();
            assert(string_views(empty@) =~= Seq::empty());
            empty
        },
        Some(t) => match tags_from_json(t) {
            Some(ts) => ts,
            None => return None,
        },
    };
    let r = PhotoNote { path, note, timestamp, tags };
    assert(r@.tags =~= string_views(r.tags@));
    Some(r)
}

/// The records held by `v`, in order.
pub(crate) fn notes_from_json(v: &Value) -> (r: Option<Vec<PhotoNote>>)
    ensures
        match r {
            Some(ns) => decode_notes(json_model(*v)) == Some(note_views(ns@)),
            None => decode_notes(json_model(*v)) is None,
        },
{
    let items = match v.as_array() {
        Some(a) => a,
        None => return None,
    };
    let ghost model = json_models(items@);
    let mut ns: Vec<PhotoNote> = Vec::new();
    let mut i: usize = 0;
    while i < items.len()
        invariant
            i <= items@.len(),
            ns@.len() == i,
            model == json_models(items@),
            json_model(*v) == JsonView::Array(model),
            forall|j: int| 0 <= j < i ==> decode_note(#[trigger] model[j]) == Some(ns@[j]@),
        decreases items@.len() - i,
    {
        match note_from_json(&items[i]) {
            Some(n) => ns.push(n),
            None => {
                assert(json_model(*v) == JsonView::Array(model));
                assert(decode_note(model[i as int]) is None);
                return None;
            },
        }
        i += 1;
    }
    assert(forall|j: int| 0 <= j < model.len() ==> #[trigger] decode_note(model[j]) is Some);
    assert(model.map_values(|x: JsonView| decode_note(x)->Some_0) =~= note_views(ns@));
    Some(ns)
}

} // verus!
