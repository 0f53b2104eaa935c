//! The annotation store: one record per photo path, and the list of photos
//! found by the last scan.
use vstd::prelude::*;
use crate::discovery::{is_photo_entry, photo_paths, FileEntry};
use crate::json::{json_model, parse_json, parsed_json, render_json, JsonView, parse_depth_limit};
use crate::note::{
    decode_notes, lemma_decoded_tags_distinct, lemma_notes_json_decodes, lemma_notes_json_depth, note_views, notes_from_json,
    notes_json, notes_to_json, string_views, NoteView, PhotoNote,
};

verus! {

/// The map that results from writing each of `rs` into `m` in order, a later
/// record replacing an earlier one with the same path.
pub open spec fn merge_notes(m: Map<Seq<char>, NoteView>, rs: Seq<NoteView>) -> Map<
    Seq<char>,
    NoteView,
>
    decreases rs.len(),
{
    if rs.len() == 0 {
        m
    } else {
        merge_notes(m, rs.drop_last()).insert(rs.last().path, rs.last())
    }
}

/// Whether no two of `rs` share a path and none repeats a tag.
pub open spec fn records_ok(rs: Seq<NoteView>) -> bool {
    paths_unique(rs) && forall|i: int| 0 <= i < rs.len() ==> (#[trigger] rs[i]).tags.no_duplicates()
}

/// Whether no two of `rs` share a path.
pub open spec fn paths_unique(rs: Seq<NoteView>) -> bool {
    forall|i: int, j: int| 0 <= i < j < rs.len() ==> #[trigger] rs[i].path != #[trigger] rs[j].path
}

/// The tags of the record for `path` in `m`; none where there is no record.
pub open spec fn tags_of(m: Map<Seq<char>, NoteView>, path: Seq<char>) -> Seq<Seq<char>> {
    if m.contains_key(path) {
        m[path].tags
    } else {
        Seq::empty()
    }
}

/// The record for `path` in `m`, or a record with no note, time or tags.
pub open spec fn record_or_blank(m: Map<Seq<char>, NoteView>, path: Seq<char>) -> NoteView {
    if m.contains_key(path) {
        m[path]
    } else {
        NoteView { path, note: Seq::empty(), timestamp: Seq::empty(), tags: Seq::empty() }
    }
}

/// `n` with `tag` among its tags, added last where it was missing.
pub open spec fn with_tag(n: NoteView, tag: Seq<char>) -> NoteView {
    if n.tags.contains(tag) {
        n
    } else {
        NoteView { tags: n.tags.push(tag), ..n }
    }
}

/// `m` after `tag` is added to the record for `path`, which is created
/// where missing.
pub open spec fn map_add_tag(m: Map<Seq<char>, NoteView>, path: Seq<char>, tag: Seq<char>) -> Map<
    Seq<char>,
    NoteView,
> {
    m.insert(path, with_tag(record_or_blank(m, path), tag))
}

/// `m` after `tag` is taken out of the record for `path`, where there is one.
pub open spec fn map_remove_tag(m: Map<Seq<char>, NoteView>, path: Seq<char>, tag: Seq<char>) -> Map<
    Seq<char>,
    NoteView,
> {
    if m.contains_key(path) {
        m.insert(path, NoteView { tags: m[path].tags.filter(|t: Seq<char>| t != tag), ..m[path] })
    } else {
        m
    }
}

/// `m` after the note of `path` is set to `note` at `timestamp`; the tags
/// of an earlier record for `path` stay.
pub open spec fn map_set_note(
    m: Map<Seq<char>, NoteView>,
    path: Seq<char>,
    note: Seq<char>,
    timestamp: Seq<char>,
) -> Map<Seq<char>, NoteView> {
    m.insert(path, NoteView { path, note, timestamp, tags: tags_of(m, path) })
}

/// `m` after loading a saved document: the records it holds are written into
/// `m` in order. Where there is no document, or it holds no list of records,
/// `m` stays as it is.
pub open spec fn load_into(m: Map<Seq<char>, NoteView>, doc: Option<JsonView>) -> Map<
    Seq<char>,
    NoteView,
> {
    match doc {
        Some(j) => match decode_notes(j) {
            Some(rs) => merge_notes(m, rs),
            None => m,
        },
        None => m,
    }
}

/// Writing records with distinct paths into `m`: each lands under its own
/// path, and every other key of `m` is left alone.
pub proof fn lemma_merge_unique(m: Map<Seq<char>, NoteView>, rs: Seq<NoteView>)
    requires
        paths_unique(rs),
    ensures
        forall|j: int|
            0 <= j < rs.len() ==> #[trigger] merge_notes(m, rs).contains_key(rs[j].path)
                && merge_notes(m, rs)[rs[j].path] == rs[j],
        forall|k: Seq<char>|
            (forall|j: int| 0 <= j < rs.len() ==> #[trigger] rs[j].path != k) ==> (
            #[trigger] merge_notes(m, rs).contains_key(k) == m.contains_key(k) && (m.contains_key(k)
                ==> merge_notes(m, rs)[k] == m[k])),
    decreases rs.len(),
{
    if rs.len() > 0 {
        let init = rs.drop_last();
        let last = rs.last();
        lemma_merge_unique(m, init);
        assert(merge_notes(m, rs) == merge_notes(m, init).insert(last.path, last));
        assert forall|j: int| 0 <= j < rs.len() implies #[trigger] merge_notes(m, rs).contains_key(
            rs[j].path,
        ) && merge_notes(m, rs)[rs[j].path] == rs[j] by {
            if j < rs.len() - 1 {
                assert(init[j] == rs[j]);
                assert(merge_notes(m, init).contains_key(init[j].path));
                assert(rs[j].path != rs[rs.len() - 1].path);
            }
        }
        assert forall|k: Seq<char>|
            (forall|j: int| 0 <= j < rs.len() ==> #[trigger] rs[j].path != k) implies (
            #[trigger] merge_notes(m, rs).contains_key(k) == m.contains_key(k) && (m.contains_key(k)
                ==> merge_notes(m, rs)[k] == m[k])) by {
            assert(rs[rs.len() - 1].path != k);
            assert forall|j: int| 0 <= j < init.len() implies #[trigger] init[j].path != k by {
                assert(init[j] == rs[j]);
            }
            assert(merge_notes(m, init).contains_key(k) == m.contains_key(k));
        }
    }
}

/// Filtering keeps no item twice, and keeps only items that were there.
proof fn lemma_filter_distinct(s: Seq<Seq<char>>, pred: spec_fn(Seq<char>) -> bool)
    requires
        s.no_duplicates(),
    ensures
        s.filter(pred).no_duplicates(),
        forall|x: Seq<char>| #[trigger] s.filter(pred).contains(x) ==> s.contains(x),
    decreases s.len(),
{
    reveal_with_fuel(Seq::filter, 1);
    if s.len() > 0 {
        let init = s.drop_last();
        assert(init.no_duplicates());
        lemma_filter_distinct(init, pred);
        let f = init.filter(pred);
        assert forall|x: Seq<char>| #[trigger] s.filter(pred).contains(x) implies s.contains(x) by {
            let i = choose|i: int| 0 <= i < s.filter(pred).len() && s.filter(pred)[i] == x;
            if i < f.len() {
                assert(f[i] == x);
                assert(f.contains(x));
                let k = choose|k: int| 0 <= k < init.len() && init[k] == x;
                assert(s[k] == x);
            } else {
                assert(s[s.len() - 1] == x);
            }
        }
        if pred(s.last()) {
            if f.contains(s.last()) {
                let k = choose|k: int| 0 <= k < init.len() && init[k] == s.last();
                assert(s[k] == s[s.len() - 1]);
            }
            let e = f.push(s.last());
            assert forall|a: int, b: int| 0 <= a < e.len() && 0 <= b < e.len() && a != b implies e[a]
                != e[b] by {
                if a == f.len() {
                    assert(e[b] == f[b]);
                } else if b == f.len() {
                    assert(e[a] == f[a]);
                }
            }
        }
    }
}

/// The records with distinct paths `rs`, as a map from path to record.
pub open spec fn notes_map(rs: Seq<NoteView>) -> Map<Seq<char>, NoteView> {
    merge_notes(Map::empty(), rs)
}

/// The map of records with distinct paths holds exactly their paths.
proof fn lemma_notes_map(rs: Seq<NoteView>)
    requires
        paths_unique(rs),
    ensures
        forall|j: int|
            0 <= j < rs.len() ==> #[trigger] notes_map(rs).contains_key(rs[j].path)
                && notes_map(rs)[rs[j].path] == rs[j],
        forall|k: Seq<char>|
            #[trigger] notes_map(rs).contains_key(k) ==> exists|j: int|
                0 <= j < rs.len() && rs[j].path == k,
{
    lemma_merge_unique(Map::empty(), rs);
    assert forall|k: Seq<char>| #[trigger] notes_map(rs).contains_key(k) implies exists|j: int|
        0 <= j < rs.len() && rs[j].path == k by {
        if forall|j: int| 0 <= j < rs.len() ==> #[trigger] rs[j].path != k {
        }
    }
}

/// Replacing the record at `i` by one with the same path replaces it in the map.
proof fn lemma_notes_map_update(rs: Seq<NoteView>, i: int, n: NoteView)
    requires
        paths_unique(rs),
        0 <= i < rs.len(),
        rs[i].path == n.path,
    ensures
        paths_unique(rs.update(i, n)),
        notes_map(rs.update(i, n)) == notes_map(rs).insert(n.path, n),
{
    let us = rs.update(i, n);
    assert forall|a: int, b: int| 0 <= a < b < us.len() implies #[trigger] us[a].path
        != #[trigger] us[b].path by {
        assert(rs[a].path != rs[b].path);
    }
    lemma_notes_map(rs);
    lemma_notes_map(us);
    assert forall|k: Seq<char>| #[trigger] notes_map(us).contains_key(k) == notes_map(rs).insert(
        n.path,
        n,
    ).contains_key(k) by {
        if notes_map(rs).contains_key(k) && k != n.path {
            let j = choose|j: int| 0 <= j < rs.len() && rs[j].path == k;
            assert(us[j].path == k);
        }
        if notes_map(us).contains_key(k) {
            let j = choose|j: int| 0 <= j < us.len() && us[j].path == k;
            assert(rs[j].path == k);
        }
        assert(us[i].path == n.path);
    }
    assert forall|k: Seq<char>| #[trigger] notes_map(us).contains_key(k) implies notes_map(us)[k]
        == notes_map(rs).insert(n.path, n)[k] by {
        let j = choose|j: int| 0 <= j < us.len() && us[j].path == k;
        assert(notes_map(us)[us[j].path] == us[j]);
        if j != i {
            assert(rs[j] == us[j]);
            assert(notes_map(rs)[rs[j].path] == rs[j]);
        }
    }
    assert(notes_map(us) =~= notes_map(rs).insert(n.path, n));
}

/// Adding a record under a new path adds it to the map.
proof fn lemma_notes_map_push(rs: Seq<NoteView>, n: NoteView)
    requires
        paths_unique(rs),
        forall|j: int| 0 <= j < rs.len() ==> #[trigger] rs[j].path != n.path,
    ensures
        paths_unique(rs.push(n)),
        notes_map(rs.push(n)) == notes_map(rs).insert(n.path, n),
{
    let us = rs.push(n);
    assert forall|a: int, b: int| 0 <= a < b < us.len() implies #[trigger] us[a].path
        != #[trigger] us[b].path by {
        if b < rs.len() {
            assert(rs[a].path != rs[b].path);
        } else {
            assert(rs[a].path != n.path);
        }
    }
    assert(us.drop_last() =~= rs);
}

/// Taking out the record at `i` takes its path out of the map.
proof fn lemma_notes_map_remove(rs: Seq<NoteView>, i: int)
    requires
        paths_unique(rs),
        0 <= i < rs.len(),
    ensures
        paths_unique(rs.remove(i)),
        notes_map(rs.remove(i)) == notes_map(rs).remove(rs[i].path),
{
    let us = rs.remove(i);
    let p = rs[i].path;
    assert forall|a: int, b: int| 0 <= a < b < us.len() implies #[trigger] us[a].path
        != #[trigger] us[b].path by {
        let ra = if a < i { a } else { a + 1 };
        let rb = if b < i { b } else { b + 1 };
        assert(us[a] == rs[ra] && us[b] == rs[rb]);
        assert(rs[ra].path != rs[rb].path);
    }
    lemma_notes_map(rs);
    lemma_notes_map(us);
    assert forall|k: Seq<char>| #[trigger] notes_map(us).contains_key(k) == notes_map(rs).remove(
        p,
    ).contains_key(k) by {
        if notes_map(rs).contains_key(k) && k != p {
            let j = choose|j: int| 0 <= j < rs.len() && rs[j].path == k;
            assert(j != i);
            let uj = if j < i { j } else { j - 1 };
            assert(us[uj] == rs[j]);
        }
        if notes_map(us).contains_key(k) {
            let j = choose|j: int| 0 <= j < us.len() && us[j].path == k;
            let rj = if j < i { j } else { j + 1 };
            assert(us[j] == rs[rj]);
            assert(rj != i);
            assert(rs[rj].path != p);
        }
    }
    assert forall|k: Seq<char>| #[trigger] notes_map(us).contains_key(k) implies notes_map(us)[k]
        == notes_map(rs)[k] by {
        let j = choose|j: int| 0 <= j < us.len() && us[j].path == k;
        let rj = if j < i { j } else { j + 1 };
        assert(us[j] == rs[rj]);
        assert(notes_map(us)[us[j].path] == us[j]);
        assert(notes_map(rs)[rs[rj].path] == rs[rj]);
    }
    assert(notes_map(us) =~= notes_map(rs).remove(p));
}

/// Relies on `SystemTime::now`, chrono's `From<SystemTime> for DateTime<Utc>`
/// and `DateTime::to_rfc3339`: the current time as RFC 3339 text. The
/// conversion takes times before 1970 as well; it fails only some 262,000
/// years away from 1970, which no system clock reads. Nothing is promised of
/// the time it gives.
#[verifier::external_body]
fn now_rfc3339() -> (r: String) {
    chrono::DateTime::<chrono::Utc>::from(std::time::SystemTime::now()).to_rfc3339()
}

/// The photo annotation store: at most one record per photo path, and the
/// paths of the photos found by the last scan.
///
/// Saving and loading go through text: `save_notes` gives the document to
/// write, and `load_notes` takes the document that was read.
#[derive(Debug)]
pub struct PhotoManager {
    photos: Vec<String>,
    notes: Vec<PhotoNote>,
}

impl View for PhotoManager {
    type V = Map<Seq<char>, NoteView>;

    /// The records, keyed by path.
    open spec fn view(&self) -> Map<Seq<char>, NoteView> {
        notes_map(self.records())
    }
}

impl Default for PhotoManager {
    /// An empty store with no photos.
    fn default() -> (r: Self)
        ensures
            r.wf(),
            r@ == Map::<Seq<char>, NoteView>::empty(),
            r.photo_list() == Seq::<Seq<char>>::empty(),
    {
        PhotoManager::new()
    }
}

impl PhotoManager {
    /// The records in the order they are kept and saved.
    pub closed spec fn records(&self) -> Seq<NoteView> {
        note_views(self.notes@)
    }

    /// The paths found by the last scan, in the order found.
    pub closed spec fn photo_list(&self) -> Seq<Seq<char>> {
        string_views(self.photos@)
    }

    /// No two records share a path, and no record repeats a tag.
    pub open spec fn wf(&self) -> bool {
        records_ok(self.records())
    }

    /// The records kept are exactly the entries of the map, each once, and
    /// each is stored under its own path.
    pub proof fn lemma_records(&self)
        requires
            self.wf(),
        ensures
            paths_unique(self.records()),
            forall|j: int|
                0 <= j < self.records().len() ==> #[trigger] self@.contains_key(
                    self.records()[j].path,
                ) && self@[self.records()[j].path] == self.records()[j],
            forall|k: Seq<char>|
                #[trigger] self@.contains_key(k) ==> exists|j: int|
                    0 <= j < self.records().len() && self.records()[j].path == k,
            forall|k: Seq<char>| #[trigger] self@.contains_key(k) ==> self@[k].path == k,
            forall|k: Seq<char>| #[trigger] self@.contains_key(k) ==> self@[k].tags.no_duplicates(),
    {
        lemma_notes_map(self.records());
        assert forall|k: Seq<char>| #[trigger] self@.contains_key(k) implies self@[k].path == k
            && self@[k].tags.no_duplicates() by {
            let j = choose|j: int| 0 <= j < self.records().len() && self.records()[j].path == k;
            assert(self@[self.records()[j].path] == self.records()[j]);
        }
    }

    /// An empty store with no photos.
    pub fn new() -> (r: Self)
        ensures
            r.wf(),
            r@ == Map::<Seq<char>, NoteView>::empty(),
            r.photo_list() == Seq::<Seq<char>>::empty(),
    {
        let r = PhotoManager { photos: Vec::new(), notes: Vec::new() };
        assert(r.records() =~= Seq::<NoteView>::empty());
        assert(r.photo_list() =~= Seq::<Seq<char>>::empty());
        assert(r@ =~= Map::<Seq<char>, NoteView>::empty());
        r
    }

    /// The position of the record for `path`.
    fn find(&self, path: &String) -> (r: Option<usize>)
        ensures
            match r {
                Some(i) => i < self.notes@.len() && self.records()[i as int].path == path@,
                None => forall|j: int|
                    0 <= j < self.records().len() ==> #[trigger] self.records()[j].path != path@,
            },
    {
        let mut i: usize = 0;
        while i < self.notes.len()
            invariant
                i <= self.notes@.len(),
                forall|j: int| 0 <= j < i ==> #[trigger] self.records()[j].path != path@,
            decreases self.notes@.len() - i,
        {
            if self.notes[i].path == *path {
                return Some(i);
            }
            i += 1;
        }
        None
    }

    /// Writes `n` as the record for its path, replacing any earlier one.
    fn put(&mut self, n: PhotoNote)
        requires
            old(self).wf(),
            n@.tags.no_duplicates(),
        ensures
            final(self).wf(),
            final(self)@ == old(self)@.insert(n@.path, n@),
            final(self).photos == old(self).photos,
    {
        let ghost rs = self.records();
        match self.find(&n.path) {
            Some(i) => {
                proof {
                    lemma_notes_map_update(rs, i as int, n@);
                }
                self.notes.set(i, n);
                assert(self.records() =~= rs.update(i as int, n@));
                assert(forall|j: int| 0 <= j < rs.len() && j != i ==> #[trigger] self.records()[j] == rs[j]);
            },
            None => {
                proof {
                    lemma_notes_map_push(rs, n@);
                }
                self.notes.push(n);
                assert(self.records() =~= rs.push(n@));
                assert(forall|j: int| 0 <= j < rs.len() ==> #[trigger] self.records()[j] == rs[j]);
            },
        }
    }

    /// The record for `path`, if there is one.
    pub fn get_note(&self, path: &str) -> (r: Option<&PhotoNote>)
        requires
            self.wf(),
        ensures
            match r {
                Some(n) => self@.contains_key(path@) && n@ == self@[path@],
                None => !self@.contains_key(path@),
            },
    {
        proof {
            lemma_notes_map(self.records());
        }
        let key = path.to_owned();
        match self.find(&key) {
            Some(i) => {
                assert(self.records()[i as int] == self.notes@[i as int]@);
                assert(self@.contains_key(self.records()[i as int].path));
                Some(&self.notes[i])
            },
            None => None,
        }
    }

    /// The tags of the record for `path`, in the order added; none where
    /// there is no record.
    pub fn get_tags(&self, path: &str) -> (r: Vec<String>)
        requires
            self.wf(),
        ensures
            string_views(r@) == tags_of(self@, path@),
    {
        match self.get_note(path) {
            Some(n) => {
                let mut tags: Vec<String> = Vec::new();
                let mut i: usize = 0;
                while i < n.tags.len()
                    invariant
                        i <= n.tags@.len(),
                        tags@.len() == i,
                        forall|j: int| 0 <= j < i ==> #[trigger] tags@[j]@ == n.tags@[j]@,
                    decreases n.tags@.len() - i,
                {
                    tags.push(n.tags[i].clone());
                    i += 1;
                }
                assert(string_views(tags@) =~= string_views(n.tags@));
                tags
            },
            None => {
                let tags: Vec<String> = Vec::new();
                assert(string_views(tags@) =~= Seq::<Seq<char>>::empty());
                tags
            },
        }
    }

    /// Sets the note of `path` to `note`, stamped with `timestamp`; an
    /// earlier record's tags stay.
    pub fn add_note_at(&mut self, path: &str, note: String, timestamp: String)
        requires
            old(self).wf(),
        ensures
            final(self).wf(),
            final(self)@ == map_set_note(old(self)@, path@, note@, timestamp@),
            final(self).photo_list() == old(self).photo_list(),
    {
        proof {
            self.lemma_records();
        }
        let tags = self.get_tags(path);
        let n = PhotoNote { path: path.to_owned(), note, timestamp, tags };
        assert(n@ == NoteView { path: path@, note: note@, timestamp: timestamp@, tags: tags_of(old(self)@, path@) });
        self.put(n);
    }

    /// Sets the note of `path` to `note`, stamped with the current time; an
    /// earlier record's tags stay.
    pub fn add_note(&mut self, path: &str, note: String)
        requires
            old(self).wf(),
        ensures
            final(self).wf(),
            final(self)@.contains_key(path@),
            final(self)@ == map_set_note(old(self)@, path@, note@, final(self)@[path@].timestamp),
            final(self).photo_list() == old(self).photo_list(),
    {
        let timestamp = now_rfc3339();
        self.add_note_at(path, note, timestamp);
    }

    /// Takes out the record for `path`, if there is one.
    pub fn remove_note(&mut self, path: &str)
        requires
            old(self).wf(),
        ensures
            final(self).wf(),
            final(self)@ == old(self)@.remove(path@),
            final(self).photo_list() == old(self).photo_list(),
    {
        let ghost rs = self.records();
        proof {
            lemma_notes_map(rs);
        }
        let key = path.to_owned();
        match self.find(&key) {
            Some(i) => {
                proof {
                    lemma_notes_map_remove(rs, i as int);
                }
                self.notes.remove(i);
                assert(self.records() =~= rs.remove(i as int));
            },
            None => {
                assert(self@ =~= old(self)@.remove(path@));
            },
        }
    }

    /// Takes out every record.
    pub fn clear_notes(&mut self)
        requires
            old(self).wf(),
        ensures
            final(self).wf(),
            final(self)@ == Map::<Seq<char>, NoteView>::empty(),
            final(self).photo_list() == old(self).photo_list(),
    {
        self.notes.clear();
        assert(self.records() =~= Seq::<NoteView>::empty());
        assert(self@ =~= Map::<Seq<char>, NoteView>::empty());
    }

    /// Adds `tag` to the record for `path`, creating a record with no note
    /// where there is none; a tag already there is not added again.
    pub fn add_tag(&mut self, path: &str, tag: String)
        requires
            old(self).wf(),
        ensures
            final(self).wf(),
            final(self)@ == map_add_tag(old(self)@, path@, tag@),
            final(self).photo_list() == old(self).photo_list(),
    {
        let n = match self.get_note(path) {
            Some(old_note) => {
                let mut tags: Vec<String> = Vec::new();
                let mut found = false;
                let mut i: usize = 0;
                while i < old_note.tags.len()
                    invariant
                        i <= old_note.tags@.len(),
                        tags@.len() == i,
                        forall|j: int| 0 <= j < i ==> #[trigger] tags@[j]@ == old_note.tags@[j]@,
                        found <==> exists|j: int|
                            0 <= j < i && #[trigger] string_views(old_note.tags@)[j] == tag@,
                    decreases old_note.tags@.len() - i,
                {
                    let t = old_note.tags[i].clone();
                    assert(string_views(old_note.tags@)[i as int] == t@);
                    if t == tag {
                        found = true;
                    }
                    tags.push(t);
                    i += 1;
                }
                assert(old_note@ == old(self)@[path@]);
                assert(found == string_views(old_note.tags@).contains(tag@));
                if !found {
                    assert(string_views(tags@).push(tag@) =~= string_views(old_note.tags@).push(tag@));
                    tags.push(tag);
                } else {
                    assert(string_views(tags@) =~= string_views(old_note.tags@));
                }
                PhotoNote {
                    path: old_note.path.clone(),
                    note: old_note.note.clone(),
                    timestamp: old_note.timestamp.clone(),
                    tags,
                }
            },
            None => {
                let mut tags: Vec<String> = Vec::new();
                tags.push(tag);
                assert(string_views(tags@) =~= Seq::<Seq<char>>::empty().push(tag@));
                PhotoNote { path: path.to_owned(), note: String::new(), timestamp: String::new(), tags }
            },
        };
        proof {
            lemma_notes_map(self.records());
        }
        assert(n@.path == with_tag(record_or_blank(old(self)@, path@), tag@).path);
        assert(n@.note == with_tag(record_or_blank(old(self)@, path@), tag@).note);
        assert(n@.timestamp == with_tag(record_or_blank(old(self)@, path@), tag@).timestamp);
        assert(n@.tags == with_tag(record_or_blank(old(self)@, path@), tag@).tags);
        assert(n@ == with_tag(record_or_blank(old(self)@, path@), tag@));
        self.put(n);
    }

    /// Takes `tag` out of the record for `path`, if there is one; the record
    /// itself stays.
    pub fn remove_tag(&mut self, path: &str, tag: &str)
        requires
            old(self).wf(),
        ensures
            final(self).wf(),
            final(self)@ == map_remove_tag(old(self)@, path@, tag@),
            final(self).photo_list() == old(self).photo_list(),
    {
        match self.get_note(path) {
            Some(old_note) => {
                let key = tag.to_owned();
                let ghost olds = string_views(old_note.tags@);
                let mut tags: Vec<String> = Vec::new();
                let mut i: usize = 0;
                while i < old_note.tags.len()
                    invariant
                        i <= old_note.tags@.len(),
                        olds == string_views(old_note.tags@),
                        key@ == tag@,
                        string_views(tags@) == olds.subrange(0, i as int).filter(
                            |t: Seq<char>| t != tag@,
                        ),
                    decreases old_note.tags@.len() - i,
                {
                    let t = old_note.tags[i].clone();
                    proof {
                        let f = |x: Seq<char>| x != tag@;
                        assert(olds.subrange(0, i + 1) =~= olds.subrange(0, i as int).push(t@));
                        olds.subrange(0, i as int).lemma_filter_push(t@, f);
                    }
                    if t != key {
                        tags.push(t);
                        assert(string_views(tags@) =~= string_views(tags@.drop_last()).push(t@));
                    }
                    i += 1;
                }
                assert(olds.subrange(0, i as int) =~= olds);
                proof {
                    self.lemma_records();
                    lemma_filter_distinct(olds, |t: Seq<char>| t != tag@);
                }
                let n = PhotoNote {
                    path: old_note.path.clone(),
                    note: old_note.note.clone(),
                    timestamp: old_note.timestamp.clone(),
                    tags,
                };
                proof {
                    lemma_notes_map(self.records());
                }
                self.put(n);
            },
            None => {},
        }
    }

    /// Loads a saved document: `None` where there was none to read, and
    /// otherwise its text. The records it holds are written in order, a later
    /// one replacing an earlier one with the same path; a text that is not a
    /// list of records changes nothing.
    pub fn load_notes(&mut self, content: Option<&str>)
        requires
            old(self).wf(),
        ensures
            final(self).wf(),
            match content {
                Some(text) => final(self)@ == load_into(old(self)@, parsed_json(text@)),
                None => final(self)@ == old(self)@,
            },
            final(self).photo_list() == old(self).photo_list(),
    {
        let text = match content {
            Some(t) => t,
            None => return,
        };
        let doc = match parse_json(text) {
            Some(v) => v,
            None => return,
        };
        let mut ns = match notes_from_json(&doc) {
            Some(ns) => ns,
            None => return,
        };
        let ghost rs = note_views(ns@);
        let ghost start = self@;
        proof {
            lemma_decoded_tags_distinct(json_model(doc), rs);
        }
        let total = ns.len();
        assert(rs.len() == total);
        let mut i: usize = 0;
        while ns.len() > 0
            invariant
                i + ns@.len() == rs.len(),
                rs.len() <= usize::MAX,
                note_views(ns@) == rs.skip(i as int),
                forall|k: int| 0 <= k < rs.len() ==> (#[trigger] rs[k]).tags.no_duplicates(),
                self.wf(),
                self@ == merge_notes(start, rs.take(i as int)),
                self.photo_list() == old(self).photo_list(),
            decreases ns@.len(),
        {
            let ghost before = ns@;
            let n = ns.remove(0);
            proof {
                assert(note_views(before)[0] == before[0]@);
                assert(n@ == rs[i as int]);
                assert forall|k: int| 0 <= k < ns@.len() implies #[trigger] note_views(ns@)[k]
                    == rs.skip(i + 1)[k] by {
                    assert(ns@[k] == before[k + 1]);
                    assert(note_views(before)[k + 1] == rs.skip(i as int)[k + 1]);
                }
                assert(note_views(ns@) =~= rs.skip(i + 1));
                assert(rs.take(i + 1).drop_last() =~= rs.take(i as int));
            }
            self.put(n);
            i += 1;
        }
        assert(rs.take(i as int) =~= rs);
    }

    /// The paths found by the last scan.
    pub fn photos(&self) -> (r: &Vec<String>)
        ensures
            string_views(r@) == self.photo_list(),
    {
        &self.photos
    }

    /// Replaces the photo list by the photos among the directory entries
    /// `entries`, in their order.
    pub fn scan_photos(&mut self, entries: &Vec<FileEntry>)
        requires
            old(self).wf(),
        ensures
            final(self).wf(),
            final(self)@ == old(self)@,
            final(self).photo_list() == photo_paths(entries@),
    {
        let mut photos: Vec<String> = Vec::new();
        let mut i: usize = 0;
        while i < entries.len()
            invariant
                i <= entries@.len(),
                string_views(photos@) == photo_paths(entries@.take(i as int)),
            decreases entries@.len() - i,
        {
            let e = &entries[i];
            proof {
                assert(entries@.take(i + 1).drop_last() =~= entries@.take(i as int));
                assert(entries@.take(i + 1).last() == *e);
            }
            if is_photo_entry(e) {
                let ghost before = photos@;
                photos.push(e.path.clone());
                assert(string_views(photos@) =~= string_views(before).push(e.path@));
            }
            i += 1;
        }
        assert(entries@.take(i as int) =~= entries@);
        self.photos = photos;
    }

    /// The text of the saved document: a list of every record, each once.
    pub fn save_notes(&self) -> (r: String)
        requires
            self.wf(),
        ensures
            parsed_json(r@) == Some(notes_json(self.records())),
            decode_notes(notes_json(self.records())) == Some(self.records()),
            paths_unique(self.records()),
            forall|j: int|
                0 <= j < self.records().len() ==> #[trigger] self@.contains_key(
                    self.records()[j].path,
                ) && self@[self.records()[j].path] == self.records()[j],
            forall|k: Seq<char>|
                #[trigger] self@.contains_key(k) ==> exists|j: int|
                    0 <= j < self.records().len() && self.records()[j].path == k,
            load_into(Map::empty(), parsed_json(r@)) == self@,
    {
        proof {
            self.lemma_records();
            lemma_notes_json_decodes(self.records());
        }
        let v = notes_to_json(&self.notes);
        proof {
            lemma_notes_json_depth(self.records(), parse_depth_limit());
        }
        let r = render_json(&v);
        proof {
            lemma_save_then_load(*self, r@);
        }
        r
    }
}

/// Loading the text that saving wrote, into an empty store, gives back
/// the same records: the same paths, each with the same note, time and tags.
pub proof fn lemma_save_then_load(m: PhotoManager, text: Seq<char>)
    requires
        m.wf(),
        parsed_json(text) == Some(notes_json(m.records())),
    ensures
        load_into(Map::empty(), parsed_json(text)) == m@,
{
    lemma_notes_json_decodes(m.records());
}

/// Saving twice with no change in between writes documents that read the
/// same, and that load the same.
pub proof fn lemma_save_twice(m: PhotoManager, first: Seq<char>, second: Seq<char>)
    requires
        parsed_json(first) == Some(notes_json(m.records())),
        parsed_json(second) == Some(notes_json(m.records())),
    ensures
        parsed_json(first) == parsed_json(second),
        forall|s: Map<Seq<char>, NoteView>|
            #[trigger] load_into(s, parsed_json(first)) == load_into(s, parsed_json(second)),
{
}

/// Loading a text that is no JSON document, or no list of records, leaves
/// the store as it was.
pub proof fn lemma_load_unreadable(m: Map<Seq<char>, NoteView>, text: Seq<char>)
    requires
        parsed_json(text) is None || decode_notes(parsed_json(text)->Some_0) is None,
    ensures
        load_into(m, parsed_json(text)) == m,
{
}

/// Adding a tag a second time changes nothing: the tag is there once, and a
/// record whose tags had no repeats still has none.
pub proof fn lemma_add_tag_twice(m: Map<Seq<char>, NoteView>, path: Seq<char>, tag: Seq<char>)
    ensures
        map_add_tag(map_add_tag(m, path, tag), path, tag) == map_add_tag(m, path, tag),
        tags_of(map_add_tag(m, path, tag), path).contains(tag),
        tags_of(m, path).no_duplicates() ==> tags_of(map_add_tag(m, path, tag), path).no_duplicates(),
        tags_of(m, path).len() == 0 ==> tags_of(map_add_tag(m, path, tag), path) == seq![tag],
{
    let n = record_or_blank(m, path);
    let once = map_add_tag(m, path, tag);
    if !n.tags.contains(tag) {
        assert(n.tags.push(tag)[n.tags.len() as int] == tag);
    }
    assert(with_tag(n, tag).tags.contains(tag));
    assert(record_or_blank(once, path) == with_tag(n, tag));
    assert(map_add_tag(once, path, tag) =~= once);
    if tags_of(m, path).len() == 0 {
        assert(n.tags =~= Seq::<Seq<char>>::empty());
        assert(Seq::<Seq<char>>::empty().push(tag) =~= seq![tag]);
    }
}

/// After a tag is removed from a record, the record's tags no longer hold
/// it; a tag added to a photo with no tags, and then removed, leaves none.
pub proof fn lemma_remove_tag(m: Map<Seq<char>, NoteView>, path: Seq<char>, tag: Seq<char>)
    ensures
        !tags_of(map_remove_tag(m, path, tag), path).contains(tag),
        tags_of(m, path).len() == 0 ==> tags_of(
            map_remove_tag(map_add_tag(m, path, tag), path, tag),
            path,
        ) == Seq::<Seq<char>>::empty(),
{
    let f = |t: Seq<char>| t != tag;
    if m.contains_key(path) {
        let kept = m[path].tags.filter(f);
        if kept.contains(tag) {
            let i = choose|i: int| 0 <= i < kept.len() && kept[i] == tag;
            assert(f(kept[i]));
        }
    }
    if tags_of(m, path).len() == 0 {
        let one = seq![tag];
        reveal_with_fuel(Seq::filter, 2);
        assert(one.drop_last() =~= Seq::<Seq<char>>::empty());
        assert(one.filter(f) =~= Seq::<Seq<char>>::empty());
        assert(record_or_blank(m, path).tags =~= Seq::<Seq<char>>::empty());
        assert(Seq::<Seq<char>>::empty().push(tag) =~= one);
    }
}

} // verus!
