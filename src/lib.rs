//! A photo annotation store: notes and tags attached to photo paths,
//! persisted as one JSON document, and the extension filter that decides
//! which files of a picture directory are photos.

mod discovery;
mod json;
mod note;
mod store;

pub use discovery::{
    ascii_lower, ascii_lower_char, case_folded, home_photo_dirs, is_ascii_text, is_photo_entry,
    lemma_photo_paths, is_photo_extension, is_photo_extension_lowered, lower_of,
    photo_entry, photo_extension, photo_paths, FileEntry,
};
pub use json::{depth_at_most, fields_map, json_model, json_models, parse_depth_limit, parsed_json, JsonView};
pub use note::{
    decode_note, decode_notes, decode_tags, dedup, lemma_decoded_tags_distinct, lemma_dedup, lemma_note_json_decodes, texts, lemma_notes_json_decodes,
    lemma_notes_json_depth, note_json, note_views, notes_json, string_views, tags_json, NoteView,
    PhotoNote,
};
pub use store::{
    lemma_add_tag_twice, lemma_load_unreadable, lemma_merge_unique, lemma_remove_tag,
    lemma_save_then_load, lemma_save_twice, load_into, map_add_tag, map_remove_tag, map_set_note,
    merge_notes, notes_map, paths_unique, record_or_blank, records_ok, tags_of, with_tag, PhotoManager,
};
