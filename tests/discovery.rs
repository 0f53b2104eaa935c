use notia::{home_photo_dirs, is_photo_entry, is_photo_extension, is_photo_extension_lowered, FileEntry};

#[test]
fn lowered_extensions() {
    for e in ["jpg", "jpeg", "png", "gif", "bmp", "webp"] {
        assert!(is_photo_extension_lowered(e));
    }
    for e in ["txt", "JPG", "", "jpgx", "tiff", "mp4"] {
        assert!(!is_photo_extension_lowered(e));
    }
}

#[test]
fn extension_case_is_ignored() {
    assert!(is_photo_extension("jpg"));
    assert!(is_photo_extension("PNG"));
    assert!(is_photo_extension("JpEg"));
    assert!(is_photo_extension("GIF"));
    assert!(is_photo_extension("BMP"));
    assert!(is_photo_extension("WEBP"));
    assert!(!is_photo_extension("TXT"));
    assert!(!is_photo_extension(""));
}

#[test]
fn entry_must_be_a_file() {
    let file = FileEntry { path: "/d/a.jpg".to_string(), extension: Some("jpg".to_string()), is_file: true };
    let dir = FileEntry { path: "/d/a.jpg".to_string(), extension: Some("jpg".to_string()), is_file: false };
    let bare = FileEntry { path: "/d/a".to_string(), extension: None, is_file: true };
    assert!(is_photo_entry(&file));
    assert!(!is_photo_entry(&dir));
    assert!(!is_photo_entry(&bare));
}

#[test]
fn home_folders_searched() {
    assert_eq!(
        home_photo_dirs(),
        vec![
            "Pictures".to_string(),
            "Resimler".to_string(),
            "Downloads".to_string(),
            "\u{130}ndirilenler".to_string()
        ]
    );
}
