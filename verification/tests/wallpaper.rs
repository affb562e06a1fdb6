use rustblog_core::wallpaper::{upload_finish, upload_start, upload_step, UploadError, UploadField, WallpaperQuery};

#[test]
fn complete_form_gives_a_draft() {
    let mut st = upload_start::<u8>();
    st = upload_step(st, UploadField::Type(Some(2)));
    st = upload_step(st, UploadField::Tags("sea,sky".to_string()));
    st = upload_step(st, UploadField::Other);
    st = upload_step(st, UploadField::File("a.png".to_string(), vec![1, 2, 3]));
    let d = upload_finish(st).ok().unwrap();
    assert_eq!(d.wallpaper_type, 2);
    assert_eq!(d.tags, "sea,sky");
    assert_eq!(d.bytes, vec![1, 2, 3]);
    assert_eq!(d.original_filename, "a.png");
}

#[test]
fn later_fields_win_and_unnamed_files_are_ignored() {
    let mut st = upload_start::<u8>();
    st = upload_step(st, UploadField::Type(Some(1)));
    st = upload_step(st, UploadField::Type(None));
    st = upload_step(st, UploadField::File("a.png".to_string(), vec![1]));
    st = upload_step(st, UploadField::Unnamed);
    assert!(st.wallpaper_type.is_none());
    assert_eq!(st.file_bytes, Some(vec![1]));
    assert_eq!(st.original_filename.as_deref(), Some("a.png"));
    assert!(matches!(upload_finish(st), Err(UploadError::MissingType)));
}

#[test]
fn missing_parts_are_reported_in_order() {
    let st = upload_start::<u8>();
    assert!(matches!(upload_finish(st), Err(UploadError::MissingType)));
    let st = upload_step(upload_start::<u8>(), UploadField::Type(Some(0)));
    assert!(matches!(upload_finish(st), Err(UploadError::MissingFile)));
    let mut st = upload_step(upload_start::<u8>(), UploadField::Type(Some(0)));
    st.file_bytes = Some(vec![9]);
    assert!(matches!(upload_finish(st), Err(UploadError::MissingFilename)));
    let st = upload_start::<u8>();
    assert_eq!(st.tags, "");
}

#[test]
fn wallpaper_query_holds_its_fields() {
    let q = WallpaperQuery { list: Some(true), tags: Some("a".to_string()), width: None, height: Some("1080".to_string()) };
    assert_eq!(q.list, Some(true));
    assert_eq!(q.height.as_deref(), Some("1080"));
}
