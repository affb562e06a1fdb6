//! Wallpaper requests: the query of a listing and the fields of an upload, gathered one by
//! one and checked once the form is read.
use vstd::prelude::*;

verus! {

/// The query of a wallpaper listing.
#[derive(Debug)]
pub struct WallpaperQuery {
    pub list: Option<bool>,
    pub tags: Option<String>,
    pub width: Option<String>,
    pub height: Option<String>,
}

/// One field of an upload form, as read. `W` is the wallpaper kind, already parsed from
/// the text of the `type` field (`None` where that text names no kind).
pub enum UploadField<W> {
    /// The `type` field.
    Type(Option<W>),
    /// The `tags` field (empty where its text could not be read).
    Tags(String),
    /// The `file` field with its file name and content.
    File(String, Vec<u8>),
    /// A `file` field without a file name; its content is not read.
    Unnamed,
    /// A field of any other name.
    Other,
}

/// What the fields read so far have given.
pub struct UploadState<W> {
    pub wallpaper_type: Option<W>,
    pub tags: String,
    pub file_bytes: Option<Vec<u8>>,
    pub original_filename: Option<String>,
}

/// Why an upload form is refused once read.
#[derive(Debug, PartialEq, Eq, Structural)]
pub enum UploadError {
    /// No `type` field named a wallpaper kind.
    MissingType,
    /// No file was sent.
    MissingFile,
    /// The file came without a name.
    MissingFilename,
}

/// A complete upload: kind, tags, content and the file's original name.
pub struct WallpaperDraft<W> {
    pub wallpaper_type: W,
    pub tags: String,
    pub bytes: Vec<u8>,
    pub original_filename: String,
}

/// The state before any field: no kind, empty tags, no file.
pub fn upload_start<W>() -> (r: UploadState<W>)
    ensures
        r.wallpaper_type is None,
        r.tags@ == Seq::<char>::empty(),
        r.file_bytes is None,
        r.original_filename is None,
{
    UploadState { wallpaper_type: None, tags: String::new(), file_bytes: None, original_filename: None }
}

/// Takes one field into the state: the latest `type`, `tags` and named `file` fields win;
/// a `file` field without a name and fields of other names change nothing.
pub fn upload_step<W>(state: UploadState<W>, field: UploadField<W>) -> (r: UploadState<W>)
    ensures
        match field {
            UploadField::Type(w) => r.wallpaper_type == w && r.tags == state.tags
                && r.file_bytes == state.file_bytes && r.original_filename == state.original_filename,
            UploadField::Tags(t) => r.tags == t && r.wallpaper_type == state.wallpaper_type
                && r.file_bytes == state.file_bytes && r.original_filename == state.original_filename,
            UploadField::File(name, bytes) => r.original_filename == Some(name) && r.file_bytes == Some(bytes)
                && r.wallpaper_type == state.wallpaper_type && r.tags == state.tags,
            UploadField::Unnamed | UploadField::Other => r == state,
        },
{
    let UploadState { wallpaper_type, tags, file_bytes, original_filename } = state;
    match field {
        UploadField::Type(w) => UploadState { wallpaper_type: w, tags, file_bytes, original_filename },
        UploadField::Tags(t) => UploadState { wallpaper_type, tags: t, file_bytes, original_filename },
        UploadField::File(name, bytes) => UploadState {
            wallpaper_type,
            tags,
            file_bytes: Some(bytes),
            original_filename: Some(name),
        },
        UploadField::Unnamed => UploadState { wallpaper_type, tags, file_bytes, original_filename },
        UploadField::Other => UploadState { wallpaper_type, tags, file_bytes, original_filename },
    }
}

/// Checks the gathered fields: the kind first, then the file, then its name.
pub fn upload_finish<W>(state: UploadState<W>) -> (r: Result<WallpaperDraft<W>, UploadError>)
    ensures
        state.wallpaper_type is None ==> r == Err::<WallpaperDraft<W>, UploadError>(UploadError::MissingType),
        state.wallpaper_type is Some && state.file_bytes is None
            ==> r == Err::<WallpaperDraft<W>, UploadError>(UploadError::MissingFile),
        state.wallpaper_type is Some && state.file_bytes is Some && state.original_filename is None
            ==> r == Err::<WallpaperDraft<W>, UploadError>(UploadError::MissingFilename),
        r matches Ok(d) ==> state.wallpaper_type == Some(d.wallpaper_type) && d.tags == state.tags
            && state.file_bytes == Some(d.bytes) && state.original_filename == Some(d.original_filename),
        (state.wallpaper_type is Some && state.file_bytes is Some && state.original_filename is Some) == r is Ok,
{
    let UploadState { wallpaper_type, tags, file_bytes, original_filename } = state;
    let wallpaper_type = match wallpaper_type {
        Some(w) => w,
        None => return Err(UploadError::MissingType),
    };
    let bytes = match file_bytes {
        Some(b) => b,
        None => return Err(UploadError::MissingFile),
    };
    let original_filename = match original_filename {
        Some(n) => n,
        None => return Err(UploadError::MissingFilename),
    };
    Ok(WallpaperDraft { wallpaper_type, tags, bytes, original_filename })
}

} // verus!
