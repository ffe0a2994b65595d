use vstd::prelude::*;

use crate::node::FileKind;

verus! {

/// The glyph shown for an entry that no lookup table recognises.
pub const DEFAULT_ICON: &'static str = "\u{f15b}";

/// Returns the default fallback icon together with its 8-bit colour code.
pub fn get_default_icon() -> (r: (u8, &'static str))
    ensures
        r.0 == 66,
        r.1@ == DEFAULT_ICON@,
{
    (66, DEFAULT_ICON)
}

/// The glyph for directories.
pub const DIR_ICON: &'static str = "\u{f413}";

/// The glyph for symlinks.
pub const SYMLINK_ICON: &'static str = "\u{f482}";

/// Attempts to return an icon based on file type.
pub fn icon_from_file_type(kind: FileKind) -> (r: Option<&'static str>)
    ensures
        kind == FileKind::Dir ==> r == Some(DIR_ICON),
        kind == FileKind::Symlink ==> r == Some(SYMLINK_ICON),
        kind != FileKind::Dir && kind != FileKind::Symlink ==> r is None,
{
    match kind {
        FileKind::Dir => Some(DIR_ICON),
        FileKind::Symlink => Some(SYMLINK_ICON),
        _ => None,
    }
}

/// The glyph an entry is shown with: the one its extension maps to, else the one for its file
/// type, else the one for its special name, else the default.
pub fn select_icon(ext_icon: Option<&str>, kind: Option<FileKind>, name_icon: Option<&str>) -> (r: String)
    ensures
        ext_icon is Some ==> r@ == ext_icon->0@,
        ext_icon is None && kind == Some(FileKind::Dir) ==> r@ == DIR_ICON@,
        ext_icon is None && kind == Some(FileKind::Symlink) ==> r@ == SYMLINK_ICON@,
        ext_icon is None && kind != Some(FileKind::Dir) && kind != Some(FileKind::Symlink) && name_icon is Some
            ==> r@ == name_icon->0@,
        ext_icon is None && kind != Some(FileKind::Dir) && kind != Some(FileKind::Symlink) && name_icon is None
            ==> r@ == DEFAULT_ICON@,
{
    proof {
        broadcast use vstd::string::to_string_from_display_ensures_for_str;
    }
    if let Some(icon) = ext_icon {
        return icon.to_string();
    }
    if let Some(k) = kind {
        if let Some(icon) = icon_from_file_type(k) {
            return icon.to_string();
        }
    }
    if let Some(icon) = name_icon {
        return icon.to_string();
    }
    DEFAULT_ICON.to_string()
}

} // verus!
