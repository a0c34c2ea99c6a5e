//! The fixed mapping from file extensions to categories.
use vstd::prelude::*;
use crate::paths::{extension_of, file_name_of, split_path};
use crate::text::{chars_of, string_from};

verus! {

/// The kinds of file that organising by type tells apart.
#[derive(Debug, Clone, Copy, PartialEq, Eq, Structural)]
pub enum Category {
    Images,
    Documents,
    Videos,
    Audio,
    Archives,
    Executables,
    Others,
}

/// The folder name of a category.
pub open spec fn category_label(c: Category) -> Seq<char> {
    match c {
        Category::Images => "Images"@,
        Category::Documents => "Documents"@,
        Category::Videos => "Videos"@,
        Category::Audio => "Audio"@,
        Category::Archives => "Archives"@,
        Category::Executables => "Executables"@,
        Category::Others => "Others"@,
    }
}

impl Category {
    /// The folder name of this category.
    pub fn folder_name(&self) -> (r: String)
        ensures
            r@ == category_label(*self),
    {
        match self {
            Category::Images => String::from_str("Images"),
            Category::Documents => String::from_str("Documents"),
            Category::Videos => String::from_str("Videos"),
            Category::Audio => String::from_str("Audio"),
            Category::Archives => String::from_str("Archives"),
            Category::Executables => String::from_str("Executables"),
            Category::Others => String::from_str("Others"),
        }
    }
}

/// One lower-case extension, without its dot, and its category.
#[derive(Debug, Clone)]
pub struct TypeMapping {
    pub extension: String,
    pub category: Category,
}

impl View for TypeMapping {
    type V = (Seq<char>, Category);

    open spec fn view(&self) -> (Seq<char>, Category) {
        (self.extension@, self.category)
    }
}

/// Every known extension with its category.
pub open spec fn type_table() -> Seq<(Seq<char>, Category)> {
    seq![
        ("jpg"@, Category::Images),
        ("jpeg"@, Category::Images),
        ("png"@, Category::Images),
        ("gif"@, Category::Images),
        ("bmp"@, Category::Images),
        ("tiff"@, Category::Images),
        ("svg"@, Category::Images),
        ("webp"@, Category::Images),
        ("ico"@, Category::Images),
        ("pdf"@, Category::Documents),
        ("doc"@, Category::Documents),
        ("docx"@, Category::Documents),
        ("txt"@, Category::Documents),
        ("rtf"@, Category::Documents),
        ("odt"@, Category::Documents),
        ("xls"@, Category::Documents),
        ("xlsx"@, Category::Documents),
        ("ppt"@, Category::Documents),
        ("pptx"@, Category::Documents),
        ("mp4"@, Category::Videos),
        ("avi"@, Category::Videos),
        ("mkv"@, Category::Videos),
        ("mov"@, Category::Videos),
        ("wmv"@, Category::Videos),
        ("flv"@, Category::Videos),
        ("webm"@, Category::Videos),
        ("m4v"@, Category::Videos),
        ("mp3"@, Category::Audio),
        ("wav"@, Category::Audio),
        ("flac"@, Category::Audio),
        ("aac"@, Category::Audio),
        ("ogg"@, Category::Audio),
        ("wma"@, Category::Audio),
        ("m4a"@, Category::Audio),
        ("zip"@, Category::Archives),
        ("rar"@, Category::Archives),
        ("7z"@, Category::Archives),
        ("tar"@, Category::Archives),
        ("gz"@, Category::Archives),
        ("bz2"@, Category::Archives),
        ("exe"@, Category::Executables),
        ("msi"@, Category::Executables),
        ("deb"@, Category::Executables),
        ("rpm"@, Category::Executables),
        ("dmg"@, Category::Executables),
        ("app"@, Category::Executables),
    ]
}

/// The category of the first entry of `t` for `ext`, or `Others`.
pub open spec fn lookup(t: Seq<(Seq<char>, Category)>, ext: Seq<char>) -> Category
    decreases t.len(),
{
    if t.len() == 0 {
        Category::Others
    } else if t[0].0 == ext {
        t[0].1
    } else {
        lookup(t.drop_first(), ext)
    }
}

/// What Unicode lower-casing makes of a string.
pub uninterp spec fn lower_of(s: Seq<char>) -> Seq<char>;

/// Relies on `str::to_lowercase`: the lower-case form of the characters,
/// which depends on them alone.
#[verifier::external_body]
fn lowercase(s: &str) -> (r: String)
    ensures
        r@ == lower_of(s@),
{
    s.to_lowercase()
}

fn add_mapping(v: &mut Vec<TypeMapping>, ext: &str, category: Category)
    ensures
        final(v)@.len() == old(v)@.len() + 1,
        forall|i: int| 0 <= i < old(v)@.len() ==> final(v)@[i] == old(v)@[i],
        final(v)@.last()@ == (ext@, category),
{
    v.push(TypeMapping { extension: String::from_str(ext), category });
}

/// The mapping from lower-case extensions to categories.
pub fn get_type_mappings() -> (r: Vec<TypeMapping>)
    ensures
        r@.map_values(|m: TypeMapping| m@) == type_table(),
{
    let mut v: Vec<TypeMapping> = Vec::new();
    add_mapping(&mut v, "jpg", Category::Images);
    add_mapping(&mut v, "jpeg", Category::Images);
    add_mapping(&mut v, "png", Category::Images);
    add_mapping(&mut v, "gif", Category::Images);
    add_mapping(&mut v, "bmp", Category::Images);
    add_mapping(&mut v, "tiff", Category::Images);
    add_mapping(&mut v, "svg", Category::Images);
    add_mapping(&mut v, "webp", Category::Images);
    add_mapping(&mut v, "ico", Category::Images);
    add_mapping(&mut v, "pdf", Category::Documents);
    add_mapping(&mut v, "doc", Category::Documents);
    add_mapping(&mut v, "docx", Category::Documents);
    add_mapping(&mut v, "txt", Category::Documents);
    add_mapping(&mut v, "rtf", Category::Documents);
    add_mapping(&mut v, "odt", Category::Documents);
    add_mapping(&mut v, "xls", Category::Documents);
    add_mapping(&mut v, "xlsx", Category::Documents);
    add_mapping(&mut v, "ppt", Category::Documents);
    add_mapping(&mut v, "pptx", Category::Documents);
    add_mapping(&mut v, "mp4", Category::Videos);
    add_mapping(&mut v, "avi", Category::Videos);
    add_mapping(&mut v, "mkv", Category::Videos);
    add_mapping(&mut v, "mov", Category::Videos);
    add_mapping(&mut v, "wmv", Category::Videos);
    add_mapping(&mut v, "flv", Category::Videos);
    add_mapping(&mut v, "webm", Category::Videos);
    add_mapping(&mut v, "m4v", Category::Videos);
    add_mapping(&mut v, "mp3", Category::Audio);
    add_mapping(&mut v, "wav", Category::Audio);
    add_mapping(&mut v, "flac", Category::Audio);
    add_mapping(&mut v, "aac", Category::Audio);
    add_mapping(&mut v, "ogg", Category::Audio);
    add_mapping(&mut v, "wma", Category::Audio);
    add_mapping(&mut v, "m4a", Category::Audio);
    add_mapping(&mut v, "zip", Category::Archives);
    add_mapping(&mut v, "rar", Category::Archives);
    add_mapping(&mut v, "7z", Category::Archives);
    add_mapping(&mut v, "tar", Category::Archives);
    add_mapping(&mut v, "gz", Category::Archives);
    add_mapping(&mut v, "bz2", Category::Archives);
    add_mapping(&mut v, "exe", Category::Executables);
    add_mapping(&mut v, "msi", Category::Executables);
    add_mapping(&mut v, "deb", Category::Executables);
    add_mapping(&mut v, "rpm", Category::Executables);
    add_mapping(&mut v, "dmg", Category::Executables);
    add_mapping(&mut v, "app", Category::Executables);
    assert(v@.map_values(|m: TypeMapping| m@) =~= type_table());
    v
}

/// The category of an extension that is already in lower case.
pub fn category_for_lowered(ext: &String) -> (r: Category)
    ensures
        r == lookup(type_table(), ext@),
{
    let table = get_type_mappings();
    let ghost t = table@.map_values(|m: TypeMapping| m@);
    let mut i: usize = 0;
    assert(t.subrange(0, t.len() as int) =~= t);
    while i < table.len()
        invariant
            t == table@.map_values(|m: TypeMapping| m@),
            t == type_table(),
            i <= table@.len(),
            lookup(t, ext@) == lookup(t.subrange(i as int, t.len() as int), ext@),
        decreases table@.len() - i,
    {
        let ghost rest = t.subrange(i as int, t.len() as int);
        if table[i].extension == *ext {
            return table[i].category;
        }
        assert(rest.drop_first() =~= t.subrange(i + 1, t.len() as int));
        i += 1;
    }
    Category::Others
}

/// The category of an extension, whatever its case.
pub fn category_for_extension(ext: &str) -> (r: Category)
    ensures
        r == lookup(type_table(), lower_of(ext@)),
{
    let lower = lowercase(ext);
    category_for_lowered(&lower)
}

/// The folder that organising by type gives a file of this name:
/// `Others` where it has no extension.
pub open spec fn type_folder(name: Seq<char>) -> Seq<char> {
    let e = extension_of(file_name_of(name));
    if e.len() == 0 {
        "Others"@
    } else {
        category_label(lookup(type_table(), lower_of(e.drop_first())))
    }
}

/// The folder that organising by type gives a file of this name.
pub fn type_folder_for(name: &String) -> (r: String)
    ensures
        r@ == type_folder(name@),
{
    let (_dir, _stem, ext) = split_path(name);
    let cs = chars_of(ext.as_str());
    if cs.len() == 0 {
        return String::from_str("Others");
    }
    let bare = string_from(&cs, 1, cs.len());
    assert(bare@ =~= ext@.drop_first());
    category_for_extension(bare.as_str()).folder_name()
}

} // verus!
