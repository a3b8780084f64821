//! Built-in tables and the settings a configuration file may override.

use crate::text::texts;
use vstd::prelude::*;
use vstd::string::*;

verus! {

/// Settings that a configuration file may override.
#[derive(Debug, Clone)]
pub struct Config {
    /// Extensions of settings files, each with its leading dot.
    pub settings_extensions: Vec<String>,
    /// Extensions ignored when the command line names none.
    pub default_ignore_types: Vec<String>,
    /// The depth limit used when the command line gives none.
    pub max_depth: usize,
}

/// The built-in extensions of settings files.
pub open spec fn settings_table() -> Seq<Seq<char>> {
    seq![".json"@, ".yaml"@, ".yml"@, ".xml"@]
}

/// The built-in table of ignored extensions: images, video, audio, documents,
/// executables, archives and data files.
pub open spec fn ignore_table() -> Seq<Seq<char>> {
    seq![
        "jpg"@,
        "jpeg"@,
        "png"@,
        "gif"@,
        "bmp"@,
        "svg"@,
        "tiff"@,
        "webp"@,
        "mp4"@,
        "avi"@,
        "mov"@,
        "wmv"@,
        "flv"@,
        "mkv"@,
        "webm"@,
        "mp3"@,
        "wav"@,
        "aac"@,
        "flac"@,
        "ogg"@,
        "m4a"@,
        "pdf"@,
        "doc"@,
        "docx"@,
        "xls"@,
        "xlsx"@,
        "ppt"@,
        "pptx"@,
        "exe"@,
        "dll"@,
        "so"@,
        "class"@,
        "jar"@,
        "pyc"@,
        "zip"@,
        "rar"@,
        "7z"@,
        "tar"@,
        "gz"@,
        "bz2"@,
        "bin"@,
        "dat"@,
        "db"@,
        "log"@,
    ]
}

/// Appends one table entry.
fn push_entry(list: &mut Vec<String>, entry: &str)
    ensures
        texts(final(list)@) == texts(old(list)@).push(entry@),
{
    list.push(String::from_str(entry));
    assert(texts(list@) =~= texts(old(list)@).push(entry@));
}

/// The built-in extensions of settings files.
pub fn default_settings_extensions() -> (r: Vec<String>)
    ensures
        texts(r@) == settings_table(),
{
    let mut list: Vec<String> = Vec::new();
    assert(texts(list@) =~= Seq::<Seq<char>>::empty());
    push_entry(&mut list, ".json");
    push_entry(&mut list, ".yaml");
    push_entry(&mut list, ".yml");
    push_entry(&mut list, ".xml");
    list
}

/// The built-in table of ignored extensions.
pub fn default_ignore_types() -> (r: Vec<String>)
    ensures
        texts(r@) == ignore_table(),
{
    let mut list: Vec<String> = Vec::new();
    assert(texts(list@) =~= Seq::<Seq<char>>::empty());
    push_entry(&mut list, "jpg");
    push_entry(&mut list, "jpeg");
    push_entry(&mut list, "png");
    push_entry(&mut list, "gif");
    push_entry(&mut list, "bmp");
    push_entry(&mut list, "svg");
    push_entry(&mut list, "tiff");
    push_entry(&mut list, "webp");
    push_entry(&mut list, "mp4");
    push_entry(&mut list, "avi");
    push_entry(&mut list, "mov");
    push_entry(&mut list, "wmv");
    push_entry(&mut list, "flv");
    push_entry(&mut list, "mkv");
    push_entry(&mut list, "webm");
    push_entry(&mut list, "mp3");
    push_entry(&mut list, "wav");
    push_entry(&mut list, "aac");
    push_entry(&mut list, "flac");
    push_entry(&mut list, "ogg");
    push_entry(&mut list, "m4a");
    push_entry(&mut list, "pdf");
    push_entry(&mut list, "doc");
    push_entry(&mut list, "docx");
    push_entry(&mut list, "xls");
    push_entry(&mut list, "xlsx");
    push_entry(&mut list, "ppt");
    push_entry(&mut list, "pptx");
    push_entry(&mut list, "exe");
    push_entry(&mut list, "dll");
    push_entry(&mut list, "so");
    push_entry(&mut list, "class");
    push_entry(&mut list, "jar");
    push_entry(&mut list, "pyc");
    push_entry(&mut list, "zip");
    push_entry(&mut list, "rar");
    push_entry(&mut list, "7z");
    push_entry(&mut list, "tar");
    push_entry(&mut list, "gz");
    push_entry(&mut list, "bz2");
    push_entry(&mut list, "bin");
    push_entry(&mut list, "dat");
    push_entry(&mut list, "db");
    push_entry(&mut list, "log");
    list
}

/// The built-in depth limit.
pub fn default_max_depth() -> (r: usize)
    ensures
        r == 100,
{
    100
}

impl Config {
    /// The configuration made of the built-in tables.
    pub fn builtin() -> (r: Config)
        ensures
            texts(r.settings_extensions@) == settings_table(),
            texts(r.default_ignore_types@) == ignore_table(),
            r.max_depth == 100,
    {
        Config {
            settings_extensions: default_settings_extensions(),
            default_ignore_types: default_ignore_types(),
            max_depth: default_max_depth(),
        }
    }
}

} // verus!
