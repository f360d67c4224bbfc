//! Downloading subtitles with yt-dlp: the argument list.
use vstd::prelude::*;
use crate::text::{chars_of, push_str, string_of, str_to_string};

verus! {

/// The output template below the folder `out`.
pub const OUTPUT_TEMPLATE: &'static str = "/%(uploader)s - %(title)s [%(id)s].%(ext)s";

/// The yt-dlp arguments for a URL, language, format and output folder
/// (shown as text).
pub open spec fn fetch_args_spec(url: Seq<char>, lang: Seq<char>, format: Seq<char>, out: Seq<char>) -> Seq<
    Seq<char>,
> {
    seq![
        "--yes-playlist"@,
        "--skip-download"@,
        "--write-subs"@,
        "--write-auto-subs"@,
        "--sub-lang"@,
        lang,
        "--sub-format"@,
        format,
        "-o"@,
        out + OUTPUT_TEMPLATE@,
        "--no-warnings"@,
        url,
    ]
}

/// Builds the yt-dlp arguments: playlists followed, no video download,
/// manual and automatic subtitles in the given language and format,
/// files named `<out>/<uploader> - <title> [<id>].<ext>`.
pub fn build_args(url: &str, lang: &str, format: &str, out: &str) -> (r: Vec<String>)
    ensures
        r@.map_values(|s: String| s@) == fetch_args_spec(url@, lang@, format@, out@),
{
    let mut template = chars_of(out);
    push_str(&mut template, OUTPUT_TEMPLATE);
    let r = vec![
        str_to_string("--yes-playlist"),
        str_to_string("--skip-download"),
        str_to_string("--write-subs"),
        str_to_string("--write-auto-subs"),
        str_to_string("--sub-lang"),
        str_to_string(lang),
        str_to_string("--sub-format"),
        str_to_string(format),
        str_to_string("-o"),
        string_of(&template),
        str_to_string("--no-warnings"),
        str_to_string(url),
    ];
    assert(r@.map_values(|s: String| s@) =~= fetch_args_spec(url@, lang@, format@, out@));
    r
}

} // verus!
