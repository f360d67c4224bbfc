//! What the toolkit reads of an `ffprobe` report: the kind of each stream,
//! its tags and its disposition flags. Tags and flags are held as pairs,
//! one per key, in the order the report gave them.
use vstd::prelude::*;
use crate::text::{chars_eq, chars_of};

verus! {

/// The value stored under `key` among `pairs` (the first pair with that
/// key; a report holds each key once).
pub open spec fn lookup<V>(pairs: Seq<(Seq<char>, V)>, key: Seq<char>) -> Option<V>
    decreases pairs.len(),
{
    if pairs.len() == 0 {
        None
    } else if pairs[0].0 == key {
        Some(pairs[0].1)
    } else {
        lookup(pairs.drop_first(), key)
    }
}

pub open spec fn tags_view(tags: Seq<(String, String)>) -> Seq<(Seq<char>, Seq<char>)> {
    tags.map_values(|p: (String, String)| (p.0@, p.1@))
}

pub open spec fn flags_view(flags: Seq<(String, Option<i64>)>) -> Seq<(Seq<char>, Option<int>)> {
    flags.map_values(
        |p: (String, Option<i64>)|
            (
                p.0@,
                match p.1 {
                    Some(v) => Some(v as int),
                    None => None,
                },
            ),
    )
}

/// A tag's value, or the empty text when the tag is missing.
pub open spec fn tag_or_empty(tags: Seq<(Seq<char>, Seq<char>)>, key: Seq<char>) -> Seq<char> {
    match lookup(tags, key) {
        Some(v) => v,
        None => seq![],
    }
}

/// Whether the flag `key` is present with the integer value 1.
pub open spec fn flag_set(flags: Seq<(Seq<char>, Option<int>)>, key: Seq<char>) -> bool {
    lookup(flags, key) == Some(Some(1int))
}

/// One media stream (`-show_streams`).
pub struct Stream {
    pub index: i32,
    pub codec_name: Option<String>,
    pub codec_type: Option<String>,
    /// Stream tags (`language`, `title`, ...).
    pub tags: Vec<(String, String)>,
    /// Disposition flags, each value taken as an integer when it is one.
    pub disposition: Vec<(String, Option<i64>)>,
}

/// One chapter entry (`-show_chapters`).
pub struct Chapter {
    pub start_time: Option<String>,
    pub end_time: Option<String>,
    /// Chapter tags (`title`, ...).
    pub tags: Vec<(String, String)>,
}

/// Position of the first pair with key `key`, if any.
fn find_tag(pairs: &Vec<(String, String)>, key: &str) -> (r: Option<usize>)
    ensures
        match r {
            Some(i) => i < pairs@.len() && lookup(tags_view(pairs@), key@) == Some(
                pairs@[i as int].1@,
            ),
            None => lookup(tags_view(pairs@), key@) is None,
        },
{
    let k = chars_of(key);
    let mut i: usize = 0;
    assert(tags_view(pairs@).skip(0) =~= tags_view(pairs@));
    while i < pairs.len()
        invariant
            i <= pairs@.len(),
            k@ == key@,
            lookup(tags_view(pairs@), key@) == lookup(tags_view(pairs@).skip(i as int), key@),
        decreases pairs@.len() - i,
    {
        let ghost rest = tags_view(pairs@).skip(i as int);
        assert(rest[0] == (pairs@[i as int].0@, pairs@[i as int].1@));
        if chars_eq(&chars_of(pairs[i].0.as_str()), &k) {
            return Some(i);
        }
        assert(rest.drop_first() =~= tags_view(pairs@).skip(i + 1));
        i = i + 1;
    }
    assert(tags_view(pairs@).skip(i as int).len() == 0);
    None
}

/// The flag value under `key`: `None` when missing, `Some(v)` otherwise.
fn find_flag(pairs: &Vec<(String, Option<i64>)>, key: &str) -> (r: Option<Option<i64>>)
    ensures
        lookup(flags_view(pairs@), key@) == match r {
            Some(Some(v)) => Some(Some(v as int)),
            Some(None) => Some(None::<int>),
            None => None::<Option<int>>,
        },
{
    let k = chars_of(key);
    let mut i: usize = 0;
    assert(flags_view(pairs@).skip(0) =~= flags_view(pairs@));
    while i < pairs.len()
        invariant
            i <= pairs@.len(),
            k@ == key@,
            lookup(flags_view(pairs@), key@) == lookup(flags_view(pairs@).skip(i as int), key@),
        decreases pairs@.len() - i,
    {
        let ghost rest = flags_view(pairs@).skip(i as int);
        assert(rest[0] == flags_view(pairs@)[i as int]);
        if chars_eq(&chars_of(pairs[i].0.as_str()), &k) {
            return Some(pairs[i].1);
        }
        assert(rest.drop_first() =~= flags_view(pairs@).skip(i + 1));
        i = i + 1;
    }
    assert(flags_view(pairs@).skip(i as int).len() == 0);
    None
}

/// A tag's value, or `""` when the tag is missing.
fn tag_str<'a>(pairs: &'a Vec<(String, String)>, key: &str) -> (r: &'a str)
    ensures
        r@ == tag_or_empty(tags_view(pairs@), key@),
{
    match find_tag(pairs, key) {
        Some(i) => pairs[i].1.as_str(),
        None => {
            proof {
                reveal_strlit("");
            }
            ""
        },
    }
}

fn flag_is_one(pairs: &Vec<(String, Option<i64>)>, key: &str) -> (b: bool)
    ensures
        b == flag_set(flags_view(pairs@), key@),
{
    match find_flag(pairs, key) {
        Some(Some(v)) => v == 1,
        _ => false,
    }
}

impl Stream {
    pub fn is_subtitle(&self) -> (b: bool)
        ensures
            b == (self.codec_type matches Some(t) && t@ == "subtitle"@),
    {
        match &self.codec_type {
            Some(t) => chars_eq(&chars_of(t.as_str()), &chars_of("subtitle")),
            None => false,
        }
    }

    /// Whether the stream carries audio.
    pub fn is_audio(&self) -> (b: bool)
        ensures
            b == (self.codec_type matches Some(t) && t@ == "audio"@),
    {
        match &self.codec_type {
            Some(t) => chars_eq(&chars_of(t.as_str()), &chars_of("audio")),
            None => false,
        }
    }

    pub fn language_raw(&self) -> (r: &str)
        ensures
            r@ == tag_or_empty(tags_view(self.tags@), "language"@),
    {
        tag_str(&self.tags, "language")
    }

    pub fn title_raw(&self) -> (r: &str)
        ensures
            r@ == tag_or_empty(tags_view(self.tags@), "title"@),
    {
        tag_str(&self.tags, "title")
    }

    pub fn is_default(&self) -> (b: bool)
        ensures
            b == flag_set(flags_view(self.disposition@), "default"@),
    {
        flag_is_one(&self.disposition, "default")
    }

    pub fn is_forced(&self) -> (b: bool)
        ensures
            b == flag_set(flags_view(self.disposition@), "forced"@),
    {
        flag_is_one(&self.disposition, "forced")
    }
}

impl Chapter {
    pub fn title(&self) -> (r: &str)
        ensures
            r@ == tag_or_empty(tags_view(self.tags@), "title"@),
    {
        tag_str(&self.tags, "title")
    }
}

} // verus!
