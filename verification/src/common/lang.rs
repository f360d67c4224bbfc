//! Language codes normalized to two-letter ISO 639-1.
use vstd::prelude::*;
use crate::text::{
    ascii_lowercase_known, chars_eq, chars_of, copy_range, lowercase_spec, string_of, to_lowercase, trim, trim_bounds,
    utf8_len, utf8_len_capped, utf8_width,
};

verus! {

/// The first two bytes of `s` as whole characters, if byte 2 falls on a
/// character boundary.
pub open spec fn two_byte_prefix(s: Seq<char>) -> Option<Seq<char>> {
    if s.len() >= 1 && utf8_width(s[0]) == 2 {
        Some(s.take(1))
    } else if s.len() >= 2 && utf8_width(s[0]) == 1 && utf8_width(s[1]) == 1 {
        Some(s.take(2))
    } else {
        None
    }
}

/// The code a cleaned (trimmed, lower-cased) language name maps to.
pub open spec fn lang_code(l: Seq<char>) -> Seq<char> {
    if l.len() == 0 {
        "unknown"@
    } else if l == "indonesian"@ || l == "ind"@ || l == "id"@ || l == "ina"@ || l == "indo"@ || l
        == "indonesia"@ {
        "id"@
    } else if l == "english"@ || l == "eng"@ || l == "en"@ || l == "enm"@ || l == "us"@ || l
        == "uk"@ {
        "en"@
    } else if l == "japanese"@ || l == "jpn"@ || l == "jp"@ || l == "ja"@ {
        "ja"@
    } else if l == "und"@ || l == "unknown"@ || l == "zxx"@ || l == "mis"@ {
        "unknown"@
    } else if utf8_len(l) >= 2 {
        two_byte_prefix(l).unwrap()
    } else {
        "unknown"@
    }
}

/// The cleaned form of a raw language name.
pub open spec fn cleaned(raw: Seq<char>) -> Seq<char> {
    lowercase_spec(trim(raw))
}

/// Whether the code of `l` can be cut from it (the code is its first two
/// bytes, which must end on a character boundary).
pub open spec fn cuttable(l: Seq<char>) -> bool {
    utf8_len(l) >= 2 ==> two_byte_prefix(l) is Some
}

fn is_any(l: &[char], names: &[&str]) -> (b: bool)
    ensures
        b == exists|k: int| 0 <= k < names@.len() && l@ == names@[k]@,
{
    let mut k: usize = 0;
    while k < names.len()
        invariant
            k <= names@.len(),
            forall|j: int| 0 <= j < k ==> l@ != names@[j]@,
        decreases names@.len() - k,
    {
        let n = chars_of(names[k]);
        if chars_eq(l, &n) {
            return true;
        }
        k = k + 1;
    }
    false
}

fn code_of(l: &[char]) -> (r: String)
    requires
        cuttable(l@),
    ensures
        r@ == lang_code(l@),
{
    if l.len() == 0 {
        return string_of(&chars_of("unknown"));
    }
    let id_names = ["indonesian", "ind", "id", "ina", "indo", "indonesia"];
    let en_names = ["english", "eng", "en", "enm", "us", "uk"];
    let ja_names = ["japanese", "jpn", "jp", "ja"];
    let un_names = ["und", "unknown", "zxx", "mis"];
    if is_any(l, &id_names) {
        assert(l@ == "indonesian"@ || l@ == "ind"@ || l@ == "id"@ || l@ == "ina"@ || l@ == "indo"@
            || l@ == "indonesia"@) by {
            let k = choose|k: int| 0 <= k < id_names@.len() && l@ == id_names@[k]@;
        }
        return string_of(&chars_of("id"));
    }
    assert(!(l@ == "indonesian"@ || l@ == "ind"@ || l@ == "id"@ || l@ == "ina"@ || l@ == "indo"@
        || l@ == "indonesia"@)) by {
        assert(id_names@[0]@ == "indonesian"@);
        assert(id_names@[1]@ == "ind"@);
        assert(id_names@[2]@ == "id"@);
        assert(id_names@[3]@ == "ina"@);
        assert(id_names@[4]@ == "indo"@);
        assert(id_names@[5]@ == "indonesia"@);
    }
    if is_any(l, &en_names) {
        assert(l@ == "english"@ || l@ == "eng"@ || l@ == "en"@ || l@ == "enm"@ || l@ == "us"@
            || l@ == "uk"@) by {
            let k = choose|k: int| 0 <= k < en_names@.len() && l@ == en_names@[k]@;
        }
        return string_of(&chars_of("en"));
    }
    assert(!(l@ == "english"@ || l@ == "eng"@ || l@ == "en"@ || l@ == "enm"@ || l@ == "us"@ || l@
        == "uk"@)) by {
        assert(en_names@[0]@ == "english"@);
        assert(en_names@[1]@ == "eng"@);
        assert(en_names@[2]@ == "en"@);
        assert(en_names@[3]@ == "enm"@);
        assert(en_names@[4]@ == "us"@);
        assert(en_names@[5]@ == "uk"@);
    }
    if is_any(l, &ja_names) {
        assert(l@ == "japanese"@ || l@ == "jpn"@ || l@ == "jp"@ || l@ == "ja"@) by {
            let k = choose|k: int| 0 <= k < ja_names@.len() && l@ == ja_names@[k]@;
        }
        return string_of(&chars_of("ja"));
    }
    assert(!(l@ == "japanese"@ || l@ == "jpn"@ || l@ == "jp"@ || l@ == "ja"@)) by {
        assert(ja_names@[0]@ == "japanese"@);
        assert(ja_names@[1]@ == "jpn"@);
        assert(ja_names@[2]@ == "jp"@);
        assert(ja_names@[3]@ == "ja"@);
    }
    if is_any(l, &un_names) {
        assert(l@ == "und"@ || l@ == "unknown"@ || l@ == "zxx"@ || l@ == "mis"@) by {
            let k = choose|k: int| 0 <= k < un_names@.len() && l@ == un_names@[k]@;
        }
        return string_of(&chars_of("unknown"));
    }
    assert(!(l@ == "und"@ || l@ == "unknown"@ || l@ == "zxx"@ || l@ == "mis"@)) by {
        assert(un_names@[0]@ == "und"@);
        assert(un_names@[1]@ == "unknown"@);
        assert(un_names@[2]@ == "zxx"@);
        assert(un_names@[3]@ == "mis"@);
    }
    let n = utf8_len_capped(l, 2);
    if n >= 2 {
        let w0 = l[0] as u32;
        if w0 >= 0x80 && w0 < 0x800 {
            string_of(&copy_range(l, 0, 1))
        } else {
            string_of(&copy_range(l, 0, 2))
        }
    } else {
        string_of(&chars_of("unknown"))
    }
}

/// Normalizes a language code to two-letter ISO 639-1: known names and
/// three-letter codes map to `id`, `en`, `ja`; unknown markers and empty
/// input to `unknown`; anything else is cut to its first two bytes.
pub fn normalize_language(lang_raw: &str) -> (r: String)
    requires
        cuttable(cleaned(lang_raw@)),
    ensures
        r@ == lang_code(cleaned(lang_raw@)),
        ascii_lowercase_known(trim(lang_raw@)),
{
    let v = chars_of(lang_raw);
    let (a, b) = trim_bounds(&v);
    let t = copy_range(&v, a, b);
    let l = to_lowercase(&t);
    code_of(&l)
}

/// [`normalize_language`] where its first two bytes can be cut; `None`
/// when they split a character.
pub fn try_normalize_language(lang_raw: &str) -> (r: Option<String>)
    ensures
        cuttable(cleaned(lang_raw@)) ==> (r matches Some(s) && s@ == lang_code(cleaned(lang_raw@))),
        !cuttable(cleaned(lang_raw@)) ==> r is None,
        ascii_lowercase_known(trim(lang_raw@)),
{
    let v = chars_of(lang_raw);
    let (a, b) = trim_bounds(&v);
    let t = copy_range(&v, a, b);
    let l = to_lowercase(&t);
    let n = utf8_len_capped(&l, 2);
    if n >= 2 {
        let ok = if l.len() >= 1 && (l[0] as u32) >= 0x80 && (l[0] as u32) < 0x800 {
            true
        } else {
            l.len() >= 2 && (l[0] as u32) < 0x80 && (l[1] as u32) < 0x80
        };
        if !ok {
            return None;
        }
    }
    Some(normalize_language(lang_raw))
}

} // verus!
