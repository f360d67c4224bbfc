//! Translation support: cache keys, prompts, tag protection and batching.
pub mod cache;
pub mod pipeline;
pub mod plan;
pub mod prompt;
pub mod segment;
use vstd::prelude::*;
use vstd::string::StringSliceAdditionalSpecFns;
use vstd::utf8::decode_utf8;
use crate::text::{chars_of, push_all, push_str, string_of};

verus! {

/// Source/target language pair, e.g. "en" -> "id".
#[derive(Debug, Clone)]
pub struct LangPair {
    pub from: String,
    pub to: String,
}

/// What [`mask_key`] shows of a key whose UTF-8 bytes are `b`: its first
/// three and last two bytes around `...`, or `***` for five bytes or fewer.
pub open spec fn masked(b: Seq<u8>) -> Seq<char> {
    if b.len() <= 5 {
        "***"@
    } else {
        decode_utf8(b.subrange(0, 3)) + "..."@ + decode_utf8(b.subrange(b.len() - 2, b.len() as int))
    }
}

/// Masks an API key for logs: `sk-or-abc123` -> `sk-...23`. The cut
/// points are byte offsets, so they must fall on character boundaries.
pub fn mask_key(key: &str) -> (r: String)
    requires
        key.spec_bytes().len() <= usize::MAX,
        key.spec_bytes().len() > 5 ==> vstd::utf8::is_char_boundary(key.spec_bytes(), 3),
        key.spec_bytes().len() > 5 ==> vstd::utf8::is_char_boundary(
            key.spec_bytes(),
            key.spec_bytes().len() - 2,
        ),
    ensures
        r@ == masked(key.spec_bytes()),
{
    broadcast use vstd::utf8::encode_utf8_decode_utf8;

    let n = key.len();
    proof {
        reveal_strlit("***");
        reveal_strlit("...");
    }
    if n <= 5 {
        let r = chars_of("***");
        return string_of(&r);
    }

    let (head, _) = key.split_at(3);
    let (_, tail) = key.split_at(n - 2);
    proof {
        assert(head.spec_bytes() == key.spec_bytes().subrange(0, 3));
        assert(decode_utf8(head.spec_bytes()) == head@);
        assert(decode_utf8(tail.spec_bytes()) == tail@);
    }
    let mut out = chars_of(head);
    push_str(&mut out, "...");
    let t = chars_of(tail);
    push_all(&mut out, &t);
    string_of(&out)
}

} // verus!
