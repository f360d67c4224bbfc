//! The translation cache: raw translations keyed by a stable hash of the
//! engine, model, languages and protected source text.
use vstd::prelude::*;
use vstd::string::StringSliceAdditionalSpecFns;
use crate::text::{
    chars_eq, chars_of, join, lemma_split_join, no_char, push_str, split_char, string_of,
};

verus! {

/// FNV-1a 64-bit offset basis.
pub const FNV_OFFSET: u64 = 0xcbf29ce484222325;

/// FNV-1a 64-bit prime.
pub const FNV_PRIME: u64 = 0x100000001b3;

/// FNV-1a over a byte sequence.
pub open spec fn fnv1a(bytes: Seq<u8>) -> u64
    decreases bytes.len(),
{
    if bytes.len() == 0 {
        FNV_OFFSET
    } else {
        (fnv1a(bytes.drop_last()) ^ (bytes.last() as u64)).wrapping_mul(FNV_PRIME)
    }
}

/// FNV-1a 64-bit hash of the UTF-8 bytes of `s`.
pub fn fnv1a_64(s: &str) -> (h: u64)
    ensures
        h == fnv1a(s.spec_bytes()),
{
    let bytes = s.as_bytes();
    let mut h: u64 = FNV_OFFSET;
    let mut i: usize = 0;
    while i < bytes.len()
        invariant
            i <= bytes@.len(),
            bytes@ == s.spec_bytes(),
            h == fnv1a(bytes@.take(i as int)),
        decreases bytes@.len() - i,
    {
        assert(bytes@.take(i + 1).drop_last() =~= bytes@.take(i as int));
        h = (h ^ (bytes[i] as u64)).wrapping_mul(FNV_PRIME);
        i = i + 1;
    }
    assert(bytes@.take(bytes@.len() as int) =~= bytes@);
    h
}

/// Lower-case hexadecimal digits.
pub open spec fn hex_digit(d: nat) -> char {
    "0123456789abcdef"@[d as int]
}

/// The `n` lowest hexadecimal digits of `h`, most significant first.
pub open spec fn low_hex(h: nat, n: nat) -> Seq<char>
    decreases n,
{
    if n == 0 {
        seq![]
    } else {
        low_hex(h / 16, (n - 1) as nat).push(hex_digit(h % 16))
    }
}

/// `format!("{:016x}", h)`: sixteen lower-case hex digits.
pub fn hex16(h: u64) -> (r: Vec<char>)
    ensures
        r@ == low_hex(h as nat, 16),
{
    let digits = chars_of("0123456789abcdef");
    proof {
        reveal_strlit("0123456789abcdef");
    }
    let mut v: Vec<char> = Vec::new();
    let mut k: usize = 0;
    while k < 16
        invariant
            k <= 16,
            v@.len() == k,
        decreases 16 - k,
    {
        v.push('0');
        k = k + 1;
    }
    let mut x: u64 = h;
    let mut k: usize = 0;
    while k < 16
        invariant
            k <= 16,
            v@.len() == 16,
            digits@ == "0123456789abcdef"@,
            digits@.len() == 16,
            low_hex(h as nat, 16) == low_hex(x as nat, (16 - k) as nat) + v@.subrange(
                16 - k,
                16,
            ),
        decreases 16 - k,
    {
        let d = (x % 16) as usize;
        let ghost old_v = v@;
        v.set(15 - k, digits[d]);
        proof {
            assert(v@.subrange(15 - k, 16) =~= seq![hex_digit(x as nat % 16)] + old_v.subrange(
                16 - k,
                16,
            ));
            assert(low_hex(x as nat, (16 - k) as nat) == low_hex(
                x as nat / 16,
                (15 - k) as nat,
            ).push(hex_digit(x as nat % 16)));
            assert(low_hex(x as nat / 16, (15 - k) as nat).push(hex_digit(x as nat % 16))
                + old_v.subrange(16 - k, 16) =~= low_hex(x as nat / 16, (15 - k) as nat)
                + v@.subrange(15 - k, 16));
        }
        x = x / 16;
        k = k + 1;
    }
    assert(low_hex(x as nat, 0) =~= Seq::<char>::empty());
    assert(v@.subrange(0, 16) =~= v@);
    v
}

/// The text hashed for a cache key: the five parts joined with `|`.
pub open spec fn key_text(
    engine: Seq<char>,
    model: Seq<char>,
    from: Seq<char>,
    to: Seq<char>,
    src: Seq<char>,
) -> Seq<char> {
    engine + "|"@ + model + "|"@ + from + "|"@ + to + "|"@ + src
}

/// The cache key of a translation request.
pub open spec fn key_spec(
    engine: Seq<char>,
    model: Seq<char>,
    from: Seq<char>,
    to: Seq<char>,
    src: Seq<char>,
) -> Seq<char> {
    low_hex(fnv1a(vstd::utf8::encode_utf8(key_text(engine, model, from, to, src))) as nat, 16)
}

proof fn lemma_key_text_join(
    engine: Seq<char>,
    model: Seq<char>,
    from: Seq<char>,
    to: Seq<char>,
    src: Seq<char>,
)
    ensures
        key_text(engine, model, from, to, src) == join(seq![engine, model, from, to, src], seq!['|']),
{
    reveal_strlit("|");
    let bar = seq!['|'];
    assert("|"@ =~= bar);
    let p5 = seq![engine, model, from, to, src];
    let p4 = seq![engine, model, from, to];
    let p3 = seq![engine, model, from];
    let p2 = seq![engine, model];
    let p1 = seq![engine];
    assert(p5.drop_last() =~= p4);
    assert(p4.drop_last() =~= p3);
    assert(p3.drop_last() =~= p2);
    assert(p2.drop_last() =~= p1);
    assert(join(p1, bar) == engine);
    assert(join(p2, bar) == engine + bar + model);
    assert(join(p3, bar) == engine + bar + model + bar + from);
    assert(join(p4, bar) == engine + bar + model + bar + from + bar + to);
    assert(join(p5, bar) == engine + bar + model + bar + from + bar + to + bar + src);
}

/// The cache key is the sixteen lower-case hex digits of the FNV-1a hash
/// of the UTF-8 bytes of engine, model, source language, target language
/// and source text joined by `|`, in that order; when none of the five
/// holds a `|`, splitting the hashed text at `|` gives the five back.
pub proof fn law_cache_key_parts(
    engine: Seq<char>,
    model: Seq<char>,
    from: Seq<char>,
    to: Seq<char>,
    src: Seq<char>,
)
    ensures
        key_spec(engine, model, from, to, src) == low_hex(
            fnv1a(vstd::utf8::encode_utf8(join(seq![engine, model, from, to, src], seq!['|'])))
                as nat,
            16,
        ),
        no_char(engine, '|') && no_char(model, '|') && no_char(from, '|') && no_char(to, '|')
            && no_char(src, '|') ==> split_char(
            join(seq![engine, model, from, to, src], seq!['|']),
            '|',
        ) == seq![engine, model, from, to, src],
{
    lemma_key_text_join(engine, model, from, to, src);
    let ps = seq![engine, model, from, to, src];
    if no_char(engine, '|') && no_char(model, '|') && no_char(from, '|') && no_char(to, '|')
        && no_char(src, '|') {
        assert forall|k: int| 0 <= k < ps.len() implies no_char(#[trigger] ps[k], '|') by {
            if k == 0 {
                assert(ps[k] == engine);
            } else if k == 1 {
                assert(ps[k] == model);
            } else if k == 2 {
                assert(ps[k] == from);
            } else if k == 3 {
                assert(ps[k] == to);
            } else {
                assert(ps[k] == src);
            }
        }
        lemma_split_join(ps, '|');
    }
}

/// Requests that differ only in their target language (or only in their
/// source text) hash different texts: a translation into one language is
/// never keyed as one into another.
pub proof fn law_cache_key_text_tells_targets_apart(
    engine: Seq<char>,
    model: Seq<char>,
    from: Seq<char>,
    to1: Seq<char>,
    to2: Seq<char>,
    src: Seq<char>,
    src2: Seq<char>,
)
    ensures
        to1 != to2 ==> join(seq![engine, model, from, to1, src], seq!['|']) != join(
            seq![engine, model, from, to2, src],
            seq!['|'],
        ),
        src != src2 ==> join(seq![engine, model, from, to1, src], seq!['|']) != join(
            seq![engine, model, from, to1, src2],
            seq!['|'],
        ),
{
    lemma_key_text_join(engine, model, from, to1, src);
    lemma_key_text_join(engine, model, from, to2, src);
    lemma_key_text_join(engine, model, from, to1, src2);
    reveal_strlit("|");
    let a = key_text(engine, model, from, to1, src);
    let b = key_text(engine, model, from, to2, src);
    let c = key_text(engine, model, from, to1, src2);
    let bar = "|"@;
    let pre = engine + bar + model + bar + from + bar;
    assert(a == pre + to1 + bar + src);
    assert(b == pre + to2 + bar + src);
    assert(c == pre + to1 + bar + src2);
    if to1 != to2 && a == b {
        assert(to1.len() == to2.len());
        assert forall|i: int| 0 <= i < to1.len() implies to1[i] == to2[i] by {
            assert((pre + to1)[pre.len() + i] == to1[i]);
            assert((pre + to2)[pre.len() + i] == to2[i]);
            assert(a[pre.len() + i] == (pre + to1)[pre.len() + i]);
            assert(b[pre.len() + i] == (pre + to2)[pre.len() + i]);
        }
        assert(to1 =~= to2);
    }
    if src != src2 && a == c {
        let h = pre + to1 + bar;
        assert(a == h + src);
        assert(c == h + src2);
        assert(src.len() == src2.len());
        assert forall|i: int| 0 <= i < src.len() implies src[i] == src2[i] by {
            assert(a[h.len() + i] == src[i]);
            assert(c[h.len() + i] == src2[i]);
        }
        assert(src =~= src2);
    }
}

/// The pairs of a cache as character sequences.
pub open spec fn pairs_view(s: Seq<(String, String)>) -> Seq<(Seq<char>, Seq<char>)> {
    s.map_values(|p: (String, String)| (p.0@, p.1@))
}

/// The map a list of pairs describes (a later pair wins).
pub open spec fn pairs_map(s: Seq<(Seq<char>, Seq<char>)>) -> Map<Seq<char>, Seq<char>>
    decreases s.len(),
{
    if s.len() == 0 {
        Map::empty()
    } else {
        pairs_map(s.drop_last()).insert(s.last().0, s.last().1)
    }
}

/// No key occurs twice.
pub open spec fn unique_keys(s: Seq<(Seq<char>, Seq<char>)>) -> bool {
    forall|i: int, j: int| 0 <= i < j < s.len() ==> s[i].0 != s[j].0
}

proof fn lemma_pairs_map_absent(s: Seq<(Seq<char>, Seq<char>)>, k: Seq<char>)
    requires
        forall|j: int| 0 <= j < s.len() ==> s[j].0 != k,
    ensures
        !pairs_map(s).dom().contains(k),
    decreases s.len(),
{
    if s.len() > 0 {
        lemma_pairs_map_absent(s.drop_last(), k);
    }
}

proof fn lemma_pairs_map_at(s: Seq<(Seq<char>, Seq<char>)>, i: int)
    requires
        unique_keys(s),
        0 <= i < s.len(),
    ensures
        pairs_map(s).dom().contains(s[i].0),
        pairs_map(s)[s[i].0] == s[i].1,
    decreases s.len(),
{
    if i < s.len() - 1 {
        lemma_pairs_map_at(s.drop_last(), i);
    }
}

proof fn lemma_pairs_map_update(s: Seq<(Seq<char>, Seq<char>)>, i: int, v: Seq<char>)
    requires
        unique_keys(s),
        0 <= i < s.len(),
    ensures
        pairs_map(s.update(i, (s[i].0, v))) == pairs_map(s).insert(s[i].0, v),
    decreases s.len(),
{
    let t = s.update(i, (s[i].0, v));
    if i == s.len() - 1 {
        assert(t.drop_last() =~= s.drop_last());
        assert(pairs_map(t) =~= pairs_map(s).insert(s[i].0, v));
    } else {
        assert(t.drop_last() =~= s.drop_last().update(i, (s[i].0, v)));
        lemma_pairs_map_update(s.drop_last(), i, v);
        assert(pairs_map(t) =~= pairs_map(s).insert(s[i].0, v));
    }
}

/// Persistent translation cache: raw translations (before the glossary is
/// applied) by key, and the file it is kept in, if any.
pub struct Cache {
    path: Option<String>,
    entries: Vec<(String, String)>,
}

impl View for Cache {
    type V = Map<Seq<char>, Seq<char>>;

    closed spec fn view(&self) -> Map<Seq<char>, Seq<char>> {
        pairs_map(pairs_view(self.entries@))
    }
}

impl Cache {
    /// Well-formed: no key is stored twice.
    pub closed spec fn wf(self) -> bool {
        unique_keys(pairs_view(self.entries@))
    }

    /// The file the cache is kept in (`None` when disabled).
    pub closed spec fn path_view(self) -> Option<Seq<char>> {
        match self.path {
            Some(p) => Some(p@),
            None => None,
        }
    }

    /// In-memory only (used with `--no-cache`).
    pub fn disabled() -> (c: Cache)
        ensures
            c.wf(),
            c@ == Map::<Seq<char>, Seq<char>>::empty(),
            c.path_view() is None,
    {
        Cache { path: None, entries: Vec::new() }
    }

    /// An empty cache kept in the file `path`.
    pub fn at_path(path: String) -> (c: Cache)
        ensures
            c.wf(),
            c@ == Map::<Seq<char>, Seq<char>>::empty(),
            c.path_view() == Some(path@),
    {
        Cache { path: Some(path), entries: Vec::new() }
    }

    /// The file the cache is kept in.
    pub fn path(&self) -> (r: Option<&String>)
        ensures
            match r {
                Some(p) => self.path_view() == Some(p@),
                None => self.path_view() is None,
            },
    {
        match &self.path {
            Some(p) => Some(p),
            None => None,
        }
    }

    /// The stored pairs, each key once.
    pub fn entries(&self) -> (r: &[(String, String)])
        requires
            self.wf(),
        ensures
            pairs_map(pairs_view(r@)) == self@,
            unique_keys(pairs_view(r@)),
    {
        self.entries.as_slice()
    }

    fn position(&self, key: &[char]) -> (r: Option<usize>)
        ensures
            match r {
                Some(i) => i < self.entries@.len() && self.entries@[i as int].0@ == key@,
                None => forall|j: int|
                    0 <= j < self.entries@.len() ==> self.entries@[j].0@ != key@,
            },
    {
        let mut i: usize = 0;
        while i < self.entries.len()
            invariant
                i <= self.entries@.len(),
                forall|j: int| 0 <= j < i ==> self.entries@[j].0@ != key@,
            decreases self.entries@.len() - i,
        {
            let k = chars_of(self.entries[i].0.as_str());
            if chars_eq(&k, key) {
                return Some(i);
            }
            i = i + 1;
        }
        None
    }

    /// The cached translation for `key`, if any.
    pub fn get(&self, key: &str) -> (r: Option<&String>)
        requires
            self.wf(),
        ensures
            self@.dom().contains(key@) ==> (r matches Some(v) && v@ == self@[key@]),
            !self@.dom().contains(key@) ==> r is None,
    {
        let k = chars_of(key);
        match self.position(&k) {
            Some(i) => {
                proof {
                    lemma_pairs_map_at(pairs_view(self.entries@), i as int);
                }
                Some(&self.entries[i].1)
            },
            None => {
                proof {
                    lemma_pairs_map_absent(pairs_view(self.entries@), key@);
                }
                None
            },
        }
    }

    /// Stores `value` under `key`, replacing what was there.
    pub fn put(&mut self, key: String, value: String)
        requires
            old(self).wf(),
        ensures
            final(self).wf(),
            final(self)@ == old(self)@.insert(key@, value@),
            final(self).path_view() == old(self).path_view(),
    {
        let k = chars_of(key.as_str());
        let ghost before = pairs_view(self.entries@);
        match self.position(&k) {
            Some(i) => {
                proof {
                    lemma_pairs_map_update(before, i as int, value@);
                }
                self.entries.set(i, (key, value));
                assert(pairs_view(self.entries@) =~= before.update(i as int, (before[i as int].0, value@)));
                assert forall|a: int, b: int| 0 <= a < b < pairs_view(self.entries@).len() implies pairs_view(
                    self.entries@,
                )[a].0 != pairs_view(self.entries@)[b].0 by {
                    assert(pairs_view(self.entries@)[a].0 == before[a].0);
                    assert(pairs_view(self.entries@)[b].0 == before[b].0);
                }
            },
            None => {
                self.entries.push((key, value));
                assert(pairs_view(self.entries@).drop_last() =~= before);
                assert forall|a: int, b: int| 0 <= a < b < pairs_view(self.entries@).len() implies pairs_view(
                    self.entries@,
                )[a].0 != pairs_view(self.entries@)[b].0 by {
                    assert(pairs_view(self.entries@)[a].0 == self.entries@[a].0@);
                    assert(pairs_view(self.entries@)[b].0 == self.entries@[b].0@);
                    if b < before.len() {
                        assert(before[a].0 != before[b].0);
                        assert(before[a].0 == self.entries@[a].0@);
                        assert(before[b].0 == self.entries@[b].0@);
                    } else {
                        assert(self.entries@[b].0@ == key@);
                    }
                }
            },
        }
    }

    /// Stable (deterministic across runs) cache key: the FNV-1a hash of
    /// `engine|model|from|to|src` as sixteen hex digits.
    pub fn key(engine: &str, model: &str, from: &str, to: &str, src: &str) -> (r: String)
        ensures
            r@ == key_spec(engine@, model@, from@, to@, src@),
    {
        let mut raw = chars_of(engine);
        push_str(&mut raw, "|");
        push_str(&mut raw, model);
        push_str(&mut raw, "|");
        push_str(&mut raw, from);
        push_str(&mut raw, "|");
        push_str(&mut raw, to);
        push_str(&mut raw, "|");
        push_str(&mut raw, src);
        assert(raw@ =~= key_text(engine@, model@, from@, to@, src@));
        let text = string_of(&raw);
        let h = fnv1a_64(text.as_str());
        let digits = hex16(h);
        string_of(&digits)
    }
}

/// A value stored under a key is what a read of that key gives back, and
/// the other keys read as before.
pub proof fn law_put_then_get(
    m: Map<Seq<char>, Seq<char>>,
    k: Seq<char>,
    v: Seq<char>,
    other: Seq<char>,
)
    requires
        other != k,
    ensures
        m.insert(k, v).dom().contains(k),
        m.insert(k, v)[k] == v,
        m.insert(k, v).dom().contains(other) == m.dom().contains(other),
        m.dom().contains(other) ==> m.insert(k, v)[other] == m[other],
{
}

} // verus!
