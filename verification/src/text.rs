//! Character-level building blocks shared by the subtitle parsers:
//! Unicode whitespace, trimming, searching, splitting and decimal numbers.
use vstd::prelude::*;

verus! {

/// Unicode `White_Space` property, as used by `char::is_whitespace` and `str::trim`.
pub open spec fn is_ws(c: char) -> bool {
    let u = c as u32;
    (9 <= u && u <= 13) || u == 32 || u == 0x85 || u == 0xA0 || u == 0x1680 || (0x2000 <= u
        && u <= 0x200A) || u == 0x2028 || u == 0x2029 || u == 0x202F || u == 0x205F || u == 0x3000
}

pub fn is_ws_char(c: char) -> (b: bool)
    ensures
        b == is_ws(c),
{
    let u = c as u32;
    (9 <= u && u <= 13) || u == 32 || u == 0x85 || u == 0xA0 || u == 0x1680 || (0x2000 <= u
        && u <= 0x200A) || u == 0x2028 || u == 0x2029 || u == 0x202F || u == 0x205F || u == 0x3000
}

/// `s` with leading whitespace removed.
pub open spec fn trim_start(s: Seq<char>) -> Seq<char>
    decreases s.len(),
{
    if s.len() > 0 && is_ws(s[0]) {
        trim_start(s.drop_first())
    } else {
        s
    }
}

/// `s` with trailing whitespace removed.
pub open spec fn trim_end(s: Seq<char>) -> Seq<char>
    decreases s.len(),
{
    if s.len() > 0 && is_ws(s.last()) {
        trim_end(s.drop_last())
    } else {
        s
    }
}

/// `str::trim`: both ends stripped of whitespace.
pub open spec fn trim(s: Seq<char>) -> Seq<char> {
    trim_end(trim_start(s))
}

pub open spec fn is_blank(s: Seq<char>) -> bool {
    trim(s).len() == 0
}

pub proof fn lemma_trim_start_skip(s: Seq<char>, i: int)
    requires
        0 <= i <= s.len(),
        forall|k: int| 0 <= k < i ==> is_ws(#[trigger] s[k]),
    ensures
        trim_start(s) == trim_start(s.skip(i)),
    decreases i,
{
    if i > 0 {
        assert(s.drop_first().skip(i - 1) =~= s.skip(i));
        lemma_trim_start_skip(s.drop_first(), i - 1);
    } else {
        assert(s.skip(0) =~= s);
    }
}

pub proof fn lemma_trim_end_take(s: Seq<char>, j: int)
    requires
        0 <= j <= s.len(),
        forall|k: int| j <= k < s.len() ==> is_ws(#[trigger] s[k]),
    ensures
        trim_end(s) == trim_end(s.take(j)),
    decreases s.len() - j,
{
    if j < s.len() {
        assert(s.drop_last().take(j) =~= s.take(j));
        lemma_trim_end_take(s.drop_last(), j);
    } else {
        assert(s.take(j) =~= s);
    }
}

/// Bounds `(a, b)` such that `trim(s) == s[a..b]`.
pub fn trim_bounds(s: &[char]) -> (r: (usize, usize))
    ensures
        r.0 <= r.1 <= s@.len(),
        trim(s@) == s@.subrange(r.0 as int, r.1 as int),
{
    let n = s.len();
    let mut a: usize = 0;
    while a < n && is_ws_char(s[a])
        invariant
            a <= n,
            n == s@.len(),
            forall|k: int| 0 <= k < a ==> is_ws(#[trigger] s@[k]),
        decreases n - a,
    {
        a = a + 1;
    }
    proof {
        lemma_trim_start_skip(s@, a as int);
    }
    let ghost t = s@.skip(a as int);
    assert(trim_start(t) == t);
    let mut b: usize = n;
    while b > a && is_ws_char(s[b - 1])
        invariant
            a <= b <= n,
            n == s@.len(),
            forall|k: int| b <= k < n ==> is_ws(#[trigger] s@[k]),
        decreases b,
    {
        b = b - 1;
    }
    proof {
        assert forall|k: int| (b - a) <= k < t.len() implies is_ws(#[trigger] t[k]) by {
            assert(t[k] == s@[k + a]);
        }
        lemma_trim_end_take(t, b - a);
        assert(t.take(b - a) =~= s@.subrange(a as int, b as int));
        let u = s@.subrange(a as int, b as int);
        if u.len() > 0 {
            assert(!is_ws(u.last()));
        }
    }
    (a, b)
}


/// Position of the first `c` in `s`.
pub open spec fn find_char(s: Seq<char>, c: char) -> Option<int>
    decreases s.len(),
{
    if s.len() == 0 {
        None
    } else if s[0] == c {
        Some(0)
    } else {
        match find_char(s.drop_first(), c) {
            Some(i) => Some(i + 1),
            None => None,
        }
    }
}

pub proof fn lemma_find_char(s: Seq<char>, c: char)
    ensures
        match find_char(s, c) {
            Some(i) => 0 <= i < s.len() && s[i] == c && forall|k: int| 0 <= k < i ==> s[k] != c,
            None => forall|k: int| 0 <= k < s.len() ==> s[k] != c,
        },
    decreases s.len(),
{
    if s.len() > 0 && s[0] != c {
        lemma_find_char(s.drop_first(), c);
        match find_char(s.drop_first(), c) {
            Some(i) => {
                assert forall|k: int| 0 <= k < i + 1 implies s[k] != c by {
                    if k > 0 {
                        assert(s[k] == s.drop_first()[k - 1]);
                    }
                }
            },
            None => {
                assert forall|k: int| 0 <= k < s.len() implies s[k] != c by {
                    if k > 0 {
                        assert(s[k] == s.drop_first()[k - 1]);
                    }
                }
            },
        }
    }
}

/// The first occurrence is unique: any index with the characterizing
/// property is the one `find_char` reports.
pub proof fn lemma_find_char_at(s: Seq<char>, c: char, i: int)
    requires
        0 <= i < s.len(),
        s[i] == c,
        forall|k: int| 0 <= k < i ==> s[k] != c,
    ensures
        find_char(s, c) == Some(i),
{
    lemma_find_char(s, c);
}

pub proof fn lemma_find_char_none(s: Seq<char>, c: char)
    requires
        forall|k: int| 0 <= k < s.len() ==> s[k] != c,
    ensures
        find_char(s, c) is None,
{
    lemma_find_char(s, c);
}

/// Index of the first `c` at or after `from`, scanning `s`.
pub fn find_char_from(s: &[char], c: char, from: usize) -> (r: Option<usize>)
    requires
        from <= s@.len(),
    ensures
        match find_char(s@.skip(from as int), c) {
            Some(i) => r == Some((i + from) as usize),
            None => r is None,
        },
        r matches Some(i) ==> from <= i < s@.len() && i < s.len() && s@[i as int] == c,
{
    let mut i = from;
    while i < s.len()
        invariant
            from <= i <= s@.len(),
            forall|k: int| from <= k < i ==> s@[k] != c,
        decreases s@.len() - i,
    {
        if s[i] == c {
            proof {
                lemma_find_char_at(s@.skip(from as int), c, (i - from) as int);
            }
            return Some(i);
        }
        i = i + 1;
    }
    proof {
        lemma_find_char_none(s@.skip(from as int), c);
    }
    None
}

/// `s` cut at every `c` (`str::split` with a character separator).
pub open spec fn split_char(s: Seq<char>, c: char) -> Seq<Seq<char>>
    decreases s.len(),
{
    match find_char(s, c) {
        None => seq![s],
        Some(i) => {
            proof {
                lemma_find_char(s, c);
            }
            seq![s.take(i)] + split_char(s.skip(i + 1), c)
        },
    }
}

pub proof fn lemma_split_char_len(s: Seq<char>, c: char)
    ensures
        split_char(s, c).len() >= 1,
    decreases s.len(),
{
    lemma_find_char(s, c);
    match find_char(s, c) {
        None => {},
        Some(i) => {
            lemma_split_char_len(s.skip(i + 1), c);
        },
    }
}

/// `s` starts with `p`.
pub open spec fn starts_with(s: Seq<char>, p: Seq<char>) -> bool {
    p.len() <= s.len() && s.take(p.len() as int) == p
}

/// Position of the first occurrence of the non-empty pattern `p` in `s`.
pub open spec fn find_seq(s: Seq<char>, p: Seq<char>) -> Option<int>
    decreases s.len(),
{
    if s.len() < p.len() || p.len() == 0 {
        None
    } else if starts_with(s, p) {
        Some(0)
    } else {
        match find_seq(s.drop_first(), p) {
            Some(i) => Some(i + 1),
            None => None,
        }
    }
}

pub open spec fn occurs_at(s: Seq<char>, p: Seq<char>, i: int) -> bool {
    0 <= i && i + p.len() <= s.len() && s.subrange(i, i + p.len()) == p
}

pub proof fn lemma_find_seq(s: Seq<char>, p: Seq<char>)
    requires
        p.len() > 0,
    ensures
        match find_seq(s, p) {
            Some(i) => occurs_at(s, p, i) && forall|k: int| 0 <= k < i ==> !occurs_at(s, p, k),
            None => forall|k: int| !occurs_at(s, p, k),
        },
    decreases s.len(),
{
    if s.len() < p.len() {
    } else if starts_with(s, p) {
        assert(s.subrange(0, p.len() as int) =~= s.take(p.len() as int));
    } else {
        assert(!occurs_at(s, p, 0)) by {
            assert(s.subrange(0, p.len() as int) =~= s.take(p.len() as int));
        }
        lemma_find_seq(s.drop_first(), p);
        let t = s.drop_first();
        assert forall|k: int| 1 <= k implies occurs_at(s, p, k) == occurs_at(t, p, k - 1) by {
            if 0 <= k - 1 && k - 1 + p.len() <= t.len() {
                assert(s.subrange(k, k + p.len()) =~= t.subrange(k - 1, k - 1 + p.len()));
            }
        }
    }
}

pub proof fn lemma_find_seq_at(s: Seq<char>, p: Seq<char>, i: int)
    requires
        p.len() > 0,
        occurs_at(s, p, i),
        forall|k: int| 0 <= k < i ==> !occurs_at(s, p, k),
    ensures
        find_seq(s, p) == Some(i),
{
    lemma_find_seq(s, p);
}

pub open spec fn contains_seq(s: Seq<char>, p: Seq<char>) -> bool {
    find_seq(s, p) is Some
}

/// Whether `p` occurs in `s` at position `i`.
pub fn matches_at(s: &[char], p: &[char], i: usize) -> (b: bool)
    ensures
        b == occurs_at(s@, p@, i as int),
{
    if i > s.len() || p.len() > s.len() - i {
        return false;
    }
    let mut k: usize = 0;
    while k < p.len()
        invariant
            i + p@.len() <= s@.len(),
            s@.len() == s.len(),
            k <= p@.len(),
            forall|j: int| 0 <= j < k ==> s@[i + j] == p@[j],
        decreases p@.len() - k,
    {
        if s[i + k] != p[k] {
            assert(s@.subrange(i as int, i + p@.len())[k as int] != p@[k as int]);
            return false;
        }
        k = k + 1;
    }
    assert(s@.subrange(i as int, i + p@.len()) =~= p@);
    true
}

/// First occurrence of the non-empty pattern `p` in `s`.
pub fn find_pattern(s: &[char], p: &[char]) -> (r: Option<usize>)
    requires
        p@.len() > 0,
    ensures
        match find_seq(s@, p@) {
            Some(i) => r == Some(i as usize),
            None => r is None,
        },
        r matches Some(i) ==> occurs_at(s@, p@, i as int) && find_seq(s@, p@) == Some(i as int),
        r is None ==> find_seq(s@, p@) is None,
{
    let mut i: usize = 0;
    while i < s.len()
        invariant
            i <= s@.len(),
            p@.len() > 0,
            forall|k: int| 0 <= k < i ==> !occurs_at(s@, p@, k),
        decreases s@.len() - i,
    {
        if matches_at(s, p, i) {
            proof {
                lemma_find_seq_at(s@, p@, i as int);
            }
            return Some(i);
        }
        i = i + 1;
    }
    proof {
        lemma_find_seq(s@, p@);
        match find_seq(s@, p@) {
            Some(j) => {
                assert(!occurs_at(s@, p@, j));
            },
            None => {},
        }
    }
    None
}

/// `str::replace(pat, rep)`: every non-overlapping occurrence of `pat`,
/// scanning left to right, replaced by `rep`.
pub open spec fn replace_seq(s: Seq<char>, pat: Seq<char>, rep: Seq<char>) -> Seq<char>
    decreases s.len(),
{
    if s.len() == 0 {
        seq![]
    } else if pat.len() > 0 && starts_with(s, pat) {
        rep + replace_seq(s.skip(pat.len() as int), pat, rep)
    } else {
        seq![s[0]] + replace_seq(s.drop_first(), pat, rep)
    }
}

/// `s` with every occurrence of the non-empty `pat` replaced by `rep`.
pub fn replace_chars(s: &[char], pat: &[char], rep: &[char]) -> (r: Vec<char>)
    requires
        pat@.len() > 0,
    ensures
        r@ == replace_seq(s@, pat@, rep@),
{
    let mut out: Vec<char> = Vec::new();
    let mut i: usize = 0;
    assert(s@.skip(0) =~= s@);
    assert(out@ + replace_seq(s@.skip(0), pat@, rep@) =~= replace_seq(s@, pat@, rep@));
    while i < s.len()
        invariant
            i <= s@.len(),
            pat@.len() > 0,
            out@ + replace_seq(s@.skip(i as int), pat@, rep@) == replace_seq(s@, pat@, rep@),
        decreases s@.len() - i,
    {
        let ghost rest = s@.skip(i as int);
        if matches_at(s, pat, i) {
            assert(rest.take(pat@.len() as int) =~= s@.subrange(i as int, i + pat@.len()));
            assert(rest.skip(pat@.len() as int) =~= s@.skip(i + pat@.len()));
            push_all(&mut out, rep);
            i = i + pat.len();
        } else {
            assert(rest.len() >= pat@.len() ==> rest.take(pat@.len() as int) =~= s@.subrange(
                i as int,
                i + pat@.len(),
            ));
            assert(rest.drop_first() =~= s@.skip(i + 1));
            out.push(s[i]);
            i = i + 1;
        }
        assert(out@ + replace_seq(s@.skip(i as int), pat@, rep@) =~= replace_seq(s@, pat@, rep@));
    }
    assert(out@ + replace_seq(s@.skip(i as int), pat@, rep@) == out@ + Seq::<char>::empty());
    assert(out@ =~= replace_seq(s@, pat@, rep@));
    out
}

/// A trailing `\r` removed.
pub open spec fn strip_cr(l: Seq<char>) -> Seq<char> {
    if l.len() > 0 && l.last() == '\r' {
        l.drop_last()
    } else {
        l
    }
}

/// `str::lines`: pieces between `\n`s, a `\r` right before a `\n` dropped,
/// no final empty piece after a trailing `\n`.
pub open spec fn lines(s: Seq<char>) -> Seq<Seq<char>>
    decreases s.len(),
{
    if s.len() == 0 {
        seq![]
    } else {
        match find_char(s, '\n') {
            None => seq![s],
            Some(i) => {
                proof {
                    lemma_find_char(s, '\n');
                }
                seq![strip_cr(s.take(i))] + lines(s.skip(i + 1))
            },
        }
    }
}

pub open spec fn vecs_view(v: Seq<Vec<char>>) -> Seq<Seq<char>> {
    v.map_values(|x: Vec<char>| x@)
}

/// The lines of `s`, as `str::lines` yields them.
pub fn lines_of(s: &[char]) -> (r: Vec<Vec<char>>)
    ensures
        vecs_view(r@) == lines(s@),
{
    let mut r: Vec<Vec<char>> = Vec::new();
    let mut i: usize = 0;
    let n = s.len();
    assert(s@.skip(0) =~= s@);
    while i < n
        invariant
            i <= n == s@.len(),
            vecs_view(r@) + lines(s@.skip(i as int)) == lines(s@),
        decreases n - i,
    {
        let ghost rest = s@.skip(i as int);
        proof {
            lemma_find_char(rest, '\n');
        }
        match find_char_from(s, '\n', i) {
            None => {
                let piece = copy_range(s, i, n);
                assert(piece@ =~= rest);
                r.push(piece);
                assert(vecs_view(r@) =~= vecs_view(old_r(r@)) + seq![rest]);
                assert(s@.skip(n as int) =~= Seq::<char>::empty());
                i = n;
            },
            Some(p) => {
                let mut end = p;
                if end > i && s[end - 1] == '\r' {
                    end = end - 1;
                }
                let piece = copy_range(s, i, end);
                assert(piece@ =~= strip_cr(rest.take(p - i)));
                assert(rest.skip(p - i + 1) =~= s@.skip(p + 1));
                r.push(piece);
                assert(vecs_view(r@) =~= vecs_view(old_r(r@)) + seq![piece@]);
                i = p + 1;
            },
        }
    }
    assert(s@.skip(n as int) =~= Seq::<char>::empty());
    assert(vecs_view(r@) + lines(s@.skip(n as int)) =~= vecs_view(r@));
    r
}

spec fn old_r(v: Seq<Vec<char>>) -> Seq<Vec<char>> {
    v.drop_last()
}

/// The pieces of `s` cut at every `c`.
pub fn split_chars(s: &[char], c: char) -> (r: Vec<Vec<char>>)
    ensures
        vecs_view(r@) == split_char(s@, c),
{
    let mut r: Vec<Vec<char>> = Vec::new();
    let mut i: usize = 0;
    let n = s.len();
    assert(s@.skip(0) =~= s@);
    loop
        invariant
            i <= n == s@.len(),
            vecs_view(r@) + split_char(s@.skip(i as int), c) == split_char(s@, c),
        decreases n - i,
    {
        let ghost rest = s@.skip(i as int);
        proof {
            lemma_find_char(rest, c);
        }
        match find_char_from(s, c, i) {
            None => {
                let piece = copy_range(s, i, n);
                assert(piece@ =~= rest);
                let ghost before = r@;
                r.push(piece);
                assert(vecs_view(r@) =~= vecs_view(before) + seq![rest]);
                return r;
            },
            Some(p) => {
                let piece = copy_range(s, i, p);
                assert(piece@ =~= rest.take(p - i));
                assert(rest.skip(p - i + 1) =~= s@.skip(p + 1));
                let ghost before = r@;
                r.push(piece);
                assert(vecs_view(r@) =~= vecs_view(before) + seq![piece@]);
                i = p + 1;
            },
        }
    }
}

/// Pieces joined with `sep` in between.
pub open spec fn join(parts: Seq<Seq<char>>, sep: Seq<char>) -> Seq<char>
    decreases parts.len(),
{
    if parts.len() == 0 {
        seq![]
    } else if parts.len() == 1 {
        parts[0]
    } else {
        join(parts.drop_last(), sep) + sep + parts.last()
    }
}

/// The pieces `v[a..b]` joined with `sep` in between.
pub fn join_range(v: &Vec<Vec<char>>, a: usize, b: usize, sep: &[char]) -> (r: Vec<char>)
    requires
        a <= b <= v@.len(),
    ensures
        r@ == join(vecs_view(v@).subrange(a as int, b as int), sep@),
{
    let mut out: Vec<char> = Vec::new();
    let mut k = a;
    while k < b
        invariant
            a <= k <= b <= v@.len(),
            out@ == join(vecs_view(v@).subrange(a as int, k as int), sep@),
        decreases b - k,
    {
        let ghost before = vecs_view(v@).subrange(a as int, k as int);
        let ghost after = vecs_view(v@).subrange(a as int, k + 1);
        assert(after.drop_last() =~= before);
        if k > a {
            push_all(&mut out, sep);
        } else {
            assert(before.len() == 0);
        }
        push_all(&mut out, &v[k]);
        k = k + 1;
    }
    out
}

pub proof fn lemma_replace_noop(s: Seq<char>, pat: Seq<char>, rep: Seq<char>)
    requires
        pat.len() > 0,
        forall|k: int| 0 <= k < s.len() ==> s[k] != pat[0],
    ensures
        replace_seq(s, pat, rep) == s,
    decreases s.len(),
{
    if s.len() > 0 {
        assert(!starts_with(s, pat)) by {
            if pat.len() <= s.len() {
                assert(s.take(pat.len() as int)[0] == s[0]);
            }
        }
        lemma_replace_noop(s.drop_first(), pat, rep);
        assert(s =~= seq![s[0]] + s.drop_first());
    }
}

pub open spec fn no_char(s: Seq<char>, c: char) -> bool {
    forall|k: int| 0 <= k < s.len() ==> s[k] != c
}

pub proof fn lemma_lines_line(x: Seq<char>, rest: Seq<char>)
    requires
        no_char(x, '\n'),
        no_char(x, '\r'),
    ensures
        lines(x + seq!['\n'] + rest) == seq![x] + lines(rest),
{
    let s = x + seq!['\n'] + rest;
    assert forall|k: int| 0 <= k < x.len() implies s[k] != '\n' by {
        assert(s[k] == x[k]);
    }
    assert(s[x.len() as int] == '\n');
    lemma_find_char_at(s, '\n', x.len() as int);
    assert(s.take(x.len() as int) =~= x);
    assert(s.skip(x.len() as int + 1) =~= rest);
    if x.len() > 0 {
        assert(x.last() != '\r');
    }
    assert(strip_cr(x) == x);
}

pub proof fn lemma_lines_text(t: Seq<char>, rest: Seq<char>)
    requires
        no_char(t, '\r'),
    ensures
        lines(t + seq!['\n'] + rest) == split_char(t, '\n') + lines(rest),
    decreases t.len(),
{
    lemma_find_char(t, '\n');
    match find_char(t, '\n') {
        None => {
            lemma_lines_line(t, rest);
        },
        Some(i) => {
            let x = t.take(i);
            let y = t.skip(i + 1);
            assert(t =~= x + seq!['\n'] + y);
            assert(t + seq!['\n'] + rest =~= x + seq!['\n'] + (y + seq!['\n'] + rest));
            assert forall|k: int| 0 <= k < x.len() implies x[k] != '\r' by {
                assert(x[k] == t[k]);
            }
            assert forall|k: int| 0 <= k < y.len() implies y[k] != '\r' by {
                assert(y[k] == t[k + i + 1]);
            }
            lemma_lines_line(x, y + seq!['\n'] + rest);
            lemma_lines_text(y, rest);
            assert(split_char(t, '\n') == seq![x] + split_char(y, '\n'));
            assert(lines(t + seq!['\n'] + rest) =~= split_char(t, '\n') + lines(rest));
        },
    }
}

pub proof fn lemma_lines_append(a: Seq<char>, b: Seq<char>)
    requires
        no_char(a, '\r'),
        a.len() == 0 || a.last() == '\n',
    ensures
        lines(a + b) == lines(a) + lines(b),
    decreases a.len(),
{
    if a.len() == 0 {
        assert(a + b =~= b);
        assert(lines(a) =~= Seq::<Seq<char>>::empty());
        assert(lines(a) + lines(b) =~= lines(b));
    } else {
        lemma_find_char(a, '\n');
        let i = find_char(a, '\n')->0;
        let x = a.take(i);
        let y = a.skip(i + 1);
        assert(a =~= x + seq!['\n'] + y);
        assert(a + b =~= x + seq!['\n'] + (y + b));
        assert forall|k: int| 0 <= k < x.len() implies x[k] != '\r' by {
            assert(x[k] == a[k]);
        }
        assert forall|k: int| 0 <= k < y.len() implies y[k] != '\r' by {
            assert(y[k] == a[k + i + 1]);
        }
        assert(y.len() > 0 ==> y.last() == a.last());
        lemma_lines_line(x, y + b);
        lemma_lines_line(x, y);
        lemma_lines_append(y, b);
        assert(lines(a + b) =~= lines(a) + lines(b));
    }
}

pub proof fn lemma_join_cons(x: Seq<char>, r: Seq<Seq<char>>, sep: Seq<char>)
    requires
        r.len() > 0,
    ensures
        join(seq![x] + r, sep) == x + sep + join(r, sep),
    decreases r.len(),
{
    let ps = seq![x] + r;
    if r.len() == 1 {
        assert(ps.drop_last() =~= seq![x]);
        assert(join(r, sep) == r[0]);
        assert(join(seq![x], sep) == x);
        assert(ps.last() == r[0]);
        assert(join(ps, sep) == join(ps.drop_last(), sep) + sep + ps.last());
    } else {
        assert(ps.drop_last() =~= seq![x] + r.drop_last());
        lemma_join_cons(x, r.drop_last(), sep);
        assert(ps.last() == r.last());
        assert(join(ps, sep) == join(ps.drop_last(), sep) + sep + ps.last());
        assert(join(r, sep) == join(r.drop_last(), sep) + sep + r.last());
        assert(join(ps, sep) =~= x + sep + join(r, sep));
    }
}

pub proof fn lemma_join_split(t: Seq<char>, c: char)
    ensures
        join(split_char(t, c), seq![c]) == t,
    decreases t.len(),
{
    lemma_find_char(t, c);
    match find_char(t, c) {
        None => {},
        Some(i) => {
            let y = t.skip(i + 1);
            lemma_join_split(y, c);
            lemma_split_char_len(y, c);
            lemma_join_cons(t.take(i), split_char(y, c), seq![c]);
            assert(t =~= t.take(i) + seq![c] + y);
        },
    }
}

/// ASCII letters folded to lower case; everything else unchanged.
pub open spec fn ascii_lower(c: char) -> char {
    if 65 <= c as u32 && c as u32 <= 90 {
        ((c as u32) + 32) as char
    } else {
        c
    }
}

/// `str::eq_ignore_ascii_case` against an ASCII `b`: same length, equal
/// after folding ASCII letters.
pub open spec fn eq_ignore_ascii_case(a: Seq<char>, b: Seq<char>) -> bool {
    a.len() == b.len() && forall|i: int| 0 <= i < a.len() ==> ascii_lower(#[trigger] a[i]) == ascii_lower(b[i])
}

pub fn ascii_lower_char(c: char) -> (r: char)
    ensures
        r == ascii_lower(c),
{
    let u = c as u32;
    if 65 <= u && u <= 90 {
        ((u + 32) as u8) as char
    } else {
        c
    }
}

pub fn eq_ignore_ascii_case_chars(a: &[char], b: &[char]) -> (r: bool)
    ensures
        r == eq_ignore_ascii_case(a@, b@),
{
    if a.len() != b.len() {
        return false;
    }
    let mut i: usize = 0;
    while i < a.len()
        invariant
            a@.len() == b@.len(),
            i <= a@.len(),
            forall|k: int| 0 <= k < i ==> ascii_lower(#[trigger] a@[k]) == ascii_lower(b@[k]),
        decreases a@.len() - i,
    {
        if ascii_lower_char(a[i]) != ascii_lower_char(b[i]) {
            return false;
        }
        i = i + 1;
    }
    true
}

/// Exact equality of two character runs.
pub fn chars_eq(a: &[char], b: &[char]) -> (r: bool)
    ensures
        r == (a@ == b@),
{
    if a.len() != b.len() {
        return false;
    }
    let mut i: usize = 0;
    while i < a.len()
        invariant
            a@.len() == b@.len(),
            i <= a@.len(),
            forall|k: int| 0 <= k < i ==> a@[k] == b@[k],
        decreases a@.len() - i,
    {
        if a[i] != b[i] {
            return false;
        }
        i = i + 1;
    }
    assert(a@ =~= b@);
    true
}

/// Result of `str::to_lowercase` (Unicode lower-case mapping) on `s`.
pub uninterp spec fn lowercase_spec(s: Seq<char>) -> Seq<char>;

/// Every character of `s` is ASCII.
pub open spec fn all_ascii(s: Seq<char>) -> bool {
    forall|k: int| 0 <= k < s.len() ==> (#[trigger] s[k] as u32) < 128
}

/// What is known of the lower-case mapping of `s`: on ASCII text it folds
/// `A`..`Z` to `a`..`z` and keeps every other character.
pub open spec fn ascii_lowercase_known(s: Seq<char>) -> bool {
    all_ascii(s) ==> lowercase_spec(s) == s.map_values(|c: char| ascii_lower(c))
}

/// `str::to_lowercase`: the Unicode lower-case mapping of `s`. The result
/// is named: it is a function of `s` alone. Of it, this states only what
/// std documents for ASCII text (`str::to_ascii_lowercase` agrees with
/// `to_lowercase` there): `A`..`Z` become `a`..`z`, every other ASCII
/// character stays, one for one. What non-ASCII text maps to is left unsaid.
#[verifier::external_body]
pub(crate) fn to_lowercase(s: &[char]) -> (r: Vec<char>)
    ensures
        r@ == lowercase_spec(s@),
        all_ascii(s@) ==> r@ == s@.map_values(|c: char| ascii_lower(c)),
{
    let t: String = s.iter().collect();
    t.to_lowercase().chars().collect()
}

/// Number of whitespace-separated words (`split_whitespace().count()`).
pub open spec fn word_count(s: Seq<char>) -> nat
    decreases s.len(),
{
    if s.len() == 0 {
        0
    } else if !is_ws(s.last()) && (s.len() == 1 || is_ws(s[s.len() - 2])) {
        word_count(s.drop_last()) + 1
    } else {
        word_count(s.drop_last())
    }
}

pub fn word_count_chars(s: &[char]) -> (r: usize)
    ensures
        r == word_count(s@),
{
    let mut n: usize = 0;
    let mut k: usize = 0;
    while k < s.len()
        invariant
            k <= s@.len(),
            n == word_count(s@.take(k as int)),
            n <= k,
        decreases s@.len() - k,
    {
        let ghost post = s@.take(k + 1);
        assert(post.drop_last() =~= s@.take(k as int));
        assert(post.last() == s@[k as int]);
        if !is_ws_char(s[k]) && (k == 0 || is_ws_char(s[k - 1])) {
            assert(k > 0 ==> post[k - 1] == s@[k - 1]);
            n = n + 1;
        } else {
            assert(k > 0 ==> post[k - 1] == s@[k - 1]);
        }
        k = k + 1;
    }
    assert(s@.take(k as int) =~= s@);
    n
}

/// UTF-8 width of one character.
pub open spec fn utf8_width(c: char) -> nat {
    let u = c as u32;
    if u < 0x80 {
        1
    } else if u < 0x800 {
        2
    } else if u < 0x10000 {
        3
    } else {
        4
    }
}

/// Length in bytes of the UTF-8 encoding (`str::len`).
pub open spec fn utf8_len(s: Seq<char>) -> nat
    decreases s.len(),
{
    if s.len() == 0 {
        0
    } else {
        utf8_len(s.drop_last()) + utf8_width(s.last())
    }
}

/// `utf8_len(s)`, or any value of at least `cap` once the length reaches it.
pub fn utf8_len_capped(s: &[char], cap: usize) -> (r: usize)
    ensures
        r < cap ==> r == utf8_len(s@),
        r >= cap ==> utf8_len(s@) >= cap,
{
    if cap == 0 {
        return 0;
    }
    let mut n: usize = 0;
    let mut k: usize = 0;
    assert(s@.take(0) =~= Seq::<char>::empty());
    while k < s.len()
        invariant
            k <= s@.len(),
            n == utf8_len(s@.take(k as int)),
            n < cap,
        decreases s@.len() - k,
    {
        let ghost post = s@.take(k + 1);
        assert(post.drop_last() =~= s@.take(k as int));
        let u = s[k] as u32;
        let w: usize = if u < 0x80 {
            1
        } else if u < 0x800 {
            2
        } else if u < 0x10000 {
            3
        } else {
            4
        };
        if w >= cap - n {
            proof {
                lemma_utf8_len_mono(s@, k + 1);
            }
            return cap;
        }
        n = n + w;
        k = k + 1;
    }
    assert(s@.take(k as int) =~= s@);
    n
}

pub proof fn lemma_utf8_len_mono(s: Seq<char>, k: int)
    requires
        0 <= k <= s.len(),
    ensures
        utf8_len(s.take(k)) <= utf8_len(s),
    decreases s.len() - k,
{
    if k < s.len() {
        assert(s.drop_last().take(k) =~= s.take(k));
        lemma_utf8_len_mono(s.drop_last(), k);
    } else {
        assert(s.take(k) =~= s);
    }
}

/// The characters of a string slice.
pub fn chars_of(s: &str) -> (v: Vec<char>)
    ensures
        v@ == s@,
{
    broadcast use vstd::string::group_string_axioms;
    let mut v: Vec<char> = Vec::new();
    for c in it: s.chars()
        invariant
            v@ == it.seq().take(it.index() as int),
            it.seq() == s@,
    {
        v.push(c);
    }
    v
}

/// An owned copy of a string slice.
pub fn str_to_string(s: &str) -> (r: String)
    ensures
        r@ == s@,
{
    broadcast use vstd::string::group_string_axioms;
    s.to_string()
}

/// The characters `s[a..b]` as a fresh vector.
pub fn copy_range(s: &[char], a: usize, b: usize) -> (v: Vec<char>)
    requires
        a <= b <= s@.len(),
    ensures
        v@ == s@.subrange(a as int, b as int),
{
    let mut v: Vec<char> = Vec::new();
    let mut i = a;
    while i < b
        invariant
            a <= i <= b <= s@.len(),
            v@ == s@.subrange(a as int, i as int),
        decreases b - i,
    {
        v.push(s[i]);
        i = i + 1;
    }
    v
}

/// Appends every character of `t` to `out`.
pub fn push_all(out: &mut Vec<char>, t: &[char])
    ensures
        final(out)@ == old(out)@ + t@,
{
    let mut i: usize = 0;
    while i < t.len()
        invariant
            i <= t@.len(),
            out@ == old(out)@ + t@.take(i as int),
        decreases t@.len() - i,
    {
        out.push(t[i]);
        i = i + 1;
        assert(t@.take(i as int) =~= t@.take(i - 1) + seq![t@[i - 1]]);
    }
    assert(t@.take(t@.len() as int) =~= t@);
}

/// Appends every character of `t` to `out`.
pub fn push_str(out: &mut Vec<char>, t: &str)
    ensures
        final(out)@ == old(out)@ + t@,
{
    let v = chars_of(t);
    push_all(out, &v);
}

/// A `String` holding exactly the characters `v`.
#[verifier::external_body]
pub(crate) fn string_of(v: &[char]) -> (s: String)
    ensures
        s@ == v@,
{
    v.iter().collect()
}

/// Replacing every one-character pattern `c` by text without `c` leaves
/// no `c`.
pub proof fn lemma_replace_char_gone(s: Seq<char>, c: char, rep: Seq<char>)
    requires
        no_char(rep, c),
    ensures
        no_char(replace_seq(s, seq![c], rep), c),
    decreases s.len(),
{
    if s.len() > 0 {
        lemma_replace_char_gone(s.skip(1), c, rep);
        lemma_replace_char_gone(s.drop_first(), c, rep);
        let pat = seq![c];
        if starts_with(s, pat) {
            let r = rep + replace_seq(s.skip(1), pat, rep);
            assert forall|k: int| 0 <= k < r.len() implies r[k] != c by {
                if k >= rep.len() {
                    assert(r[k] == replace_seq(s.skip(1), pat, rep)[k - rep.len()]);
                }
            }
        } else {
            assert(s[0] != c) by {
                if s[0] == c {
                    assert(s.take(1) =~= pat);
                }
            }
            let r = seq![s[0]] + replace_seq(s.drop_first(), pat, rep);
            assert forall|k: int| 0 <= k < r.len() implies r[k] != c by {
                if k >= 1 {
                    assert(r[k] == replace_seq(s.drop_first(), pat, rep)[k - 1]);
                }
            }
        }
    }
}

/// The lines of text without carriage returns hold neither `\n` nor `\r`.
pub proof fn lemma_lines_clean(s: Seq<char>)
    requires
        no_char(s, '\r'),
    ensures
        forall|k: int|
            0 <= k < lines(s).len() ==> no_char(#[trigger] lines(s)[k], '\n') && no_char(
                lines(s)[k],
                '\r',
            ),
    decreases s.len(),
{
    if s.len() > 0 {
        lemma_find_char(s, '\n');
        match find_char(s, '\n') {
            None => {},
            Some(i) => {
                let rest = s.skip(i + 1);
                assert forall|k: int| 0 <= k < rest.len() implies rest[k] != '\r' by {
                    assert(rest[k] == s[k + i + 1]);
                }
                lemma_lines_clean(rest);
                let x = strip_cr(s.take(i));
                assert forall|m: int| 0 <= m < x.len() implies x[m] != '\n' && x[m] != '\r' by {
                    assert(x[m] == s[m]);
                }
                let ls = lines(s);
                assert(ls == seq![x] + lines(rest));
                assert forall|k: int|
                    0 <= k < ls.len() implies no_char(#[trigger] ls[k], '\n') && no_char(ls[k], '\r') by {
                    if k > 0 {
                        assert(ls[k] == lines(rest)[k - 1]);
                    }
                }
            },
        }
    }
}

/// Joining pieces without `c` by `c`, and splitting at `c`, gives the
/// pieces back.
pub proof fn lemma_split_join(ps: Seq<Seq<char>>, c: char)
    requires
        ps.len() >= 1,
        forall|k: int| 0 <= k < ps.len() ==> no_char(#[trigger] ps[k], c),
    ensures
        split_char(join(ps, seq![c]), c) == ps,
    decreases ps.len(),
{
    if ps.len() == 1 {
        assert(join(ps, seq![c]) == ps[0]);
        assert(no_char(ps[0], c));
        lemma_find_char_none(ps[0], c);
        assert(seq![ps[0]] =~= ps);
    } else {
        let x = ps[0];
        let rest = ps.drop_first();
        assert(ps =~= seq![x] + rest);
        lemma_join_cons(x, rest, seq![c]);
        let s = join(ps, seq![c]);
        assert(s == x + seq![c] + join(rest, seq![c]));
        assert(no_char(ps[0], c));
        assert forall|k: int| 0 <= k < x.len() implies s[k] != c by {
            assert(s[k] == x[k]);
        }
        assert(s[x.len() as int] == c);
        lemma_find_char_at(s, c, x.len() as int);
        assert(s.take(x.len() as int) =~= x);
        assert(s.skip(x.len() as int + 1) =~= join(rest, seq![c]));
        assert forall|k: int| 0 <= k < rest.len() implies no_char(#[trigger] rest[k], c) by {
            assert(rest[k] == ps[k + 1]);
        }
        lemma_split_join(rest, c);
        assert(split_char(s, c) =~= seq![x] + rest);
    }
}

/// A joined text holds a character only if a piece or the separator does.
pub proof fn lemma_join_no_char(ps: Seq<Seq<char>>, sep: Seq<char>, c: char)
    requires
        no_char(sep, c),
        forall|k: int| 0 <= k < ps.len() ==> no_char(#[trigger] ps[k], c),
    ensures
        no_char(join(ps, sep), c),
    decreases ps.len(),
{
    if ps.len() > 1 {
        let pre = ps.drop_last();
        assert forall|k: int| 0 <= k < pre.len() implies no_char(#[trigger] pre[k], c) by {
            assert(pre[k] == ps[k]);
        }
        lemma_join_no_char(pre, sep, c);
        assert(no_char(ps[ps.len() - 1], c));
        let a = join(pre, sep);
        let j = join(ps, sep);
        assert(j == a + sep + ps.last());
        assert forall|m: int| 0 <= m < j.len() implies j[m] != c by {
            if m < a.len() {
                assert(j[m] == a[m]);
            } else if m < a.len() + sep.len() {
                assert(j[m] == sep[m - a.len()]);
            } else {
                assert(j[m] == ps.last()[m - a.len() - sep.len()]);
            }
        }
    } else if ps.len() == 1 {
        assert(no_char(ps[0], c));
    }
}

proof fn lemma_trim_start_facts(s: Seq<char>, c: char)
    ensures
        trim_start(s).len() > 0 ==> !is_ws(trim_start(s)[0]),
        no_char(s, c) ==> no_char(trim_start(s), c),
        trim_start(s) == s.skip(s.len() - trim_start(s).len()),
        trim_start(s).len() <= s.len(),
    decreases s.len(),
{
    if s.len() > 0 && is_ws(s[0]) {
        lemma_trim_start_facts(s.drop_first(), c);
        assert(s.drop_first().skip(s.drop_first().len() - trim_start(s).len()) =~= s.skip(
            s.len() - trim_start(s).len(),
        ));
    } else {
        assert(s.skip(0) =~= s);
    }
}

proof fn lemma_trim_end_facts(s: Seq<char>, c: char)
    ensures
        trim_end(s).len() > 0 ==> !is_ws(trim_end(s).last()),
        no_char(s, c) ==> no_char(trim_end(s), c),
        trim_end(s) == s.take(trim_end(s).len() as int),
        trim_end(s).len() <= s.len(),
    decreases s.len(),
{
    if s.len() > 0 && is_ws(s.last()) {
        lemma_trim_end_facts(s.drop_last(), c);
        assert(s.drop_last().take(trim_end(s).len() as int) =~= s.take(trim_end(s).len() as int));
    } else {
        assert(s.take(s.len() as int) =~= s);
    }
}

/// Trimming keeps out any character the text lacks, and trimming twice
/// is trimming once.
pub proof fn lemma_trim_facts(s: Seq<char>, c: char)
    ensures
        no_char(s, c) ==> no_char(trim(s), c),
        trim(trim(s)) == trim(s),
{
    lemma_trim_start_facts(s, c);
    let a = trim_start(s);
    lemma_trim_end_facts(a, c);
    let t = trim_end(a);
    assert(t == trim(s));
    if t.len() > 0 {
        assert(t[0] == a[0]);
        assert(!is_ws(t[0]));
        assert(trim_start(t) == t);
        assert(!is_ws(t.last()));
        assert(trim_end(t) == t);
    } else {
        assert(trim_start(t) == t);
        assert(trim_end(t) == t);
    }
}

/// Every carriage return starts a `\r\n` line break.
pub open spec fn crlf_only(s: Seq<char>) -> bool {
    forall|k: int| 0 <= k < s.len() && #[trigger] s[k] == '\r' ==> k + 1 < s.len() && s[k + 1] == '\n'
}

/// The lines of text whose carriage returns all start `\r\n` hold neither
/// `\n` nor `\r`.
pub proof fn lemma_lines_crlf(s: Seq<char>)
    requires
        crlf_only(s),
    ensures
        forall|k: int|
            0 <= k < lines(s).len() ==> no_char(#[trigger] lines(s)[k], '\n') && no_char(
                lines(s)[k],
                '\r',
            ),
    decreases s.len(),
{
    if s.len() > 0 {
        lemma_find_char(s, '\n');
        match find_char(s, '\n') {
            None => {
                assert forall|m: int| 0 <= m < s.len() implies s[m] != '\r' by {
                    if s[m] == '\r' {
                        assert(s[m + 1] == '\n');
                    }
                }
            },
            Some(i) => {
                let rest = s.skip(i + 1);
                assert forall|m: int| 0 <= m < rest.len() && #[trigger] rest[m] == '\r' implies m + 1 < rest.len()
                    && rest[m + 1] == '\n' by {
                    assert(rest[m] == s[m + i + 1]);
                    assert(rest[m + 1] == s[m + i + 2]);
                }
                lemma_lines_crlf(rest);
                let p = s.take(i);
                let x = strip_cr(p);
                assert forall|m: int| 0 <= m < x.len() implies x[m] != '\n' && x[m] != '\r' by {
                    assert(x[m] == s[m]);
                    if s[m] == '\r' {
                        assert(s[m + 1] == '\n');
                        assert(m + 1 == i);
                        assert(p.last() == '\r');
                        assert(x.len() == p.len() - 1);
                    }
                }
                let ls = lines(s);
                assert(ls == seq![x] + lines(rest));
                assert forall|k: int|
                    0 <= k < ls.len() implies no_char(#[trigger] ls[k], '\n') && no_char(ls[k], '\r') by {
                    if k > 0 {
                        assert(ls[k] == lines(rest)[k - 1]);
                    }
                }
            },
        }
    }
}

} // verus!
