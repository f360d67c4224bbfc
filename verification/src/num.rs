//! Decimal numbers: `i64::from_str` semantics and zero-padded formatting.
use vstd::prelude::*;

verus! {

pub open spec fn is_digit(c: char) -> bool {
    48 <= c as u32 && c as u32 <= 57
}

pub open spec fn digit_val(c: char) -> int {
    c as u32 - 48
}

pub open spec fn all_digits(s: Seq<char>) -> bool {
    forall|i: int| 0 <= i < s.len() ==> is_digit(#[trigger] s[i])
}

/// Value of a run of decimal digits, most significant first.
pub open spec fn digits_value(s: Seq<char>) -> int
    decreases s.len(),
{
    if s.len() == 0 {
        0
    } else {
        digits_value(s.drop_last()) * 10 + digit_val(s.last())
    }
}

/// `i64::from_str`: optional `+`/`-` sign, at least one ASCII digit and
/// nothing else; `None` when the text is malformed or the value leaves
/// the `i64` range.
pub open spec fn parse_i64_spec(s: Seq<char>) -> Option<int> {
    let signed = s.len() > 0 && (s[0] == '+' || s[0] == '-');
    let d = if signed {
        s.drop_first()
    } else {
        s
    };
    if d.len() == 0 || !all_digits(d) {
        None
    } else {
        let v = if signed && s[0] == '-' {
            -digits_value(d)
        } else {
            digits_value(d)
        };
        if i64::MIN <= v <= i64::MAX {
            Some(v)
        } else {
            None
        }
    }
}

pub proof fn lemma_digits_value_nonneg(s: Seq<char>)
    requires
        all_digits(s),
    ensures
        digits_value(s) >= 0,
    decreases s.len(),
{
    if s.len() > 0 {
        lemma_digits_value_nonneg(s.drop_last());
    }
}

pub proof fn lemma_digits_value_mono(s: Seq<char>, k: int)
    requires
        all_digits(s),
        0 <= k <= s.len(),
    ensures
        digits_value(s.take(k)) <= digits_value(s),
    decreases s.len() - k,
{
    if k < s.len() {
        assert(s.drop_last().take(k) =~= s.take(k));
        lemma_digits_value_mono(s.drop_last(), k);
        lemma_digits_value_nonneg(s.drop_last());
    } else {
        assert(s.take(k) =~= s);
    }
}

/// Parses `s` exactly as `i64::from_str` does.
pub fn parse_i64(s: &[char]) -> (r: Option<i64>)
    ensures
        match parse_i64_spec(s@) {
            Some(v) => r == Some(v as i64),
            None => r is None,
        },
{
    let n = s.len();
    if n == 0 {
        return None;
    }
    let signed = s[0] == '+' || s[0] == '-';
    let neg = s[0] == '-';
    let start: usize = if signed {
        1
    } else {
        0
    };
    let ghost d = s@.skip(start as int);
    assert(signed ==> d =~= s@.drop_first());
    assert(!signed ==> d =~= s@);
    if start == n {
        return None;
    }
    let limit: i128 = 9223372036854775808;
    let mut acc: i128 = 0;
    let mut over = false;
    let mut i = start;
    while i < n
        invariant
            start <= i <= n,
            n == s@.len(),
            d == s@.skip(start as int),
            n > 0,
            signed == (s@[0] == '+' || s@[0] == '-'),
            neg == (s@[0] == '-'),
            signed ==> d == s@.drop_first(),
            !signed ==> d == s@,
            start == (if signed { 1usize } else { 0usize }),
            all_digits(d.take(i - start)),
            !over ==> acc == digits_value(d.take(i - start)),
            !over ==> 0 <= acc <= limit,
            over ==> digits_value(d.take(i - start)) > limit,
            limit == 9223372036854775808,
        decreases n - i,
    {
        let c = s[i];
        if !((c as u32) >= 48 && (c as u32) <= 57) {
            assert(d[i - start] == c);
            assert(!is_digit(d[(i - start) as int]));
            assert(!all_digits(d));
            assert(d.len() > 0);
            assert(parse_i64_spec(s@) is None);
            return None;
        }
        let ghost pre = d.take(i - start);
        let ghost post = d.take(i - start + 1);
        assert(post.drop_last() =~= pre);
        assert(post.last() == c);
        assert(all_digits(post)) by {
            assert forall|j: int| 0 <= j < post.len() implies is_digit(#[trigger] post[j]) by {
                if j < pre.len() {
                    assert(post[j] == pre[j]);
                }
            }
        }
        if !over {
            let dv = (c as u32 - 48) as i128;
            let next = acc * 10 + dv;
            if next > limit {
                over = true;
            } else {
                acc = next;
            }
        } else {
            proof {
                lemma_digits_value_nonneg(pre);
            }
        }
        i = i + 1;
    }
    assert(d.take(n - start) =~= d);
    if over {
        return None;
    }
    if neg {
        assert(i64::MIN as int <= -acc);
        Some((-acc) as i64)
    } else if acc > 9223372036854775807 {
        None
    } else {
        Some(acc as i64)
    }
}

/// Decimal digits of `n` (no padding), most significant first.
pub open spec fn decimal(n: nat) -> Seq<char>
    decreases n,
{
    if n < 10 {
        seq![(n + 48) as char]
    } else {
        decimal(n / 10).push(((n % 10) + 48) as char)
    }
}

/// `decimal(n)` left-padded with `0` to at least `width` characters.
pub open spec fn padded(n: nat, width: nat) -> Seq<char> {
    let d = decimal(n);
    if d.len() >= width {
        d
    } else {
        Seq::new((width - d.len()) as nat, |_i: int| '0') + d
    }
}

pub proof fn lemma_decimal_digits(n: nat)
    ensures
        all_digits(decimal(n)),
        decimal(n).len() >= 1,
        digits_value(decimal(n)) == n,
    decreases n,
{
    if n < 10 {
        let c = (n + 48) as char;
        assert(decimal(n) == seq![c]);
        assert(decimal(n).drop_last() =~= Seq::<char>::empty());
        assert(c as u32 == n + 48);
        assert(is_digit(decimal(n)[0]));
        assert(digits_value(Seq::<char>::empty()) == 0);
        assert(digit_val(c) == n);
        assert(digits_value(decimal(n)) == digits_value(decimal(n).drop_last()) * 10 + digit_val(c));
    } else {
        lemma_decimal_digits(n / 10);
        let d = decimal(n);
        assert(d.drop_last() =~= decimal(n / 10));
        let c = ((n % 10) + 48) as char;
        assert(d.last() == c);
        assert(c as u32 == (n % 10) + 48);
        assert(digit_val(c) == n % 10);
        assert(digits_value(d) == digits_value(decimal(n / 10)) * 10 + n % 10);
        assert forall|i: int| 0 <= i < d.len() implies is_digit(#[trigger] d[i]) by {
            if i < d.len() - 1 {
                assert(d[i] == decimal(n / 10)[i]);
            }
        }
    }
}

pub proof fn lemma_zeros_prefix_value(z: nat, d: Seq<char>)
    requires
        all_digits(d),
    ensures
        all_digits(Seq::new(z, |_i: int| '0') + d),
        digits_value(Seq::new(z, |_i: int| '0') + d) == digits_value(d),
    decreases d.len(),
{
    let zs = Seq::new(z, |_i: int| '0');
    let s = zs + d;
    assert forall|i: int| 0 <= i < s.len() implies is_digit(#[trigger] s[i]) by {
        if i >= z {
            assert(s[i] == d[i - z]);
        }
    }
    if d.len() == 0 {
        assert(s =~= zs);
        lemma_zeros_value(z);
    } else {
        lemma_zeros_prefix_value(z, d.drop_last());
        assert(s.drop_last() =~= zs + d.drop_last());
    }
}

pub proof fn lemma_zeros_value(z: nat)
    ensures
        digits_value(Seq::new(z, |_i: int| '0')) == 0,
    decreases z,
{
    if z > 0 {
        assert(Seq::new(z, |_i: int| '0').drop_last() =~= Seq::new((z - 1) as nat, |_i: int| '0'));
        lemma_zeros_value((z - 1) as nat);
    }
}

pub proof fn lemma_padded(n: nat, width: nat)
    ensures
        all_digits(padded(n, width)),
        digits_value(padded(n, width)) == n,
        padded(n, width).len() >= width,
        padded(n, width).len() >= 1,
        n < 10 && width <= 1 ==> padded(n, width).len() == 1,
        n < 100 && width == 2 ==> padded(n, width).len() == 2,
        n < 1000 && width == 3 ==> padded(n, width).len() == 3,
{
    lemma_decimal_digits(n);
    let d = decimal(n);
    if d.len() < width {
        lemma_zeros_prefix_value((width - d.len()) as nat, d);
    }
    if n < 10 {
        assert(d.len() == 1);
    } else if n < 100 {
        assert(decimal(n / 10).len() == 1);
    } else if n < 1000 {
        assert(decimal(n / 10 / 10).len() == 1);
        assert(decimal(n / 10).len() == 2);
    }
}

/// Appends `n` in decimal, zero-padded to at least `width` digits.
pub fn push_padded(out: &mut Vec<char>, n: u64, width: usize)
    ensures
        final(out)@ == old(out)@ + padded(n as nat, width as nat),
{
    let mut digits: Vec<char> = Vec::new();
    let mut m = n;
    loop
        invariant_except_break
            decimal(n as nat) == decimal(m as nat) + digits@.reverse(),
        ensures
            decimal(n as nat) == digits@.reverse(),
        decreases m,
    {
        let c = ((m % 10) as u8 + 48) as char;
        let ghost before = digits@;
        digits.push(c);
        assert(digits@.reverse() =~= seq![c] + before.reverse());
        if m < 10 {
            assert(decimal(m as nat) =~= seq![c]);
            break;
        }
        assert(decimal(m as nat) == decimal((m / 10) as nat).push(c));
        assert(decimal(n as nat) =~= decimal((m / 10) as nat) + digits@.reverse());
        m = m / 10;
    }
    let len = digits.len();
    let mut k = len;
    while k < width
        invariant
            len <= k,
            k <= width || k == len,
            len == digits@.len(),
            out@ == old(out)@ + Seq::new((k - len) as nat, |_i: int| '0'),
        decreases width - k,
    {
        out.push('0');
        assert(out@ =~= old(out)@ + Seq::new((k + 1 - len) as nat, |_i: int| '0'));
        k = k + 1;
    }
    let ghost pre = out@;
    let mut j = len;
    while j > 0
        invariant
            j <= len == digits@.len(),
            out@ == pre + digits@.reverse().take((len - j) as int),
        decreases j,
    {
        j = j - 1;
        out.push(digits[j]);
        assert(digits@.reverse().take((len - j) as int) =~= digits@.reverse().take(
            (len - j - 1) as int,
        ).push(digits@[j as int]));
    }
    assert(digits@.reverse().take(len as int) =~= digits@.reverse());
    if len < width {
        assert(out@ =~= old(out)@ + padded(n as nat, width as nat));
    } else {
        assert(out@ =~= old(out)@ + padded(n as nat, width as nat));
    }
}

/// A signed integer in decimal, `-` before negative values.
pub open spec fn int_text(v: int) -> Seq<char> {
    if v < 0 {
        seq!['-'] + decimal((-v) as nat)
    } else {
        decimal(v as nat)
    }
}

/// Appends `v` in decimal (`format!("{v}")`).
pub fn push_int(out: &mut Vec<char>, v: i64)
    ensures
        final(out)@ == old(out)@ + int_text(v as int),
{
    if v < 0 {
        out.push('-');
        let m: u64 = if v == i64::MIN {
            9223372036854775808
        } else {
            (-v) as u64
        };
        push_padded(out, m, 0);
        proof {
            lemma_padded((-v) as nat, 0);
        }
        assert(out@ =~= old(out)@ + int_text(v as int));
    } else {
        push_padded(out, v as u64, 0);
        proof {
            lemma_padded(v as nat, 0);
        }
    }
}

} // verus!
