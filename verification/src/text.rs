//! Text helpers shared by the parsers and the error messages: decimal
//! numbers, whitespace as `char::is_whitespace` defines it, and building
//! strings one character at a time.

use vstd::prelude::*;
use vstd::string::*;

verus! {

/// Appends `c` to `s`.
///
/// Wraps `String::push`, which appends the character to the end of the
/// string.
#[verifier::external_body]
pub(crate) fn push_char(s: &mut String, c: char)
    ensures
        final(s)@ == old(s)@.push(c),
{
    s.push(c);
}

/// The ASCII digit for `d < 10`.
pub open spec fn digit_char(d: nat) -> char {
    (d + 48) as char
}

/// The decimal digits of `n`, most significant first, no leading zeros.
pub open spec fn decimal(n: nat) -> Seq<char>
    decreases n,
{
    if n < 10 {
        seq![digit_char(n)]
    } else {
        decimal(n / 10).push(digit_char(n % 10))
    }
}

/// `v` in decimal, with a leading `-` when negative.
pub open spec fn signed_decimal(v: int) -> Seq<char> {
    if v < 0 {
        seq!['-'] + decimal((-v) as nat)
    } else {
        decimal(v as nat)
    }
}

/// Appends the decimal digits of `n` to `s`.
pub fn push_decimal(s: &mut String, n: u64)
    ensures
        final(s)@ == old(s)@ + decimal(n as nat),
    decreases n,
{
    if n >= 10 {
        push_decimal(s, n / 10);
    }
    let d: u8 = (n % 10) as u8;
    let c = (48u8 + d) as char;
    push_char(s, c);
    assert(s@ =~= old(s)@ + decimal(n as nat));
}

/// `n` in decimal.
pub fn decimal_string(n: u64) -> (r: String)
    ensures
        r@ == decimal(n as nat),
{
    let mut s = String::new();
    push_decimal(&mut s, n);
    assert(s@ =~= decimal(n as nat));
    s
}

/// `v` in decimal, with a leading `-` when negative.
pub fn signed_decimal_string(v: i64) -> (r: String)
    requires
        v > i64::MIN,
    ensures
        r@ == signed_decimal(v as int),
{
    let mut s = String::new();
    if v < 0 {
        push_char(&mut s, '-');
        push_decimal(&mut s, (0 - v) as u64);
    } else {
        push_decimal(&mut s, v as u64);
    }
    assert(s@ =~= signed_decimal(v as int));
    s
}

/// `s` followed by `t`.
pub fn concat_str(s: &str, t: &str) -> (r: String)
    ensures
        r@ == s@ + t@,
{
    let mut out = String::from_str(s);
    out.append(t);
    out
}


/// The characters of `s`.
pub fn chars_of(s: &str) -> (r: Vec<char>)
    ensures
        r@ == s@,
{
    let n = s.unicode_len();
    let mut out: Vec<char> = Vec::new();
    let mut i: usize = 0;
    while i < n
        invariant
            n == s@.len(),
            i <= n,
            out@ == s@.subrange(0, i as int),
        decreases n - i,
    {
        out.push(s.get_char(i));
        i = i + 1;
        assert(out@ =~= s@.subrange(0, i as int));
    }
    assert(out@ =~= s@);
    out
}

/// The string made of `cs[from..to]`.
pub fn string_of(cs: &Vec<char>, from: usize, to: usize) -> (r: String)
    requires
        from <= to <= cs@.len(),
    ensures
        r@ == cs@.subrange(from as int, to as int),
{
    let mut out = String::new();
    let mut i: usize = from;
    while i < to
        invariant
            from <= i <= to <= cs@.len(),
            out@ == cs@.subrange(from as int, i as int),
        decreases to - i,
    {
        push_char(&mut out, cs[i]);
        i = i + 1;
        assert(out@ =~= cs@.subrange(from as int, i as int));
    }
    out
}

/// Whitespace as `char::is_whitespace` defines it: the Unicode
/// `White_Space` property.
pub open spec fn is_space(c: char) -> bool {
    ||| ('\u{9}' <= c <= '\u{d}')
    ||| c == ' '
    ||| c == '\u{85}'
    ||| c == '\u{a0}'
    ||| c == '\u{1680}'
    ||| ('\u{2000}' <= c <= '\u{200a}')
    ||| c == '\u{2028}'
    ||| c == '\u{2029}'
    ||| c == '\u{202f}'
    ||| c == '\u{205f}'
    ||| c == '\u{3000}'
}

/// Whether `c` is whitespace.
pub fn is_space_char(c: char) -> (r: bool)
    ensures
        r == is_space(c),
{
    ('\u{9}' <= c && c <= '\u{d}') || c == ' ' || c == '\u{85}' || c == '\u{a0}' || c
        == '\u{1680}' || ('\u{2000}' <= c && c <= '\u{200a}') || c == '\u{2028}' || c
        == '\u{2029}' || c == '\u{202f}' || c == '\u{205f}' || c == '\u{3000}'
}


/// The pieces of `s` between `'\n'` characters; an empty `s` is one empty
/// piece.
pub open spec fn split_lines(s: Seq<char>) -> Seq<Seq<char>>
    decreases s.len(),
{
    if s.len() == 0 {
        seq![Seq::empty()]
    } else {
        let r = split_lines(s.drop_last());
        if s.last() == '\n' {
            r.push(Seq::empty())
        } else {
            r.update(r.len() - 1, r.last().push(s.last()))
        }
    }
}

/// The words of `s` separated by whitespace, as `str::split_whitespace`
/// gives them.
pub open spec fn words(s: Seq<char>) -> Seq<Seq<char>>
    decreases s.len(),
{
    if s.len() == 0 {
        Seq::empty()
    } else {
        let w = words(s.drop_last());
        let c = s.last();
        if is_space(c) {
            w
        } else if s.len() >= 2 && !is_space(s[s.len() - 2]) {
            w.update(w.len() - 1, w.last().push(c))
        } else {
            w.push(seq![c])
        }
    }
}

/// The pieces of `cs` that the index ranges `v` select.
pub open spec fn spans(cs: Seq<char>, v: Seq<(usize, usize)>) -> Seq<Seq<char>> {
    v.map_values(|p: (usize, usize)| cs.subrange(p.0 as int, p.1 as int))
}

/// Every range of `v` lies within `lo..hi` and is in order.
pub open spec fn ranges_within(v: Seq<(usize, usize)>, lo: int, hi: int) -> bool {
    forall|k: int| 0 <= k < v.len() ==> lo <= (#[trigger] v[k]).0 <= v[k].1 <= hi
}

proof fn lemma_split_lines_nonempty(s: Seq<char>)
    ensures
        split_lines(s).len() >= 1,
    decreases s.len(),
{
    if s.len() > 0 {
        lemma_split_lines_nonempty(s.drop_last());
    }
}

/// The ranges of the lines of `cs`, split on `'\n'`.
pub fn line_ranges(cs: &Vec<char>) -> (r: Vec<(usize, usize)>)
    ensures
        spans(cs@, r@) == split_lines(cs@),
        ranges_within(r@, 0, cs@.len() as int),
{
    let n = cs.len();
    let mut done: Vec<(usize, usize)> = Vec::new();
    let mut cur: usize = 0;
    let mut i: usize = 0;
    assert(cs@.subrange(0, 0) =~= Seq::<char>::empty());
    assert(spans(cs@, done@).push(cs@.subrange(cur as int, i as int)) =~= split_lines(cs@.subrange(0, 0)));
    while i < n
        invariant
            n == cs@.len(),
            cur <= i <= n,
            ranges_within(done@, 0, cur as int),
            split_lines(cs@.subrange(0, i as int)) == spans(cs@, done@).push(cs@.subrange(cur as int, i as int)),
        decreases n - i,
    {
        let ghost prev = cs@.subrange(0, i as int);
        assert(cs@.subrange(0, i as int + 1).drop_last() =~= prev);
        proof {
            lemma_split_lines_nonempty(prev);
        }
        if cs[i] == '\n' {
            let ghost before = done@;
            done.push((cur, i));
            assert(spans(cs@, done@) =~= spans(cs@, before).push(cs@.subrange(cur as int, i as int)));
            cur = i + 1;
            i = i + 1;
            assert(cs@.subrange(cur as int, i as int) =~= Seq::<char>::empty());
            assert(split_lines(cs@.subrange(0, i as int)) =~= spans(cs@, done@).push(cs@.subrange(cur as int, i as int)));
        } else {
            i = i + 1;
            assert(cs@.subrange(cur as int, i as int) =~= cs@.subrange(cur as int, i as int - 1).push(cs@[i - 1]));
            assert(split_lines(cs@.subrange(0, i as int)) =~= spans(cs@, done@).push(cs@.subrange(cur as int, i as int)));
        }
    }
    let ghost before = done@;
    done.push((cur, n));
    assert(spans(cs@, done@) =~= spans(cs@, before).push(cs@.subrange(cur as int, n as int)));
    assert(cs@.subrange(0, n as int) =~= cs@);
    done
}

/// The ranges of the whitespace-separated words of `cs[a..b]`.
pub fn word_ranges(cs: &Vec<char>, a: usize, b: usize) -> (r: Vec<(usize, usize)>)
    requires
        a <= b <= cs@.len(),
    ensures
        spans(cs@, r@) == words(cs@.subrange(a as int, b as int)),
        ranges_within(r@, a as int, b as int),
{
    let mut done: Vec<(usize, usize)> = Vec::new();
    let mut in_word = false;
    let mut start: usize = a;
    let mut j: usize = a;
    assert(cs@.subrange(a as int, a as int) =~= Seq::<char>::empty());
    assert(spans(cs@, done@) =~= words(cs@.subrange(a as int, a as int)));
    while j < b
        invariant
            a <= start <= j <= b <= cs@.len(),
            ranges_within(done@, a as int, start as int),
            in_word <==> (j > a && !is_space(cs@[j - 1])),
            !in_word ==> start == j,
            words(cs@.subrange(a as int, j as int)) == spans(cs@, done@) + (if in_word {
                seq![cs@.subrange(start as int, j as int)]
            } else {
                Seq::empty()
            }),
        decreases b - j,
    {
        let ghost prev = cs@.subrange(a as int, j as int);
        let ghost next = cs@.subrange(a as int, j as int + 1);
        assert(next.drop_last() =~= prev);
        assert(next.last() == cs@[j as int]);
        if j > a {
            assert(next[next.len() - 2] == cs@[j - 1]);
        }
        let c = cs[j];
        if is_space_char(c) {
            if in_word {
                let ghost before = done@;
                done.push((start, j));
                assert(spans(cs@, done@) =~= spans(cs@, before).push(cs@.subrange(start as int, j as int)));
                in_word = false;
            }
            j = j + 1;
            start = j;
            assert(words(cs@.subrange(a as int, j as int)) =~= spans(cs@, done@));
        } else {
            if in_word {
                j = j + 1;
                assert(cs@.subrange(start as int, j as int) =~= cs@.subrange(start as int, j as int - 1).push(c));
                assert(words(cs@.subrange(a as int, j as int)) =~= spans(cs@, done@) + seq![cs@.subrange(start as int, j as int)]);
            } else {
                start = j;
                j = j + 1;
                in_word = true;
                assert(cs@.subrange(start as int, j as int) =~= seq![c]);
                assert(words(cs@.subrange(a as int, j as int)) =~= spans(cs@, done@) + seq![cs@.subrange(start as int, j as int)]);
            }
        }
    }
    if in_word {
        let ghost before = done@;
        done.push((start, b));
        assert(spans(cs@, done@) =~= spans(cs@, before).push(cs@.subrange(start as int, b as int)));
        assert(spans(cs@, done@) =~= spans(cs@, before) + seq![cs@.subrange(start as int, b as int)]);
    } else {
        assert(spans(cs@, done@) + Seq::<Seq<char>>::empty() =~= spans(cs@, done@));
    }
    done
}

/// Whether `cs[a..b]` is exactly `lit`.
pub fn span_is(cs: &Vec<char>, a: usize, b: usize, lit: &str) -> (r: bool)
    requires
        a <= b <= cs@.len(),
    ensures
        r == (cs@.subrange(a as int, b as int) == lit@),
{
    let n = lit.unicode_len();
    if b - a != n {
        return false;
    }
    let mut k: usize = 0;
    while k < n
        invariant
            n == lit@.len(),
            b - a == n,
            a <= b <= cs@.len(),
            k <= n,
            forall|t: int| 0 <= t < k ==> cs@[a + t] == lit@[t],
        decreases n - k,
    {
        if cs[a + k] != lit.get_char(k) {
            assert(cs@.subrange(a as int, b as int)[k as int] != lit@[k as int]);
            return false;
        }
        k = k + 1;
    }
    assert(cs@.subrange(a as int, b as int) =~= lit@);
    true
}

/// Whether `cs[a..b]` begins with `lit`.
pub fn span_starts_with(cs: &Vec<char>, a: usize, b: usize, lit: &str) -> (r: bool)
    requires
        a <= b <= cs@.len(),
    ensures
        r == lit@.is_prefix_of(cs@.subrange(a as int, b as int)),
{
    let n = lit.unicode_len();
    if b - a < n {
        return false;
    }
    let r = span_is(cs, a, a + n, lit);
    assert(cs@.subrange(a as int, b as int).subrange(0, n as int) =~= cs@.subrange(a as int, a + n));
    r
}


/// `s` without its leading whitespace.
pub open spec fn trim_start(s: Seq<char>) -> Seq<char>
    decreases s.len(),
{
    if s.len() > 0 && is_space(s[0]) {
        trim_start(s.skip(1))
    } else {
        s
    }
}

/// `s` without its trailing whitespace.
pub open spec fn trim_end(s: Seq<char>) -> Seq<char>
    decreases s.len(),
{
    if s.len() > 0 && is_space(s.last()) {
        trim_end(s.drop_last())
    } else {
        s
    }
}

/// `s` without leading or trailing whitespace, as `str::trim` gives it.
pub open spec fn trim(s: Seq<char>) -> Seq<char> {
    trim_end(trim_start(s))
}

/// Where `pat` first occurs in `s` at or after `i`.
pub open spec fn find_from(s: Seq<char>, pat: Seq<char>, i: int) -> Option<int>
    decreases s.len() + 1 - i,
{
    if i < 0 || i + pat.len() > s.len() {
        None
    } else if s.subrange(i, i + pat.len()) == pat {
        Some(i)
    } else {
        find_from(s, pat, i + 1)
    }
}

/// Where `pat` first occurs in `s`, as `str::find` gives it.
pub open spec fn find(s: Seq<char>, pat: Seq<char>) -> Option<int> {
    find_from(s, pat, 0)
}

/// Where `c` last occurs in `s`.
pub open spec fn last_index(s: Seq<char>, c: char) -> Option<int>
    decreases s.len(),
{
    if s.len() == 0 {
        None
    } else if s.last() == c {
        Some(s.len() - 1)
    } else {
        last_index(s.drop_last(), c)
    }
}

/// An ASCII decimal digit.
pub open spec fn is_digit(c: char) -> bool {
    '0' <= c <= '9'
}

/// The value of a string of ASCII digits.
pub open spec fn digits_value(s: Seq<char>) -> nat
    decreases s.len(),
{
    if s.len() == 0 {
        0
    } else {
        digits_value(s.drop_last()) * 10 + ((s.last() as int) - 48) as nat
    }
}

/// `s` without one leading `+`.
pub open spec fn unsigned_digits(s: Seq<char>) -> Seq<char> {
    if s.len() > 0 && s[0] == '+' {
        s.skip(1)
    } else {
        s
    }
}

/// Every character of `d` is an ASCII digit.
pub open spec fn all_digits(d: Seq<char>) -> bool {
    forall|i: int| 0 <= i < d.len() ==> is_digit(#[trigger] d[i])
}

/// What `str::parse::<u16>` gives: an optional `+`, then at least one ASCII
/// digit and nothing else, of value at most 65535.
pub open spec fn parse_u16(s: Seq<char>) -> Option<u16> {
    let d = unsigned_digits(s);
    if d.len() == 0 || !all_digits(d) {
        None
    } else if digits_value(d) > 65535 {
        None
    } else {
        Some(digits_value(d) as u16)
    }
}

/// The leading ASCII digits of `s`.
pub open spec fn leading_digits(s: Seq<char>) -> Seq<char>
    decreases s.len(),
{
    if s.len() > 0 && is_digit(s[0]) {
        seq![s[0]] + leading_digits(s.skip(1))
    } else {
        Seq::empty()
    }
}

/// A copy of `cs[a..b]`.
pub fn sub_chars(cs: &Vec<char>, a: usize, b: usize) -> (r: Vec<char>)
    requires
        a <= b <= cs@.len(),
    ensures
        r@ == cs@.subrange(a as int, b as int),
{
    let mut out: Vec<char> = Vec::new();
    let mut i: usize = a;
    while i < b
        invariant
            a <= i <= b <= cs@.len(),
            out@ == cs@.subrange(a as int, i as int),
        decreases b - i,
    {
        out.push(cs[i]);
        i = i + 1;
        assert(out@ =~= cs@.subrange(a as int, i as int));
    }
    out
}

/// `cs` without its leading whitespace.
pub fn trim_start_chars(cs: &Vec<char>) -> (r: Vec<char>)
    ensures
        r@ == trim_start(cs@),
{
    let n = cs.len();
    let mut i: usize = 0;
    assert(cs@.skip(0) =~= cs@);
    while i < n && is_space_char(cs[i])
        invariant
            n == cs@.len(),
            i <= n,
            trim_start(cs@) == trim_start(cs@.skip(i as int)),
        decreases n - i,
    {
        assert(cs@.skip(i as int).skip(1) =~= cs@.skip(i as int + 1));
        i = i + 1;
    }
    assert(cs@.subrange(i as int, n as int) =~= cs@.skip(i as int));
    sub_chars(cs, i, n)
}

/// `cs` without leading or trailing whitespace.
pub fn trim_chars(cs: &Vec<char>) -> (r: Vec<char>)
    ensures
        r@ == trim(cs@),
{
    let t = trim_start_chars(cs);
    let mut j: usize = t.len();
    assert(t@.subrange(0, j as int) =~= t@);
    while j > 0 && is_space_char(t[j - 1])
        invariant
            j <= t@.len(),
            trim_end(t@) == trim_end(t@.subrange(0, j as int)),
        decreases j,
    {
        assert(t@.subrange(0, j as int).drop_last() =~= t@.subrange(0, j as int - 1));
        j = j - 1;
    }
    sub_chars(&t, 0, j)
}

/// Where `pat` first occurs in `cs`.
pub fn find_chars(cs: &Vec<char>, pat: &str) -> (r: Option<usize>)
    ensures
        r matches Some(i) ==> find(cs@, pat@) == Some(i as int) && i + pat@.len() <= cs@.len()
            && cs@.subrange(i as int, i + pat@.len()) == pat@,
        r is None ==> find(cs@, pat@) is None,
{
    let n = cs.len();
    let m = pat.unicode_len();
    let mut i: usize = 0;
    loop
        invariant
            n == cs@.len(),
            m == pat@.len(),
            i <= n,
            find(cs@, pat@) == find_from(cs@, pat@, i as int),
        decreases n - i,
    {
        if n - i < m {
            return None;
        }
        if span_is(cs, i, i + m, pat) {
            return Some(i);
        }
        if i == n {
            assert(find_from(cs@, pat@, i as int + 1) is None);
            return None;
        }
        i = i + 1;
    }
}

/// Where `c` last occurs in `cs`.
pub fn last_index_chars(cs: &Vec<char>, c: char) -> (r: Option<usize>)
    ensures
        r matches Some(i) ==> last_index(cs@, c) == Some(i as int) && i < cs@.len(),
        r is None ==> last_index(cs@, c) is None,
{
    let mut j: usize = cs.len();
    assert(cs@.subrange(0, j as int) =~= cs@);
    while j > 0
        invariant
            j <= cs@.len(),
            last_index(cs@, c) == last_index(cs@.subrange(0, j as int), c),
        decreases j,
    {
        if cs[j - 1] == c {
            return Some(j - 1);
        }
        assert(cs@.subrange(0, j as int).drop_last() =~= cs@.subrange(0, j as int - 1));
        j = j - 1;
    }
    None
}

proof fn lemma_digits_value_grows(s: Seq<char>, k: int)
    requires
        0 <= k <= s.len(),
    ensures
        digits_value(s.take(k)) <= digits_value(s),
    decreases s.len() - k,
{
    if k < s.len() {
        lemma_digits_value_grows(s, k + 1);
        assert(s.take(k + 1).drop_last() =~= s.take(k));
    } else {
        assert(s.take(k) =~= s);
    }
}

/// `cs` parsed as `str::parse::<u16>` parses it.
pub fn parse_u16_chars(cs: &Vec<char>) -> (r: Option<u16>)
    ensures
        r == parse_u16(cs@),
{
    let n = cs.len();
    let start: usize = if n > 0 && cs[0] == '+' {
        1
    } else {
        0
    };
    let ghost d = cs@.skip(start as int);
    assert(d =~= unsigned_digits(cs@));
    if start == n {
        return None;
    }
    let mut acc: u32 = 0;
    let mut i: usize = start;
    assert(d.take(0) =~= Seq::<char>::empty());
    while i < n
        invariant
            n == cs@.len(),
            start <= i <= n,
            start < n,
            d == cs@.skip(start as int),
            d == unsigned_digits(cs@),
            forall|t: int| 0 <= t < i - start ==> is_digit(#[trigger] d[t]),
            acc == digits_value(d.take(i - start)),
            acc <= 65535,
        decreases n - i,
    {
        let c = cs[i];
        let ghost k: int = i - start;
        if !('0' <= c && c <= '9') {
            assert(d[k] == c);
            assert(!is_digit(d[k]));
            return None;
        }
        let v = (c as u32) - 48;
        assert(d.take(k + 1).drop_last() =~= d.take(k));
        assert(d.take(k + 1).last() == c);
        let next = acc * 10 + v;
        assert(digits_value(d.take(k + 1)) == next);
        i = i + 1;
        if next > 65535 {
            proof {
                lemma_digits_value_grows(d, k + 1);
            }
            return None;
        }
        acc = next;
    }
    assert(d.take(i - start) =~= d);
    Some(acc as u16)
}

/// The leading ASCII digits of `cs`.
pub fn leading_digits_chars(cs: &Vec<char>) -> (r: Vec<char>)
    ensures
        r@ == leading_digits(cs@),
{
    let n = cs.len();
    let mut i: usize = 0;
    while i < n && '0' <= cs[i] && cs[i] <= '9'
        invariant
            i <= n == cs@.len(),
            forall|t: int| 0 <= t < i ==> is_digit(#[trigger] cs@[t]),
        decreases n - i,
    {
        i = i + 1;
    }
    proof {
        lemma_leading_digits(cs@, i as int);
    }
    sub_chars(cs, 0, i)
}

proof fn lemma_leading_digits(s: Seq<char>, i: int)
    requires
        0 <= i <= s.len(),
        forall|t: int| 0 <= t < i ==> is_digit(#[trigger] s[t]),
        i == s.len() || !is_digit(s[i]),
    ensures
        leading_digits(s) == s.take(i),
    decreases i,
{
    if i == 0 {
        assert(s.take(0) =~= Seq::<char>::empty());
    } else {
        lemma_leading_digits(s.skip(1), i - 1);
        assert(seq![s[0]] + s.skip(1).take(i - 1) =~= s.take(i));
    }
}

} // verus!
