//! Text helpers shared by the whole crate: the characters of a string,
//! decimal numbers, concatenation and joining, and the order of strings.
//!
//! Contracts speak of a string through its view, a `Seq<char>`.

use vstd::prelude::*;
use vstd::string::*;
use vstd::utf8::*;
use unicode_segmentation::UnicodeSegmentation;

verus! {

/// The views of a list of strings.
pub open spec fn views(parts: Seq<String>) -> Seq<Seq<char>> {
    parts.map_values(|s: String| s@)
}

/// All `parts` written one after the other.
pub open spec fn concat(parts: Seq<Seq<char>>) -> Seq<char>
    decreases parts.len(),
{
    if parts.len() == 0 {
        Seq::empty()
    } else {
        concat(parts.drop_last()) + parts.last()
    }
}

/// All `parts` written one after the other, with `sep` between neighbours.
pub open spec fn join(parts: Seq<Seq<char>>, sep: Seq<char>) -> Seq<char>
    decreases parts.len(),
{
    if parts.len() == 0 {
        Seq::empty()
    } else if parts.len() == 1 {
        parts[0]
    } else {
        join(parts.drop_last(), sep) + sep + parts.last()
    }
}

/// `c` repeated `n` times.
pub open spec fn repeat(c: char, n: nat) -> Seq<char> {
    Seq::new(n, |i: int| c)
}

/// The character of the decimal digit `d`.
pub open spec fn digit_char(d: nat) -> char
    recommends
        d < 10,
{
    (48 + d) as char
}

/// `n` in decimal, without sign or leading zeros.
pub open spec fn decimal(n: nat) -> Seq<char>
    decreases n,
{
    if n < 10 {
        seq![digit_char(n)]
    } else {
        decimal(n / 10).push(digit_char(n % 10))
    }
}

/// Strict lexicographic order of byte strings.
pub open spec fn bytes_lt(a: Seq<u8>, b: Seq<u8>) -> bool
    decreases a.len(),
{
    if b.len() == 0 {
        false
    } else if a.len() == 0 {
        true
    } else if a[0] != b[0] {
        a[0] < b[0]
    } else {
        bytes_lt(a.drop_first(), b.drop_first())
    }
}

/// Strict order of texts: that of their UTF-8 encodings, byte by byte, which
/// is the order in which the standard library sorts strings.
pub open spec fn text_lt(a: Seq<char>, b: Seq<char>) -> bool {
    bytes_lt(encode_utf8(a), encode_utf8(b))
}

/// `keys` is strictly increasing in the order of `text_lt`.
pub open spec fn sorted(keys: Seq<Seq<char>>) -> bool {
    forall|i: int, j: int| 0 <= i < j < keys.len() ==> text_lt(#[trigger] keys[i], #[trigger] keys[j])
}

/// No byte string comes before itself.
pub proof fn lemma_bytes_lt_irreflexive(a: Seq<u8>)
    ensures
        !bytes_lt(a, a),
    decreases a.len(),
{
    if a.len() > 0 {
        lemma_bytes_lt_irreflexive(a.drop_first());
    }
}

/// The order of byte strings is transitive.
pub proof fn lemma_bytes_lt_transitive(a: Seq<u8>, b: Seq<u8>, c: Seq<u8>)
    requires
        bytes_lt(a, b),
        bytes_lt(b, c),
    ensures
        bytes_lt(a, c),
    decreases a.len(),
{
    if a.len() > 0 && b.len() > 0 && c.len() > 0 && a[0] == b[0] && b[0] == c[0] {
        lemma_bytes_lt_transitive(a.drop_first(), b.drop_first(), c.drop_first());
    }
}

/// Of two different byte strings one comes before the other.
pub proof fn lemma_bytes_lt_total(a: Seq<u8>, b: Seq<u8>)
    ensures
        bytes_lt(a, b) || bytes_lt(b, a) || a == b,
    decreases a.len(),
{
    if a.len() > 0 && b.len() > 0 && a[0] == b[0] {
        lemma_bytes_lt_total(a.drop_first(), b.drop_first());
        if a.drop_first() == b.drop_first() {
            assert(a =~= seq![a[0]] + a.drop_first());
            assert(b =~= seq![b[0]] + b.drop_first());
        }
    } else if a.len() == 0 && b.len() == 0 {
        assert(a =~= b);
    }
}

/// Two texts with the same encoding are the same text.
pub proof fn lemma_encoding_injective(a: Seq<char>, b: Seq<char>)
    requires
        encode_utf8(a) == encode_utf8(b),
    ensures
        a == b,
{
    encode_utf8_decode_utf8(a);
    encode_utf8_decode_utf8(b);
}

/// No text comes before itself.
pub proof fn lemma_text_lt_irreflexive(a: Seq<char>)
    ensures
        !text_lt(a, a),
{
    lemma_bytes_lt_irreflexive(encode_utf8(a));
}

/// The order of texts is transitive.
pub proof fn lemma_text_lt_transitive(a: Seq<char>, b: Seq<char>, c: Seq<char>)
    requires
        text_lt(a, b),
        text_lt(b, c),
    ensures
        text_lt(a, c),
{
    lemma_bytes_lt_transitive(encode_utf8(a), encode_utf8(b), encode_utf8(c));
}

/// Of two different texts one comes before the other.
pub proof fn lemma_text_lt_total(a: Seq<char>, b: Seq<char>)
    ensures
        text_lt(a, b) || text_lt(b, a) || a == b,
{
    lemma_bytes_lt_total(encode_utf8(a), encode_utf8(b));
    if encode_utf8(a) == encode_utf8(b) {
        lemma_encoding_injective(a, b);
    }
}

/// In a sorted list no text occurs twice.
pub proof fn lemma_sorted_distinct(keys: Seq<Seq<char>>, i: int, j: int)
    requires
        sorted(keys),
        0 <= i < keys.len(),
        0 <= j < keys.len(),
        keys[i] == keys[j],
    ensures
        i == j,
{
    lemma_text_lt_irreflexive(keys[i]);
}

/// The characters of `s`, in order.
pub fn chars_of(s: &str) -> (out: Vec<char>)
    ensures
        out@ == s@,
{
    let mut out: Vec<char> = Vec::new();
    for c in it: s.chars()
        invariant
            it.seq() == s@,
            out@ == it.seq().take(it.index() as int),
    {
        out.push(c);
    }
    assert(s@.take(s@.len() as int) == s@);
    out
}

/// Whether `a` and `b` hold the same text.
pub fn str_eq(a: &str, b: &str) -> (same: bool)
    ensures
        same == (a@ == b@),
{
    let x = a.as_bytes();
    let y = b.as_bytes();
    if x.len() != y.len() {
        return false;
    }
    let mut i: usize = 0;
    while i < x.len()
        invariant
            i <= x@.len(),
            x@.len() == y@.len(),
            x@ == a.spec_bytes(),
            y@ == b.spec_bytes(),
            x@.take(i as int) == y@.take(i as int),
        decreases x@.len() - i,
    {
        if x[i] != y[i] {
            return false;
        }
        assert(x@.take(i + 1) == x@.take(i as int).push(x@[i as int]));
        assert(y@.take(i + 1) == y@.take(i as int).push(y@[i as int]));
        i += 1;
    }
    proof {
        assert(x@.take(i as int) == x@);
        assert(y@.take(i as int) == y@);
        lemma_encoding_injective(a@, b@);
    }
    true
}

/// Two byte strings that begin alike are ordered as what follows the
/// common beginning.
proof fn lemma_bytes_lt_skip(a: Seq<u8>, b: Seq<u8>, i: int)
    requires
        0 <= i <= a.len(),
        i <= b.len(),
        a.take(i) == b.take(i),
    ensures
        bytes_lt(a, b) == bytes_lt(a.skip(i), b.skip(i)),
    decreases i,
{
    if i > 0 {
        assert(a[0] == a.take(i)[0]);
        assert(b[0] == b.take(i)[0]);
        assert(a.drop_first().take(i - 1) == a.take(i).drop_first());
        assert(b.drop_first().take(i - 1) == b.take(i).drop_first());
        lemma_bytes_lt_skip(a.drop_first(), b.drop_first(), i - 1);
        assert(a.drop_first().skip(i - 1) == a.skip(i));
        assert(b.drop_first().skip(i - 1) == b.skip(i));
    } else {
        assert(a.skip(0) == a);
        assert(b.skip(0) == b);
    }
}

/// Whether `a` sorts strictly before `b`.
pub fn str_lt(a: &str, b: &str) -> (before: bool)
    ensures
        before == text_lt(a@, b@),
{
    let x = a.as_bytes();
    let y = b.as_bytes();
    let mut i: usize = 0;
    while i < x.len() && i < y.len()
        invariant
            i <= x@.len(),
            i <= y@.len(),
            x@ == a.spec_bytes(),
            y@ == b.spec_bytes(),
            x@.take(i as int) == y@.take(i as int),
        decreases x@.len() - i,
    {
        if x[i] != y[i] {
            proof {
                lemma_bytes_lt_skip(x@, y@, i as int);
            }
            return x[i] < y[i];
        }
        assert(x@.take(i + 1) == x@.take(i as int).push(x@[i as int]));
        assert(y@.take(i + 1) == y@.take(i as int).push(y@[i as int]));
        i += 1;
    }
    proof {
        lemma_bytes_lt_skip(x@, y@, i as int);
    }
    i < y.len()
}

/// The decimal digit `d` as a string of one character.
fn digit_string(d: usize) -> (s: String)
    requires
        d < 10,
    ensures
        s@ == seq![digit_char(d as nat)],
{
    let digits = "0123456789";
    proof {
        reveal_strlit("0123456789");
    }
    let one = digits.substring_char(d, d + 1);
    assert(one@ =~= seq![digit_char(d as nat)]);
    one.to_owned()
}

/// `n` in decimal.
pub fn decimal_string(n: usize) -> (s: String)
    ensures
        s@ == decimal(n as nat),
    decreases n,
{
    if n < 10 {
        digit_string(n)
    } else {
        let mut s = decimal_string(n / 10);
        let last = digit_string(n % 10);
        s.append(last.as_str());
        assert(s@ =~= decimal(n as nat));
        s
    }
}

/// `a` followed by `b`.
pub fn concat2(a: &str, b: &str) -> (s: String)
    ensures
        s@ == a@ + b@,
{
    let mut s = a.to_owned();
    s.append(b);
    s
}

/// `a`, `b` and `c` one after the other.
pub fn concat3(a: &str, b: &str, c: &str) -> (s: String)
    ensures
        s@ == a@ + b@ + c@,
{
    let mut s = a.to_owned();
    s.append(b);
    s.append(c);
    s
}

/// The strings of `parts` one after the other.
pub fn concat_strings(parts: &Vec<String>) -> (s: String)
    ensures
        s@ == concat(views(parts@)),
{
    let mut s = String::new();
    let mut i: usize = 0;
    while i < parts.len()
        invariant
            i <= parts.len(),
            s@ == concat(views(parts@.take(i as int))),
        decreases parts.len() - i,
    {
        s.append(parts[i].as_str());
        proof {
            let p = views(parts@.take(i + 1));
            assert(p.drop_last() == views(parts@.take(i as int)));
            assert(p.last() == parts[i as int]@);
        }
        i += 1;
    }
    assert(parts@.take(i as int) == parts@);
    s
}

/// The strings of `parts` one after the other, with `sep` between neighbours.
pub fn join_strings(parts: &Vec<String>, sep: &str) -> (s: String)
    ensures
        s@ == join(views(parts@), sep@),
{
    let mut s = String::new();
    let mut i: usize = 0;
    while i < parts.len()
        invariant
            i <= parts.len(),
            s@ == join(views(parts@.take(i as int)), sep@),
        decreases parts.len() - i,
    {
        if i > 0 {
            s.append(sep);
        }
        s.append(parts[i].as_str());
        proof {
            let p = views(parts@.take(i + 1));
            assert(p.drop_last() == views(parts@.take(i as int)));
            assert(p.last() == parts[i as int]@);
            if i == 0 {
                assert(s@ =~= p[0]);
            }
        }
        i += 1;
    }
    assert(parts@.take(i as int) == parts@);
    s
}

/// `c` repeated `n` times, `c` given as a string of one character.
pub fn repeat_string(unit: &str, n: usize) -> (s: String)
    requires
        unit@.len() == 1,
    ensures
        s@ == repeat(unit@[0], n as nat),
{
    let mut s = String::new();
    let mut i: usize = 0;
    while i < n
        invariant
            i <= n,
            unit@.len() == 1,
            s@ == repeat(unit@[0], i as nat),
        decreases n - i,
    {
        s.append(unit);
        assert(s@ =~= repeat(unit@[0], (i + 1) as nat));
        i += 1;
    }
    s
}


/// Calls the standard library's collecting of characters into a `String`,
/// which holds them in their order.
#[verifier::external_body]
pub(crate) fn string_from_chars(chars: &Vec<char>) -> (s: String)
    ensures
        s@ == chars@,
{
    chars.iter().collect()
}

/// Whether `c` is white space: a character with the Unicode property
/// `White_Space`.
pub open spec fn is_space(c: char) -> bool {
    let n = c as u32;
    (0x09 <= n <= 0x0d) || n == 0x20 || n == 0x85 || n == 0xa0 || n == 0x1680 || (0x2000 <= n
        <= 0x200a) || n == 0x2028 || n == 0x2029 || n == 0x202f || n == 0x205f || n == 0x3000
}

/// Whether `c` is white space.
pub fn is_whitespace(c: char) -> (space: bool)
    ensures
        space == is_space(c),
{
    let n = c as u32;
    (0x09 <= n && n <= 0x0d) || n == 0x20 || n == 0x85 || n == 0xa0 || n == 0x1680 || (0x2000 <= n
        && n <= 0x200a) || n == 0x2028 || n == 0x2029 || n == 0x202f || n == 0x205f || n == 0x3000
}

/// The number of characters at the start of `s` that are white space, if
/// `spaces` holds, or that are not, if it does not.
pub open spec fn leading(s: Seq<char>, spaces: bool) -> nat
    decreases s.len(),
{
    if s.len() > 0 && is_space(s[0]) == spaces {
        1 + leading(s.drop_first(), spaces)
    } else {
        0
    }
}

/// `leading` is the length of the run at the start of `s`.
pub proof fn lemma_leading(s: Seq<char>, spaces: bool, n: int)
    requires
        0 <= n <= s.len(),
        forall|j: int| 0 <= j < n ==> is_space(s[j]) == spaces,
        n < s.len() ==> is_space(s[n]) != spaces,
    ensures
        leading(s, spaces) == n,
    decreases n,
{
    if n > 0 {
        let rest = s.drop_first();
        assert forall|j: int| 0 <= j < n - 1 implies is_space(rest[j]) == spaces by {
            assert(rest[j] == s[j + 1]);
        }
        if n - 1 < rest.len() {
            assert(rest[n - 1] == s[n]);
        }
        lemma_leading(rest, spaces, n - 1);
    }
}

/// The run at the start of `s` lies in `s`, holds only characters of its
/// kind, and ends at a character of the other kind.
pub proof fn lemma_leading_bound(s: Seq<char>, spaces: bool)
    ensures
        leading(s, spaces) <= s.len(),
        leading(s, spaces) < s.len() ==> is_space(s[leading(s, spaces) as int]) != spaces,
        forall|j: int| 0 <= j < leading(s, spaces) ==> is_space(#[trigger] s[j]) == spaces,
    decreases s.len(),
{
    if s.len() > 0 && is_space(s[0]) == spaces {
        let rest = s.drop_first();
        lemma_leading_bound(rest, spaces);
        assert forall|j: int| 0 <= j < leading(s, spaces) implies is_space(#[trigger] s[j])
            == spaces by {
            if j > 0 {
                assert(s[j] == rest[j - 1]);
            }
        }
        if leading(s, spaces) < s.len() {
            assert(s[leading(s, spaces) as int] == rest[leading(rest, spaces) as int]);
        }
    }
}

/// The words of `s`: its longest runs of characters that are not white
/// space, in order.
pub open spec fn words_of(s: Seq<char>) -> Seq<Seq<char>>
    decreases s.len(),
{
    let rest = s.skip(leading(s, true) as int);
    if leading(s, true) >= s.len() {
        Seq::empty()
    } else {
        let w = leading(rest, false);
        proof {
            lemma_leading_bound(s, true);
            lemma_leading_bound(rest, false);
        }
        seq![rest.take(w as int)] + words_of(rest.skip(w as int))
    }
}

/// The number of characters of `s` before its first line feed.
pub open spec fn line_len(s: Seq<char>) -> nat
    decreases s.len(),
{
    if s.len() > 0 && s[0] != '\n' {
        1 + line_len(s.drop_first())
    } else {
        0
    }
}

/// `line_len` is the position of the first line feed, or the length of
/// `s` where it has none.
pub proof fn lemma_line_len(s: Seq<char>, n: int)
    requires
        0 <= n <= s.len(),
        forall|j: int| 0 <= j < n ==> s[j] != '\n',
        n < s.len() ==> s[n] == '\n',
    ensures
        line_len(s) == n,
    decreases n,
{
    if n > 0 {
        let rest = s.drop_first();
        assert forall|j: int| 0 <= j < n - 1 implies rest[j] != '\n' by {
            assert(rest[j] == s[j + 1]);
        }
        if n - 1 < rest.len() {
            assert(rest[n - 1] == s[n]);
        }
        lemma_line_len(rest, n - 1);
    }
}

/// The first line of `s` lies in `s`.
pub proof fn lemma_line_len_bound(s: Seq<char>)
    ensures
        line_len(s) <= s.len(),
    decreases s.len(),
{
    if s.len() > 0 && s[0] != '\n' {
        lemma_line_len_bound(s.drop_first());
    }
}

/// The lines of `s`: what stands between its line feeds. A line feed at
/// the very end ends the last line and begins no new one.
pub open spec fn lines_of(s: Seq<char>) -> Seq<Seq<char>>
    decreases s.len(),
{
    if s.len() == 0 {
        Seq::empty()
    } else {
        let n = line_len(s);
        if n >= s.len() {
            seq![s]
        } else {
            seq![s.take(n as int)] + lines_of(s.skip(n as int + 1))
        }
    }
}

/// The rows of a list of lists of characters.
pub open spec fn char_rows(rows: Seq<Vec<char>>) -> Seq<Seq<char>> {
    rows.map_values(|r: Vec<char>| r@)
}

/// The lines of `text`.
pub fn split_lines(text: &Vec<char>) -> (lines: Vec<Vec<char>>)
    ensures
        char_rows(lines@) == lines_of(text@),
{
    let mut lines: Vec<Vec<char>> = Vec::new();
    let mut pos: usize = 0;
    assert(text@.skip(0) == text@);
    while pos < text.len()
        invariant
            pos <= text.len(),
            lines_of(text@) == char_rows(lines@) + lines_of(text@.skip(pos as int)),
        decreases text.len() - pos,
    {
        let ghost rest = text@.skip(pos as int);
        let mut line: Vec<char> = Vec::new();
        let mut cur = pos;
        while cur < text.len() && text[cur] != '\n'
            invariant
                pos <= cur <= text.len(),
                rest == text@.skip(pos as int),
                line@ == rest.take(cur - pos),
                forall|j: int| 0 <= j < cur - pos ==> rest[j] != '\n',
            decreases text.len() - cur,
        {
            line.push(text[cur]);
            assert(line@ == rest.take(cur + 1 - pos));
            cur += 1;
        }
        proof {
            lemma_line_len(rest, cur - pos);
            if cur < text.len() {
                assert(rest.skip(cur - pos + 1) == text@.skip(cur + 1));
            } else {
                assert(rest.take(cur - pos) == rest);
            }
        }
        let ghost before = lines@;
        lines.push(line);
        proof {
            assert(char_rows(lines@) =~= char_rows(before).push(line@));
            if cur >= text.len() {
                assert(text@.skip(text.len() as int).len() == 0);
                assert(lines_of(text@.skip(text.len() as int)) =~= Seq::empty());
            }
        }
        pos = if cur < text.len() {
            cur + 1
        } else {
            cur
        };
        assert(lines_of(text@) =~= char_rows(lines@) + lines_of(text@.skip(pos as int)));
    }
    assert(lines_of(text@.skip(pos as int)) =~= Seq::empty());
    lines
}

/// The words of `line`.
pub fn split_words(line: &Vec<char>) -> (words: Vec<Vec<char>>)
    ensures
        char_rows(words@) == words_of(line@),
{
    let mut words: Vec<Vec<char>> = Vec::new();
    let mut pos: usize = 0;
    assert(line@.skip(0) == line@);
    loop
        invariant
            pos <= line.len(),
            words_of(line@) == char_rows(words@) + words_of(line@.skip(pos as int)),
        ensures
            char_rows(words@) == words_of(line@),
        decreases line.len() - pos,
    {
        let ghost s = line@.skip(pos as int);
        let mut start = pos;
        while start < line.len() && is_whitespace(line[start])
            invariant
                pos <= start <= line.len(),
                s == line@.skip(pos as int),
                forall|j: int| 0 <= j < start - pos ==> is_space(s[j]),
            decreases line.len() - start,
        {
            start += 1;
        }
        proof {
            lemma_leading(s, true, start - pos);
            assert(s.skip(start - pos) == line@.skip(start as int));
        }
        if start >= line.len() {
            proof {
                assert(words_of(s) =~= Seq::empty());
            }
            break;
        }
        let ghost rest = line@.skip(start as int);
        let mut word: Vec<char> = Vec::new();
        let mut end = start;
        while end < line.len() && !is_whitespace(line[end])
            invariant
                start <= end <= line.len(),
                rest == line@.skip(start as int),
                word@ == rest.take(end - start),
                forall|j: int| 0 <= j < end - start ==> !is_space(rest[j]),
            decreases line.len() - end,
        {
            word.push(line[end]);
            assert(word@ == rest.take(end + 1 - start));
            end += 1;
        }
        proof {
            lemma_leading(rest, false, end - start);
            assert(end > start);
            assert(rest.skip(end - start) == line@.skip(end as int));
        }
        let ghost before = words@;
        words.push(word);
        proof {
            assert(char_rows(words@) =~= char_rows(before).push(word@));
            assert(words_of(s) =~= seq![word@] + words_of(line@.skip(end as int)));
        }
        pos = end;
    }
    words
}


/// What the standard library's `str::to_uppercase` makes of a text: its
/// upper case after the Unicode tables, which depends on the text alone.
pub uninterp spec fn uppercase_of(s: Seq<char>) -> Seq<char>;

/// What the standard library's `str::to_lowercase` makes of a text: its
/// lower case after the Unicode tables, which depends on the text alone.
pub uninterp spec fn lowercase_of(s: Seq<char>) -> Seq<char>;

/// Calls `str::to_uppercase`.
#[verifier::external_body]
pub(crate) fn to_uppercase(s: &str) -> (upper: String)
    ensures
        upper@ == uppercase_of(s@),
{
    s.to_uppercase()
}

/// Calls `str::to_lowercase`.
#[verifier::external_body]
pub(crate) fn to_lowercase(s: &str) -> (lower: String)
    ensures
        lower@ == lowercase_of(s@),
{
    s.to_lowercase()
}

/// The number of texts at the start of `keys` that `key` does not come
/// before: where `key` belongs in the sorted list `keys`, after its equals.
pub open spec fn rank_le(keys: Seq<Seq<char>>, key: Seq<char>) -> int
    decreases keys.len(),
{
    if keys.len() > 0 && !text_lt(key, keys[0]) {
        1 + rank_le(keys.drop_first(), key)
    } else {
        0
    }
}

/// `rank_le` is the position of the first text that `key` comes before.
pub proof fn lemma_rank_le(keys: Seq<Seq<char>>, key: Seq<char>, i: int)
    requires
        0 <= i <= keys.len(),
        forall|j: int| 0 <= j < i ==> !text_lt(key, keys[j]),
        i < keys.len() ==> text_lt(key, keys[i]),
    ensures
        rank_le(keys, key) == i,
    decreases i,
{
    if i > 0 {
        let rest = keys.drop_first();
        assert forall|j: int| 0 <= j < i - 1 implies !text_lt(key, rest[j]) by {
            assert(rest[j] == keys[j + 1]);
        }
        if i - 1 < rest.len() {
            assert(rest[i - 1] == keys[i]);
        }
        lemma_rank_le(rest, key, i - 1);
    }
}

/// `names` in order: each put, one after the other, where it belongs among
/// those before it.
pub open spec fn in_order(names: Seq<Seq<char>>) -> Seq<Seq<char>>
    decreases names.len(),
{
    if names.len() == 0 {
        Seq::empty()
    } else {
        let before = in_order(names.drop_last());
        before.insert(rank_le(before, names.last()), names.last())
    }
}

/// No text of `keys` comes before the one in front of it.
pub open spec fn ascending(keys: Seq<Seq<char>>) -> bool {
    forall|i: int, j: int| 0 <= i < j < keys.len() ==> !text_lt(#[trigger] keys[j], #[trigger] keys[i])
}

/// `key` comes before none of the texts in front of its place, and
/// before the text at its place.
pub proof fn lemma_rank_le_props(keys: Seq<Seq<char>>, key: Seq<char>)
    ensures
        0 <= rank_le(keys, key) <= keys.len(),
        forall|j: int| 0 <= j < rank_le(keys, key) ==> !text_lt(key, #[trigger] keys[j]),
        rank_le(keys, key) < keys.len() ==> text_lt(key, keys[rank_le(keys, key)]),
    decreases keys.len(),
{
    if keys.len() > 0 && !text_lt(key, keys[0]) {
        let rest = keys.drop_first();
        lemma_rank_le_props(rest, key);
        assert forall|j: int| 0 <= j < rank_le(keys, key) implies !text_lt(key, #[trigger] keys[j]) by {
            if j > 0 {
                assert(keys[j] == rest[j - 1]);
            }
        }
        if rank_le(keys, key) < keys.len() {
            assert(keys[rank_le(keys, key)] == rest[rank_le(rest, key)]);
        }
    }
}

/// `in_order` puts the texts in ascending order and keeps their number.
pub proof fn lemma_in_order(names: Seq<Seq<char>>)
    ensures
        ascending(in_order(names)),
        in_order(names).len() == names.len(),
    decreases names.len(),
{
    if names.len() > 0 {
        let before = in_order(names.drop_last());
        let key = names.last();
        lemma_in_order(names.drop_last());
        lemma_rank_le_props(before, key);
        let p = rank_le(before, key);
        let after = before.insert(p, key);
        assert forall|i: int, j: int| 0 <= i < j < after.len() implies !text_lt(
            #[trigger] after[j],
            #[trigger] after[i],
        ) by {
            if j == p {
                assert(after[i] == before[i]);
                assert(after[j] == key);
                assert(!text_lt(key, before[i]));
            } else if i == p {
                assert(after[i] == key);
                assert(after[j] == before[j - 1]);
                assert(text_lt(key, before[p]));
                if j - 1 > p {
                    assert(!text_lt(before[j - 1], before[p]));
                }
                if text_lt(before[j - 1], key) {
                    lemma_text_lt_transitive(before[j - 1], key, before[p]);
                    lemma_text_lt_irreflexive(before[p]);
                }
            } else {
                let i0 = if i < p { i } else { i - 1 };
                let j0 = if j < p { j } else { j - 1 };
                assert(after[i] == before[i0]);
                assert(after[j] == before[j0]);
            }
        }
    }
}


/// The extended grapheme clusters of a text, in order, as the
/// `unicode_segmentation` crate cuts them after Unicode Standard Annex 29:
/// what a reader takes for its characters. They depend on the text alone.
pub uninterp spec fn graphemes_of(s: Seq<char>) -> Seq<Seq<char>>;

/// Calls `UnicodeSegmentation::graphemes` for extended grapheme clusters
/// and collects them.
#[verifier::external_body]
pub(crate) fn graphemes(s: &str) -> (parts: Vec<String>)
    ensures
        views(parts@) == graphemes_of(s@),
{
    UnicodeSegmentation::graphemes(s, true).map(|g| g.to_owned()).collect()
}

/// The string of the one character `c`.
pub fn char_string(c: char) -> (s: String)
    ensures
        s@ == seq![c],
{
    let mut chars: Vec<char> = Vec::new();
    chars.push(c);
    let s = string_from_chars(&chars);
    assert(s@ =~= seq![c]);
    s
}

} // verus!
