//! Character-level text helpers shared by the diagnostic renderers.

use vstd::prelude::*;
use vstd::slice::slice_subrange;
use vstd::utf8::*;

verus! {

/// The number of UTF-8 bytes that encode `chars`.
pub open spec fn byte_len(chars: Seq<char>) -> nat {
    encode_utf8(chars).len()
}

/// Encoding a sequence extended by one character appends that character's bytes.
pub proof fn lemma_encode_push(chars: Seq<char>, c: char)
    ensures
        encode_utf8(chars.push(c)) == encode_utf8(chars) + encode_scalar(c as u32),
    decreases chars.len(),
{
    if chars.len() == 0 {
        assert(chars.push(c).drop_first() =~= Seq::<char>::empty());
        assert(encode_utf8(Seq::<char>::empty()) =~= Seq::<u8>::empty());
        assert(encode_scalar(c as u32) + Seq::<u8>::empty() =~= encode_scalar(c as u32));
    } else {
        lemma_encode_push(chars.drop_first(), c);
        assert(chars.push(c).drop_first() =~= chars.drop_first().push(c));
        assert(encode_utf8(chars.push(c)) =~= encode_utf8(chars) + encode_scalar(c as u32));
    }
}

/// The characters of `s`, in order.
pub fn chars_of(s: &str) -> (v: Vec<char>)
    ensures
        v@ == s@,
{
    let mut v: Vec<char> = Vec::new();
    for c in it: s.chars()
        invariant
            v@ == it.seq().take(it.index() as int),
    {
        v.push(c);
    }
    v
}


/// Append one character to a string (`String::push`).
#[verifier::external_body]
pub fn push_char(s: &mut String, c: char)
    ensures
        final(s)@ == old(s)@.push(c),
{
    s.push(c);
}

/// Append a string slice to a string.
pub fn push_str(s: &mut String, t: &str)
    ensures
        final(s)@ == old(s)@ + t@,
{
    let chars = chars_of(t);
    let ghost start = s@;
    let mut i: usize = 0;
    while i < chars.len()
        invariant
            chars@ == t@,
            i <= chars@.len(),
            s@ == start + t@.take(i as int),
        decreases chars@.len() - i,
    {
        push_char(s, chars[i]);
        assert(t@.take(i as int + 1) =~= t@.take(i as int).push(t@[i as int]));
        i = i + 1;
    }
    assert(t@.take(t@.len() as int) =~= t@);
}

/// A string holding exactly the characters of `chars`.
pub fn string_from_chars(chars: &[char]) -> (s: String)
    ensures
        s@ == chars@,
{
    let mut s = String::new();
    let mut i: usize = 0;
    while i < chars.len()
        invariant
            i <= chars@.len(),
            s@ == chars@.take(i as int),
        decreases chars@.len() - i,
    {
        push_char(&mut s, chars[i]);
        assert(chars@.take(i as int + 1) =~= chars@.take(i as int).push(chars@[i as int]));
        i = i + 1;
    }
    assert(chars@.take(chars@.len() as int) =~= chars@);
    s
}

/// The decimal digit character for `d < 10`.
pub open spec fn digit_char(d: nat) -> char {
    (48 + d) as char
}

/// The decimal representation of `n`, without leading zeros.
pub open spec fn decimal(n: nat) -> Seq<char>
    decreases n,
{
    if n < 10 {
        seq![digit_char(n)]
    } else {
        decimal(n / 10).push(digit_char(n % 10))
    }
}

/// The decimal representation of a number is one or more digits whose
/// value is that number.
pub proof fn lemma_decimal_digits(n: nat)
    ensures
        decimal(n).len() > 0,
        all_digits(decimal(n)),
        digits_value(decimal(n)) == n,
    decreases n,
{
    if n >= 10 {
        lemma_decimal_digits(n / 10);
        let d = decimal(n / 10);
        let e = d.push(digit_char(n % 10));
        assert(e.drop_last() =~= d);
        assert(e.last() == digit_char(n % 10));
        assert(((digit_char(n % 10) as u32) - 48) as nat == n % 10);
        assert forall|i: int| 0 <= i < e.len() implies is_digit(#[trigger] e[i]) by {
            if i < d.len() {
                assert(e[i] == d[i]);
            }
        }
        vstd::arithmetic::div_mod::lemma_fundamental_div_mod(n as int, 10);
        let q = n / 10;
        assert(q * 10 == 10 * q) by (nonlinear_arith);
        assert(decimal(n) == e);
        assert(digits_value(e) == digits_value(d) * 10 + ((e.last() as u32) - 48) as nat);
        assert(digits_value(e) == q * 10 + n % 10);
    } else {
        assert(((digit_char(n) as u32) - 48) as nat == n);
        assert(decimal(n).drop_last() =~= Seq::<char>::empty());
        assert(digits_value(Seq::<char>::empty()) == 0);
        assert(digits_value(decimal(n)) == digits_value(decimal(n).drop_last()) * 10 + ((decimal(n).last() as u32) - 48) as nat);
    }
}

/// The first index at or above `i` of `c` in `s` is `j` when `s` holds `c`
/// at `j` and nowhere from `i` to before `j`.
pub proof fn lemma_first_char_at(s: Seq<char>, c: char, i: int, j: int)
    requires
        0 <= i <= j < s.len(),
        s[j] == c,
        forall|k: int| i <= k < j ==> s[k] != c,
    ensures
        first_char_from(s, c, i) == Some(j),
    decreases j - i,
{
    if i < j {
        lemma_first_char_at(s, c, i + 1, j);
    }
}

/// A character that `s` does not hold from `i` on is not found from `i`.
pub proof fn lemma_first_char_none(s: Seq<char>, c: char, i: int)
    requires
        0 <= i,
        forall|k: int| i <= k < s.len() ==> s[k] != c,
    ensures
        first_char_from(s, c, i) is None,
    decreases s.len() - i,
{
    if i < s.len() {
        lemma_first_char_none(s, c, i + 1);
    }
}

/// The number of characters of `s` above U+FFFF.
pub open spec fn astral_count(s: Seq<char>) -> nat
    decreases s.len(),
{
    if s.len() == 0 {
        0
    } else {
        astral_count(s.drop_last()) + if (s.last() as u32) < 0x10000 {
            0nat
        } else {
            1nat
        }
    }
}

/// Each character takes one UTF-16 code unit, and those above U+FFFF one more.
pub proof fn lemma_utf16_len_astral(s: Seq<char>)
    ensures
        utf16_len(s) == s.len() + astral_count(s),
    decreases s.len(),
{
    if s.len() > 0 {
        lemma_utf16_len_astral(s.drop_last());
    }
}

/// Append the decimal representation of `n` to `s`.
pub fn push_decimal(s: &mut String, n: u64)
    ensures
        final(s)@ == old(s)@ + decimal(n as nat),
    decreases n,
{
    if n >= 10 {
        push_decimal(s, n / 10);
    }
    let d = (n % 10) as u32;
    let c = char_from_digit(d);
    push_char(s, c);
}

/// The character of decimal digit `d`.
fn char_from_digit(d: u32) -> (c: char)
    requires
        d < 10,
    ensures
        c == digit_char(d as nat),
{
    match d {
        0 => '0',
        1 => '1',
        2 => '2',
        3 => '3',
        4 => '4',
        5 => '5',
        6 => '6',
        7 => '7',
        8 => '8',
        _ => '9',
    }
}


/// Whether `c` has the Unicode `White_Space` property, as `char::is_whitespace` decides.
pub open spec fn is_whitespace(c: char) -> bool {
    let u = c as u32;
    ||| 0x09 <= u <= 0x0D
    ||| u == 0x20
    ||| u == 0x85
    ||| u == 0xA0
    ||| u == 0x1680
    ||| 0x2000 <= u <= 0x200A
    ||| u == 0x2028
    ||| u == 0x2029
    ||| u == 0x202F
    ||| u == 0x205F
    ||| u == 0x3000
}

/// Whether `c` is Unicode whitespace.
pub fn is_whitespace_char(c: char) -> (r: bool)
    ensures
        r == is_whitespace(c),
{
    let u = c as u32;
    (0x09 <= u && u <= 0x0D) || u == 0x20 || u == 0x85 || u == 0xA0 || u == 0x1680 || (0x2000
        <= u && u <= 0x200A) || u == 0x2028 || u == 0x2029 || u == 0x202F || u == 0x205F || u
        == 0x3000
}

/// `s` without its trailing whitespace.
pub open spec fn trim_end(s: Seq<char>) -> Seq<char>
    decreases s.len(),
{
    if s.len() > 0 && is_whitespace(s.last()) {
        trim_end(s.drop_last())
    } else {
        s
    }
}

/// `s` without its leading whitespace.
pub open spec fn trim_start(s: Seq<char>) -> Seq<char>
    decreases s.len(),
{
    if s.len() > 0 && is_whitespace(s[0]) {
        trim_start(s.drop_first())
    } else {
        s
    }
}

/// The length of `trim_end(chars)`, which is a prefix of `chars`.
pub fn trimmed_end_len(chars: &[char]) -> (n: usize)
    ensures
        n <= chars@.len(),
        chars@.take(n as int) == trim_end(chars@),
{
    let mut n = chars.len();
    assert(chars@.take(n as int) =~= chars@);
    while n > 0 && is_whitespace_char(chars[n - 1])
        invariant
            n <= chars@.len(),
            trim_end(chars@) == trim_end(chars@.take(n as int)),
        decreases n,
    {
        assert(chars@.take(n as int).drop_last() =~= chars@.take(n as int - 1));
        n = n - 1;
    }
    n
}

/// The number of leading whitespace characters of `chars`.
pub fn trimmed_start_index(chars: &[char]) -> (k: usize)
    ensures
        k <= chars@.len(),
        chars@.skip(k as int) == trim_start(chars@),
{
    let mut k: usize = 0;
    assert(chars@.skip(0) =~= chars@);
    while k < chars.len() && is_whitespace_char(chars[k])
        invariant
            k <= chars@.len(),
            trim_start(chars@) == trim_start(chars@.skip(k as int)),
        decreases chars@.len() - k,
    {
        assert(chars@.skip(k as int).drop_first() =~= chars@.skip(k as int + 1));
        k = k + 1;
    }
    k
}

/// The whitespace-separated words of `s`: its maximal runs of
/// non-whitespace characters, in order.
pub open spec fn words(s: Seq<char>) -> Seq<Seq<char>>
    decreases s.len(),
{
    if s.len() == 0 {
        Seq::empty()
    } else {
        let w = words(s.drop_last());
        let c = s.last();
        if is_whitespace(c) {
            w
        } else if s.len() > 1 && !is_whitespace(s[s.len() - 2]) {
            w.update(w.len() - 1, w.last().push(c))
        } else {
            w.push(seq![c])
        }
    }
}

/// A word ends exactly where `s` stops being inside a run of non-whitespace.
proof fn lemma_words_nonempty(s: Seq<char>)
    requires
        s.len() > 0,
        !is_whitespace(s.last()),
    ensures
        words(s).len() > 0,
    decreases s.len(),
{
    if s.len() > 1 && !is_whitespace(s[s.len() - 2]) {
        assert(s.drop_last().last() == s[s.len() - 2]);
        lemma_words_nonempty(s.drop_last());
    }
}

/// The words of `parts` joined by single spaces.
pub open spec fn join_words(parts: Seq<Seq<char>>) -> Seq<char>
    decreases parts.len(),
{
    if parts.len() == 0 {
        Seq::empty()
    } else if parts.len() == 1 {
        parts[0]
    } else {
        join_words(parts.drop_last()) + seq![' '] + parts.last()
    }
}

/// The characters of `s` with its words joined by single spaces.
pub open spec fn normalized_whitespace(s: Seq<char>) -> Seq<char> {
    join_words(words(s))
}

/// Collapse every whitespace run of `text` to a single space and drop
/// leading and trailing whitespace.
pub fn collapse_whitespace(text: &str) -> (r: String)
    ensures
        r@ == normalized_whitespace(text@),
{
    let chars = chars_of(text);
    let ghost s = chars@;
    let mut out: Vec<char> = Vec::new();
    let mut in_word = false;
    let mut any_word = false;
    let mut i: usize = 0;
    assert(s.take(0) =~= Seq::<char>::empty());
    while i < chars.len()
        invariant
            chars@ == s,
            i <= s.len(),
            out@ == join_words(words(s.take(i as int))),
            in_word == (i > 0 && !is_whitespace(s[i - 1])),
            in_word ==> words(s.take(i as int)).len() > 0,
            any_word == (words(s.take(i as int)).len() > 0),
        decreases s.len() - i,
    {
        let c = chars[i];
        let ghost t = s.take(i as int + 1);
        assert(t.drop_last() =~= s.take(i as int));
        assert(t.last() == c);
        if is_whitespace_char(c) {
            in_word = false;
        } else {
            let ghost w = words(s.take(i as int));
            if in_word {
                assert(t[t.len() - 2] == s[i - 1]);
                out.push(c);
                proof {
                    let w2 = w.update(w.len() - 1, w.last().push(c));
                    assert(words(t) == w2);
                    lemma_join_extend_last(w, c);
                }
            } else {
                if i > 0 {
                    assert(t[t.len() - 2] == s[i - 1]);
                }
                if any_word {
                    out.push(' ');
                }
                out.push(c);
                proof {
                    assert(words(t) == w.push(seq![c]));
                    if w.len() > 0 {
                        assert(w.push(seq![c]).drop_last() =~= w);
                        assert(out@ =~= join_words(w) + seq![' '] + seq![c]);
                    } else {
                        assert(out@ =~= seq![c]);
                    }
                }
            }
            in_word = true;
            any_word = true;
            proof {
                lemma_words_nonempty(t);
            }
        }
        i = i + 1;
    }
    assert(s.take(s.len() as int) =~= s);
    string_from_chars(out.as_slice())
}

/// Appending a character to the last word appends it to the joined text.
proof fn lemma_join_extend_last(w: Seq<Seq<char>>, c: char)
    requires
        w.len() > 0,
    ensures
        join_words(w.update(w.len() - 1, w.last().push(c))) == join_words(w).push(c),
{
    let u = w.update(w.len() - 1, w.last().push(c));
    if w.len() == 1 {
        assert(u[0] == w[0].push(c));
    } else {
        assert(u.drop_last() =~= w.drop_last());
        assert(u.last() == w.last().push(c));
        assert(join_words(u) =~= join_words(w).push(c));
    }
}


/// The number of UTF-8 bytes that encode `c`.
pub open spec fn char_width(c: char) -> nat {
    encode_scalar(c as u32).len()
}

/// The number of UTF-8 bytes of `c`.
pub fn utf8_width(c: char) -> (r: usize)
    ensures
        r == char_width(c),
        1 <= r <= 4,
{
    proof {
        char_is_scalar(c);
    }
    let u = c as u32;
    if u < 0x80 {
        1
    } else if u < 0x800 {
        2
    } else if u < 0x10000 {
        3
    } else {
        4
    }
}

/// The byte length of a sequence is its first character's width plus the rest.
pub proof fn lemma_byte_len_first(cs: Seq<char>)
    requires
        cs.len() > 0,
    ensures
        byte_len(cs) == char_width(cs[0]) + byte_len(cs.drop_first()),
{
}

/// Every character takes at least one byte.
pub proof fn lemma_byte_len_at_least_len(cs: Seq<char>)
    ensures
        cs.len() <= byte_len(cs),
    decreases cs.len(),
{
    if cs.len() > 0 {
        char_is_scalar(cs[0]);
        lemma_byte_len_at_least_len(cs.drop_first());
    }
}

/// The number of leading characters of `cs` whose whole encoding lies
/// within the first `budget` bytes.
pub open spec fn fit_chars(cs: Seq<char>, budget: int) -> nat
    decreases cs.len(),
{
    if cs.len() == 0 || char_width(cs[0]) > budget {
        0
    } else {
        1 + fit_chars(cs.drop_first(), budget - char_width(cs[0]))
    }
}

/// The number of leading characters of `chars` that end at or before byte
/// `offset` (the character boundary at or below `offset`, counted in
/// characters), together with that boundary's byte offset.
pub fn floor_char_count(chars: &[char], offset: u64) -> (r: (usize, u64))
    ensures
        r.0 == fit_chars(chars@, offset as int),
        r.0 <= chars@.len(),
        r.1 == byte_len(chars@.take(r.0 as int)),
        r.1 <= offset,
{
    let ghost cs = chars@;
    let mut i: usize = 0;
    let mut used: u64 = 0;
    assert(cs.skip(0) =~= cs);
    assert(cs.take(0) =~= Seq::<char>::empty());
    while i < chars.len() && utf8_width(chars[i]) as u64 <= offset - used
        invariant
            chars@ == cs,
            i <= cs.len(),
            used <= offset,
            used == byte_len(cs.take(i as int)),
            fit_chars(cs, offset as int) == i + fit_chars(cs.skip(i as int), offset - used),
        decreases cs.len() - i,
    {
        let w = utf8_width(chars[i]);
        assert(cs.skip(i as int)[0] == cs[i as int]);
        assert(cs.skip(i as int).drop_first() =~= cs.skip(i as int + 1));
        proof {
            assert(cs.take(i as int + 1) =~= cs.take(i as int) + seq![cs[i as int]]);
            lemma_byte_len_concat(cs.take(i as int), seq![cs[i as int]]);
            lemma_byte_len_first(seq![cs[i as int]]);
            assert(seq![cs[i as int]].drop_first() =~= Seq::<char>::empty());
        }
        used = used + w as u64;
        i = i + 1;
    }
    if i < chars.len() {
        assert(cs.skip(i as int)[0] == cs[i as int]);
    }
    (i, used)
}

/// The number of line feeds in `s`.
pub open spec fn count_newlines(s: Seq<char>) -> nat
    decreases s.len(),
{
    if s.len() == 0 {
        0
    } else {
        count_newlines(s.drop_last()) + if s.last() == '\n' {
            1nat
        } else {
            0nat
        }
    }
}

/// The part of `s` after its last line feed (all of `s` if it has none).
pub open spec fn last_line(s: Seq<char>) -> Seq<char>
    decreases s.len(),
{
    if s.len() == 0 {
        s
    } else if s.last() == '\n' {
        Seq::empty()
    } else {
        last_line(s.drop_last()).push(s.last())
    }
}

/// The number of UTF-16 code units that encode `c`.
pub open spec fn utf16_width(c: char) -> nat {
    if (c as u32) < 0x10000 {
        1
    } else {
        2
    }
}

/// The number of UTF-16 code units that encode `s`.
pub open spec fn utf16_len(s: Seq<char>) -> nat
    decreases s.len(),
{
    if s.len() == 0 {
        0
    } else {
        utf16_len(s.drop_last()) + utf16_width(s.last())
    }
}

/// The last line never has more characters than the whole text.
pub proof fn lemma_last_line_len(s: Seq<char>)
    ensures
        last_line(s).len() <= s.len(),
        count_newlines(s) <= s.len(),
        utf16_len(last_line(s)) <= utf16_len(s),
        utf16_len(s) <= byte_len(s),
    decreases s.len(),
{
    if s.len() > 0 {
        lemma_last_line_len(s.drop_last());
        if s.last() != '\n' {
            let l = last_line(s.drop_last());
            assert(l.push(s.last()).drop_last() =~= l);
        }
        lemma_byte_len_concat(s.drop_last(), seq![s.last()]);
        assert(s.drop_last() + seq![s.last()] =~= s);
        lemma_byte_len_first(seq![s.last()]);
        assert(seq![s.last()].drop_first() =~= Seq::<char>::empty());
        char_is_scalar(s.last());
    }
}

/// The byte length of a concatenation is the sum of the byte lengths.
pub proof fn lemma_byte_len_concat(a: Seq<char>, b: Seq<char>)
    ensures
        byte_len(a + b) == byte_len(a) + byte_len(b),
        encode_utf8(a + b) == encode_utf8(a) + encode_utf8(b),
    decreases a.len(),
{
    if a.len() == 0 {
        assert(a + b =~= b);
        assert(encode_utf8(a) + encode_utf8(b) =~= encode_utf8(b));
    } else {
        lemma_byte_len_concat(a.drop_first(), b);
        assert((a + b).drop_first() =~= a.drop_first() + b);
        assert((a + b)[0] == a[0]);
        assert(encode_utf8(a + b) =~= encode_utf8(a) + encode_utf8(b));
    }
}

/// A prefix takes no more bytes than the whole.
pub proof fn lemma_byte_len_prefix(s: Seq<char>, k: int)
    requires
        0 <= k <= s.len(),
    ensures
        byte_len(s.take(k)) <= byte_len(s),
{
    lemma_byte_len_concat(s.take(k), s.skip(k));
    assert(s.take(k) + s.skip(k) =~= s);
}

/// Line and column of the end of the first `k` characters of `chars`: the
/// number of line feeds, and the number of characters after the last line
/// feed measured both in characters and in UTF-16 code units.
pub fn line_position(chars: &[char], k: usize) -> (r: (usize, usize, usize))
    requires
        k <= chars@.len(),
        byte_len(chars@) <= usize::MAX,
    ensures
        r.0 == count_newlines(chars@.take(k as int)),
        r.1 == last_line(chars@.take(k as int)).len(),
        r.2 == utf16_len(last_line(chars@.take(k as int))),
{
    let ghost cs = chars@;
    let mut lines: usize = 0;
    let mut column: usize = 0;
    let mut units: usize = 0;
    let mut i: usize = 0;
    assert(cs.take(0) =~= Seq::<char>::empty());
    while i < k
        invariant
            chars@ == cs,
            k <= cs.len(),
            i <= k,
            lines == count_newlines(cs.take(i as int)),
            column == last_line(cs.take(i as int)).len(),
            units == utf16_len(last_line(cs.take(i as int))),
            byte_len(cs) <= usize::MAX,
        decreases k - i,
    {
        let c = chars[i];
        let ghost t = cs.take(i as int + 1);
        proof {
            lemma_last_line_len(cs.take(i as int));
            lemma_last_line_len(t);
            lemma_byte_len_prefix(cs, i as int + 1);
            lemma_byte_len_at_least_len(cs);
        }
        assert(t.drop_last() =~= cs.take(i as int));
        assert(t.last() == c);
        if c == '\n' {
            lines = lines + 1;
            column = 0;
            units = 0;
        } else {
            column = column + 1;
            if (c as u32) < 0x10000 {
                units = units + 1;
            } else {
                units = units + 2;
            }
            proof {
                let l = last_line(cs.take(i as int));
                assert(last_line(t) == l.push(c));
                assert(l.push(c).drop_last() =~= l);
            }
        }
        i = i + 1;
    }
    (lines, column, units)
}


/// Whether two character slices are equal.
pub fn chars_equal(a: &[char], b: &[char]) -> (r: bool)
    ensures
        r == (a@ == b@),
{
    if a.len() != b.len() {
        return false;
    }
    let mut i: usize = 0;
    while i < a.len()
        invariant
            a@.len() == b@.len(),
            i <= a@.len(),
            forall|k: int| 0 <= k < i ==> a@[k] == b@[k],
        decreases a@.len() - i,
    {
        if a[i] != b[i] {
            return false;
        }
        i = i + 1;
    }
    assert(a@ =~= b@);
    true
}

/// Whether two string slices hold the same characters.
pub fn str_equal(a: &str, b: &str) -> (r: bool)
    ensures
        r == (a@ == b@),
{
    let x = chars_of(a);
    let y = chars_of(b);
    chars_equal(x.as_slice(), y.as_slice())
}

/// The view of a list of character lists.
pub open spec fn words_view(v: Seq<Vec<char>>) -> Seq<Seq<char>> {
    v.map_values(|w: Vec<char>| w@)
}

/// The whitespace-separated words of `chars`.
pub fn word_list(chars: &[char]) -> (r: Vec<Vec<char>>)
    ensures
        words_view(r@) == words(chars@),
{
    let ghost s = chars@;
    let mut out: Vec<Vec<char>> = Vec::new();
    let mut current: Vec<char> = Vec::new();
    let mut in_word = false;
    let mut i: usize = 0;
    assert(s.take(0) =~= Seq::<char>::empty());
    assert(words_view(out@) =~= Seq::<Seq<char>>::empty());
    while i < chars.len()
        invariant
            chars@ == s,
            i <= s.len(),
            in_word == (i > 0 && !is_whitespace(s[i - 1])),
            in_word ==> words(s.take(i as int)).len() > 0,
            in_word ==> words_view(out@).push(current@) == words(s.take(i as int)),
            !in_word ==> words_view(out@) == words(s.take(i as int)),
        decreases s.len() - i,
    {
        let c = chars[i];
        let ghost t = s.take(i as int + 1);
        let ghost w = words(s.take(i as int));
        assert(t.drop_last() =~= s.take(i as int));
        assert(t.last() == c);
        if is_whitespace_char(c) {
            if in_word {
                let finished = current;
                current = Vec::new();
                out.push(finished);
                assert(words_view(out@) =~= w);
            }
            in_word = false;
        } else {
            if in_word {
                assert(t[t.len() - 2] == s[i - 1]);
                let ghost before = current@;
                current.push(c);
                assert(words_view(out@).push(current@) =~= w.update(
                    w.len() - 1,
                    w.last().push(c),
                ));
            } else {
                if i > 0 {
                    assert(t[t.len() - 2] == s[i - 1]);
                }
                current = Vec::new();
                current.push(c);
                assert(current@ =~= seq![c]);
            }
            in_word = true;
            proof {
                lemma_words_nonempty(t);
            }
        }
        i = i + 1;
    }
    assert(s.take(s.len() as int) =~= s);
    if in_word {
        out.push(current);
        assert(words_view(out@) =~= words(s));
    }
    out
}

/// Whether `c` ends a line for `rsplit_once(['\n', '\r'])`.
pub open spec fn is_line_break(c: char) -> bool {
    c == '\n' || c == '\r'
}

/// The part of `s` after its last line feed or carriage return (all of `s`
/// if it has neither).
pub open spec fn after_last_break(s: Seq<char>) -> Seq<char>
    decreases s.len(),
{
    if s.len() == 0 {
        s
    } else if is_line_break(s.last()) {
        Seq::empty()
    } else {
        after_last_break(s.drop_last()).push(s.last())
    }
}

/// The index just after the last line feed or carriage return among the
/// first `n` characters (0 if there is none).
pub fn after_last_break_index(chars: &[char], n: usize) -> (k: usize)
    requires
        n <= chars@.len(),
    ensures
        k <= n,
        chars@.subrange(k as int, n as int) == after_last_break(chars@.take(n as int)),
{
    let ghost s = chars@;
    let mut k = n;
    assert(s.subrange(n as int, n as int) =~= Seq::<char>::empty());
    while k > 0 && !(chars[k - 1] == '\n' || chars[k - 1] == '\r')
        invariant
            chars@ == s,
            k <= n <= s.len(),
            forall|j: int| k <= j < n ==> !is_line_break(#[trigger] s[j]),
        decreases k,
    {
        k = k - 1;
    }
    proof {
        lemma_after_last_break_suffix(s.take(n as int), k as int);
    }
    k
}

/// With a break right before `k` (or `k == 0`) and none from `k` on, the part
/// after the last break is the part from `k`.
proof fn lemma_after_last_break_suffix(s: Seq<char>, k: int)
    requires
        0 <= k <= s.len(),
        k == 0 || is_line_break(s[k - 1]),
        forall|j: int| k <= j < s.len() ==> !is_line_break(#[trigger] s[j]),
    ensures
        s.subrange(k, s.len() as int) == after_last_break(s),
    decreases s.len(),
{
    if s.len() == k {
        if k > 0 {
            assert(s.last() == s[k - 1]);
        }
        assert(s.subrange(k, s.len() as int) =~= Seq::<char>::empty());
    } else {
        let d = s.drop_last();
        assert forall|j: int| k <= j < d.len() implies !is_line_break(#[trigger] d[j]) by {
            assert(d[j] == s[j]);
        }
        if k > 0 {
            assert(d[k - 1] == s[k - 1]);
        }
        lemma_after_last_break_suffix(d, k);
        assert(!is_line_break(s[s.len() - 1]));
        assert(s.subrange(k, s.len() as int) =~= d.subrange(k, d.len() as int).push(s.last()));
    }
}

/// At a character boundary, the characters that fit are exactly those before it.
pub proof fn lemma_fit_chars_boundary(cs: Seq<char>, n: int)
    requires
        0 <= n <= cs.len(),
    ensures
        fit_chars(cs, byte_len(cs.take(n)) as int) == n,
    decreases n,
{
    if n == 0 {
        assert(cs.take(0) =~= Seq::<char>::empty());
        if cs.len() > 0 {
            char_is_scalar(cs[0]);
        }
    } else {
        let d = cs.drop_first();
        assert(cs.take(n) =~= seq![cs[0]] + d.take(n - 1));
        lemma_byte_len_concat(seq![cs[0]], d.take(n - 1));
        lemma_byte_len_first(seq![cs[0]]);
        assert(seq![cs[0]].drop_first() =~= Seq::<char>::empty());
        lemma_fit_chars_boundary(d, n - 1);
    }
}

/// The number of UTF-8 bytes of `s`.
pub fn str_byte_len(s: &str) -> (r: usize)
    ensures
        r == byte_len(s@),
{
    let bytes = s.as_bytes();
    bytes.len()
}


/// Whether `m` occurs in `s` starting at index `i`.
pub open spec fn occurs_at(s: Seq<char>, m: Seq<char>, i: int) -> bool {
    0 <= i && i + m.len() <= s.len() && s.subrange(i, i + m.len()) == m
}

/// The last index at or below `i` at which `m` occurs in `s`.
pub open spec fn last_occurrence_from(s: Seq<char>, m: Seq<char>, i: int) -> Option<int>
    decreases i + 1,
{
    if i < 0 {
        None
    } else if occurs_at(s, m, i) {
        Some(i)
    } else {
        last_occurrence_from(s, m, i - 1)
    }
}

/// The last index at which `m` occurs in `s` (as `str::rfind` finds it).
pub open spec fn last_occurrence(s: Seq<char>, m: Seq<char>) -> Option<int> {
    last_occurrence_from(s, m, s.len() - m.len())
}

/// A found occurrence lies within `s`.
pub proof fn lemma_last_occurrence_bounds(s: Seq<char>, m: Seq<char>)
    ensures
        last_occurrence(s, m) matches Some(i) ==> 0 <= i && i + m.len() <= s.len(),
{
    lemma_last_occurrence_from_bounds(s, m, s.len() - m.len());
}

proof fn lemma_last_occurrence_from_bounds(s: Seq<char>, m: Seq<char>, i: int)
    ensures
        last_occurrence_from(s, m, i) matches Some(j) ==> 0 <= j && j + m.len() <= s.len(),
    decreases i + 1,
{
    if i >= 0 && !occurs_at(s, m, i) {
        lemma_last_occurrence_from_bounds(s, m, i - 1);
    }
}

/// The first index at or above `i` at which `c` occurs in `s`.
pub open spec fn first_char_from(s: Seq<char>, c: char, i: int) -> Option<int>
    decreases s.len() - i,
{
    if i < 0 || i >= s.len() {
        None
    } else if s[i] == c {
        Some(i)
    } else {
        first_char_from(s, c, i + 1)
    }
}

/// Whether `m` occurs in `chars` at index `i`.
pub fn occurs_at_exec(chars: &[char], m: &[char], i: usize) -> (r: bool)
    ensures
        r == occurs_at(chars@, m@, i as int),
{
    if i > chars.len() || m.len() > chars.len() - i {
        return false;
    }
    let part = slice_subrange(chars, i, i + m.len());
    chars_equal(part, m)
}

/// The last index at which `m` occurs in `chars`.
pub fn rfind_chars(chars: &[char], m: &[char]) -> (r: Option<usize>)
    ensures
        match r {
            Some(i) => last_occurrence(chars@, m@) == Some(i as int),
            None => last_occurrence(chars@, m@) is None,
        },
{
    if m.len() > chars.len() {
        assert(last_occurrence(chars@, m@) is None);
        return None;
    }
    let mut i = chars.len() - m.len();
    loop
        invariant
            i <= chars@.len() - m@.len(),
            m@.len() <= chars@.len(),
            last_occurrence(chars@, m@) == last_occurrence_from(chars@, m@, i as int),
        decreases i,
    {
        if occurs_at_exec(chars, m, i) {
            return Some(i);
        }
        if i == 0 {
            assert(last_occurrence_from(chars@, m@, -1) is None);
            return None;
        }
        i = i - 1;
    }
}

/// The first index at which `c` occurs in `chars`.
pub fn find_char(chars: &[char], c: char) -> (r: Option<usize>)
    ensures
        match r {
            Some(i) => first_char_from(chars@, c, 0) == Some(i as int) && i < chars@.len()
                && chars@[i as int] == c,
            None => first_char_from(chars@, c, 0) is None,
        },
{
    let mut i: usize = 0;
    while i < chars.len()
        invariant
            i <= chars@.len(),
            first_char_from(chars@, c, 0) == first_char_from(chars@, c, i as int),
        decreases chars@.len() - i,
    {
        if chars[i] == c {
            return Some(i);
        }
        i = i + 1;
    }
    None
}

/// A line of `str::lines` output: its line feed removed, and then a
/// carriage return before it.
pub open spec fn strip_cr(l: Seq<char>) -> Seq<char> {
    if l.len() > 0 && l.last() == '\r' {
        l.drop_last()
    } else {
        l
    }
}

/// The lines of `s` that are complete (ended by a line feed), and the
/// unfinished rest.
pub open spec fn line_pieces(s: Seq<char>) -> (Seq<Seq<char>>, Seq<char>)
    decreases s.len(),
{
    if s.len() == 0 {
        (Seq::empty(), Seq::empty())
    } else {
        let (done, current) = line_pieces(s.drop_last());
        if s.last() == '\n' {
            (done.push(strip_cr(current)), Seq::empty())
        } else {
            (done, current.push(s.last()))
        }
    }
}

/// The lines of `s` as `str::lines` yields them: split at line feeds, a
/// carriage return before a line feed dropped, and no empty line after a
/// final line feed.
pub open spec fn text_lines(s: Seq<char>) -> Seq<Seq<char>> {
    let (done, current) = line_pieces(s);
    if current.len() > 0 {
        done.push(current)
    } else {
        done
    }
}

/// The lines of `chars`.
pub fn split_lines(chars: &[char]) -> (r: Vec<Vec<char>>)
    ensures
        words_view(r@) == text_lines(chars@),
{
    let ghost s = chars@;
    let mut out: Vec<Vec<char>> = Vec::new();
    let mut current: Vec<char> = Vec::new();
    let mut i: usize = 0;
    assert(s.take(0) =~= Seq::<char>::empty());
    assert(words_view(out@) =~= Seq::<Seq<char>>::empty());
    assert(current@ =~= Seq::<char>::empty());
    while i < chars.len()
        invariant
            chars@ == s,
            i <= s.len(),
            words_view(out@) == line_pieces(s.take(i as int)).0,
            current@ == line_pieces(s.take(i as int)).1,
        decreases s.len() - i,
    {
        let c = chars[i];
        let ghost t = s.take(i as int + 1);
        assert(t.drop_last() =~= s.take(i as int));
        assert(t.last() == c);
        if c == '\n' {
            let mut line = current;
            current = Vec::new();
            let n = line.len();
            if n > 0 && line[n - 1] == '\r' {
                line.pop();
                assert(line@ =~= strip_cr(line_pieces(s.take(i as int)).1));
            }
            let ghost before = words_view(out@);
            out.push(line);
            assert(words_view(out@) =~= before.push(line@));
            assert(current@ =~= Seq::<char>::empty());
        } else {
            current.push(c);
        }
        i = i + 1;
    }
    assert(s.take(s.len() as int) =~= s);
    if current.len() > 0 {
        let ghost before = words_view(out@);
        out.push(current);
        assert(words_view(out@) =~= before.push(line_pieces(s).1));
    }
    out
}

/// Whether `c` is an ASCII decimal digit.
pub open spec fn is_digit(c: char) -> bool {
    '0' <= c && c <= '9'
}

/// Whether every character of `s` is an ASCII decimal digit.
pub open spec fn all_digits(s: Seq<char>) -> bool {
    forall|i: int| 0 <= i < s.len() ==> is_digit(#[trigger] s[i])
}

/// Whether every character of `chars` is an ASCII decimal digit.
pub fn all_digits_exec(chars: &[char]) -> (r: bool)
    ensures
        r == all_digits(chars@),
{
    let mut k: usize = 0;
    while k < chars.len()
        invariant
            k <= chars@.len(),
            forall|j: int| 0 <= j < k ==> is_digit(#[trigger] chars@[j]),
        decreases chars@.len() - k,
    {
        if !('0' <= chars[k] && chars[k] <= '9') {
            assert(!is_digit(chars@[k as int]));
            return false;
        }
        k = k + 1;
    }
    true
}

/// The value of a string of decimal digits.
pub open spec fn digits_value(s: Seq<char>) -> nat
    decreases s.len(),
{
    if s.len() == 0 {
        0
    } else {
        digits_value(s.drop_last()) * 10 + ((s.last() as u32) - 48) as nat
    }
}

/// What `usize::from_str` accepts: an optional `+`, then one or more
/// decimal digits whose value fits a `usize`.
pub open spec fn parsed_usize(s: Seq<char>) -> Option<usize> {
    let digits = if s.len() > 0 && s[0] == '+' {
        s.drop_first()
    } else {
        s
    };
    if digits.len() == 0 || !all_digits(digits) || digits_value(digits) > usize::MAX {
        None
    } else {
        Some(digits_value(digits) as usize)
    }
}

/// Parse a decimal `usize` as `usize::from_str` does.
pub fn parse_usize(chars: &[char]) -> (r: Option<usize>)
    ensures
        r == parsed_usize(chars@),
{
    let start: usize = if chars.len() > 0 && chars[0] == '+' {
        1
    } else {
        0
    };
    let digits = slice_subrange(chars, start, chars.len());
    assert(start == 1 ==> digits@ =~= chars@.drop_first());
    assert(start == 0 ==> digits@ =~= chars@);
    if digits.len() == 0 {
        return None;
    }
    let mut value: usize = 0;
    let mut i: usize = 0;
    assert(digits@.take(0) =~= Seq::<char>::empty());
    while i < digits.len()
        invariant
            i <= digits@.len(),
            digits@ == (if chars@.len() > 0 && chars@[0] == '+' {
                chars@.drop_first()
            } else {
                chars@
            }),
            digits@.len() > 0,
            all_digits(digits@.take(i as int)),
            value == digits_value(digits@.take(i as int)),
        decreases digits@.len() - i,
    {
        let c = digits[i];
        let ghost t = digits@.take(i as int + 1);
        assert(t.drop_last() =~= digits@.take(i as int));
        assert(t.last() == c);
        if !('0' <= c && c <= '9') {
            assert(!all_digits(digits@)) by {
                assert(!is_digit(digits@[i as int]));
            }
            assert(parsed_usize(chars@) is None);
            return None;
        }
        let d = (c as u32 - 48) as usize;
        match value.checked_mul(10) {
            Some(tens) => match tens.checked_add(d) {
                Some(next) => {
                    value = next;
                },
                None => {
                    proof {
                        if all_digits(digits@) {
                            lemma_digits_value_prefix(digits@, i as int + 1);
                        }
                    }
                    return None;
                },
            },
            None => {
                proof {
                    if all_digits(digits@) {
                        lemma_digits_value_prefix(digits@, i as int + 1);
                        assert(digits_value(t) >= value * 10) by (nonlinear_arith)
                            requires
                                digits_value(t) == digits_value(digits@.take(i as int)) * 10 + (
                                (c as u32) - 48) as nat,
                                value == digits_value(digits@.take(i as int)),
                        ;
                    }
                }
                return None;
            },
        }
        i = i + 1;
    }
    assert(digits@.take(digits@.len() as int) =~= digits@);
    Some(value)
}

/// A longer run of digits is worth at least as much as its prefix.
proof fn lemma_digits_value_prefix(s: Seq<char>, n: int)
    requires
        0 <= n <= s.len(),
        all_digits(s),
    ensures
        digits_value(s.take(n)) <= digits_value(s),
    decreases s.len() - n,
{
    if n < s.len() {
        lemma_digits_value_prefix(s, n + 1);
        let t = s.take(n + 1);
        assert(t.drop_last() =~= s.take(n));
        assert(is_digit(s[n]));
        assert(t.last() == s[n]);
    } else {
        assert(s.take(n) =~= s);
    }
}

/// Lexicographic order of characters by code point (the order of
/// `String`'s `Ord`, since UTF-8 preserves code point order).
pub open spec fn chars_lt(a: Seq<char>, b: Seq<char>) -> bool
    decreases a.len(),
{
    if a.len() == 0 {
        b.len() > 0
    } else if b.len() == 0 {
        false
    } else if a[0] != b[0] {
        (a[0] as u32) < (b[0] as u32)
    } else {
        chars_lt(a.drop_first(), b.drop_first())
    }
}

/// `chars_lt` is a strict total order.
pub proof fn lemma_chars_lt_order(a: Seq<char>, b: Seq<char>, c: Seq<char>)
    ensures
        !chars_lt(a, a),
        chars_lt(a, b) ==> !chars_lt(b, a),
        a != b ==> chars_lt(a, b) || chars_lt(b, a),
        chars_lt(a, b) && chars_lt(b, c) ==> chars_lt(a, c),
    decreases a.len(),
{
    if a.len() > 0 {
        assert(a =~= seq![a[0]] + a.drop_first());
        char_u32_cast(a[0], a[0] as u32);
    }
    if b.len() > 0 {
        assert(b =~= seq![b[0]] + b.drop_first());
        char_u32_cast(b[0], b[0] as u32);
    }
    if c.len() > 0 {
        char_u32_cast(c[0], c[0] as u32);
    }
    if a.len() > 0 && b.len() > 0 && c.len() > 0 {
        lemma_chars_lt_order(a.drop_first(), b.drop_first(), c.drop_first());
    } else if a.len() > 0 && b.len() > 0 {
        lemma_chars_lt_order(a.drop_first(), b.drop_first(), c);
    } else if a.len() > 0 {
        lemma_chars_lt_order(a.drop_first(), b, c);
    } else if b.len() == 0 {
        assert(a =~= b);
    }
}

/// Compare two character slices in `chars_lt` order: `-1`, `0` or `1`.
pub fn compare_chars(a: &[char], b: &[char]) -> (r: i8)
    ensures
        r == -1 <==> chars_lt(a@, b@),
        r == 0 <==> a@ == b@,
        r == 1 <==> chars_lt(b@, a@),
        r == -1 || r == 0 || r == 1,
{
    proof {
        lemma_chars_lt_order(a@, b@, b@);
    }
    let mut i: usize = 0;
    assert(a@.skip(0) =~= a@);
    assert(b@.skip(0) =~= b@);
    while i < a.len() && i < b.len()
        invariant
            i <= a@.len(),
            i <= b@.len(),
            a@.take(i as int) == b@.take(i as int),
            chars_lt(a@, b@) == chars_lt(a@.skip(i as int), b@.skip(i as int)),
            chars_lt(b@, a@) == chars_lt(b@.skip(i as int), a@.skip(i as int)),
        decreases a@.len() - i,
    {
        assert(a@.skip(i as int)[0] == a@[i as int]);
        assert(b@.skip(i as int)[0] == b@[i as int]);
        if a[i] != b[i] {
            assert(a@ != b@) by {
                assert(a@[i as int] != b@[i as int]);
            }
            proof {
                char_u32_cast(a@[i as int], a@[i as int] as u32);
                char_u32_cast(b@[i as int], b@[i as int] as u32);
            }
            if (a[i] as u32) < (b[i] as u32) {
                return -1;
            } else {
                return 1;
            }
        }
        assert(a@.skip(i as int).drop_first() =~= a@.skip(i as int + 1));
        assert(b@.skip(i as int).drop_first() =~= b@.skip(i as int + 1));
        assert(a@.take(i as int + 1) =~= a@.take(i as int).push(a@[i as int]));
        assert(b@.take(i as int + 1) =~= b@.take(i as int).push(b@[i as int]));
        i = i + 1;
    }
    if i < b.len() {
        assert(a@ != b@) by {
            assert(a@.len() != b@.len());
        }
        -1
    } else if i < a.len() {
        assert(a@ != b@) by {
            assert(a@.len() != b@.len());
        }
        1
    } else {
        assert(a@ =~= a@.take(i as int));
        assert(b@ =~= b@.take(i as int));
        0
    }
}

} // verus!
