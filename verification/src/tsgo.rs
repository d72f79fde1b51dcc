//! Comparable diagnostics: the common form in which this checker's
//! diagnostics and TypeScript-Go's command-line output are compared.

use vstd::prelude::*;
use vstd::slice::slice_subrange;
use vstd::utf8::{decode_utf8, valid_utf8};

use crate::diagnostic::{diagnostics_view, line_and_column_of, Diagnostic, DiagnosticView};

use crate::text::{
    all_digits, byte_len, chars_lt, chars_of, collapse_whitespace, count_newlines, find_char,
    first_char_from, last_line, last_occurrence, lemma_byte_len_at_least_len,
    lemma_byte_len_prefix, lemma_last_line_len, line_position, floor_char_count,
    fit_chars, normalized_whitespace, occurs_at, occurs_at_exec, parse_usize, parsed_usize,
    push_str, rfind_chars, string_from_chars, trim_start, trimmed_start_index, utf16_len,
};

verus! {

/// The mathematical value of a [`ComparableDiagnostic`].
pub struct ComparableView {
    pub code: Seq<char>,
    pub location: Option<(usize, usize)>,
    pub message: Seq<char>,
}

/// A diagnostic reduced to what both checkers report alike: the code, the
/// 1-based line and UTF-16 column, and the message with its whitespace
/// collapsed.
#[derive(Clone, Debug, PartialEq, Eq, PartialOrd, Ord)]
pub struct ComparableDiagnostic {
    pub code: String,
    pub location: Option<(usize, usize)>,
    pub message: String,
}

impl View for ComparableDiagnostic {
    type V = ComparableView;

    open spec fn view(&self) -> ComparableView {
        ComparableView { code: self.code@, location: self.location, message: self.message@ }
    }
}

/// The views of a list of comparable diagnostics.
pub open spec fn comparable_view(v: Seq<ComparableDiagnostic>) -> Seq<ComparableView> {
    v.map_values(|d: ComparableDiagnostic| d@)
}

/// Collapse the whitespace of a diagnostic message to single spaces.
pub fn normalize_message(message: &str) -> (r: String)
    ensures
        r@ == normalized_whitespace(message@),
{
    collapse_whitespace(message)
}

/// Line (1-based) and column (1-based, in UTF-16 code units) of byte
/// `offset` of `source`, where an offset inside a character or past the
/// end counts as the character boundary below it.
pub open spec fn utf16_position(source: Seq<char>, offset: int) -> (nat, nat) {
    let prefix = source.take(fit_chars(source, offset) as int);
    (count_newlines(prefix) + 1, utf16_len(last_line(prefix)) + 1)
}

/// Line and UTF-16 column of a byte offset, both 1-based.
pub fn utf16_line_and_column(source: &str, offset: u32) -> (r: (usize, usize))
    requires
        byte_len(source@) < usize::MAX,
    ensures
        r.0 == utf16_position(source@, offset as int).0,
        r.1 == utf16_position(source@, offset as int).1,
{
    let chars = chars_of(source);
    let (k, _) = floor_char_count(chars.as_slice(), offset as u64);
    let (lines, _, units) = line_position(chars.as_slice(), k);
    proof {
        let p = source@.take(k as int);
        lemma_last_line_len(p);
        lemma_byte_len_prefix(source@, k as int);
        lemma_byte_len_at_least_len(p);
    }
    (lines + 1, units + 1)
}

/// The UTF-16 position of an offset is on the line of its character
/// position, at a column larger by the characters above U+FFFF between the
/// start of that line and the offset.
pub proof fn lemma_utf16_column(source: Seq<char>, offset: int)
    ensures
        utf16_position(source, offset).0 == line_and_column_of(source, offset).0,
        utf16_position(source, offset).1 == line_and_column_of(source, offset).1 + crate::text::astral_count(
            last_line(source.take(fit_chars(source, offset) as int)),
        ),
{
    crate::text::lemma_utf16_len_astral(last_line(source.take(fit_chars(source, offset) as int)));
}

/// The string `prefix`, then `middle`, then `suffix`.
fn framed(prefix: &str, middle: &[char], suffix: &str) -> (r: String)
    ensures
        r@ == prefix@ + middle@ + suffix@,
{
    let mut s = prefix.to_owned();
    let m = string_from_chars(middle);
    push_str(&mut s, m.as_str());
    push_str(&mut s, suffix);
    s
}

/// What parsing a `line,column` location gives.
pub open spec fn location_parse(text: Seq<char>) -> Result<(usize, usize), Seq<char>> {
    match first_char_from(text, ',', 0) {
        None => Err("invalid diagnostic location '"@ + text + "'"@),
        Some(i) => {
            let line = text.take(i);
            let column = text.skip(i + 1);
            match parsed_usize(line) {
                None => Err("invalid diagnostic line '"@ + line + "'"@),
                Some(l) => match parsed_usize(column) {
                    None => Err("invalid diagnostic column '"@ + column + "'"@),
                    Some(c) => Ok((l, c)),
                },
            }
        },
    }
}

/// A location written as `line,column` reads back as that pair, and text
/// without a comma is refused with a message that quotes it.
pub proof fn lemma_location_round_trip(line: usize, column: usize, text: Seq<char>)
    ensures
        location_parse(crate::text::decimal(line as nat) + ","@ + crate::text::decimal(column as nat)) == Ok::<
            (usize, usize),
            Seq<char>,
        >((line, column)),
        !text.contains(',') ==> location_parse(text) == Err::<(usize, usize), Seq<char>>(
            "invalid diagnostic location '"@ + text + "'"@,
        ),
{
    let a = crate::text::decimal(line as nat);
    let b = crate::text::decimal(column as nat);
    crate::text::lemma_decimal_digits(line as nat);
    crate::text::lemma_decimal_digits(column as nat);
    reveal_strlit(",");
    let t = a + ","@ + b;
    assert(t[a.len() as int] == ',');
    assert forall|k: int| 0 <= k < a.len() implies t[k] != ',' by {
        assert(t[k] == a[k]);
        assert(crate::text::is_digit(a[k]));
    }
    crate::text::lemma_first_char_at(t, ',', 0, a.len() as int);
    assert(t.take(a.len() as int) =~= a);
    assert(t.skip(a.len() as int + 1) =~= b);
    assert(crate::text::is_digit(a[0]));
    assert(crate::text::is_digit(b[0]));
    if !text.contains(',') {
        assert forall|k: int| 0 <= k < text.len() implies text[k] != ',' by {
            if text[k] == ',' {
                assert(text.contains(','));
            }
        }
        crate::text::lemma_first_char_none(text, ',', 0);
    }
}

/// The view of a result with a string error.
pub open spec fn result_view<T>(r: Result<T, String>) -> Result<T, Seq<char>> {
    match r {
        Ok(v) => Ok(v),
        Err(e) => Err(e@),
    }
}

/// Parse a `line,column` location.
pub fn parse_location(text: &str) -> (r: Result<(usize, usize), String>)
    ensures
        result_view(r) == location_parse(text@),
{
    let chars = chars_of(text);
    location_from_chars(chars.as_slice())
}

fn location_from_chars(text: &[char]) -> (r: Result<(usize, usize), String>)
    ensures
        result_view(r) == location_parse(text@),
{
    let comma = match find_char(text, ',') {
        Some(i) => i,
        None => return Err(framed("invalid diagnostic location '", text, "'")),
    };
    assert(comma < text.len());
    let line = slice_subrange(text, 0, comma);
    let column = slice_subrange(text, comma + 1, text.len());
    assert(line@ =~= text@.take(comma as int));
    assert(column@ =~= text@.skip(comma as int + 1));
    let line_number = match parse_usize(line) {
        Some(n) => n,
        None => return Err(framed("invalid diagnostic line '", line, "'")),
    };
    let column_number = match parse_usize(column) {
        Some(n) => n,
        None => return Err(framed("invalid diagnostic column '", column, "'")),
    };
    Ok((line_number, column_number))
}

/// What parsing `code: message` gives: the code, which must be one or more
/// ASCII digits, is prefixed with `TS`, and the message is normalized.
pub open spec fn code_message_parse(text: Seq<char>) -> Result<(Seq<char>, Seq<char>), Seq<char>> {
    let t = trim_start(text);
    match first_char_from(t, ':', 0) {
        None => Err("invalid diagnostic text '"@ + text + "'"@),
        Some(i) => {
            let code = t.take(i);
            if code.len() == 0 || !all_digits(code) {
                Err("invalid diagnostic code '"@ + code + "'"@)
            } else {
                Ok(("TS"@ + code, normalized_whitespace(t.skip(i + 1))))
            }
        },
    }
}

/// The view of a parsed code and message.
pub open spec fn pair_view(r: Result<(String, String), String>) -> Result<(Seq<char>, Seq<char>), Seq<char>> {
    match r {
        Ok((a, b)) => Ok((a@, b@)),
        Err(e) => Err(e@),
    }
}

/// Parse `code: message`.
pub fn parse_code_and_message(text: &str) -> (r: Result<(String, String), String>)
    ensures
        pair_view(r) == code_message_parse(text@),
{
    let chars = chars_of(text);
    code_message_from_chars(chars.as_slice())
}

fn code_message_from_chars(text: &[char]) -> (r: Result<(String, String), String>)
    ensures
        pair_view(r) == code_message_parse(text@),
{
    let start = trimmed_start_index(text);
    let t = slice_subrange(text, start, text.len());
    assert(t@ =~= text@.skip(start as int));
    let colon = match find_char(t, ':') {
        Some(i) => i,
        None => return Err(framed("invalid diagnostic text '", text, "'")),
    };
    let code = slice_subrange(t, 0, colon);
    assert(code@ =~= t@.take(colon as int));
    if code.len() == 0 || !crate::text::all_digits_exec(code) {
        return Err(framed("invalid diagnostic code '", code, "'"));
    }
    assert(colon < t.len());
    let rest = slice_subrange(t, colon + 1, t.len());
    assert(rest@ =~= t@.skip(colon as int + 1));
    let rest_text = string_from_chars(rest);
    let message = collapse_whitespace(rest_text.as_str());
    let mut full_code = "TS".to_owned();
    let code_text = string_from_chars(code);
    push_str(&mut full_code, code_text.as_str());
    Ok((full_code, message))
}


/// The marker that follows the location of a located diagnostic.
pub open spec fn located_marker() -> Seq<char> {
    "): error TS"@
}

/// The prefix of a diagnostic without a location.
pub open spec fn global_marker() -> Seq<char> {
    "error TS"@
}

/// What a header line of TypeScript-Go output gives: a located diagnostic
/// `file(line,column): error TScode: message` (split at the last marker),
/// a global one `error TScode: message`, or nothing for any other line.
pub open spec fn header_parse(line: Seq<char>) -> Result<Option<ComparableView>, Seq<char>> {
    match last_occurrence(line, located_marker()) {
        Some(marker) => {
            let prefix = line.take(marker);
            match last_occurrence(prefix, seq!['(']) {
                None => Err("missing diagnostic location in: "@ + line),
                Some(open) => match location_parse(prefix.skip(open + 1)) {
                    Err(e) => Err(e),
                    Ok(location) => match code_message_parse(
                        line.skip(marker + located_marker().len()),
                    ) {
                        Err(e) => Err(e),
                        Ok((code, message)) => Ok(
                            Some(ComparableView { code, location: Some(location), message }),
                        ),
                    },
                },
            }
        },
        None => if occurs_at(line, global_marker(), 0) {
            match code_message_parse(line.skip(global_marker().len() as int)) {
                Err(e) => Err(e),
                Ok((code, message)) => Ok(Some(ComparableView { code, location: None, message })),
            }
        } else {
            Ok(None)
        },
    }
}

/// The view of a parsed header.
pub open spec fn header_view(r: Result<Option<ComparableDiagnostic>, String>) -> Result<
    Option<ComparableView>,
    Seq<char>,
> {
    match r {
        Ok(Some(d)) => Ok(Some(d@)),
        Ok(None) => Ok(None),
        Err(e) => Err(e@),
    }
}

/// Parse one line of TypeScript-Go output that may start a diagnostic.
pub fn parse_tsgo_diagnostic_header(line: &str) -> (r: Result<Option<ComparableDiagnostic>, String>)
    ensures
        header_view(r) == header_parse(line@),
{
    let chars = chars_of(line);
    header_from_chars(chars.as_slice())
}

fn header_from_chars(line: &[char]) -> (r: Result<Option<ComparableDiagnostic>, String>)
    ensures
        header_view(r) == header_parse(line@),
{
    let located = chars_of("): error TS");
    let global = chars_of("error TS");
    let located_slice = located.as_slice();
    if let Some(marker) = rfind_chars(line, located_slice) {
        proof {
            assert(located_slice@ == located@);
            crate::text::lemma_last_occurrence_bounds(line@, located@);
            assert(marker + located@.len() <= line@.len());
        }
        let prefix = slice_subrange(line, 0, marker);
        assert(prefix@ =~= line@.take(marker as int));
        let open_paren = chars_of("(");
        proof {
            reveal_strlit("(");
            assert(open_paren@ =~= seq!['(']);
        }
        let open = match rfind_chars(prefix, open_paren.as_slice()) {
            Some(open) => open,
            None => {
                let mut message = "missing diagnostic location in: ".to_owned();
                let text = string_from_chars(line);
                push_str(&mut message, text.as_str());
                return Err(message);
            },
        };
        proof {
            crate::text::lemma_last_occurrence_bounds(prefix@, open_paren@);
        }
        let location_text = slice_subrange(prefix, open + 1, prefix.len());
        assert(location_text@ =~= prefix@.skip(open as int + 1));
        let location = match location_from_chars(location_text) {
            Ok(location) => location,
            Err(e) => return Err(e),
        };
        let line_len = line.len();
        let rest = slice_subrange(line, marker + located.len(), line_len);
        assert(rest@ =~= line@.skip(marker + located_marker().len()));
        let (code, message) = match code_message_from_chars(rest) {
            Ok(pair) => pair,
            Err(e) => return Err(e),
        };
        return Ok(Some(ComparableDiagnostic { code, location: Some(location), message }));
    }
    if occurs_at_exec(line, global.as_slice(), 0) {
        let rest = slice_subrange(line, global.len(), line.len());
        assert(rest@ =~= line@.skip(global_marker().len() as int));
        let (code, message) = match code_message_from_chars(rest) {
            Ok(pair) => pair,
            Err(e) => return Err(e),
        };
        return Ok(Some(ComparableDiagnostic { code, location: None, message }));
    }
    Ok(None)
}

/// One step of reading TypeScript-Go output: a blank line is skipped, a
/// header starts a diagnostic, and any other line continues the message of
/// the last diagnostic.
pub open spec fn output_step(done: Seq<ComparableView>, line: Seq<char>) -> Result<
    Seq<ComparableView>,
    Seq<char>,
> {
    if trim_start(line).len() == 0 {
        Ok(done)
    } else {
        match header_parse(line) {
            Err(e) => Err(e),
            Ok(Some(d)) => Ok(done.push(d)),
            Ok(None) => if done.len() > 0 {
                let last = done.last();
                Ok(
                    done.update(
                        done.len() - 1,
                        ComparableView {
                            message: normalized_whitespace(last.message + " "@ + line),
                            ..last
                        },
                    ),
                )
            } else {
                Err("unrecognized TypeScript-Go output: "@ + line)
            },
        }
    }
}

/// What reading the given lines of TypeScript-Go output gives; each line
/// has its trailing whitespace removed first, and the first error stops.
pub open spec fn output_parse(lines: Seq<Seq<char>>) -> Result<Seq<ComparableView>, Seq<char>>
    decreases lines.len(),
{
    if lines.len() == 0 {
        Ok(Seq::empty())
    } else {
        match output_parse(lines.drop_last()) {
            Err(e) => Err(e),
            Ok(done) => output_step(done, crate::text::trim_end(lines.last())),
        }
    }
}

/// The view of a parsed list of diagnostics.
pub open spec fn list_view(r: Result<Vec<ComparableDiagnostic>, String>) -> Result<
    Seq<ComparableView>,
    Seq<char>,
> {
    match r {
        Ok(v) => Ok(comparable_view(v@)),
        Err(e) => Err(e@),
    }
}

/// Parse TypeScript-Go's `--pretty false` output into diagnostics.
pub fn parse_tsgo_diagnostics(text: &str) -> (r: Result<Vec<ComparableDiagnostic>, String>)
    ensures
        list_view(r) == output_parse(crate::text::text_lines(text@)),
{
    let chars = chars_of(text);
    let lines = crate::text::split_lines(chars.as_slice());
    let ghost ls = crate::text::words_view(lines@);
    let mut diagnostics: Vec<ComparableDiagnostic> = Vec::new();
    let mut i: usize = 0;
    assert(ls.take(0) =~= Seq::<Seq<char>>::empty());
    assert(comparable_view(diagnostics@) =~= Seq::<ComparableView>::empty());
    while i < lines.len()
        invariant
            ls == crate::text::words_view(lines@),
            ls == crate::text::text_lines(text@),
            i <= ls.len(),
            output_parse(ls.take(i as int)) == Ok::<Seq<ComparableView>, Seq<char>>(
                comparable_view(diagnostics@),
            ),
        decreases ls.len() - i,
    {
        let ghost t = ls.take(i as int + 1);
        assert(t.drop_last() =~= ls.take(i as int));
        assert(t.last() == lines@[i as int]@);
        let full = lines[i].as_slice();
        let n = crate::text::trimmed_end_len(full);
        let line = slice_subrange(full, 0, n);
        assert(line@ =~= crate::text::trim_end(lines@[i as int]@));
        let start = trimmed_start_index(line);
        if start == line.len() {
            assert(trim_start(line@) =~= Seq::<char>::empty());
        } else {
            match header_from_chars(line) {
                Err(e) => {
                    proof {
                        assert(trim_start(line@).len() > 0);
                        assert(output_step(comparable_view(diagnostics@), line@) == Err::<Seq<ComparableView>, Seq<char>>(e@));
                        assert(output_parse(t) == Err::<Seq<ComparableView>, Seq<char>>(e@));
                        lemma_output_error_prefix(ls, i as int + 1);
                    }
                    return Err(e);
                },
                Ok(Some(d)) => {
                    let ghost before = comparable_view(diagnostics@);
                    diagnostics.push(d);
                    assert(comparable_view(diagnostics@) =~= before.push(d@));
                },
                Ok(None) => {
                    if diagnostics.len() == 0 {
                        let mut message = "unrecognized TypeScript-Go output: ".to_owned();
                        let text = string_from_chars(line);
                        push_str(&mut message, text.as_str());
                        proof {
                            lemma_output_error_prefix(ls, i as int + 1);
                        }
                        return Err(message);
                    }
                    let ghost before = comparable_view(diagnostics@);
                    let last = diagnostics.pop().unwrap();
                    let mut joined = last.message;
                    push_str(&mut joined, " ");
                    let text = string_from_chars(line);
                    push_str(&mut joined, text.as_str());
                    let message = collapse_whitespace(joined.as_str());
                    let d = ComparableDiagnostic { code: last.code, location: last.location, message };
                    diagnostics.push(d);
                    assert(comparable_view(diagnostics@) =~= before.update(
                        before.len() - 1,
                        ComparableView {
                            message: normalized_whitespace(before.last().message + " "@ + line@),
                            ..before.last()
                        },
                    ));
                },
            }
        }
        i = i + 1;
    }
    assert(ls.take(ls.len() as int) =~= ls);
    Ok(diagnostics)
}

/// Once reading stops at an error, later lines do not change it.
proof fn lemma_output_error_prefix(lines: Seq<Seq<char>>, n: int)
    requires
        0 <= n <= lines.len(),
        output_parse(lines.take(n)) is Err,
    ensures
        output_parse(lines) == output_parse(lines.take(n)),
    decreases lines.len() - n,
{
    if n < lines.len() {
        assert(lines.take(n + 1).drop_last() =~= lines.take(n));
        lemma_output_error_prefix(lines, n + 1);
    } else {
        assert(lines.take(n) =~= lines);
    }
}


/// The order of optional locations: no location first, then by line and column.
pub open spec fn location_lt(a: Option<(usize, usize)>, b: Option<(usize, usize)>) -> bool {
    match (a, b) {
        (None, Some(_)) => true,
        (Some((l1, c1)), Some((l2, c2))) => l1 < l2 || (l1 == l2 && c1 < c2),
        _ => false,
    }
}

/// The order of comparable diagnostics: by code, then location, then message.
pub open spec fn comparable_lt(a: ComparableView, b: ComparableView) -> bool {
    ||| chars_lt(a.code, b.code)
    ||| a.code == b.code && location_lt(a.location, b.location)
    ||| a.code == b.code && a.location == b.location && chars_lt(a.message, b.message)
}

/// Whether no later element of `s` comes strictly before an earlier one.
pub open spec fn sorted_comparable(s: Seq<ComparableView>) -> bool {
    forall|i: int, j: int| 0 <= i < j < s.len() ==> !comparable_lt(#[trigger] s[j], #[trigger] s[i])
}

/// `comparable_lt` is irreflexive, asymmetric and transitive.
proof fn lemma_comparable_order(a: ComparableView, b: ComparableView, c: ComparableView)
    ensures
        !comparable_lt(a, a),
        comparable_lt(a, b) ==> !comparable_lt(b, a),
        comparable_lt(a, b) && comparable_lt(b, c) ==> comparable_lt(a, c),
{
    crate::text::lemma_chars_lt_order(a.code, b.code, c.code);
    crate::text::lemma_chars_lt_order(a.message, b.message, c.message);
    crate::text::lemma_chars_lt_order(b.code, a.code, c.code);
    crate::text::lemma_chars_lt_order(a.code, c.code, b.code);
    crate::text::lemma_chars_lt_order(b.message, a.message, c.message);
}

/// Whether `a` comes strictly before `b`.
fn comparable_less(a: &ComparableDiagnostic, b: &ComparableDiagnostic) -> (r: bool)
    ensures
        r == comparable_lt(a@, b@),
{
    let ac = chars_of(a.code.as_str());
    let bc = chars_of(b.code.as_str());
    let code_order = crate::text::compare_chars(ac.as_slice(), bc.as_slice());
    if code_order != 0 {
        proof {
            crate::text::lemma_chars_lt_order(a.code@, b.code@, b.code@);
        }
        return code_order == -1;
    }
    let location_order: i8 = match (a.location, b.location) {
        (None, None) => 0,
        (None, Some(_)) => -1,
        (Some(_), None) => 1,
        (Some((l1, c1)), Some((l2, c2))) => if l1 < l2 || (l1 == l2 && c1 < c2) {
            -1
        } else if l1 == l2 && c1 == c2 {
            0
        } else {
            1
        },
    };
    if location_order != 0 {
        return location_order == -1;
    }
    let am = chars_of(a.message.as_str());
    let bm = chars_of(b.message.as_str());
    crate::text::compare_chars(am.as_slice(), bm.as_slice()) == -1
}

/// Sort comparable diagnostics by code, location and message.
pub fn sort_comparable(items: Vec<ComparableDiagnostic>) -> (r: Vec<ComparableDiagnostic>)
    ensures
        sorted_comparable(comparable_view(r@)),
        comparable_view(r@).to_multiset() == comparable_view(items@).to_multiset(),
{
    broadcast use vstd::seq_lib::group_to_multiset_ensures;

    let ghost all = comparable_view(items@);
    let mut out: Vec<ComparableDiagnostic> = Vec::new();
    let mut rest = items;
    let ghost rest0 = comparable_view(rest@);
    assert(comparable_view(out@) =~= Seq::<ComparableView>::empty());
    assert(comparable_view(out@).to_multiset().add(comparable_view(rest@).to_multiset()) =~= all.to_multiset());
    while rest.len() > 0
        invariant
            sorted_comparable(comparable_view(out@)),
            comparable_view(out@).to_multiset().add(comparable_view(rest@).to_multiset())
                == all.to_multiset(),
        decreases rest@.len(),
    {
        let ghost before_rest = comparable_view(rest@);
        let x = rest.pop().unwrap();
        assert(before_rest =~= comparable_view(rest@).push(x@));
        let ghost o = comparable_view(out@);
        let mut j: usize = 0;
        while j < out.len() && !comparable_less(&x, &out[j])
            invariant
                o == comparable_view(out@),
                j <= o.len(),
                forall|k: int| 0 <= k < j ==> !comparable_lt(x@, #[trigger] o[k]),
            decreases o.len() - j,
        {
            j = j + 1;
        }
        out.insert(j, x);
        proof {
            let n = comparable_view(out@);
            assert(n =~= o.insert(j as int, x@));
            assert forall|a: int, b: int| 0 <= a < b < n.len() implies !comparable_lt(
                #[trigger] n[b],
                #[trigger] n[a],
            ) by {
                if a < j && b < j {
                    assert(n[a] == o[a] && n[b] == o[b]);
                } else if a < j && b == j {
                    assert(n[a] == o[a]);
                } else if a < j {
                    assert(n[a] == o[a] && n[b] == o[b - 1]);
                } else if a == j {
                    assert(n[b] == o[b - 1]);
                    assert(comparable_lt(x@, o[j as int]));
                    lemma_comparable_order(o[b - 1], x@, o[j as int]);
                    if b - 1 > j {
                        assert(!comparable_lt(o[b - 1], o[j as int]));
                    }
                } else {
                    assert(n[a] == o[a - 1] && n[b] == o[b - 1]);
                }
            }
            vstd::seq_lib::to_multiset_insert(o, j as int, x@);
            vstd::seq_lib::to_multiset_build(comparable_view(rest@), x@);
            assert(n.to_multiset().add(comparable_view(rest@).to_multiset()) =~= all.to_multiset());
        }
    }
    assert(comparable_view(rest@) =~= Seq::<ComparableView>::empty());
    assert(comparable_view(out@).to_multiset() =~= all.to_multiset());
    out
}


/// The comparable form of one of this checker's diagnostics.
pub open spec fn tsrs_comparable(d: DiagnosticView, source: Seq<char>) -> ComparableView {
    ComparableView {
        code: d.code,
        location: match d.range {
            Some(range) => {
                let (line, column) = utf16_position(source, range.start as int);
                Some((line as usize, column as usize))
            },
            None => None,
        },
        message: normalized_whitespace(d.message),
    }
}

/// The comparable forms of a list of this checker's diagnostics.
pub open spec fn tsrs_comparables(ds: Seq<DiagnosticView>, source: Seq<char>) -> Seq<ComparableView> {
    ds.map_values(|d: DiagnosticView| tsrs_comparable(d, source))
}

/// This checker's diagnostics in comparable form, sorted.
pub fn comparable_tsrs_diagnostics(source: &str, diagnostics: &[Diagnostic]) -> (r: Vec<
    ComparableDiagnostic,
>)
    requires
        byte_len(source@) < usize::MAX,
    ensures
        sorted_comparable(comparable_view(r@)),
        comparable_view(r@).to_multiset() == tsrs_comparables(
            diagnostics_view(diagnostics@),
            source@,
        ).to_multiset(),
{
    let ghost ds = diagnostics_view(diagnostics@);
    let mut comparable: Vec<ComparableDiagnostic> = Vec::new();
    let mut i: usize = 0;
    while i < diagnostics.len()
        invariant
            ds == diagnostics_view(diagnostics@),
            i <= ds.len(),
            byte_len(source@) < usize::MAX,
            comparable_view(comparable@) == tsrs_comparables(ds, source@).take(i as int),
        decreases ds.len() - i,
    {
        let diagnostic = &diagnostics[i];
        let location = match diagnostic.range {
            Some(range) => Some(utf16_line_and_column(source, range.start)),
            None => None,
        };
        let item = ComparableDiagnostic {
            code: diagnostic.code.clone(),
            location,
            message: normalize_message(diagnostic.message.as_str()),
        };
        assert(ds[i as int] == diagnostic@);
        assert(item@.code == tsrs_comparable(diagnostic@, source@).code);
        assert(item@.message == tsrs_comparable(diagnostic@, source@).message);
        assert(item@.location == tsrs_comparable(diagnostic@, source@).location);
        let ghost before = comparable_view(comparable@);
        comparable.push(item);
        assert(comparable_view(comparable@) =~= before.push(item@));
        assert(item@ == tsrs_comparable(diagnostic@, source@));
        assert(tsrs_comparables(ds, source@)[i as int] == tsrs_comparable(ds[i as int], source@));
        assert(comparable_view(comparable@) =~= tsrs_comparables(ds, source@).take(i as int + 1));
        i = i + 1;
    }
    assert(tsrs_comparables(ds, source@).take(ds.len() as int) =~= tsrs_comparables(ds, source@));
    sort_comparable(comparable)
}

/// The characters of `bytes` when they are valid UTF-8 (`String::from_utf8`).
#[verifier::external_body]
fn utf8_text(bytes: Vec<u8>) -> (r: Option<String>)
    ensures
        r is Some <==> valid_utf8(bytes@),
        r matches Some(s) ==> s@ == decode_utf8(bytes@),
{
    String::from_utf8(bytes).ok()
}

/// What TypeScript-Go's output gives, before sorting: both streams must be
/// UTF-8; their text (joined by a line feed when both are present) must
/// parse; a successful run must report nothing and a failed run something.
pub open spec fn tsgo_outcome(stdout: Seq<u8>, stderr: Seq<u8>, success: bool, status: Seq<char>) -> Result<
    Seq<ComparableView>,
    Seq<char>,
> {
    if !valid_utf8(stdout) {
        Err("TypeScript-Go stdout was not valid UTF-8"@)
    } else if !valid_utf8(stderr) {
        Err("TypeScript-Go stderr was not valid UTF-8"@)
    } else {
        let out = decode_utf8(stdout);
        let err = decode_utf8(stderr);
        let text = if out.len() > 0 && err.len() > 0 {
            out + "\n"@ + err
        } else if out.len() > 0 {
            out
        } else {
            err
        };
        match output_parse(crate::text::text_lines(text)) {
            Err(e) => Err(e),
            Ok(ds) => if success && ds.len() > 0 {
                Err("TypeScript-Go succeeded after reporting diagnostics"@)
            } else if !success && ds.len() == 0 {
                Err("TypeScript-Go exited with "@ + status + " without parseable diagnostics"@)
            } else {
                Ok(ds)
            },
        }
    }
}

/// TypeScript-Go's diagnostics in comparable form, sorted, from the bytes it
/// wrote, whether it exited successfully, and how its exit status reads.
pub fn comparable_tsgo_diagnostics(stdout: Vec<u8>, stderr: Vec<u8>, success: bool, status: &str) -> (r:
    Result<Vec<ComparableDiagnostic>, String>)
    ensures
        match r {
            Ok(v) => tsgo_outcome(stdout@, stderr@, success, status@) matches Ok(ds)
                && sorted_comparable(comparable_view(v@)) && comparable_view(v@).to_multiset()
                == ds.to_multiset(),
            Err(e) => tsgo_outcome(stdout@, stderr@, success, status@) == Err::<
                Seq<ComparableView>,
                Seq<char>,
            >(e@),
        },
{
    let ghost out_bytes = stdout@;
    let ghost err_bytes = stderr@;
    let out = match utf8_text(stdout) {
        Some(text) => text,
        None => return Err("TypeScript-Go stdout was not valid UTF-8".to_owned()),
    };
    let err = match utf8_text(stderr) {
        Some(text) => text,
        None => return Err("TypeScript-Go stderr was not valid UTF-8".to_owned()),
    };
    let out_empty = crate::text::str_byte_len(out.as_str()) == 0;
    let err_empty = crate::text::str_byte_len(err.as_str()) == 0;
    proof {
        crate::text::lemma_byte_len_at_least_len(out@);
        crate::text::lemma_byte_len_at_least_len(err@);
        if out@.len() > 0 {
            crate::text::lemma_byte_len_first(out@);
        }
        if err@.len() > 0 {
            crate::text::lemma_byte_len_first(err@);
        }
    }
    let text = if !out_empty && !err_empty {
        let mut joined = out;
        push_str(&mut joined, "\n");
        push_str(&mut joined, err.as_str());
        joined
    } else if !out_empty {
        out
    } else {
        err
    };
    let diagnostics = match parse_tsgo_diagnostics(text.as_str()) {
        Ok(ds) => ds,
        Err(e) => return Err(e),
    };
    if success && diagnostics.len() > 0 {
        return Err("TypeScript-Go succeeded after reporting diagnostics".to_owned());
    }
    if !success && diagnostics.len() == 0 {
        let mut message = "TypeScript-Go exited with ".to_owned();
        push_str(&mut message, status);
        push_str(&mut message, " without parseable diagnostics");
        return Err(message);
    }
    Ok(sort_comparable(diagnostics))
}

/// Whether a path ends in a parent-directory component `..`.
pub open spec fn ends_in_parent(path: Seq<char>) -> bool {
    path == ".."@ || (path.len() >= 3 && path.subrange(path.len() - 3, path.len() as int) == "/.."@)
}

/// Whether every platform reads a path alike when it splits it at `/`:
/// it holds no `\\` or `:` and does not begin with `//`.
pub open spec fn plain_path(path: Seq<char>) -> bool {
    &&& forall|i: int| 0 <= i < path.len() ==> #[trigger] path[i] != '\\' && path[i] != ':'
    &&& !(path.len() >= 2 && path[0] == '/' && path[1] == '/')
}

/// The text of a path after its last `/`.
pub open spec fn final_component(path: Seq<char>) -> Seq<char> {
    match crate::text::last_occurrence(path, "/"@) {
        Some(k) => path.skip(k + 1),
        None => path,
    }
}

/// Whether a path is one plain component on every platform: not empty,
/// not `.` or `..`, and free of `/`, `\\` and `:`.
pub open spec fn single_component(path: Seq<char>) -> bool {
    &&& path.len() > 0
    &&& path != "."@
    &&& path != ".."@
    &&& forall|i: int| 0 <= i < path.len() ==> #[trigger] path[i] != '/' && path[i] != '\\' && path[i] != ':'
}

/// The stem of a file name: the whole name when it has no `.` but a
/// leading one, else the part before its last `.`.
pub open spec fn stem_of(name: Seq<char>) -> Seq<char> {
    match crate::text::last_occurrence(name, "."@) {
        Some(k) => if k > 0 {
            name.take(k)
        } else {
            name
        },
        None => name,
    }
}

/// The final component of a path (`Path::file_name`), when it is one.
/// Which characters separate components is the platform's; what is stated
/// holds on every platform for a path that splits at `/` alone: one that
/// ends in `..` has no file name, and otherwise its file name is the text
/// after its last `/` when that is one plain component.
#[verifier::external_body]
fn path_file_name(path: &str) -> (r: Option<String>)
    ensures
        plain_path(path@) && ends_in_parent(path@) ==> r is None,
        plain_path(path@) && single_component(final_component(path@)) ==> (r is Some && r->Some_0@
            == final_component(path@)),
{
    std::path::Path::new(path).file_name().and_then(|name| name.to_str()).map(|name| name.to_owned())
}

/// The final component of a path without its extension (`Path::file_stem`);
/// for a path that splits at `/` alone, one that ends in `..` has none, and
/// otherwise the stem is that of the text after its last `/` when that is
/// one plain component.
#[verifier::external_body]
fn path_file_stem(path: &str) -> (r: Option<String>)
    ensures
        plain_path(path@) && ends_in_parent(path@) ==> r is None,
        plain_path(path@) && single_component(final_component(path@)) ==> (r is Some && r->Some_0@
            == stem_of(final_component(path@))),
{
    std::path::Path::new(path).file_stem().and_then(|stem| stem.to_str()).map(|stem| stem.to_owned())
}

/// Whether a fixture with the given file name and stem is the requested
/// one: its name or, failing that, its stem equals the request.
pub fn case_matches_names(file_name: Option<&str>, file_stem: Option<&str>, requested: &str) -> (r:
    bool)
    ensures
        r == match file_name {
            Some(name) => name@ == requested@ || match file_stem {
                Some(stem) => stem@ == requested@,
                None => false,
            },
            None => false,
        },
{
    match file_name {
        Some(name) => crate::text::str_equal(name, requested) || match file_stem {
            Some(stem) => crate::text::str_equal(stem, requested),
            None => false,
        },
        None => false,
    }
}

/// Whether the fixture at `path` is the requested one, by file name or stem.
///
/// How a path splits into name and stem is the platform's; what follows
/// that split is `case_matches_names`.
pub fn case_matches(path: &str, requested: &str) -> (r: bool)
    ensures
        plain_path(path@) && ends_in_parent(path@) ==> !r,
        plain_path(path@) && single_component(final_component(path@)) ==> r == (final_component(path@)
            == requested@ || stem_of(final_component(path@)) == requested@),
{
    let name = path_file_name(path);
    let stem = path_file_stem(path);
    let name_ref: Option<&str> = match &name {
        Some(n) => Some(n.as_str()),
        None => None,
    };
    let stem_ref: Option<&str> = match &stem {
        Some(s) => Some(s.as_str()),
        None => None,
    };
    case_matches_names(name_ref, stem_ref, requested)
}


/// Whether `c` is an ASCII hexadecimal digit.
pub open spec fn is_hex_digit(c: char) -> bool {
    ('0' <= c && c <= '9') || ('a' <= c && c <= 'f') || ('A' <= c && c <= 'F')
}

/// `s` without leading and trailing whitespace (`str::trim`).
pub open spec fn trimmed(s: Seq<char>) -> Seq<char> {
    trim_start(crate::text::trim_end(s))
}

/// The trimmed lines of `lines` that are neither empty nor comments.
pub open spec fn revision_candidates(lines: Seq<Seq<char>>) -> Seq<Seq<char>>
    decreases lines.len(),
{
    if lines.len() == 0 {
        Seq::empty()
    } else {
        let rest = revision_candidates(lines.drop_last());
        let line = trimmed(lines.last());
        if line.len() > 0 && line[0] != '#' {
            rest.push(line)
        } else {
            rest
        }
    }
}

/// What reading a reference-revision file gives: its one line that is
/// neither blank nor a comment, which must be 40 hexadecimal digits.
pub open spec fn reference_revision_of(content: Seq<char>, path: Seq<char>) -> Result<Seq<char>, Seq<char>> {
    let candidates = revision_candidates(crate::text::text_lines(content));
    if candidates.len() != 1 {
        Err(path + " must contain exactly one reference revision"@)
    } else {
        let revision = candidates[0];
        if byte_len(revision) != 40 || !(forall|i: int|
            0 <= i < revision.len() ==> is_hex_digit(#[trigger] revision[i])) {
            Err("invalid reference revision '"@ + revision + "'"@)
        } else {
            Ok(revision)
        }
    }
}

/// The characters of `chars` without leading and trailing whitespace.
fn trim_chars(chars: &[char]) -> (r: Vec<char>)
    ensures
        r@ == trimmed(chars@),
{
    let n = crate::text::trimmed_end_len(chars);
    let front = slice_subrange(chars, 0, n);
    assert(front@ =~= chars@.take(n as int));
    let k = trimmed_start_index(front);
    let rest = slice_subrange(front, k, n);
    assert(rest@ =~= front@.skip(k as int));
    vstd::slice::slice_to_vec(rest)
}

/// The revision pinned in a reference file's `content`; `path` names the
/// file in the error.
pub fn reference_revision(content: &str, path: &str) -> (r: Result<String, String>)
    ensures
        match r {
            Ok(revision) => reference_revision_of(content@, path@) == Ok::<Seq<char>, Seq<char>>(
                revision@,
            ),
            Err(e) => reference_revision_of(content@, path@) == Err::<Seq<char>, Seq<char>>(e@),
        },
{
    let chars = chars_of(content);
    let lines = crate::text::split_lines(chars.as_slice());
    let ghost ls = crate::text::words_view(lines@);
    let mut candidates: Vec<Vec<char>> = Vec::new();
    let mut i: usize = 0;
    assert(ls.take(0) =~= Seq::<Seq<char>>::empty());
    assert(crate::text::words_view(candidates@) =~= Seq::<Seq<char>>::empty());
    while i < lines.len()
        invariant
            ls == crate::text::words_view(lines@),
            i <= ls.len(),
            crate::text::words_view(candidates@) == revision_candidates(ls.take(i as int)),
        decreases ls.len() - i,
    {
        let ghost t = ls.take(i as int + 1);
        assert(t.drop_last() =~= ls.take(i as int));
        assert(t.last() == lines@[i as int]@);
        let line = trim_chars(lines[i].as_slice());
        if line.len() > 0 && line[0] != '#' {
            let ghost before = crate::text::words_view(candidates@);
            candidates.push(line);
            assert(crate::text::words_view(candidates@) =~= before.push(trimmed(lines@[i as int]@)));
        }
        i = i + 1;
    }
    assert(ls.take(ls.len() as int) =~= ls);
    if candidates.len() != 1 {
        let mut message = path.to_owned();
        push_str(&mut message, " must contain exactly one reference revision");
        return Err(message);
    }
    let revision = string_from_chars(candidates[0].as_slice());
    assert(revision@ == crate::text::words_view(candidates@)[0]);
    let size = crate::text::str_byte_len(revision.as_str());
    let rev_chars = candidates[0].as_slice();
    let mut all_hex = true;
    let mut k: usize = 0;
    while k < rev_chars.len()
        invariant
            k <= rev_chars@.len(),
            all_hex == (forall|j: int| 0 <= j < k ==> is_hex_digit(#[trigger] rev_chars@[j])),
        decreases rev_chars@.len() - k,
    {
        let c = rev_chars[k];
        if !(('0' <= c && c <= '9') || ('a' <= c && c <= 'f') || ('A' <= c && c <= 'F')) {
            all_hex = false;
        }
        k = k + 1;
    }
    if size != 40 || !all_hex {
        return Err(framed("invalid reference revision '", rev_chars, "'"));
    }
    Ok(revision)
}

/// What checking `git rev-parse HEAD` gives: the run must succeed, print
/// UTF-8, and print (up to surrounding whitespace) the expected revision.
pub open spec fn revision_check(
    success: bool,
    stdout: Seq<u8>,
    stderr: Seq<char>,
    repository: Seq<char>,
    expected: Seq<char>,
) -> Result<(), Seq<char>> {
    if !success {
        Err(repository + " is not a readable Git checkout: "@ + trimmed(stderr))
    } else if !valid_utf8(stdout) {
        Err("git rev-parse returned non-UTF-8 output"@)
    } else if trimmed(decode_utf8(stdout)) != expected {
        Err(
            "TypeScript-Go revision mismatch: expected "@ + expected + ", found "@ + trimmed(
                decode_utf8(stdout),
            )
                + "; reference updates require reviewing and editing tests/tsgo-reference.txt"@,
        )
    } else {
        Ok(())
    }
}

/// Check the output of `git rev-parse HEAD` in the TypeScript-Go checkout
/// against the pinned revision.
pub fn verify_revision_output(
    success: bool,
    stdout: Vec<u8>,
    stderr: &str,
    repository: &str,
    expected: &str,
) -> (r: Result<(), String>)
    ensures
        result_view(r) == revision_check(success, stdout@, stderr@, repository@, expected@),
{
    if !success {
        let mut message = repository.to_owned();
        push_str(&mut message, " is not a readable Git checkout: ");
        let err_chars = chars_of(stderr);
        let err = trim_chars(err_chars.as_slice());
        let err_text = string_from_chars(err.as_slice());
        push_str(&mut message, err_text.as_str());
        return Err(message);
    }
    let actual = match utf8_text(stdout) {
        Some(text) => text,
        None => return Err("git rev-parse returned non-UTF-8 output".to_owned()),
    };
    let actual_chars = chars_of(actual.as_str());
    let actual_trimmed = trim_chars(actual_chars.as_slice());
    let expected_chars = chars_of(expected);
    if !crate::text::chars_equal(actual_trimmed.as_slice(), expected_chars.as_slice()) {
        let mut message = "TypeScript-Go revision mismatch: expected ".to_owned();
        push_str(&mut message, expected);
        push_str(&mut message, ", found ");
        let found = string_from_chars(actual_trimmed.as_slice());
        push_str(&mut message, found.as_str());
        push_str(&mut message, "; reference updates require reviewing and editing tests/tsgo-reference.txt");
        return Err(message);
    }
    Ok(())
}

} // verus!
