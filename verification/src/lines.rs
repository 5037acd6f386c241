//! Lines of `key;value` text: what they mean, and the pass that folds them into a table.

use vstd::prelude::*;
use vstd::slice::slice_subrange;
use crate::aggregate::{aggregate, lemma_aggregate_push, lemma_values_for_len, Observation};
use crate::error::ScanError;
use crate::key::{key_of, make_key};
use crate::number::{fixed_point_parse, is_decimal, lemma_decimal_bytes, parse_tenths};
use crate::search::{
    find_each, find_from, lemma_find_from, lemma_find_from_unique, lemma_matches_from,
    matches_from, next_match, pending,
};
use crate::table::{empty_table, AggregationTable};

verus! {

/// The byte between key and value.
pub const DELIMITER: u8 = 0x3b;

/// The byte that ends a line.
pub const TERMINATOR: u8 = 0x0a;

/// The byte that fills a buffer behind what was read into it.
pub const FILL: u8 = 0;

/// The lines of `s`, without their terminators. Text after the last terminator is a line too;
/// no text after it is none.
pub open spec fn lines_of(s: Seq<u8>) -> Seq<Seq<u8>>
    decreases s.len(),
{
    let n = find_from(s, TERMINATOR, 0);
    if s.len() == 0 {
        Seq::empty()
    } else if 0 <= n < s.len() {
        seq![s.subrange(0, n)] + lines_of(s.skip(n + 1))
    } else {
        seq![s]
    }
}

/// Where the last line of `s` starts: behind the last terminator, or at 0 where there is none.
pub open spec fn last_line_start(s: Seq<u8>) -> int
    decreases s.len(),
{
    if s.len() == 0 {
        0
    } else if s.last() == TERMINATOR {
        s.len() as int
    } else {
        last_line_start(s.drop_last())
    }
}

/// The length of the text in `s`: it ends before the first fill byte behind the last
/// terminator, or with `s` where there is no such byte.
pub open spec fn text_len(s: Seq<u8>) -> int {
    find_from(s, FILL, last_line_start(s))
}

/// The text in `s`, without the fill behind it. A fill byte before the last terminator is
/// a byte of its line like any other.
pub open spec fn text_before_fill(s: Seq<u8>) -> Seq<u8> {
    s.subrange(0, text_len(s))
}

/// The lines that a buffer holds: the lines of its text, and nothing for the fill.
pub open spec fn record_lines(s: Seq<u8>) -> Seq<Seq<u8>> {
    lines_of(text_before_fill(s))
}

/// What a line says: the key before the first delimiter, and the value after it.
pub open spec fn parse_line(line: Seq<u8>) -> Result<Observation, ScanError> {
    let d = find_from(line, DELIMITER, 0);
    if d >= line.len() {
        Err(ScanError::MissingDelimiter)
    } else {
        match parse_tenths(line.skip(d + 1)) {
            Some(v) => Ok(Observation { key: key_of(line.subrange(0, d)), value: v as int }),
            None => Err(ScanError::MalformedValue),
        }
    }
}

/// Whether every line is a record.
pub open spec fn all_parse(lines: Seq<Seq<u8>>) -> bool {
    forall|i: int| 0 <= i < lines.len() ==> (#[trigger] parse_line(lines[i])) is Ok
}

/// The observations that the lines hold, line by line.
pub open spec fn observations(lines: Seq<Seq<u8>>) -> Seq<Observation> {
    Seq::new(lines.len(), |i: int| parse_line(lines[i])->Ok_0)
}

/// Whether `e` is what is wrong with the first line that is no record.
pub open spec fn first_failure(lines: Seq<Seq<u8>>, e: ScanError) -> bool {
    exists|i: int|
        0 <= i < lines.len() && #[trigger] parse_line(lines[i]) == Err::<Observation, ScanError>(e)
            && all_parse(lines.subrange(0, i))
}

/// The first line of the text from `start` on runs up to the first terminator at or after
/// `start`, or to the end; the other lines are those of the text behind that terminator.
pub proof fn lemma_lines_of_step(s: Seq<u8>, start: int)
    requires
        0 <= start < s.len(),
    ensures
        ({
            let end = find_from(s, TERMINATOR, start);
            let next = if end < s.len() {
                end + 1
            } else {
                s.len() as int
            };
            &&& start <= end <= s.len()
            &&& lines_of(s.skip(start)) == seq![s.subrange(start, end)] + lines_of(s.skip(next))
        }),
{
    let end = find_from(s, TERMINATOR, start);
    lemma_find_from(s, TERMINATOR, start);
    let rest = s.skip(start);
    assert forall|j: int| 0 <= j < end - start implies rest[j] != TERMINATOR by {
        assert(rest[j] == s[start + j]);
    }
    lemma_find_from_unique(rest, TERMINATOR, 0, end - start);
    if end < s.len() {
        assert(rest.subrange(0, end - start) == s.subrange(start, end));
        assert(rest.skip(end - start + 1) == s.skip(end + 1));
    } else {
        assert(rest == s.subrange(start, end));
        assert(s.skip(s.len() as int).len() == 0);
        assert(seq![rest] + Seq::<Seq<u8>>::empty() == seq![rest]);
    }
}

/// Text that ends with a terminator, and text that nothing follows, can be split off:
/// the lines of the whole are the lines of the two parts.
pub proof fn lemma_lines_of_concat(a: Seq<u8>, b: Seq<u8>)
    requires
        a.len() == 0 || b.len() == 0 || a.last() == TERMINATOR,
    ensures
        lines_of(a + b) == lines_of(a) + lines_of(b),
    decreases a.len(),
{
    if a.len() == 0 {
        assert(a + b == b);
        assert(lines_of(a) + lines_of(b) == lines_of(b));
    } else if b.len() == 0 {
        assert(a + b == a);
        assert(lines_of(a) + lines_of(b) == lines_of(a));
    } else {
        let n = find_from(a, TERMINATOR, 0);
        lemma_find_from(a, TERMINATOR, 0);
        if n == a.len() {
            assert(a[a.len() - 1] == TERMINATOR);
        }
        assert forall|j: int| 0 <= j < n implies (a + b)[j] != TERMINATOR by {
            assert((a + b)[j] == a[j]);
        }
        assert((a + b)[n] == a[n]);
        lemma_find_from_unique(a + b, TERMINATOR, 0, n);
        let rest = a.skip(n + 1);
        assert((a + b).skip(n + 1) == rest + b);
        assert((a + b).subrange(0, n) == a.subrange(0, n));
        if rest.len() > 0 {
            assert(rest.last() == a.last());
        }
        lemma_lines_of_concat(rest, b);
        assert(seq![a.subrange(0, n)] + (lines_of(rest) + lines_of(b)) == (seq![
            a.subrange(0, n),
        ] + lines_of(rest)) + lines_of(b));
    }
}

/// There are no more lines than bytes.
pub proof fn lemma_lines_of_len(s: Seq<u8>)
    ensures
        lines_of(s).len() <= s.len(),
    decreases s.len(),
{
    let n = find_from(s, TERMINATOR, 0);
    if s.len() > 0 && 0 <= n < s.len() {
        lemma_lines_of_len(s.skip(n + 1));
    }
}

/// The last line starts in the buffer, at 0 or behind a terminator, and holds no terminator.
pub proof fn lemma_last_line_start(s: Seq<u8>)
    ensures
        0 <= last_line_start(s) <= s.len(),
        last_line_start(s) == 0 || s[last_line_start(s) - 1] == TERMINATOR,
        forall|j: int| last_line_start(s) <= j < s.len() ==> s[j] != TERMINATOR,
    decreases s.len(),
{
    if s.len() > 0 && s.last() != TERMINATOR {
        let head = s.drop_last();
        lemma_last_line_start(head);
        assert forall|j: int| last_line_start(s) <= j < s.len() implies s[j] != TERMINATOR by {
            if j < head.len() {
                assert(head[j] == s[j]);
            }
        }
        if last_line_start(s) > 0 {
            assert(head[last_line_start(s) - 1] == s[last_line_start(s) - 1]);
        }
    }
}

/// A position at 0 or behind a terminator, with no terminator after it, is where the last
/// line starts.
pub proof fn lemma_last_line_start_unique(s: Seq<u8>, at: int)
    requires
        0 <= at <= s.len(),
        at == 0 || s[at - 1] == TERMINATOR,
        forall|j: int| at <= j < s.len() ==> s[j] != TERMINATOR,
    ensures
        last_line_start(s) == at,
    decreases s.len(),
{
    if s.len() > 0 && s.last() != TERMINATOR {
        let head = s.drop_last();
        assert(at < s.len());
        if at > 0 {
            assert(head[at - 1] == s[at - 1]);
        }
        assert forall|j: int| at <= j < head.len() implies head[j] != TERMINATOR by {
            assert(head[j] == s[j]);
        }
        lemma_last_line_start_unique(head, at);
    }
}

/// Behind text that ends with a terminator, fill is looked for in what follows alone.
pub proof fn lemma_text_before_fill_concat(a: Seq<u8>, b: Seq<u8>)
    requires
        a.len() == 0 || a.last() == TERMINATOR,
    ensures
        text_before_fill(a) == a,
        text_before_fill(a + b) == a + text_before_fill(b),
{
    let start = last_line_start(b);
    let end = text_len(b);
    lemma_last_line_start(b);
    lemma_find_from(b, FILL, start);
    assert forall|j: int| a.len() + start <= j < (a + b).len() implies (a + b)[j]
        != TERMINATOR by {
        assert((a + b)[j] == b[j - a.len()]);
    }
    if start > 0 {
        assert((a + b)[a.len() + start - 1] == b[start - 1]);
    } else if a.len() > 0 {
        assert((a + b)[a.len() - 1] == a[a.len() - 1]);
    }
    lemma_last_line_start_unique(a + b, a.len() + start);
    assert forall|j: int| a.len() + start <= j < a.len() + end implies (a + b)[j] != FILL by {
        assert((a + b)[j] == b[j - a.len()]);
    }
    if end < b.len() {
        assert((a + b)[a.len() + end] == b[end]);
    }
    lemma_find_from_unique(a + b, FILL, a.len() + start, a.len() + end);
    assert(text_before_fill(a + b) =~= a + text_before_fill(b));
    assert(text_before_fill(a) =~= a);
}

/// Text that ends with a terminator, and text that nothing follows, can be split off: the
/// lines that the whole holds are those that the two parts hold.
pub proof fn lemma_record_lines_concat(a: Seq<u8>, b: Seq<u8>)
    requires
        a.len() == 0 || b.len() == 0 || a.last() == TERMINATOR,
    ensures
        record_lines(a + b) == record_lines(a) + record_lines(b),
{
    if a.len() > 0 && a.last() != TERMINATOR {
        assert(a + b == a);
        assert(text_before_fill(b) =~= Seq::<u8>::empty());
        assert(record_lines(a) + record_lines(b) == record_lines(a));
    } else {
        lemma_text_before_fill_concat(a, b);
        lemma_lines_of_concat(a, text_before_fill(b));
    }
}

/// A buffer holds no more lines than bytes.
pub proof fn lemma_record_lines_len(s: Seq<u8>)
    ensures
        record_lines(s).len() <= s.len(),
{
    lemma_last_line_start(s);
    lemma_find_from(s, FILL, last_line_start(s));
    lemma_lines_of_len(text_before_fill(s));
}

/// Fill behind the text gives no line: a buffer whose text is followed by fill bytes alone
/// holds the lines of the text.
pub proof fn lemma_fill_ignored(text: Seq<u8>, fill: Seq<u8>)
    requires
        text_len(text) == text.len(),
        forall|j: int| 0 <= j < fill.len() ==> fill[j] == FILL,
    ensures
        text_before_fill(text + fill) == text,
        record_lines(text + fill) == lines_of(text),
{
    let whole = text + fill;
    let start = last_line_start(text);
    lemma_last_line_start(text);
    lemma_find_from(text, FILL, start);
    assert forall|j: int| start <= j < whole.len() implies whole[j] != TERMINATOR by {
        if j < text.len() {
            assert(whole[j] == text[j]);
        } else {
            assert(whole[j] == fill[j - text.len()]);
        }
    }
    if start > 0 {
        assert(whole[start - 1] == text[start - 1]);
    }
    lemma_last_line_start_unique(whole, start);
    assert forall|j: int| start <= j < text.len() implies whole[j] != FILL by {
        assert(whole[j] == text[j]);
    }
    if fill.len() > 0 {
        assert(whole[text.len() as int] == fill[0]);
    }
    lemma_find_from_unique(whole, FILL, start, text.len() as int);
    assert(text_before_fill(whole) =~= text);
}

/// A last line without a terminator is a line like any other: the buffer holds the same
/// lines with the terminator and without it.
pub proof fn lemma_unterminated_last_line(head: Seq<u8>, last: Seq<u8>)
    requires
        head.len() == 0 || head.last() == TERMINATOR,
        last.len() > 0,
        forall|i: int| 0 <= i < last.len() ==> last[i] != TERMINATOR && last[i] != FILL,
    ensures
        record_lines(head + last) == record_lines(head).push(last),
        record_lines(head + last.push(TERMINATOR)) == record_lines(head + last),
{
    let ended = last.push(TERMINATOR);
    lemma_record_lines_concat(head, last);
    lemma_record_lines_concat(head, ended);
    lemma_last_line_start_unique(last, 0);
    lemma_find_from_unique(last, FILL, 0, last.len() as int);
    assert(text_before_fill(last) =~= last);
    lemma_text_before_fill_concat(ended, Seq::<u8>::empty());
    lemma_find_from_unique(last, TERMINATOR, 0, last.len() as int);
    assert forall|j: int| 0 <= j < last.len() implies ended[j] != TERMINATOR by {
        assert(ended[j] == last[j]);
    }
    lemma_find_from_unique(ended, TERMINATOR, 0, last.len() as int);
    assert(ended.subrange(0, last.len() as int) == last);
    assert(ended.skip(last.len() as int + 1).len() == 0);
    assert(seq![last] + Seq::<Seq<u8>>::empty() == seq![last]);
    assert(lines_of(ended.skip(last.len() as int + 1)) == Seq::<Seq<u8>>::empty());
    assert(lines_of(ended) == seq![last]);
    assert(lines_of(last) == seq![last]);
    assert(record_lines(head) + seq![last] == record_lines(head).push(last));
}

/// A line with a delimiter says what its key text and its value text say.
proof fn lemma_line_with_delimiter(s: Seq<u8>, start: int, semi: int, end: int)
    requires
        0 <= start <= semi < end <= s.len(),
        s[semi] == DELIMITER,
        forall|j: int| start <= j < semi ==> s[j] != DELIMITER,
        end == find_from(s, TERMINATOR, start),
    ensures
        parse_line(s.subrange(start, end)) == match parse_tenths(s.subrange(semi + 1, end)) {
            Some(v) => Ok::<Observation, ScanError>(
                Observation { key: key_of(s.subrange(start, semi)), value: v as int },
            ),
            None => Err::<Observation, ScanError>(ScanError::MalformedValue),
        },
{
    let line = s.subrange(start, end);
    assert forall|j: int| 0 <= j < semi - start implies line[j] != DELIMITER by {
        assert(line[j] == s[start + j]);
    }
    assert(line[semi - start] == s[semi]);
    lemma_find_from_unique(line, DELIMITER, 0, semi - start);
    assert(line.subrange(0, semi - start) == s.subrange(start, semi));
    assert(line.skip(semi - start + 1) == s.subrange(semi + 1, end));
}

/// A line without a delimiter is no record.
proof fn lemma_line_without_delimiter(s: Seq<u8>, start: int, end: int)
    requires
        0 <= start <= end <= s.len(),
        forall|j: int| start <= j < end ==> s[j] != DELIMITER,
    ensures
        parse_line(s.subrange(start, end)) == Err::<Observation, ScanError>(
            ScanError::MissingDelimiter,
        ),
{
    let line = s.subrange(start, end);
    assert forall|j: int| 0 <= j < line.len() implies line[j] != DELIMITER by {
        assert(line[j] == s[start + j]);
    }
    lemma_find_from_unique(line, DELIMITER, 0, line.len() as int);
}

/// A line with a second delimiter is no record: its value is no decimal.
proof fn lemma_line_with_two_delimiters(s: Seq<u8>, start: int, semi: int, again: int, end: int)
    requires
        0 <= start <= semi < again < end <= s.len(),
        s[semi] == DELIMITER,
        s[again] == DELIMITER,
        forall|j: int| start <= j < semi ==> s[j] != DELIMITER,
        end == find_from(s, TERMINATOR, start),
    ensures
        parse_line(s.subrange(start, end)) == Err::<Observation, ScanError>(
            ScanError::MalformedValue,
        ),
{
    let text = s.subrange(semi + 1, end);
    lemma_line_with_delimiter(s, start, semi, end);
    assert(text[again - semi - 1] == s[again]);
    if is_decimal(text) {
        lemma_decimal_bytes(text, again - semi - 1);
    }
}

/// Where the lines up to some line are records and that line is not, what is wrong with it
/// is the first failure.
proof fn lemma_failure_found(
    all: Seq<Seq<u8>>,
    done: Seq<Seq<u8>>,
    line: Seq<u8>,
    rest: Seq<Seq<u8>>,
    e: ScanError,
)
    requires
        all == done + (seq![line] + rest),
        all_parse(done),
        parse_line(line) == Err::<Observation, ScanError>(e),
    ensures
        first_failure(all, e),
{
    let i = done.len() as int;
    assert(all[i] == line);
    assert(all.subrange(0, i) == done);
}

/// One more record among the lines done: its observation comes last.
proof fn lemma_record_found(
    all: Seq<Seq<u8>>,
    done: Seq<Seq<u8>>,
    line: Seq<u8>,
    rest: Seq<Seq<u8>>,
    o: Observation,
)
    requires
        all == done + (seq![line] + rest),
        all_parse(done),
        parse_line(line) == Ok::<Observation, ScanError>(o),
    ensures
        all == done.push(line) + rest,
        all_parse(done.push(line)),
        observations(done.push(line)) == observations(done).push(o),
{
    assert(done.push(line) + rest == done + (seq![line] + rest));
    assert forall|i: int| 0 <= i < done.push(line).len() implies (#[trigger] parse_line(
        done.push(line)[i],
    )) is Ok by {
        if i < done.len() {
            assert(done.push(line)[i] == done[i]);
        }
    }
    assert(observations(done.push(line)) =~= observations(done).push(o));
}

/// Scans text and aggregates its records by key, in one pass over its delimiters and
/// terminators.
fn scan_lines(buffer: &[u8]) -> (r: Result<AggregationTable, ScanError>)
    ensures
        r is Ok <==> all_parse(lines_of(buffer@)),
        r matches Ok(t) ==> t@ == aggregate(observations(lines_of(buffer@))),
        r matches Err(e) ==> first_failure(lines_of(buffer@), e),
{
    let n: usize = buffer.len();
    let mut table = AggregationTable::new();
    let mut it = find_each(DELIMITER, TERMINATOR, buffer);
    let mut line_start: usize = 0;
    let ghost all = lines_of(buffer@);
    let ghost mut done: Seq<Seq<u8>> = Seq::empty();
    proof {
        assert(buffer@.skip(0) == buffer@);
        assert(done + all == all);
        assert(observations(done) == Seq::<Observation>::empty());
        assert(aggregate(Seq::<Observation>::empty()) =~= empty_table());
    }
    while line_start < n
        invariant
            n == buffer@.len(),
            line_start <= n,
            all == lines_of(buffer@),
            pending(it) == matches_from(buffer@, DELIMITER, TERMINATOR, line_start as int),
            all == done + lines_of(buffer@.skip(line_start as int)),
            all_parse(done),
            table@ == aggregate(observations(done)),
            done.len() <= line_start,
        decreases n - line_start,
    {
        let ghost line_end = find_from(buffer@, TERMINATOR, line_start as int);
        let ghost line = buffer@.subrange(line_start as int, line_end);
        let ghost rest = lines_of(
            buffer@.skip(
                if line_end < n {
                    line_end + 1
                } else {
                    n as int
                },
            ),
        );
        proof {
            lemma_lines_of_step(buffer@, line_start as int);
            lemma_find_from(buffer@, TERMINATOR, line_start as int);
            lemma_matches_from(buffer@, DELIMITER, TERMINATOR, line_start as int);
        }
        let semi: usize = match next_match(&mut it) {
            Some(at) => at,
            None => {
                proof {
                    lemma_line_without_delimiter(buffer@, line_start as int, line_end);
                    lemma_failure_found(all, done, line, rest, ScanError::MissingDelimiter);
                }
                return Err(ScanError::MissingDelimiter);
            },
        };
        if buffer[semi] != DELIMITER {
            proof {
                lemma_line_without_delimiter(buffer@, line_start as int, line_end);
                lemma_failure_found(all, done, line, rest, ScanError::MissingDelimiter);
            }
            return Err(ScanError::MissingDelimiter);
        }
        proof {
            lemma_matches_from(buffer@, DELIMITER, TERMINATOR, semi + 1);
        }
        let end: usize = match next_match(&mut it) {
            Some(at) => {
                if buffer[at] != TERMINATOR {
                    proof {
                        lemma_line_with_two_delimiters(
                            buffer@,
                            line_start as int,
                            semi as int,
                            at as int,
                            line_end,
                        );
                        lemma_failure_found(all, done, line, rest, ScanError::MalformedValue);
                    }
                    return Err(ScanError::MalformedValue);
                }
                at
            },
            None => n,
        };
        proof {
            lemma_line_with_delimiter(buffer@, line_start as int, semi as int, line_end);
        }
        let key = make_key(slice_subrange(buffer, line_start, semi));
        let value: i32 = match fixed_point_parse(slice_subrange(buffer, semi + 1, end)) {
            Some(v) => v,
            None => {
                proof {
                    lemma_failure_found(all, done, line, rest, ScanError::MalformedValue);
                }
                return Err(ScanError::MalformedValue);
            },
        };
        let ghost o = Observation { key: key@, value: value as int };
        proof {
            lemma_record_found(all, done, line, rest, o);
            lemma_values_for_len(observations(done), key@);
            lemma_aggregate_push(observations(done), o);
        }
        // A key has no more observations than the buffer has bytes, so this cannot fail.
        assert(table@.contains_key(key@) ==> table@[key@].count < u64::MAX);
        match table.accumulate(key, value) {
            Ok(()) => {},
            Err(e) => {
                return Err(e);
            },
        }
        proof {
            done = done.push(line);
        }
        line_start = if end < n {
            end + 1
        } else {
            n
        };
    }
    proof {
        assert(lines_of(buffer@.skip(n as int)) == Seq::<Seq<u8>>::empty());
        assert(done + Seq::<Seq<u8>>::empty() == done);
    }
    Ok(table)
}

/// Scans a buffer of whole lines and aggregates its records by key.
///
/// Fill bytes behind the last terminator, and what follows them, are not part of the text:
/// nothing is made of them. A last line without a terminator is a line.
///
/// Fails at the first line that is no record: one without a delimiter, or one whose value
/// is not a decimal of the accepted form.
pub fn process_chunk(buffer: &[u8]) -> (r: Result<AggregationTable, ScanError>)
    ensures
        r is Ok <==> all_parse(record_lines(buffer@)),
        r matches Ok(t) ==> t@ == aggregate(observations(record_lines(buffer@))),
        r matches Err(e) ==> first_failure(record_lines(buffer@), e),
{
    let n: usize = buffer.len();
    let mut start: usize = n;
    while start > 0 && buffer[start - 1] != TERMINATOR
        invariant
            start <= n,
            n == buffer@.len(),
            forall|j: int| start <= j < n ==> buffer@[j] != TERMINATOR,
        decreases start,
    {
        start -= 1;
    }
    let tail = slice_subrange(buffer, start, n);
    let end: usize = match memchr::memchr(FILL, tail) {
        Some(i) => start + i,
        None => n,
    };
    proof {
        lemma_last_line_start_unique(buffer@, start as int);
        assert forall|j: int| start <= j < end implies buffer@[j] != FILL by {
            assert(tail@[j - start] == buffer@[j]);
        }
        if end < n {
            assert(tail@[end - start] == buffer@[end as int]);
        }
        lemma_find_from_unique(buffer@, FILL, start as int, end as int);
    }
    scan_lines(slice_subrange(buffer, 0, end))
}

} // verus!
