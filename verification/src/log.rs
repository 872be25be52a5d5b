//! The commit log. It is text: a header of thirty-one bytes, which ends in
//! the number of commits that the latest snapshot covers, written with seven
//! digits, and then one line for each commit, `key -> value`, each begun by a
//! line feed.

use crate::messages::Key;
use crate::replica::Commit;
use crate::snapshot::entry_views;
use crate::text::{
    all_digits, decimal, decimal_bytes, digits_value, drop_blanks, is_ascii_bytes, is_blank,
    is_digit, lemma_ascii_is_utf8, lemma_decimal_len, lemma_decimal_shape, lemma_parse_decimal,
    padded_decimal, parse_u64, parsed_u64, pow10, push_decimal, skip_blanks, string_from_utf8,
    trimmed,
};
use vstd::prelude::*;
use vstd::slice::slice_subrange;
use vstd::utf8::{
    decode_utf8, encode_utf8, encode_utf8_decode_utf8, valid_utf8, valid_utf8_concat,
};

verus! {

/// Where in the log the number of covered commits stands.
pub const WATERMARK_OFFSET: usize = 24;

/// How many digits that number has.
pub const WATERMARK_WIDTH: usize = 7;

/// The largest number that the header can hold.
pub const WATERMARK_MAX: usize = 9_999_999;

/// The words `Snapshotted Until Line: `, with which the log begins.
pub open spec fn header_words() -> Seq<u8> {
    seq![
        83u8, 110u8, 97u8, 112u8, 115u8, 104u8, 111u8, 116u8, 116u8, 101u8, 100u8, 32u8, 85u8,
        110u8, 116u8, 105u8, 108u8, 32u8, 76u8, 105u8, 110u8, 101u8, 58u8, 32u8,
    ]
}

/// The header of a log whose latest snapshot covers `mark` commits.
pub open spec fn header(mark: nat) -> Seq<u8> {
    header_words() + padded_decimal(mark, WATERMARK_WIDTH as nat)
}

/// The line of a commit: a line feed, the key in decimal, an arrow between
/// two spaces, the bytes of the value.
pub open spec fn commit_line(key: Key, value: Seq<u8>) -> Seq<u8> {
    seq![10u8] + decimal(key as nat) + seq![32u8, 45u8, 62u8, 32u8] + value
}

/// Where the first byte `b` of `s` at or after `from` stands, or the length
/// of `s` if there is none.
pub open spec fn index_from(s: Seq<u8>, from: int, b: u8) -> int
    decreases s.len() - from,
{
    if from >= s.len() {
        s.len() as int
    } else if s[from] == b {
        from
    } else {
        index_from(s, from + 1, b)
    }
}

/// Where the line that begins at `from` ends: before its line feed, and
/// before the carriage return in front of that, if there is one.
pub open spec fn line_end(s: Seq<u8>, from: int) -> int {
    let feed = index_from(s, from, 10);
    if from < feed < s.len() && s[feed - 1] == 13 {
        feed - 1
    } else {
        feed
    }
}

/// The lines of `s` from position `from` on. A line ends with a line feed or
/// with the text; the text after the last line feed is a line unless it is
/// empty.
pub open spec fn lines_from(s: Seq<u8>, from: int) -> Seq<Seq<u8>>
    decreases s.len() - from,
    via lines_from_ends
{
    if from < 0 || from >= s.len() {
        Seq::empty()
    } else {
        let feed = index_from(s, from, 10);
        let rest = if feed < s.len() {
            lines_from(s, feed + 1)
        } else {
            Seq::empty()
        };
        seq![s.subrange(from, line_end(s, from))] + rest
    }
}

#[via_fn]
proof fn lines_from_ends(s: Seq<u8>, from: int) {
    lemma_index_from(s, from, 10);
}

/// A byte is found at or after the place from which it is sought.
pub proof fn lemma_index_from(s: Seq<u8>, from: int, b: u8)
    ensures
        from <= s.len() ==> from <= index_from(s, from, b) <= s.len(),
        from >= s.len() ==> index_from(s, from, b) == s.len(),
        from <= index_from(s, from, b) < s.len() ==> s[index_from(s, from, b)] == b,
        forall|i: int| from <= i < index_from(s, from, b) && 0 <= i ==> s[i] != b,
    decreases s.len() - from,
{
    if from < s.len() && s[from] != b {
        lemma_index_from(s, from + 1, b);
    }
}

/// The lines of a log.
pub open spec fn lines_of(s: Seq<u8>) -> Seq<Seq<u8>> {
    lines_from(s, 0)
}

/// The number of covered commits that the header of a log tells: what
/// stands in the first line from the twenty-fifth byte on, without the
/// blanks around it, if that is a number.
pub open spec fn watermark_of(s: Seq<u8>) -> Option<u64> {
    let lines = lines_of(s);
    if lines.len() == 0 || lines[0].len() < WATERMARK_OFFSET {
        None
    } else {
        parsed_u64(trimmed(lines[0].skip(WATERMARK_OFFSET as int)))
    }
}

/// The entry that a line of the log holds: the key is what stands before the
/// first space, the value all that stands after it. A line without a space,
/// with a key that is no number, or with a value that is not UTF-8 holds
/// none.
pub open spec fn entry_of(line: Seq<u8>) -> Option<(Key, Seq<char>)> {
    let space = index_from(line, 0, 32);
    if space >= line.len() {
        None
    } else {
        match parsed_u64(line.take(space)) {
            Some(key) => if valid_utf8(line.skip(space + 1)) {
                Some((key, decode_utf8(line.skip(space + 1))))
            } else {
                None
            },
            None => None,
        }
    }
}

/// The entries that lines hold, in order.
pub open spec fn entries_in(lines: Seq<Seq<u8>>) -> Seq<(Key, Seq<char>)>
    decreases lines.len(),
{
    if lines.len() == 0 {
        Seq::empty()
    } else {
        match entry_of(lines.last()) {
            Some(entry) => entries_in(lines.drop_last()).push(entry),
            None => entries_in(lines.drop_last()),
        }
    }
}

/// The lines of the commits that no snapshot covers: all lines but the
/// header and the `mark` lines after it.
pub open spec fn uncovered(lines: Seq<Seq<u8>>, mark: int) -> Seq<Seq<u8>> {
    if 1 + mark <= lines.len() {
        lines.subrange(1 + mark, lines.len() as int)
    } else {
        Seq::empty()
    }
}

/// What a log holds.
pub struct Recovered {
    /// The number of commits that the latest snapshot covers.
    pub watermark: u64,
    /// The number of commits in the log.
    pub commits: usize,
    /// The entries of the commits that no snapshot covers.
    pub entries: Vec<(Key, String)>,
}

/// Why a log could not be read.
#[derive(Debug, Clone, Copy, PartialEq, Eq)]
pub enum LogError {
    /// The log has no header, or the header tells no number.
    BadHeader,
}

/// The header of a new log, which no snapshot covers.
pub fn initial_header() -> (out: Vec<u8>)
    ensures
        out@ == header(0),
        out@.len() == WATERMARK_OFFSET + WATERMARK_WIDTH,
{
    let mut out: Vec<u8> = vec![
        83u8, 110u8, 97u8, 112u8, 115u8, 104u8, 111u8, 116u8, 116u8, 101u8, 100u8, 32u8, 85u8,
        110u8, 116u8, 105u8, 108u8, 32u8, 76u8, 105u8, 110u8, 101u8, 58u8, 32u8,
    ];
    assert(out@ =~= header_words());
    match watermark_field(0) {
        Some(field) => {
            out.extend_from_slice(field.as_slice());
        },
        None => {},
    }
    out
}

/// The seven digits to write at [`WATERMARK_OFFSET`] once a snapshot covers
/// `count` commits, or nothing if seven digits cannot hold the number.
pub fn watermark_field(count: usize) -> (field: Option<Vec<u8>>)
    ensures
        count <= WATERMARK_MAX ==> (field matches Some(digits) && digits@ == padded_decimal(
            count as nat,
            WATERMARK_WIDTH as nat,
        ) && digits@.len() == WATERMARK_WIDTH),
        count > WATERMARK_MAX ==> field is None,
{
    if count > WATERMARK_MAX {
        return None;
    }
    let digits = decimal_bytes(count as u64);
    proof {
        reveal_with_fuel(pow10, 8);
        lemma_decimal_len(count as nat, 7);
        lemma_decimal_shape(count as nat);
    }
    let mut field: Vec<u8> = Vec::new();
    let zeros: usize = WATERMARK_WIDTH - digits.len();
    let mut i: usize = 0;
    while i < zeros
        invariant
            i <= zeros,
            field@ == Seq::new(i as nat, |j: int| 48u8),
        decreases zeros - i,
    {
        field.push(48u8);
        i = i + 1;
        assert(field@ =~= Seq::new(i as nat, |j: int| 48u8));
    }
    field.extend_from_slice(digits.as_slice());
    assert(field@ =~= padded_decimal(count as nat, WATERMARK_WIDTH as nat));
    Some(field)
}

/// The line to append to the log for `commit`.
pub fn commit_entry(commit: &Commit) -> (line: Vec<u8>)
    ensures
        line@ == commit_line(commit.key, encode_utf8(commit.value@)),
{
    let mut line: Vec<u8> = Vec::new();
    line.push(10u8);
    push_decimal(&mut line, commit.key);
    line.push(32u8);
    line.push(45u8);
    line.push(62u8);
    line.push(32u8);
    line.extend_from_slice(commit.value.as_str().as_bytes());
    assert(line@ =~= commit_line(commit.key, encode_utf8(commit.value@)));
    line
}

/// Where the first byte `b` of `s` at or after `from` stands.
fn find(s: &[u8], from: usize, b: u8) -> (at: usize)
    requires
        from <= s@.len(),
    ensures
        at == index_from(s@, from as int, b),
        from <= at <= s@.len(),
{
    let mut i: usize = from;
    while i < s.len() && s[i] != b
        invariant
            from <= i <= s@.len(),
            index_from(s@, i as int, b) == index_from(s@, from as int, b),
        decreases s@.len() - i,
    {
        i = i + 1;
    }
    i
}

/// The bytes of `s` from `from` up to `to`.
fn copy(s: &[u8], from: usize, to: usize) -> (out: Vec<u8>)
    requires
        from <= to <= s@.len(),
    ensures
        out@ == s@.subrange(from as int, to as int),
{
    let mut out: Vec<u8> = Vec::new();
    out.extend_from_slice(slice_subrange(s, from, to));
    assert(out@ =~= s@.subrange(from as int, to as int));
    out
}

/// Where the line of `s` that begins at `from` ends.
fn end_of_line(s: &[u8], from: usize) -> (ends: (usize, usize))
    requires
        from <= s@.len(),
    ensures
        ends.0 == line_end(s@, from as int),
        ends.1 == index_from(s@, from as int, 10),
        from <= ends.0 <= ends.1 <= s@.len(),
{
    let feed: usize = find(s, from, 10);
    if from < feed && feed < s.len() && s[feed - 1] == 13 {
        (feed - 1, feed)
    } else {
        (feed, feed)
    }
}

/// The number written in `field`, without the blanks around it.
fn read_number(field: &[u8]) -> (r: Option<u64>)
    ensures
        r == parsed_u64(trimmed(field@)),
{
    let mut start: usize = 0;
    while start < field.len() && is_blank_byte(field[start])
        invariant
            start <= field@.len(),
            skip_blanks(field@, start as int) == skip_blanks(field@, 0),
        decreases field@.len() - start,
    {
        start = start + 1;
    }
    let mut end: usize = field.len();
    while start < end && is_blank_byte(field[end - 1])
        invariant
            start <= end <= field@.len(),
            drop_blanks(field@, start as int, end as int) == drop_blanks(
                field@,
                start as int,
                field@.len() as int,
            ),
        decreases end - start,
    {
        end = end - 1;
    }
    parse_u64(field, start, end)
}

fn is_blank_byte(b: u8) -> (r: bool)
    ensures
        r == is_blank(b),
{
    b == 32 || (9 <= b && b <= 13)
}

/// The entry that `line` holds.
pub fn read_entry(line: &[u8]) -> (r: Option<(Key, String)>)
    ensures
        match entry_of(line@) {
            Some(entry) => r matches Some(found) && found.0 == entry.0 && found.1@ == entry.1,
            None => r is None,
        },
{
    let space: usize = find(line, 0, 32);
    if space >= line.len() {
        return None;
    }
    assert(line@.subrange(0, space as int) =~= line@.take(space as int));
    match parse_u64(line, 0, space) {
        None => None,
        Some(key) => {
            let rest = copy(line, space + 1, line.len());
            assert(rest@ =~= line@.skip(space + 1));
            match string_from_utf8(rest) {
                None => None,
                Some(value) => {
                    proof {
                        encode_utf8_decode_utf8(value@);
                    }
                    Some((key, value))
                },
            }
        },
    }
}

/// Reads a log: the number in its header, the number of its commits, and the
/// entries of the commits from that number on.
pub fn read_log(log: &[u8]) -> (r: Result<Recovered, LogError>)
    ensures
        match watermark_of(log@) {
            None => r matches Err(e) && e == LogError::BadHeader,
            Some(mark) => r matches Ok(found) && found.watermark == mark && found.commits
                == lines_of(log@).len() - 1 && entry_views(found.entries@) == entries_in(
                uncovered(lines_of(log@), mark as int),
            ),
        },
{
    if log.len() == 0 {
        return Err(LogError::BadHeader);
    }
    let (first_end, first_feed) = end_of_line(log, 0);
    let ghost first = log@.subrange(0, first_end as int);
    assert(lines_of(log@)[0] == first);
    if first_end < WATERMARK_OFFSET {
        return Err(LogError::BadHeader);
    }
    let field = copy(log, WATERMARK_OFFSET, first_end);
    assert(field@ =~= first.skip(WATERMARK_OFFSET as int));
    let mark: u64 = match read_number(field.as_slice()) {
        Some(mark) => mark,
        None => {
            return Err(LogError::BadHeader);
        },
    };
    let mut entries: Vec<(Key, String)> = Vec::new();
    let mut commits: usize = 0;
    let mut at: usize = if first_feed < log.len() {
        first_feed + 1
    } else {
        first_feed
    };
    let ghost mut done: Seq<Seq<u8>> = seq![first];
    proof {
        lemma_index_from(log@, 0, 10);
        assert(lines_of(log@) =~= done + lines_from(log@, at as int));
        assert(uncovered(done, mark as int) =~= Seq::<Seq<u8>>::empty());
    }
    while at < log.len()
        invariant
            at <= log@.len(),
            commits + 1 == done.len(),
            commits < at,
            lines_of(log@) == done + lines_from(log@, at as int),
            entry_views(entries@) == entries_in(uncovered(done, mark as int)),
        decreases log@.len() - at,
    {
        let (end, feed) = end_of_line(log, at);
        let ghost line = log@.subrange(at as int, end as int);
        let ghost next = done.push(line);
        let ghost before = entry_views(entries@);
        if commits as u64 >= mark {
            let bytes = copy(log, at, end);
            match read_entry(bytes.as_slice()) {
                Some(entry) => {
                    entries.push(entry);
                    assert(entry_views(entries@) =~= before.push((entry.0, entry.1@)));
                },
                None => {},
            }
            proof {
                assert(uncovered(next, mark as int).drop_last() =~= uncovered(done, mark as int));
                assert(uncovered(next, mark as int).last() == line);
            }
        } else {
            assert(uncovered(next, mark as int) =~= Seq::<Seq<u8>>::empty());
        }
        proof {
            lemma_index_from(log@, at as int, 10);
            let later = if feed < log@.len() {
                feed + 1
            } else {
                feed as int
            };
            assert(done + lines_from(log@, at as int) =~= next + lines_from(log@, later));
            done = next;
        }
        commits = commits + 1;
        at = if feed < log.len() {
            feed + 1
        } else {
            feed
        };
    }
    assert(lines_of(log@) =~= done);
    Ok(Recovered { watermark: mark, commits, entries })
}

/// A byte that stands at `at` and nowhere from `from` up to `at` is found
/// at `at`; a byte that stands nowhere from `from` on is found at the end.
pub proof fn lemma_index_from_at(s: Seq<u8>, from: int, b: u8, at: int)
    requires
        0 <= from <= at <= s.len(),
        forall|i: int| from <= i < at ==> s[i] != b,
        at < s.len() ==> s[at] == b,
    ensures
        index_from(s, from, b) == at,
    decreases at - from,
{
    if from < at {
        lemma_index_from_at(s, from + 1, b, at);
    }
}

/// Zeros in front of digits do not change the number that the digits
/// denote.
pub proof fn lemma_padded_value(zeros: nat, digits: Seq<u8>)
    requires
        all_digits(digits),
    ensures
        all_digits(Seq::new(zeros, |i: int| 48u8) + digits),
        digits_value(Seq::new(zeros, |i: int| 48u8) + digits) == digits_value(digits),
    decreases digits.len(), zeros,
{
    let padded = Seq::new(zeros, |i: int| 48u8) + digits;
    if digits.len() > 0 {
        lemma_padded_value(zeros, digits.drop_last());
        assert(padded.drop_last() =~= Seq::new(zeros, |i: int| 48u8) + digits.drop_last());
        assert(padded.last() == digits.last());
    } else if zeros > 0 {
        lemma_padded_value((zeros - 1) as nat, digits);
        assert(padded.drop_last() =~= Seq::new((zeros - 1) as nat, |i: int| 48u8) + digits);
        assert(padded.last() == 48u8);
    } else {
        assert(padded =~= Seq::<u8>::empty());
    }
}

/// The header of a log is thirty-one bytes, none of them a line feed, the
/// last of them a digit, and the seven digits at its end read back as the
/// number that was written.
pub proof fn lemma_header(mark: nat)
    requires
        mark <= WATERMARK_MAX,
    ensures
        header(mark).len() == WATERMARK_OFFSET + WATERMARK_WIDTH,
        forall|i: int| 0 <= i < header(mark).len() ==> header(mark)[i] != 10,
        is_digit(header(mark).last()),
        parsed_u64(trimmed(header(mark).skip(WATERMARK_OFFSET as int))) == Some(mark as u64),
{
    reveal_with_fuel(pow10, 8);
    lemma_decimal_len(mark, 7);
    lemma_decimal_shape(mark);
    let digits = decimal(mark);
    let zeros = (7 - digits.len()) as nat;
    let field = padded_decimal(mark, 7);
    lemma_padded_value(zeros, digits);
    assert(field.len() == 7);
    assert(header(mark).skip(WATERMARK_OFFSET as int) =~= field);
    assert(is_digit(field[0]));
    assert(is_digit(field[6]));
    assert(skip_blanks(field, 0) == 0);
    assert(drop_blanks(field, 0, 7) == 7);
    assert(trimmed(field) =~= field);
    assert(header(mark).last() == field[6]);
    assert forall|i: int| 0 <= i < header(mark).len() implies header(mark)[i] != 10 by {
        if i >= 24 {
            assert(header(mark)[i] == field[i - 24]);
            assert(is_digit(field[i - 24]));
        }
    }
}

/// The line that is written for a commit reads back as the key of the
/// commit with, as its value, the arrow, a space and the value that was
/// written: a line is split at its first space.
pub proof fn lemma_commit_line_read(key: Key, value: Seq<u8>)
    requires
        valid_utf8(value),
    ensures
        commit_line(key, value)[0] == 10,
        entry_of(commit_line(key, value).skip(1)) == Some(
            (key, decode_utf8(seq![45u8, 62u8, 32u8] + value)),
        ),
{
    let digits = decimal(key as nat);
    let line = commit_line(key, value).skip(1);
    let arrow = seq![45u8, 62u8, 32u8];
    lemma_decimal_shape(key as nat);
    lemma_parse_decimal(key);
    assert(line =~= digits + seq![32u8] + arrow + value);
    assert forall|i: int| 0 <= i < digits.len() implies line[i] != 32 by {
        assert(is_digit(digits[i]));
    }
    lemma_index_from_at(line, 0, 32, digits.len() as int);
    assert(line.take(digits.len() as int) =~= digits);
    assert(line.skip(digits.len() as int + 1) =~= arrow + value);
    assert(is_ascii_bytes(arrow));
    lemma_ascii_is_utf8(arrow);
    valid_utf8_concat(arrow, value);
}

/// The log that holds the header for `mark` and then a line for each of
/// `commits`, a key with the bytes of its value.
pub open spec fn log_of(mark: nat, commits: Seq<(Key, Seq<u8>)>) -> Seq<u8>
    decreases commits.len(),
{
    if commits.len() == 0 {
        header(mark)
    } else {
        log_of(mark, commits.drop_last()) + commit_line(commits.last().0, commits.last().1)
    }
}

/// A value can stand in a line of the log if it is UTF-8, holds no line
/// feed, and does not end in a carriage return.
pub open spec fn fits_a_line(value: Seq<u8>) -> bool {
    &&& valid_utf8(value)
    &&& forall|i: int| 0 <= i < value.len() ==> value[i] != 10
    &&& value.len() > 0 ==> value.last() != 13
}

/// What the lines of `commits` read back as: each key with the arrow, a
/// space and its value.
pub open spec fn read_back(commits: Seq<(Key, Seq<u8>)>) -> Seq<(Key, Seq<char>)> {
    Seq::new(
        commits.len(),
        |i: int| (commits[i].0, decode_utf8(seq![45u8, 62u8, 32u8] + commits[i].1)),
    )
}

/// The commits from the `mark`-th on.
pub open spec fn beyond(commits: Seq<(Key, Seq<u8>)>, mark: nat) -> Seq<(Key, Seq<u8>)> {
    if mark <= commits.len() {
        commits.subrange(mark as int, commits.len() as int)
    } else {
        Seq::empty()
    }
}

/// The lines of `commits`, without the line feeds that begin them.
pub open spec fn bodies(commits: Seq<(Key, Seq<u8>)>) -> Seq<Seq<u8>> {
    Seq::new(commits.len(), |i: int| commit_line(commits[i].0, commits[i].1).skip(1))
}

/// Where a byte is found in a text does not depend on what follows the
/// text, unless it is not found in the text at all: then it is found where
/// it first stands in what follows.
proof fn lemma_index_from_longer(s: Seq<u8>, more: Seq<u8>, from: int, b: u8)
    requires
        0 <= from <= s.len(),
    ensures
        index_from(s, from, b) < s.len() ==> index_from(s + more, from, b) == index_from(
            s,
            from,
            b,
        ),
        index_from(s, from, b) == s.len() ==> index_from(s + more, from, b) == s.len() + index_from(
            more,
            0,
            b,
        ),
    decreases s.len() - from,
{
    let whole = s + more;
    lemma_index_from(s, from, b);
    lemma_index_from(more, 0, b);
    let found = index_from(s, from, b);
    if found < s.len() {
        assert forall|i: int| from <= i < found implies whole[i] != b by {
            assert(whole[i] == s[i]);
        }
        assert(whole[found] == s[found]);
        lemma_index_from_at(whole, from, b, found);
    } else {
        let later = index_from(more, 0, b);
        assert forall|i: int| from <= i < s.len() + later implies whole[i] != b by {
            if i < s.len() {
                assert(whole[i] == s[i]);
            } else {
                assert(whole[i] == more[i - s.len()]);
            }
        }
        if later < more.len() {
            assert(whole[s.len() + later] == more[later]);
        }
        lemma_index_from_at(whole, from, b, s.len() + later);
    }
}

/// A text without a line feed is one line, unless it is empty.
proof fn lemma_one_line(s: Seq<u8>, from: int)
    requires
        0 <= from < s.len(),
        forall|i: int| from <= i < s.len() ==> s[i] != 10,
    ensures
        lines_from(s, from) == seq![s.subrange(from, s.len() as int)],
{
    lemma_index_from_at(s, from, 10, s.len() as int);
    assert(lines_from(s, from) =~= seq![s.subrange(from, s.len() as int)]);
}

proof fn lemma_lines_from_longer(log: Seq<u8>, body: Seq<u8>, from: int)
    requires
        0 <= from < log.len(),
        log.last() != 10,
        log.last() != 13,
        body.len() > 0,
        forall|i: int| 0 <= i < body.len() ==> body[i] != 10,
    ensures
        lines_from(log + seq![10u8] + body, from) == lines_from(log, from).push(body),
    decreases log.len() - from,
{
    let more = seq![10u8] + body;
    let whole = log + more;
    assert(log + seq![10u8] + body =~= whole);
    lemma_index_from_longer(log, more, from, 10);
    lemma_index_from(log, from, 10);
    let feed = index_from(log, from, 10);
    assert(more[0] == 10);
    assert(index_from(more, 0, 10) == 0);
    assert(index_from(whole, from, 10) == feed);
    if feed < log.len() {
        assert(log[feed] == 10);
        assert(feed + 1 < log.len());
        assert(feed > from ==> whole[feed - 1] == log[feed - 1]);
        assert(whole.subrange(from, line_end(whole, from)) =~= log.subrange(
            from,
            line_end(log, from),
        ));
        lemma_lines_from_longer(log, body, feed + 1);
        assert(lines_from(whole, from) =~= lines_from(log, from).push(body));
    } else {
        assert(feed > from ==> whole[feed - 1] == log[feed - 1]);
        assert(line_end(whole, from) == feed);
        assert(line_end(log, from) == feed);
        assert(whole.subrange(from, feed) =~= log.subrange(from, feed));
        assert forall|i: int| feed + 1 <= i < whole.len() implies whole[i] != 10 by {
            assert(whole[i] == body[i - feed - 1]);
        }
        lemma_one_line(whole, feed + 1);
        assert(whole.subrange(feed + 1, whole.len() as int) =~= body);
        assert(lines_from(log, from) =~= seq![log.subrange(from, feed)]);
        assert(lines_from(whole, from) =~= lines_from(log, from).push(body));
    }
}

/// A line that is appended to a log becomes its last line and leaves the
/// lines before it as they were.
pub proof fn lemma_lines_appended(log: Seq<u8>, key: Key, value: Seq<u8>)
    requires
        log.len() > 0,
        log.last() != 10,
        log.last() != 13,
        fits_a_line(value),
    ensures
        lines_of(log + commit_line(key, value)) == lines_of(log).push(
            commit_line(key, value).skip(1),
        ),
        (log + commit_line(key, value)).last() != 10,
        (log + commit_line(key, value)).last() != 13,
{
    let line = commit_line(key, value);
    let body = line.skip(1);
    lemma_decimal_shape(key as nat);
    let digits = decimal(key as nat);
    assert(body =~= digits + seq![32u8, 45u8, 62u8, 32u8] + value);
    assert forall|i: int| 0 <= i < body.len() implies body[i] != 10 by {
        if i < digits.len() {
            assert(is_digit(digits[i]));
        } else if i >= digits.len() + 4 {
            assert(body[i] == value[i - digits.len() - 4]);
        }
    }
    assert(log + line =~= log + seq![10u8] + body);
    lemma_lines_from_longer(log, body, 0);
    if value.len() > 0 {
        assert((log + line).last() == value.last());
    } else {
        assert((log + line).last() == 32u8);
    }
}

/// The lines of a log are its header and the lines of its commits.
pub proof fn lemma_log_lines(mark: nat, commits: Seq<(Key, Seq<u8>)>)
    requires
        mark <= WATERMARK_MAX,
        forall|i: int| 0 <= i < commits.len() ==> fits_a_line(#[trigger] commits[i].1),
    ensures
        lines_of(log_of(mark, commits)) == seq![header(mark)] + bodies(commits),
        log_of(mark, commits).len() > 0,
        log_of(mark, commits).last() != 10,
        log_of(mark, commits).last() != 13,
    decreases commits.len(),
{
    lemma_header(mark);
    if commits.len() == 0 {
        lemma_one_line(header(mark), 0);
        assert(header(mark).subrange(0, header(mark).len() as int) =~= header(mark));
        assert(seq![header(mark)] + bodies(commits) =~= seq![header(mark)]);
    } else {
        let prior = commits.drop_last();
        assert forall|i: int| 0 <= i < prior.len() implies fits_a_line(#[trigger] prior[i].1) by {
            assert(prior[i] == commits[i]);
        }
        lemma_log_lines(mark, prior);
        lemma_lines_appended(log_of(mark, prior), commits.last().0, commits.last().1);
        assert(seq![header(mark)] + bodies(commits) =~= (seq![header(mark)] + bodies(prior)).push(
            commit_line(commits.last().0, commits.last().1).skip(1),
        ));
    }
}

/// The lines of commits read back as the commits, each value with the
/// arrow and a space before it.
pub proof fn lemma_bodies_read(commits: Seq<(Key, Seq<u8>)>)
    requires
        forall|i: int| 0 <= i < commits.len() ==> fits_a_line(#[trigger] commits[i].1),
    ensures
        entries_in(bodies(commits)) == read_back(commits),
    decreases commits.len(),
{
    if commits.len() == 0 {
        assert(read_back(commits) =~= Seq::<(Key, Seq<char>)>::empty());
    } else {
        let prior = commits.drop_last();
        assert forall|i: int| 0 <= i < prior.len() implies fits_a_line(#[trigger] prior[i].1) by {
            assert(prior[i] == commits[i]);
        }
        lemma_bodies_read(prior);
        lemma_commit_line_read(commits.last().0, commits.last().1);
        assert(bodies(commits).drop_last() =~= bodies(prior));
        assert(read_back(commits) =~= read_back(prior).push(
            (commits.last().0, decode_utf8(seq![45u8, 62u8, 32u8] + commits.last().1)),
        ));
    }
}

/// What was written to a log is read from it: the number in the header, the
/// number of commits, and, for every commit from that number on, its key
/// with the arrow, a space and its value.
pub proof fn lemma_log_read(mark: nat, commits: Seq<(Key, Seq<u8>)>)
    requires
        mark <= WATERMARK_MAX,
        forall|i: int| 0 <= i < commits.len() ==> fits_a_line(#[trigger] commits[i].1),
    ensures
        watermark_of(log_of(mark, commits)) == Some(mark as u64),
        lines_of(log_of(mark, commits)).len() - 1 == commits.len(),
        entries_in(uncovered(lines_of(log_of(mark, commits)), mark as int)) == read_back(
            beyond(commits, mark),
        ),
{
    let lines = lines_of(log_of(mark, commits));
    let rest = beyond(commits, mark);
    lemma_log_lines(mark, commits);
    lemma_header(mark);
    assert(lines[0] == header(mark));
    assert forall|i: int| 0 <= i < rest.len() implies fits_a_line(#[trigger] rest[i].1) by {
        assert(rest[i] == commits[mark + i]);
    }
    lemma_bodies_read(rest);
    assert(uncovered(lines, mark as int) =~= bodies(rest));
}

} // verus!
