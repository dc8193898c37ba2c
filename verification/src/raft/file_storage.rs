//! The text formats of file-based Raft storage: the term file, the vote
//! file, the snapshot metadata file and the framing of the log file (one
//! serialized entry per line). Reading and writing the files, and the
//! serialization of each entry, happen outside; here the texts are built
//! and taken apart.

use vstd::prelude::*;

use crate::keyed::chars_of;

use super::storage::StorageError;
use super::types::{decimal, digit_char, u64_to_string, LogIndex, NodeId, Term};

verus! {

// ---------------------------------------------------------------------
// Whitespace and trimming
// ---------------------------------------------------------------------

/// Unicode `White_Space`: the characters `char::is_whitespace` accepts and
/// `str::trim` removes.
pub open spec fn is_white_space(c: char) -> bool {
    let n = c as u32;
    ||| 0x9 <= n <= 0xd
    ||| n == 0x20
    ||| n == 0x85
    ||| n == 0xa0
    ||| n == 0x1680
    ||| 0x2000 <= n <= 0x200a
    ||| n == 0x2028
    ||| n == 0x2029
    ||| n == 0x202f
    ||| n == 0x205f
    ||| n == 0x3000
}

/// A text without its leading whitespace.
pub open spec fn trim_start(s: Seq<char>) -> Seq<char>
    decreases s.len(),
{
    if s.len() > 0 && is_white_space(s[0]) {
        trim_start(s.drop_first())
    } else {
        s
    }
}

/// A text without its trailing whitespace.
pub open spec fn trim_end(s: Seq<char>) -> Seq<char>
    decreases s.len(),
{
    if s.len() > 0 && is_white_space(s.last()) {
        trim_end(s.drop_last())
    } else {
        s
    }
}

/// A text without leading and trailing whitespace (`str::trim`).
pub open spec fn trimmed(s: Seq<char>) -> Seq<char> {
    trim_end(trim_start(s))
}

fn white_space(c: char) -> (r: bool)
    ensures
        r == is_white_space(c),
{
    let n = c as u32;
    (0x9 <= n && n <= 0xd) || n == 0x20 || n == 0x85 || n == 0xa0 || n == 0x1680 || (0x2000
        <= n && n <= 0x200a) || n == 0x2028 || n == 0x2029 || n == 0x202f || n == 0x205f || n
        == 0x3000
}

/// The bounds, within `from..to`, of that stretch of `chars` without its
/// leading and trailing whitespace.
fn trim_bounds(chars: &Vec<char>, from: usize, to: usize) -> (r: (usize, usize))
    requires
        from <= to <= chars@.len(),
    ensures
        from <= r.0 <= r.1 <= to,
        chars@.subrange(r.0 as int, r.1 as int) == trimmed(chars@.subrange(from as int, to as int)),
{
    let ghost s = chars@.subrange(from as int, to as int);
    let mut lo = from;
    while lo < to && white_space(chars[lo])
        invariant
            from <= lo <= to <= chars@.len(),
            s == chars@.subrange(from as int, to as int),
            trim_start(s) == trim_start(chars@.subrange(lo as int, to as int)),
        decreases to - lo,
    {
        assert(chars@.subrange(lo as int, to as int).drop_first() =~= chars@.subrange(
            lo + 1,
            to as int,
        ));
        lo = lo + 1;
    }
    let ghost t = chars@.subrange(lo as int, to as int);
    assert(trim_start(s) == t);
    let mut hi = to;
    while hi > lo && white_space(chars[hi - 1])
        invariant
            from <= lo <= hi <= to <= chars@.len(),
            trim_start(s) == t,
            t == chars@.subrange(lo as int, to as int),
            trim_end(t) == trim_end(chars@.subrange(lo as int, hi as int)),
        decreases hi - lo,
    {
        assert(chars@.subrange(lo as int, hi as int).drop_last() =~= chars@.subrange(
            lo as int,
            hi - 1,
        ));
        hi = hi - 1;
    }
    (lo, hi)
}

// ---------------------------------------------------------------------
// Unsigned decimal numbers
// ---------------------------------------------------------------------

/// Why a text is not an unsigned 64-bit decimal number.
#[derive(Clone, Copy, Debug, PartialEq, Eq, Structural)]
pub enum NumberError {
    /// The text is empty.
    Empty,
    /// A character is not a decimal digit.
    InvalidDigit,
    /// The value does not fit in 64 bits.
    TooLarge,
}

/// The explanation of a number error.
pub open spec fn number_error_text(e: NumberError) -> Seq<char> {
    match e {
        NumberError::Empty => "cannot parse integer from empty string"@,
        NumberError::InvalidDigit => "invalid digit found in string"@,
        NumberError::TooLarge => "number too large to fit in target type"@,
    }
}

impl NumberError {
    /// The explanation of the error, as it is displayed.
    pub fn message(&self) -> (s: String)
        ensures
            s@ == number_error_text(*self),
    {
        match self {
            NumberError::Empty => "cannot parse integer from empty string".to_owned(),
            NumberError::InvalidDigit => "invalid digit found in string".to_owned(),
            NumberError::TooLarge => "number too large to fit in target type".to_owned(),
        }
    }
}

/// An ASCII decimal digit.
pub open spec fn is_digit(c: char) -> bool {
    48 <= (c as u32) <= 57
}

/// The value of a decimal digit.
pub open spec fn digit_value(c: char) -> nat {
    ((c as u32) - 48) as nat
}

/// The value of a run of decimal digits, most significant first.
pub open spec fn digits_value(d: Seq<char>) -> nat
    decreases d.len(),
{
    if d.len() == 0 {
        0
    } else {
        digits_value(d.drop_last()) * 10 + digit_value(d.last())
    }
}

/// The length of the longest prefix of `d` made of decimal digits.
pub open spec fn digit_run(d: Seq<char>) -> nat
    decreases d.len(),
{
    if d.len() > 0 && is_digit(d[0]) {
        1 + digit_run(d.drop_first())
    } else {
        0
    }
}

/// What `u64::from_str` makes of a text: an optional `+`, then one or more
/// decimal digits whose value fits in 64 bits. Digits are read from the
/// left, and the first problem met decides the error.
pub open spec fn parse_u64(s: Seq<char>) -> Result<u64, NumberError> {
    let d = if s.len() > 0 && s[0] == '+' {
        s.drop_first()
    } else {
        s
    };
    if s.len() == 0 {
        Err(NumberError::Empty)
    } else if d.len() == 0 {
        Err(NumberError::InvalidDigit)
    } else if digits_value(d.take(digit_run(d) as int)) > u64::MAX {
        Err(NumberError::TooLarge)
    } else if digit_run(d) < d.len() {
        Err(NumberError::InvalidDigit)
    } else {
        Ok(digits_value(d) as u64)
    }
}

/// The digit run of `d` is `m` when its first `m` characters are digits
/// and the next one, if any, is not.
proof fn lemma_digit_run(d: Seq<char>, m: int)
    requires
        0 <= m <= d.len(),
        forall|j: int| 0 <= j < m ==> is_digit(#[trigger] d[j]),
    ensures
        digit_run(d) >= m,
        (m == d.len() || !is_digit(d[m])) ==> digit_run(d) == m,
    decreases m,
{
    if m > 0 {
        let t = d.drop_first();
        assert forall|j: int| 0 <= j < m - 1 implies is_digit(#[trigger] t[j]) by {
            assert(t[j] == d[j + 1]);
        }
        if m < d.len() {
            assert(t[m - 1] == d[m]);
        }
        lemma_digit_run(t, m - 1);
    }
}

/// The digit run of a text is no longer than the text.
proof fn lemma_digit_run_bound(d: Seq<char>)
    ensures
        digit_run(d) <= d.len(),
        forall|j: int| 0 <= j < digit_run(d) ==> is_digit(#[trigger] d[j]),
    decreases d.len(),
{
    if d.len() > 0 && is_digit(d[0]) {
        let t = d.drop_first();
        lemma_digit_run_bound(t);
        assert forall|j: int| 0 <= j < digit_run(d) implies is_digit(#[trigger] d[j]) by {
            if j > 0 {
                assert(d[j] == t[j - 1]);
            }
        }
    }
}

/// Reading more digits never lowers the value.
proof fn lemma_digits_value_grows(d: Seq<char>, j: int, k: int)
    requires
        0 <= j <= k <= d.len(),
    ensures
        digits_value(d.take(j)) <= digits_value(d.take(k)),
    decreases k - j,
{
    if j < k {
        lemma_digits_value_grows(d, j, k - 1);
        assert(d.take(k).drop_last() =~= d.take(k - 1));
    }
}

/// Parses `chars[from..to]` as `u64::from_str` does.
fn parse_u64_range(chars: &Vec<char>, from: usize, to: usize) -> (r: Result<u64, NumberError>)
    requires
        from <= to <= chars@.len(),
    ensures
        r == parse_u64(chars@.subrange(from as int, to as int)),
{
    let ghost s = chars@.subrange(from as int, to as int);
    if from == to {
        return Err(NumberError::Empty);
    }
    let start = if chars[from] == '+' {
        from + 1
    } else {
        from
    };
    let ghost d = chars@.subrange(start as int, to as int);
    assert(d =~= (if s.len() > 0 && s[0] == '+' {
        s.drop_first()
    } else {
        s
    }));
    if start == to {
        return Err(NumberError::InvalidDigit);
    }
    let mut acc: u64 = 0;
    let mut i = start;
    while i < to
        invariant
            start <= i <= to <= chars@.len(),
            d == chars@.subrange(start as int, to as int),
            s == chars@.subrange(from as int, to as int),
            s.len() > 0,
            d.len() > 0,
            d == (if s.len() > 0 && s[0] == '+' {
                s.drop_first()
            } else {
                s
            }),
            forall|j: int| start <= j < i ==> is_digit(#[trigger] chars@[j]),
            acc == digits_value(d.take(i - start)),
        decreases to - i,
    {
        let c = chars[i];
        let n = c as u32;
        assert(forall|j: int| 0 <= j < i - start ==> d[j] == chars@[start + j]);
        if n < 48 || n > 57 {
            proof {
                assert(d[i - start] == c);
                lemma_digit_run(d, i - start);
            }
            return Err(NumberError::InvalidDigit);
        }
        let dv = (n - 48) as u64;
        proof {
            assert(d.take(i - start + 1).drop_last() =~= d.take(i - start));
            assert(d.take(i - start + 1).last() == c);
            assert forall|j: int| 0 <= j < i - start + 1 implies is_digit(#[trigger] d[j]) by {
                assert(d[j] == chars@[start + j]);
            }
            lemma_digit_run(d, i - start + 1);
            lemma_digit_run_bound(d);
            lemma_digits_value_grows(d, i - start + 1, digit_run(d) as int);
        }
        match acc.checked_mul(10) {
            None => {
                return Err(NumberError::TooLarge);
            },
            Some(m) => match m.checked_add(dv) {
                None => {
                    return Err(NumberError::TooLarge);
                },
                Some(v) => {
                    acc = v;
                },
            },
        }
        i = i + 1;
    }
    proof {
        assert(d.take(d.len() as int) =~= d);
        assert forall|j: int| 0 <= j < d.len() implies is_digit(#[trigger] d[j]) by {
            assert(d[j] == chars@[start + j]);
        }
        lemma_digit_run(d, d.len() as int);
    }
    Ok(acc)
}

// ---------------------------------------------------------------------
// Lines
// ---------------------------------------------------------------------

/// Where the first line of a text ends: the position of its first `\n`,
/// or the text's length where there is none.
pub open spec fn line_end(s: Seq<char>) -> nat
    decreases s.len(),
{
    if s.len() == 0 || s[0] == '\n' {
        0
    } else {
        1 + line_end(s.drop_first())
    }
}

/// A line without the `\r` of a `\r\n` ending.
pub open spec fn without_cr(l: Seq<char>) -> Seq<char> {
    if l.len() > 0 && l.last() == '\r' {
        l.drop_last()
    } else {
        l
    }
}

/// The lines of a text, as `str::lines` yields them: the text is split
/// after each `\n`, which is dropped together with a `\r` just before it,
/// and a final `\n` starts no further line.
pub open spec fn text_lines(s: Seq<char>) -> Seq<Seq<char>>
    decreases s.len(),
{
    if s.len() == 0 {
        Seq::empty()
    } else if line_end(s) < s.len() {
        seq![without_cr(s.take(line_end(s) as int))] + text_lines(s.skip(line_end(s) as int + 1))
    } else {
        seq![s]
    }
}

/// The first line of `s` ends at `m` when no `\n` comes before `m` and
/// `m` is the end of the text or a `\n`.
proof fn lemma_line_end(s: Seq<char>, m: int)
    requires
        0 <= m <= s.len(),
        forall|j: int| 0 <= j < m ==> #[trigger] s[j] != '\n',
        m == s.len() || s[m] == '\n',
    ensures
        line_end(s) == m,
    decreases m,
{
    if m > 0 {
        let t = s.drop_first();
        assert forall|j: int| 0 <= j < m - 1 implies #[trigger] t[j] != '\n' by {
            assert(t[j] == s[j + 1]);
        }
        if m < s.len() {
            assert(t[m - 1] == s[m]);
        }
        lemma_line_end(t, m - 1);
    }
}

/// `chars[from..]` starts with the line `chars[from..r.0]`, and the lines
/// after it are those of `chars[r.1..]`.
fn next_line(chars: &Vec<char>, from: usize) -> (r: (usize, usize))
    requires
        from < chars@.len(),
    ensures
        from <= r.0 <= r.1 <= chars@.len(),
        from < r.1,
        text_lines(chars@.subrange(from as int, chars@.len() as int)) == seq![
            chars@.subrange(from as int, r.0 as int),
        ] + text_lines(chars@.subrange(r.1 as int, chars@.len() as int)),
{
    let n = chars.len();
    let ghost s = chars@.subrange(from as int, n as int);
    let mut p = from;
    while p < n && chars[p] != '\n'
        invariant
            from <= p <= n == chars@.len(),
            forall|j: int| from <= j < p ==> #[trigger] chars@[j] != '\n',
        decreases n - p,
    {
        p = p + 1;
    }
    proof {
        assert forall|j: int| 0 <= j < p - from implies #[trigger] s[j] != '\n' by {
            assert(s[j] == chars@[from + j]);
        }
        if p < n {
            assert(s[p - from] == chars@[p as int]);
        }
        lemma_line_end(s, p - from);
    }
    if p == n {
        assert(chars@.subrange(n as int, n as int) =~= Seq::<char>::empty());
        assert(s =~= chars@.subrange(from as int, n as int));
        assert(text_lines(s) == seq![s]);
        assert(text_lines(chars@.subrange(n as int, n as int)) =~= Seq::<Seq<char>>::empty());
        assert(seq![s] + Seq::<Seq<char>>::empty() =~= seq![s]);
        return (n, n);
    }
    assert(s.skip(p - from + 1) =~= chars@.subrange(p + 1, n as int));
    let end = if p > from && chars[p - 1] == '\r' {
        p - 1
    } else {
        p
    };
    assert(without_cr(s.take(p - from)) =~= chars@.subrange(from as int, end as int));
    (end, p + 1)
}

/// Appends one character (`String::push`).
#[verifier::external_body]
fn push_char(s: &mut String, c: char)
    ensures
        final(s)@ == old(s)@.push(c),
{
    s.push(c);
}

/// The text `chars[from..to]`.
fn string_of(chars: &Vec<char>, from: usize, to: usize) -> (s: String)
    requires
        from <= to <= chars@.len(),
    ensures
        s@ == chars@.subrange(from as int, to as int),
{
    let mut s = String::new();
    let mut i = from;
    while i < to
        invariant
            from <= i <= to <= chars@.len(),
            s@ == chars@.subrange(from as int, i as int),
        decreases to - i,
    {
        push_char(&mut s, chars[i]);
        assert(chars@.subrange(from as int, i + 1) =~= chars@.subrange(from as int, i as int).push(
            chars@[i as int],
        ));
        i = i + 1;
    }
    s
}

// ---------------------------------------------------------------------
// Term, vote and snapshot metadata files
// ---------------------------------------------------------------------

/// The content of the term file: the term in decimal.
pub open spec fn term_file(t: Term) -> Seq<char> {
    decimal(t.0 as nat)
}

/// What the term file holds: the number it spells, surrounding whitespace
/// aside; otherwise the message that explains why the file is corrupt.
pub open spec fn read_term_file(s: Seq<char>) -> Result<Term, Seq<char>> {
    match parse_u64(trimmed(s)) {
        Ok(v) => Ok(Term(v)),
        Err(e) => Err("term file not a number: "@ + number_error_text(e)),
    }
}

/// The content of the vote file: the node voted for in decimal, or
/// nothing.
pub open spec fn vote_file(v: Option<NodeId>) -> Seq<char> {
    match v {
        Some(id) => decimal(id.0 as nat),
        None => Seq::empty(),
    }
}

/// What the vote file holds: no vote where it is blank, else the node its
/// number names; otherwise the message that explains why it is corrupt.
pub open spec fn read_vote_file(s: Seq<char>) -> Result<Option<NodeId>, Seq<char>> {
    if trimmed(s).len() == 0 {
        Ok(None)
    } else {
        match parse_u64(trimmed(s)) {
            Ok(v) => Ok(Some(NodeId(v))),
            Err(e) => Err("voted_for file not a number: "@ + number_error_text(e)),
        }
    }
}

/// The content of the snapshot metadata file: the last included index and
/// term in decimal, on two lines.
pub open spec fn snapshot_meta_file(index: LogIndex, term: Term) -> Seq<char> {
    decimal(index.0 as nat) + seq!['\n'] + decimal(term.0 as nat)
}

/// What the snapshot metadata file holds: the index on its first line and
/// the term on its second; otherwise the message that explains why it is
/// corrupt.
pub open spec fn read_snapshot_meta(s: Seq<char>) -> Result<(LogIndex, Term), Seq<char>> {
    let ls = text_lines(s);
    if ls.len() == 0 {
        Err("snapshot meta missing index line"@)
    } else if ls.len() == 1 {
        Err("snapshot meta missing term line"@)
    } else {
        match parse_u64(trimmed(ls[0])) {
            Err(e) => Err("snapshot meta index not a number: "@ + number_error_text(e)),
            Ok(i) => match parse_u64(trimmed(ls[1])) {
                Err(e) => Err("snapshot meta term not a number: "@ + number_error_text(e)),
                Ok(t) => Ok((LogIndex(i), Term(t))),
            },
        }
    }
}

/// The corruption error with message `what` followed by the explanation
/// of `e`.
fn corrupted_number(what: &str, e: NumberError) -> (r: StorageError)
    ensures
        r matches StorageError::Corrupted(m) && m@ == what@ + number_error_text(e),
{
    let mut m = what.to_owned();
    let reason = e.message();
    m.append(reason.as_str());
    StorageError::Corrupted(m)
}

/// Parses the whole of `chars[from..to]`, surrounding whitespace aside, as
/// a number.
fn parse_trimmed(chars: &Vec<char>, from: usize, to: usize) -> (r: Result<u64, NumberError>)
    requires
        from <= to <= chars@.len(),
    ensures
        r == parse_u64(trimmed(chars@.subrange(from as int, to as int))),
{
    let (lo, hi) = trim_bounds(chars, from, to);
    parse_u64_range(chars, lo, hi)
}

/// The content of the term file for `term`.
pub fn term_text(term: Term) -> (s: String)
    ensures
        s@ == term_file(term),
{
    u64_to_string(term.0)
}

/// Reads the term file's content.
pub fn parse_term_text(text: &str) -> (r: Result<Term, StorageError>)
    ensures
        match read_term_file(text@) {
            Ok(t) => r matches Ok(u) && u == t,
            Err(m) => r matches Err(StorageError::Corrupted(n)) && n@ == m,
        },
{
    let chars = chars_of(text);
    assert(chars@.subrange(0, chars@.len() as int) =~= text@);
    match parse_trimmed(&chars, 0, chars.len()) {
        Ok(v) => Ok(Term(v)),
        Err(e) => Err(corrupted_number("term file not a number: ", e)),
    }
}

/// The content of the vote file for `voted_for`.
pub fn vote_text(voted_for: Option<NodeId>) -> (s: String)
    ensures
        s@ == vote_file(voted_for),
{
    match voted_for {
        Some(id) => u64_to_string(id.0),
        None => String::new(),
    }
}

/// Reads the vote file's content.
pub fn parse_vote_text(text: &str) -> (r: Result<Option<NodeId>, StorageError>)
    ensures
        match read_vote_file(text@) {
            Ok(v) => r matches Ok(u) && u == v,
            Err(m) => r matches Err(StorageError::Corrupted(n)) && n@ == m,
        },
{
    let chars = chars_of(text);
    assert(chars@.subrange(0, chars@.len() as int) =~= text@);
    let (lo, hi) = trim_bounds(&chars, 0, chars.len());
    if lo == hi {
        return Ok(None);
    }
    match parse_u64_range(&chars, lo, hi) {
        Ok(v) => Ok(Some(NodeId(v))),
        Err(e) => Err(corrupted_number("voted_for file not a number: ", e)),
    }
}

/// The content of the snapshot metadata file.
pub fn snapshot_meta_text(index: LogIndex, term: Term) -> (s: String)
    ensures
        s@ == snapshot_meta_file(index, term),
{
    let mut s = u64_to_string(index.0);
    push_char(&mut s, '\n');
    let t = u64_to_string(term.0);
    s.append(t.as_str());
    s
}

/// Reads the snapshot metadata file's content.
pub fn parse_snapshot_meta(text: &str) -> (r: Result<(LogIndex, Term), StorageError>)
    ensures
        match read_snapshot_meta(text@) {
            Ok(v) => r matches Ok(u) && u == v,
            Err(m) => r matches Err(StorageError::Corrupted(n)) && n@ == m,
        },
{
    let chars = chars_of(text);
    let n = chars.len();
    assert(chars@.subrange(0, n as int) =~= text@);
    if n == 0 {
        assert(text_lines(text@) =~= Seq::<Seq<char>>::empty());
        return Err(StorageError::Corrupted("snapshot meta missing index line".to_owned()));
    }
    let (end0, next0) = next_line(&chars, 0);
    if next0 == n {
        assert(text_lines(chars@.subrange(n as int, n as int)) =~= Seq::<Seq<char>>::empty());
        return Err(StorageError::Corrupted("snapshot meta missing term line".to_owned()));
    }
    let (end1, _next1) = next_line(&chars, next0);
    match parse_trimmed(&chars, 0, end0) {
        Err(e) => Err(corrupted_number("snapshot meta index not a number: ", e)),
        Ok(i) => match parse_trimmed(&chars, next0, end1) {
            Err(e) => Err(corrupted_number("snapshot meta term not a number: ", e)),
            Ok(t) => Ok((LogIndex(i), Term(t))),
        },
    }
}

// ---------------------------------------------------------------------
// The log file
// ---------------------------------------------------------------------

/// The log file's text for a run of serialized entries: each on a line of
/// its own, ended by `\n`.
pub open spec fn framed(ls: Seq<Seq<char>>) -> Seq<char>
    decreases ls.len(),
{
    if ls.len() == 0 {
        Seq::empty()
    } else {
        framed(ls.drop_last()) + ls.last() + seq!['\n']
    }
}

/// A line that holds no entry: empty, or whitespace alone.
pub open spec fn is_blank(l: Seq<char>) -> bool {
    trimmed(l).len() == 0
}

/// The lines of `ls` that hold entries, each with its line number, the
/// first line of `ls` being number `first`.
pub open spec fn numbered_entries(ls: Seq<Seq<char>>, first: nat) -> Seq<(nat, Seq<char>)>
    decreases ls.len(),
{
    if ls.len() == 0 {
        Seq::empty()
    } else if is_blank(ls[0]) {
        numbered_entries(ls.drop_first(), first + 1)
    } else {
        seq![(first, ls[0])] + numbered_entries(ls.drop_first(), first + 1)
    }
}

/// The entries of a log file's text: its non-blank lines, with their line
/// numbers counted from one.
pub open spec fn log_entries(s: Seq<char>) -> Seq<(nat, Seq<char>)> {
    numbered_entries(text_lines(s), 1)
}

/// Frames serialized entries for the log file.
pub fn frame_log_lines(lines: &[String]) -> (s: String)
    ensures
        s@ == framed(lines@.map_values(|l: String| l@)),
{
    let ghost ls = lines@.map_values(|l: String| l@);
    let mut s = String::new();
    let mut i: usize = 0;
    while i < lines.len()
        invariant
            i <= lines@.len(),
            ls == lines@.map_values(|l: String| l@),
            s@ == framed(ls.take(i as int)),
        decreases lines@.len() - i,
    {
        s.append(lines[i].as_str());
        push_char(&mut s, '\n');
        assert(ls.take(i + 1).drop_last() =~= ls.take(i as int));
        i = i + 1;
    }
    assert(ls.take(lines@.len() as int) =~= ls);
    s
}

/// The entries of a log file's text, each with its line number, counted
/// from one; blank lines are passed over.
pub fn log_entry_lines(text: &str) -> (r: Vec<(usize, String)>)
    ensures
        r@.map_values(|p: (usize, String)| (p.0 as nat, p.1@)) == log_entries(text@),
{
    let chars = chars_of(text);
    let n = chars.len();
    assert(chars@.subrange(0, n as int) =~= text@);
    let mut out: Vec<(usize, String)> = Vec::new();
    let mut from: usize = 0;
    let mut done: usize = 0;
    while from < n
        invariant
            from <= n == chars@.len(),
            done <= from,
            text@ == chars@,
            out@.map_values(|p: (usize, String)| (p.0 as nat, p.1@)) + numbered_entries(
                text_lines(chars@.subrange(from as int, n as int)),
                done as nat + 1,
            ) == log_entries(text@),
        decreases n - from,
    {
        let ghost rest = text_lines(chars@.subrange(from as int, n as int));
        let (end, next) = next_line(&chars, from);
        let ghost line = chars@.subrange(from as int, end as int);
        assert(rest[0] == line);
        assert(rest.drop_first() =~= text_lines(chars@.subrange(next as int, n as int)));
        let (lo, hi) = trim_bounds(&chars, from, end);
        let ghost before = out@.map_values(|p: (usize, String)| (p.0 as nat, p.1@));
        if lo < hi {
            let l = string_of(&chars, from, end);
            out.push((done + 1, l));
            assert(out@.map_values(|p: (usize, String)| (p.0 as nat, p.1@)) =~= before + seq![
                (done as nat + 1, line),
            ]);
        }
        from = next;
        done = done + 1;
    }
    assert(text_lines(chars@.subrange(n as int, n as int)) =~= Seq::<Seq<char>>::empty());
    assert(out@.map_values(|p: (usize, String)| (p.0 as nat, p.1@)) + Seq::<(nat, Seq<char>)>::empty()
        =~= out@.map_values(|p: (usize, String)| (p.0 as nat, p.1@)));
    out
}

/// How many of `stored` log entries stay when the log is cut from
/// `index` on: those before it (none for index zero).
pub fn kept_entry_count(index: LogIndex, stored: usize) -> (r: usize)
    ensures
        r == (if index.0 == 0 {
            0
        } else if index.0 - 1 >= stored {
            stored as int
        } else {
            index.0 - 1
        }),
{
    let keep = index.0.saturating_sub(1);
    assert(keep == (if index.0 == 0 { 0 } else { index.0 - 1 }));
    if keep < stored as u64 {
        keep as usize
    } else {
        stored
    }
}

// ---------------------------------------------------------------------
// What a write gives back when it is read
// ---------------------------------------------------------------------

/// The decimal form of a number is a nonempty run of digits whose value
/// is the number.
proof fn lemma_decimal_digits(n: nat)
    ensures
        decimal(n).len() >= 1,
        forall|j: int| 0 <= j < decimal(n).len() ==> is_digit(#[trigger] decimal(n)[j]),
        digits_value(decimal(n)) == n,
    decreases n,
{
    let d = digit_char(n % 10);
    assert(is_digit(d) && digit_value(d) == n % 10);
    if n >= 10 {
        lemma_decimal_digits(n / 10);
        let s = decimal(n);
        assert(s == decimal(n / 10).push(d));
        assert(s.drop_last() =~= decimal(n / 10));
        assert(s.last() == d);
        assert(n == (n / 10) * 10 + n % 10) by (nonlinear_arith);
        assert(digits_value(s) == digits_value(decimal(n / 10)) * 10 + digit_value(d));
        assert forall|j: int| 0 <= j < s.len() implies is_digit(#[trigger] s[j]) by {
            if j < s.len() - 1 {
                assert(s[j] == decimal(n / 10)[j]);
            }
        }
    } else {
        assert(decimal(n) == seq![d]);
        assert(decimal(n).drop_last() =~= Seq::<char>::empty());
        assert(digits_value(Seq::<char>::empty()) == 0);
        assert(digits_value(decimal(n)) == digit_value(d));
    }
}

/// A number written in decimal is read back as itself.
proof fn lemma_decimal_reads_back(n: u64)
    ensures
        trimmed(decimal(n as nat)) == decimal(n as nat),
        trimmed(decimal(n as nat)).len() > 0,
        parse_u64(decimal(n as nat)) == Ok::<u64, NumberError>(n),
        forall|j: int|
            0 <= j < decimal(n as nat).len() ==> #[trigger] decimal(n as nat)[j] != '\n',
        decimal(n as nat).last() != '\r',
{
    let s = decimal(n as nat);
    lemma_decimal_digits(n as nat);
    assert(is_digit(s[0]) && is_digit(s.last()));
    assert(trim_start(s) == s);
    assert(trim_end(s) == s);
    lemma_digit_run(s, s.len() as int);
    assert(s.take(s.len() as int) =~= s);
    assert forall|j: int| 0 <= j < s.len() implies #[trigger] s[j] != '\n' by {
        assert(is_digit(s[j]));
    }
}

/// The term file, once written, reads back as the term written.
pub proof fn lemma_term_file_reads_back(t: Term)
    ensures
        read_term_file(term_file(t)) == Ok::<Term, Seq<char>>(t),
{
    lemma_decimal_reads_back(t.0);
}

/// The vote file, once written, reads back as the vote written.
pub proof fn lemma_vote_file_reads_back(v: Option<NodeId>)
    ensures
        read_vote_file(vote_file(v)) == Ok::<Option<NodeId>, Seq<char>>(v),
{
    match v {
        Some(id) => {
            lemma_decimal_reads_back(id.0);
        },
        None => {
            assert(trim_start(Seq::<char>::empty()) == Seq::<char>::empty());
        },
    }
}

/// A text made of `a`, a `\n` and `b`, where `a` holds no `\n` and does
/// not end in `\r`, has `a` as its first line and the lines of `b` after
/// it.
proof fn lemma_lines_after_line(a: Seq<char>, b: Seq<char>)
    requires
        forall|j: int| 0 <= j < a.len() ==> #[trigger] a[j] != '\n',
        a.len() == 0 || a.last() != '\r',
    ensures
        text_lines(a + seq!['\n'] + b) == seq![a] + text_lines(b),
{
    let s = a + seq!['\n'] + b;
    assert forall|j: int| 0 <= j < a.len() implies #[trigger] s[j] != '\n' by {
        assert(s[j] == a[j]);
    }
    assert(s[a.len() as int] == '\n');
    lemma_line_end(s, a.len() as int);
    assert(s.take(a.len() as int) =~= a);
    assert(s.skip(a.len() as int + 1) =~= b);
}

/// A text without `\n` that is not empty is a single line.
proof fn lemma_single_line(b: Seq<char>)
    requires
        b.len() > 0,
        forall|j: int| 0 <= j < b.len() ==> #[trigger] b[j] != '\n',
    ensures
        text_lines(b) == seq![b],
{
    lemma_line_end(b, b.len() as int);
}

/// The snapshot metadata file, once written, reads back as the index and
/// term written.
pub proof fn lemma_snapshot_meta_reads_back(index: LogIndex, term: Term)
    ensures
        read_snapshot_meta(snapshot_meta_file(index, term)) == Ok::<(LogIndex, Term), Seq<char>>(
            (index, term),
        ),
{
    let a = decimal(index.0 as nat);
    let b = decimal(term.0 as nat);
    lemma_decimal_reads_back(index.0);
    lemma_decimal_reads_back(term.0);
    lemma_lines_after_line(a, b);
    lemma_single_line(b);
    assert(seq![a] + seq![b] =~= seq![a, b]);
}

/// The framing of a run of lines: the first line, its `\n`, then the
/// framing of the rest.
proof fn lemma_framed_first(ls: Seq<Seq<char>>)
    requires
        ls.len() > 0,
    ensures
        framed(ls) == ls[0] + seq!['\n'] + framed(ls.drop_first()),
    decreases ls.len(),
{
    if ls.len() == 1 {
        assert(ls.drop_last() =~= Seq::<Seq<char>>::empty());
        assert(ls.drop_first() =~= Seq::<Seq<char>>::empty());
        assert(Seq::<char>::empty() + ls.last() =~= ls[0]);
    } else {
        lemma_framed_first(ls.drop_last());
        assert(ls.drop_last().drop_first() =~= ls.drop_first().drop_last());
        assert(ls.drop_first().last() == ls.last());
        assert(framed(ls) =~= ls[0] + seq!['\n'] + framed(ls.drop_first()));
    }
}

/// Appending lines to the log file frames them after what it held.
pub proof fn lemma_framed_append(a: Seq<Seq<char>>, b: Seq<Seq<char>>)
    ensures
        framed(a + b) == framed(a) + framed(b),
    decreases b.len(),
{
    if b.len() == 0 {
        assert(a + b =~= a);
        assert(framed(a) + Seq::<char>::empty() =~= framed(a));
    } else {
        lemma_framed_append(a, b.drop_last());
        assert((a + b).drop_last() =~= a + b.drop_last());
        assert((a + b).last() == b.last());
        assert(framed(a + b) =~= framed(a) + framed(b));
    }
}

/// A line the log file frames and reads back as it is: no `\n` in it,
/// no `\r` at its end, and not blank.
pub open spec fn is_entry_line(l: Seq<char>) -> bool {
    &&& forall|j: int| 0 <= j < l.len() ==> #[trigger] l[j] != '\n'
    &&& (l.len() == 0 || l.last() != '\r')
    &&& !is_blank(l)
}

/// Framed lines split back into the same lines.
proof fn lemma_framed_lines(ls: Seq<Seq<char>>)
    requires
        forall|i: int| 0 <= i < ls.len() ==> is_entry_line(#[trigger] ls[i]),
    ensures
        text_lines(framed(ls)) == ls,
    decreases ls.len(),
{
    if ls.len() == 0 {
        assert(text_lines(Seq::<char>::empty()) =~= Seq::<Seq<char>>::empty());
    } else {
        lemma_framed_first(ls);
        let rest = ls.drop_first();
        assert forall|i: int| 0 <= i < rest.len() implies is_entry_line(#[trigger] rest[i]) by {
            assert(rest[i] == ls[i + 1]);
        }
        lemma_framed_lines(rest);
        assert(is_entry_line(ls[0]));
        lemma_lines_after_line(ls[0], framed(rest));
        assert(seq![ls[0]] + rest =~= ls);
    }
}

/// Non-blank lines are numbered one after another.
proof fn lemma_numbered_entries(ls: Seq<Seq<char>>, first: nat)
    requires
        forall|i: int| 0 <= i < ls.len() ==> !is_blank(#[trigger] ls[i]),
    ensures
        numbered_entries(ls, first) == Seq::new(ls.len(), |i: int| ((first + i) as nat, ls[i])),
    decreases ls.len(),
{
    if ls.len() == 0 {
        assert(numbered_entries(ls, first) =~= Seq::new(ls.len(), |i: int| ((first + i) as nat, ls[i])));
    } else {
        let rest = ls.drop_first();
        assert forall|i: int| 0 <= i < rest.len() implies !is_blank(#[trigger] rest[i]) by {
            assert(rest[i] == ls[i + 1]);
        }
        lemma_numbered_entries(rest, first + 1);
        assert(!is_blank(ls[0]));
        assert(numbered_entries(ls, first) =~= Seq::new(ls.len(), |i: int| ((first + i) as nat, ls[i])));
    }
}

/// Entries framed into the log file are read back in order, numbered from
/// one, each as it was written.
pub proof fn lemma_log_reads_back(ls: Seq<Seq<char>>)
    requires
        forall|i: int| 0 <= i < ls.len() ==> is_entry_line(#[trigger] ls[i]),
    ensures
        log_entries(framed(ls)) == Seq::new(ls.len(), |i: int| ((i + 1) as nat, ls[i])),
{
    lemma_framed_lines(ls);
    assert forall|i: int| 0 <= i < ls.len() implies !is_blank(#[trigger] ls[i]) by {
        assert(is_entry_line(ls[i]));
    }
    lemma_numbered_entries(ls, 1);
    assert(Seq::new(ls.len(), |i: int| ((1 + i) as nat, ls[i])) =~= Seq::new(
        ls.len(),
        |i: int| ((i + 1) as nat, ls[i]),
    ));
}

} // verus!
