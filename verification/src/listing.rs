//! Parsing of an installed-package listing.
//!
//! A listing is text with one requirement per line, written `name==version`.
//! Lines are separated by a line feed; empty lines carry nothing. A line that
//! is not empty has to hold the separator `==` with something on both sides
//! of its first occurrence, otherwise the whole listing is refused.

use vstd::prelude::*;
use vstd::string::*;

verus! {

/// One installed requirement, as read from a listing.
#[derive(Debug, PartialEq, Eq)]
pub struct PyRequirement {
    /// The 1-based place of the requirement among those of its listing.
    pub id: usize,
    pub name: String,
    pub current_version: String,
}

/// The mathematical content of a [`PyRequirement`].
pub struct Requirement {
    pub id: nat,
    pub name: Seq<char>,
    pub version: Seq<char>,
}

impl View for PyRequirement {
    type V = Requirement;

    open spec fn view(&self) -> Requirement {
        Requirement { id: self.id as nat, name: self.name@, version: self.current_version@ }
    }
}

impl Clone for PyRequirement {
    fn clone(&self) -> (out: PyRequirement)
        ensures
            out@ == self@,
    {
        PyRequirement {
            id: self.id,
            name: self.name.clone(),
            current_version: self.current_version.clone(),
        }
    }
}

/// The way in which a line of a listing is malformed.
#[derive(Debug, Clone, Copy, PartialEq, Eq, Structural)]
pub enum ParseErrorKind {
    /// The line does not hold `==`.
    MissingSeparator,
    /// Nothing stands before the first `==`.
    EmptyName,
    /// Nothing stands after the first `==`.
    EmptyVersion,
}

/// The first malformed line of a listing.
#[derive(Debug, Clone, Copy, PartialEq, Eq, Structural)]
pub struct ParseError {
    /// The 1-based number of the line.
    pub line: usize,
    pub kind: ParseErrorKind,
}

/// The mathematical content of a [`ParseError`].
pub struct Malformed {
    pub line: nat,
    pub kind: ParseErrorKind,
}

impl View for ParseError {
    type V = Malformed;

    open spec fn view(&self) -> Malformed {
        Malformed { line: self.line as nat, kind: self.kind }
    }
}

/// The views of a sequence of requirements.
pub open spec fn views(requirements: Seq<PyRequirement>) -> Seq<Requirement> {
    Seq::new(requirements.len(), |i: int| requirements[i]@)
}

/// The separator between a name and its version.
pub open spec fn separator() -> Seq<char> {
    seq!['=', '=']
}

/// The lines of `text`: the pieces between its line feeds. A text without a
/// line feed is one line, and a text that ends in a line feed has an empty
/// last line.
pub open spec fn lines(text: Seq<char>) -> Seq<Seq<char>>
    decreases text.len(),
{
    if text.len() == 0 {
        seq![Seq::empty()]
    } else {
        let before = lines(text.drop_last());
        if text.last() == '\n' {
            before.push(Seq::empty())
        } else {
            before.drop_last().push(before.last().push(text.last()))
        }
    }
}

/// The text that lines make up: the lines in their order, with a line feed
/// between each two.
pub open spec fn joined(lines: Seq<Seq<char>>) -> Seq<char>
    decreases lines.len(),
{
    if lines.len() == 0 {
        Seq::empty()
    } else if lines.len() == 1 {
        lines[0]
    } else {
        joined(lines.drop_last()).push('\n') + lines.last()
    }
}

/// Whether `==` stands in `line` at index `at`.
pub open spec fn separator_at(line: Seq<char>, at: int) -> bool {
    0 <= at && at + 1 < line.len() && line[at] == '=' && line[at + 1] == '='
}

/// Whether `==` stands in `line` at index `at` and nowhere before.
pub open spec fn first_separator_at(line: Seq<char>, at: int) -> bool {
    separator_at(line, at) && forall|earlier: int| 0 <= earlier < at ==> !separator_at(line, earlier)
}

/// Whether `line` holds `==` at all.
pub open spec fn has_separator(line: Seq<char>) -> bool {
    exists|at: int| separator_at(line, at)
}

/// Where the first `==` of `line` stands, for a line that has one.
pub open spec fn first_separator(line: Seq<char>) -> int {
    choose|at: int| first_separator_at(line, at)
}

/// The name and version that a line holds: what stands before its first `==`
/// and what stands after it, both non-empty.
pub open spec fn split_line(line: Seq<char>) -> Result<(Seq<char>, Seq<char>), ParseErrorKind> {
    if !has_separator(line) {
        Err(ParseErrorKind::MissingSeparator)
    } else {
        let at = first_separator(line);
        if at == 0 {
            Err(ParseErrorKind::EmptyName)
        } else if at + 2 == line.len() {
            Err(ParseErrorKind::EmptyVersion)
        } else {
            Ok((line.take(at), line.skip(at + 2)))
        }
    }
}

/// The requirements that a sequence of lines holds, numbered from 1 in their
/// order, or its first malformed line, named by its place among all the
/// lines. Empty lines are passed over.
pub open spec fn parse(lines: Seq<Seq<char>>) -> Result<Seq<Requirement>, Malformed>
    decreases lines.len(),
{
    if lines.len() == 0 {
        Ok(Seq::empty())
    } else {
        match parse(lines.drop_last()) {
            Err(malformed) => Err(malformed),
            Ok(before) => if lines.last().len() == 0 {
                Ok(before)
            } else {
                match split_line(lines.last()) {
                    Ok((name, version)) => Ok(
                        before.push(Requirement { id: before.len() + 1, name, version }),
                    ),
                    Err(kind) => Err(Malformed { line: lines.len(), kind }),
                }
            },
        }
    }
}

/// Whether line `i` of `lines` is neither empty nor a name and a version
/// around `==`.
pub open spec fn malformed_at(lines: Seq<Seq<char>>, i: int) -> bool {
    0 <= i < lines.len() && lines[i].len() > 0 && split_line(lines[i]) is Err
}

/// The line that a requirement is written as.
pub open spec fn written(requirement: Requirement) -> Seq<char> {
    requirement.name + separator() + requirement.version
}

/// The lines that requirements are written as, in their order.
pub open spec fn written_all(requirements: Seq<Requirement>) -> Seq<Seq<char>> {
    requirements.map_values(|requirement: Requirement| written(requirement))
}

/// The lines that are not empty, in their order.
pub open spec fn non_empty(lines: Seq<Seq<char>>) -> Seq<Seq<char>> {
    lines.filter(|line: Seq<char>| line.len() > 0)
}

/// The characters of `text`, in order.
fn characters(text: &str) -> (out: Vec<char>)
    ensures
        out@ == text@,
{
    let mut out: Vec<char> = Vec::new();
    for c in it: text.chars()
        invariant
            out@ == it.seq().take(it.index() as int),
    {
        out.push(c);
    }
    out
}

/// The part of `text` from character `from` up to character `to`. On text
/// known to be ASCII this is a plain slice; otherwise the text is walked from
/// its start.
fn piece<'a>(text: &'a str, ascii: bool, from: usize, to: usize) -> (out: &'a str)
    requires
        from <= to <= text@.len(),
        ascii ==> text.is_ascii(),
    ensures
        out@ == text@.subrange(from as int, to as int),
{
    if ascii {
        text.substring_ascii(from, to)
    } else {
        text.substring_char(from, to)
    }
}

/// The index of the first line feed at or after `start`, or the length of
/// `text` where none follows.
fn line_end(text: &Vec<char>, start: usize) -> (end: usize)
    requires
        start <= text.len(),
    ensures
        start <= end <= text.len(),
        forall|i: int| start <= i < end ==> text[i] != '\n',
        end < text.len() ==> text[end as int] == '\n',
{
    let mut end = start;
    while end < text.len() && text[end] != '\n'
        invariant
            start <= end <= text.len(),
            forall|i: int| start <= i < end ==> text[i] != '\n',
        decreases text.len() - end,
    {
        end += 1;
    }
    end
}

/// The index of the first `==` that lies within `text[start..end]`.
fn find_separator(text: &Vec<char>, start: usize, end: usize) -> (found: Option<usize>)
    requires
        start <= end <= text.len(),
    ensures
        match found {
            Some(at) => start <= at && at + 1 < end && first_separator_at(
                text@.subrange(start as int, end as int),
                at - start,
            ),
            None => !has_separator(text@.subrange(start as int, end as int)),
        },
{
    let ghost line = text@.subrange(start as int, end as int);
    let mut at = start;
    while at < end && at + 1 < end
        invariant
            start <= at <= end <= text.len(),
            line == text@.subrange(start as int, end as int),
            forall|earlier: int| 0 <= earlier < at - start ==> !separator_at(line, earlier),
        decreases end - at,
    {
        if text[at] == '=' && text[at + 1] == '=' {
            assert(separator_at(line, at - start));
            return Some(at);
        }
        assert(!separator_at(line, at - start));
        at += 1;
    }
    None
}

/// Reads the one requirement that the non-empty line `text[start..end]` holds.
fn read_line(
    installed: &str,
    ascii: bool,
    text: &Vec<char>,
    start: usize,
    end: usize,
    id: usize,
) -> (result: Result<PyRequirement, ParseErrorKind>)
    requires
        text@ == installed@,
        ascii ==> installed.is_ascii(),
        start < end <= text.len(),
    ensures
        match result {
            Ok(requirement) => requirement.id == id && split_line(
                text@.subrange(start as int, end as int),
            ) == Ok::<(Seq<char>, Seq<char>), ParseErrorKind>(
                (requirement.name@, requirement.current_version@),
            ),
            Err(kind) => split_line(text@.subrange(start as int, end as int)) == Err::<
                (Seq<char>, Seq<char>),
                ParseErrorKind,
            >(kind),
        },
{
    let ghost line = text@.subrange(start as int, end as int);
    match find_separator(text, start, end) {
        None => Err(ParseErrorKind::MissingSeparator),
        Some(at) => {
            proof {
                lemma_first_separator(line, at - start);
            }
            if at == start {
                Err(ParseErrorKind::EmptyName)
            } else if at + 2 == end {
                Err(ParseErrorKind::EmptyVersion)
            } else {
                let name = piece(installed, ascii, start, at).to_owned();
                let current_version = piece(installed, ascii, at + 2, end).to_owned();
                assert(name@ == line.take(at - start));
                assert(current_version@ == line.skip(at - start + 2));
                Ok(PyRequirement { id, name, current_version })
            }
        },
    }
}

/// Reads the requirements out of a listing.
///
/// Returns the requirements of the non-empty lines, in the order of the
/// lines and numbered from 1. If a line is malformed, the listing yields no
/// requirement at all, but the number of the first such line and its defect.
pub fn get_requirements(installed: &str) -> (result: Result<Vec<PyRequirement>, ParseError>)
    ensures
        match result {
            Ok(requirements) => parse(lines(installed@)) == Ok::<Seq<Requirement>, Malformed>(
                views(requirements@),
            ),
            Err(error) => parse(lines(installed@)) == Err::<Seq<Requirement>, Malformed>(error@),
        },
{
    let text = characters(installed);
    let ascii = installed.is_ascii();
    let mut requirements: Vec<PyRequirement> = Vec::new();
    let mut start: usize = 0;
    let mut number: usize = 0;
    let ghost mut done: Seq<Seq<char>> = Seq::empty();
    proof {
        assert(text@.take(0) == Seq::<char>::empty());
        assert(views(requirements@) == Seq::<Requirement>::empty());
    }
    loop
        invariant
            text@ == installed@,
            ascii ==> installed.is_ascii(),
            start <= text.len(),
            number == done.len(),
            number <= start,
            requirements.len() <= number,
            lines(text@.take(start as int)) == done.push(Seq::empty()),
            parse(done) == Ok::<Seq<Requirement>, Malformed>(views(requirements@)),
        decreases text.len() - start,
    {
        let end = line_end(&text, start);
        let ghost line = text@.subrange(start as int, end as int);
        proof {
            lemma_line_read(text@, done, start as int, end as int);
            assert(done.push(line).drop_last() == done);
        }
        if start < end {
            match read_line(installed, ascii, &text, start, end, requirements.len() + 1) {
                Err(kind) => {
                    proof {
                        lemma_parse_keeps_error(
                            done.push(line),
                            lines(text@).skip(number + 1),
                        );
                    }
                    return Err(ParseError { line: number + 1, kind });
                },
                Ok(requirement) => {
                    let ghost before = requirements@;
                    requirements.push(requirement);
                    assert(views(requirements@) == views(before).push(requirement@));
                },
            }
        }
        proof {
            done = done.push(line);
        }
        if end == text.len() {
            return Ok(requirements);
        }
        number += 1;
        start = end + 1;
    }
}

/// What reading the line `text[start..end]` shows of the lines of `text`,
/// where `done` are the lines before it.
proof fn lemma_line_read(text: Seq<char>, done: Seq<Seq<char>>, start: int, end: int)
    requires
        0 <= start <= end <= text.len(),
        lines(text.take(start)) == done.push(Seq::empty()),
        forall|i: int| start <= i < end ==> text[i] != '\n',
        end < text.len() ==> text[end] == '\n',
    ensures
        lines(text) == done.push(text.subrange(start, end)) + lines(text).skip(done.len() as int + 1),
        end == text.len() ==> lines(text) == done.push(text.subrange(start, end)),
        end < text.len() ==> lines(text.take(end + 1)) == done.push(text.subrange(start, end)).push(
            Seq::empty(),
        ),
{
    let line = text.subrange(start, end);
    let seen = lines(text.take(end));
    lemma_lines_grow(text, start, end);
    assert(Seq::<char>::empty() + line == line);
    assert(done.push(Seq::<char>::empty()).drop_last() == done);
    assert(seen == done.push(line));
    assert(text.take(text.len() as int) == text);
    if end < text.len() {
        lemma_lines_persist(text, end, text.len() as int);
        assert(text.take(end + 1).drop_last() == text.take(end));
        lemma_lines_not_empty(text);
        assert(seen.is_prefix_of(lines(text)));
    }
    assert(lines(text) == seen + lines(text).skip(done.len() as int + 1));
}

/// Reading on over characters that hold no line feed only makes the last
/// line longer.
proof fn lemma_lines_grow(text: Seq<char>, start: int, end: int)
    requires
        0 <= start <= end <= text.len(),
        forall|i: int| start <= i < end ==> text[i] != '\n',
    ensures
        lines(text.take(end)).len() == lines(text.take(start)).len() >= 1,
        lines(text.take(end)).drop_last() == lines(text.take(start)).drop_last(),
        lines(text.take(end)).last() == lines(text.take(start)).last() + text.subrange(start, end),
    decreases end - start,
{
    lemma_lines_not_empty(text.take(start));
    if start == end {
        assert(text.subrange(start, end) == Seq::<char>::empty());
        assert(lines(text.take(start)).last() + Seq::<char>::empty() == lines(
            text.take(start),
        ).last());
    } else {
        lemma_lines_grow(text, start, end - 1);
        assert(text.take(end).drop_last() == text.take(end - 1));
        assert(text.subrange(start, end) == text.subrange(start, end - 1).push(text[end - 1]));
        let before = lines(text.take(end - 1));
        assert(before.drop_last().push(before.last().push(text[end - 1])).drop_last()
            == before.drop_last());
        assert((lines(text.take(start)).last() + text.subrange(start, end - 1)).push(
            text[end - 1],
        ) == lines(text.take(start)).last() + text.subrange(start, end));
    }
}

/// A text has at least one line.
proof fn lemma_lines_not_empty(text: Seq<char>)
    ensures
        lines(text).len() >= 1,
    decreases text.len(),
{
    if text.len() > 0 {
        lemma_lines_not_empty(text.drop_last());
    }
}

/// The lines that end before a line feed stay as they are, whatever follows.
proof fn lemma_lines_persist(text: Seq<char>, feed: int, end: int)
    requires
        0 <= feed < end <= text.len(),
        text[feed] == '\n',
    ensures
        lines(text.take(feed)).is_prefix_of(lines(text.take(end)).drop_last()),
    decreases end - feed,
{
    lemma_lines_not_empty(text.take(feed));
    assert(text.take(end).drop_last() == text.take(end - 1));
    let before = lines(text.take(end - 1));
    if end == feed + 1 {
        assert(before.push(Seq::<char>::empty()).drop_last() == before);
    } else {
        lemma_lines_persist(text, feed, end - 1);
        lemma_lines_not_empty(text.take(end - 1));
        if text[end - 1] == '\n' {
            assert(before.push(Seq::<char>::empty()).drop_last() == before);
        } else {
            assert(before.drop_last().push(before.last().push(text[end - 1])).drop_last()
                == before.drop_last());
        }
    }
}

/// A line has one first separator at most.
proof fn lemma_first_separator(line: Seq<char>, at: int)
    requires
        first_separator_at(line, at),
    ensures
        has_separator(line),
        first_separator(line) == at,
{
    let chosen = first_separator(line);
    assert(first_separator_at(line, chosen));
    if chosen < at {
        assert(!separator_at(line, chosen));
    } else if at < chosen {
        assert(!separator_at(line, at));
    }
}

/// Lines that follow a malformed line do not change what is reported.
proof fn lemma_parse_keeps_error(lines: Seq<Seq<char>>, more: Seq<Seq<char>>)
    requires
        parse(lines) is Err,
    ensures
        parse(lines + more) == parse(lines),
    decreases more.len(),
{
    if more.len() == 0 {
        assert(lines + more == lines);
    } else {
        lemma_parse_keeps_error(lines, more.drop_last());
        assert((lines + more).drop_last() == lines + more.drop_last());
    }
}

/// The lines of a text are what the line feeds part: no line holds a line
/// feed, and the lines joined by line feeds are the text again.
pub proof fn lemma_lines_split(text: Seq<char>)
    ensures
        lines(text).len() >= 1,
        forall|i: int, j: int|
            0 <= i < lines(text).len() && 0 <= j < lines(text)[i].len() ==> lines(text)[i][j]
                != '\n',
        joined(lines(text)) == text,
    decreases text.len(),
{
    if text.len() > 0 {
        let shorter = text.drop_last();
        let before = lines(shorter);
        lemma_lines_split(shorter);
        if text.last() == '\n' {
            assert(before.push(Seq::<char>::empty()).drop_last() == before);
            assert(joined(before).push('\n') + Seq::<char>::empty() == text);
        } else {
            let longer = before.drop_last().push(before.last().push(text.last()));
            if before.len() == 1 {
                assert(longer[0] == text);
            } else {
                assert(longer.drop_last() == before.drop_last());
                assert(joined(before.drop_last()).push('\n') + before.last().push(text.last())
                    == (joined(before.drop_last()).push('\n') + before.last()).push(
                    text.last(),
                ));
                assert(shorter.push(text.last()) == text);
            }
        }
    }
}

/// A line that splits into a name and a version is that name, `==` and that
/// version, and neither of the two is empty.
pub proof fn lemma_split_line_round_trip(line: Seq<char>)
    requires
        split_line(line) is Ok,
    ensures
        ({
            let (name, version) = split_line(line)->Ok_0;
            &&& name + separator() + version == line
            &&& name.len() > 0
            &&& version.len() > 0
            &&& first_separator_at(line, name.len() as int)
        }),
{
    lemma_first_separator_exists(line, choose|at: int| separator_at(line, at));
    let at = first_separator(line);
    assert(line.take(at) + separator() + line.skip(at + 2) == line);
}

/// Among the separators of a line one is the first.
proof fn lemma_first_separator_exists(line: Seq<char>, at: int)
    requires
        separator_at(line, at),
    ensures
        first_separator_at(line, first_separator(line)),
    decreases at,
{
    if exists|earlier: int| 0 <= earlier < at && separator_at(line, earlier) {
        let earlier = choose|earlier: int| 0 <= earlier < at && separator_at(line, earlier);
        lemma_first_separator_exists(line, earlier);
    } else {
        assert(first_separator_at(line, at));
    }
}

/// Round trip: writing the requirements of a well-formed listing back, each
/// as its name, `==` and its version, gives the non-empty lines of the
/// listing, in their order. The requirements are numbered 1, 2, 3 and so on.
pub proof fn lemma_round_trip(text: Seq<char>)
    requires
        parse(lines(text)) is Ok,
    ensures
        written_all(parse(lines(text))->Ok_0) == non_empty(lines(text)),
        forall|k: int|
            0 <= k < parse(lines(text))->Ok_0.len() ==> (#[trigger] parse(
                lines(text),
            )->Ok_0[k]).id == k + 1,
{
    lemma_parse_round_trip(lines(text));
}

/// The round trip, told of any sequence of lines.
proof fn lemma_parse_round_trip(lines: Seq<Seq<char>>)
    requires
        parse(lines) is Ok,
    ensures
        written_all(parse(lines)->Ok_0) == non_empty(lines),
        forall|k: int|
            0 <= k < parse(lines)->Ok_0.len() ==> (#[trigger] parse(lines)->Ok_0[k]).id == k + 1,
    decreases lines.len(),
{
    reveal(Seq::filter);
    if lines.len() > 0 {
        let line = lines.last();
        let before = parse(lines.drop_last())->Ok_0;
        lemma_parse_round_trip(lines.drop_last());
        if line.len() > 0 {
            lemma_split_line_round_trip(line);
            let (name, version) = split_line(line)->Ok_0;
            let requirement = Requirement { id: before.len() + 1, name, version };
            assert(parse(lines)->Ok_0 == before.push(requirement));
            assert(written_all(before.push(requirement)) == written_all(before).push(line));
        }
    }
}

/// Strictness: a listing is read if and only if each of its lines is empty or
/// holds a name and a version around `==`. Otherwise it yields no
/// requirement, and what is reported is the first line that is malformed,
/// with its defect.
pub proof fn lemma_parse_strict(text: Seq<char>)
    ensures
        parse(lines(text)) is Ok <==> forall|i: int| !malformed_at(lines(text), i),
        parse(lines(text)) matches Err(malformed) ==> {
            &&& malformed_at(lines(text), malformed.line - 1)
            &&& split_line(lines(text)[malformed.line - 1]) == Err::<
                (Seq<char>, Seq<char>),
                ParseErrorKind,
            >(malformed.kind)
            &&& forall|i: int| 0 <= i < malformed.line - 1 ==> !malformed_at(lines(text), i)
        },
{
    lemma_parse_first_malformed(lines(text));
}

/// Strictness, told of any sequence of lines.
proof fn lemma_parse_first_malformed(lines: Seq<Seq<char>>)
    ensures
        parse(lines) is Ok <==> forall|i: int| !malformed_at(lines, i),
        parse(lines) matches Err(malformed) ==> {
            &&& malformed_at(lines, malformed.line - 1)
            &&& split_line(lines[malformed.line - 1]) == Err::<
                (Seq<char>, Seq<char>),
                ParseErrorKind,
            >(malformed.kind)
            &&& forall|i: int| 0 <= i < malformed.line - 1 ==> !malformed_at(lines, i)
        },
    decreases lines.len(),
{
    if lines.len() > 0 {
        let rest = lines.drop_last();
        lemma_parse_first_malformed(rest);
        assert forall|i: int| malformed_at(rest, i) == (malformed_at(lines, i) && i < rest.len()) by {}
        if parse(rest) is Ok {
            if malformed_at(lines, lines.len() - 1) {
            } else {
                assert forall|i: int| !malformed_at(lines, i) by {
                    assert(!malformed_at(rest, i));
                }
            }
        } else {
            let malformed = parse(rest)->Err_0;
            assert(malformed_at(rest, malformed.line - 1));
        }
    }
}

/// A line without `==`, a line that starts with its first `==` and a line
/// that ends with it are malformed.
pub proof fn lemma_split_line_strict(line: Seq<char>)
    ensures
        !has_separator(line) ==> split_line(line) == Err::<(Seq<char>, Seq<char>), ParseErrorKind>(
            ParseErrorKind::MissingSeparator,
        ),
        first_separator_at(line, 0) ==> split_line(line) == Err::<
            (Seq<char>, Seq<char>),
            ParseErrorKind,
        >(ParseErrorKind::EmptyName),
        line.len() > 2 && first_separator_at(line, line.len() - 2) ==> split_line(line) == Err::<
            (Seq<char>, Seq<char>),
            ParseErrorKind,
        >(ParseErrorKind::EmptyVersion),
{
    if first_separator_at(line, 0) {
        lemma_first_separator(line, 0);
    }
    if line.len() > 2 && first_separator_at(line, line.len() - 2) {
        lemma_first_separator(line, line.len() - 2);
    }
}

} // verus!
