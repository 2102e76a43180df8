//! One log file, line by line: first the header block, then the body.

use crate::access::{addresses_of, classify, classify_line, LineClass, LineKind, RemoteAccess};
use crate::header::{header_map, lemma_header_map_push, EmailHead, HeaderModel};
use crate::sequences::lemma_filter_next;
use vstd::prelude::*;

verus! {

/// What became of one line of the file.
pub enum StepKind {
    /// The header block took the line.
    Header,
    /// The line is a remote-access entry of the peer with this address.
    Emit(Seq<char>),
    /// The line has the marker of a remote-access entry and another shape;
    /// holds the tokens of its descriptor joined by `|`.
    Report(Seq<char>),
    /// The line is kept among the peripheral lines.
    Keep,
}

/// A file as far as it has been read: its header block, and the peripheral
/// lines of its body in the order in which they came.
pub struct ParserModel {
    pub head: HeaderModel,
    pub peripheral: Seq<Seq<char>>,
}

impl ParserModel {
    /// The file before any line.
    pub open spec fn fresh() -> ParserModel {
        ParserModel { head: HeaderModel::fresh(), peripheral: Seq::empty() }
    }

    /// What becomes of the next line. As long as the header block is open it
    /// takes the line; every line after that is a body line.
    pub open spec fn step(self, line: Seq<char>) -> StepKind {
        if !self.head.done {
            StepKind::Header
        } else {
            match classify_line(line) {
                LineKind::Access(address) => StepKind::Emit(address),
                LineKind::Unrecognized(tokens) => StepKind::Report(tokens),
                LineKind::Peripheral(_) => StepKind::Keep,
            }
        }
    }

    /// The file after the next line.
    pub open spec fn feed(self, line: Seq<char>) -> ParserModel {
        if !self.head.done {
            ParserModel { head: self.head.push(line), ..self }
        } else {
            match classify_line(line) {
                LineKind::Peripheral(text) => ParserModel {
                    peripheral: self.peripheral.push(text),
                    ..self
                },
                _ => self,
            }
        }
    }
}

/// The number of lines before the first empty line of `lines`: the number of
/// all of them where none is empty.
pub open spec fn header_end(lines: Seq<Seq<char>>) -> int
    decreases lines.len(),
{
    if lines.len() == 0 || lines[0].len() == 0 {
        0
    } else {
        1 + header_end(lines.drop_first())
    }
}

/// Whether `lines` hold the empty line that closes the header block.
pub open spec fn is_closed(lines: Seq<Seq<char>>) -> bool {
    header_end(lines) < lines.len()
}

/// The header lines of `lines`: those before the first empty line.
pub open spec fn header_of(lines: Seq<Seq<char>>) -> Seq<Seq<char>> {
    lines.take(header_end(lines))
}

/// The body lines of `lines`: those after the first empty line.
pub open spec fn body_of(lines: Seq<Seq<char>>) -> Seq<Seq<char>> {
    if is_closed(lines) {
        lines.skip(header_end(lines) + 1)
    } else {
        Seq::empty()
    }
}

/// What a classified line holds: the address of an access, the joined tokens
/// of an unrecognized line, the text of a peripheral line.
pub open spec fn payload(kind: LineKind) -> Seq<char> {
    match kind {
        LineKind::Access(address) => address,
        LineKind::Unrecognized(tokens) => tokens,
        LineKind::Peripheral(text) => text,
    }
}

/// The addresses of the remote-access entries among `body`, in order.
pub open spec fn accesses_in(body: Seq<Seq<char>>) -> Seq<Seq<char>> {
    body.filter(|line: Seq<char>| classify_line(line) is Access).map_values(
        |line: Seq<char>| payload(classify_line(line)),
    )
}

/// The reports on the unrecognized access-log lines among `body`, in order.
pub open spec fn reports_in(body: Seq<Seq<char>>) -> Seq<Seq<char>> {
    body.filter(|line: Seq<char>| classify_line(line) is Unrecognized).map_values(
        |line: Seq<char>| payload(classify_line(line)),
    )
}

/// The peripheral lines among `body`, in order.
pub open spec fn peripherals_in(body: Seq<Seq<char>>) -> Seq<Seq<char>> {
    body.filter(|line: Seq<char>| classify_line(line) is Peripheral).map_values(
        |line: Seq<char>| payload(classify_line(line)),
    )
}

/// The parser after all of `lines`: the header block holds the entries of the
/// header lines and is closed where the empty line has come; the peripheral
/// lines are those of the body.
pub open spec fn parsed(lines: Seq<Seq<char>>) -> ParserModel {
    ParserModel {
        head: HeaderModel { headers: header_map(header_of(lines)), done: is_closed(lines) },
        peripheral: peripherals_in(body_of(lines)),
    }
}

/// The first empty line, if there is one, stands at `header_end`, and no line
/// before it is empty.
pub proof fn lemma_header_end(lines: Seq<Seq<char>>)
    ensures
        0 <= header_end(lines) <= lines.len(),
        forall|j: int| 0 <= j < header_end(lines) ==> (#[trigger] lines[j]).len() > 0,
        is_closed(lines) ==> lines[header_end(lines)].len() == 0,
    decreases lines.len(),
{
    if lines.len() > 0 && lines[0].len() > 0 {
        let rest = lines.drop_first();
        lemma_header_end(rest);
        assert forall|j: int| 0 <= j < header_end(lines) implies (#[trigger] lines[j]).len()
            > 0 by {
            if j > 0 {
                assert(lines[j] == rest[j - 1]);
            }
        }
    }
}

/// One more line moves the end of the header only as long as no empty line
/// has come.
pub proof fn lemma_header_end_push(lines: Seq<Seq<char>>, line: Seq<char>)
    ensures
        header_end(lines.push(line)) == if is_closed(lines) {
            header_end(lines)
        } else if line.len() == 0 {
            lines.len() as int
        } else {
            lines.len() as int + 1
        },
    decreases lines.len(),
{
    let longer = lines.push(line);
    assert(longer[0] == if lines.len() == 0 {
        line
    } else {
        lines[0]
    });
    if lines.len() == 0 {
        assert(longer.drop_first() =~= lines);
        assert(header_end(lines) == 0);
    } else if lines[0].len() > 0 {
        lemma_header_end_push(lines.drop_first(), line);
        assert(longer.drop_first() =~= lines.drop_first().push(line));
    }
}

/// Line by line, `feed` arrives at what `parsed` says of the whole file, and
/// `step` emits, reports and keeps what the body of the file holds: a line is
/// classified exactly where it comes after the first empty line.
pub proof fn lemma_feed_next(lines: Seq<Seq<char>>, line: Seq<char>)
    ensures
        parsed(Seq::<Seq<char>>::empty()) == ParserModel::fresh(),
        parsed(lines.push(line)) == parsed(lines).feed(line),
        parsed(lines).step(line) is Header <==> !is_closed(lines),
        accesses_in(body_of(lines.push(line))) == if parsed(lines).step(line) is Emit {
            accesses_in(body_of(lines)).push(payload(classify_line(line)))
        } else {
            accesses_in(body_of(lines))
        },
        reports_in(body_of(lines.push(line))) == if parsed(lines).step(line) is Report {
            reports_in(body_of(lines)).push(payload(classify_line(line)))
        } else {
            reports_in(body_of(lines))
        },
{
    let none = Seq::<Seq<char>>::empty();
    let longer = lines.push(line);
    let is_access = |l: Seq<char>| classify_line(l) is Access;
    let is_report = |l: Seq<char>| classify_line(l) is Unrecognized;
    let is_peripheral = |l: Seq<char>| classify_line(l) is Peripheral;
    let held = |l: Seq<char>| payload(classify_line(l));
    assert(parsed(none) == ParserModel::fresh()) by {
        reveal(Seq::filter);
        lemma_header_map_push(none, line);
        assert(header_of(none) =~= none);
        assert(none.filter(is_peripheral).map_values(held) =~= none);
    }
    lemma_header_end(lines);
    lemma_header_end_push(lines, line);
    if is_closed(lines) {
        let body = body_of(lines);
        let more = body_of(longer);
        assert(header_of(longer) =~= header_of(lines));
        assert(more =~= body.push(line));
        assert(more.take(body.len() as int) =~= body);
        assert(more.take(body.len() as int + 1) =~= more);
        lemma_filter_next(more, is_access, body.len() as int);
        lemma_filter_next(more, is_report, body.len() as int);
        lemma_filter_next(more, is_peripheral, body.len() as int);
        assert(body.filter(is_access).push(line).map_values(held) =~= body.filter(
            is_access,
        ).map_values(held).push(held(line)));
        assert(body.filter(is_report).push(line).map_values(held) =~= body.filter(
            is_report,
        ).map_values(held).push(held(line)));
        assert(body.filter(is_peripheral).push(line).map_values(held) =~= body.filter(
            is_peripheral,
        ).map_values(held).push(held(line)));
    } else {
        reveal(Seq::filter);
        assert(header_of(lines) =~= lines);
        assert(body_of(lines) =~= none);
        assert(none.filter(is_access).map_values(held) =~= none);
        assert(none.filter(is_report).map_values(held) =~= none);
        assert(none.filter(is_peripheral).map_values(held) =~= none);
        if line.len() == 0 {
            assert(header_of(longer) =~= lines);
            assert(body_of(longer) =~= none);
        } else {
            assert(header_of(longer) =~= longer);
            lemma_header_map_push(lines, line);
        }
    }
}

/// The header block of a file is what comes of offering every line of the
/// file, in order, to a fresh block.
pub proof fn lemma_parsed_head(lines: Seq<Seq<char>>)
    ensures
        parsed(lines).head == HeaderModel::fresh().push_all(lines),
    decreases lines.len(),
{
    if lines.len() == 0 {
        lemma_feed_next(lines, Seq::empty());
        assert(lines =~= Seq::<Seq<char>>::empty());
    } else {
        lemma_parsed_head(lines.drop_last());
        lemma_feed_next(lines.drop_last(), lines.last());
        assert(lines =~= lines.drop_last().push(lines.last()));
    }
}

/// What the caller is to do after a line.
#[derive(Debug)]
pub enum Step {
    /// Nothing: the header block took the line.
    Header,
    /// Forward this access.
    Emit(RemoteAccess),
    /// Report an unrecognized access-log line; holds the tokens of its
    /// descriptor joined by `|`.
    Report(String),
    /// Nothing: the line was kept among the peripheral lines.
    Keep,
}

impl View for Step {
    type V = StepKind;

    open spec fn view(&self) -> StepKind {
        match self {
            Step::Header => StepKind::Header,
            Step::Emit(access) => StepKind::Emit(access@),
            Step::Report(tokens) => StepKind::Report(tokens@),
            Step::Keep => StepKind::Keep,
        }
    }
}

/// Reads one file line by line.
#[derive(Debug)]
pub struct FileParser {
    head: EmailHead,
    peripheral: Vec<String>,
}

impl View for FileParser {
    type V = ParserModel;

    closed spec fn view(&self) -> ParserModel {
        ParserModel { head: self.head@, peripheral: self.peripheral.deep_view() }
    }
}

impl FileParser {
    /// A parser that has read no line.
    pub fn new() -> (parser: Self)
        ensures
            parser@ == ParserModel::fresh(),
    {
        let parser = FileParser { head: EmailHead::new(), peripheral: Vec::new() };
        assert(parser.peripheral.deep_view() =~= Seq::<Seq<char>>::empty());
        parser
    }

    /// Takes the next line of the file and says what is to be done with it.
    pub fn feed(&mut self, line: &str) -> (step: Step)
        ensures
            step@ == old(self)@.step(line@),
            final(self)@ == old(self)@.feed(line@),
    {
        if self.head.push(line) {
            return Step::Header;
        }
        match classify(line) {
            LineClass::Access(access) => Step::Emit(access),
            LineClass::Unrecognized(tokens) => Step::Report(tokens),
            LineClass::Peripheral(text) => {
                let ghost before = self.peripheral.deep_view();
                self.peripheral.push(text);
                assert(self.peripheral.deep_view() =~= before.push(text@));
                Step::Keep
            },
        }
    }

    /// The header block as far as it has been read.
    pub fn head(&self) -> (head: &EmailHead)
        ensures
            head@ == self@.head,
    {
        &self.head
    }

    /// The peripheral lines read so far.
    pub fn peripheral(&self) -> (lines: &Vec<String>)
        ensures
            lines.deep_view() == self@.peripheral,
    {
        &self.peripheral
    }
}

/// What one file holds: its header block, the accesses of its body, the
/// reports on the unrecognized access-log lines of its body, and the
/// peripheral lines of its body.
#[derive(Debug)]
pub struct ParsedFile {
    pub head: EmailHead,
    pub events: Vec<RemoteAccess>,
    pub unrecognized: Vec<String>,
    pub peripheral: Vec<String>,
}

/// Reads a whole file, given as its lines in order.
pub fn parse_lines(lines: &Vec<String>) -> (file: ParsedFile)
    ensures
        file.head@ == parsed(lines.deep_view()).head,
        addresses_of(file.events@) == accesses_in(body_of(lines.deep_view())),
        file.unrecognized.deep_view() == reports_in(body_of(lines.deep_view())),
        file.peripheral.deep_view() == parsed(lines.deep_view()).peripheral,
{
    let mut parser = FileParser::new();
    let mut events: Vec<RemoteAccess> = Vec::new();
    let mut unrecognized: Vec<String> = Vec::new();
    let ghost all = lines.deep_view();
    proof {
        reveal(Seq::filter);
        lemma_feed_next(all.take(0), all[0]);
        assert(all.take(0) =~= Seq::<Seq<char>>::empty());
        assert(body_of(all.take(0)) =~= Seq::<Seq<char>>::empty());
        assert(addresses_of(events@) =~= accesses_in(body_of(all.take(0))));
        assert(unrecognized.deep_view() =~= reports_in(body_of(all.take(0))));
    }
    let mut i: usize = 0;
    while i < lines.len()
        invariant
            i <= lines.len(),
            all == lines.deep_view(),
            parser@ == parsed(all.take(i as int)),
            addresses_of(events@) == accesses_in(body_of(all.take(i as int))),
            unrecognized.deep_view() == reports_in(body_of(all.take(i as int))),
        decreases lines.len() - i,
    {
        proof {
            lemma_feed_next(all.take(i as int), all[i as int]);
            assert(all.take(i + 1) =~= all.take(i as int).push(all[i as int]));
        }
        let ghost emitted = addresses_of(events@);
        let ghost reported = unrecognized.deep_view();
        match parser.feed(lines[i].as_str()) {
            Step::Emit(access) => {
                events.push(access);
                assert(addresses_of(events@) =~= emitted.push(access@));
            },
            Step::Report(tokens) => {
                unrecognized.push(tokens);
                assert(unrecognized.deep_view() =~= reported.push(tokens@));
            },
            Step::Header => {},
            Step::Keep => {},
        }
        i += 1;
    }
    assert(all.take(i as int) =~= all);
    let FileParser { head, peripheral } = parser;
    ParsedFile { head, events, unrecognized, peripheral }
}

} // verus!
