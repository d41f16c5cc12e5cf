//! Splitting a raw document into YAML front matter and Markdown body.
//!
//! The splitter is a three-state machine run over the document's lines: front
//! matter is recognized only when a `---` delimiter line is the first
//! non-blank line, and runs until a second `---` or the end of input. It
//! never fails; validating the extracted YAML text is the deserializer's job.
use vstd::prelude::*;
use vstd::assert_seqs_equal;
use vstd::string::StrSliceExecFns;
use vstd::string::StringExecFns;

verus! {

/// Whitespace for the purpose of delimiter comparison: the Unicode
/// white-space code points, the set `str::trim` removes.
pub open spec fn spec_is_ws(c: char) -> bool {
    ||| c == ' '
    ||| c == '\t'
    ||| c == '\n'
    ||| c == '\u{b}'
    ||| c == '\u{c}'
    ||| c == '\r'
    ||| c == '\u{85}'
    ||| c == '\u{a0}'
    ||| c == '\u{1680}'
    ||| c == '\u{2000}'
    ||| c == '\u{2001}'
    ||| c == '\u{2002}'
    ||| c == '\u{2003}'
    ||| c == '\u{2004}'
    ||| c == '\u{2005}'
    ||| c == '\u{2006}'
    ||| c == '\u{2007}'
    ||| c == '\u{2008}'
    ||| c == '\u{2009}'
    ||| c == '\u{200a}'
    ||| c == '\u{2028}'
    ||| c == '\u{2029}'
    ||| c == '\u{202f}'
    ||| c == '\u{205f}'
    ||| c == '\u{3000}'
}

/// The smallest index `k` with `i <= k` holding a non-whitespace character,
/// or `l.len()` if there is none.
pub open spec fn first_non_ws(l: Seq<char>, i: int) -> int
    decreases l.len() - i when 0 <= i <= l.len()
{
    if i >= l.len() {
        l.len() as int
    } else if spec_is_ws(l[i]) {
        first_non_ws(l, i + 1)
    } else {
        i
    }
}

/// The largest index `k` with `k < i` holding a non-whitespace character, or
/// `-1` if there is none.
pub open spec fn last_non_ws_before(l: Seq<char>, i: int) -> int
    decreases i when 0 <= i <= l.len()
{
    if i <= 0 {
        -1
    } else if spec_is_ws(l[i - 1]) {
        last_non_ws_before(l, i - 1)
    } else {
        i - 1
    }
}

/// The line with leading and trailing whitespace removed.
pub open spec fn spec_trim(l: Seq<char>) -> Seq<char> {
    if first_non_ws(l, 0) == l.len() {
        Seq::empty()
    } else {
        l.subrange(first_non_ws(l, 0), last_non_ws_before(l, l.len() as int) + 1)
    }
}

/// A front-matter delimiter: the line is `---` once trimmed.
pub open spec fn is_delim_line(l: Seq<char>) -> bool {
    spec_trim(l) == seq!['-', '-', '-']
}

/// A blank line: nothing but whitespace.
pub open spec fn is_blank_line(l: Seq<char>) -> bool {
    spec_trim(l) == Seq::<char>::empty()
}

proof fn lemma_first_non_ws_at(l: Seq<char>, i: int, j: int)
    requires
        0 <= i <= j <= l.len(),
        forall|m: int| i <= m < j ==> spec_is_ws(l[m]),
        j < l.len() ==> !spec_is_ws(l[j]),
    ensures
        first_non_ws(l, i) == j,
    decreases j - i,
{
    if i < j {
        lemma_first_non_ws_at(l, i + 1, j);
    }
}

proof fn lemma_last_non_ws_at(l: Seq<char>, i: int, j: int)
    requires
        0 <= j <= i <= l.len(),
        forall|m: int| j <= m < i ==> spec_is_ws(l[m]),
        j > 0 ==> !spec_is_ws(l[j - 1]),
    ensures
        last_non_ws_before(l, i) == j - 1,
    decreases i - j,
{
    if j < i {
        lemma_last_non_ws_at(l, i - 1, j);
    }
}

/// The state of the splitter while it walks the lines.
#[derive(Clone, Copy, Debug, PartialEq, Eq, Structural)]
pub enum SplitState {
    /// The front matter has not been opened yet.
    Start,
    /// The front matter has been opened but not closed.
    Head,
    /// The front matter has been closed, or there was none.
    Body,
}

/// Mathematical model of the splitter: its state and the two texts collected
/// so far.
pub struct ParserView {
    pub state: SplitState,
    pub head: Seq<char>,
    pub body: Seq<char>,
}

/// What one line does to the splitter, exactly as tabulated: a `---` line
/// opens the front matter from `Start` and closes it from `Head`; a blank
/// line before the front matter is skipped; anything else is appended, with
/// a single newline, to the head or the body as the state directs.
pub open spec fn spec_push_line(pv: ParserView, l: Seq<char>) -> ParserView {
    match pv.state {
        SplitState::Start => if is_delim_line(l) {
            ParserView { state: SplitState::Head, head: pv.head, body: pv.body }
        } else if is_blank_line(l) {
            pv
        } else {
            ParserView {
                state: SplitState::Body,
                head: pv.head,
                body: pv.body + l + seq!['\n'],
            }
        },
        SplitState::Head => if is_delim_line(l) {
            ParserView { state: SplitState::Body, head: pv.head, body: pv.body }
        } else {
            ParserView {
                state: SplitState::Head,
                head: pv.head + l + seq!['\n'],
                body: pv.body,
            }
        },
        SplitState::Body => ParserView {
            state: SplitState::Body,
            head: pv.head,
            body: pv.body + l + seq!['\n'],
        },
    }
}

/// The smallest index `k` with `i <= k` holding a newline, or `s.len()` if
/// there is none.
pub open spec fn first_nl_from(s: Seq<char>, i: int) -> int
    decreases s.len() - i when 0 <= i <= s.len()
{
    if i >= s.len() {
        s.len() as int
    } else if s[i] == '\n' {
        i
    } else {
        first_nl_from(s, i + 1)
    }
}

proof fn lemma_first_nl_bounds(s: Seq<char>, i: int)
    requires
        0 <= i <= s.len(),
    ensures
        i <= first_nl_from(s, i) <= s.len(),
    decreases s.len() - i,
{
    if i < s.len() && s[i] != '\n' {
        lemma_first_nl_bounds(s, i + 1);
    }
}

proof fn lemma_first_nl_at(s: Seq<char>, i: int, j: int)
    requires
        0 <= i <= j <= s.len(),
        forall|m: int| i <= m < j ==> s[m] != '\n',
        j < s.len() ==> s[j] == '\n',
    ensures
        first_nl_from(s, i) == j,
    decreases j - i,
{
    if i < j {
        lemma_first_nl_at(s, i + 1, j);
    }
}

/// A segment that a newline closed loses one trailing carriage return:
/// lines end at `\n` or at `\r\n`.
pub open spec fn strip_cr(l: Seq<char>) -> Seq<char> {
    if l.len() > 0 && l.last() == '\r' {
        l.drop_last()
    } else {
        l
    }
}

/// The document cut into lines: segments between newlines, each with one
/// trailing carriage return removed, and the final unterminated segment kept
/// verbatim when it is nonempty (a carriage return not followed by a newline
/// stays in its line).
pub open spec fn spec_lines(s: Seq<char>) -> Seq<Seq<char>>
    decreases s.len() via spec_lines_decreases
{
    if s.len() == 0 {
        Seq::empty()
    } else {
        let n = first_nl_from(s, 0);
        if n == s.len() {
            seq![s]
        } else {
            seq![strip_cr(s.subrange(0, n))] + spec_lines(s.skip(n + 1))
        }
    }
}

#[via_fn]
proof fn spec_lines_decreases(s: Seq<char>) {
    if s.len() > 0 {
        lemma_first_nl_bounds(s, 0);
    }
}

/// The splitter run over a sequence of lines.
pub open spec fn run_lines(pv: ParserView, ls: Seq<Seq<char>>) -> ParserView
    decreases ls.len(),
{
    if ls.len() == 0 {
        pv
    } else {
        run_lines(spec_push_line(pv, ls[0]), ls.skip(1))
    }
}

/// The splitter before any line was seen.
pub open spec fn init_view() -> ParserView {
    ParserView { state: SplitState::Start, head: Seq::empty(), body: Seq::empty() }
}

/// What splitting a whole document yields: the front-matter text and the
/// body text.
pub open spec fn spec_split(s: Seq<char>) -> (Seq<char>, Seq<char>) {
    let pv = run_lines(init_view(), spec_lines(s));
    (pv.head, pv.body)
}

#[verifier::external_type_specification]
#[verifier::external_body]
pub struct ExYamlValue(serde_yaml::Value);

#[verifier::external_type_specification]
#[verifier::external_body]
pub struct ExYamlError(serde_yaml::Error);

/// Whether a text deserializes cleanly into a generic YAML value: a fact of
/// the text alone.
pub uninterp spec fn yaml_ok(s: Seq<char>) -> bool;

/// Relies on serde_yaml::from_str: deserializing a generic value either
/// succeeds or reports an error, depending on the text alone, and the empty
/// text deserializes cleanly (to a null value).
#[verifier::external_body]
fn yaml_from_str(s: &str) -> (r: Result<serde_yaml::Value, serde_yaml::Error>)
    ensures
        (r is Ok) == yaml_ok(s@),
        s@.len() == 0 ==> r is Ok,
{
    serde_yaml::from_str(s)
}

/// Extract and parse YAML front matter from a Markdown document: the text is
/// split, the front-matter text is deserialized, and the body text is handed
/// back untouched. Fails exactly when the extracted front-matter text is not
/// valid YAML.
pub fn parse(source: &str) -> (r: Result<(serde_yaml::Value, String), serde_yaml::Error>)
    ensures
        (r is Ok) == yaml_ok(spec_split(source@).0),
        match r {
            Ok(v) => v.1@ == spec_split(source@).1,
            Err(_) => !yaml_ok(spec_split(source@).0),
        },
{
    let (head, body) = Parser::parse(source);
    match yaml_from_str(head.as_str()) {
        Ok(value) => Ok((value, body)),
        Err(e) => Err(e),
    }
}

/// How one line reads for the state machine.
enum LineKind {
    Delim,
    Blank,
    Other,
}

fn is_ws_char(c: char) -> (b: bool)
    ensures
        b == spec_is_ws(c),
{
    c == ' ' || c == '\t' || c == '\n' || c == '\u{b}' || c == '\u{c}' || c == '\r'
        || c == '\u{85}' || c == '\u{a0}' || c == '\u{1680}' || c == '\u{2000}'
        || c == '\u{2001}' || c == '\u{2002}' || c == '\u{2003}' || c == '\u{2004}'
        || c == '\u{2005}' || c == '\u{2006}' || c == '\u{2007}' || c == '\u{2008}'
        || c == '\u{2009}' || c == '\u{200a}' || c == '\u{2028}' || c == '\u{2029}'
        || c == '\u{202f}' || c == '\u{205f}' || c == '\u{3000}'
}

/// Decide whether a line is a `---` delimiter, blank, or anything else,
/// comparing with surrounding whitespace ignored.
fn classify_line(line: &str) -> (k: LineKind)
    ensures
        k is Delim == is_delim_line(line@),
        k is Blank == is_blank_line(line@),
{
    let len = line.unicode_len();
    let mut a: usize = 0;
    loop
        invariant
            0 <= a <= len,
            len == line@.len(),
            forall|m: int| 0 <= m < a ==> spec_is_ws(line@[m]),
        ensures
            0 <= a <= len,
            forall|m: int| 0 <= m < a ==> spec_is_ws(line@[m]),
            a < len ==> !spec_is_ws(line@[a as int]),
        decreases len - a,
    {
        if a >= len {
            break;
        }
        if !is_ws_char(line.get_char(a)) {
            break;
        }
        a = a + 1;
    }
    proof {
        lemma_first_non_ws_at(line@, 0, a as int);
    }
    if a == len {
        proof {
            assert(is_blank_line(line@));
            assert(spec_trim(line@).len() == 0);
        }
        return LineKind::Blank;
    }
    let mut b: usize = len;
    loop
        invariant
            a < b <= len || b == a,
            a < len,
            len == line@.len(),
            !spec_is_ws(line@[a as int]),
            forall|m: int| b <= m < len ==> spec_is_ws(line@[m]),
        ensures
            a < b <= len,
            forall|m: int| b <= m < len ==> spec_is_ws(line@[m]),
            !spec_is_ws(line@[b - 1]),
        decreases b,
    {
        if !is_ws_char(line.get_char(b - 1)) {
            break;
        }
        b = b - 1;
    }
    proof {
        lemma_last_non_ws_at(line@, len as int, b as int);
        assert(spec_trim(line@) == line@.subrange(a as int, b as int));
        assert(spec_trim(line@).len() == b - a > 0);
        assert(!is_blank_line(line@));
    }
    if b - a == 3 {
        let c0 = line.get_char(a);
        let c1 = line.get_char(a + 1);
        let c2 = line.get_char(a + 2);
        if c0 == '-' && c1 == '-' && c2 == '-' {
            proof {
                assert_seqs_equal!(spec_trim(line@) == seq!['-', '-', '-']);
            }
            return LineKind::Delim;
        }
        proof {
            let t = spec_trim(line@);
            let ai = a as int;
            assert(t[0] == line@[ai] && t[1] == line@[ai + 1] && t[2] == line@[ai + 2]);
            assert(!is_delim_line(line@));
        }
        return LineKind::Other;
    }
    proof {
        assert(spec_trim(line@).len() != 3);
        assert(!is_delim_line(line@));
    }
    LineKind::Other
}

/// A state-based splitter that separates YAML front matter from a Markdown
/// body, fed one line at a time.
pub struct Parser {
    /// The current state of the splitter.
    state: SplitState,
    /// Front-matter text collected so far.
    head: String,
    /// Body text collected so far.
    body: String,
}

impl View for Parser {
    type V = ParserView;

    closed spec fn view(&self) -> ParserView {
        ParserView { state: self.state, head: self.head@, body: self.body@ }
    }
}

impl Parser {
    /// A splitter that has seen no input yet.
    pub fn new() -> (r: Parser)
        ensures
            r@ == init_view(),
    {
        Parser { state: SplitState::Start, head: String::new(), body: String::new() }
    }

    /// The front-matter text collected so far.
    pub fn head(&self) -> (r: &String)
        ensures
            r@ == self@.head,
    {
        &self.head
    }

    /// The body text collected so far.
    pub fn body(&self) -> (r: &String)
        ensures
            r@ == self@.body,
    {
        &self.body
    }

    /// Feed the next line, moving the state machine one step.
    pub fn push_line(&mut self, line: &str)
        ensures
            final(self)@ == spec_push_line(old(self)@, line@),
    {
        let kind = classify_line(line);
        proof {
            reveal_strlit("\n");
            assert("\n"@ =~= seq!['\n']);
        }
        match self.state {
            SplitState::Start => {
                match kind {
                    LineKind::Delim => {
                        self.state = SplitState::Head;
                    },
                    LineKind::Blank => {},
                    LineKind::Other => {
                        self.body.append(line);
                        self.body.append("\n");
                        self.state = SplitState::Body;
                        proof {
                            assert_seqs_equal!(
                                self@.body == old(self)@.body + line@ + seq!['\n']
                            );
                        }
                    },
                }
            },
            SplitState::Head => {
                match kind {
                    LineKind::Delim => {
                        self.state = SplitState::Body;
                    },
                    _ => {
                        self.head.append(line);
                        self.head.append("\n");
                        proof {
                            assert_seqs_equal!(
                                self@.head == old(self)@.head + line@ + seq!['\n']
                            );
                        }
                    },
                }
            },
            SplitState::Body => {
                self.body.append(line);
                self.body.append("\n");
                proof {
                    assert_seqs_equal!(self@.body == old(self)@.body + line@ + seq!['\n']);
                }
            },
        }
    }

    /// Separate a whole document into front-matter text and body text. Never
    /// fails: a document with no leading `---` has empty front matter, and a
    /// front matter never closed runs to the end of input.
    pub fn parse(source: &str) -> (r: (String, String))
        ensures
            r.0@ == spec_split(source@).0,
            r.1@ == spec_split(source@).1,
    {
        let mut parser = Parser::new();
        let len = source.unicode_len();
        let mut pos: usize = 0;
        proof {
            assert_seqs_equal!(source@.skip(0) == source@);
        }
        loop
            invariant
                0 <= pos <= len,
                len == source@.len(),
                run_lines(init_view(), spec_lines(source@)) == run_lines(
                    parser@,
                    spec_lines(source@.skip(pos as int)),
                ),
            ensures
                parser@ == run_lines(init_view(), spec_lines(source@)),
            decreases len - pos + 1,
        {
            if pos >= len {
                proof {
                    assert(source@.skip(pos as int).len() == 0);
                }
                break;
            }
            let ghost t = source@.skip(pos as int);
            let mut n: usize = pos;
            loop
                invariant
                    pos <= n <= len,
                    len == source@.len(),
                    forall|m: int| pos <= m < n ==> source@[m] != '\n',
                ensures
                    pos <= n <= len,
                    forall|m: int| pos <= m < n ==> source@[m] != '\n',
                    n < len ==> source@[n as int] == '\n',
                decreases len - n,
            {
                if n >= len {
                    break;
                }
                if source.get_char(n) == '\n' {
                    break;
                }
                n = n + 1;
            }
            proof {
                assert forall|m: int| 0 <= m < n - pos implies t[m] != '\n' by {
                    assert(t[m] == source@[pos + m]);
                }
                if n < len {
                    assert(t[n - pos] == source@[n as int]);
                }
                lemma_first_nl_at(t, 0, n - pos);
            }
            let mut end = n;
            if n < len && end > pos && source.get_char(end - 1) == '\r' {
                end = end - 1;
            }
            let line = source.substring_char(pos, end);
            proof {
                assert_seqs_equal!(t.subrange(0, n - pos) == source@.subrange(pos as int, n as int));
                if n < len {
                    assert_seqs_equal!(
                        line@ == strip_cr(source@.subrange(pos as int, n as int))
                    );
                } else {
                    assert_seqs_equal!(line@ == t);
                }
            }
            let ghost pv0 = parser@;
            parser.push_line(line);
            if n >= len {
                proof {
                    assert(first_nl_from(t, 0) == t.len());
                    assert(spec_lines(t) == seq![t]);
                    assert(spec_lines(t)[0] == line@);
                    assert(spec_lines(t).len() == 1);
                    assert(run_lines(pv0, spec_lines(t)) == run_lines(
                        spec_push_line(pv0, line@),
                        spec_lines(t).skip(1),
                    ));
                    assert(spec_lines(t).skip(1).len() == 0);
                    assert(run_lines(parser@, spec_lines(t).skip(1)) == parser@);
                    assert(source@.skip(len as int).len() == 0);
                    assert(spec_lines(source@.skip(len as int)).len() == 0);
                    assert(run_lines(parser@, spec_lines(source@.skip(len as int))) == parser@);
                }
                pos = len;
            } else {
                proof {
                    assert(spec_lines(t) == seq![strip_cr(t.subrange(0, n - pos))] + spec_lines(
                        t.skip(n - pos + 1),
                    ));
                    assert(spec_lines(t)[0] == line@);
                    assert(spec_lines(t).len() >= 1);
                    assert(run_lines(pv0, spec_lines(t)) == run_lines(
                        spec_push_line(pv0, line@),
                        spec_lines(t).skip(1),
                    ));
                    assert_seqs_equal!(
                        spec_lines(t).skip(1) == spec_lines(t.skip(n - pos + 1))
                    );
                    assert_seqs_equal!(t.skip(n - pos + 1) == source@.skip(n as int + 1));
                }
                pos = n + 1;
            }
        }
        let Parser { state: _, head, body } = parser;
        (head, body)
    }
}

} // verus!
