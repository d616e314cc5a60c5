//! The markup text extractor: from the text of a markup entry to the plain
//! text of its paragraphs.
//!
//! The markup is first cut into events: a tag, from `<` to the next `>`, is a
//! paragraph start (`<w:p>`, with or without attributes), a paragraph end
//! (`</w:p>`, or the empty paragraph `<w:p/>`), a run start (`<w:t>`), a run
//! end (`</w:t>`) or of no interest; every character outside a tag is an
//! event of its own and is taken as written. A scanner with two flags then
//! gathers the characters of text runs into paragraphs.

use vstd::prelude::*;
use crate::error::DocError;
use crate::layout::is_space;
use crate::layout::is_space_char;
use crate::layout::lines_of;
use crate::text::append_chars;
use crate::text::ascii_whitespace;
use crate::text::chars_of;
use crate::text::lemma_push_concat;
use crate::text::string_of;

verus! {

/// What the scanner sees in the markup.
#[derive(Clone, Copy, Debug)]
pub enum Event {
    ParagraphStart,
    ParagraphEnd,
    RunStart,
    RunEnd,
    /// A tag of no interest.
    Other,
    /// One character outside any tag.
    Char(char),
}

/// The position of the first `>` in `text` at or after `i`, or the length of
/// `text` when there is none.
pub open spec fn tag_end(text: Seq<char>, i: int) -> int
    decreases text.len() - i,
{
    if i < 0 || i >= text.len() {
        text.len() as int
    } else if text[i] == '>' {
        i
    } else {
        tag_end(text, i + 1)
    }
}

/// Whether the inside of a tag opens or is the element `w:` and `letter`:
/// the name, and behind it the end, ASCII white space or a slash.
pub open spec fn names_element(tag: Seq<char>, letter: char) -> bool {
    &&& tag.len() >= 3
    &&& tag[0] == 'w'
    &&& tag[1] == ':'
    &&& tag[2] == letter
    &&& (tag.len() == 3 || ascii_whitespace(tag[3]) || tag[3] == '/')
}

/// Whether the inside of a tag is the end tag of the element `w:` and
/// `letter`.
pub open spec fn names_end(tag: Seq<char>, letter: char) -> bool {
    tag =~= seq!['/', 'w', ':', letter]
}

/// The event that a tag with this inside stands for.
pub open spec fn classify(tag: Seq<char>) -> Event {
    if names_end(tag, 'p') {
        Event::ParagraphEnd
    } else if names_end(tag, 't') {
        Event::RunEnd
    } else if names_element(tag, 'p') {
        if tag.last() == '/' {
            Event::ParagraphEnd
        } else {
            Event::ParagraphStart
        }
    } else if names_element(tag, 't') {
        if tag.last() == '/' {
            Event::Other
        } else {
            Event::RunStart
        }
    } else {
        Event::Other
    }
}

/// The events of `text[i..]`, or nothing when a tag is not closed.
pub open spec fn events_from(text: Seq<char>, i: int) -> Option<Seq<Event>>
    decreases text.len() - i,
{
    if i < 0 || i >= text.len() {
        Some(Seq::empty())
    } else if text[i] == '<' {
        let e = tag_end(text, i + 1);
        if i < e < text.len() {
            match events_from(text, e + 1) {
                Some(rest) => Some(seq![classify(text.subrange(i + 1, e))] + rest),
                None => None,
            }
        } else {
            None
        }
    } else {
        match events_from(text, i + 1) {
            Some(rest) => Some(seq![Event::Char(text[i])] + rest),
            None => None,
        }
    }
}

/// The state of the scanner: its two flags, the paragraphs that are
/// finished, and the text of the paragraph that is open.
pub struct ScanState {
    pub in_paragraph: bool,
    pub in_run: bool,
    pub paragraphs: Seq<Seq<char>>,
    pub current: Seq<char>,
}

/// The state before the first event.
pub open spec fn initial_state() -> ScanState {
    ScanState {
        in_paragraph: false,
        in_run: false,
        paragraphs: Seq::empty(),
        current: Seq::empty(),
    }
}

/// The scanner's transition table: the state after an event, or nothing
/// where the event does not balance.
///
/// A paragraph may start only outside a paragraph and a run; a run only
/// outside a run. A run end needs an open run. A paragraph end needs no open
/// run; it finishes the open paragraph, empty or not. A character is kept
/// inside a run and dropped elsewhere.
pub open spec fn step(s: ScanState, e: Event) -> Option<ScanState> {
    match e {
        Event::ParagraphStart => if s.in_run || s.in_paragraph {
            None
        } else {
            Some(ScanState { in_paragraph: true, ..s })
        },
        Event::ParagraphEnd => if s.in_run {
            None
        } else {
            Some(
                ScanState {
                    in_paragraph: false,
                    in_run: false,
                    paragraphs: s.paragraphs.push(s.current),
                    current: Seq::empty(),
                },
            )
        },
        Event::RunStart => if s.in_run {
            None
        } else {
            Some(ScanState { in_run: true, ..s })
        },
        Event::RunEnd => if s.in_run {
            Some(ScanState { in_run: false, ..s })
        } else {
            None
        },
        Event::Other => Some(s),
        Event::Char(c) => if s.in_run {
            Some(ScanState { current: s.current.push(c), ..s })
        } else {
            Some(s)
        },
    }
}

/// Whether the scanner may stop in this state: nothing is open and no text
/// stands outside a finished paragraph.
pub open spec fn balanced(s: ScanState) -> bool {
    !s.in_run && !s.in_paragraph && s.current.len() == 0
}

/// The paragraphs that the scanner finds in `events[i..]` from state `s`, or
/// nothing where the events do not balance.
pub open spec fn run_from(events: Seq<Event>, i: int, s: ScanState) -> Option<Seq<Seq<char>>>
    decreases events.len() - i,
{
    if i < 0 || i >= events.len() {
        if balanced(s) {
            Some(s.paragraphs)
        } else {
            None
        }
    } else {
        match step(s, events[i]) {
            Some(next) => run_from(events, i + 1, next),
            None => None,
        }
    }
}

/// The paragraphs of a markup text, or nothing where it is malformed.
pub open spec fn paragraphs_of(markup: Seq<char>) -> Option<Seq<Seq<char>>> {
    match events_from(markup, 0) {
        Some(events) => run_from(events, 0, initial_state()),
        None => None,
    }
}

/// The number of paragraph ends in `events[i..]`.
pub open spec fn paragraph_ends(events: Seq<Event>, i: int) -> nat
    decreases events.len() - i,
{
    if i < 0 || i >= events.len() {
        0
    } else if events[i] is ParagraphEnd {
        1 + paragraph_ends(events, i + 1)
    } else {
        paragraph_ends(events, i + 1)
    }
}

/// The scanner finds one paragraph for each paragraph end, empty ones
/// included.
pub proof fn lemma_one_paragraph_per_end(events: Seq<Event>, i: int, s: ScanState)
    requires
        0 <= i,
        run_from(events, i, s) is Some,
    ensures
        run_from(events, i, s)->0.len() == s.paragraphs.len() + paragraph_ends(events, i),
    decreases events.len() - i,
{
    if i < events.len() {
        lemma_one_paragraph_per_end(events, i + 1, step(s, events[i])->0);
    }
}

/// The exec form of the scanner's state.
pub struct Scanner {
    pub in_paragraph: bool,
    pub in_run: bool,
    pub paragraphs: Vec<Vec<char>>,
    pub current: Vec<char>,
}

impl View for Scanner {
    type V = ScanState;

    open spec fn view(&self) -> ScanState {
        ScanState {
            in_paragraph: self.in_paragraph,
            in_run: self.in_run,
            paragraphs: lines_of(self.paragraphs@),
            current: self.current@,
        }
    }
}

impl Scanner {
    /// A scanner before the first event.
    pub fn new() -> (s: Scanner)
        ensures
            s@ == initial_state(),
    {
        let s = Scanner {
            in_paragraph: false,
            in_run: false,
            paragraphs: Vec::new(),
            current: Vec::new(),
        };
        assert(lines_of(s.paragraphs@) =~= Seq::empty());
        s
    }

    /// Takes one event: the next state, or nothing where the event does not
    /// balance.
    pub fn advance(self, e: Event) -> (r: Option<Scanner>)
        ensures
            r is Some <==> step(self@, e) is Some,
            r is Some ==> r->0@ == step(self@, e)->0,
    {
        let mut s = self;
        match e {
            Event::ParagraphStart => {
                if s.in_run || s.in_paragraph {
                    return None;
                }
                s.in_paragraph = true;
            },
            Event::ParagraphEnd => {
                if s.in_run {
                    return None;
                }
                let mut paragraphs = s.paragraphs;
                let current = s.current;
                assert(lines_of(paragraphs@.push(current)) =~= lines_of(paragraphs@).push(
                    current@,
                ));
                paragraphs.push(current);
                return Some(
                    Scanner { in_paragraph: false, in_run: false, paragraphs, current: Vec::new() },
                );
            },
            Event::RunStart => {
                if s.in_run {
                    return None;
                }
                s.in_run = true;
            },
            Event::RunEnd => {
                if !s.in_run {
                    return None;
                }
                s.in_run = false;
            },
            Event::Other => {},
            Event::Char(c) => {
                if s.in_run {
                    s.current.push(c);
                }
            },
        }
        Some(s)
    }

    /// Whether the scanner may stop here.
    pub fn is_balanced(&self) -> (b: bool)
        ensures
            b == balanced(self@),
    {
        !self.in_run && !self.in_paragraph && self.current.len() == 0
    }
}

fn names_element_at(text: &[char], from: usize, to: usize, letter: char) -> (b: bool)
    requires
        from <= to <= text@.len(),
    ensures
        b == names_element(text@.subrange(from as int, to as int), letter),
{
    let n = to - from;
    let ghost tag = text@.subrange(from as int, to as int);
    assert(forall|k: int| 0 <= k < n ==> tag[k] == text@[from + k]);
    n >= 3 && text[from] == 'w' && text[from + 1] == ':' && text[from + 2] == letter && (n == 3
        || text[from + 3] == ' ' || ('\t' <= text[from + 3] && text[from + 3] <= '\r')
        || text[from + 3] == '/')
}

fn names_end_at(text: &[char], from: usize, to: usize, letter: char) -> (b: bool)
    requires
        from <= to <= text@.len(),
    ensures
        b == names_end(text@.subrange(from as int, to as int), letter),
{
    let n = to - from;
    let ghost tag = text@.subrange(from as int, to as int);
    assert(forall|k: int| 0 <= k < n ==> tag[k] == text@[from + k]);
    n == 4 && text[from] == '/' && text[from + 1] == 'w' && text[from + 2] == ':' && text[from + 3]
        == letter
}

/// The event of the tag whose inside is `text[from..to]`.
pub fn classify_tag(text: &[char], from: usize, to: usize) -> (e: Event)
    requires
        from <= to <= text@.len(),
    ensures
        e == classify(text@.subrange(from as int, to as int)),
{
    let ghost tag = text@.subrange(from as int, to as int);
    if names_end_at(text, from, to, 'p') {
        Event::ParagraphEnd
    } else if names_end_at(text, from, to, 't') {
        Event::RunEnd
    } else if names_element_at(text, from, to, 'p') {
        assert(tag.last() == text@[to - 1]);
        if text[to - 1] == '/' {
            Event::ParagraphEnd
        } else {
            Event::ParagraphStart
        }
    } else if names_element_at(text, from, to, 't') {
        assert(tag.last() == text@[to - 1]);
        if text[to - 1] == '/' {
            Event::Other
        } else {
            Event::RunStart
        }
    } else {
        Event::Other
    }
}

/// The scan of `text[i..]` behind the events already found: `found` and
/// then the events of the rest, or nothing.
pub open spec fn events_after(found: Seq<Event>, text: Seq<char>, i: int) -> Option<Seq<Event>> {
    match events_from(text, i) {
        Some(rest) => Some(found + rest),
        None => None,
    }
}

/// Cuts a markup text into its events; nothing where a tag is not closed.
pub fn scan_events(text: &[char]) -> (r: Option<Vec<Event>>)
    ensures
        r is Some <==> events_from(text@, 0) is Some,
        r is Some ==> r->0@ == events_from(text@, 0)->0,
{
    let mut out: Vec<Event> = Vec::new();
    let mut i: usize = 0;
    assert(events_from(text@, 0) is Some ==> out@ + events_from(text@, 0)->0 =~= events_from(
        text@,
        0,
    )->0);
    while i < text.len()
        invariant
            i <= text@.len(),
            events_after(out@, text@, i as int) == events_from(text@, 0),
        decreases text@.len() - i,
    {
        let ghost before = out@;
        if text[i] == '<' {
            let mut e: usize = i + 1;
            while e < text.len() && text[e] != '>'
                invariant
                    i < e <= text@.len(),
                    tag_end(text@, e as int) == tag_end(text@, i + 1),
                decreases text@.len() - e,
            {
                e += 1;
            }
            if e >= text.len() {
                return None;
            }
            let event = classify_tag(text, i + 1, e);
            out.push(event);
            proof {
                if events_from(text@, e + 1) is Some {
                    lemma_push_concat(before, event, events_from(text@, e + 1)->0);
                }
            }
            i = e + 1;
        } else {
            out.push(Event::Char(text[i]));
            proof {
                if events_from(text@, i + 1) is Some {
                    lemma_push_concat(before, Event::Char(text@[i as int]), events_from(text@, i + 1)->0);
                }
            }
            i += 1;
        }
    }
    assert(out@ + Seq::<Event>::empty() =~= out@);
    Some(out)
}

/// Runs the scanner over the events; nothing where they do not balance.
pub fn scan_paragraphs(events: &Vec<Event>) -> (r: Option<Vec<Vec<char>>>)
    ensures
        r is Some <==> run_from(events@, 0, initial_state()) is Some,
        r is Some ==> lines_of(r->0@) == run_from(events@, 0, initial_state())->0,
{
    let mut scanner = Scanner::new();
    let mut i: usize = 0;
    while i < events.len()
        invariant
            i <= events@.len(),
            run_from(events@, i as int, scanner@) == run_from(events@, 0, initial_state()),
        decreases events@.len() - i,
    {
        match scanner.advance(events[i]) {
            Some(next) => {
                scanner = next;
            },
            None => {
                return None;
            },
        }
        i += 1;
    }
    if scanner.is_balanced() {
        Some(scanner.paragraphs)
    } else {
        None
    }
}

/// `pars[i..]` with a line feed between neighbours.
pub open spec fn join_from(pars: Seq<Seq<char>>, i: int) -> Seq<char>
    decreases pars.len() - i,
{
    if i < 0 || i >= pars.len() {
        Seq::empty()
    } else if i == pars.len() - 1 {
        pars[i]
    } else {
        pars[i] + seq!['\n'] + join_from(pars, i + 1)
    }
}

/// The position of the first character of `s` at or after `i` that is no
/// white space, or the length of `s`.
pub open spec fn text_start(s: Seq<char>, i: int) -> int
    decreases s.len() - i,
{
    if i < 0 || i >= s.len() {
        s.len() as int
    } else if is_space(s[i]) {
        text_start(s, i + 1)
    } else {
        i
    }
}

/// The position behind the last character of `s` before `j` that is no
/// white space, or zero.
pub open spec fn text_stop(s: Seq<char>, j: int) -> int
    decreases j,
{
    if j <= 0 || j > s.len() {
        0
    } else if is_space(s[j - 1]) {
        text_stop(s, j - 1)
    } else {
        j
    }
}

/// `s` without the white space at its two ends.
pub open spec fn trimmed(s: Seq<char>) -> Seq<char> {
    let a = text_start(s, 0);
    let b = text_stop(s, s.len() as int);
    if a < b {
        s.subrange(a, b)
    } else {
        Seq::empty()
    }
}

/// The plain text of a sequence of paragraphs: the paragraphs with a line
/// feed between neighbours, without the white space at the two ends of the
/// whole.
pub open spec fn plain_text(pars: Seq<Seq<char>>) -> Seq<char> {
    trimmed(join_from(pars, 0))
}

/// Joins paragraphs with a line feed between neighbours.
pub fn join_paragraphs(pars: &Vec<Vec<char>>) -> (out: Vec<char>)
    ensures
        out@ == join_from(lines_of(pars@), 0),
{
    let ghost ps = lines_of(pars@);
    let mut out: Vec<char> = Vec::new();
    let mut i: usize = 0;
    assert(out@ + join_from(ps, 0) =~= join_from(ps, 0));
    while i < pars.len()
        invariant
            i <= pars@.len(),
            ps == lines_of(pars@),
            out@ + join_from(ps, i as int) == join_from(ps, 0),
        decreases pars@.len() - i,
    {
        let ghost before = out@;
        assert(ps[i as int] == pars@[i as int]@);
        append_chars(&mut out, pars[i].as_slice());
        if i + 1 < pars.len() {
            out.push('\n');
            assert(out@ + join_from(ps, i + 1) =~= before + (ps[i as int] + seq!['\n'] + join_from(
                ps,
                i + 1,
            )));
        } else {
            assert(out@ + join_from(ps, i + 1) =~= before + ps[i as int]);
        }
        i += 1;
    }
    assert(out@ + Seq::<char>::empty() =~= out@);
    out
}

/// Removes the white space at the two ends of `s`.
pub fn trim(s: &[char]) -> (out: Vec<char>)
    ensures
        out@ == trimmed(s@),
{
    let mut a: usize = 0;
    while a < s.len() && is_space_char(s[a])
        invariant
            a <= s@.len(),
            text_start(s@, a as int) == text_start(s@, 0),
        decreases s@.len() - a,
    {
        a += 1;
    }
    let mut b: usize = s.len();
    while b > 0 && is_space_char(s[b - 1])
        invariant
            b <= s@.len(),
            text_stop(s@, b as int) == text_stop(s@, s@.len() as int),
        decreases b,
    {
        b -= 1;
    }
    let mut out: Vec<char> = Vec::new();
    if a < b {
        let mut i: usize = a;
        while i < b
            invariant
                a <= i <= b <= s@.len(),
                out@ == s@.subrange(a as int, i as int),
            decreases b - i,
        {
            out.push(s[i]);
            i += 1;
            assert(out@ =~= s@.subrange(a as int, i as int));
        }
    }
    out
}

/// The paragraphs of a markup text, in order, empty ones included: one for
/// each paragraph end. `MalformedMarkup` where a tag is not closed or the start and end tags do
/// not balance.
pub fn extract_paragraphs(markup: &str) -> (r: Result<Vec<Vec<char>>, DocError>)
    ensures
        match r {
            Ok(pars) => paragraphs_of(markup@) == Some(lines_of(pars@)) && pars@.len()
                == paragraph_ends(events_from(markup@, 0)->0, 0),
            Err(e) => paragraphs_of(markup@) is None && e == DocError::MalformedMarkup,
        },
{
    proof {
        if paragraphs_of(markup@) is Some {
            lemma_paragraph_count(markup@);
        }
    }
    let text = chars_of(markup);
    match scan_events(text.as_slice()) {
        Some(events) => match scan_paragraphs(&events) {
            Some(pars) => Ok(pars),
            None => Err(DocError::MalformedMarkup),
        },
        None => Err(DocError::MalformedMarkup),
    }
}

/// The plain text of a markup text: the text of its runs, paragraph by
/// paragraph, with a line feed between paragraphs and no white space at the
/// two ends. `MalformedMarkup` where a tag is not closed or the start and
/// end tags do not balance.
pub fn extract_text(markup: &str) -> (r: Result<String, DocError>)
    ensures
        match r {
            Ok(text) => paragraphs_of(markup@) is Some && text@ == plain_text(
                paragraphs_of(markup@)->0,
            ),
            Err(e) => paragraphs_of(markup@) is None && e == DocError::MalformedMarkup,
        },
{
    let pars = extract_paragraphs(markup)?;
    let joined = join_paragraphs(&pars);
    let text = trim(joined.as_slice());
    Ok(string_of(text.as_slice()))
}

/// Events that are paragraph ends, characters outside runs and tags of no
/// interest always balance: from a state in which nothing is open, the
/// scanner finds one paragraph, empty, for each paragraph end.
pub proof fn lemma_paragraph_ends_alone(events: Seq<Event>, i: int, s: ScanState)
    requires
        0 <= i,
        balanced(s),
        forall|k: int|
            i <= k < events.len() ==> (#[trigger] events[k]) is ParagraphEnd || events[k] is Other
                || events[k] is Char,
    ensures
        run_from(events, i, s) is Some,
        run_from(events, i, s)->0.len() == s.paragraphs.len() + paragraph_ends(events, i),
    decreases events.len() - i,
{
    if i < events.len() {
        assert(events[i] is ParagraphEnd || events[i] is Other || events[i] is Char);
        let next = step(s, events[i])->0;
        lemma_paragraph_ends_alone(events, i + 1, next);
    }
}

/// A well-formed markup text has exactly as many paragraphs as paragraph
/// ends.
pub proof fn lemma_paragraph_count(markup: Seq<char>)
    requires
        paragraphs_of(markup) is Some,
    ensures
        paragraphs_of(markup)->0.len() == paragraph_ends(events_from(markup, 0)->0, 0),
{
    lemma_one_paragraph_per_end(events_from(markup, 0)->0, 0, initial_state());
}

} // verus!
