//! The text layout engine: word-wrap and vertical flow of plain text on one
//! page, in whole points.
//!
//! Text is cut into paragraphs at line feeds and into words at white space.
//! Words are packed greedily into lines of at most `budget` characters, each
//! paragraph taking at least one row of the page, and every non-blank row
//! that still lies on or above the bottom margin becomes a fragment.

use vstd::prelude::*;
use crate::text::append_chars;
use crate::text::chars_of;
use crate::text::lemma_push_concat;
use crate::text::string_of;

verus! {

/// Page geometry in whole points.
#[derive(Clone, Copy, Debug)]
pub struct Geometry {
    pub page_width: u32,
    pub page_height: u32,
    pub left_margin: u32,
    pub right_margin: u32,
    pub top_margin: u32,
    pub bottom_margin: u32,
    pub font_size: u32,
    pub line_height: u32,
}

/// One visual line of text with the coordinates of its baseline.
#[derive(Clone, Debug)]
pub struct Fragment {
    pub x: i64,
    pub y: i64,
    pub text: String,
}

impl View for Fragment {
    type V = (int, int, Seq<char>);

    open spec fn view(&self) -> (int, int, Seq<char>) {
        (self.x as int, self.y as int, self.text@)
    }
}

/// The views of the elements of a vector of character vectors.
pub open spec fn lines_of(v: Seq<Vec<char>>) -> Seq<Seq<char>> {
    Seq::new(v.len(), |i: int| v[i]@)
}

/// The views of the elements of a vector of fragments.
pub open spec fn fragments_of(v: Seq<Fragment>) -> Seq<(int, int, Seq<char>)> {
    Seq::new(v.len(), |i: int| v[i]@)
}

/// White space that separates words: the characters with the Unicode
/// property `White_Space`.
pub open spec fn is_space(c: char) -> bool {
    let code = c as u32;
    ||| 0x09 <= code <= 0x0d
    ||| code == 0x20
    ||| code == 0x85
    ||| code == 0xa0
    ||| code == 0x1680
    ||| 0x2000 <= code <= 0x200a
    ||| code == 0x2028
    ||| code == 0x2029
    ||| code == 0x202f
    ||| code == 0x205f
    ||| code == 0x3000
}

/// Whether `c` is white space that separates words.
pub fn is_space_char(c: char) -> (b: bool)
    ensures
        b == is_space(c),
{
    let code = c as u32;
    (0x09 <= code && code <= 0x0d) || code == 0x20 || code == 0x85 || code == 0xa0 || code
        == 0x1680 || (0x2000 <= code && code <= 0x200a) || code == 0x2028 || code == 0x2029
        || code == 0x202f || code == 0x205f || code == 0x3000
}

/// `cur` as a one-element sequence, or nothing when it is empty.
pub open spec fn closed(cur: Seq<char>) -> Seq<Seq<char>> {
    if cur.len() > 0 {
        seq![cur]
    } else {
        Seq::empty()
    }
}

/// The pieces of `text` from position `i` on, cut at each `sep`, the first
/// piece starting with `cur`.
pub open spec fn split_from(text: Seq<char>, i: int, cur: Seq<char>, sep: char) -> Seq<Seq<char>>
    decreases text.len() - i,
{
    if i < 0 || i >= text.len() {
        seq![cur]
    } else if text[i] == sep {
        seq![cur] + split_from(text, i + 1, Seq::empty(), sep)
    } else {
        split_from(text, i + 1, cur.push(text[i]), sep)
    }
}

/// The paragraphs of a text: its pieces between line feeds.
pub open spec fn paragraphs(text: Seq<char>) -> Seq<Seq<char>> {
    split_from(text, 0, Seq::empty(), '\n')
}

/// The words of `text` from position `i` on, the first one starting with
/// `cur`.
pub open spec fn words_from(text: Seq<char>, i: int, cur: Seq<char>) -> Seq<Seq<char>>
    decreases text.len() - i,
{
    if i < 0 || i >= text.len() {
        closed(cur)
    } else if is_space(text[i]) {
        closed(cur) + words_from(text, i + 1, Seq::empty())
    } else {
        words_from(text, i + 1, cur.push(text[i]))
    }
}

/// The words of a paragraph: its maximal runs without white space.
pub open spec fn words(text: Seq<char>) -> Seq<Seq<char>> {
    words_from(text, 0, Seq::empty())
}

/// `cur` followed by `word`, with one space between them unless `cur` is
/// empty.
pub open spec fn joined(cur: Seq<char>, word: Seq<char>) -> Seq<char> {
    if cur.len() == 0 {
        word
    } else {
        cur.push(' ') + word
    }
}

/// The lines that greedy wrapping makes of `words[i..]` when the open line
/// holds `cur`: a word joins the open line unless the line is non-empty and
/// would then exceed `budget` characters.
pub open spec fn wrap_from(words: Seq<Seq<char>>, i: int, cur: Seq<char>, budget: nat) -> Seq<
    Seq<char>,
>
    decreases words.len() - i,
{
    if i < 0 || i >= words.len() {
        closed(cur)
    } else if cur.len() > 0 && joined(cur, words[i]).len() > budget {
        seq![cur] + wrap_from(words, i + 1, words[i], budget)
    } else {
        wrap_from(words, i + 1, joined(cur, words[i]), budget)
    }
}

/// The wrapped lines of a sequence of words.
pub open spec fn wrap(words: Seq<Seq<char>>, budget: nat) -> Seq<Seq<char>> {
    wrap_from(words, 0, Seq::empty(), budget)
}

/// The rows that one paragraph takes on the page: its wrapped lines, or one
/// blank row when it has no word.
pub open spec fn paragraph_rows(par: Seq<char>, budget: nat) -> Seq<Seq<char>> {
    let lines = wrap(words(par), budget);
    if lines.len() == 0 {
        seq![Seq::empty()]
    } else {
        lines
    }
}

/// The rows of the paragraphs `pars[i..]`, in order.
pub open spec fn rows_from(pars: Seq<Seq<char>>, i: int, budget: nat) -> Seq<Seq<char>>
    decreases pars.len() - i,
{
    if i < 0 || i >= pars.len() {
        Seq::empty()
    } else {
        paragraph_rows(pars[i], budget) + rows_from(pars, i + 1, budget)
    }
}

/// An A4 page with margins of 50 points, 12 point type and 14 points
/// between baselines.
pub open spec fn a4() -> Geometry {
    Geometry {
        page_width: 595,
        page_height: 842,
        left_margin: 50,
        right_margin: 50,
        top_margin: 50,
        bottom_margin: 50,
        font_size: 12,
        line_height: 14,
    }
}

impl Geometry {
    /// An A4 page with margins of 50 points, 12 point type and 14 points
    /// between baselines.
    pub fn a4() -> (g: Geometry)
        ensures
            g == a4(),
    {
        Geometry {
            page_width: 595,
            page_height: 842,
            left_margin: 50,
            right_margin: 50,
            top_margin: 50,
            bottom_margin: 50,
            font_size: 12,
            line_height: 14,
        }
    }

    /// The width between the left and right margins, zero when they meet.
    pub open spec fn usable_width(&self) -> nat {
        if self.left_margin + self.right_margin >= self.page_width {
            0
        } else {
            (self.page_width - self.left_margin - self.right_margin) as nat
        }
    }

    /// The number of characters that fit on one line, a character taken to
    /// be half the font size wide. Zero for a font size of zero.
    pub open spec fn spec_budget(&self) -> nat {
        if self.font_size == 0 {
            0
        } else {
            (2 * self.usable_width()) / (self.font_size as nat)
        }
    }

    /// The baseline of row `k`, counted from zero at the top.
    pub open spec fn row_y(&self, k: int) -> int {
        self.page_height - self.top_margin - k * self.line_height
    }

    /// The number of characters that fit on one line.
    pub fn budget(&self) -> (b: u64)
        ensures
            b == self.spec_budget(),
    {
        let margins: u64 = self.left_margin as u64 + self.right_margin as u64;
        if self.font_size == 0 || margins >= self.page_width as u64 {
            assert(self.font_size != 0 ==> 0int / (self.font_size as int) == 0) by (nonlinear_arith);
            0
        } else {
            let usable: u64 = self.page_width as u64 - margins;
            (2 * usable) / (self.font_size as u64)
        }
    }
}

/// The fragments of the rows `rows[k..]`: a row is placed at its baseline
/// while that lies on or above the bottom margin; a blank row takes its place
/// and shows nothing; the first row below the margin ends the page.
pub open spec fn place_from(rows: Seq<Seq<char>>, k: int, g: Geometry) -> Seq<
    (int, int, Seq<char>),
>
    decreases rows.len() - k,
{
    if k < 0 || k >= rows.len() {
        Seq::empty()
    } else if g.row_y(k) < g.bottom_margin {
        Seq::empty()
    } else if rows[k].len() == 0 {
        place_from(rows, k + 1, g)
    } else {
        seq![(g.left_margin as int, g.row_y(k), rows[k])] + place_from(rows, k + 1, g)
    }
}

/// The fragments of a text on a page: none when no character fits on a line
/// or lines have no height, else its rows placed from the top margin down.
pub open spec fn layout(text: Seq<char>, g: Geometry) -> Seq<(int, int, Seq<char>)> {
    if g.spec_budget() == 0 || g.line_height == 0 {
        Seq::empty()
    } else {
        place_from(rows_from(paragraphs(text), 0, g.spec_budget()), 0, g)
    }
}

proof fn lemma_lines_push(v: Seq<Vec<char>>, x: Vec<char>)
    ensures
        lines_of(v.push(x)) == lines_of(v).push(x@),
{
    assert(lines_of(v.push(x)) =~= lines_of(v).push(x@));
}

proof fn lemma_lines_concat(a: Seq<Vec<char>>, b: Seq<Vec<char>>)
    ensures
        lines_of(a + b) == lines_of(a) + lines_of(b),
{
    assert(lines_of(a + b) =~= lines_of(a) + lines_of(b));
}

proof fn lemma_fragments_push(v: Seq<Fragment>, x: Fragment)
    ensures
        fragments_of(v.push(x)) == fragments_of(v).push(x@),
{
    assert(fragments_of(v.push(x)) =~= fragments_of(v).push(x@));
}

/// Cuts a text into its paragraphs.
pub fn split_paragraphs(text: &[char]) -> (out: Vec<Vec<char>>)
    ensures
        lines_of(out@) == paragraphs(text@),
{
    let mut out: Vec<Vec<char>> = Vec::new();
    let mut cur: Vec<char> = Vec::new();
    let mut i: usize = 0;
    assert(lines_of(out@) + paragraphs(text@) =~= paragraphs(text@));
    while i < text.len()
        invariant
            i <= text@.len(),
            lines_of(out@) + split_from(text@, i as int, cur@, '\n') == paragraphs(text@),
        decreases text@.len() - i,
    {
        let c = text[i];
        if c == '\n' {
            proof {
                lemma_lines_push(out@, cur);
                lemma_push_concat(
                    lines_of(out@),
                    cur@,
                    split_from(text@, i + 1, Seq::empty(), '\n'),
                );
            }
            out.push(cur);
            cur = Vec::new();
        } else {
            cur.push(c);
        }
        i += 1;
    }
    proof {
        lemma_lines_push(out@, cur);
        assert(lines_of(out@) + seq![cur@] =~= lines_of(out@).push(cur@));
    }
    out.push(cur);
    out
}

/// Cuts a paragraph into its words.
pub fn split_words(text: &[char]) -> (out: Vec<Vec<char>>)
    ensures
        lines_of(out@) == words(text@),
{
    let mut out: Vec<Vec<char>> = Vec::new();
    let mut cur: Vec<char> = Vec::new();
    let mut i: usize = 0;
    assert(lines_of(out@) + words(text@) =~= words(text@));
    while i < text.len()
        invariant
            i <= text@.len(),
            lines_of(out@) + words_from(text@, i as int, cur@) == words(text@),
        decreases text@.len() - i,
    {
        let c = text[i];
        if is_space_char(c) {
            if cur.len() > 0 {
                proof {
                    lemma_lines_push(out@, cur);
                    lemma_push_concat(
                        lines_of(out@),
                        cur@,
                        words_from(text@, i + 1, Seq::empty()),
                    );
                }
                out.push(cur);
                cur = Vec::new();
            } else {
                assert(closed(cur@) + words_from(text@, i + 1, Seq::empty()) =~= words_from(
                    text@,
                    i + 1,
                    Seq::empty(),
                ));
                assert(cur@ =~= Seq::empty());
            }
        } else {
            cur.push(c);
        }
        i += 1;
    }
    if cur.len() > 0 {
        proof {
            lemma_lines_push(out@, cur);
            assert(lines_of(out@) + seq![cur@] =~= lines_of(out@).push(cur@));
        }
        out.push(cur);
    } else {
        assert(lines_of(out@) + Seq::<Seq<char>>::empty() =~= lines_of(out@));
    }
    out
}

/// Packs words greedily into lines of at most `budget` characters; a word
/// longer than that stands alone on its line.
pub fn wrap_words(words: &Vec<Vec<char>>, budget: u64) -> (out: Vec<Vec<char>>)
    ensures
        lines_of(out@) == wrap(lines_of(words@), budget as nat),
{
    let ghost ws = lines_of(words@);
    let mut out: Vec<Vec<char>> = Vec::new();
    let mut cur: Vec<char> = Vec::new();
    let mut i: usize = 0;
    assert(lines_of(out@) + wrap(ws, budget as nat) =~= wrap(ws, budget as nat));
    while i < words.len()
        invariant
            i <= words@.len(),
            ws == lines_of(words@),
            lines_of(out@) + wrap_from(ws, i as int, cur@, budget as nat) == wrap(
                ws,
                budget as nat,
            ),
        decreases words@.len() - i,
    {
        let word = &words[i];
        assert(ws[i as int] == word@);
        let joined_len: u128 = cur.len() as u128 + 1 + word.len() as u128;
        if cur.len() > 0 && joined_len > budget as u128 {
            proof {
                lemma_lines_push(out@, cur);
                lemma_push_concat(
                    lines_of(out@),
                    cur@,
                    wrap_from(ws, i + 1, word@, budget as nat),
                );
            }
            out.push(cur);
            cur = Vec::new();
            append_chars(&mut cur, word.as_slice());
            assert(cur@ =~= word@);
        } else {
            let ghost before = cur@;
            if cur.len() > 0 {
                cur.push(' ');
            }
            append_chars(&mut cur, word.as_slice());
            assert(cur@ =~= joined(before, word@));
        }
        i += 1;
    }
    if cur.len() > 0 {
        proof {
            lemma_lines_push(out@, cur);
            assert(lines_of(out@) + seq![cur@] =~= lines_of(out@).push(cur@));
        }
        out.push(cur);
    } else {
        assert(lines_of(out@) + Seq::<Seq<char>>::empty() =~= lines_of(out@));
    }
    out
}

/// The rows of a sequence of paragraphs: for each its wrapped lines, or one
/// blank row.
pub fn wrap_paragraphs(pars: &Vec<Vec<char>>, budget: u64) -> (rows: Vec<Vec<char>>)
    ensures
        lines_of(rows@) == rows_from(lines_of(pars@), 0, budget as nat),
{
    let ghost ps = lines_of(pars@);
    let mut rows: Vec<Vec<char>> = Vec::new();
    let mut i: usize = 0;
    assert(lines_of(rows@) + rows_from(ps, 0, budget as nat) =~= rows_from(ps, 0, budget as nat));
    while i < pars.len()
        invariant
            i <= pars@.len(),
            ps == lines_of(pars@),
            lines_of(rows@) + rows_from(ps, i as int, budget as nat) == rows_from(
                ps,
                0,
                budget as nat,
            ),
        decreases pars@.len() - i,
    {
        let par = &pars[i];
        assert(ps[i as int] == par@);
        let found = split_words(par.as_slice());
        let mut lines = wrap_words(&found, budget);
        let ghost before = rows@;
        let ghost rest = rows_from(ps, i + 1, budget as nat);
        if lines.len() == 0 {
            let blank: Vec<char> = Vec::new();
            proof {
                lemma_lines_push(rows@, blank);
                lemma_push_concat(lines_of(rows@), blank@, rest);
                assert(blank@ =~= Seq::empty());
            }
            rows.push(blank);
        } else {
            proof {
                lemma_lines_concat(rows@, lines@);
                assert((lines_of(before) + lines_of(lines@)) + rest =~= lines_of(before) + (
                lines_of(lines@) + rest));
            }
            rows.append(&mut lines);
        }
        i += 1;
    }
    assert(lines_of(rows@) + Seq::<Seq<char>>::empty() =~= lines_of(rows@));
    rows
}

/// Places rows on the page from the top margin down, one line height apart,
/// and stops at the first row whose baseline lies below the bottom margin.
pub fn place_rows(rows: &Vec<Vec<char>>, g: &Geometry) -> (out: Vec<Fragment>)
    ensures
        fragments_of(out@) == place_from(lines_of(rows@), 0, *g),
{
    let ghost rs = lines_of(rows@);
    let mut out: Vec<Fragment> = Vec::new();
    let mut k: usize = 0;
    let mut y: i64 = g.page_height as i64 - g.top_margin as i64;
    assert(fragments_of(out@) + place_from(rs, 0, *g) =~= place_from(rs, 0, *g));
    while k < rows.len() && y >= g.bottom_margin as i64
        invariant
            k <= rows@.len(),
            rs == lines_of(rows@),
            y == g.row_y(k as int),
            fragments_of(out@) + place_from(rs, k as int, *g) == place_from(rs, 0, *g),
        decreases rows@.len() - k,
    {
        let row = &rows[k];
        assert(rs[k as int] == row@);
        assert(g.row_y(k + 1) == g.row_y(k as int) - g.line_height) by (nonlinear_arith);
        if row.len() > 0 {
            let fragment = Fragment { x: g.left_margin as i64, y, text: string_of(row.as_slice()) };
            proof {
                lemma_fragments_push(out@, fragment);
                lemma_push_concat(fragments_of(out@), fragment@, place_from(rs, k + 1, *g));
            }
            out.push(fragment);
        }
        y = y - g.line_height as i64;
        k += 1;
    }
    assert(place_from(rs, k as int, *g) =~= Seq::empty());
    assert(fragments_of(out@) + Seq::<(int, int, Seq<char>)>::empty() =~= fragments_of(out@));
    out
}

/// Lays a plain text out on one page: paragraphs are cut at line feeds,
/// wrapped to the width budget, and placed from the top margin down. Rows
/// that would lie below the bottom margin are dropped. A geometry in which no
/// character fits on a line, or whose line height is zero, gives no
/// fragment.
pub fn layout_text(text: &str, g: &Geometry) -> (out: Vec<Fragment>)
    ensures
        fragments_of(out@) == layout(text@, *g),
{
    let budget = g.budget();
    if budget == 0 || g.line_height == 0 {
        let out: Vec<Fragment> = Vec::new();
        assert(fragments_of(out@) =~= Seq::empty());
        out
    } else {
        let chars = chars_of(text);
        let pars = split_paragraphs(chars.as_slice());
        let rows = wrap_paragraphs(&pars, budget);
        place_rows(&rows, g)
    }
}

/// Every fragment placed from row `k` on holds text and lies on or above the
/// bottom margin and no higher than row `k`, and baselines strictly decrease
/// down the page when the line height is positive.
pub proof fn lemma_place_bounds(rows: Seq<Seq<char>>, k: int, g: Geometry, j: int)
    requires
        0 <= k,
        0 <= j < place_from(rows, k, g).len(),
    ensures
        place_from(rows, k, g)[j].1 >= g.bottom_margin,
        place_from(rows, k, g)[j].1 <= g.row_y(k),
        place_from(rows, k, g)[j].2.len() > 0,
        j + 1 < place_from(rows, k, g).len() && g.line_height > 0 ==> place_from(rows, k, g)[j
            + 1].1 < place_from(rows, k, g)[j].1,
    decreases rows.len() - k,
{
    assert(g.row_y(k + 1) == g.row_y(k) - g.line_height) by (nonlinear_arith);
    if k >= rows.len() || g.row_y(k) < g.bottom_margin {
    } else if rows[k].len() == 0 {
        lemma_place_bounds(rows, k + 1, g, j);
    } else {
        let rest = place_from(rows, k + 1, g);
        if j > 0 {
            lemma_place_bounds(rows, k + 1, g, j - 1);
        } else if rest.len() > 0 {
            lemma_place_bounds(rows, k + 1, g, 0);
        }
    }
}

/// The same text and geometry always give the same fragments.
pub proof fn lemma_layout_deterministic(t1: Seq<char>, g1: Geometry, t2: Seq<char>, g2: Geometry)
    requires
        t1 == t2,
        g1 == g2,
    ensures
        layout(t1, g1) == layout(t2, g2),
{
}

/// Every word of a text holds a character.
pub proof fn lemma_words_hold_text(text: Seq<char>, i: int, cur: Seq<char>, k: int)
    requires
        0 <= i,
        0 <= k < words_from(text, i, cur).len(),
    ensures
        words_from(text, i, cur)[k].len() > 0,
    decreases text.len() - i,
{
    if i >= text.len() {
    } else if is_space(text[i]) {
        if k >= closed(cur).len() {
            lemma_words_hold_text(text, i + 1, Seq::empty(), k - closed(cur).len());
        }
    } else {
        lemma_words_hold_text(text, i + 1, cur.push(text[i]), k);
    }
}

/// Every line that wrapping makes of words that hold text holds text.
pub proof fn lemma_lines_hold_text(
    words: Seq<Seq<char>>,
    i: int,
    cur: Seq<char>,
    budget: nat,
    k: int,
)
    requires
        0 <= i,
        forall|j: int| 0 <= j < words.len() ==> (#[trigger] words[j]).len() > 0,
        0 <= k < wrap_from(words, i, cur, budget).len(),
    ensures
        wrap_from(words, i, cur, budget)[k].len() > 0,
    decreases words.len() - i,
{
    if i >= words.len() {
    } else if cur.len() > 0 && joined(cur, words[i]).len() > budget {
        if k >= 1 {
            lemma_lines_hold_text(words, i + 1, words[i], budget, k - 1);
        }
    } else {
        lemma_lines_hold_text(words, i + 1, joined(cur, words[i]), budget, k);
    }
}

/// A text without a line feed is one paragraph.
pub proof fn lemma_one_paragraph(text: Seq<char>, i: int, cur: Seq<char>)
    requires
        0 <= i <= text.len(),
        forall|j: int| i <= j < text.len() ==> text[j] != '\n',
    ensures
        split_from(text, i, cur, '\n') == seq![cur + text.subrange(i, text.len() as int)],
    decreases text.len() - i,
{
    if i < text.len() {
        lemma_one_paragraph(text, i + 1, cur.push(text[i]));
        assert(cur.push(text[i]) + text.subrange(i + 1, text.len() as int) =~= cur
            + text.subrange(i, text.len() as int));
    } else {
        assert(cur + text.subrange(i, text.len() as int) =~= cur);
    }
}

/// The overflow policy: when the `n`-th wrapped line of a paragraph is the
/// first whose baseline lies below the bottom margin, the page shows exactly
/// `n - 1` fragments.
pub proof fn lemma_overflow_policy(text: Seq<char>, g: Geometry, n: int)
    requires
        g.spec_budget() > 0,
        g.line_height > 0,
        forall|j: int| 0 <= j < text.len() ==> text[j] != '\n',
        1 <= n <= wrap(words(text), g.spec_budget()).len(),
        g.row_y(n - 1) < g.bottom_margin,
        n >= 2 ==> g.row_y(n - 2) >= g.bottom_margin,
    ensures
        layout(text, g).len() == n - 1,
{
    let budget = g.spec_budget();
    let lines = wrap(words(text), budget);
    lemma_one_paragraph(text, 0, Seq::empty());
    assert(Seq::<char>::empty() + text.subrange(0, text.len() as int) =~= text);
    let pars = paragraphs(text);
    assert(pars == seq![text]);
    assert(rows_from(pars, 1, budget) =~= Seq::empty());
    assert(rows_from(pars, 0, budget) =~= lines) by {
        assert(rows_from(pars, 0, budget) == paragraph_rows(pars[0], budget) + rows_from(
            pars,
            1,
            budget,
        ));
    }
    assert forall|j: int| 0 <= j < words(text).len() implies (#[trigger] words(text)[j]).len()
        > 0 by {
        lemma_words_hold_text(text, 0, Seq::empty(), j);
    }
    assert forall|k: int| 0 <= k < n implies lines[k].len() > 0 by {
        lemma_lines_hold_text(words(text), 0, Seq::empty(), budget, k);
    }
    lemma_overflow_drops_rows(lines, g, n);
}

/// The fragments of a page go down the page: each baseline lies strictly
/// below the one before it, and none lies below the bottom margin.
pub proof fn lemma_layout_descends(text: Seq<char>, g: Geometry, j: int)
    requires
        0 <= j < layout(text, g).len(),
    ensures
        layout(text, g)[j].1 >= g.bottom_margin,
        layout(text, g)[j].2.len() > 0,
        j + 1 < layout(text, g).len() ==> layout(text, g)[j + 1].1 < layout(text, g)[j].1,
{
    lemma_place_bounds(rows_from(paragraphs(text), 0, g.spec_budget()), 0, g, j);
}

/// Rows that hold text and lie on or above the bottom margin are all shown:
/// when the first `n` rows hold text and row `n - 1` still fits, the page
/// shows at least `n` fragments, and the first `n` are those rows in order.
pub proof fn lemma_rows_shown(rows: Seq<Seq<char>>, g: Geometry, n: int, k: int)
    requires
        0 <= k <= n <= rows.len(),
        forall|j: int| 0 <= j < n ==> (#[trigger] rows[j]).len() > 0,
        n >= 1 ==> g.row_y(n - 1) >= g.bottom_margin,
    ensures
        place_from(rows, k, g).len() >= n - k,
        forall|j: int| 0 <= j < n - k ==> (#[trigger] place_from(rows, k, g)[j]).2 == rows[k + j],
    decreases n - k,
{
    if k < n {
        assert(g.row_y(k) >= g.row_y(n - 1)) by (nonlinear_arith)
            requires
                k <= n - 1,
                g.line_height >= 0,
                g.row_y(k) == g.page_height - g.top_margin - k * g.line_height,
                g.row_y(n - 1) == g.page_height - g.top_margin - (n - 1) * g.line_height,
        ;
        lemma_rows_shown(rows, g, n, k + 1);
        let rest = place_from(rows, k + 1, g);
        assert forall|j: int| 0 <= j < n - k implies (#[trigger] place_from(rows, k, g)[j]).2
            == rows[k + j] by {
            if j > 0 {
                assert(place_from(rows, k, g)[j] == rest[j - 1]);
            }
        }
    }
}

/// Words that hold text wrap into at least one line.
pub proof fn lemma_some_line(words: Seq<Seq<char>>, i: int, cur: Seq<char>, budget: nat)
    requires
        0 <= i,
        forall|j: int| 0 <= j < words.len() ==> (#[trigger] words[j]).len() > 0,
        cur.len() > 0 || i < words.len(),
    ensures
        wrap_from(words, i, cur, budget).len() > 0,
    decreases words.len() - i,
{
    if i < words.len() {
        if !(cur.len() > 0 && joined(cur, words[i]).len() > budget) {
            assert(words[i].len() > 0);
            lemma_some_line(words, i + 1, joined(cur, words[i]), budget);
        }
    }
}

/// Two stretches without a line feed, with a line feed between them, are
/// two paragraphs.
pub proof fn lemma_two_paragraphs(first: Seq<char>, second: Seq<char>, i: int, cur: Seq<char>)
    requires
        0 <= i <= first.len(),
        forall|j: int| 0 <= j < first.len() ==> first[j] != '\n',
        forall|j: int| 0 <= j < second.len() ==> second[j] != '\n',
    ensures
        split_from(first + (seq!['\n'] + second), i, cur, '\n') == seq![
            cur + first.subrange(i, first.len() as int),
            second,
        ],
    decreases first.len() - i,
{
    let text = first + (seq!['\n'] + second);
    let n = first.len() as int;
    if i < n {
        assert(text[i] == first[i]);
        lemma_two_paragraphs(first, second, i + 1, cur.push(first[i]));
        assert(cur.push(first[i]) + first.subrange(i + 1, n) =~= cur + first.subrange(i, n));
    } else {
        assert(text[n] == '\n');
        assert forall|j: int| n + 1 <= j < text.len() implies text[j] != '\n' by {
            assert(text[j] == second[j - n - 1]);
        }
        lemma_one_paragraph(text, n + 1, Seq::empty());
        assert(Seq::<char>::empty() + text.subrange(n + 1, text.len() as int) =~= second);
        assert(cur + first.subrange(i, n) =~= cur);
        assert(seq![cur] + seq![second] =~= seq![cur, second]);
    }
}

/// Two paragraphs that each hold a word are both shown, in their order:
/// where the first line of the second still lies on or above the bottom
/// margin, the page has at least two fragments, the first being the first
/// line of the first paragraph and a later one the first line of the
/// second.
pub proof fn lemma_two_paragraphs_shown(first: Seq<char>, second: Seq<char>, g: Geometry)
    requires
        g.spec_budget() > 0,
        g.line_height > 0,
        forall|j: int| 0 <= j < first.len() ==> first[j] != '\n',
        forall|j: int| 0 <= j < second.len() ==> second[j] != '\n',
        words(first).len() > 0,
        words(second).len() > 0,
        g.row_y(wrap(words(first), g.spec_budget()).len() as int) >= g.bottom_margin,
    ensures
        layout(first + (seq!['\n'] + second), g).len() >= 2,
        layout(first + (seq!['\n'] + second), g)[0].2 == wrap(words(first), g.spec_budget())[0],
        layout(first + (seq!['\n'] + second), g)[wrap(
            words(first),
            g.spec_budget(),
        ).len() as int].2 == wrap(words(second), g.spec_budget())[0],
{
    let budget = g.spec_budget();
    let text = first + (seq!['\n'] + second);
    let lines1 = wrap(words(first), budget);
    let lines2 = wrap(words(second), budget);
    lemma_two_paragraphs(first, second, 0, Seq::empty());
    assert(Seq::<char>::empty() + first.subrange(0, first.len() as int) =~= first);
    let pars = paragraphs(text);
    assert(pars == seq![first, second]);
    assert forall|j: int| 0 <= j < words(first).len() implies (#[trigger] words(first)[j]).len()
        > 0 by {
        lemma_words_hold_text(first, 0, Seq::empty(), j);
    }
    assert forall|j: int| 0 <= j < words(second).len() implies (#[trigger] words(
        second,
    )[j]).len() > 0 by {
        lemma_words_hold_text(second, 0, Seq::empty(), j);
    }
    lemma_some_line(words(first), 0, Seq::empty(), budget);
    lemma_some_line(words(second), 0, Seq::empty(), budget);
    let rows = rows_from(pars, 0, budget);
    assert(rows_from(pars, 2, budget) =~= Seq::empty());
    assert(rows_from(pars, 1, budget) =~= lines2) by {
        assert(rows_from(pars, 1, budget) == paragraph_rows(pars[1], budget) + rows_from(
            pars,
            2,
            budget,
        ));
    }
    assert(rows =~= lines1 + lines2) by {
        assert(rows == paragraph_rows(pars[0], budget) + rows_from(pars, 1, budget));
    }
    let n = lines1.len() as int + 1;
    assert forall|j: int| 0 <= j < n implies (#[trigger] rows[j]).len() > 0 by {
        if j < lines1.len() {
            lemma_lines_hold_text(words(first), 0, Seq::empty(), budget, j);
        } else {
            lemma_lines_hold_text(words(second), 0, Seq::empty(), budget, 0);
        }
    }
    lemma_rows_shown(rows, g, n, 0);
    assert(place_from(rows, 0, g)[0].2 == rows[0]);
    assert(place_from(rows, 0, g)[n - 1].2 == rows[n - 1]);
}

/// When rows `0..n` all hold text and row `n - 1` is the first whose baseline
/// lies below the bottom margin, exactly `n - 1` fragments are placed.
pub proof fn lemma_overflow_drops_rows(rows: Seq<Seq<char>>, g: Geometry, n: int)
    requires
        1 <= n <= rows.len(),
        forall|k: int| 0 <= k < n ==> rows[k].len() > 0,
        g.row_y(n - 1) < g.bottom_margin,
        n >= 2 ==> g.row_y(n - 2) >= g.bottom_margin,
    ensures
        place_from(rows, 0, g).len() == n - 1,
{
    lemma_overflow_from(rows, g, n, 0);
}

proof fn lemma_overflow_from(rows: Seq<Seq<char>>, g: Geometry, n: int, k: int)
    requires
        1 <= n <= rows.len(),
        0 <= k <= n - 1,
        forall|j: int| 0 <= j < n ==> rows[j].len() > 0,
        g.row_y(n - 1) < g.bottom_margin,
        n >= 2 ==> g.row_y(n - 2) >= g.bottom_margin,
    ensures
        place_from(rows, k, g).len() == n - 1 - k,
    decreases n - k,
{
    if k < n - 1 {
        assert(g.row_y(k) >= g.row_y(n - 2)) by (nonlinear_arith)
            requires
                k <= n - 2,
                g.line_height >= 0,
                g.row_y(k) == g.page_height - g.top_margin - k * g.line_height,
                g.row_y(n - 2) == g.page_height - g.top_margin - (n - 2) * g.line_height,
        ;
        lemma_overflow_from(rows, g, n, k + 1);
    }
}

} // verus!
