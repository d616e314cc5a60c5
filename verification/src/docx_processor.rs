//! Placeholder substitution and the rewriting of a template archive.
//!
//! Substitution is one pass from left to right: at each position the first
//! token of the table that stands there is replaced by its value and the scan
//! goes on behind the token, so a value is never scanned again.

use vstd::prelude::*;
use vstd::utf8::*;
use crate::archive::archive_len;
use crate::archive::archive_opens;
use crate::archive::archive_source;
use crate::archive::copy_accepted;
use crate::archive::copy_entry;
use crate::archive::data_accepted;
use crate::archive::entries_of;
use crate::archive::entry_accepted;
use crate::archive::entry_count;
use crate::archive::entry_data;
use crate::archive::entry_data_at;
use crate::archive::entry_name;
use crate::archive::entry_name_at;
use crate::archive::finish_writer;
use crate::archive::finished_archive;
use crate::archive::new_writer;
use crate::archive::open_archive;
use crate::archive::raw_entry;
use crate::archive::read_archive;
use crate::archive::start_entry;
use crate::archive::stored_entries;
use crate::archive::write_entry_data;
use crate::archive::written_entries;
use crate::archive::ArchiveEntry;
use crate::csv_parser::CsvData;
use crate::text::copy_bytes;
use crate::text::decode_text;
use crate::error::DocError;
use crate::markup::extract_text;
use crate::markup::paragraphs_of;
use crate::markup::plain_text;
use crate::text::append_chars;
use crate::text::chars_of;
use crate::text::string_of;

verus! {

/// A substitution table as pairs of token and value.
pub open spec fn table_of(v: Seq<(Vec<char>, Vec<char>)>) -> Seq<(Seq<char>, Seq<char>)> {
    Seq::new(v.len(), |i: int| (v[i].0@, v[i].1@))
}

/// The substitution table of a record: each placeholder token with the
/// record's value for it, in a fixed order.
pub open spec fn record_table(data: CsvData) -> Seq<(Seq<char>, Seq<char>)> {
    seq![
        ("{CODIGO}"@, data.code@),
        ("{FORMACION}"@, data.formation@),
        ("{NOMBRE}"@, data.name@),
        ("{TITULOS}"@, data.degrees@),
        ("{ROL}"@, data.role@),
        ("{REVISTA}"@, data.journal@),
        ("{INSTITUCION}"@, data.institution@),
        ("{UBICACION}"@, data.location@),
        ("{RESPETADO}"@, data.respected@),
        ("{INVITARLO}"@, data.invite@),
    ]
}

/// Whether the non-empty `token` stands in `text` at position `i`.
pub open spec fn matches_at(text: Seq<char>, i: int, token: Seq<char>) -> bool {
    &&& token.len() > 0
    &&& 0 <= i
    &&& i + token.len() <= text.len()
    &&& text.subrange(i, i + token.len()) == token
}

/// The index of the first entry from `from` on whose token stands in `text`
/// at `i`, or the table's length when there is none.
pub open spec fn first_match(
    text: Seq<char>,
    i: int,
    table: Seq<(Seq<char>, Seq<char>)>,
    from: int,
) -> int
    decreases table.len() - from,
{
    if from < 0 || from >= table.len() {
        table.len() as int
    } else if matches_at(text, i, table[from].0) {
        from
    } else {
        first_match(text, i, table, from + 1)
    }
}

/// The substitution of `text[i..]`: where a token stands, its value and then
/// the substitution of what follows the token; elsewhere the character and
/// the substitution of what follows it.
pub open spec fn substitute_from(text: Seq<char>, i: int, table: Seq<(Seq<char>, Seq<char>)>) -> Seq<
    char,
>
    decreases text.len() - i,
{
    if i < 0 || i >= text.len() {
        Seq::empty()
    } else {
        let m = first_match(text, i, table, 0);
        let found = 0 <= m < table.len() && matches_at(text, i, table[m].0);
        let step: int = if found {
            table[m].0.len() as int
        } else {
            1
        };
        let piece = if found {
            table[m].1
        } else {
            seq![text[i]]
        };
        piece + substitute_from(text, i + step, table)
    }
}

/// The text with every token of the table replaced by its value.
pub open spec fn substituted(text: Seq<char>, table: Seq<(Seq<char>, Seq<char>)>) -> Seq<char> {
    substitute_from(text, 0, table)
}

/// What `first_match` finds is an entry whose token stands at `i`, and no
/// earlier entry's token does.
pub proof fn lemma_first_match(
    text: Seq<char>,
    i: int,
    table: Seq<(Seq<char>, Seq<char>)>,
    from: int,
)
    requires
        0 <= from <= table.len(),
    ensures
        from <= first_match(text, i, table, from) <= table.len(),
        first_match(text, i, table, from) < table.len() ==> matches_at(
            text,
            i,
            table[first_match(text, i, table, from)].0,
        ),
        forall|j: int|
            from <= j < first_match(text, i, table, from) ==> !matches_at(text, i, table[j].0),
    decreases table.len() - from,
{
    if from < table.len() && !matches_at(text, i, table[from].0) {
        lemma_first_match(text, i, table, from + 1);
    }
}

/// The pair of a token and a value as character vectors.
fn pair_of(token: &str, value: &String) -> (p: (Vec<char>, Vec<char>))
    ensures
        p.0@ == token@,
        p.1@ == value@,
{
    (chars_of(token), chars_of(value.as_str()))
}

/// The substitution table of a record, built afresh for it.
pub fn replacement_table(data: &CsvData) -> (table: Vec<(Vec<char>, Vec<char>)>)
    ensures
        table_of(table@) == record_table(*data),
{
    let mut table: Vec<(Vec<char>, Vec<char>)> = Vec::new();
    table.push(pair_of("{CODIGO}", &data.code));
    table.push(pair_of("{FORMACION}", &data.formation));
    table.push(pair_of("{NOMBRE}", &data.name));
    table.push(pair_of("{TITULOS}", &data.degrees));
    table.push(pair_of("{ROL}", &data.role));
    table.push(pair_of("{REVISTA}", &data.journal));
    table.push(pair_of("{INSTITUCION}", &data.institution));
    table.push(pair_of("{UBICACION}", &data.location));
    table.push(pair_of("{RESPETADO}", &data.respected));
    table.push(pair_of("{INVITARLO}", &data.invite));
    assert(table_of(table@) =~= record_table(*data));
    table
}

/// Whether `token` stands in `text` at position `i`.
pub fn token_at(text: &[char], i: usize, token: &[char]) -> (b: bool)
    ensures
        b == matches_at(text@, i as int, token@),
{
    if token.len() == 0 || i > text.len() || token.len() > text.len() - i {
        return false;
    }
    let mut j: usize = 0;
    while j < token.len()
        invariant
            j <= token@.len(),
            i + token@.len() <= text@.len() <= usize::MAX,
            forall|k: int| 0 <= k < j ==> text@[i + k] == token@[k],
        decreases token@.len() - j,
    {
        if text[i + j] != token[j] {
            assert(text@.subrange(i as int, i + token@.len())[j as int] == text@[i + j]);
            return false;
        }
        j += 1;
    }
    assert(text@.subrange(i as int, i + token@.len()) =~= token@);
    true
}

/// The index of the first entry of the table whose token stands in `text` at
/// position `i`, or the table's length.
pub fn find_token(text: &[char], i: usize, table: &Vec<(Vec<char>, Vec<char>)>) -> (m: usize)
    ensures
        m == first_match(text@, i as int, table_of(table@), 0),
{
    let mut m: usize = 0;
    while m < table.len()
        invariant
            m <= table@.len(),
            first_match(text@, i as int, table_of(table@), m as int) == first_match(
                text@,
                i as int,
                table_of(table@),
                0,
            ),
        decreases table@.len() - m,
    {
        assert(table_of(table@)[m as int].0 == table@[m as int].0@);
        if token_at(text, i, table[m].0.as_slice()) {
            return m;
        }
        m += 1;
    }
    m
}

/// Replaces every token of the table in `text` by its value, in one pass
/// from left to right.
pub fn substitute(text: &[char], table: &Vec<(Vec<char>, Vec<char>)>) -> (out: Vec<char>)
    ensures
        out@ == substituted(text@, table_of(table@)),
{
    let ghost t = table_of(table@);
    let mut out: Vec<char> = Vec::new();
    let mut i: usize = 0;
    assert(out@ + substitute_from(text@, 0, t) =~= substituted(text@, t));
    while i < text.len()
        invariant
            i <= text@.len(),
            t == table_of(table@),
            out@ + substitute_from(text@, i as int, t) == substituted(text@, t),
        decreases text@.len() - i,
    {
        let m = find_token(text, i, table);
        proof {
            lemma_first_match(text@, i as int, t, 0);
        }
        let ghost before = out@;
        if m < table.len() {
            assert(t[m as int] == (table@[m as int].0@, table@[m as int].1@));
            append_chars(&mut out, table[m].1.as_slice());
            assert((before + t[m as int].1) + substitute_from(
                text@,
                i + t[m as int].0.len(),
                t,
            ) =~= before + (t[m as int].1 + substitute_from(text@, i + t[m as int].0.len(), t)));
            i += table[m].0.len();
        } else {
            out.push(text[i]);
            assert(before.push(text@[i as int]) + substitute_from(text@, i + 1, t) =~= before + (
            seq![text@[i as int]] + substitute_from(text@, i + 1, t)));
            i += 1;
        }
    }
    assert(out@ + Seq::<char>::empty() =~= out@);
    out
}

/// Replaces the placeholders in `content` by the fields of `data`. A token
/// that does not occur changes nothing, and a value that holds a token is
/// not expanded again.
pub fn apply_replacements(content: &str, data: &CsvData) -> (out: String)
    ensures
        out@ == substituted(content@, record_table(*data)),
{
    let text = chars_of(content);
    let table = replacement_table(data);
    let replaced = substitute(text.as_slice(), &table);
    string_of(replaced.as_slice())
}

proof fn lemma_first_match_behind(
    x: Seq<char>,
    y: Seq<char>,
    k: int,
    table: Seq<(Seq<char>, Seq<char>)>,
    from: int,
)
    requires
        0 <= k <= y.len(),
        0 <= from,
    ensures
        first_match(x + y, x.len() + k, table, from) == first_match(y, k, table, from),
    decreases table.len() - from,
{
    if from < table.len() {
        let token = table[from].0;
        if k + token.len() <= y.len() {
            assert((x + y).subrange(x.len() + k, x.len() + k + token.len()) =~= y.subrange(
                k,
                k + token.len(),
            ));
        }
        lemma_first_match_behind(x, y, k, table, from + 1);
    }
}

/// Substitution of the rest of a text does not look back: behind a prefix
/// `x` it gives what it gives of the rest alone.
pub proof fn lemma_substitute_behind(
    x: Seq<char>,
    y: Seq<char>,
    k: int,
    table: Seq<(Seq<char>, Seq<char>)>,
)
    requires
        0 <= k <= y.len(),
    ensures
        substitute_from(x + y, x.len() + k, table) == substitute_from(y, k, table),
    decreases y.len() - k,
{
    assert((x + y).len() == x.len() + y.len());
    if k < y.len() {
        lemma_first_match_behind(x, y, k, table, 0);
        lemma_first_match(y, k, table, 0);
        lemma_first_match(x + y, x.len() + k, table, 0);
        let m = first_match(y, k, table, 0);
        assert((x + y)[x.len() + k] == y[k]);
        if m < table.len() {
            lemma_substitute_behind(x, y, k + table[m].0.len(), table);
            assert(x.len() + k + table[m].0.len() == x.len() + (k + table[m].0.len()));
        } else {
            lemma_substitute_behind(x, y, k + 1, table);
            assert(x.len() + k + 1 == x.len() + (k + 1));
        }
    }
}

proof fn lemma_untouched_prefix(
    a: Seq<char>,
    rest: Seq<char>,
    table: Seq<(Seq<char>, Seq<char>)>,
    i: int,
)
    requires
        0 <= i <= a.len(),
        forall|p: int, j: int|
            0 <= p < a.len() && 0 <= j < table.len() ==> !matches_at(a + rest, p, table[j].0),
    ensures
        substitute_from(a + rest, i, table) == a.subrange(i, a.len() as int) + substitute_from(
            a + rest,
            a.len() as int,
            table,
        ),
    decreases a.len() - i,
{
    let text = a + rest;
    let tail = substitute_from(text, a.len() as int, table);
    if i < a.len() {
        lemma_first_match(text, i, table, 0);
        lemma_untouched_prefix(a, rest, table, i + 1);
        assert(text[i] == a[i]);
        assert(seq![a[i]] + (a.subrange(i + 1, a.len() as int) + tail) =~= a.subrange(
            i,
            a.len() as int,
        ) + tail);
    } else {
        assert(a.subrange(i, a.len() as int) + tail =~= tail);
    }
}

/// Every occurrence of a token is replaced by its value: in a text made of
/// `a`, the token of entry `m` and `b`, where no token stands before the end
/// of `a` and no earlier entry's token stands there, substitution gives `a`,
/// the value of entry `m`, and the substitution of `b`.
pub proof fn lemma_occurrence_replaced(
    a: Seq<char>,
    b: Seq<char>,
    table: Seq<(Seq<char>, Seq<char>)>,
    m: int,
)
    requires
        0 <= m < table.len(),
        table[m].0.len() > 0,
        forall|p: int, j: int|
            0 <= p < a.len() && 0 <= j < table.len() ==> !matches_at(
                a + (table[m].0 + b),
                p,
                table[j].0,
            ),
        forall|j: int| 0 <= j < m ==> !matches_at(a + (table[m].0 + b), a.len() as int, table[j].0),
    ensures
        substituted(a + (table[m].0 + b), table) == a + (table[m].1 + substituted(b, table)),
{
    let token = table[m].0;
    let rest = token + b;
    let text = a + rest;
    let at = a.len() as int;
    lemma_untouched_prefix(a, rest, table, 0);
    assert(a.subrange(0, at) =~= a);
    assert(text.subrange(at, at + token.len()) =~= token);
    assert(matches_at(text, at, token));
    lemma_first_match(text, at, table, 0);
    assert(first_match(text, at, table, 0) == m);
    assert(text =~= (a + token) + b);
    lemma_substitute_behind(a + token, b, 0, table);
}

/// Where no token of the table stands anywhere in the text, substitution
/// changes nothing.
pub proof fn lemma_absent_tokens_change_nothing(text: Seq<char>, table: Seq<(Seq<char>, Seq<char>)>)
    requires
        forall|p: int, j: int|
            0 <= p < text.len() && 0 <= j < table.len() ==> !matches_at(text, p, table[j].0),
    ensures
        substituted(text, table) == text,
{
    lemma_absent_from(text, table, 0);
    assert(text.subrange(0, text.len() as int) =~= text);
}

proof fn lemma_absent_from(text: Seq<char>, table: Seq<(Seq<char>, Seq<char>)>, i: int)
    requires
        0 <= i <= text.len(),
        forall|p: int, j: int|
            0 <= p < text.len() && 0 <= j < table.len() ==> !matches_at(text, p, table[j].0),
    ensures
        substitute_from(text, i, table) == text.subrange(i, text.len() as int),
    decreases text.len() - i,
{
    if i < text.len() {
        lemma_first_match(text, i, table, 0);
        lemma_absent_from(text, table, i + 1);
        assert(seq![text[i]] + text.subrange(i + 1, text.len() as int) =~= text.subrange(
            i,
            text.len() as int,
        ));
    } else {
        assert(text.subrange(i, text.len() as int) =~= Seq::<char>::empty());
    }
}

/// Where every opening brace of the text begins a token of the table and no
/// value holds an opening brace, the substituted text holds none.
pub proof fn lemma_no_brace_remains(text: Seq<char>, table: Seq<(Seq<char>, Seq<char>)>, i: int)
    requires
        0 <= i,
        forall|j: int, k: int|
            0 <= j < table.len() && 0 <= k < table[j].1.len() ==> table[j].1[k] != '{',
        forall|p: int|
            0 <= p < text.len() && text[p] == '{' ==> first_match(text, p, table, 0) < table.len(),
    ensures
        forall|k: int|
            0 <= k < substitute_from(text, i, table).len() ==> substitute_from(text, i, table)[k]
                != '{',
    decreases text.len() - i,
{
    if i < text.len() {
        lemma_first_match(text, i, table, 0);
        let m = first_match(text, i, table, 0);
        let out = substitute_from(text, i, table);
        if m < table.len() {
            let rest = substitute_from(text, i + table[m].0.len(), table);
            lemma_no_brace_remains(text, table, i + table[m].0.len());
            assert(out == table[m].1 + rest);
            assert forall|k: int| 0 <= k < out.len() implies out[k] != '{' by {
                if k < table[m].1.len() {
                    assert(out[k] == table[m].1[k]);
                } else {
                    assert(out[k] == rest[k - table[m].1.len()]);
                }
            }
        } else {
            let rest = substitute_from(text, i + 1, table);
            lemma_no_brace_remains(text, table, i + 1);
            assert(out == seq![text[i]] + rest);
            assert forall|k: int| 0 <= k < out.len() implies out[k] != '{' by {
                if k >= 1 {
                    assert(out[k] == rest[k - 1]);
                }
            }
        }
    }
}

/// Where every token of the table begins with an opening brace, every
/// opening brace of the text begins a token, and no value holds an opening
/// brace, no token of the table is left in the substituted text.
pub proof fn lemma_no_token_remains(text: Seq<char>, table: Seq<(Seq<char>, Seq<char>)>)
    requires
        forall|j: int| 0 <= j < table.len() ==> table[j].0.len() > 0 && table[j].0[0] == '{',
        forall|j: int, k: int|
            0 <= j < table.len() && 0 <= k < table[j].1.len() ==> table[j].1[k] != '{',
        forall|p: int|
            0 <= p < text.len() && text[p] == '{' ==> first_match(text, p, table, 0) < table.len(),
    ensures
        forall|p: int, j: int|
            0 <= j < table.len() ==> !matches_at(substituted(text, table), p, table[j].0),
{
    lemma_no_brace_remains(text, table, 0);
    let out = substituted(text, table);
    assert forall|p: int, j: int| 0 <= j < table.len() implies !matches_at(
        out,
        p,
        table[j].0,
    ) by {
        if matches_at(out, p, table[j].0) {
            assert(out.subrange(p, p + table[j].0.len())[0] == out[p]);
        }
    }
}

/// For a record whose fields hold no opening brace, and a text in which
/// every opening brace begins one of the record's tokens, no token of the
/// record is left in the substituted text.
pub proof fn lemma_record_tokens_replaced(text: Seq<char>, data: CsvData)
    requires
        forall|j: int, k: int|
            0 <= j < record_table(data).len() && 0 <= k < record_table(data)[j].1.len()
                ==> record_table(data)[j].1[k] != '{',
        forall|p: int|
            0 <= p < text.len() && text[p] == '{' ==> first_match(text, p, record_table(data), 0)
                < record_table(data).len(),
    ensures
        forall|p: int, j: int|
            0 <= j < record_table(data).len() ==> !matches_at(
                substituted(text, record_table(data)),
                p,
                record_table(data)[j].0,
            ),
{
    reveal_strlit("{CODIGO}");
    reveal_strlit("{FORMACION}");
    reveal_strlit("{NOMBRE}");
    reveal_strlit("{TITULOS}");
    reveal_strlit("{ROL}");
    reveal_strlit("{REVISTA}");
    reveal_strlit("{INSTITUCION}");
    reveal_strlit("{UBICACION}");
    reveal_strlit("{RESPETADO}");
    reveal_strlit("{INVITARLO}");
    lemma_no_token_remains(text, record_table(data));
}

/// Before the end of a stretch without an opening brace, no token that
/// begins with an opening brace stands.
proof fn lemma_plain_stretch(a: Seq<char>, rest: Seq<char>, table: Seq<(Seq<char>, Seq<char>)>)
    requires
        forall|k: int| 0 <= k < a.len() ==> a[k] != '{',
        forall|j: int| 0 <= j < table.len() ==> table[j].0.len() > 0 && table[j].0[0] == '{',
    ensures
        forall|p: int, j: int|
            0 <= p < a.len() && 0 <= j < table.len() ==> !matches_at(a + rest, p, table[j].0),
{
    assert forall|p: int, j: int| 0 <= p < a.len() && 0 <= j < table.len() implies !matches_at(
        a + rest,
        p,
        table[j].0,
    ) by {
        if matches_at(a + rest, p, table[j].0) {
            assert((a + rest).subrange(p, p + table[j].0.len())[0] == (a + rest)[p]);
            assert((a + rest)[p] == a[p]);
        }
    }
}

/// A token whose second character differs from the one that stands there
/// does not stand there.
proof fn lemma_second_differs(text: Seq<char>, at: int, token: Seq<char>)
    requires
        0 <= at,
        at + 1 < text.len(),
        token.len() >= 2,
        token[1] != text[at + 1],
    ensures
        !matches_at(text, at, token),
{
    if matches_at(text, at, token) {
        assert(text.subrange(at, at + token.len())[1] == text[at + 1]);
    }
}

/// A text with the name token once and the institution token once, and no
/// opening brace elsewhere, becomes the same text with the record's name
/// and institution in their places, whatever those hold.
pub proof fn lemma_name_and_institution_replaced(
    a: Seq<char>,
    b: Seq<char>,
    c: Seq<char>,
    data: CsvData,
)
    requires
        forall|k: int| 0 <= k < a.len() ==> a[k] != '{',
        forall|k: int| 0 <= k < b.len() ==> b[k] != '{',
        forall|k: int| 0 <= k < c.len() ==> c[k] != '{',
    ensures
        substituted(
            a + ("{NOMBRE}"@ + (b + ("{INSTITUCION}"@ + c))),
            record_table(data),
        ) == a + (data.name@ + (b + (data.institution@ + c))),
        (forall|k: int| 0 <= k < data.name@.len() ==> data.name@[k] != '{') && (forall|k: int|
            0 <= k < data.institution@.len() ==> data.institution@[k] != '{') ==> forall|
            p: int,
            j: int,
        |
            0 <= j < record_table(data).len() ==> !matches_at(
                a + (data.name@ + (b + (data.institution@ + c))),
                p,
                record_table(data)[j].0,
            ),
{
    reveal_strlit("{CODIGO}");
    reveal_strlit("{FORMACION}");
    reveal_strlit("{NOMBRE}");
    reveal_strlit("{TITULOS}");
    reveal_strlit("{ROL}");
    reveal_strlit("{REVISTA}");
    reveal_strlit("{INSTITUCION}");
    reveal_strlit("{UBICACION}");
    reveal_strlit("{RESPETADO}");
    reveal_strlit("{INVITARLO}");
    let table = record_table(data);
    let name = "{NOMBRE}"@;
    let institution = "{INSTITUCION}"@;
    let tail = institution + c;
    let rest = b + tail;
    let text = a + (name + rest);
    assert(table[2].0 == name && table[6].0 == institution);

    lemma_plain_stretch(c, Seq::empty(), table);
    assert(c + Seq::<char>::empty() =~= c);
    lemma_absent_tokens_change_nothing(c, table);

    lemma_plain_stretch(b, tail, table);
    assert((b + tail)[b.len() as int + 1] == institution[1]);
    assert forall|j: int| 0 <= j < 6 implies !matches_at(b + tail, b.len() as int, table[j].0) by {
        lemma_second_differs(b + tail, b.len() as int, table[j].0);
    }
    lemma_occurrence_replaced(b, c, table, 6);

    lemma_plain_stretch(a, name + rest, table);
    assert(text[a.len() as int + 1] == name[1]);
    assert forall|j: int| 0 <= j < 2 implies !matches_at(text, a.len() as int, table[j].0) by {
        lemma_second_differs(text, a.len() as int, table[j].0);
    }
    lemma_occurrence_replaced(a, rest, table, 2);

    let out = a + (data.name@ + (b + (data.institution@ + c)));
    if (forall|k: int| 0 <= k < data.name@.len() ==> data.name@[k] != '{') && (forall|k: int|
        0 <= k < data.institution@.len() ==> data.institution@[k] != '{') {
        lemma_plain_stretch(out, Seq::empty(), table);
        assert(out + Seq::<char>::empty() =~= out);
        assert forall|p: int, j: int| 0 <= j < table.len() implies !matches_at(
            out,
            p,
            table[j].0,
        ) by {
            if matches_at(out, p, table[j].0) {
                assert(0 <= p < out.len());
            }
        }
    }
}

/// Whether `name` is the path of the markup entry.
pub open spec fn is_markup(name: Seq<char>) -> bool {
    name == "word/document.xml"@
}

/// Whether an entry can be rewritten: a markup entry must hold text.
pub open spec fn rewritable(entry: (Seq<char>, Seq<u8>)) -> bool {
    is_markup(entry.0) ==> valid_utf8(entry.1)
}

/// An entry after rewriting: the markup entry holds its text with the
/// table's tokens replaced; every other entry is unchanged.
pub open spec fn rewritten_entry(entry: (Seq<char>, Seq<u8>), table: Seq<(Seq<char>, Seq<char>)>) -> (
    Seq<char>,
    Seq<u8>,
) {
    if is_markup(entry.0) {
        (entry.0, encode_utf8(substituted(decode_utf8(entry.1), table)))
    } else {
        entry
    }
}

/// The entries of an archive after rewriting, in the same order.
pub open spec fn rewritten_entries(
    entries: Seq<(Seq<char>, Seq<u8>)>,
    table: Seq<(Seq<char>, Seq<char>)>,
) -> Seq<(Seq<char>, Seq<u8>)> {
    Seq::new(entries.len(), |i: int| rewritten_entry(entries[i], table))
}

/// Rewrites one entry for a record. A markup entry that is not text gives
/// `CorruptArchive`.
pub fn rewrite_entry(entry: &ArchiveEntry, data: &CsvData) -> (r: Result<ArchiveEntry, DocError>)
    ensures
        match r {
            Ok(e) => rewritable(entry@) && e@ == rewritten_entry(entry@, record_table(*data)),
            Err(e) => !rewritable(entry@) && e == DocError::CorruptArchive,
        },
{
    let markup = String::from_str("word/document.xml");
    let name = entry.name.clone();
    if entry.name == markup {
        match decode_text(copy_bytes(entry.data.as_slice())) {
            Some(content) => {
                let replaced = apply_replacements(content.as_str(), data);
                Ok(ArchiveEntry { name, data: replaced.as_str().as_bytes_vec() })
            },
            None => Err(DocError::CorruptArchive),
        }
    } else {
        Ok(ArchiveEntry { name, data: copy_bytes(entry.data.as_slice()) })
    }
}

/// Rewrites the entries of an archive for a record, in order. It fails with
/// `CorruptArchive` exactly when some markup entry is not text.
pub fn rewrite_entries(entries: &Vec<ArchiveEntry>, data: &CsvData) -> (r: Result<
    Vec<ArchiveEntry>,
    DocError,
>)
    ensures
        match r {
            Ok(out) => {
                &&& forall|i: int| 0 <= i < entries@.len() ==> rewritable(#[trigger] entries@[i]@)
                &&& entries_of(out@) == rewritten_entries(
                    entries_of(entries@),
                    record_table(*data),
                )
            },
            Err(e) => {
                &&& exists|i: int| 0 <= i < entries@.len() && !rewritable(#[trigger] entries@[i]@)
                &&& e == DocError::CorruptArchive
            },
        },
{
    let ghost table = record_table(*data);
    let mut out: Vec<ArchiveEntry> = Vec::new();
    let mut i: usize = 0;
    while i < entries.len()
        invariant
            i <= entries@.len(),
            table == record_table(*data),
            out@.len() == i,
            forall|j: int| 0 <= j < i ==> rewritable(#[trigger] entries@[j]@),
            forall|j: int| 0 <= j < i ==> (#[trigger] out@[j])@ == rewritten_entry(entries@[j]@, table),
        decreases entries@.len() - i,
    {
        match rewrite_entry(&entries[i], data) {
            Ok(entry) => {
                out.push(entry);
            },
            Err(e) => {
                assert(!rewritable(entries@[i as int]@));
                return Err(e);
            },
        }
        i += 1;
    }
    assert(entries_of(out@) =~= rewritten_entries(entries_of(entries@), table));
    Ok(out)
}

/// Rewriting keeps the number, the order and the names of the entries, and
/// the content of every entry but the markup entry; so the set of names in
/// the rewritten archive is that of the source.
pub proof fn lemma_rewrite_preserves_entries(
    entries: Seq<(Seq<char>, Seq<u8>)>,
    table: Seq<(Seq<char>, Seq<char>)>,
)
    ensures
        rewritten_entries(entries, table).len() == entries.len(),
        forall|i: int|
            0 <= i < entries.len() ==> (#[trigger] rewritten_entries(entries, table)[i]).0
                == entries[i].0,
        forall|i: int|
            0 <= i < entries.len() && !is_markup(entries[i].0) ==> (#[trigger] rewritten_entries(
                entries,
                table,
            )[i]).1 == entries[i].1,
        rewritten_entries(entries, table).map_values(|e: (Seq<char>, Seq<u8>)| e.0).to_set()
            == entries.map_values(|e: (Seq<char>, Seq<u8>)| e.0).to_set(),
{
    let names = |e: (Seq<char>, Seq<u8>)| e.0;
    assert(rewritten_entries(entries, table).map_values(names) =~= entries.map_values(names));
}

/// The markup text of a template with the table's tokens replaced, as the
/// bytes of the rewritten markup entry.
pub open spec fn rewritten_markup(data: Seq<u8>, table: Seq<(Seq<char>, Seq<char>)>) -> Seq<u8> {
    encode_utf8(substituted(decode_utf8(data), table))
}

/// Whether file `i` of a template can be read as far as rewriting needs it:
/// its name can be read, and if it is the markup entry its content can be
/// read and is text.
pub open spec fn entry_reads(template: Seq<u8>, i: int) -> bool {
    &&& entry_name_at(template, i) is Some
    &&& is_markup(entry_name_at(template, i)->0) ==> entry_data_at(template, i) is Some
        && valid_utf8(entry_data_at(template, i)->0)
}

/// Entry `i` of the rewritten archive: the markup entry started afresh with
/// its rewritten text; every other entry the stored form of the template's,
/// copied as it is.
pub open spec fn target(template: Seq<u8>, table: Seq<(Seq<char>, Seq<char>)>, i: int) -> (
    Seq<char>,
    Seq<u8>,
    Seq<u8>,
) {
    let name = entry_name_at(template, i)->0;
    if is_markup(name) {
        (name, rewritten_markup(entry_data_at(template, i)->0, table), Seq::<u8>::empty())
    } else {
        (name, Seq::<u8>::empty(), raw_entry(template, i))
    }
}

/// The entries of the rewritten archive, in the order of the template.
pub open spec fn targets(template: Seq<u8>, table: Seq<(Seq<char>, Seq<char>)>) -> Seq<
    (Seq<char>, Seq<u8>, Seq<u8>),
> {
    Seq::new(entry_count(template), |i: int| target(template, table, i))
}

/// Whether the writer takes entry `i` of the rewritten archive after the
/// entries before it.
pub open spec fn entry_writes(template: Seq<u8>, table: Seq<(Seq<char>, Seq<char>)>, i: int) -> bool {
    let before = targets(template, table).subrange(0, i);
    let name = entry_name_at(template, i)->0;
    if is_markup(name) {
        &&& entry_accepted(before, name)
        &&& data_accepted(
            before.push((name, Seq::<u8>::empty(), Seq::<u8>::empty())),
            rewritten_markup(entry_data_at(template, i)->0, table),
        )
    } else {
        copy_accepted(before, template, i)
    }
}

/// What rewriting gives from file `i` of the template on, the files before
/// it being done: `CorruptArchive` at the first file that does not read,
/// `Io` at the first that the writer refuses or where it does not finish,
/// else the bytes of the finished archive.
pub open spec fn processed_from(
    template: Seq<u8>,
    table: Seq<(Seq<char>, Seq<char>)>,
    i: int,
) -> Result<Seq<u8>, DocError>
    decreases entry_count(template) - i,
{
    if i < 0 || i >= entry_count(template) {
        match finished_archive(targets(template, table)) {
            Some(bytes) => Ok(bytes),
            None => Err(DocError::Io),
        }
    } else if !entry_reads(template, i) {
        Err(DocError::CorruptArchive)
    } else if !entry_writes(template, table, i) {
        Err(DocError::Io)
    } else {
        processed_from(template, table, i + 1)
    }
}

/// What rewriting a template gives: `CorruptArchive` where the bytes are no
/// archive, else the result of its files in order.
pub open spec fn processed(template: Seq<u8>, table: Seq<(Seq<char>, Seq<char>)>) -> Result<
    Seq<u8>,
    DocError,
> {
    if archive_opens(template) {
        processed_from(template, table, 0)
    } else {
        Err(DocError::CorruptArchive)
    }
}

/// Rewrites a template archive for one record. The entries are taken in the
/// order of the template: the markup entry is read, its placeholders are
/// replaced by the record's fields, and it is written afresh under its name;
/// every other entry is copied in its stored form, without being
/// decompressed. The template is read from, and the result returned as, the
/// bytes of an archive file. Whether a placeholder occurs has no part in
/// success.
pub fn process_docx_template(template: Vec<u8>, data: &CsvData) -> (r: Result<Vec<u8>, DocError>)
    ensures
        match r {
            Ok(out) => processed(template@, record_table(*data)) == Ok::<Seq<u8>, DocError>(out@),
            Err(e) => processed(template@, record_table(*data)) == Err::<Seq<u8>, DocError>(e),
        },
{
    let ghost source = template@;
    let ghost table = record_table(*data);
    let markup = String::from_str("word/document.xml");
    let mut archive = match open_archive(template) {
        Ok(archive) => archive,
        Err(_) => { return Err(DocError::CorruptArchive); },
    };
    let n = archive_len(&archive);
    let mut writer = new_writer();
    let mut i: usize = 0;
    assert(targets(source, table).subrange(0, 0) =~= Seq::empty());
    while i < n
        invariant
            i <= n,
            source == template@,
            n == entry_count(source),
            table == record_table(*data),
            markup@ == "word/document.xml"@,
            archive_opens(source),
            archive_source(archive) == source,
            written_entries(writer) == targets(source, table).subrange(0, i as int),
            processed_from(source, table, i as int) == processed(source, table),
        decreases n - i,
    {
        let ghost before = targets(source, table).subrange(0, i as int);
        let name = match entry_name(&archive, i) {
            Some(name) => name,
            None => { return Err(DocError::CorruptArchive); },
        };
        if name == markup {
            let content = match entry_data(&mut archive, i) {
                Ok(content) => content,
                Err(_) => { return Err(DocError::CorruptArchive); },
            };
            let entry = ArchiveEntry { name, data: content };
            let rewritten = match rewrite_entry(&entry, data) {
                Ok(rewritten) => rewritten,
                Err(e) => { return Err(e); },
            };
            if start_entry(&mut writer, rewritten.name.as_str()).is_err() {
                return Err(DocError::Io);
            }
            if write_entry_data(&mut writer, rewritten.data.as_slice()).is_err() {
                return Err(DocError::Io);
            }
            assert(Seq::<u8>::empty() + rewritten.data@ =~= rewritten.data@);
        } else {
            if copy_entry(&mut writer, &mut archive, i).is_err() {
                return Err(DocError::Io);
            }
        }
        assert(written_entries(writer) =~= before.push(target(source, table, i as int)));
        i += 1;
        assert(written_entries(writer) =~= targets(source, table).subrange(0, i as int));
    }
    assert(targets(source, table).subrange(0, i as int) =~= targets(source, table));
    match finish_writer(writer) {
        Ok(bytes) => Ok(bytes),
        Err(_) => Err(DocError::Io),
    }
}

/// The rewritten archive holds the template's files in their order and
/// under their names; every file but the markup entry is there in the
/// template's stored form.
pub proof fn lemma_process_keeps_entries(template: Seq<u8>, table: Seq<(Seq<char>, Seq<char>)>)
    ensures
        targets(template, table).len() == entry_count(template),
        forall|i: int|
            0 <= i < entry_count(template) ==> (#[trigger] targets(template, table)[i]).0
                == entry_name_at(template, i)->0,
        forall|i: int|
            0 <= i < entry_count(template) && !is_markup(entry_name_at(template, i)->0) ==> (
            #[trigger] targets(template, table)[i]).2 == raw_entry(template, i),
{
}

/// Whether a text and a record are such that substitution leaves no token:
/// the record's fields hold no opening brace, and every opening brace of
/// the text begins one of the record's tokens.
pub open spec fn braces_are_tokens(text: Seq<char>, data: CsvData) -> bool {
    let table = record_table(data);
    &&& forall|j: int, k: int|
        0 <= j < table.len() && 0 <= k < table[j].1.len() ==> table[j].1[k] != '{'
    &&& forall|p: int|
        0 <= p < text.len() && text[p] == '{' ==> first_match(text, p, table, 0) < table.len()
}

/// The markup entry of the rewritten archive holds the template's markup
/// text with the record's tokens replaced; where that text's braces are
/// tokens, it holds no token of the record.
pub proof fn lemma_markup_rewritten(template: Seq<u8>, data: CsvData, i: int)
    ensures
        0 <= i < entry_count(template) && is_markup(entry_name_at(template, i)->0) ==> {
            let text = decode_utf8(entry_data_at(template, i)->0);
            let rewritten = decode_utf8(targets(template, record_table(data))[i].1);
            &&& rewritten == substituted(text, record_table(data))
            &&& braces_are_tokens(text, data) ==> forall|p: int, j: int|
                0 <= j < record_table(data).len() ==> !matches_at(
                    rewritten,
                    p,
                    record_table(data)[j].0,
                )
        },
{
    if 0 <= i < entry_count(template) && is_markup(entry_name_at(template, i)->0) {
        let text = decode_utf8(entry_data_at(template, i)->0);
        let table = record_table(data);
        encode_utf8_decode_utf8(substituted(text, table));
        if braces_are_tokens(text, data) {
            lemma_record_tokens_replaced(text, data);
        }
    }
}

/// The position of the first markup entry from `i` on, or the number of
/// entries when there is none.
pub open spec fn markup_position(entries: Seq<(Seq<char>, Seq<u8>)>, i: int) -> int
    decreases entries.len() - i,
{
    if i < 0 || i >= entries.len() {
        entries.len() as int
    } else if is_markup(entries[i].0) {
        i
    } else {
        markup_position(entries, i + 1)
    }
}

/// The plain text of an archive's markup entry, or why there is none: the
/// archive holds no markup entry, the entry is not text, or its markup is
/// malformed.
pub open spec fn extracted(entries: Seq<(Seq<char>, Seq<u8>)>) -> Result<Seq<char>, DocError> {
    let m = markup_position(entries, 0);
    if !(0 <= m < entries.len()) {
        Err(DocError::EntryNotFound)
    } else if !valid_utf8(entries[m].1) {
        Err(DocError::CorruptArchive)
    } else {
        match paragraphs_of(decode_utf8(entries[m].1)) {
            Some(pars) => Ok(plain_text(pars)),
            None => Err(DocError::MalformedMarkup),
        }
    }
}

/// The index of the first markup entry, or the number of entries.
pub fn find_markup(entries: &Vec<ArchiveEntry>) -> (m: usize)
    ensures
        m == markup_position(entries_of(entries@), 0),
{
    let markup = String::from_str("word/document.xml");
    let mut m: usize = 0;
    while m < entries.len()
        invariant
            m <= entries@.len(),
            markup@ == "word/document.xml"@,
            markup_position(entries_of(entries@), m as int) == markup_position(
                entries_of(entries@),
                0,
            ),
        decreases entries@.len() - m,
    {
        assert(entries_of(entries@)[m as int] == entries@[m as int]@);
        if entries[m].name == markup {
            return m;
        }
        m += 1;
    }
    m
}

/// The plain text of the markup entry among the entries of an archive.
pub fn extract_text_from_entries(entries: &Vec<ArchiveEntry>) -> (r: Result<String, DocError>)
    ensures
        match r {
            Ok(text) => extracted(entries_of(entries@)) == Ok::<Seq<char>, DocError>(text@),
            Err(e) => extracted(entries_of(entries@)) == Err::<Seq<char>, DocError>(e),
        },
{
    let m = find_markup(entries);
    if m >= entries.len() {
        return Err(DocError::EntryNotFound);
    }
    assert(entries_of(entries@)[m as int] == entries@[m as int]@);
    match decode_text(copy_bytes(entries[m].data.as_slice())) {
        Some(content) => extract_text(content.as_str()),
        None => Err(DocError::CorruptArchive),
    }
}

/// The plain text of an archive file of these bytes, or why there is none:
/// `CorruptArchive` where the archive does not read, else what its entries
/// give.
pub open spec fn extracted_from(docx: Seq<u8>) -> Result<Seq<char>, DocError> {
    match stored_entries(docx) {
        Some(entries) => extracted(entries),
        None => Err(DocError::CorruptArchive),
    }
}

/// The plain text of a document: the text of the markup entry of the archive
/// file with these bytes.
pub fn extract_text_from_docx(docx: Vec<u8>) -> (r: Result<String, DocError>)
    ensures
        match r {
            Ok(text) => extracted_from(docx@) == Ok::<Seq<char>, DocError>(text@),
            Err(e) => extracted_from(docx@) == Err::<Seq<char>, DocError>(e),
        },
{
    let entries = read_archive(docx)?;
    extract_text_from_entries(&entries)
}

} // verus!
