use docgenerator::archive::{write_archive, ArchiveEntry};
use docgenerator::csv_parser::CsvData;
use docgenerator::error::DocError;
use docgenerator::layout::{
    is_space_char, layout_text, place_rows, split_paragraphs, split_words, wrap_paragraphs, wrap_words, Fragment,
    Geometry,
};
use docgenerator::markup::{
    classify_tag, extract_paragraphs, extract_text, join_paragraphs, scan_events, scan_paragraphs,
    trim, Event, Scanner,
};
use docgenerator::pdf_generator::{
    content_operations, create_pdf_from_text, emit_document, encode_text, generate_pdf,
    render_page, write_operations, ContentOp,
};

fn chars(s: &str) -> Vec<char> {
    s.chars().collect()
}

fn strings(v: &[Vec<char>]) -> Vec<String> {
    v.iter().map(|l| l.iter().collect()).collect()
}

fn blank_record() -> CsvData {
    CsvData {
        code: String::new(),
        formation: String::new(),
        name: String::new(),
        degrees: String::new(),
        role: String::new(),
        journal: String::new(),
        institution: String::new(),
        location: String::new(),
        respected: String::new(),
        invite: String::new(),
    }
}

fn count(haystack: &[u8], needle: &[u8]) -> usize {
    haystack.windows(needle.len()).filter(|w| *w == needle).count()
}

fn triples(fragments: &[Fragment]) -> Vec<(i64, i64, String)> {
    fragments.iter().map(|f| (f.x, f.y, f.text.clone())).collect()
}

#[test]
fn extracts_runs_paragraph_by_paragraph() {
    let markup = "<?xml version=\"1.0\"?><w:document><w:body>\
<w:p><w:pPr><w:jc w:val=\"center\"/></w:pPr><w:r><w:t>Hello</w:t></w:r><w:r><w:t xml:space=\"preserve\"> there</w:t></w:r></w:p>\
<w:p/>\
<w:p w:rsidR=\"1\"><w:r><w:tab/><w:t>World </w:t></w:r></w:p>\
</w:body></w:document>";
    let pars = extract_paragraphs(markup).unwrap();
    assert_eq!(strings(&pars), vec!["Hello there", "", "World "]);
    assert_eq!(extract_text(markup).unwrap(), "Hello there\n\nWorld");
}

#[test]
fn text_outside_runs_is_dropped() {
    let markup = "noise<w:p>more<w:r>x<w:t>kept</w:t>y</w:r></w:p>";
    assert_eq!(extract_text(markup).unwrap(), "kept");
}

#[test]
fn one_paragraph_for_each_paragraph_end() {
    for n in 0..6usize {
        let markup = "</w:p>".repeat(n);
        let pars = extract_paragraphs(&markup).unwrap();
        assert_eq!(pars.len(), n);
        assert!(pars.iter().all(|p| p.is_empty()));
    }
    let pars = extract_paragraphs("<w:p></w:p><w:p/><w:p ></w:p>").unwrap();
    assert_eq!(pars.len(), 3);
}

#[test]
fn whole_stream_is_trimmed_but_inner_breaks_stay() {
    let markup = "<w:p/><w:p><w:t>  a </w:t></w:p><w:p/><w:p><w:t>b</w:t></w:p><w:p/>";
    assert_eq!(extract_text(markup).unwrap(), "a \n\nb");
    assert_eq!(extract_text("").unwrap(), "");
    assert_eq!(extract_text("<w:p/><w:p/>").unwrap(), "");
}

#[test]
fn unbalanced_markup_is_malformed() {
    for markup in [
        "<w:t>open run",
        "</w:t>",
        "<w:p><w:t>a</w:p>",
        "<w:t><w:t>x</w:t></w:t>",
        "<w:p>",
        "<w:p><w:p></w:p></w:p>",
        "<w:t>loose</w:t>",
        "<w:p",
        "<",
        "<w:p><w:t>a<w:p></w:t></w:p>",
    ] {
        assert_eq!(extract_text(markup).unwrap_err(), DocError::MalformedMarkup, "{}", markup);
        assert_eq!(extract_paragraphs(markup).unwrap_err(), DocError::MalformedMarkup);
    }
}

#[test]
fn tags_are_classified_by_their_name() {
    let cases: Vec<(&str, &str)> = vec![
        ("w:p", "ParagraphStart"),
        ("w:p w:rsidR=\"0\"", "ParagraphStart"),
        ("w:p/", "ParagraphEnd"),
        ("w:p w:a=\"b\"/", "ParagraphEnd"),
        ("/w:p", "ParagraphEnd"),
        ("w:t", "RunStart"),
        ("w:t xml:space=\"preserve\"", "RunStart"),
        ("w:t/", "Other"),
        ("/w:t", "RunEnd"),
        ("w:pPr", "Other"),
        ("w:tab/", "Other"),
        ("w:tbl", "Other"),
        ("w:r", "Other"),
        ("/w:r", "Other"),
        ("", "Other"),
        ("?xml version=\"1.0\"?", "Other"),
    ];
    for (tag, expected) in cases {
        let text = chars(tag);
        let event = classify_tag(&text, 0, text.len());
        assert_eq!(format!("{:?}", event), expected, "{}", tag);
    }
}

#[test]
fn events_of_a_small_markup() {
    let events = scan_events(&chars("a<w:p><w:t>b</w:t></w:p>")).unwrap();
    let shown: Vec<String> = events.iter().map(|e| format!("{:?}", e)).collect();
    assert_eq!(
        shown,
        vec!["Char('a')", "ParagraphStart", "RunStart", "Char('b')", "RunEnd", "ParagraphEnd"]
    );
    assert!(scan_events(&chars("a<b")).is_none());
    assert!(scan_events(&chars("")).unwrap().is_empty());
}

#[test]
fn scanner_follows_its_transition_table() {
    let s = Scanner::new();
    assert!(!s.in_paragraph && !s.in_run && s.is_balanced());
    let s = s.advance(Event::ParagraphStart).unwrap();
    assert!(s.in_paragraph && !s.in_run && !s.is_balanced());
    let s = s.advance(Event::Char('x')).unwrap();
    assert!(s.current.is_empty());
    let s = s.advance(Event::RunStart).unwrap();
    assert!(s.in_run);
    let s = s.advance(Event::Char('y')).unwrap();
    assert_eq!(s.current, vec!['y']);
    assert!(Scanner::new().advance(Event::RunEnd).is_none());
    let s = s.advance(Event::RunEnd).unwrap();
    let s = s.advance(Event::Other).unwrap();
    let s = s.advance(Event::ParagraphEnd).unwrap();
    assert!(s.is_balanced());
    assert_eq!(s.paragraphs, vec![vec!['y']]);
    let open = Scanner::new().advance(Event::RunStart).unwrap();
    assert!(open.advance(Event::ParagraphEnd).is_none());
    let open = Scanner::new().advance(Event::RunStart).unwrap();
    assert!(open.advance(Event::RunStart).is_none());
    let open = Scanner::new().advance(Event::RunStart).unwrap();
    assert!(open.advance(Event::ParagraphStart).is_none());
    let inside = Scanner::new().advance(Event::ParagraphStart).unwrap();
    assert!(inside.advance(Event::ParagraphStart).is_none());
}

#[test]
fn scan_paragraphs_runs_the_scanner() {
    let events = vec![Event::ParagraphEnd, Event::ParagraphStart, Event::RunStart, Event::Char('z'), Event::RunEnd, Event::ParagraphEnd];
    assert_eq!(scan_paragraphs(&events).unwrap(), vec![vec![], vec!['z']]);
    assert!(scan_paragraphs(&vec![Event::ParagraphStart]).is_none());
    assert!(scan_paragraphs(&Vec::new()).unwrap().is_empty());
}

#[test]
fn join_and_trim() {
    let joined: String = join_paragraphs(&vec![chars("a"), chars(""), chars("b c")]).iter().collect();
    assert_eq!(joined, "a\n\nb c");
    assert!(join_paragraphs(&Vec::new()).is_empty());
    let single: String = join_paragraphs(&vec![chars("x")]).iter().collect();
    assert_eq!(single, "x");
    let t: String = trim(&chars(" \t\n a b \r\n")).iter().collect();
    assert_eq!(t, "a b");
    assert!(trim(&chars("   ")).is_empty());
    assert!(trim(&chars("")).is_empty());
    let t: String = trim(&chars("x")).iter().collect();
    assert_eq!(t, "x");
}

#[test]
fn budget_of_the_a4_page() {
    let g = Geometry::a4();
    assert_eq!(g.page_width, 595);
    assert_eq!(g.page_height, 842);
    assert_eq!(g.budget(), 82);
    let narrow = Geometry { page_width: 100, ..g };
    assert_eq!(narrow.budget(), 0);
    let no_font = Geometry { font_size: 0, ..g };
    assert_eq!(no_font.budget(), 0);
    let odd = Geometry { page_width: 107, font_size: 3, ..g };
    assert_eq!(odd.budget(), 4);
}

#[test]
fn paragraphs_and_words() {
    assert_eq!(strings(&split_paragraphs(&chars("a\n\nb c\n"))), vec!["a", "", "b c", ""]);
    assert_eq!(strings(&split_paragraphs(&chars(""))), vec![""]);
    assert_eq!(strings(&split_words(&chars("  one\ttwo  three "))), vec!["one", "two", "three"]);
    assert!(split_words(&chars(" \t ")).is_empty());
    assert!(split_words(&chars("")).is_empty());
}

#[test]
fn words_wrap_greedily() {
    let words: Vec<Vec<char>> = ["aaa", "bb", "c", "dddddddd", "e", "ff"].iter().map(|w| chars(w)).collect();
    assert_eq!(strings(&wrap_words(&words, 6)), vec!["aaa bb", "c", "dddddddd", "e ff"]);
    assert_eq!(strings(&wrap_words(&words, 0)), vec!["aaa", "bb", "c", "dddddddd", "e", "ff"]);
    assert_eq!(strings(&wrap_words(&words, 100)), vec!["aaa bb c dddddddd e ff"]);
    assert!(wrap_words(&Vec::new(), 10).is_empty());
    let exact: Vec<Vec<char>> = ["abc", "de"].iter().map(|w| chars(w)).collect();
    assert_eq!(strings(&wrap_words(&exact, 6)), vec!["abc de"]);
    assert_eq!(strings(&wrap_words(&exact, 5)), vec!["abc", "de"]);
}

#[test]
fn blank_paragraphs_take_a_row() {
    let pars = vec![chars("a b"), chars(""), chars("  "), chars("c")];
    assert_eq!(strings(&wrap_paragraphs(&pars, 10)), vec!["a b", "", "", "c"]);
}

#[test]
fn layout_places_lines_from_the_top_margin_down() {
    let g = Geometry::a4();
    let fragments = layout_text("Hello world\n\nSecond paragraph", &g);
    assert_eq!(
        triples(&fragments),
        vec![(50, 792, "Hello world".to_string()), (50, 764, "Second paragraph".to_string())]
    );
}

#[test]
fn layout_wraps_at_the_width_budget() {
    let g = Geometry::a4();
    let word = "abcdefghi";
    let text = vec![word; 20].join(" ");
    let fragments = layout_text(&text, &g);
    assert_eq!(fragments.len(), 3);
    assert_eq!(fragments[0].text, vec![word; 8].join(" "));
    assert_eq!(fragments[0].text.chars().count(), 79);
    assert_eq!(fragments[1].text, vec![word; 8].join(" "));
    assert_eq!(fragments[2].text, vec![word; 4].join(" "));
    assert_eq!((fragments[0].y, fragments[1].y, fragments[2].y), (792, 778, 764));
    assert!(fragments.iter().all(|f| f.x == 50));
}

#[test]
fn layout_is_deterministic() {
    let g = Geometry::a4();
    let text = "uno dos tres\ncuatro\n\ncinco seis";
    assert_eq!(triples(&layout_text(text, &g)), triples(&layout_text(text, &g)));
}

#[test]
fn rows_below_the_bottom_margin_are_dropped() {
    let g = Geometry::a4();
    let word = "x".repeat(82);
    let text = vec![word.as_str(); 60].join(" ");
    let fragments = layout_text(&text, &g);
    assert_eq!(fragments.len(), 54);
    assert_eq!(fragments[53].y, 50);
    assert!(fragments.windows(2).all(|w| w[1].y < w[0].y));
    let exact = vec![word.as_str(); 55].join(" ");
    assert_eq!(layout_text(&exact, &g).len(), 54);
    let fits = vec![word.as_str(); 54].join(" ");
    assert_eq!(layout_text(&fits, &g).len(), 54);
}

#[test]
fn blank_rows_count_towards_the_overflow() {
    let g = Geometry::a4();
    let text = format!("{}last", "\n".repeat(53));
    assert_eq!(triples(&layout_text(&text, &g)), vec![(50, 50, "last".to_string())]);
    let text = format!("{}lost", "\n".repeat(54));
    assert!(layout_text(&text, &g).is_empty());
}

#[test]
fn degenerate_inputs_give_no_fragment() {
    let g = Geometry::a4();
    assert!(layout_text("", &g).is_empty());
    assert!(layout_text(" \n \n", &g).is_empty());
    let zero_width = Geometry { page_width: 0, ..g };
    assert!(layout_text("some text", &zero_width).is_empty());
    let no_height = Geometry { page_height: 0, ..g };
    assert!(layout_text("some text", &no_height).is_empty());
    let no_line_height = Geometry { line_height: 0, ..g };
    assert!(layout_text("some text\nmore", &no_line_height).is_empty());
}

#[test]
fn place_rows_skips_blank_rows() {
    let g = Geometry { line_height: 10, page_height: 100, top_margin: 20, bottom_margin: 60, ..Geometry::a4() };
    let rows = vec![chars("a"), chars(""), chars("b"), chars("c")];
    assert_eq!(
        triples(&place_rows(&rows, &g)),
        vec![(50, 80, "a".to_string()), (50, 60, "b".to_string())]
    );
}

#[test]
fn text_is_encoded_byte_for_character() {
    assert_eq!(encode_text("Az ~").unwrap(), vec![0x41, 0x7a, 0x20, 0x7e]);
    assert_eq!(encode_text("José").unwrap(), vec![0x4a, 0x6f, 0x73, 0xe9]);
    assert_eq!(encode_text("").unwrap(), Vec::<u8>::new());
    assert!(encode_text("€").is_none());
    assert!(encode_text("a\tb").is_none());
    assert!(encode_text("\u{7f}").is_none());
    assert!(encode_text("\u{9f}").is_none());
    assert_eq!(encode_text("\u{a0}\u{ff}").unwrap(), vec![0xa0, 0xff]);
    assert!(encode_text("\u{100}").is_none());
}

#[test]
fn content_operations_paint_each_fragment_in_order() {
    let fragments = vec![
        Fragment { x: 50, y: 792, text: "one".to_string() },
        Fragment { x: 50, y: 778, text: "two".to_string() },
    ];
    let ops = content_operations(&fragments, 12).unwrap();
    assert_eq!(ops.len(), 9);
    assert!(matches!(ops[0], ContentOp::SetFont(12)));
    assert!(matches!(ops[1], ContentOp::BeginText));
    assert!(matches!(ops[2], ContentOp::Position(50, 792)));
    assert!(matches!(&ops[3], ContentOp::Show(t) if t == b"one"));
    assert!(matches!(ops[4], ContentOp::EndText));
    assert!(matches!(ops[5], ContentOp::BeginText));
    assert!(matches!(ops[6], ContentOp::Position(50, 778)));
    assert!(matches!(&ops[7], ContentOp::Show(t) if t == b"two"));
    assert!(matches!(ops[8], ContentOp::EndText));
    let none = content_operations(&Vec::new(), 9).unwrap();
    assert_eq!(none.len(), 1);
    assert!(matches!(none[0], ContentOp::SetFont(9)));
}

#[test]
fn fragment_that_cannot_be_encoded_is_refused() {
    let fragments = vec![
        Fragment { x: 0, y: 0, text: "fine".to_string() },
        Fragment { x: 0, y: 0, text: "10 €".to_string() },
    ];
    assert_eq!(content_operations(&fragments, 12).unwrap_err(), DocError::Encoding);
    assert_eq!(create_pdf_from_text("precio: 10 €", &blank_record()).unwrap_err(), DocError::Encoding);
    assert!(create_pdf_from_text("José Pérez", &blank_record()).is_ok());
}

#[test]
fn content_stream_holds_the_operators() {
    let ops = vec![
        ContentOp::SetFont(12),
        ContentOp::BeginText,
        ContentOp::Position(50, 792),
        ContentOp::Show(b"Hi (there)".to_vec()),
        ContentOp::EndText,
        ContentOp::BeginText,
        ContentOp::Position(50, -3),
        ContentOp::Show(b"a)b\\".to_vec()),
        ContentOp::EndText,
    ];
    let bytes = write_operations(&ops, b"F1");
    let text = String::from_utf8(bytes).unwrap();
    assert_eq!(
        text,
        "/F1 12 Tf\nBT\n50 792 Td\n(Hi (there)) Tj\nET\nBT\n50 -3 Td\n(a\\)b\\\\) Tj\nET"
    );
}

#[test]
fn document_has_one_page_and_five_objects() {
    let pdf = emit_document(b"BT\nET", &Geometry::a4()).unwrap();
    assert!(pdf.starts_with(b"%PDF-"));
    assert_eq!(count(&pdf, b"/Type /Page\n"), 1);
    assert_eq!(count(&pdf, b"/Type /Pages"), 1);
    assert_eq!(count(&pdf, b"/Type /Catalog"), 1);
    assert_eq!(count(&pdf, b"/Count 1"), 1);
    assert_eq!(count(&pdf, b"/BaseFont /Helvetica"), 1);
    assert_eq!(count(&pdf, b"/Encoding /WinAnsiEncoding"), 1);
    assert_eq!(count(&pdf, b"/MediaBox [0 0 595 842]"), 1);
    assert_eq!(count(&pdf, b" 0 obj"), 5);
    assert!(count(&pdf, b"%%EOF") == 1);
}

#[test]
fn page_document_of_a_text() {
    let pdf = create_pdf_from_text("Ana Ruiz\nInst X", &blank_record()).unwrap();
    assert_eq!(count(&pdf, b"/Type /Page\n"), 1);
    assert_eq!(count(&pdf, b"BT\n"), 2);
    assert_eq!(count(&pdf, b"ET"), 2);
    assert_eq!(count(&pdf, b"(Ana Ruiz) Tj"), 1);
    assert_eq!(count(&pdf, b"(Inst X) Tj"), 1);
    assert_eq!(count(&pdf, b"50 792 Td"), 1);
    assert_eq!(count(&pdf, b"50 778 Td"), 1);
    assert_eq!(count(&pdf, b"/F1 12 Tf"), 1);
    let same = render_page("Ana Ruiz\nInst X", &Geometry::a4()).unwrap();
    assert_eq!(pdf, same);
}

#[test]
fn page_document_of_an_archive() {
    let markup = "<w:p><w:r><w:t>Ana Ruiz</w:t></w:r></w:p><w:p><w:r><w:t>Inst X</w:t></w:r></w:p>";
    let docx = write_archive(&vec![
        ArchiveEntry { name: "word/document.xml".to_string(), data: markup.as_bytes().to_vec() },
    ])
    .unwrap();
    let pdf = generate_pdf(docx, &blank_record()).unwrap();
    assert_eq!(count(&pdf, b"/Type /Page\n"), 1);
    assert!(count(&pdf, b"BT\n") >= 2);
    assert_eq!(count(&pdf, b"(Ana Ruiz) Tj"), 1);
    assert_eq!(generate_pdf(b"junk".to_vec(), &blank_record()).unwrap_err(), DocError::CorruptArchive);
    let empty = write_archive(&vec![ArchiveEntry { name: "other".to_string(), data: Vec::new() }]).unwrap();
    assert_eq!(generate_pdf(empty, &blank_record()).unwrap_err(), DocError::EntryNotFound);
}

#[test]
fn unicode_white_space_separates_words() {
    assert_eq!(strings(&split_words(&chars("a\u{a0}b\u{2003}c\u{3000}"))), vec!["a", "b", "c"]);
    let fragments = layout_text("uno\u{a0}dos\u{2003}\u{2003}tres", &Geometry::a4());
    assert_eq!(triples(&fragments), vec![(50, 792, "uno dos tres".to_string())]);
    assert!(layout_text("\u{a0}\u{2003}", &Geometry::a4()).is_empty());
    let t: String = trim(&chars("\u{2003} x y\u{a0}\n")).iter().collect();
    assert_eq!(t, "x y");
    let kept: String = trim(&chars("\u{200b}x")).iter().collect();
    assert_eq!(kept, "\u{200b}x");
    assert_eq!(strings(&split_words(&chars("a\u{85}b\u{1680}c\u{2028}d\u{205f}e"))), vec!["a", "b", "c", "d", "e"]);
}

#[test]
fn only_ascii_white_space_ends_a_tag_name() {
    let text = chars("w:p\u{a0}x");
    assert_eq!(format!("{:?}", classify_tag(&text, 0, text.len())), "Other");
    let text = chars("w:p\tx");
    assert_eq!(format!("{:?}", classify_tag(&text, 0, text.len())), "ParagraphStart");
    let text = chars("w:t\nx=\"1\"");
    assert_eq!(format!("{:?}", classify_tag(&text, 0, text.len())), "RunStart");
}

#[test]
fn white_space_is_that_of_unicode() {
    for code in 0u32..=0x10ffff {
        if let Some(c) = char::from_u32(code) {
            assert_eq!(is_space_char(c), c.is_whitespace(), "U+{:04X}", code);
        }
    }
}
