use docgenerator::archive::{read_archive, write_archive, ArchiveEntry};
use docgenerator::csv_parser::CsvData;
use docgenerator::docx_processor::{
    apply_replacements, extract_text_from_docx, extract_text_from_entries, find_markup,
    process_docx_template, replacement_table, rewrite_entries, rewrite_entry, substitute,
    token_at,
};
use docgenerator::error::DocError;
use docgenerator::naming::{output_file_name, safe_name};
use docgenerator::pdf_converter::{conversion_arguments, has_docx_extension};
use std::io::Write;

fn record() -> CsvData {
    CsvData {
        code: "C-01".to_string(),
        formation: "Dra.".to_string(),
        name: "Ana Ruiz".to_string(),
        degrees: "PhD".to_string(),
        role: "Revisora".to_string(),
        journal: "Revista Z".to_string(),
        institution: "Inst X".to_string(),
        location: "City Y".to_string(),
        respected: "Respetada".to_string(),
        invite: "invitarla".to_string(),
    }
}

fn entry(name: &str, data: &[u8]) -> ArchiveEntry {
    ArchiveEntry { name: name.to_string(), data: data.to_vec() }
}

fn zip_of(entries: &[(&str, &[u8])]) -> Vec<u8> {
    let mut writer = zip::ZipWriter::new(std::io::Cursor::new(Vec::new()));
    for (name, data) in entries {
        writer.start_file(*name, zip::write::SimpleFileOptions::default()).unwrap();
        writer.write_all(data).unwrap();
    }
    writer.finish().unwrap().into_inner()
}

const MARKUP: &str = "<w:document><w:body><w:p><w:r><w:t>Estimada {NOMBRE}</w:t></w:r></w:p>\
<w:p><w:r><w:t>de {INSTITUCION}</w:t></w:r></w:p></w:body></w:document>";

#[test]
fn replaces_each_placeholder_once() {
    let out = apply_replacements("Hola {NOMBRE} de {INSTITUCION}, {UBICACION}.", &record());
    assert_eq!(out, "Hola Ana Ruiz de Inst X, City Y.");
}

#[test]
fn replaces_every_occurrence() {
    let out = apply_replacements("{ROL}{ROL} {ROL}", &record());
    assert_eq!(out, "RevisoraRevisora Revisora");
}

#[test]
fn replaces_all_ten_tokens() {
    let text = "{CODIGO}|{FORMACION}|{NOMBRE}|{TITULOS}|{ROL}|{REVISTA}|{INSTITUCION}|{UBICACION}|{RESPETADO}|{INVITARLO}";
    let out = apply_replacements(text, &record());
    assert_eq!(
        out,
        "C-01|Dra.|Ana Ruiz|PhD|Revisora|Revista Z|Inst X|City Y|Respetada|invitarla"
    );
}

#[test]
fn text_without_tokens_is_unchanged() {
    let text = "Sin marcadores {OTRO} {nombre} { NOMBRE } é";
    assert_eq!(apply_replacements(text, &record()), text);
    assert_eq!(apply_replacements("", &record()), "");
}

#[test]
fn value_holding_a_token_is_not_expanded_again() {
    let mut data = record();
    data.name = "{ROL}".to_string();
    data.code = "{NOMBRE}".to_string();
    assert_eq!(apply_replacements("{NOMBRE}", &data), "{ROL}");
    assert_eq!(apply_replacements("{CODIGO} {ROL}", &data), "{NOMBRE} Revisora");
}

#[test]
fn partial_token_is_left_alone() {
    assert_eq!(apply_replacements("{NOMBRE", &record()), "{NOMBRE");
    assert_eq!(apply_replacements("{{NOMBRE}}", &record()), "{Ana Ruiz}");
}

#[test]
fn table_is_built_from_the_record() {
    let table = replacement_table(&record());
    assert_eq!(table.len(), 10);
    let token: String = table[2].0.iter().collect();
    let value: String = table[2].1.iter().collect();
    assert_eq!(token, "{NOMBRE}");
    assert_eq!(value, "Ana Ruiz");
    let token: String = table[9].0.iter().collect();
    assert_eq!(token, "{INVITARLO}");
}

#[test]
fn token_at_finds_only_whole_tokens() {
    let text: Vec<char> = "ab{X}c".chars().collect();
    let token: Vec<char> = "{X}".chars().collect();
    assert!(token_at(&text, 2, &token));
    assert!(!token_at(&text, 1, &token));
    assert!(!token_at(&text, 4, &token));
    assert!(!token_at(&text, 9, &token));
    assert!(!token_at(&text, 0, &[]));
}

#[test]
fn substitute_takes_the_first_matching_entry() {
    let text: Vec<char> = "x{A}y".chars().collect();
    let table = vec![
        ("{A}".chars().collect::<Vec<char>>(), "one".chars().collect::<Vec<char>>()),
        ("{A}".chars().collect::<Vec<char>>(), "two".chars().collect::<Vec<char>>()),
    ];
    let out: String = substitute(&text, &table).iter().collect();
    assert_eq!(out, "xoney");
}

#[test]
fn end_to_end_rewrite_of_the_markup() {
    let out = apply_replacements(MARKUP, &record());
    assert!(out.contains("Ana Ruiz"));
    assert!(out.contains("Inst X"));
    assert!(!out.contains("{NOMBRE}"));
    assert!(!out.contains("{INSTITUCION}"));
}

#[test]
fn rewrite_keeps_other_entries_byte_for_byte() {
    let image: Vec<u8> = (0..=255u8).collect();
    let template = zip_of(&[
        ("[Content_Types].xml", b"<Types/>"),
        ("word/document.xml", MARKUP.as_bytes()),
        ("word/media/image1.png", &image),
        ("docProps/app.xml", b"{NOMBRE}"),
    ]);
    let source = read_archive(template.clone()).unwrap();
    let out = process_docx_template(template, &record()).unwrap();
    let entries = read_archive(out).unwrap();
    assert_eq!(entries.len(), 4);
    let names: Vec<&str> = entries.iter().map(|e| e.name.as_str()).collect();
    assert_eq!(
        names,
        vec!["[Content_Types].xml", "word/document.xml", "word/media/image1.png", "docProps/app.xml"]
    );
    for (before, after) in source.iter().zip(entries.iter()) {
        assert_eq!(before.name, after.name);
        if before.name != "word/document.xml" {
            assert_eq!(before.data, after.data);
        }
    }
    assert_eq!(entries[2].data, image);
    assert_eq!(entries[3].data, b"{NOMBRE}".to_vec());
    let markup = String::from_utf8(entries[1].data.clone()).unwrap();
    assert_eq!(markup, apply_replacements(MARKUP, &record()));
    assert!(markup.contains("Estimada Ana Ruiz"));
}

#[test]
fn read_archive_gives_names_and_contents() {
    let bytes = zip_of(&[("a.txt", b"alpha"), ("dir/b.bin", &[0u8, 1, 2, 255])]);
    let entries = read_archive(bytes).unwrap();
    assert_eq!(entries.len(), 2);
    assert_eq!(entries[0].name, "a.txt");
    assert_eq!(entries[0].data, b"alpha".to_vec());
    assert_eq!(entries[1].name, "dir/b.bin");
    assert_eq!(entries[1].data, vec![0u8, 1, 2, 255]);
}

#[test]
fn write_archive_round_trips_through_the_zip_reader() {
    let entries = vec![entry("one", b"1"), entry("two/three", b""), entry("four", &[9u8; 5000])];
    let bytes = write_archive(&entries).unwrap();
    let mut archive = zip::ZipArchive::new(std::io::Cursor::new(bytes.clone())).unwrap();
    assert_eq!(archive.len(), 3);
    let mut data = Vec::new();
    std::io::Read::read_to_end(&mut archive.by_index(2).unwrap(), &mut data).unwrap();
    assert_eq!(data, vec![9u8; 5000]);
    let back = read_archive(bytes).unwrap();
    assert_eq!(back.len(), 3);
    for (a, b) in entries.iter().zip(back.iter()) {
        assert_eq!(a.name, b.name);
        assert_eq!(a.data, b.data);
    }
}

#[test]
fn write_archive_of_nothing_is_an_empty_archive() {
    let bytes = write_archive(&Vec::new()).unwrap();
    assert!(read_archive(bytes).unwrap().is_empty());
}

#[test]
fn write_archive_refuses_a_name_twice() {
    let entries = vec![entry("same", b"1"), entry("same", b"2")];
    assert_eq!(write_archive(&entries).unwrap_err(), DocError::Io);
}

#[test]
fn bytes_that_are_no_archive_are_corrupt() {
    assert_eq!(read_archive(b"not an archive".to_vec()).unwrap_err(), DocError::CorruptArchive);
    assert_eq!(read_archive(Vec::new()).unwrap_err(), DocError::CorruptArchive);
    assert_eq!(
        process_docx_template(b"PK\x03\x04 broken".to_vec(), &record()).unwrap_err(),
        DocError::CorruptArchive
    );
    assert_eq!(
        extract_text_from_docx(b"nothing".to_vec()).unwrap_err(),
        DocError::CorruptArchive
    );
}

#[test]
fn rewrite_entry_changes_only_the_markup_entry() {
    let other = rewrite_entry(&entry("word/styles.xml", b"{NOMBRE}"), &record()).unwrap();
    assert_eq!(other.name, "word/styles.xml");
    assert_eq!(other.data, b"{NOMBRE}".to_vec());
    let markup = rewrite_entry(&entry("word/document.xml", "é {NOMBRE}".as_bytes()), &record()).unwrap();
    assert_eq!(markup.name, "word/document.xml");
    assert_eq!(markup.data, "é Ana Ruiz".as_bytes().to_vec());
    let binary = rewrite_entry(&entry("image.png", &[0xff, 0xfe]), &record()).unwrap();
    assert_eq!(binary.data, vec![0xff, 0xfe]);
}

#[test]
fn markup_that_is_not_text_is_corrupt() {
    let bad = entry("word/document.xml", &[0xff, 0xfe, 0x00]);
    assert_eq!(rewrite_entry(&bad, &record()).unwrap_err(), DocError::CorruptArchive);
    let entries = vec![entry("a", b"a"), bad];
    assert_eq!(rewrite_entries(&entries, &record()).unwrap_err(), DocError::CorruptArchive);
    assert_eq!(extract_text_from_entries(&entries).unwrap_err(), DocError::CorruptArchive);
}

#[test]
fn rewrite_entries_keeps_order_and_names() {
    let entries = vec![entry("b", b"{ROL}"), entry("word/document.xml", b"{ROL}"), entry("a", b"")];
    let out = rewrite_entries(&entries, &record()).unwrap();
    assert_eq!(out.len(), 3);
    assert_eq!(out[0].name, "b");
    assert_eq!(out[0].data, b"{ROL}".to_vec());
    assert_eq!(out[1].name, "word/document.xml");
    assert_eq!(out[1].data, b"Revisora".to_vec());
    assert_eq!(out[2].name, "a");
    assert!(out[2].data.is_empty());
}

#[test]
fn find_markup_gives_the_first_markup_entry() {
    let entries = vec![entry("a", b""), entry("word/document.xml", b""), entry("word/document.xml", b"")];
    assert_eq!(find_markup(&entries), 1);
    assert_eq!(find_markup(&vec![entry("a", b"")]), 1);
    assert_eq!(find_markup(&Vec::new()), 0);
}

#[test]
fn archive_without_markup_has_no_text() {
    let bytes = zip_of(&[("word/styles.xml", b"<w:styles/>")]);
    assert_eq!(extract_text_from_docx(bytes).unwrap_err(), DocError::EntryNotFound);
    assert_eq!(extract_text_from_entries(&Vec::new()).unwrap_err(), DocError::EntryNotFound);
}

#[test]
fn text_is_extracted_from_the_rewritten_archive() {
    let template = zip_of(&[("word/document.xml", MARKUP.as_bytes()), ("x", b"y")]);
    let out = process_docx_template(template, &record()).unwrap();
    let text = extract_text_from_docx(out).unwrap();
    assert_eq!(text, "Estimada Ana Ruiz\nde Inst X");
    assert!(!text.contains("{NOMBRE}"));
    assert!(!text.contains("{INSTITUCION}"));
}

#[test]
fn malformed_markup_in_an_archive() {
    let bytes = zip_of(&[("word/document.xml", b"<w:p><w:t>open")]);
    assert_eq!(extract_text_from_docx(bytes).unwrap_err(), DocError::MalformedMarkup);
}

#[test]
fn safe_name_keeps_letters_digits_and_underscores() {
    let name = safe_name("José, Pérez.");
    assert_eq!(name, "José_Pérez");
    assert!(name.chars().all(|c| c.is_alphanumeric() || c == '_'));
    assert!(!name.contains(','));
    assert!(!name.contains('.'));
}

#[test]
fn safe_name_edge_cases() {
    assert_eq!(safe_name(""), "");
    assert_eq!(safe_name("Ana Ruiz"), "Ana_Ruiz");
    assert_eq!(safe_name("a_b-c/d\\e 9"), "a_bcde_9");
    assert_eq!(safe_name("../.."), "");
    assert_eq!(safe_name("  "), "__");
}

#[test]
fn error_messages() {
    assert_eq!(DocError::NotFound.message(), "file not found");
    assert_eq!(DocError::CorruptArchive.message(), "corrupt archive");
    assert_eq!(DocError::EntryNotFound.message(), "markup entry not found");
    assert_eq!(DocError::MalformedMarkup.message(), "malformed markup");
    assert_eq!(DocError::Io.message(), "write failed");
    assert_eq!(DocError::Encoding.message(), "text cannot be encoded");
}

#[test]
fn output_file_names() {
    assert_eq!(output_file_name("José, Pérez.", "docx"), "José_Pérez.docx");
    assert_eq!(output_file_name("Ana Ruiz", "pdf"), "Ana_Ruiz.pdf");
    assert_eq!(output_file_name("", "docx"), ".docx");
    assert_eq!(output_file_name("a/b", ""), "ab.");
}

#[test]
fn archives_to_convert_are_told_by_their_extension() {
    for name in ["a.docx", "Ana_Ruiz.DOCX", "x.y.DocX", "..docx", "é.docx"] {
        assert!(has_docx_extension(name), "{}", name);
    }
    for name in ["", ".docx", "docx", "a.doc", "a.docx.pdf", "a.docxx", "adocx", "a.dacx", "a.docx "] {
        assert!(!has_docx_extension(name), "{}", name);
    }
    assert!(!has_docx_extension("a.$OCX"));
    assert!(!has_docx_extension("a.DOC8"));
}

#[test]
fn converter_arguments_for_one_archive() {
    assert_eq!(
        conversion_arguments("out dir", "out dir/Ana_Ruiz.docx"),
        vec!["--headless", "--convert-to", "pdf", "--outdir", "out dir", "out dir/Ana_Ruiz.docx"]
    );
}

#[test]
fn other_entries_are_copied_in_their_stored_form() {
    let mut writer = zip::ZipWriter::new(std::io::Cursor::new(Vec::new()));
    let stored = zip::write::SimpleFileOptions::default()
        .compression_method(zip::CompressionMethod::Stored);
    writer.start_file("plain.bin", stored).unwrap();
    writer.write_all(&[7u8; 300]).unwrap();
    writer.start_file("word/document.xml", zip::write::SimpleFileOptions::default()).unwrap();
    writer.write_all(MARKUP.as_bytes()).unwrap();
    writer.start_file("packed.bin", zip::write::SimpleFileOptions::default()).unwrap();
    writer.write_all(&[9u8; 300]).unwrap();
    let template = writer.finish().unwrap().into_inner();

    let out = process_docx_template(template, &record()).unwrap();
    let mut archive = zip::ZipArchive::new(std::io::Cursor::new(out.clone())).unwrap();
    assert_eq!(archive.len(), 3);
    assert_eq!(archive.by_index(0).unwrap().compression(), zip::CompressionMethod::Stored);
    assert_eq!(archive.by_index(2).unwrap().compression(), zip::CompressionMethod::Deflated);
    assert!(out.windows(300).any(|w| w == [7u8; 300]));
    let entries = read_archive(out).unwrap();
    assert_eq!(entries[0].name, "plain.bin");
    assert_eq!(entries[0].data, vec![7u8; 300]);
    assert_eq!(entries[1].name, "word/document.xml");
    assert_eq!(entries[1].data, apply_replacements(MARKUP, &record()).into_bytes());
    assert_eq!(entries[2].name, "packed.bin");
    assert_eq!(entries[2].data, vec![9u8; 300]);
}

#[test]
fn template_without_placeholders_is_rewritten_all_the_same() {
    let template = zip_of(&[("word/document.xml", b"<w:p/>"), ("a", b"b")]);
    let out = process_docx_template(template, &record()).unwrap();
    let entries = read_archive(out).unwrap();
    assert_eq!(entries.len(), 2);
    assert_eq!(entries[0].data, b"<w:p/>".to_vec());
    assert_eq!(entries[1].data, b"b".to_vec());
    let none = process_docx_template(zip_of(&[("a", b"b")]), &record()).unwrap();
    assert_eq!(read_archive(none).unwrap().len(), 1);
}

#[test]
fn template_whose_markup_is_not_text_is_corrupt() {
    let template = zip_of(&[("a", b"b"), ("word/document.xml", &[0xff, 0xfe])]);
    assert_eq!(process_docx_template(template, &record()).unwrap_err(), DocError::CorruptArchive);
}
