//! The page document emitter: from positioned fragments to a single-page
//! document, written through the `pdf-writer` crate.
//!
//! The content stream is first built as a list of operations, whose order
//! this module proves; the operations and the five objects of the document
//! are then handed to the writer one by one, in a fixed order.

use pdf_writer::Content;
use pdf_writer::Name;
use pdf_writer::Pdf;
use pdf_writer::Rect;
use pdf_writer::Ref;
use pdf_writer::Str;
use vstd::prelude::*;
use crate::csv_parser::CsvData;
use crate::docx_processor::extract_text_from_docx;
use crate::docx_processor::extracted_from;
use crate::error::DocError;
use crate::layout::a4;
use crate::layout::fragments_of;
use crate::layout::layout;
use crate::layout::layout_text;
use crate::layout::Fragment;
use crate::layout::Geometry;
use crate::text::chars_of;

verus! {

#[verifier::external_type_specification]
#[verifier::external_body]
pub struct ExPdf(Pdf);

#[verifier::external_type_specification]
#[verifier::external_body]
pub struct ExContent(Content);

/// The indirect objects that were written to a document, in the order of
/// writing: the number of each and the bytes that stand for it.
pub uninterp spec fn pdf_objects(pdf: Pdf) -> Seq<(int, Seq<u8>)>;

/// The bytes of the catalog that `Pdf::catalog` and `Catalog::pages` write.
pub uninterp spec fn catalog_object(id: int, pages: int) -> Seq<u8>;

/// The bytes of the page tree that `Chunk::pages` writes with these kids
/// and count.
pub uninterp spec fn page_tree_object(id: int, kid: int, count: int) -> Seq<u8>;

/// The bytes of the page that `Chunk::page` writes with these attributes:
/// its parent, its content stream, one font resource, and a media box from
/// `left` and `bottom` to `right` and `top`.
pub uninterp spec fn page_object(
    id: int,
    parent: int,
    contents: int,
    font_name: Seq<u8>,
    font: int,
    left: int,
    bottom: int,
    right: int,
    top: int,
) -> Seq<u8>;

/// The bytes of the font that `Chunk::type1_font` writes with this base font
/// and encoding.
pub uninterp spec fn font_object(id: int, base: Seq<u8>, encoding: Seq<u8>) -> Seq<u8>;

/// The bytes of the stream object that `Chunk::stream` writes.
pub uninterp spec fn stream_object(id: int, data: Seq<u8>) -> Seq<u8>;

/// The bytes of the file that `Pdf::finish` makes of a document with these
/// objects: the header, the objects, the cross-reference table and the
/// trailer.
pub uninterp spec fn finished_document(objects: Seq<(int, Seq<u8>)>) -> Seq<u8>;

/// The operations that were written to a content stream, in order, each as
/// the bytes of its operands and operator.
pub uninterp spec fn content_written(content: Content) -> Seq<Seq<u8>>;

/// The bytes of the operation that `Content::set_font` writes.
pub uninterp spec fn set_font_operation(name: Seq<u8>, size: int) -> Seq<u8>;

/// The bytes of the operation that `Content::next_line` writes.
pub uninterp spec fn next_line_operation(x: int, y: int) -> Seq<u8>;

/// The bytes of the operation that `Content::show` writes for a string.
pub uninterp spec fn show_operation(text: Seq<u8>) -> Seq<u8>;

/// The operations with a line feed between neighbours.
pub open spec fn joined_operations(operations: Seq<Seq<u8>>) -> Seq<u8>
    decreases operations.len(),
{
    if operations.len() == 0 {
        Seq::empty()
    } else if operations.len() == 1 {
        operations[0]
    } else {
        joined_operations(operations.drop_last()) + seq![0x0au8] + operations.last()
    }
}

/// The bytes of the content stream that `Content::finish` returns for these
/// operations: the operations with a line feed between neighbours, without
/// a line feed at the very end.
pub open spec fn finished_content(operations: Seq<Seq<u8>>) -> Seq<u8> {
    let joined = joined_operations(operations);
    if joined.len() > 0 && joined.last() == 0x0au8 {
        joined.drop_last()
    } else {
        joined
    }
}

/// The operator `BT`.
pub open spec fn begin_text_operation() -> Seq<u8> {
    seq![0x42u8, 0x54u8]
}

/// The operator `ET`.
pub open spec fn end_text_operation() -> Seq<u8> {
    seq![0x45u8, 0x54u8]
}

/// `Pdf::new`: a document with no object yet.
#[verifier::external_body]
fn new_document() -> (pdf: Pdf)
    ensures
        pdf_objects(pdf) == Seq::<(int, Seq<u8>)>::empty(),
{
    Pdf::new()
}

/// `Pdf::catalog` and `Catalog::pages`: writes the catalog as object `id`,
/// referring to the page tree `pages`. The writer takes only positive object
/// numbers.
#[verifier::external_body]
fn write_catalog(pdf: &mut Pdf, id: i32, pages: i32)
    requires
        id > 0,
        pages > 0,
    ensures
        pdf_objects(*final(pdf)) == pdf_objects(*old(pdf)).push(
            (id as int, catalog_object(id as int, pages as int)),
        ),
{
    pdf.catalog(Ref::new(id)).pages(Ref::new(pages));
}

/// `Chunk::pages` with `kids` and `count`: writes the page tree as object
/// `id`, with the one page `kid`.
#[verifier::external_body]
fn write_page_tree(pdf: &mut Pdf, id: i32, kid: i32, count: i32)
    requires
        id > 0,
        kid > 0,
    ensures
        pdf_objects(*final(pdf)) == pdf_objects(*old(pdf)).push(
            (id as int, page_tree_object(id as int, kid as int, count as int)),
        ),
{
    pdf.pages(Ref::new(id)).kids([Ref::new(kid)]).count(count);
}

/// `Chunk::page` with the page's attributes: writes the page as object `id`
/// with its media box, its parent, its content stream and one font resource.
#[verifier::external_body]
fn write_page(
    pdf: &mut Pdf,
    id: i32,
    parent: i32,
    contents: i32,
    font_name: &[u8],
    font: i32,
    left: u32,
    bottom: u32,
    right: u32,
    top: u32,
)
    requires
        id > 0,
        parent > 0,
        contents > 0,
        font > 0,
    ensures
        pdf_objects(*final(pdf)) == pdf_objects(*old(pdf)).push(
            (
                id as int,
                page_object(
                    id as int,
                    parent as int,
                    contents as int,
                    font_name@,
                    font as int,
                    left as int,
                    bottom as int,
                    right as int,
                    top as int,
                ),
            ),
        ),
{
    let mut page = pdf.page(Ref::new(id));
    page.media_box(Rect::new(left as _, bottom as _, right as _, top as _));
    page.parent(Ref::new(parent));
    page.contents(Ref::new(contents));
    page.resources().fonts().pair(Name(font_name), Ref::new(font));
}

/// `Chunk::type1_font` with `base_font` and `encoding_predefined`: writes a
/// standard font as object `id`.
#[verifier::external_body]
fn write_font(pdf: &mut Pdf, id: i32, base: &[u8], encoding: &[u8])
    requires
        id > 0,
    ensures
        pdf_objects(*final(pdf)) == pdf_objects(*old(pdf)).push(
            (id as int, font_object(id as int, base@, encoding@)),
        ),
{
    pdf.type1_font(Ref::new(id)).base_font(Name(base)).encoding_predefined(Name(encoding));
}

/// `Chunk::stream`: writes a stream of these bytes as object `id`. The
/// writer takes no stream longer than `i32::MAX` bytes.
#[verifier::external_body]
fn write_stream(pdf: &mut Pdf, id: i32, data: &[u8])
    requires
        id > 0,
        data@.len() <= i32::MAX,
    ensures
        pdf_objects(*final(pdf)) == pdf_objects(*old(pdf)).push(
            (id as int, stream_object(id as int, data@)),
        ),
{
    pdf.stream(Ref::new(id), data);
}

/// The largest object number that this library hands to the writer. The
/// writer's cross-reference table has one line for every number up to the
/// largest that was written, used or not.
pub const MAX_OBJECT_NUMBER: i32 = 65_535;

/// `Pdf::finish`: the bytes of the document with its cross-reference table
/// and trailer. The writer takes no object number twice, and it counts one
/// past the largest number written, so the numbers are kept small.
#[verifier::external_body]
fn finish_document(pdf: Pdf) -> (bytes: Vec<u8>)
    requires
        forall|i: int, j: int|
            0 <= i < j < pdf_objects(pdf).len() ==> pdf_objects(pdf)[i].0 != pdf_objects(pdf)[j].0,
        forall|i: int|
            0 <= i < pdf_objects(pdf).len() ==> (#[trigger] pdf_objects(pdf)[i]).0
                <= MAX_OBJECT_NUMBER,
    ensures
        bytes@ == finished_document(pdf_objects(pdf)),
{
    pdf.finish()
}

/// `Content::new`: a content stream with no operation yet.
#[verifier::external_body]
fn new_content() -> (content: Content)
    ensures
        content_written(content) == Seq::<Seq<u8>>::empty(),
{
    Content::new()
}

/// `Content::set_font`: adds the operation that selects the font resource
/// `name` at `size` points.
#[verifier::external_body]
fn content_set_font(content: &mut Content, name: &[u8], size: u32)
    ensures
        content_written(*final(content)) == content_written(*old(content)).push(
            set_font_operation(name@, size as int),
        ),
{
    content.set_font(Name(name), size as _);
}

/// `Content::begin_text`: adds the operator `BT`, which begins a text
/// object.
#[verifier::external_body]
fn content_begin_text(content: &mut Content)
    ensures
        content_written(*final(content)) == content_written(*old(content)).push(
            begin_text_operation(),
        ),
{
    content.begin_text();
}

/// `Content::next_line`: adds the operation that sets the text position,
/// which inside a fresh text object is the position on the page.
#[verifier::external_body]
fn content_position(content: &mut Content, x: i64, y: i64)
    ensures
        content_written(*final(content)) == content_written(*old(content)).push(
            next_line_operation(x as int, y as int),
        ),
{
    content.next_line(x as _, y as _);
}

/// `Content::show` of a `Str`: adds the operation that shows a string of
/// bytes, which the writer escapes as the string syntax asks.
#[verifier::external_body]
fn content_show(content: &mut Content, text: &[u8])
    ensures
        content_written(*final(content)) == content_written(*old(content)).push(
            show_operation(text@),
        ),
{
    content.show(Str(text));
}

/// `Content::end_text`: adds the operator `ET`, which ends the text object.
#[verifier::external_body]
fn content_end_text(content: &mut Content)
    ensures
        content_written(*final(content)) == content_written(*old(content)).push(
            end_text_operation(),
        ),
{
    content.end_text();
}

/// `Content::finish` and `Buf::into_vec`: the bytes of the content stream.
/// The writer puts a line feed before each operation but the first, and
/// `finish` takes a line feed at the very end away.
#[verifier::external_body]
fn finish_content(content: Content) -> (bytes: Vec<u8>)
    ensures
        bytes@ == finished_content(content_written(content)),
{
    content.finish().into_vec()
}

/// Whether a character has a code in the string encoding of the page
/// document: the printable ASCII characters and the upper half of Latin-1.
pub open spec fn representable(c: char) -> bool {
    0x20 <= c as u32 <= 0x7e || 0xa0 <= c as u32 <= 0xff
}

/// Whether every character of a text is representable.
pub open spec fn all_representable(text: Seq<char>) -> bool {
    forall|k: int| 0 <= k < text.len() ==> representable(#[trigger] text[k])
}

/// A text in the string encoding of the page document: one byte for each
/// character, its code.
pub open spec fn encoded(text: Seq<char>) -> Seq<u8> {
    Seq::new(text.len(), |k: int| (text[k] as u32) as u8)
}

/// Encodes a text for the page document, or nothing where some character
/// is not representable.
pub fn encode_text(text: &str) -> (r: Option<Vec<u8>>)
    ensures
        r is Some <==> all_representable(text@),
        r is Some ==> r->0@ == encoded(text@),
{
    let chars = chars_of(text);
    let mut out: Vec<u8> = Vec::new();
    let mut i: usize = 0;
    while i < chars.len()
        invariant
            i <= chars@.len(),
            chars@ == text@,
            out@.len() == i,
            forall|k: int| 0 <= k < i ==> out@[k] == (text@[k] as u32) as u8,
            forall|k: int| 0 <= k < i ==> representable(#[trigger] text@[k]),
        decreases chars@.len() - i,
    {
        let c = chars[i];
        let code = c as u32;
        if !((0x20 <= code && code <= 0x7e) || (0xa0 <= code && code <= 0xff)) {
            assert(!representable(text@[i as int]));
            return None;
        }
        out.push(code as u8);
        i += 1;
    }
    assert(out@ =~= encoded(text@));
    Some(out)
}

/// One operation of a content stream.
#[derive(Debug, Clone)]
pub enum ContentOp {
    /// Selects the font at a size in points.
    SetFont(u32),
    BeginText,
    /// Sets the text position.
    Position(i64, i64),
    /// Shows an encoded string.
    Show(Vec<u8>),
    EndText,
}

/// The value of an operation.
pub enum OpModel {
    SetFont(int),
    BeginText,
    Position(int, int),
    Show(Seq<u8>),
    EndText,
}

impl View for ContentOp {
    type V = OpModel;

    open spec fn view(&self) -> OpModel {
        match *self {
            ContentOp::SetFont(size) => OpModel::SetFont(size as int),
            ContentOp::BeginText => OpModel::BeginText,
            ContentOp::Position(x, y) => OpModel::Position(x as int, y as int),
            ContentOp::Show(bytes) => OpModel::Show(bytes@),
            ContentOp::EndText => OpModel::EndText,
        }
    }
}

/// The views of the elements of a vector of operations.
pub open spec fn ops_of(v: Seq<ContentOp>) -> Seq<OpModel> {
    Seq::new(v.len(), |i: int| v[i]@)
}

/// The four operations that paint one fragment.
pub open spec fn fragment_ops(f: (int, int, Seq<char>)) -> Seq<OpModel> {
    seq![
        OpModel::BeginText,
        OpModel::Position(f.0, f.1),
        OpModel::Show(encoded(f.2)),
        OpModel::EndText,
    ]
}

/// The operations that paint the fragments `fragments[i..]`, in order.
pub open spec fn ops_from(fragments: Seq<(int, int, Seq<char>)>, i: int) -> Seq<OpModel>
    decreases fragments.len() - i,
{
    if i < 0 || i >= fragments.len() {
        Seq::empty()
    } else {
        fragment_ops(fragments[i]) + ops_from(fragments, i + 1)
    }
}

/// The content stream of a page: the font selection once, then the
/// operations of each fragment in order.
pub open spec fn page_ops(fragments: Seq<(int, int, Seq<char>)>, font_size: int) -> Seq<OpModel> {
    seq![OpModel::SetFont(font_size)] + ops_from(fragments, 0)
}

/// Whether the text of every fragment is representable.
pub open spec fn fragments_representable(fragments: Seq<(int, int, Seq<char>)>) -> bool {
    forall|i: int| 0 <= i < fragments.len() ==> all_representable((#[trigger] fragments[i]).2)
}

/// A page's content stream holds the font selection and four operations
/// for each fragment.
pub proof fn lemma_page_ops_len(fragments: Seq<(int, int, Seq<char>)>, font_size: int)
    ensures
        page_ops(fragments, font_size).len() == 1 + 4 * fragments.len(),
{
    lemma_ops_from_len(fragments, 0);
}

proof fn lemma_ops_from_len(fragments: Seq<(int, int, Seq<char>)>, i: int)
    requires
        0 <= i <= fragments.len(),
    ensures
        ops_from(fragments, i).len() == 4 * (fragments.len() - i),
    decreases fragments.len() - i,
{
    if i < fragments.len() {
        lemma_ops_from_len(fragments, i + 1);
    }
}

proof fn lemma_ops_push(v: Seq<ContentOp>, x: ContentOp)
    ensures
        ops_of(v.push(x)) == ops_of(v).push(x@),
{
    assert(ops_of(v.push(x)) =~= ops_of(v).push(x@));
}

/// The operations of a page's content stream. `Encoding` exactly when some
/// fragment holds a character that is not representable.
pub fn content_operations(fragments: &Vec<Fragment>, font_size: u32) -> (r: Result<
    Vec<ContentOp>,
    DocError,
>)
    ensures
        match r {
            Ok(ops) => fragments_representable(fragments_of(fragments@)) && ops_of(ops@)
                == page_ops(fragments_of(fragments@), font_size as int),
            Err(e) => !fragments_representable(fragments_of(fragments@)) && e
                == DocError::Encoding,
        },
{
    let ghost fs = fragments_of(fragments@);
    let mut ops: Vec<ContentOp> = Vec::new();
    let first = ContentOp::SetFont(font_size);
    proof {
        lemma_ops_push(ops@, first);
    }
    ops.push(first);
    assert(ops_of(ops@) =~= seq![OpModel::SetFont(font_size as int)]);
    let mut i: usize = 0;
    while i < fragments.len()
        invariant
            i <= fragments@.len(),
            fs == fragments_of(fragments@),
            forall|j: int| 0 <= j < i ==> all_representable((#[trigger] fs[j]).2),
            ops_of(ops@) + ops_from(fs, i as int) == page_ops(fs, font_size as int),
        decreases fragments@.len() - i,
    {
        let fragment = &fragments[i];
        assert(fs[i as int] == fragment@);
        let bytes = match encode_text(fragment.text.as_str()) {
            Some(bytes) => bytes,
            None => {
                assert(!all_representable(fs[i as int].2));
                return Err(DocError::Encoding);
            },
        };
        let ghost before = ops_of(ops@);
        let ghost rest = ops_from(fs, i + 1);
        let begin = ContentOp::BeginText;
        let position = ContentOp::Position(fragment.x, fragment.y);
        let show = ContentOp::Show(bytes);
        let end = ContentOp::EndText;
        proof {
            lemma_ops_push(ops@, begin);
            lemma_ops_push(ops@.push(begin), position);
            lemma_ops_push(ops@.push(begin).push(position), show);
            lemma_ops_push(ops@.push(begin).push(position).push(show), end);
            assert(before.push(begin@).push(position@).push(show@).push(end@) + rest =~= before
                + (fragment_ops(fs[i as int]) + rest));
        }
        ops.push(begin);
        ops.push(position);
        ops.push(show);
        ops.push(end);
        i += 1;
    }
    assert(ops_of(ops@) + Seq::<OpModel>::empty() =~= ops_of(ops@));
    Ok(ops)
}

/// The bytes of one operation, the font under the resource name `font`.
pub open spec fn operation_bytes(op: OpModel, font: Seq<u8>) -> Seq<u8> {
    match op {
        OpModel::SetFont(size) => set_font_operation(font, size),
        OpModel::BeginText => begin_text_operation(),
        OpModel::Position(x, y) => next_line_operation(x, y),
        OpModel::Show(text) => show_operation(text),
        OpModel::EndText => end_text_operation(),
    }
}

/// The content stream of a sequence of operations.
pub open spec fn content_stream(ops: Seq<OpModel>, font: Seq<u8>) -> Seq<u8> {
    finished_content(Seq::new(ops.len(), |i: int| operation_bytes(ops[i], font)))
}

/// The objects of the single-page document around a content stream, in the
/// order of writing: the catalog, the page tree, the page with its media
/// box from the origin to the page's width and height, the font and the
/// stream, numbered one to five.
pub open spec fn document_objects(content: Seq<u8>, g: Geometry) -> Seq<(int, Seq<u8>)> {
    seq![
        (1, catalog_object(1, 2)),
        (2, page_tree_object(2, 3, 1)),
        (
            3,
            page_object(
                3,
                2,
                5,
                "F1"@.map_values(|c: char| c as u8),
                4,
                0,
                0,
                g.page_width as int,
                g.page_height as int,
            ),
        ),
        (
            4,
            font_object(
                4,
                "Helvetica"@.map_values(|c: char| c as u8),
                "WinAnsiEncoding"@.map_values(|c: char| c as u8),
            ),
        ),
        (5, stream_object(5, content)),
    ]
}

/// The single-page document around a content stream.
pub open spec fn document(content: Seq<u8>, g: Geometry) -> Seq<u8> {
    finished_document(document_objects(content, g))
}

/// A document has exactly one page: five objects, each number once, every
/// reference to one of them; the catalog refers to the page tree, the page
/// tree counts one page and holds it as its one kid, and the page refers
/// back to the tree, to the font and to the stream.
pub proof fn lemma_one_page(content: Seq<u8>, g: Geometry)
    ensures
        document_objects(content, g).len() == 5,
        forall|i: int| 0 <= i < 5 ==> (#[trigger] document_objects(content, g)[i]).0 == i + 1,
        document_objects(content, g)[0].1 == catalog_object(1, 2),
        document_objects(content, g)[1].1 == page_tree_object(2, 3, 1),
        document_objects(content, g)[2].1 == page_object(
            3,
            2,
            5,
            "F1"@.map_values(|c: char| c as u8),
            4,
            0,
            0,
            g.page_width as int,
            g.page_height as int,
        ),
        document_objects(content, g)[4].1 == stream_object(5, content),
{
}

/// Writes the operations to a content stream, in order, the font under the
/// resource name `font_name`, and returns the stream's bytes.
pub fn write_operations(ops: &Vec<ContentOp>, font_name: &[u8]) -> (bytes: Vec<u8>)
    ensures
        bytes@ == content_stream(ops_of(ops@), font_name@),
{
    let ghost model = ops_of(ops@);
    let mut content = new_content();
    let mut i: usize = 0;
    while i < ops.len()
        invariant
            i <= ops@.len(),
            model == ops_of(ops@),
            content_written(content) == Seq::new(
                i as nat,
                |k: int| operation_bytes(model[k], font_name@),
            ),
        decreases ops@.len() - i,
    {
        let ghost before = content_written(content);
        assert(model[i as int] == ops@[i as int]@);
        match &ops[i] {
            ContentOp::SetFont(size) => content_set_font(&mut content, font_name, *size),
            ContentOp::BeginText => content_begin_text(&mut content),
            ContentOp::Position(x, y) => content_position(&mut content, *x, *y),
            ContentOp::Show(text) => content_show(&mut content, text.as_slice()),
            ContentOp::EndText => content_end_text(&mut content),
        }
        assert(content_written(content) == before.push(
            operation_bytes(model[i as int], font_name@),
        ));
        i += 1;
        assert(content_written(content) =~= Seq::new(
            i as nat,
            |k: int| operation_bytes(model[k], font_name@),
        ));
    }
    finish_content(content)
}

/// The longest content stream that a document takes, in bytes.
pub const MAX_STREAM_LEN: usize = 0x7fff_ffff;

/// The bytes of an ASCII string literal.
fn ascii_bytes(s: &'static str) -> (bytes: Vec<u8>)
    requires
        s.is_ascii(),
    ensures
        bytes@ == s@.map_values(|c: char| c as u8),
{
    let mut bytes: Vec<u8> = Vec::new();
    let mut i: usize = 0;
    let n = s.unicode_len();
    while i < n
        invariant
            i <= n,
            n == s@.len(),
            s.is_ascii(),
            bytes@.len() == i,
            forall|k: int| 0 <= k < i ==> bytes@[k] == s@[k] as u8,
        decreases n - i,
    {
        bytes.push(s.get_ascii(i));
        i += 1;
    }
    assert(bytes@ =~= s@.map_values(|c: char| c as u8));
    bytes
}

/// Writes the single-page document around a content stream: the catalog,
/// the page tree, the page with its media box and font resource, the font,
/// and the stream, as objects one to five in this order. `Io` exactly when
/// the stream is longer than `MAX_STREAM_LEN`.
pub fn emit_document(content: &[u8], g: &Geometry) -> (r: Result<Vec<u8>, DocError>)
    ensures
        match r {
            Ok(bytes) => content@.len() <= MAX_STREAM_LEN && bytes@ == document(content@, *g),
            Err(e) => content@.len() > MAX_STREAM_LEN && e == DocError::Io,
        },
{
    if content.len() > MAX_STREAM_LEN {
        return Err(DocError::Io);
    }
    proof {
        reveal_strlit("F1");
        reveal_strlit("Helvetica");
        reveal_strlit("WinAnsiEncoding");
    }
    let font_name = ascii_bytes("F1");
    let base = ascii_bytes("Helvetica");
    let encoding = ascii_bytes("WinAnsiEncoding");
    let catalog_id: i32 = 1;
    let page_tree_id: i32 = 2;
    let page_id: i32 = 3;
    let font_id: i32 = 4;
    let content_id: i32 = 5;
    let mut pdf = new_document();
    write_catalog(&mut pdf, catalog_id, page_tree_id);
    write_page_tree(&mut pdf, page_tree_id, page_id, 1);
    write_page(
        &mut pdf,
        page_id,
        page_tree_id,
        content_id,
        font_name.as_slice(),
        font_id,
        0,
        0,
        g.page_width,
        g.page_height,
    );
    write_font(&mut pdf, font_id, base.as_slice(), encoding.as_slice());
    write_stream(&mut pdf, content_id, content);
    assert(pdf_objects(pdf) =~= seq![
        (1int, catalog_object(1, 2)),
        (2int, page_tree_object(2, 3, 1)),
        (
            3int,
            page_object(3, 2, 5, font_name@, 4, 0, 0, g.page_width as int, g.page_height as int),
        ),
        (4int, font_object(4, base@, encoding@)),
        (5int, stream_object(5, content@)),
    ]);
    Ok(finish_document(pdf))
}

/// The content stream that paints a sequence of fragments on a page.
pub open spec fn page_stream(fragments: Seq<(int, int, Seq<char>)>, g: Geometry) -> Seq<u8> {
    content_stream(page_ops(fragments, g.font_size as int), "F1"@.map_values(|c: char| c as u8))
}

/// The page document of a sequence of fragments on a page.
pub open spec fn page_document(fragments: Seq<(int, int, Seq<char>)>, g: Geometry) -> Seq<u8> {
    document(page_stream(fragments, g), g)
}

/// What emitting the page document of a sequence of fragments gives: the
/// document, `Encoding` where a fragment is not representable, or `Io`
/// where the content stream is too long.
pub open spec fn emitted(fragments: Seq<(int, int, Seq<char>)>, g: Geometry) -> Result<
    Seq<u8>,
    DocError,
> {
    if !fragments_representable(fragments) {
        Err(DocError::Encoding)
    } else if page_stream(fragments, g).len() > MAX_STREAM_LEN {
        Err(DocError::Io)
    } else {
        Ok(page_document(fragments, g))
    }
}

/// Lays a plain text out on a page of the given geometry and emits the
/// page document. `Encoding` exactly when a fragment of the layout holds a
/// character that is not representable; else `Io` exactly when the content
/// stream is too long for a document.
pub fn render_page(text: &str, g: &Geometry) -> (r: Result<Vec<u8>, DocError>)
    ensures
        match r {
            Ok(bytes) => emitted(layout(text@, *g), *g) == Ok::<Seq<u8>, DocError>(bytes@),
            Err(e) => emitted(layout(text@, *g), *g) == Err::<Seq<u8>, DocError>(e),
        },
{
    let fragments = layout_text(text, g);
    let ops = content_operations(&fragments, g.font_size)?;
    proof {
        reveal_strlit("F1");
    }
    let font_name = ascii_bytes("F1");
    let content = write_operations(&ops, font_name.as_slice());
    emit_document(content.as_slice(), g)
}

/// Emits the A4 page document of a plain text. The record takes no part in
/// the page.
pub fn create_pdf_from_text(text: &str, _data: &CsvData) -> (r: Result<Vec<u8>, DocError>)
    ensures
        match r {
            Ok(bytes) => emitted(layout(text@, a4()), a4()) == Ok::<Seq<u8>, DocError>(bytes@),
            Err(e) => emitted(layout(text@, a4()), a4()) == Err::<Seq<u8>, DocError>(e),
        },
{
    let g = Geometry::a4();
    render_page(text, &g)
}

/// What making the page document of an archive file gives: the errors of
/// extraction first, then those of emission.
pub open spec fn generated(docx: Seq<u8>) -> Result<Seq<u8>, DocError> {
    match extracted_from(docx) {
        Ok(text) => emitted(layout(text, a4()), a4()),
        Err(e) => Err(e),
    }
}

/// Emits the A4 page document of a document archive: the text of its markup
/// entry, laid out on one page. The record takes no part in the page.
pub fn generate_pdf(docx: Vec<u8>, data: &CsvData) -> (r: Result<Vec<u8>, DocError>)
    ensures
        match r {
            Ok(bytes) => generated(docx@) == Ok::<Seq<u8>, DocError>(bytes@),
            Err(e) => generated(docx@) == Err::<Seq<u8>, DocError>(e),
        },
{
    let text = extract_text_from_docx(docx)?;
    create_pdf_from_text(text.as_str(), data)
}

} // verus!
