//! Attachments of a message as content for a model.

use crate::base64_text;
use crate::orchestrator::messages;
use crate::orchestrator::messages::{ContentBlock, ContentModel};
use crate::seqs;
use crate::text;
use vstd::prelude::*;

verus! {

pub const MAX_ATTACHMENT_TEXT_CHARS: usize = 12_000;

pub const MAX_PDF_IMAGE_PAGES: usize = 8;

#[derive(Clone, Copy, Debug, PartialEq, Eq, Structural)]
pub enum AttachmentKind {
    Image,
    Document,
    Other,
}

/// A file that came with a message; `url` holds its content as base64.
#[derive(Clone, Debug)]
pub struct Attachment {
    pub kind: AttachmentKind,
    pub url: String,
    pub mime_type: Option<String>,
    pub file_name: Option<String>,
    pub size: Option<u64>,
}

// Types of content

pub open spec fn text_mime(mime: Seq<char>) -> bool {
    ||| text::starts_with(mime, "text/"@)
    ||| mime == "application/json"@
    ||| mime == "application/xml"@
    ||| mime == "application/javascript"@
    ||| mime == "application/x-yaml"@
    ||| mime == "application/yaml"@
    ||| mime == "application/toml"@
    ||| mime == "application/x-sh"@
}

pub fn is_text_mime(mime: &str) -> (r: bool)
    ensures
        r == text_mime(mime@),
{
    text::text_starts_with(mime, "text/") || text::same_text(mime, "application/json")
        || text::same_text(mime, "application/xml") || text::same_text(
        mime,
        "application/javascript",
    ) || text::same_text(mime, "application/x-yaml") || text::same_text(mime, "application/yaml")
        || text::same_text(mime, "application/toml") || text::same_text(mime, "application/x-sh")
}

pub open spec fn text_or(value: Option<String>, default: Seq<char>) -> Seq<char> {
    match value {
        Some(s) => s@,
        None => default,
    }
}

fn value_or<'a>(value: &'a Option<String>, default: &'static str) -> (r: &'a str)
    ensures
        r@ == text_or(*value, default@),
{
    match value {
        Some(s) => s.as_str(),
        None => default,
    }
}

pub open spec fn mime_of(attachment: Attachment) -> Seq<char> {
    text_or(attachment.mime_type, "application/octet-stream"@)
}

// Text of attachments

pub open spec fn without_nul(s: Seq<char>) -> Seq<char> {
    s.filter(|c: char| c != '\u{0}')
}

/// The text of an attachment without null characters and blank ends; none where
/// nothing is left.
pub open spec fn usable_text(s: Seq<char>) -> Option<Seq<char>> {
    let t = text::trim(without_nul(s));
    if t.len() == 0 {
        None
    } else {
        Some(t)
    }
}

pub fn trim_attachment_text(value: &str) -> (r: Option<String>)
    ensures
        text::opt_view(r) == usable_text(value@),
{
    let chars = text::chars_of(value);
    let mut kept: Vec<char> = Vec::new();
    let n: usize = chars.len();
    let ghost keep = |c: char| c != '\u{0}';
    proof {
        seqs::filter_start(chars@, keep);
    }
    for i in 0..n
        invariant
            n == chars@.len(),
            keep == (|c: char| c != '\u{0}'),
            kept@ == chars@.take(i as int).filter(keep),
    {
        proof {
            seqs::filter_step(chars@, keep, i as int);
        }
        if chars[i] != '\u{0}' {
            kept.push(chars[i]);
        }
    }
    assert(chars@.take(n as int) == chars@);
    let trimmed = text::trim_chars(kept.as_slice());
    if trimmed.len() == 0 {
        None
    } else {
        Some(text::string_of(trimmed))
    }
}

/// The text, cut after the characters that an attachment may have.
pub open spec fn limited_text(s: Seq<char>) -> Seq<char> {
    if s.len() <= MAX_ATTACHMENT_TEXT_CHARS {
        s
    } else {
        s.take(MAX_ATTACHMENT_TEXT_CHARS as int)
            + "\n\n[attachment text truncated after 12000 characters]"@
    }
}

pub fn truncate_attachment_text(value: &str) -> (r: String)
    ensures
        r@ == limited_text(value@),
{
    let chars = text::chars_of(value);
    if chars.len() <= MAX_ATTACHMENT_TEXT_CHARS {
        return value.to_owned();
    }
    let mut out = text::string_of(text::take_chars(chars.as_slice(), MAX_ATTACHMENT_TEXT_CHARS));
    out.append("\n\n[attachment text truncated after 12000 characters]");
    out
}

/// `String::from_utf8` of std: the text that the bytes encode, where they are
/// valid UTF-8.
#[verifier::external_body]
fn text_from_utf8(bytes: Vec<u8>) -> (r: Option<String>)
    ensures
        match r {
            Some(s) => vstd::utf8::valid_utf8(bytes@) && s@ == vstd::utf8::decode_utf8(bytes@),
            None => !vstd::utf8::valid_utf8(bytes@),
        },
{
    String::from_utf8(bytes).ok()
}

pub open spec fn utf8_text(bytes: Seq<u8>) -> Option<Seq<char>> {
    if vstd::utf8::valid_utf8(bytes) {
        Some(vstd::utf8::decode_utf8(bytes))
    } else {
        None
    }
}

// Documents in the portable document format

/// A document of `lopdf`.
#[verifier::external_type_specification]
#[verifier::external_body]
pub struct ExPdfDocument(lopdf::Document);

/// `lopdf::Document::load_mem`; `None` where it reports an error. Nothing is said
/// of the document: bytes that give one object twice can be read in more than one
/// way, so that it is no function of them.
#[verifier::external_body]
fn load_document(bytes: &[u8]) -> (r: Option<lopdf::Document>) {
    lopdf::Document::load_mem(bytes).ok()
}

/// `lopdf::Document::get_pages`: number and identifier of each page, by rising
/// number. Which pages there are is left unsaid.
#[verifier::external_body]
fn document_pages(document: &lopdf::Document) -> (r: Vec<(u32, (u32, u16))>) {
    document.get_pages().into_iter().collect()
}

/// `lopdf::Document::extract_text`; `None` where it reports an error. What the
/// text is, is left unsaid.
#[verifier::external_body]
fn document_text(document: &lopdf::Document, pages: &[u32]) -> (r: Option<String>) {
    document.extract_text(pages).ok()
}

/// An image that stands on a page: the filters of its stream, and the stream.
#[derive(Clone, Debug)]
pub struct PdfImage {
    pub filters: Vec<String>,
    pub content: Vec<u8>,
}

/// What an image on a page is.
pub struct PdfImageModel {
    pub filters: Seq<Seq<char>>,
    pub content: Seq<u8>,
}

impl View for PdfImage {
    type V = PdfImageModel;

    open spec fn view(&self) -> PdfImageModel {
        PdfImageModel { filters: text::views(self.filters@), content: self.content@ }
    }
}

pub open spec fn image_models(s: Seq<PdfImage>) -> Seq<PdfImageModel> {
    Seq::new(s.len(), |i: int| s[i]@)
}

pub open spec fn opt_images(r: Option<Vec<PdfImage>>) -> Option<Seq<PdfImageModel>> {
    match r {
        Some(images) => Some(image_models(images@)),
        None => None,
    }
}

pub open spec fn page_models(s: Seq<Option<Vec<PdfImage>>>) -> Seq<Option<Seq<PdfImageModel>>> {
    Seq::new(s.len(), |i: int| opt_images(s[i]))
}

/// `lopdf::Document::get_page_images`: filters and content of each image of the
/// page; `None` where an error is reported. Which images those are is left
/// unsaid.
#[verifier::external_body]
fn page_images(document: &lopdf::Document, page: (u32, u16)) -> (r: Option<Vec<PdfImage>>) {
    let images = document.get_page_images(page).ok()?;
    Some(images.iter().map(|image| PdfImage {
        filters: image.filters.clone().unwrap_or_default(),
        content: image.content.to_vec(),
    }).collect())
}

/// Why there is no text of a document.
#[derive(Clone, Copy, Debug, PartialEq, Eq, Structural)]
pub enum PdfTextError {
    /// The bytes are no document.
    Parse,
    /// The text of its pages cannot be told.
    Extract,
}

/// The text of a document with so many pages, where there is a document, whose
/// text was read as `found`: empty without pages.
pub open spec fn settled_text(pages: Option<nat>, found: Option<Seq<char>>) -> Result<
    Seq<char>,
    PdfTextError,
> {
    match pages {
        None => Err(PdfTextError::Parse),
        Some(n) => if n == 0 {
            Ok(Seq::empty())
        } else {
            match found {
                Some(s) => Ok(s),
                None => Err(PdfTextError::Extract),
            }
        },
    }
}

pub open spec fn text_result(r: Result<String, PdfTextError>) -> Result<Seq<char>, PdfTextError> {
    match r {
        Ok(s) => Ok(s@),
        Err(e) => Err(e),
    }
}

pub open spec fn opt_count(n: Option<usize>) -> Option<nat> {
    match n {
        Some(n) => Some(n as nat),
        None => None,
    }
}

pub fn settle_pdf_text(pages: Option<usize>, found: Option<String>) -> (r: Result<
    String,
    PdfTextError,
>)
    ensures
        text_result(r) == settled_text(opt_count(pages), text::opt_view(found)),
{
    match pages {
        None => Err(PdfTextError::Parse),
        Some(n) => if n == 0 {
            Ok(String::new())
        } else {
            match found {
                Some(s) => Ok(s),
                None => Err(PdfTextError::Extract),
            }
        },
    }
}

/// The numbers of the pages, in order.
pub fn page_numbers(pages: &[(u32, (u32, u16))]) -> (r: Vec<u32>)
    ensures
        r@ == pages@.map_values(|page: (u32, (u32, u16))| page.0),
{
    let mut numbers: Vec<u32> = Vec::new();
    let n: usize = pages.len();
    for i in 0..n
        invariant
            n == pages@.len(),
            numbers@ == pages@.take(i as int).map_values(|page: (u32, (u32, u16))| page.0),
    {
        numbers.push(pages[i].0);
        assert(numbers@ =~= pages@.take(i + 1).map_values(|page: (u32, (u32, u16))| page.0));
    }
    assert(pages@.take(n as int) == pages@);
    numbers
}

/// The identifiers of the leading pages, one for each page, in order.
pub fn leading_page_ids(pages: &[(u32, (u32, u16))]) -> (r: Vec<(u32, u16)>)
    ensures
        r@ == seqs::at_most(
            pages@.map_values(|page: (u32, (u32, u16))| page.1),
            MAX_PDF_IMAGE_PAGES as nat,
        ),
{
    let mut ids: Vec<(u32, u16)> = Vec::new();
    let n: usize = if pages.len() <= MAX_PDF_IMAGE_PAGES {
        pages.len()
    } else {
        MAX_PDF_IMAGE_PAGES
    };
    for i in 0..n
        invariant
            n <= pages@.len(),
            ids@ == pages@.take(i as int).map_values(|page: (u32, (u32, u16))| page.1),
    {
        ids.push(pages[i].1);
        assert(ids@ =~= pages@.take(i + 1).map_values(|page: (u32, (u32, u16))| page.1));
    }
    assert(ids@ =~= seqs::at_most(
        pages@.map_values(|page: (u32, (u32, u16))| page.1),
        MAX_PDF_IMAGE_PAGES as nat,
    ));
    ids
}

/// The text of a document. The text of the pages that `page_numbers` names is
/// asked for, all of them, and `settle_pdf_text` says what comes of it. No clause
/// is stated of the result: every text, and either error, can come of a document.
pub fn extract_pdf_text(bytes: &[u8]) -> (r: Result<String, PdfTextError>) {
    let document = match load_document(bytes) {
        None => {
            return settle_pdf_text(None, None);
        },
        Some(document) => document,
    };
    let pages = document_pages(&document);
    if pages.len() == 0 {
        return settle_pdf_text(Some(0), None);
    }
    let numbers = page_numbers(pages.as_slice());
    settle_pdf_text(Some(pages.len()), document_text(&document, numbers.as_slice()))
}

/// The image is held as plain JPEG data.
pub open spec fn is_jpeg(image: PdfImageModel) -> bool {
    image.filters == seq!["DCTDecode"@]
}

/// The contents of the JPEG images among `images`, in order.
pub open spec fn jpeg_contents(images: Seq<PdfImageModel>) -> Seq<Seq<u8>>
    decreases images.len(),
{
    if images.len() == 0 {
        Seq::empty()
    } else {
        let before = jpeg_contents(images.drop_last());
        if is_jpeg(images.last()) {
            before.push(images.last().content)
        } else {
            before
        }
    }
}

/// The JPEG images on the pages, page by page; a page whose images cannot be
/// read gives none.
pub open spec fn page_jpegs(pages: Seq<Option<Seq<PdfImageModel>>>) -> Seq<Seq<u8>>
    decreases pages.len(),
{
    if pages.len() == 0 {
        Seq::empty()
    } else {
        let before = page_jpegs(pages.drop_last());
        match pages.last() {
            None => before,
            Some(images) => before + jpeg_contents(images),
        }
    }
}

/// The JPEG images on the leading pages.
pub open spec fn leading_jpegs(pages: Seq<Option<Seq<PdfImageModel>>>) -> Seq<Seq<u8>> {
    page_jpegs(seqs::at_most(pages, MAX_PDF_IMAGE_PAGES as nat))
}

#[derive(Clone, Debug)]
pub struct PdfPageImage {
    pub data: Vec<u8>,
    pub media_type: String,
}

/// What an image on a page is to a model.
pub struct PageImageModel {
    pub data: Seq<u8>,
    pub media_type: Seq<char>,
}

impl View for PdfPageImage {
    type V = PageImageModel;

    open spec fn view(&self) -> PageImageModel {
        PageImageModel { data: self.data@, media_type: self.media_type@ }
    }
}

pub open spec fn page_image_models(s: Seq<PdfPageImage>) -> Seq<PageImageModel> {
    Seq::new(s.len(), |i: int| s[i]@)
}

/// The images as JPEG.
pub open spec fn as_jpegs(data: Seq<Seq<u8>>) -> Seq<PageImageModel> {
    Seq::new(data.len(), |i: int| PageImageModel { data: data[i], media_type: "image/jpeg"@ })
}

pub open spec fn image_data(s: Seq<PdfPageImage>) -> Seq<Seq<u8>> {
    Seq::new(s.len(), |i: int| s[i].data@)
}

pub open spec fn all_jpeg(s: Seq<PdfPageImage>) -> bool {
    forall|i: int| 0 <= i < s.len() ==> (#[trigger] s[i]).media_type@ == "image/jpeg"@
}

fn copy_bytes(s: &Vec<u8>) -> (r: Vec<u8>)
    ensures
        r@ == s@,
{
    let mut out: Vec<u8> = Vec::new();
    let n: usize = s.len();
    for i in 0..n
        invariant
            n == s@.len(),
            out@ == s@.take(i as int),
    {
        out.push(s[i]);
        assert(s@.take(i + 1) == s@.take(i as int).push(s@[i as int]));
    }
    assert(s@.take(n as int) == s@);
    out
}

/// Adds the JPEG images among `images` to those collected.
pub fn collect_jpegs(images: &[PdfImage], out: &mut Vec<PdfPageImage>)
    ensures
        image_data(final(out)@) == image_data(old(out)@) + jpeg_contents(image_models(images@)),
        old(out)@.len() <= final(out)@.len(),
        final(out)@.take(old(out)@.len() as int) == old(out)@,
        all_jpeg(final(out)@.skip(old(out)@.len() as int)),
{
    let ghost start = image_data(out@);
    let ghost held = out@;
    let ghost all = image_models(images@);
    let n: usize = images.len();
    assert(start + jpeg_contents(all.take(0)) == start);
    for i in 0..n
        invariant
            n == images@.len(),
            all == image_models(images@),
            held.len() <= out@.len(),
            out@.take(held.len() as int) == held,
            all_jpeg(out@.skip(held.len() as int)),
            image_data(out@) == start + jpeg_contents(all.take(i as int)),
    {
        assert(all.take(i + 1).drop_last() == all.take(i as int));
        assert(all.take(i + 1).last() == images@[i as int]@);
        let single = images[i].filters.len() == 1 && text::same_text(
            images[i].filters[0].as_str(),
            "DCTDecode",
        );
        proof {
            let filters = text::views(images@[i as int].filters@);
            if single {
                assert(filters =~= seq!["DCTDecode"@]);
            } else if is_jpeg(all[i as int]) {
                assert(filters.len() == 1);
                assert(filters[0] == "DCTDecode"@);
            }
        }
        if single {
            let ghost before = image_data(out@);
            let image = PdfPageImage {
                data: copy_bytes(&images[i].content),
                media_type: "image/jpeg".to_owned(),
            };
            let ghost earlier = out@;
            out.push(image);
            assert(out@.take(held.len() as int) =~= earlier.take(held.len() as int));
            assert(out@.skip(held.len() as int) =~= earlier.skip(held.len() as int).push(image));
            assert(image_data(out@) == before.push(all[i as int].content));
            assert(start + jpeg_contents(all.take(i + 1)) == (start + jpeg_contents(
                all.take(i as int),
            )).push(all[i as int].content));
        }
    }
    assert(all.take(n as int) == all);
}

/// The JPEG images among the images of the pages, of the leading pages alone.
pub fn leading_page_images(pages: &[Option<Vec<PdfImage>>]) -> (r: Vec<PdfPageImage>)
    ensures
        page_image_models(r@) == as_jpegs(leading_jpegs(page_models(pages@))),
{
    let mut out: Vec<PdfPageImage> = Vec::new();
    let n: usize = if pages.len() <= MAX_PDF_IMAGE_PAGES {
        pages.len()
    } else {
        MAX_PDF_IMAGE_PAGES
    };
    let ghost all = page_models(pages@);
    assert(image_data(out@) == page_jpegs(all.take(0)));
    for i in 0..n
        invariant
            n <= pages@.len(),
            all == page_models(pages@),
            image_data(out@) == page_jpegs(all.take(i as int)),
            all_jpeg(out@),
    {
        assert(all.take(i + 1).drop_last() == all.take(i as int));
        assert(all.take(i + 1).last() == opt_images(pages@[i as int]));
        match &pages[i] {
            None => {},
            Some(images) => {
                let ghost held = out@;
                collect_jpegs(images.as_slice(), &mut out);
                assert forall|k: int| 0 <= k < out@.len() implies (
                #[trigger] out@[k]).media_type@ == "image/jpeg"@ by {
                    if k < held.len() {
                        assert(out@.take(held.len() as int)[k] == out@[k]);
                    } else {
                        assert(out@.skip(held.len() as int)[k - held.len()] == out@[k]);
                    }
                }
            },
        }
    }
    proof {
        assert(all.take(all.len() as int) == all);
        let data = image_data(out@);
        assert(data == leading_jpegs(all));
        assert forall|k: int| 0 <= k < out@.len() implies (#[trigger] page_image_models(out@)[k])
            == as_jpegs(data)[k] by {
            assert(out@[k].media_type@ == "image/jpeg"@);
        }
        assert(page_image_models(out@) =~= as_jpegs(data));
    }
    out
}

/// The JPEG images on the leading pages of a document. The images of the pages
/// that `leading_page_ids` names are asked for, page by page, and
/// `leading_page_images` says what comes of them. What is stated holds of every
/// document: the images are those that it takes of some pages, and JPEG images.
pub fn extract_pdf_page_images(bytes: &[u8]) -> (r: Vec<PdfPageImage>)
    ensures
        exists|pages: Seq<Option<Seq<PdfImageModel>>>|
            pages.len() <= MAX_PDF_IMAGE_PAGES && page_image_models(r@) == as_jpegs(
                #[trigger] leading_jpegs(pages),
            ),
{
    let mut found: Vec<Option<Vec<PdfImage>>> = Vec::new();
    match load_document(bytes) {
        None => {},
        Some(document) => {
            let ids = leading_page_ids(document_pages(&document).as_slice());
            let n: usize = ids.len();
            for i in 0..n
                invariant
                    n == ids@.len(),
                    n <= MAX_PDF_IMAGE_PAGES,
                    found@.len() == i,
            {
                found.push(page_images(&document, ids[i]));
            }
        },
    }
    assert(page_models(found@).len() <= MAX_PDF_IMAGE_PAGES);
    leading_page_images(found.as_slice())
}

/// What was read of a document: its text, and the images on its pages where they
/// are needed.
#[derive(Clone, Debug)]
pub struct PdfReading {
    pub text: Option<String>,
    pub images: Vec<PdfPageImage>,
}

/// What a reading says.
pub struct PdfModel {
    pub text: Option<Seq<char>>,
    pub images: Seq<PageImageModel>,
}

impl View for PdfReading {
    type V = PdfModel;

    open spec fn view(&self) -> PdfModel {
        PdfModel { text: text::opt_view(self.text), images: page_image_models(self.images@) }
    }
}

/// A reading as it can come of the base64 text of a file: nothing is read where
/// the text holds no bytes, images are read only where the text is of no use, and
/// they are JPEG images.
pub open spec fn possible_reading(url: Seq<char>, reading: PdfModel) -> bool {
    &&& base64_text::decoded(url) is None ==> reading.text is None && reading.images.len() == 0
    &&& usable(reading.text) is Some ==> reading.images.len() == 0
    &&& forall|i: int|
        0 <= i < reading.images.len() ==> (#[trigger] reading.images[i]).media_type
            == "image/jpeg"@
}

/// The text as it can come of the base64 text of a file: none where that holds
/// no bytes.
pub open spec fn possible_text(url: Seq<char>, found: Option<Seq<char>>) -> bool {
    base64_text::decoded(url) is None ==> found is None
}

// Fragments of a prompt

pub open spec fn fragment_text(label: Seq<char>, mime: Seq<char>, body: Seq<char>) -> Seq<char> {
    "<attachment name=\""@ + label + "\" type=\""@ + mime + "\">\n"@ + body + "\n</attachment>"@
}

pub fn render_fragment(label: &str, mime: &str, body: &str) -> (r: String)
    ensures
        r@ == fragment_text(label@, mime@, body@),
{
    let mut out = "<attachment name=\"".to_owned();
    out.append(label);
    out.append("\" type=\"");
    out.append(mime);
    out.append("\">\n");
    out.append(body);
    out.append("\n</attachment>");
    out
}

/// What a prompt says of an attachment whose text was found or not.
pub open spec fn body_text(found: Option<Seq<char>>) -> Seq<char> {
    match found {
        Some(t) => limited_text(t),
        None => "[binary attachment uploaded; automatic text extraction unavailable]"@,
    }
}

pub fn fragment_body(found: Option<String>) -> (r: String)
    ensures
        r@ == body_text(text::opt_view(found)),
{
    match found {
        Some(t) => truncate_attachment_text(t.as_str()),
        None => "[binary attachment uploaded; automatic text extraction unavailable]".to_owned(),
    }
}

pub open spec fn usable(found: Option<Seq<char>>) -> Option<Seq<char>> {
    match found {
        Some(t) => usable_text(t),
        None => None,
    }
}

/// The text that can be had from an attachment: of a text its characters, of a
/// portable document what was found of its text layer.
pub open spec fn attachment_text(
    mime: Seq<char>,
    url: Seq<char>,
    found: Option<Seq<char>>,
) -> Option<Seq<char>> {
    if text_mime(mime) {
        match base64_text::decoded(url) {
            None => None,
            Some(bytes) => usable(utf8_text(bytes)),
        }
    } else if mime == "application/pdf"@ {
        usable(found)
    } else {
        None
    }
}

fn trim_found(found: Option<String>) -> (r: Option<String>)
    ensures
        text::opt_view(r) == usable(text::opt_view(found)),
{
    match found {
        Some(t) => trim_attachment_text(t.as_str()),
        None => None,
    }
}

pub fn decode_attachment_bytes(attachment: &Attachment) -> (r: Option<Vec<u8>>)
    ensures
        base64_text::opt_bytes(r) == base64_text::decoded(attachment.url@),
{
    base64_text::decode(attachment.url.as_str())
}

/// What is found of the text layer of an attached portable document.
fn read_pdf_text(attachment: &Attachment) -> (r: Option<String>)
    ensures
        possible_text(attachment.url@, text::opt_view(r)),
{
    match decode_attachment_bytes(attachment) {
        None => None,
        Some(bytes) => extract_pdf_text(bytes.as_slice()).ok(),
    }
}

fn read_attachment_text(mime: &str, attachment: &Attachment, found: Option<String>) -> (r: Option<
    String,
>)
    ensures
        text::opt_view(r) == attachment_text(mime@, attachment.url@, text::opt_view(found)),
{
    if is_text_mime(mime) {
        match decode_attachment_bytes(attachment) {
            None => None,
            Some(bytes) => trim_found(text_from_utf8(bytes)),
        }
    } else if text::same_text(mime, "application/pdf") {
        trim_found(found)
    } else {
        None
    }
}

/// What a prompt says of an attachment; `found` is the text of a portable
/// document.
pub open spec fn attachment_fragment(attachment: Attachment, found: Option<Seq<char>>) -> Seq<
    char,
> {
    fragment_text(
        text_or(attachment.file_name, "attachment"@),
        mime_of(attachment),
        body_text(attachment_text(mime_of(attachment), attachment.url@, found)),
    )
}

pub fn fragment_with_text(attachment: &Attachment, found: Option<String>) -> (r: String)
    ensures
        r@ == attachment_fragment(*attachment, text::opt_view(found)),
{
    let mime = value_or(&attachment.mime_type, "application/octet-stream");
    let label = value_or(&attachment.file_name, "attachment");
    let body = fragment_body(read_attachment_text(mime, attachment, found));
    render_fragment(label, mime, body.as_str())
}

/// The text of an attachment as a document, where it is one.
fn document_text_of(attachment: &Attachment) -> (r: Option<String>)
    ensures
        possible_text(attachment.url@, text::opt_view(r)),
        mime_of(*attachment) != "application/pdf"@ ==> r is None,
{
    let mime = value_or(&attachment.mime_type, "application/octet-stream");
    if text::same_text(mime, "application/pdf") {
        read_pdf_text(attachment)
    } else {
        None
    }
}

/// What a prompt says of an attachment.
pub fn attachment_prompt_fragment(attachment: &Attachment) -> (r: Option<String>)
    ensures
        exists|found: Option<Seq<char>>|
            possible_text(attachment.url@, found) && text::opt_view(r) == Some(
                #[trigger] attachment_fragment(*attachment, found),
            ),
{
    Some(fragment_with_text(attachment, document_text_of(attachment)))
}

// Blocks of content

/// The blocks of images on pages.
pub open spec fn image_blocks(images: Seq<PageImageModel>) -> Seq<ContentModel> {
    images.map_values(
        |image: PageImageModel|
            ContentModel::Image(base64_text::base64_of(image.data), image.media_type),
    )
}

/// What is said before the page images of a document without a text.
pub open spec fn images_notice(text_was_read: bool, count: nat) -> Seq<char> {
    if text_was_read {
        "[Scanned PDF — "@ + text::decimal(count)
            + " page image(s) follow. Read and extract all text from these page images.]"@
    } else {
        "[PDF text extraction failed — "@ + text::decimal(count)
            + " page image(s) follow. Read and extract all text from these page images.]"@
    }
}

/// The blocks of a portable document that was read: its text where there is one
/// to use, else its page images; none where it has neither.
pub open spec fn pdf_blocks(label: Seq<char>, reading: PdfModel) -> Option<Seq<ContentModel>> {
    match usable(reading.text) {
        Some(t) => Some(
            seq![ContentModel::Text(fragment_text(label, "application/pdf"@, limited_text(t)))],
        ),
        None => if reading.images.len() == 0 {
            None
        } else {
            Some(
                seq![
                    ContentModel::Text(
                        fragment_text(
                            label,
                            "application/pdf"@,
                            images_notice(reading.text is Some, reading.images.len()),
                        ),
                    ),
                ] + image_blocks(reading.images),
            )
        },
    }
}

pub open spec fn opt_blocks(r: Option<Vec<ContentBlock>>) -> Option<Seq<ContentModel>> {
    match r {
        Some(blocks) => Some(messages::content_models(blocks@)),
        None => None,
    }
}

proof fn blocks_push(s: Seq<ContentBlock>, b: ContentBlock)
    ensures
        messages::content_models(s.push(b)) == messages::content_models(s).push(b@),
{
}

/// The blocks of the page images of a document without a text to use.
pub fn page_image_blocks(
    label: &str,
    text_was_read: bool,
    images: &[PdfPageImage],
) -> (r: Option<Vec<ContentBlock>>)
    ensures
        opt_blocks(r) == (if images@.len() == 0 {
            None
        } else {
            Some(
                seq![
                    ContentModel::Text(
                        fragment_text(
                            label@,
                            "application/pdf"@,
                            images_notice(text_was_read, images@.len()),
                        ),
                    ),
                ] + image_blocks(page_image_models(images@)),
            )
        }),
{
    if images.len() == 0 {
        return None;
    }
    let ghost all = image_blocks(page_image_models(images@));
    let mut notice = if text_was_read {
        "[Scanned PDF — ".to_owned()
    } else {
        "[PDF text extraction failed — ".to_owned()
    };
    notice.append(text::decimal_of(images.len() as u128).as_str());
    notice.append(" page image(s) follow. Read and extract all text from these page images.]");
    let head = ContentBlock::Text {
        text: render_fragment(label, "application/pdf", notice.as_str()),
    };
    let mut blocks: Vec<ContentBlock> = Vec::new();
    let ghost first = seq![head@];
    blocks.push(head);
    assert(messages::content_models(blocks@) == first);
    let n: usize = images.len();
    assert(first + all.take(0) == first);
    for i in 0..n
        invariant
            n == images@.len(),
            all == image_blocks(page_image_models(images@)),
            messages::content_models(blocks@) == first + all.take(i as int),
    {
        let block = ContentBlock::Image {
            data: base64_text::encode(images[i].data.as_slice()),
            media_type: images[i].media_type.clone(),
        };
        assert(block@ == all[i as int]);
        proof {
            blocks_push(blocks@, block);
        }
        blocks.push(block);
        assert(first + all.take(i + 1) == (first + all.take(i as int)).push(all[i as int]));
    }
    assert(all.take(n as int) == all);
    Some(blocks)
}

pub open spec fn pdf_label(attachment: Attachment) -> Seq<char> {
    text_or(attachment.file_name, "attachment.pdf"@)
}

pub fn pdf_content_blocks(label: &str, reading: &PdfReading) -> (r: Option<Vec<ContentBlock>>)
    ensures
        opt_blocks(r) == pdf_blocks(label@, reading@),
{
    let usable_part = match &reading.text {
        Some(t) => trim_attachment_text(t.as_str()),
        None => None,
    };
    match usable_part {
        Some(t) => {
            let body = truncate_attachment_text(t.as_str());
            let block = ContentBlock::Text {
                text: render_fragment(label, "application/pdf", body.as_str()),
            };
            let ghost said = block@;
            let mut blocks: Vec<ContentBlock> = Vec::new();
            blocks.push(block);
            assert(messages::content_models(blocks@) == seq![said]);
            Some(blocks)
        },
        None => {
            assert(page_image_models(reading.images@).len() == reading.images@.len());
            page_image_blocks(label, reading.text.is_some(), reading.images.as_slice())
        },
    }
}

/// Reads an attached portable document: its text, and its page images where the
/// text is of no use.
fn read_pdf(attachment: &Attachment) -> (r: PdfReading)
    ensures
        possible_reading(attachment.url@, r@),
{
    match decode_attachment_bytes(attachment) {
        None => PdfReading { text: None, images: Vec::new() },
        Some(bytes) => {
            let found = extract_pdf_text(bytes.as_slice()).ok();
            let has_text = match &found {
                Some(t) => trim_attachment_text(t.as_str()).is_some(),
                None => false,
            };
            let images = if has_text {
                Vec::new()
            } else {
                extract_pdf_page_images(bytes.as_slice())
            };
            PdfReading { text: found, images }
        },
    }
}

/// The blocks of an attached portable document.
pub fn build_pdf_content_blocks(attachment: &Attachment) -> (r: Option<Vec<ContentBlock>>)
    ensures
        exists|reading: PdfModel| #[trigger]
            possible_reading(attachment.url@, reading) && opt_blocks(r) == pdf_blocks(
                pdf_label(*attachment),
                reading,
            ),
{
    let label = value_or(&attachment.file_name, "attachment.pdf");
    let reading = read_pdf(attachment);
    let r = pdf_content_blocks(label, &reading);
    assert(possible_reading(attachment.url@, reading@));
    r
}

// Kinds of images

pub open spec fn starts_with_bytes(bytes: Seq<u8>, head: Seq<u8>) -> bool {
    head.len() <= bytes.len() && bytes.take(head.len() as int) == head
}

/// The type of an image by its first bytes.
pub open spec fn image_type(bytes: Seq<u8>) -> Option<Seq<char>> {
    if starts_with_bytes(bytes, seq![0x89u8, 0x50u8, 0x4eu8, 0x47u8]) {
        Some("image/png"@)
    } else if starts_with_bytes(bytes, seq![0xffu8, 0xd8u8, 0xffu8]) {
        Some("image/jpeg"@)
    } else if starts_with_bytes(bytes, seq![0x47u8, 0x49u8, 0x46u8, 0x38u8]) {
        Some("image/gif"@)
    } else if starts_with_bytes(bytes, seq![0x52u8, 0x49u8, 0x46u8, 0x46u8]) && bytes.len() >= 8 {
        Some("image/webp"@)
    } else {
        None
    }
}

pub fn sniff_image_bytes(bytes: &[u8]) -> (r: Option<String>)
    ensures
        text::opt_view(r) == image_type(bytes@),
{
    let n: usize = bytes.len();
    if n >= 4 && bytes[0] == 0x89 && bytes[1] == 0x50 && bytes[2] == 0x4e && bytes[3] == 0x47 {
        assert(bytes@.take(4) =~= seq![0x89u8, 0x50u8, 0x4eu8, 0x47u8]);
        return Some("image/png".to_owned());
    }
    assert(!starts_with_bytes(bytes@, seq![0x89u8, 0x50u8, 0x4eu8, 0x47u8])) by {
        if starts_with_bytes(bytes@, seq![0x89u8, 0x50u8, 0x4eu8, 0x47u8]) {
            let t = bytes@.take(4);
            assert(t[0] == 0x89 && t[1] == 0x50 && t[2] == 0x4e && t[3] == 0x47);
        }
    }
    if n >= 3 && bytes[0] == 0xff && bytes[1] == 0xd8 && bytes[2] == 0xff {
        assert(bytes@.take(3) =~= seq![0xffu8, 0xd8u8, 0xffu8]);
        return Some("image/jpeg".to_owned());
    }
    assert(!starts_with_bytes(bytes@, seq![0xffu8, 0xd8u8, 0xffu8])) by {
        if starts_with_bytes(bytes@, seq![0xffu8, 0xd8u8, 0xffu8]) {
            let t = bytes@.take(3);
            assert(t[0] == 0xff && t[1] == 0xd8 && t[2] == 0xff);
        }
    }
    if n >= 4 && bytes[0] == 0x47 && bytes[1] == 0x49 && bytes[2] == 0x46 && bytes[3] == 0x38 {
        assert(bytes@.take(4) =~= seq![0x47u8, 0x49u8, 0x46u8, 0x38u8]);
        return Some("image/gif".to_owned());
    }
    assert(!starts_with_bytes(bytes@, seq![0x47u8, 0x49u8, 0x46u8, 0x38u8])) by {
        if starts_with_bytes(bytes@, seq![0x47u8, 0x49u8, 0x46u8, 0x38u8]) {
            let t = bytes@.take(4);
            assert(t[0] == 0x47 && t[1] == 0x49 && t[2] == 0x46 && t[3] == 0x38);
        }
    }
    if n >= 8 && bytes[0] == 0x52 && bytes[1] == 0x49 && bytes[2] == 0x46 && bytes[3] == 0x46 {
        assert(bytes@.take(4) =~= seq![0x52u8, 0x49u8, 0x46u8, 0x46u8]);
        return Some("image/webp".to_owned());
    }
    assert(!(starts_with_bytes(bytes@, seq![0x52u8, 0x49u8, 0x46u8, 0x46u8]) && n >= 8)) by {
        if starts_with_bytes(bytes@, seq![0x52u8, 0x49u8, 0x46u8, 0x46u8]) && n >= 8 {
            let t = bytes@.take(4);
            assert(t[0] == 0x52 && t[1] == 0x49 && t[2] == 0x46 && t[3] == 0x46);
        }
    }
    None
}

/// The characters of a base64 text that are enough to tell the type of an image.
pub const SNIFFED_CHARS: usize = 16;

pub open spec fn all_ascii(s: Seq<char>) -> bool {
    forall|i: int| 0 <= i < s.len() ==> (#[trigger] s[i]) as u32 <= 0x7f
}

/// The type of an image by the start of its base64 text.
pub open spec fn sniffed_type(url: Seq<char>) -> Option<Seq<char>> {
    let head = text::take_at_most(url, SNIFFED_CHARS as nat);
    if !all_ascii(head) {
        None
    } else {
        match base64_text::decoded(head) {
            None => None,
            Some(bytes) => image_type(bytes),
        }
    }
}

pub fn sniff_image_mime_from_base64(url: &str) -> (r: Option<String>)
    ensures
        text::opt_view(r) == sniffed_type(url@),
{
    let chars = text::chars_of(url);
    let head = text::take_chars(chars.as_slice(), SNIFFED_CHARS);
    let n: usize = head.len();
    for i in 0..n
        invariant
            n == head@.len(),
            head@ == text::take_at_most(url@, SNIFFED_CHARS as nat),
            forall|k: int| 0 <= k < i ==> (#[trigger] head@[k]) as u32 <= 0x7f,
    {
        if head[i] as u32 > 0x7f {
            assert(!all_ascii(head@));
            return None;
        }
    }
    match base64_text::decode(text::string_of(head).as_str()) {
        None => None,
        Some(bytes) => sniff_image_bytes(bytes.as_slice()),
    }
}

/// The type of an attached image: as it was declared, else as its bytes tell,
/// else JPEG.
pub open spec fn image_mime(attachment: Attachment) -> Seq<char> {
    match attachment.mime_type {
        Some(mime) => mime@,
        None => match sniffed_type(attachment.url@) {
            Some(mime) => mime,
            None => "image/jpeg"@,
        },
    }
}

/// The blocks of one attachment; `reading` is what was read of a portable
/// document.
pub open spec fn attachment_content(attachment: Attachment, reading: PdfModel) -> Seq<
    ContentModel,
> {
    if attachment.kind == AttachmentKind::Image {
        seq![ContentModel::Image(attachment.url@, image_mime(attachment))]
    } else if mime_of(attachment) == "application/pdf"@ && pdf_blocks(
        pdf_label(attachment),
        reading,
    ) is Some {
        pdf_blocks(pdf_label(attachment), reading)->0
    } else {
        seq![ContentModel::Text(attachment_fragment(attachment, reading.text))]
    }
}

pub open spec fn reading_models(s: Seq<PdfReading>) -> Seq<PdfModel> {
    Seq::new(s.len(), |i: int| s[i]@)
}

/// The blocks of attachments, each with what was read of it.
pub open spec fn attachments_content(attachments: Seq<Attachment>, readings: Seq<PdfModel>) -> Seq<
    ContentModel,
>
    decreases attachments.len(),
{
    if attachments.len() == 0 {
        Seq::empty()
    } else {
        attachments_content(attachments.drop_last(), readings) + attachment_content(
            attachments.last(),
            readings[attachments.len() - 1],
        )
    }
}

fn copy_text(s: &Option<String>) -> (r: Option<String>)
    ensures
        text::opt_view(r) == text::opt_view(*s),
{
    match s {
        Some(t) => Some(t.clone()),
        None => None,
    }
}

/// The blocks of an attachment of which `reading` was read.
pub fn content_with_reading(attachment: &Attachment, reading: &PdfReading) -> (r: Vec<ContentBlock>)
    ensures
        messages::content_models(r@) == attachment_content(*attachment, reading@),
{
    let mut blocks: Vec<ContentBlock> = Vec::new();
    if attachment.kind == AttachmentKind::Image {
        let media_type = match &attachment.mime_type {
            Some(mime) => mime.clone(),
            None => match sniff_image_mime_from_base64(attachment.url.as_str()) {
                Some(mime) => mime,
                None => "image/jpeg".to_owned(),
            },
        };
        let block = ContentBlock::Image { data: attachment.url.clone(), media_type };
        let ghost said = block@;
        blocks.push(block);
        assert(messages::content_models(blocks@) == seq![said]);
        return blocks;
    }
    let mime = value_or(&attachment.mime_type, "application/octet-stream");
    if text::same_text(mime, "application/pdf") {
        let label = value_or(&attachment.file_name, "attachment.pdf");
        match pdf_content_blocks(label, reading) {
            Some(pdf) => {
                return pdf;
            },
            None => {},
        }
    }
    let block = ContentBlock::Text {
        text: fragment_with_text(attachment, copy_text(&reading.text)),
    };
    let ghost said = block@;
    blocks.push(block);
    assert(messages::content_models(blocks@) == seq![said]);
    blocks
}

/// The blocks of attachments of which `readings` were read, in order.
pub fn content_with_readings(attachments: &[Attachment], readings: &[PdfReading]) -> (r: Vec<
    ContentBlock,
>)
    requires
        attachments@.len() == readings@.len(),
    ensures
        messages::content_models(r@) == attachments_content(
            attachments@,
            reading_models(readings@),
        ),
{
    let mut blocks: Vec<ContentBlock> = Vec::new();
    let n: usize = attachments.len();
    let ghost models = reading_models(readings@);
    assert(messages::content_models(blocks@) == attachments_content(attachments@.take(0), models));
    for i in 0..n
        invariant
            n == attachments@.len(),
            n == readings@.len(),
            models == reading_models(readings@),
            messages::content_models(blocks@) == attachments_content(
                attachments@.take(i as int),
                models,
            ),
    {
        assert(attachments@.take(i + 1).drop_last() == attachments@.take(i as int));
        let ghost before = blocks@;
        let mut more = content_with_reading(&attachments[i], &readings[i]);
        let ghost added = more@;
        blocks.append(&mut more);
        assert(messages::content_models(before + added) == messages::content_models(before)
            + messages::content_models(added));
    }
    assert(attachments@.take(n as int) == attachments@);
    blocks
}

/// Readings as they can come of attachments.
pub open spec fn possible_readings(attachments: Seq<Attachment>, readings: Seq<PdfModel>) -> bool {
    &&& readings.len() == attachments.len()
    &&& forall|i: int|
        0 <= i < attachments.len() ==> #[trigger] possible_reading(
            attachments[i].url@,
            readings[i],
        )
}

/// Reads an attachment, where it is a portable document.
fn read_if_document(attachment: &Attachment) -> (r: PdfReading)
    ensures
        possible_reading(attachment.url@, r@),
{
    let mime = value_or(&attachment.mime_type, "application/octet-stream");
    if attachment.kind != AttachmentKind::Image && text::same_text(mime, "application/pdf") {
        read_pdf(attachment)
    } else {
        PdfReading { text: None, images: Vec::new() }
    }
}

/// The blocks of the attachments, in order.
pub fn build_attachment_blocks(attachments: &[Attachment]) -> (r: Vec<ContentBlock>)
    ensures
        exists|readings: Seq<PdfModel>| #[trigger]
            possible_readings(attachments@, readings) && messages::content_models(r@)
                == attachments_content(attachments@, readings),
{
    let mut readings: Vec<PdfReading> = Vec::new();
    let n: usize = attachments.len();
    for i in 0..n
        invariant
            n == attachments@.len(),
            readings@.len() == i,
            forall|k: int|
                0 <= k < i ==> #[trigger] possible_reading(attachments@[k].url@, readings@[k]@),
    {
        readings.push(read_if_document(&attachments[i]));
    }
    assert(possible_readings(attachments@, reading_models(readings@))) by {
        let models = reading_models(readings@);
        assert forall|k: int| 0 <= k < attachments@.len() implies #[trigger] possible_reading(
            attachments@[k].url@,
            models[k],
        ) by {
            assert(possible_reading(attachments@[k].url@, readings@[k]@));
        }
    }
    content_with_readings(attachments, readings.as_slice())
}

/// The fragments of the attachments that are no images, in order, each with the
/// text that was found of a portable document.
pub open spec fn fragments(attachments: Seq<Attachment>, found: Seq<Option<Seq<char>>>) -> Seq<
    Seq<char>,
>
    decreases attachments.len(),
{
    if attachments.len() == 0 {
        Seq::empty()
    } else {
        let before = fragments(attachments.drop_last(), found);
        if attachments.last().kind == AttachmentKind::Image {
            before
        } else {
            before.push(attachment_fragment(attachments.last(), found[attachments.len() - 1]))
        }
    }
}

/// What the transcript says of a message: its text and the fragments of its
/// attachments, with empty lines between them.
pub open spec fn session_text(
    user_text: Seq<char>,
    attachments: Seq<Attachment>,
    found: Seq<Option<Seq<char>>>,
) -> Seq<char> {
    text::joined(seq![user_text] + fragments(attachments, found), "\n\n"@)
}

pub open spec fn opt_views(s: Seq<Option<String>>) -> Seq<Option<Seq<char>>> {
    Seq::new(s.len(), |i: int| text::opt_view(s[i]))
}

/// The transcript's text where `found` was found of the attachments.
pub fn session_text_with(
    user_text: &str,
    attachments: &[Attachment],
    found: &[Option<String>],
) -> (r: String)
    requires
        attachments@.len() == found@.len(),
    ensures
        r@ == session_text(user_text@, attachments@, opt_views(found@)),
{
    let mut parts: Vec<String> = Vec::new();
    parts.push(user_text.to_owned());
    let ghost first = seq![user_text@];
    let ghost texts = opt_views(found@);
    assert(text::views(parts@) == first);
    let n: usize = attachments.len();
    assert(first + fragments(attachments@.take(0), texts) == first);
    for i in 0..n
        invariant
            n == attachments@.len(),
            n == found@.len(),
            texts == opt_views(found@),
            text::views(parts@) == first + fragments(attachments@.take(i as int), texts),
    {
        assert(attachments@.take(i + 1).drop_last() == attachments@.take(i as int));
        if attachments[i].kind != AttachmentKind::Image {
            let fragment = fragment_with_text(&attachments[i], copy_text(&found[i]));
            proof {
                text::views_push(parts@, fragment);
            }
            parts.push(fragment);
            assert(first + fragments(attachments@.take(i + 1), texts) == (first + fragments(
                attachments@.take(i as int),
                texts,
            )).push(fragment@));
        }
    }
    assert(attachments@.take(n as int) == attachments@);
    text::join(parts.as_slice(), "\n\n")
}

/// Texts as they can come of attachments.
pub open spec fn possible_texts(
    attachments: Seq<Attachment>,
    found: Seq<Option<Seq<char>>>,
) -> bool {
    &&& found.len() == attachments.len()
    &&& forall|i: int|
        0 <= i < attachments.len() ==> #[trigger] possible_text(attachments[i].url@, found[i])
}

/// What the transcript says of a message.
pub fn build_session_text(user_text: &str, attachments: &[Attachment]) -> (r: String)
    ensures
        exists|found: Seq<Option<Seq<char>>>| #[trigger]
            possible_texts(attachments@, found) && r@ == session_text(
                user_text@,
                attachments@,
                found,
            ),
{
    let mut found: Vec<Option<String>> = Vec::new();
    let n: usize = attachments.len();
    for i in 0..n
        invariant
            n == attachments@.len(),
            found@.len() == i,
            forall|k: int|
                0 <= k < i ==> #[trigger] possible_text(
                    attachments@[k].url@,
                    text::opt_view(found@[k]),
                ),
    {
        let read = if attachments[i].kind == AttachmentKind::Image {
            None
        } else {
            document_text_of(&attachments[i])
        };
        found.push(read);
    }
    assert(possible_texts(attachments@, opt_views(found@))) by {
        let texts = opt_views(found@);
        assert forall|k: int| 0 <= k < attachments@.len() implies #[trigger] possible_text(
            attachments@[k].url@,
            texts[k],
        ) by {
            assert(possible_text(attachments@[k].url@, text::opt_view(found@[k])));
        }
    }
    session_text_with(user_text, attachments, found.as_slice())
}

/// The text of an attachment takes no more characters than allowed, but for the
/// note of the cut, and begins as the text does.
pub proof fn attachment_text_is_limited(s: Seq<char>)
    ensures
        limited_text(s).len() <= MAX_ATTACHMENT_TEXT_CHARS
            + "\n\n[attachment text truncated after 12000 characters]"@.len(),
        text::take_at_most(limited_text(s), MAX_ATTACHMENT_TEXT_CHARS as nat)
            == text::take_at_most(s, MAX_ATTACHMENT_TEXT_CHARS as nat),
{
}

/// What is used of a text has no blank ends and no null character.
pub proof fn usable_text_is_clean(s: Seq<char>)
    ensures
        usable_text(s) matches Some(t) ==> {
            &&& t.len() > 0
            &&& text::trim(t) == t
            &&& forall|i: int| 0 <= i < t.len() ==> #[trigger] t[i] != '\u{0}'
        },
{
    let keep = |c: char| c != '\u{0}';
    let kept = without_nul(s);
    assert(kept == s.filter(keep));
    let t = text::trim(kept);
    text::trim_idempotent(kept);
    text::trim_is_part(kept);
    assert forall|i: int| 0 <= i < t.len() implies #[trigger] t[i] != '\u{0}' by {
        let from = choose|from: int|
            0 <= from <= kept.len() - t.len() && #[trigger] kept.subrange(from, from + t.len()) == t;
        seqs::filter_sound(s, keep, from + i);
        assert(t[i] == kept[from + i]);
    }
}

// What becomes of attachments

/// A text that fits is not cut, and a longer one is cut after 12000 characters,
/// with a note.
pub proof fn texts_that_fit_are_not_cut(s: Seq<char>)
    ensures
        s.len() <= 12000 ==> limited_text(s) == s,
        s.len() > 12000 ==> limited_text(s) == s.take(12000)
            + "\n\n[attachment text truncated after 12000 characters]"@,
{
}

/// A text is used as it is, without the white space around it; one that is blank
/// is of no use.
pub proof fn texts_are_used_as_they_are(a: Seq<char>, t: Seq<char>, b: Seq<char>)
    requires
        forall|i: int| 0 <= i < a.len() ==> text::whitespace(#[trigger] a[i]),
        forall|i: int| 0 <= i < b.len() ==> text::whitespace(#[trigger] b[i]),
        t.len() > 0,
        !text::whitespace(t[0]),
        !text::whitespace(t.last()),
        forall|i: int| 0 <= i < t.len() ==> #[trigger] t[i] != '\u{0}',
    ensures
        usable(Some(a + t + b)) == Some(t),
        usable(None) is None,
{
    let s = a + t + b;
    let keep = |c: char| c != '\u{0}';
    assert forall|i: int| 0 <= i < s.len() implies keep(#[trigger] s[i]) by {
        if i < a.len() {
            assert(text::whitespace(a[i]));
        } else if i < a.len() + t.len() {
            assert(s[i] == t[i - a.len()]);
        } else {
            assert(text::whitespace(b[i - a.len() - t.len()]));
        }
    }
    seqs::filter_keeps_all(s, keep);
    text::trim_of_padded(a, t, b);
}

/// Of a text the characters of its bytes are had, whatever else was found; of a
/// portable document what was found of its text; of anything else nothing.
pub proof fn texts_come_from_where_they_are(
    mime: Seq<char>,
    bytes: Seq<u8>,
    found: Option<Seq<char>>,
)
    ensures
        text_mime(mime) && vstd::utf8::valid_utf8(bytes) ==> attachment_text(
            mime,
            base64_text::base64_of(bytes),
            found,
        ) == usable(Some(vstd::utf8::decode_utf8(bytes))),
        text_mime(mime) && !vstd::utf8::valid_utf8(bytes) ==> attachment_text(
            mime,
            base64_text::base64_of(bytes),
            found,
        ) is None,
        mime == "application/pdf"@ ==> attachment_text(mime, base64_text::base64_of(bytes), found)
            == usable(found),
        !text_mime(mime) && mime != "application/pdf"@ ==> attachment_text(
            mime,
            base64_text::base64_of(bytes),
            found,
        ) is None,
{
    base64_text::decoding_undoes_encoding(bytes);
    reveal_strlit("application/pdf");
    reveal_strlit("text/");
    reveal_strlit("application/json");
    reveal_strlit("application/xml");
    reveal_strlit("application/javascript");
    reveal_strlit("application/x-yaml");
    reveal_strlit("application/yaml");
    reveal_strlit("application/toml");
    reveal_strlit("application/x-sh");
    if mime == "application/pdf"@ {
        if text::starts_with(mime, "text/"@) {
            assert(mime.take(5)[0] == mime[0]);
            assert("text/"@[0] == 't');
        }
        assert(mime[12] == 'p');
        assert("application/xml"@[12] == 'x');
    }
}

/// Every type of text is a text, and so are the types of data that are written as
/// text.
pub proof fn types_of_text(rest: Seq<char>, mime: Seq<char>)
    ensures
        text_mime("text/"@ + rest),
        mime == "application/json"@ || mime == "application/xml"@ || mime
            == "application/javascript"@ || mime == "application/x-yaml"@ || mime
            == "application/yaml"@ || mime == "application/toml"@ || mime == "application/x-sh"@
            ==> text_mime(mime),
        !text_mime("image/"@ + rest),
{
    reveal_strlit("text/");
    reveal_strlit("image/");
    assert(("text/"@ + rest).take(5) =~= "text/"@);
    let image = "image/"@ + rest;
    assert(image[0] == 'i');
    if text::starts_with(image, "text/"@) {
        assert(image.take(5)[0] == image[0]);
        assert("text/"@[0] == 't');
    }
    reveal_strlit("application/json");
    reveal_strlit("application/xml");
    reveal_strlit("application/javascript");
    reveal_strlit("application/x-yaml");
    reveal_strlit("application/yaml");
    reveal_strlit("application/toml");
    reveal_strlit("application/x-sh");
    assert("application/json"@[0] == 'a' && "application/xml"@[0] == 'a');
    assert("application/javascript"@[0] == 'a' && "application/x-yaml"@[0] == 'a');
    assert("application/yaml"@[0] == 'a' && "application/toml"@[0] == 'a');
    assert("application/x-sh"@[0] == 'a');
}

/// A fragment tells the name, the type and the body of an attachment, in this
/// order, inside a pair of marks.
pub proof fn fragments_tell_all(label: Seq<char>, mime: Seq<char>, body: Seq<char>)
    ensures
        text::starts_with(fragment_text(label, mime, body), "<attachment name=\""@ + label),
        text::contains(fragment_text(label, mime, body), "\" type=\""@ + mime + "\">\n"@),
        text::ends_with(fragment_text(label, mime, body), "\">\n"@ + body + "\n</attachment>"@),
{
    let s = fragment_text(label, mime, body);
    let a = "<attachment name=\""@ + label;
    let b = "\" type=\""@ + mime + "\">\n"@;
    let c = "\">\n"@ + body + "\n</attachment>"@;
    assert(s.take(a.len() as int) =~= a);
    text::middle_occurs(a, b, body + "\n</attachment>"@);
    assert(a + b + (body + "\n</attachment>"@) =~= s);
    assert(s.skip(s.len() - c.len()) =~= c);
}

/// A portable document comes as its text where that is of use, and then as that
/// alone; else as a notice and every page image, with its data and its type; and
/// it comes as nothing only where there is neither.
pub proof fn documents_come_as_text_or_images(label: Seq<char>, reading: PdfModel, i: int)
    ensures
        pdf_blocks(label, reading) is None <==> usable(reading.text) is None
            && reading.images.len() == 0,
        usable(reading.text) matches Some(t) ==> pdf_blocks(label, reading) is Some && (pdf_blocks(
            label,
            reading,
        )->0).len() == 1 && match (pdf_blocks(label, reading)->0)[0] {
            ContentModel::Text(said) => text::contains(said, limited_text(t)) && text::contains(
                said,
                label,
            ),
            _ => false,
        },
        usable(reading.text) is None && reading.images.len() > 0 ==> {
            let blocks = pdf_blocks(label, reading)->0;
            &&& blocks.len() == reading.images.len() + 1
            &&& blocks[0] is Text
            &&& 0 <= i < reading.images.len() ==> blocks[i + 1] == ContentModel::Image(
                base64_text::base64_of(reading.images[i].data),
                reading.images[i].media_type,
            )
        },
{
    match usable(reading.text) {
        Some(t) => {
            let body = limited_text(t);
            let said = fragment_text(label, "application/pdf"@, body);
            let a = "<attachment name=\""@;
            let b = "\" type=\""@ + "application/pdf"@ + "\">\n"@;
            let c = "\n</attachment>"@;
            text::middle_occurs(a, label, b + body + c);
            assert(a + label + (b + body + c) =~= said);
            text::middle_occurs(a + label + b, body, c);
            assert(a + label + b + body + c =~= said);
        },
        None => {},
    }
}

/// The notice before page images tells how many they are, and whether a text was
/// read.
pub proof fn notices_tell_how_many(count: nat)
    ensures
        text::contains(images_notice(true, count), text::decimal(count) + " page image(s)"@),
        text::contains(images_notice(false, count), text::decimal(count) + " page image(s)"@),
        text::starts_with(images_notice(true, count), "[Scanned PDF"@),
        text::starts_with(images_notice(false, count), "[PDF text extraction failed"@),
{
    reveal_strlit(" page image(s)");
    reveal_strlit(" follow. Read and extract all text from these page images.]");
    reveal_strlit(
        " page image(s) follow. Read and extract all text from these page images.]",
    );
    reveal_strlit("[Scanned PDF — ");
    reveal_strlit("[Scanned PDF");
    reveal_strlit("[PDF text extraction failed — ");
    reveal_strlit("[PDF text extraction failed");
    let told = text::decimal(count) + " page image(s)"@;
    let rest = " follow. Read and extract all text from these page images.]"@;
    let whole = " page image(s) follow. Read and extract all text from these page images.]"@;
    assert(" page image(s)"@ + rest =~= whole);
    let scanned = images_notice(true, count);
    text::middle_occurs("[Scanned PDF — "@, told, rest);
    assert("[Scanned PDF — "@ + told + rest =~= scanned);
    assert(scanned.take(12) =~= "[Scanned PDF"@);
    let failed = images_notice(false, count);
    text::middle_occurs("[PDF text extraction failed — "@, told, rest);
    assert("[PDF text extraction failed — "@ + told + rest =~= failed);
    assert(failed.take(27) =~= "[PDF text extraction failed"@);
}

/// The JPEG images of two lots of images stand one behind the other; an image
/// counts where JPEG is its one filter, and then with its content.
pub proof fn jpegs_are_taken_in_order(a: Seq<PdfImageModel>, b: Seq<PdfImageModel>)
    ensures
        jpeg_contents(a + b) == jpeg_contents(a) + jpeg_contents(b),
        a.len() == 1 && a[0].filters == seq!["DCTDecode"@] ==> jpeg_contents(a) == seq![
            a[0].content,
        ],
        a.len() == 1 && a[0].filters != seq!["DCTDecode"@] ==> jpeg_contents(a).len() == 0,
    decreases b.len(),
{
    if b.len() == 0 {
        assert(a + b =~= a);
        assert(jpeg_contents(a) + jpeg_contents(b) =~= jpeg_contents(a));
    } else {
        jpegs_are_taken_in_order(a, b.drop_last());
        assert((a + b).drop_last() =~= a + b.drop_last());
        assert((a + b).last() == b.last());
        assert(jpeg_contents(a + b) =~= jpeg_contents(a) + jpeg_contents(b));
    }
    if a.len() == 1 {
        assert(a.drop_last() =~= Seq::<PdfImageModel>::empty());
        assert(jpeg_contents(a.drop_last()) == Seq::<Seq<u8>>::empty());
    }
}

/// The images of two lots of pages stand one behind the other; a page that can be
/// read brings its JPEG images, another none; and only the first eight pages count.
pub proof fn pages_are_taken_in_order(
    a: Seq<Option<Seq<PdfImageModel>>>,
    b: Seq<Option<Seq<PdfImageModel>>>,
)
    ensures
        page_jpegs(a + b) == page_jpegs(a) + page_jpegs(b),
        a.len() == 1 && a[0] is None ==> page_jpegs(a).len() == 0,
        a.len() == 1 && a[0] is Some ==> page_jpegs(a) == jpeg_contents(a[0]->0),
        a.len() <= 8 ==> leading_jpegs(a) == page_jpegs(a),
        a.len() == 8 ==> leading_jpegs(a + b) == page_jpegs(a),
    decreases b.len(),
{
    if b.len() == 0 {
        assert(a + b =~= a);
        assert(page_jpegs(a) + page_jpegs(b) =~= page_jpegs(a));
    } else {
        pages_are_taken_in_order(a, b.drop_last());
        assert((a + b).drop_last() =~= a + b.drop_last());
        assert((a + b).last() == b.last());
        assert(page_jpegs(a + b) =~= page_jpegs(a) + page_jpegs(b));
    }
    if a.len() == 1 {
        assert(a.drop_last() =~= Seq::<Option<Seq<PdfImageModel>>>::empty());
        assert(page_jpegs(a.drop_last()) == Seq::<Seq<u8>>::empty());
        if a[0] is Some {
            assert(page_jpegs(a) =~= jpeg_contents(a[0]->0));
        }
    }
    assert(seqs::at_most(a, 8) =~= if a.len() <= 8 {
        a
    } else {
        a.take(8)
    });
    if a.len() == 8 {
        assert(seqs::at_most(a + b, 8) =~= a);
    }
}

/// An image is told by its first bytes, whatever follows them.
pub proof fn images_are_told_by_their_heads(rest: Seq<u8>)
    ensures
        image_type(seq![0x89u8, 0x50u8, 0x4eu8, 0x47u8] + rest) == Some("image/png"@),
        image_type(seq![0xffu8, 0xd8u8, 0xffu8] + rest) == Some("image/jpeg"@),
        image_type(seq![0x47u8, 0x49u8, 0x46u8, 0x38u8] + rest) == Some("image/gif"@),
        rest.len() >= 4 ==> image_type(seq![0x52u8, 0x49u8, 0x46u8, 0x46u8] + rest) == Some(
            "image/webp"@,
        ),
        rest.len() < 4 ==> image_type(seq![0x52u8, 0x49u8, 0x46u8, 0x46u8] + rest) is None,
        rest.len() == 0 || rest[0] != 0x89u8 && rest[0] != 0xffu8 && rest[0] != 0x47u8 && rest[0]
            != 0x52u8 ==> image_type(rest) is None,
{
    let png = seq![0x89u8, 0x50u8, 0x4eu8, 0x47u8];
    let jpeg = seq![0xffu8, 0xd8u8, 0xffu8];
    let gif = seq![0x47u8, 0x49u8, 0x46u8, 0x38u8];
    let webp = seq![0x52u8, 0x49u8, 0x46u8, 0x46u8];
    assert((png + rest).take(4) =~= png);
    assert((jpeg + rest).take(3) =~= jpeg);
    assert((gif + rest).take(4) =~= gif);
    assert((webp + rest).take(4) =~= webp);
    head_is_first(jpeg + rest, png);
    head_is_first(gif + rest, png);
    head_is_first(gif + rest, jpeg);
    head_is_first(webp + rest, png);
    head_is_first(webp + rest, jpeg);
    head_is_first(webp + rest, gif);
    head_is_first(rest, png);
    head_is_first(rest, jpeg);
    head_is_first(rest, gif);
    head_is_first(rest, webp);
}

proof fn head_is_first(bytes: Seq<u8>, head: Seq<u8>)
    requires
        head.len() > 0,
    ensures
        starts_with_bytes(bytes, head) ==> bytes.len() > 0 && bytes[0] == head[0],
{
    if starts_with_bytes(bytes, head) {
        assert(bytes.take(head.len() as int)[0] == bytes[0]);
    }
}

/// The type of an image is told from the base64 text of the image as it is from
/// its first twelve bytes.
pub proof fn images_are_told_by_their_texts(bytes: Seq<u8>)
    ensures
        sniffed_type(base64_text::base64_of(bytes)) == image_type(
            if bytes.len() <= 12 {
                bytes
            } else {
                bytes.take(12)
            },
        ),
{
    let url = base64_text::base64_of(bytes);
    let part = if bytes.len() <= 12 {
        bytes
    } else {
        bytes.take(12)
    };
    let head = text::take_at_most(url, 16);
    base64_text::base64_is_plain(bytes);
    base64_text::base64_is_plain(part);
    if bytes.len() > 12 {
        assert(part + bytes.skip(12) =~= bytes);
        base64_text::base64_goes_three_by_three(part, bytes.skip(12));
        assert(head =~= base64_text::base64_of(part));
    } else {
        assert(head =~= base64_text::base64_of(part));
    }
    base64_text::decoding_undoes_encoding(part);
}

/// An image goes to the model with its data and the type that it was given, or
/// that its data shows; and any attachment goes with at least one block.
pub proof fn attachments_come_as_blocks(attachment: Attachment, reading: PdfModel)
    ensures
        attachment_content(attachment, reading).len() > 0,
        attachment.kind == AttachmentKind::Image && attachment.mime_type is Some
            ==> attachment_content(attachment, reading) == seq![
            ContentModel::Image(attachment.url@, (attachment.mime_type->0)@),
        ],
        attachment.kind == AttachmentKind::Image && attachment.mime_type is None && sniffed_type(
            attachment.url@,
        ) is Some ==> attachment_content(attachment, reading) == seq![
            ContentModel::Image(attachment.url@, sniffed_type(attachment.url@)->0),
        ],
        attachment.kind == AttachmentKind::Image && attachment.mime_type is None && sniffed_type(
            attachment.url@,
        ) is None ==> attachment_content(attachment, reading) == seq![
            ContentModel::Image(attachment.url@, "image/jpeg"@),
        ],
        attachment.kind != AttachmentKind::Image ==> attachment_content(attachment, reading)[0]
            is Text,
{
}

/// Every block of every attachment goes to the model: the attachments one behind
/// the other, each with what was read of it.
pub proof fn attachments_come_in_order(
    a: Seq<Attachment>,
    b: Seq<Attachment>,
    first: Seq<PdfModel>,
    second: Seq<PdfModel>,
)
    requires
        a.len() == first.len(),
        b.len() == second.len(),
    ensures
        attachments_content(a + b, first + second) == attachments_content(a, first)
            + attachments_content(b, second),
        a.len() == 1 ==> attachments_content(a, first) == attachment_content(a[0], first[0]),
        attachments_content(b, second).len() >= b.len(),
    decreases b.len(),
{
    if b.len() == 0 {
        assert(a + b =~= a);
        assert(first + second =~= first);
        assert(attachments_content(a, first) + attachments_content(b, second)
            =~= attachments_content(a, first));
    } else {
        let less = b.drop_last();
        let fewer = second.drop_last();
        attachments_come_in_order(a, less, first, fewer);
        attachments_come_as_blocks(b.last(), second.last());
        assert((a + b).drop_last() =~= a + less);
        assert((a + b).last() == b.last());
        readings_before_count(a + less, first + second, first + fewer);
        readings_before_count(less, second, fewer);
        assert((first + second)[(a + b).len() - 1] == second.last());
        assert(attachments_content(a + b, first + second) =~= attachments_content(a, first)
            + attachments_content(b, second));
    }
    if a.len() == 1 {
        assert(a.drop_last() =~= Seq::<Attachment>::empty());
        assert(attachments_content(a.drop_last(), first) == Seq::<ContentModel>::empty());
        assert(attachments_content(a, first) =~= attachment_content(a[0], first[0]));
    }
}

proof fn readings_before_count(
    attachments: Seq<Attachment>,
    x: Seq<PdfModel>,
    y: Seq<PdfModel>,
)
    requires
        forall|i: int| 0 <= i < attachments.len() ==> #[trigger] x[i] == y[i],
    ensures
        attachments_content(attachments, x) == attachments_content(attachments, y),
    decreases attachments.len(),
{
    if attachments.len() > 0 {
        readings_before_count(attachments.drop_last(), x, y);
        assert(x[attachments.len() - 1] == y[attachments.len() - 1]);
    }
}

/// The transcript begins with what the user said and tells of every attachment
/// that is no image; where there is no such attachment it says nothing else.
pub proof fn transcripts_tell_of_attachments(
    user_text: Seq<char>,
    attachments: Seq<Attachment>,
    found: Seq<Option<Seq<char>>>,
    i: int,
)
    ensures
        text::starts_with(session_text(user_text, attachments, found), user_text),
        (forall|k: int|
            0 <= k < attachments.len() ==> (#[trigger] attachments[k]).kind
                == AttachmentKind::Image) ==> session_text(user_text, attachments, found)
            == user_text,
        0 <= i < attachments.len() && attachments[i].kind != AttachmentKind::Image
            ==> text::contains(
            session_text(user_text, attachments, found),
            attachment_fragment(attachments[i], found[i]),
        ),
    decreases attachments.len(),
{
    let parts = fragments(attachments, found);
    let all = seq![user_text] + parts;
    let said = session_text(user_text, attachments, found);
    if attachments.len() == 0 {
        assert(all =~= seq![user_text]);
        assert(said.take(user_text.len() as int) =~= user_text);
    } else {
        let less = attachments.drop_last();
        let before = session_text(user_text, less, found);
        transcripts_tell_of_attachments(user_text, less, found, i);
        assert forall|k: int| 0 <= k < less.len() implies #[trigger] attachments[k] == less[k] by {}
        let last = attachments[attachments.len() - 1];
        if last.kind != AttachmentKind::Image {
            let fragment = attachment_fragment(last, found[attachments.len() - 1]);
            let shorter = seq![user_text] + fragments(less, found);
            assert(all =~= shorter.push(fragment));
            assert(all.drop_last() =~= shorter);
            assert(said == before + "\n\n"@ + fragment);
            assert(said.take(user_text.len() as int) =~= before.take(user_text.len() as int));
            let none = Seq::<char>::empty();
            if 0 <= i < less.len() && attachments[i].kind != AttachmentKind::Image {
                text::occurs_in_more(
                    none,
                    before,
                    "\n\n"@ + fragment,
                    attachment_fragment(attachments[i], found[i]),
                );
                assert(none + before + ("\n\n"@ + fragment) =~= said);
            }
            if i == attachments.len() - 1 {
                text::middle_occurs(before + "\n\n"@, fragment, none);
                assert(before + "\n\n"@ + fragment + none =~= said);
            }
        } else {
            assert(said == before);
        }
    }
}

/// What was read of attachments is as many as they are; of a file whose text holds
/// no bytes nothing was read, and images only where no text is of use.
pub proof fn readings_come_of_their_files(
    attachments: Seq<Attachment>,
    readings: Seq<PdfModel>,
    found: Seq<Option<Seq<char>>>,
    i: int,
)
    requires
        possible_readings(attachments, readings),
        possible_texts(attachments, found),
        0 <= i < attachments.len(),
    ensures
        readings.len() == attachments.len() && found.len() == attachments.len(),
        base64_text::decoded(attachments[i].url@) is None ==> readings[i].text is None
            && readings[i].images.len() == 0 && found[i] is None,
        usable(readings[i].text) is Some ==> readings[i].images.len() == 0,
        forall|k: int|
            0 <= k < readings[i].images.len() ==> (#[trigger] readings[i].images[k]).media_type
                == "image/jpeg"@,
{
    assert(possible_reading(attachments[i].url@, readings[i]));
    assert(possible_text(attachments[i].url@, found[i]));
}

} // verus!
