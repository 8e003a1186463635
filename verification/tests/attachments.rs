use clawhive_core::base64_text;
use clawhive_core::orchestrator::attachment::{
    attachment_prompt_fragment, build_attachment_blocks, build_pdf_content_blocks,
    build_session_text, collect_jpegs, content_with_reading, content_with_readings,
    decode_attachment_bytes, extract_pdf_page_images, extract_pdf_text, fragment_body,
    fragment_with_text, is_text_mime, leading_page_ids, leading_page_images, page_image_blocks,
    page_numbers, pdf_content_blocks,
    render_fragment, session_text_with, settle_pdf_text, sniff_image_bytes,
    sniff_image_mime_from_base64, trim_attachment_text, truncate_attachment_text, Attachment,
    AttachmentKind, PdfImage, PdfPageImage, PdfReading, PdfTextError,
};
use clawhive_core::orchestrator::messages::ContentBlock;
use base64::Engine;
use lopdf::content::{Content, Operation};
use lopdf::{Dictionary, Document, Object, ObjectId, Stream};

fn name(value: &str) -> Object {
    Object::Name(value.as_bytes().to_vec())
}

fn dict(entries: Vec<(&str, Object)>) -> Dictionary {
    let mut d = Dictionary::new();
    for (key, value) in entries {
        d.set(key, value);
    }
    d
}

/// A document of one page with the given content and resources.
fn one_page(mut doc: Document, operations: Vec<Operation>, resources_id: ObjectId) -> Vec<u8> {
    let pages_id = doc.new_object_id();
    let content = Content { operations };
    let content_id = doc.add_object(Stream::new(Dictionary::new(), content.encode().unwrap()));
    let page_id = doc.add_object(dict(vec![
        ("Type", name("Page")),
        ("Parent", pages_id.into()),
        ("Contents", content_id.into()),
        ("Resources", resources_id.into()),
        (
            "MediaBox",
            vec![0.into(), 0.into(), 595.into(), 842.into()].into(),
        ),
    ]));
    doc.objects.insert(
        pages_id,
        Object::Dictionary(dict(vec![
            ("Type", name("Pages")),
            ("Kids", vec![page_id.into()].into()),
            ("Count", 1.into()),
        ])),
    );
    let catalog_id = doc.add_object(dict(vec![
        ("Type", name("Catalog")),
        ("Pages", pages_id.into()),
    ]));
    doc.trailer.set("Root", catalog_id);

    let mut bytes = Vec::new();
    doc.save_to(&mut bytes).unwrap();
    bytes
}

fn sample_pdf_bytes(text: &str) -> Vec<u8> {
    let mut doc = Document::with_version("1.5");
    let font_id = doc.add_object(dict(vec![
        ("Type", name("Font")),
        ("Subtype", name("Type1")),
        ("BaseFont", name("Helvetica")),
    ]));
    let resources_id = doc.add_object(dict(vec![(
        "Font",
        Object::Dictionary(dict(vec![("F1", font_id.into())])),
    )]));
    let operations = vec![
        Operation::new("BT", vec![]),
        Operation::new("Tf", vec!["F1".into(), 12.into()]),
        Operation::new("Td", vec![72.into(), 720.into()]),
        Operation::new("Tj", vec![Object::string_literal(text)]),
        Operation::new("ET", vec![]),
    ];
    one_page(doc, operations, resources_id)
}

/// A document without text whose page holds a JPEG stream.
fn scanned_pdf_bytes(jpeg: &[u8]) -> Vec<u8> {
    let mut doc = Document::with_version("1.5");
    let image_id = doc.add_object(Stream::new(
        dict(vec![
            ("Type", name("XObject")),
            ("Subtype", name("Image")),
            ("Width", 1.into()),
            ("Height", 1.into()),
            ("Filter", name("DCTDecode")),
        ]),
        jpeg.to_vec(),
    ));
    let resources_id = doc.add_object(dict(vec![(
        "XObject",
        Object::Dictionary(dict(vec![("Im1", image_id.into())])),
    )]));
    one_page(doc, vec![], resources_id)
}

fn document(content: &[u8], mime: &str, file: Option<&str>) -> Attachment {
    Attachment {
        kind: AttachmentKind::Document,
        url: base64::engine::general_purpose::STANDARD.encode(content),
        mime_type: Some(mime.to_string()),
        file_name: file.map(|f| f.to_string()),
        size: None,
    }
}

#[test]
fn build_attachment_blocks_extracts_pdf_text() {
    let attachment = document(
        &sample_pdf_bytes("Lease says landlord pays"),
        "application/pdf",
        Some("lease.pdf"),
    );

    let blocks = build_attachment_blocks(&[attachment]);
    assert_eq!(blocks.len(), 1);
    match &blocks[0] {
        ContentBlock::Text { text } => {
            assert!(text.contains("lease.pdf"));
            assert!(text.contains("Lease says landlord pays"));
        }
        other => panic!("expected text block, got {other:?}"),
    }
}

#[test]
fn build_session_text_keeps_binary_attachment_placeholder() {
    let session_text = build_session_text(
        "请看合同",
        &[Attachment {
            kind: AttachmentKind::Document,
            url: "not-base64".to_string(),
            mime_type: Some(
                "application/vnd.openxmlformats-officedocument.wordprocessingml.document"
                    .to_string(),
            ),
            file_name: Some("lease.docx".to_string()),
            size: None,
        }],
    );

    assert!(session_text.contains("lease.docx"));
    assert!(session_text.contains("binary attachment uploaded"));
}

#[test]
fn text_attachments_are_read() {
    let note = document("hello\u{0} wörld\n".as_bytes(), "text/plain", Some("n.txt"));
    assert_eq!(
        attachment_prompt_fragment(&note),
        Some(
            "<attachment name=\"n.txt\" type=\"text/plain\">\nhello wörld\n</attachment>"
                .to_string()
        )
    );
    let broken = document(&[0xff, 0xfe], "text/plain", None);
    let fragment = attachment_prompt_fragment(&broken).unwrap();
    assert!(fragment.starts_with("<attachment name=\"attachment\" type=\"text/plain\">"));
    assert!(fragment.contains("automatic text extraction unavailable"));
    assert_eq!(decode_attachment_bytes(&broken), Some(vec![0xff, 0xfe]));
}

#[test]
fn text_types_are_known() {
    for mime in ["text/csv", "application/json", "application/toml"] {
        assert!(is_text_mime(mime), "{}", mime);
    }
    assert!(!is_text_mime("application/pdf"));
    assert!(!is_text_mime("image/png"));
}

#[test]
fn attachment_text_is_trimmed_and_limited() {
    assert_eq!(trim_attachment_text(" \u{0} \n"), None);
    assert_eq!(trim_attachment_text(" a\u{0}b "), Some("ab".to_string()));
    let long = "x".repeat(12_001);
    let cut = truncate_attachment_text(&long);
    assert_eq!(
        cut,
        format!(
            "{}\n\n[attachment text truncated after 12000 characters]",
            "x".repeat(12_000)
        )
    );
    assert_eq!(truncate_attachment_text(&cut[..12_000]), "x".repeat(12_000));
    assert_eq!(fragment_body(Some("t".to_string())), "t");
    assert!(fragment_body(None).starts_with("[binary attachment uploaded"));
    assert_eq!(
        render_fragment("l", "m", "b"),
        "<attachment name=\"l\" type=\"m\">\nb\n</attachment>"
    );
}

#[test]
fn documents_are_read_or_refused() {
    let text = extract_pdf_text(&sample_pdf_bytes("Lease says landlord pays")).unwrap();
    assert!(text.contains("Lease says landlord pays"));
    assert_eq!(extract_pdf_text(b"no document"), Err(PdfTextError::Parse));
    assert!(extract_pdf_page_images(b"no document").is_empty());
}

#[test]
fn scanned_documents_give_their_page_images() {
    let jpeg = [0xff, 0xd8, 0xff, 0xe0, 1, 2, 3];
    let bytes = scanned_pdf_bytes(&jpeg);
    let images = extract_pdf_page_images(&bytes);
    assert_eq!(images.len(), 1);
    assert_eq!(images[0].data, jpeg.to_vec());
    assert_eq!(images[0].media_type, "image/jpeg");

    let attachment = document(&bytes, "application/pdf", None);
    let blocks = build_pdf_content_blocks(&attachment).expect("blocks");
    assert_eq!(blocks.len(), 2);
    assert!(matches!(&blocks[0], ContentBlock::Text { text }
        if text.contains("1 page image(s) follow") && text.contains("attachment.pdf")));
    assert_eq!(
        blocks[1],
        ContentBlock::Image {
            data: base64::engine::general_purpose::STANDARD.encode(jpeg),
            media_type: "image/jpeg".to_string(),
        }
    );
}

#[test]
fn only_plain_jpeg_streams_are_collected() {
    let image = |filters: &[&str], content: u8| PdfImage {
        filters: filters.iter().map(|f| f.to_string()).collect(),
        content: vec![content],
    };
    let images = [
        image(&["DCTDecode"], 1),
        image(&["FlateDecode"], 2),
        image(&["FlateDecode", "DCTDecode"], 3),
        image(&[], 4),
        image(&["DCTDecode"], 5),
    ];
    let mut out = Vec::new();
    collect_jpegs(&images, &mut out);
    let data: Vec<Vec<u8>> = out.into_iter().map(|i| i.data).collect();
    assert_eq!(data, vec![vec![1], vec![5]]);
}

#[test]
fn page_images_come_behind_a_notice() {
    let images = [PdfPageImage {
        data: vec![0, 0, 0],
        media_type: "image/jpeg".to_string(),
    }];
    let read = page_image_blocks("l", true, &images).unwrap();
    assert!(matches!(&read[0], ContentBlock::Text { text }
        if text.contains("[Scanned PDF — 1 page image(s) follow.")));
    assert!(matches!(&read[1], ContentBlock::Image { data, .. } if data == "AAAA"));
    let failed = page_image_blocks("l", false, &images).unwrap();
    assert!(matches!(&failed[0], ContentBlock::Text { text }
        if text.contains("[PDF text extraction failed — 1 page image(s) follow.")));
    assert!(page_image_blocks("l", true, &[]).is_none());
}

#[test]
fn unreadable_documents_keep_a_placeholder() {
    let attachment = document(b"no document", "application/pdf", Some("x.pdf"));
    assert!(build_pdf_content_blocks(&attachment).is_none());
    let blocks = build_attachment_blocks(&[attachment]);
    assert!(matches!(&blocks[0], ContentBlock::Text { text }
        if text.contains("binary attachment uploaded")));
}

#[test]
fn images_are_told_by_their_first_bytes() {
    let sniff = |bytes: &[u8]| sniff_image_bytes(bytes);
    assert_eq!(sniff(&[0x89, 0x50, 0x4e, 0x47]), Some("image/png".to_string()));
    assert_eq!(sniff(&[0xff, 0xd8, 0xff]), Some("image/jpeg".to_string()));
    assert_eq!(sniff(b"GIF89a"), Some("image/gif".to_string()));
    assert_eq!(sniff(b"RIFF1234"), Some("image/webp".to_string()));
    assert_eq!(sniff(b"RIFF123"), None);
    assert_eq!(sniff(b""), None);
    let png = base64::engine::general_purpose::STANDARD.encode([0x89, 0x50, 0x4e, 0x47, 13, 10, 26, 10, 0, 0, 0, 13]);
    assert_eq!(
        sniff_image_mime_from_base64(&format!("{png}more")),
        Some("image/png".to_string())
    );
    assert_eq!(sniff_image_mime_from_base64("ünlikely"), None);
}

#[test]
fn images_keep_their_data() {
    let mut attachment = Attachment {
        kind: AttachmentKind::Image,
        url: base64::engine::general_purpose::STANDARD.encode(b"GIF89a_and_more_"),
        mime_type: None,
        file_name: None,
        size: None,
    };
    let blocks = build_attachment_blocks(&[attachment.clone()]);
    assert_eq!(
        blocks[0],
        ContentBlock::Image {
            data: attachment.url.clone(),
            media_type: "image/gif".to_string(),
        }
    );
    attachment.mime_type = Some("image/avif".to_string());
    let blocks = build_attachment_blocks(&[attachment.clone()]);
    assert!(matches!(&blocks[0], ContentBlock::Image { media_type, .. }
        if media_type == "image/avif"));
    attachment.mime_type = None;
    attachment.url = "%%%".to_string();
    let blocks = build_attachment_blocks(&[attachment]);
    assert!(matches!(&blocks[0], ContentBlock::Image { media_type, .. }
        if media_type == "image/jpeg"));
}

#[test]
fn session_text_holds_what_was_said() {
    assert_eq!(build_session_text("hello", &[]), "hello");
    let note = document(b"body", "text/plain", Some("n.txt"));
    let session_text = build_session_text("hello", &[note]);
    assert!(session_text.starts_with("hello"));
    assert!(session_text.contains("body"));
}

#[test]
fn base64_is_read_and_written() {
    assert_eq!(base64_text::encode(b""), "");
    assert_eq!(base64_text::encode(b"f"), "Zg==");
    assert_eq!(base64_text::encode(b"fo"), "Zm8=");
    assert_eq!(base64_text::encode(b"foo"), "Zm9v");
    assert_eq!(base64_text::encode(&[0xfb, 0xff, 0xfe]), "+//+");
    assert_eq!(base64_text::decode("Zm9vYmE="), Some(b"fooba".to_vec()));
    assert_eq!(base64_text::decode(""), Some(vec![]));
    // Missing padding, loose trailing bits, foreign characters.
    assert_eq!(base64_text::decode("Zg"), None);
    assert_eq!(base64_text::decode("Zh=="), None);
    assert_eq!(base64_text::decode("Zg==\n"), None);
    assert_eq!(base64_text::decode("-__-"), None);
    for n in 0..70u8 {
        let bytes: Vec<u8> = (0..n).map(|i| i.wrapping_mul(37)).collect();
        assert_eq!(base64_text::decode(&base64_text::encode(&bytes)), Some(bytes));
    }
}

#[test]
fn what_was_found_of_a_document_decides() {
    let found = || Some("text".to_string());
    assert_eq!(settle_pdf_text(None, found()), Err(PdfTextError::Parse));
    assert_eq!(settle_pdf_text(Some(0), None), Ok(String::new()));
    assert_eq!(settle_pdf_text(Some(2), None), Err(PdfTextError::Extract));
    assert_eq!(settle_pdf_text(Some(2), found()), Ok("text".to_string()));
}

#[test]
fn only_the_leading_pages_give_images() {
    let page = |content: u8| {
        Some(vec![PdfImage {
            filters: vec!["DCTDecode".to_string()],
            content: vec![content],
        }])
    };
    let mut pages: Vec<Option<Vec<PdfImage>>> = (0..10).map(page).collect();
    pages[1] = None;
    let images = leading_page_images(&pages);
    let data: Vec<u8> = images.iter().map(|i| i.data[0]).collect();
    assert_eq!(data, vec![0, 2, 3, 4, 5, 6, 7]);
    assert!(images.iter().all(|i| i.media_type == "image/jpeg"));
}

#[test]
fn a_reading_becomes_blocks() {
    let image = PdfPageImage {
        data: vec![0, 0, 0],
        media_type: "image/jpeg".to_string(),
    };
    let reading = |text: Option<&str>, images: Vec<PdfPageImage>| PdfReading {
        text: text.map(str::to_string),
        images,
    };
    let said = |blocks: Vec<ContentBlock>| match &blocks[0] {
        ContentBlock::Text { text } => text.clone(),
        other => panic!("expected text block, got {other:?}"),
    };

    let with_text = reading(Some(" body\u{0} "), vec![]);
    assert_eq!(
        said(pdf_content_blocks("l", &with_text).unwrap()),
        "<attachment name=\"l\" type=\"application/pdf\">\nbody\n</attachment>"
    );
    let scanned = reading(Some(" \n"), vec![image.clone()]);
    let blocks = pdf_content_blocks("l", &scanned).unwrap();
    assert_eq!(blocks.len(), 2);
    assert!(said(blocks).contains("[Scanned PDF — 1 page image(s) follow."));
    let failed = reading(None, vec![image]);
    assert!(said(pdf_content_blocks("l", &failed).unwrap())
        .contains("[PDF text extraction failed — 1 page image(s) follow."));
    let nothing = reading(None, vec![]);
    assert!(pdf_content_blocks("l", &nothing).is_none());

    let attached = document(b"x", "application/pdf", Some("x.pdf"));
    assert!(said(content_with_reading(&attached, &with_text)).contains("\nbody\n"));
    assert!(said(content_with_reading(&attached, &nothing)).contains("binary attachment uploaded"));
    let note = document(b"note", "text/plain", Some("n.txt"));
    let both = content_with_readings(&[attached.clone(), note.clone()], &[scanned, nothing]);
    assert_eq!(both.len(), 3);
    assert!(matches!(&both[2], ContentBlock::Text { text } if text.contains("note")));

    assert!(fragment_with_text(&attached, Some("found".to_string())).contains("\nfound\n"));
    assert!(fragment_with_text(&note, Some("found".to_string())).contains("\nnote\n"));
    assert_eq!(
        session_text_with("hi", &[attached], &[Some("found".to_string())]),
        "hi\n\n<attachment name=\"x.pdf\" type=\"application/pdf\">\nfound\n</attachment>"
    );
}

#[test]
fn all_pages_are_read_and_the_leading_ones_seen() {
    let pages: Vec<(u32, (u32, u16))> = (1..=10).map(|n| (n, (n * 3, 1))).collect();
    assert_eq!(page_numbers(&pages), (1..=10).collect::<Vec<u32>>());
    let ids: Vec<(u32, u16)> = (1..=8).map(|n| (n * 3, 1)).collect();
    assert_eq!(leading_page_ids(&pages), ids);
    assert_eq!(leading_page_ids(&pages[..3]), ids[..3].to_vec());
    assert!(page_numbers(&[]).is_empty());
}
