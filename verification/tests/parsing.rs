use std::io::Write;

use kb_engine::parse::{
    detect_file_type, parse_file_content, pdf_extraction_text, strip_docx_markup, ParseError,
};

#[test]
fn parse_plain_text_decodes_utf8() {
    let bytes = "hello world".as_bytes().to_vec();
    assert_eq!(parse_file_content(&bytes, "txt").unwrap(), "hello world");
    assert_eq!(parse_file_content(&bytes, "md").unwrap(), "hello world");
}

#[test]
fn parse_plain_text_rejects_invalid_utf8() {
    let bytes: Vec<u8> = vec![0xff, 0xfe, 0x00];
    match parse_file_content(&bytes, "txt") {
        Err(ParseError::Unreadable(_)) => {}
        _ => panic!("invalid UTF-8 must be Unreadable"),
    }
}

#[test]
fn parse_rejects_unsupported_type() {
    let bytes = b"whatever".to_vec();
    match parse_file_content(&bytes, "exe") {
        Err(ParseError::Unsupported(_)) => {}
        _ => panic!("an unknown tag must be Unsupported"),
    }
}

#[test]
fn pdf_extraction_outcome_maps_success_and_failure() {
    assert_eq!(pdf_extraction_text(Ok("extracted text".to_string())).unwrap(), "extracted text");
    match pdf_extraction_text(Err("broken xref".to_string())) {
        Err(ParseError::Corrupt(reason)) => assert_eq!(reason, "broken xref"),
        _ => panic!("a failed extraction must be Corrupt"),
    }
}

#[test]
fn byte_parser_defers_pdf_to_the_host_extraction() {
    // The PDF extraction runs in the host with unwinding contained; the
    // byte parser itself does not accept the tag.
    let bytes = b"%PDF-1.4 ...".to_vec();
    match parse_file_content(&bytes, "pdf") {
        Err(ParseError::Unsupported(_)) => {}
        _ => panic!("the byte parser must not accept the pdf tag"),
    }
}

#[test]
fn strip_markup_keeps_character_data_and_breaks() {
    let xml = "<w:p>Hello</w:p> <x>ignored-tag-name</x>World";
    // Both <w:p> and </w:p> end in "w:p", so each emits a newline; the
    // character data between tags is kept as it stands.
    assert_eq!(strip_docx_markup(xml), "\nHello\n ignored-tag-nameWorld");
}

#[test]
fn strip_markup_handles_attributes_and_self_closing_tags() {
    // A tag with attributes does not end in "w:p", and a self-closing
    // <w:br/> ends in "/", so neither emits a newline.
    let xml = "<w:p w:rsidR=\"0\">one</w:p><w:br/>two";
    assert_eq!(strip_docx_markup(xml), "one\ntwo");
}

#[test]
fn detect_file_type_maps_extensions() {
    assert_eq!(detect_file_type("pdf"), Some("pdf"));
    assert_eq!(detect_file_type("docx"), Some("docx"));
    assert_eq!(detect_file_type("doc"), Some("docx"));
    assert_eq!(detect_file_type("txt"), Some("txt"));
    assert_eq!(detect_file_type("md"), Some("txt"));
    assert_eq!(detect_file_type("exe"), None);
    assert_eq!(detect_file_type(""), None);
}

fn docx_bytes_with_body(body_xml: &str) -> Vec<u8> {
    let cursor = std::io::Cursor::new(Vec::new());
    let mut writer = zip::ZipWriter::new(cursor);
    let options = zip::write::SimpleFileOptions::default();
    writer.start_file("word/document.xml", options).unwrap();
    writer.write_all(body_xml.as_bytes()).unwrap();
    writer.finish().unwrap().into_inner()
}

#[test]
fn parse_docx_reads_body_part_and_strips_markup() {
    let bytes = docx_bytes_with_body(
        "<w:document><w:body><w:p>First paragraph</w:p><w:p>Second</w:p></w:body></w:document>",
    );
    let text = parse_file_content(&bytes, "docx").unwrap();
    assert_eq!(text, "\nFirst paragraph\n\nSecond\n");
}

#[test]
fn parse_docx_without_body_part_is_empty_text() {
    let cursor = std::io::Cursor::new(Vec::new());
    let mut writer = zip::ZipWriter::new(cursor);
    let options = zip::write::SimpleFileOptions::default();
    writer.start_file("other.xml", options).unwrap();
    writer.write_all(b"<a>b</a>").unwrap();
    let bytes = writer.finish().unwrap().into_inner();
    assert_eq!(parse_file_content(&bytes, "docx").unwrap(), "");
}

#[test]
fn parse_docx_rejects_broken_container() {
    let bytes = b"PK but not really a zip".to_vec();
    match parse_file_content(&bytes, "docx") {
        Err(ParseError::Corrupt(_)) => {}
        _ => panic!("a broken container must be Corrupt"),
    }
}
