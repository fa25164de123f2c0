//! The document parser: plain text out of a document's bytes, given its
//! declared type tag. Word documents are opened as zip archives and their
//! body part stripped of XML markup; plain text and markdown are decoded
//! as UTF-8. PDFs are the one path whose extraction the host must run
//! itself: the extraction routine aborts on malformed documents instead of
//! returning an error, so the host contains the unwinding and hands the
//! outcome to [`pdf_extraction_text`].

use vstd::prelude::*;

use crate::text::{push_char, str_eq};
use vstd::utf8::{decode_utf8, valid_utf8};

verus! {

/// Why parsing failed: the bytes could not be read as the declared type,
/// the container was damaged, or the type tag is not one this parser knows.
#[derive(Debug)]
pub enum ParseError {
    Unreadable(String),
    Corrupt(String),
    Unsupported(String),
}

/// What reading one named entry of a zip archive yields: `None` when the
/// archive cannot be opened or the entry cannot be read, `Some(None)` when
/// the archive has no such entry, and `Some(Some(text))` otherwise; a
/// function of the bytes and the name alone.
pub uninterp spec fn zip_entry_text(bytes: Seq<u8>, name: Seq<char>) -> Option<Option<Seq<char>>>;

/// The parser's PDF path. The host runs the text-extraction routine with
/// unwinding contained — the routine aborts on malformed documents rather
/// than returning an error, so the call cannot stand in verified code,
/// which promises not to panic — and hands the outcome here: success is
/// the extracted text, failure a corrupt-container error carrying the
/// reason.
pub fn pdf_extraction_text(outcome: Result<String, String>) -> (r: Result<String, ParseError>)
    ensures
        match outcome {
            Ok(text) => r == Ok::<String, ParseError>(text),
            Err(reason) => r == Err::<String, ParseError>(ParseError::Corrupt(reason)),
        },
{
    match outcome {
        Ok(text) => Ok(text),
        Err(reason) => Err(ParseError::Corrupt(reason)),
    }
}

/// Relies on `zip::ZipArchive::new`, `zip::ZipArchive::by_name` and std's
/// `Read::read_to_string`: the named entry's text given the archive bytes;
/// deterministic in the bytes and the name. An unopenable archive or an
/// entry that cannot be read once open is `Err`; an entry that `by_name`
/// cannot produce — absent, encrypted, or compressed with an unsupported
/// method — is `Ok(None)`. The three calls form one access step: the
/// entry handle that `by_name` returns borrows the archive and cannot
/// outlive this body.
#[verifier::external_body]
fn zip_read_text_entry(bytes: &Vec<u8>, name: &str) -> (r: Result<Option<String>, String>)
    ensures
        match r {
            Ok(Some(s)) => zip_entry_text(bytes@, name@) == Some(Some(s@)),
            Ok(None) => zip_entry_text(bytes@, name@) == Some(None::<Seq<char>>),
            Err(_) => zip_entry_text(bytes@, name@) is None,
        },
{
    let cursor = std::io::Cursor::new(bytes.clone());
    let mut archive = match zip::ZipArchive::new(cursor) {
        Ok(a) => a,
        Err(e) => return Err(format!("{}", e)),
    };
    let mut entry = match archive.by_name(name) {
        Ok(f) => f,
        Err(_) => return Ok(None),
    };
    let mut content = String::new();
    match std::io::Read::read_to_string(&mut entry, &mut content) {
        Ok(_) => Ok(Some(content)),
        Err(e) => Err(format!("{}", e)),
    }
}

/// Relies on `String::from_utf8`: decodes the bytes as UTF-8 and fails
/// exactly on invalid UTF-8.
#[verifier::external_body]
fn utf8_text(bytes: &Vec<u8>) -> (r: Option<String>)
    ensures
        match r {
            Some(s) => valid_utf8(bytes@) && s@ == decode_utf8(bytes@),
            None => !valid_utf8(bytes@),
        },
{
    match String::from_utf8(bytes.clone()) {
        Ok(s) => Some(s),
        Err(_) => None,
    }
}

/// Whether a tag's collected characters end in `w:p` or `w:br`: the
/// paragraph- and line-break tags whose close emits a newline.
pub open spec fn ends_with_break_tag(tag: Seq<char>) -> bool {
    ||| (tag.len() >= 3 && tag[tag.len() - 3] == 'w' && tag[tag.len() - 2] == ':' && tag[tag.len()
        - 1] == 'p')
    ||| (tag.len() >= 4 && tag[tag.len() - 4] == 'w' && tag[tag.len() - 3] == ':' && tag[tag.len()
        - 2] == 'b' && tag[tag.len() - 1] == 'r')
}

/// Whether the collected tag characters end in a break tag.
fn is_break_tag(tag: &Vec<char>) -> (r: bool)
    ensures
        r == ends_with_break_tag(tag@),
{
    let n = tag.len();
    if n >= 3 && tag[n - 3] == 'w' && tag[n - 2] == ':' && tag[n - 1] == 'p' {
        return true;
    }
    if n >= 4 && tag[n - 4] == 'w' && tag[n - 3] == ':' && tag[n - 2] == 'b' && tag[n - 1] == 'r' {
        return true;
    }
    false
}

/// The markup-stripping state machine: emits character data outside tags,
/// collects characters inside tags, and emits a newline at each `>` that
/// closes a paragraph- or line-break tag. `in_tag` and `tag` carry the
/// state reached so far.
pub open spec fn strip_rec(s: Seq<char>, in_tag: bool, tag: Seq<char>) -> Seq<char>
    decreases s.len(),
{
    if s.len() == 0 {
        Seq::empty()
    } else {
        let c = s[0];
        let rest = s.drop_first();
        if c == '<' {
            strip_rec(rest, true, tag)
        } else if c == '>' {
            let brk: Seq<char> = if ends_with_break_tag(tag) {
                seq!['\n']
            } else {
                Seq::empty()
            };
            brk + strip_rec(rest, false, Seq::empty())
        } else if !in_tag {
            seq![c] + strip_rec(rest, in_tag, tag)
        } else {
            strip_rec(rest, in_tag, tag.push(c))
        }
    }
}

/// The text recovered from a Word body part: character data outside tags,
/// with a newline wherever a paragraph or line break closes.
pub open spec fn docx_markup_text(s: Seq<char>) -> Seq<char> {
    strip_rec(s, false, Seq::empty())
}

/// Strips XML markup from a Word body part, tracking tag-open and tag-close
/// state and emitting only character data outside tags, with a newline at
/// every paragraph- or line-break tag.
pub fn strip_docx_markup(content: &str) -> (text: String)
    ensures
        text@ == docx_markup_text(content@),
{
    let n = content.unicode_len();
    let mut out = String::new();
    let mut in_tag = false;
    let mut tag: Vec<char> = Vec::new();
    let mut i: usize = 0;
    proof {
        assert(content@.subrange(0, n as int) =~= content@);
    }
    while i < n
        invariant
            i <= n,
            n == content@.len(),
            docx_markup_text(content@) == out@ + strip_rec(
                content@.subrange(i as int, n as int),
                in_tag,
                tag@,
            ),
        decreases n - i,
    {
        let c = content.get_char(i);
        let ghost here = content@.subrange(i as int, n as int);
        let ghost rest = content@.subrange(i as int + 1, n as int);
        let ghost old_out = out@;
        let ghost old_tag = tag@;
        proof {
            assert(here.drop_first() =~= rest);
            assert(here[0] == content@[i as int]);
        }
        if c == '<' {
            in_tag = true;
        } else if c == '>' {
            if is_break_tag(&tag) {
                push_char(&mut out, '\n');
                proof {
                    assert(out@ =~= old_out + seq!['\n']);
                    assert((old_out + seq!['\n']) + strip_rec(rest, false, Seq::empty())
                        =~= old_out + (seq!['\n'] + strip_rec(rest, false, Seq::empty())));
                }
            }
            in_tag = false;
            tag.clear();
        } else if !in_tag {
            push_char(&mut out, c);
            proof {
                assert(out@ =~= old_out + seq![c]);
                assert((old_out + seq![c]) + strip_rec(rest, in_tag, tag@) =~= old_out + (seq![c]
                    + strip_rec(rest, in_tag, tag@)));
            }
        } else {
            tag.push(c);
        }
        i += 1;
    }
    proof {
        assert(content@.subrange(n as int, n as int) =~= Seq::<char>::empty());
        assert(out@ + Seq::<char>::empty() =~= out@);
    }
    out
}

/// The parser's file-type tags, as the upload pipeline derives them from a
/// lowercased file extension.
pub open spec fn spec_file_type(ext: Seq<char>) -> Option<Seq<char>> {
    if ext == "pdf"@ {
        Some("pdf"@)
    } else if ext == "docx"@ || ext == "doc"@ {
        Some("docx"@)
    } else if ext == "txt"@ || ext == "md"@ {
        Some("txt"@)
    } else {
        None
    }
}

/// Maps a lowercased file extension to the parser's type tag, or nothing
/// for an unsupported extension.
pub fn detect_file_type(extension: &str) -> (r: Option<&'static str>)
    ensures
        match r {
            Some(t) => spec_file_type(extension@) == Some(t@),
            None => spec_file_type(extension@) is None,
        },
{
    if str_eq(extension, "pdf") {
        Some("pdf")
    } else if str_eq(extension, "docx") || str_eq(extension, "doc") {
        Some("docx")
    } else if str_eq(extension, "txt") || str_eq(extension, "md") {
        Some("txt")
    } else {
        None
    }
}

/// What parsing yields for given bytes and a supported type tag, or nothing
/// where the parse fails.
pub open spec fn spec_parse(bytes: Seq<u8>, tag: Seq<char>) -> Option<Seq<char>> {
    if tag == "docx"@ {
        match zip_entry_text(bytes, "word/document.xml"@) {
            None => None,
            Some(None) => Some(Seq::empty()),
            Some(Some(xml)) => Some(docx_markup_text(xml)),
        }
    } else {
        // "txt" and "md" are both plain text.
        if valid_utf8(bytes) {
            Some(decode_utf8(bytes))
        } else {
            None
        }
    }
}

/// Whether a type tag is one this byte parser accepts. The "pdf" tag is
/// not among them: its extraction runs in the host (see
/// [`pdf_extraction_text`]).
pub open spec fn supported_tag(tag: Seq<char>) -> bool {
    tag == "docx"@ || tag == "txt"@ || tag == "md"@
}

/// Extracts a document's text from its bytes, given its type tag: Word
/// documents by reading the body part of the zip container and stripping
/// its markup (no body part yields empty text), plain text and markdown by
/// UTF-8 decoding. Fails exactly where the extraction does, and on any
/// other tag — including "pdf", whose extraction the host runs and feeds
/// to [`pdf_extraction_text`].
pub fn parse_file_content(bytes: &Vec<u8>, file_type: &str) -> (r: Result<String, ParseError>)
    ensures
        supported_tag(file_type@) ==> match r {
            Ok(s) => spec_parse(bytes@, file_type@) == Some(s@),
            Err(_) => spec_parse(bytes@, file_type@) is None,
        },
        !supported_tag(file_type@) ==> r is Err && (r matches Err(e) ==> e is Unsupported),
        r matches Err(e) ==> !(e is Unsupported) ==> spec_parse(bytes@, file_type@) is None,
{
    if str_eq(file_type, "docx") {
        match zip_read_text_entry(bytes, "word/document.xml") {
            Ok(Some(xml)) => Ok(strip_docx_markup(xml.as_str())),
            Ok(None) => Ok(String::new()),
            Err(e) => Err(ParseError::Corrupt(e)),
        }
    } else if str_eq(file_type, "txt") || str_eq(file_type, "md") {
        match utf8_text(bytes) {
            Some(s) => Ok(s),
            None => Err(ParseError::Unreadable(file_type.to_owned())),
        }
    } else {
        Err(ParseError::Unsupported(file_type.to_owned()))
    }
}

} // verus!
