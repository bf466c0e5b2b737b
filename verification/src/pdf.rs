//! Documents: their formats, and the pages of a PDF.

use vstd::prelude::*;

use crate::errors::GatewayError;
use crate::text::{
    begins, lines_of, parse_number, parsed, read_text, split_lines, starts_with, strip_start,
    text_of, texts, trim, trimmed, without_start,
};

verus! {

broadcast use vstd::seq::group_seq_axioms;

/// The format of a document.
#[derive(Debug, PartialEq, Eq)]
pub enum DocumentType {
    Pdf,
    /// An image of the given media type, such as "image/png".
    Image(String),
    Unknown,
}

/// The value of a `DocumentType`.
pub enum TypeValue {
    Pdf,
    Image(Seq<char>),
    Unknown,
}

impl View for DocumentType {
    type V = TypeValue;

    open spec fn view(&self) -> TypeValue {
        match *self {
            DocumentType::Pdf => TypeValue::Pdf,
            DocumentType::Image(mime) => TypeValue::Image(mime@),
            DocumentType::Unknown => TypeValue::Unknown,
        }
    }
}

impl DocumentType {
    /// The media type.
    pub fn as_str(&self) -> (r: &str)
        ensures
            r@ == match self@ {
                TypeValue::Pdf => "application/pdf"@,
                TypeValue::Image(mime) => mime,
                TypeValue::Unknown => "application/octet-stream"@,
            },
    {
        match self {
            DocumentType::Pdf => "application/pdf",
            DocumentType::Image(mime) => mime.as_str(),
            DocumentType::Unknown => "application/octet-stream",
        }
    }
}

/// The bytes of `magic` stand in `bytes` at position `at`.
pub open spec fn marked(bytes: Seq<u8>, magic: Seq<u8>, at: int) -> bool {
    at + magic.len() <= bytes.len() && bytes.subrange(at, at + magic.len()) == magic
}

/// The format that the first bytes of a document tell.
pub open spec fn format_of(bytes: Seq<u8>) -> TypeValue {
    if bytes.len() < 4 {
        TypeValue::Unknown
    } else if marked(bytes, seq![0x25u8, 0x50, 0x44, 0x46, 0x2d], 0) {
        TypeValue::Pdf
    } else if marked(bytes, seq![0x89u8, 0x50, 0x4e, 0x47], 0) {
        TypeValue::Image("image/png"@)
    } else if marked(bytes, seq![0xffu8, 0xd8, 0xff], 0) {
        TypeValue::Image("image/jpeg"@)
    } else if marked(bytes, seq![0x52u8, 0x49, 0x46, 0x46], 0) && marked(
        bytes,
        seq![0x57u8, 0x45, 0x42, 0x50],
        8,
    ) {
        TypeValue::Image("image/webp"@)
    } else if marked(bytes, seq![0x49u8, 0x49, 0x2a, 0x00], 0) || marked(
        bytes,
        seq![0x4du8, 0x4d, 0x00, 0x2a],
        0,
    ) {
        TypeValue::Image("image/tiff"@)
    } else if marked(bytes, seq![0x42u8, 0x4d], 0) {
        TypeValue::Image("image/bmp"@)
    } else {
        TypeValue::Unknown
    }
}

fn has_magic(bytes: &[u8], magic: &[u8], at: usize) -> (r: bool)
    ensures
        r == marked(bytes@, magic@, at as int),
{
    if at > bytes.len() || magic.len() > bytes.len() - at {
        return false;
    }
    let mut i: usize = 0;
    while i < magic.len()
        invariant
            at + magic@.len() <= bytes@.len() <= usize::MAX,
            i <= magic@.len(),
            forall|k: int| 0 <= k < i ==> bytes@[at + k] == magic@[k],
        decreases magic@.len() - i,
    {
        if bytes[at + i] != magic[i] {
            proof {
                assert(bytes@.subrange(at as int, at + magic@.len())[i as int] == bytes@[at + i]);
            }
            return false;
        }
        i += 1;
    }
    proof {
        assert(bytes@.subrange(at as int, at + magic@.len()) =~= magic@);
    }
    true
}

/// Tells the format of a document from its first bytes.
pub fn detect_document_type(bytes: &[u8]) -> (r: DocumentType)
    ensures
        r@ == format_of(bytes@),
{
    if bytes.len() < 4 {
        return DocumentType::Unknown;
    }
    let pdf: [u8; 5] = [0x25, 0x50, 0x44, 0x46, 0x2d];
    let png: [u8; 4] = [0x89, 0x50, 0x4e, 0x47];
    let jpeg: [u8; 3] = [0xff, 0xd8, 0xff];
    let riff: [u8; 4] = [0x52, 0x49, 0x46, 0x46];
    let webp: [u8; 4] = [0x57, 0x45, 0x42, 0x50];
    let tiff_le: [u8; 4] = [0x49, 0x49, 0x2a, 0x00];
    let tiff_be: [u8; 4] = [0x4d, 0x4d, 0x00, 0x2a];
    let bmp: [u8; 2] = [0x42, 0x4d];
    proof {
        assert(pdf@ =~= seq![0x25u8, 0x50, 0x44, 0x46, 0x2d]);
        assert(png@ =~= seq![0x89u8, 0x50, 0x4e, 0x47]);
        assert(jpeg@ =~= seq![0xffu8, 0xd8, 0xff]);
        assert(riff@ =~= seq![0x52u8, 0x49, 0x46, 0x46]);
        assert(webp@ =~= seq![0x57u8, 0x45, 0x42, 0x50]);
        assert(tiff_le@ =~= seq![0x49u8, 0x49, 0x2a, 0x00]);
        assert(tiff_be@ =~= seq![0x4du8, 0x4d, 0x00, 0x2a]);
        assert(bmp@ =~= seq![0x42u8, 0x4d]);
    }
    if has_magic(bytes, &pdf, 0) {
        return DocumentType::Pdf;
    }
    if has_magic(bytes, &png, 0) {
        return DocumentType::Image("image/png".to_string());
    }
    if has_magic(bytes, &jpeg, 0) {
        return DocumentType::Image("image/jpeg".to_string());
    }
    if has_magic(bytes, &riff, 0) && has_magic(bytes, &webp, 8) {
        return DocumentType::Image("image/webp".to_string());
    }
    if has_magic(bytes, &tiff_le, 0) || has_magic(bytes, &tiff_be, 0) {
        return DocumentType::Image("image/tiff".to_string());
    }
    if has_magic(bytes, &bmp, 0) {
        return DocumentType::Image("image/bmp".to_string());
    }
    DocumentType::Unknown
}

// ---------------------------------------------------------------------------
// The page count of a PDF
// ---------------------------------------------------------------------------

/// The page count that a line of the `pdfinfo` report gives.
pub open spec fn count_in_line(line: Seq<char>) -> Option<nat> {
    if begins(line, "Pages:"@) {
        parsed(trimmed(without_start(line, "Pages:"@)), usize::MAX as nat)
    } else {
        None
    }
}

/// The page count that the first line to give one gives.
pub open spec fn count_in_lines(lines: Seq<Seq<char>>) -> Option<nat>
    decreases lines.len(),
{
    if lines.len() == 0 {
        None
    } else if count_in_line(lines[0]) is Some {
        count_in_line(lines[0])
    } else {
        count_in_lines(lines.skip(1))
    }
}

fn page_count_in_line(line: &str) -> (r: Option<usize>)
    ensures
        match r {
            Some(n) => count_in_line(line@) == Some(n as nat),
            None => count_in_line(line@) is None,
        },
{
    proof {
        reveal_strlit("Pages:");
    }
    if starts_with(line, "Pages:") {
        let count = trim(&strip_start(line, "Pages:"));
        match parse_number(&count, usize::MAX as u64) {
            Some(n) => Some(n as usize),
            None => None,
        }
    } else {
        None
    }
}

/// Reads the page count of a PDF from what `pdfinfo` wrote to its output.
pub fn page_count_of_report(report: &[u8]) -> (r: Result<usize, GatewayError>)
    ensures
        match r {
            Ok(n) => count_in_lines(lines_of(text_of(report@))) == Some(n as nat),
            Err(e) => e is NoPageCount && count_in_lines(lines_of(text_of(report@))) is None,
        },
{
    page_count_of_text(&read_text(report))
}

/// Reads the page count of a PDF from a report of `pdfinfo`.
pub fn page_count_of_text(report: &str) -> (r: Result<usize, GatewayError>)
    ensures
        match r {
            Ok(n) => count_in_lines(lines_of(report@)) == Some(n as nat),
            Err(e) => e is NoPageCount && count_in_lines(lines_of(report@)) is None,
        },
{
    let lines = split_lines(report);
    let ghost all = texts(lines@);
    let mut i: usize = 0;
    proof {
        assert(all.skip(0) =~= all);
    }
    while i < lines.len()
        invariant
            all == texts(lines@),
            all == lines_of(report@),
            i <= lines@.len(),
            count_in_lines(all.skip(i as int)) == count_in_lines(all),
        decreases lines@.len() - i,
    {
        proof {
            assert(all.skip(i as int)[0] == lines@[i as int]@);
            assert(all.skip(i as int).skip(1) =~= all.skip(i + 1));
        }
        if let Some(n) = page_count_in_line(&lines[i]) {
            return Ok(n);
        }
        i += 1;
    }
    Err(GatewayError::NoPageCount)
}

/// Refuses a PDF with more than `max_pages` pages, and one without any.
pub fn check_page_count(pages: usize, max_pages: usize) -> (r: Result<(), GatewayError>)
    ensures
        match r {
            Ok(_) => 0 < pages <= max_pages,
            Err(e) => if pages > max_pages {
                e == (GatewayError::TooManyPages { pages, limit: max_pages })
            } else {
                pages == 0 && e is EmptyPdf
            },
        },
{
    if pages > max_pages {
        return Err(GatewayError::TooManyPages { pages, limit: max_pages });
    }
    if pages == 0 {
        return Err(GatewayError::EmptyPdf);
    }
    Ok(())
}

// ---------------------------------------------------------------------------
// The page images of a PDF
// ---------------------------------------------------------------------------

/// The name of a file beside the page images: what is before its last dot and
/// what is behind, each absent where there is none or where it is no text.
#[derive(Debug)]
pub struct PageFile {
    pub stem: Option<String>,
    pub extension: Option<String>,
}

/// The file is the image of a page: `page-` with the extension `png`.
pub open spec fn is_page_image(file: PageFile) -> bool {
    &&& file.extension is Some
    &&& file.extension->0@ == "png"@
    &&& file.stem is Some
    &&& begins(file.stem->0@, "page-"@)
}

/// The number of the page that the file holds: what follows `page-`, or 0
/// where that is no number.
pub open spec fn page_index(file: PageFile) -> nat {
    match parsed(file.stem->0@.skip(5), usize::MAX as nat) {
        Some(n) => n,
        None => 0,
    }
}

fn is_image(file: &PageFile) -> (r: bool)
    ensures
        r == is_page_image(*file),
{
    match (&file.stem, &file.extension) {
        (Some(stem), Some(extension)) => *extension == "png".to_string() && starts_with(
            stem,
            "page-",
        ),
        _ => false,
    }
}

fn index_of(file: &PageFile) -> (r: usize)
    requires
        is_page_image(*file),
    ensures
        r == page_index(*file),
{
    match &file.stem {
        Some(stem) => {
            proof {
                reveal_strlit("page-");
            }
            let chars = crate::text::chars_of(stem);
            let number = crate::text::string_of(&chars, 5, chars.len());
            proof {
                assert(number@ =~= stem@.skip(5));
            }
            match parse_number(&number, usize::MAX as u64) {
                Some(n) => n as usize,
                None => 0,
            }
        },
        None => 0,
    }
}

/// File `a` comes before file `b`: by page number, and by place in the list
/// where the numbers are the same.
pub open spec fn comes_before(files: Seq<PageFile>, a: int, b: int) -> bool {
    ||| page_index(files[a]) < page_index(files[b])
    ||| page_index(files[a]) == page_index(files[b]) && a < b
}

/// `order` holds the places of the page images among `files`, in the order of
/// their pages.
pub open spec fn is_page_order(files: Seq<PageFile>, order: Seq<usize>) -> bool {
    &&& forall|i: int|
        #![trigger order[i]]
        0 <= i < order.len() ==> order[i] < files.len() && is_page_image(files[order[i] as int])
    &&& forall|k: int|
        #![trigger files[k]]
        0 <= k < files.len() && is_page_image(files[k]) ==> order.contains(k as usize)
    &&& forall|i: int, j: int|
        #![trigger order[i], order[j]]
        0 <= i < j < order.len() ==> comes_before(files, order[i] as int, order[j] as int)
}

/// Puts the page images among `files` in the order of their pages.
pub fn page_order(files: &Vec<PageFile>) -> (r: Vec<usize>)
    ensures
        is_page_order(files@, r@),
{
    let mut r: Vec<usize> = Vec::new();
    let mut n: usize = 0;
    proof {
        assert(files@.take(0) =~= seq![]);
    }
    while n < files.len()
        invariant
            n <= files@.len(),
            is_page_order(files@.take(n as int), r@),
        decreases files@.len() - n,
    {
        let ghost before = r@;
        let ghost seen = files@.take(n as int);
        let ghost next = files@.take(n + 1);
        if is_image(&files[n]) {
            let key: usize = index_of(&files[n]);
            let mut at: usize = r.len();
            while at > 0 && index_of(&files[r[at - 1]]) > key
                invariant
                    n < files@.len(),
                    seen == files@.take(n as int),
                    r@ == before,
                    is_page_order(seen, before),
                    at <= r@.len(),
                    forall|i: int|
                        #![trigger before[i]]
                        0 <= i < before.len() ==> before[i] < n && is_page_image(
                            files@[before[i] as int],
                        ),
                    forall|i: int|
                        #![trigger before[i]]
                        at <= i < before.len() ==> page_index(files@[before[i] as int]) > key,
                decreases at,
            {
                at -= 1;
            }
            proof {
                assert forall|i: int| #![trigger before[i]] 0 <= i < at implies page_index(
                    files@[before[i] as int],
                ) <= key by {
                    if i < at - 1 {
                        assert(comes_before(seen, before[i] as int, before[at - 1] as int));
                    }
                }
            }
            r.insert(at, n);
            proof {
                lemma_insert(files@, n, before, at as int);
            }
        } else {
            proof {
                assert(is_page_order(next, r@)) by {
                    assert forall|k: int|
                        #![trigger next[k]]
                        0 <= k < next.len() && is_page_image(next[k]) implies r@.contains(
                        k as usize,
                    ) by {
                        assert(seen[k] == next[k]);
                    }
                    assert forall|i: int|
                        #![trigger r@[i]]
                        0 <= i < r@.len() implies r@[i] < next.len() && is_page_image(
                        next[r@[i] as int],
                    ) by {
                        assert(seen[r@[i] as int] == next[r@[i] as int]);
                    }
                    assert forall|i: int, j: int|
                        #![trigger r@[i], r@[j]]
                        0 <= i < j < r@.len() implies comes_before(
                        next,
                        r@[i] as int,
                        r@[j] as int,
                    ) by {
                        assert(comes_before(seen, r@[i] as int, r@[j] as int));
                    }
                }
            }
        }
        n += 1;
    }
    proof {
        assert(files@.take(files@.len() as int) =~= files@);
    }
    r
}

proof fn lemma_insert(files: Seq<PageFile>, n: usize, before: Seq<usize>, at: int)
    requires
        n < files.len(),
        is_page_image(files[n as int]),
        is_page_order(files.take(n as int), before),
        0 <= at <= before.len(),
        forall|i: int|
            #![trigger before[i]]
            0 <= i < at ==> page_index(files[before[i] as int]) <= page_index(files[n as int]),
        forall|i: int|
            #![trigger before[i]]
            at <= i < before.len() ==> page_index(files[before[i] as int]) > page_index(
                files[n as int],
            ),
    ensures
        is_page_order(files.take(n + 1), before.insert(at, n)),
{
    let seen = files.take(n as int);
    let next = files.take(n + 1);
    let after = before.insert(at, n);
    assert forall|k: int| #![trigger next[k]] 0 <= k < next.len() && is_page_image(next[k]) implies
        after.contains(k as usize) by {
        if k == n {
            assert(after[at] == n);
        } else {
            assert(seen[k] == next[k]);
            assert(before.contains(k as usize));
            let i = choose|i: int| 0 <= i < before.len() && before[i] == k as usize;
            assert(after[if i < at { i } else { i + 1 }] == k as usize);
        }
    }
    assert forall|i: int| #![trigger after[i]] 0 <= i < after.len() implies after[i] < next.len()
        && is_page_image(next[after[i] as int]) by {
        if i < at {
            assert(after[i] == before[i]);
            assert(seen[before[i] as int] == next[before[i] as int]);
        } else if i > at {
            assert(after[i] == before[i - 1]);
            assert(seen[before[i - 1] as int] == next[before[i - 1] as int]);
        }
    }
    assert forall|i: int, j: int|
        #![trigger after[i], after[j]]
        0 <= i < j < after.len() implies comes_before(next, after[i] as int, after[j] as int) by {
        let x = if i < at { i } else { i - 1 };
        let y = if j < at { j } else { j - 1 };
        if i != at && j != at {
            assert(after[i] == before[x] && after[j] == before[y]);
            assert(comes_before(seen, before[x] as int, before[y] as int));
        } else if i == at {
            assert(after[j] == before[y]);
            assert(before[y] < seen.len());
        } else {
            assert(after[i] == before[x]);
            assert(before[x] < seen.len());
        }
    }
}

} // verus!
