//! What holds of telling, opening and refusing documents, and of the settings.

use vstd::prelude::*;

use crate::config::{number_in, text_in};
use crate::encoding::{
    compact, data_uri_of, decodes, decoding_is_unique, encoded, payload, url_safe_complaint,
};
use crate::errors::{status_of, GatewayError, EMPTY_FILE, WARMING_UP};
use crate::pdf::{
    count_in_line, count_in_lines, format_of, is_page_image, is_page_order, marked, page_index,
    DocumentType, PageFile, TypeValue,
};
use crate::processor::{is_opened, Document};
use crate::text::{
    begins, decimal, includes, is_white, lemma_first_at_is, lemma_first_at_none, occurs_at, parsed,
    trimmed,
};
use crate::text_laws::{
    decimal_form_is_made_of_digits, is_blank, is_free_of, leading_zeros_make_no_difference,
    numbers_are_read_back, other_texts_are_no_numbers, starts_are_taken_off,
    trimming_keeps_what_stands_between,
};

verus! {

broadcast use vstd::seq::group_seq_axioms;

// ---------------------------------------------------------------------------
// Formats
// ---------------------------------------------------------------------------

proof fn lemma_marked(bytes: Seq<u8>, magic: Seq<u8>, at: int)
    requires
        0 <= at,
    ensures
        marked(bytes, magic, at) <==> {
            &&& at + magic.len() <= bytes.len()
            &&& forall|k: int| 0 <= k < magic.len() ==> bytes[at + k] == #[trigger] magic[k]
        },
{
    if at + magic.len() <= bytes.len() {
        let part = bytes.subrange(at, at + magic.len());
        if forall|k: int| 0 <= k < magic.len() ==> bytes[at + k] == #[trigger] magic[k] {
            assert(part =~= magic);
        }
        if part == magic {
            assert forall|k: int| 0 <= k < magic.len() implies bytes[at + k]
                == #[trigger] magic[k] by {
                assert(part[k] == bytes[at + k]);
            }
        }
    }
}

/// A PDF begins with `%PDF-`.
pub open spec fn begins_as_pdf(b: Seq<u8>) -> bool {
    b.len() >= 5 && b[0] == 0x25 && b[1] == 0x50 && b[2] == 0x44 && b[3] == 0x46 && b[4] == 0x2d
}

/// A PNG image begins with 89 50 4E 47.
pub open spec fn begins_as_png(b: Seq<u8>) -> bool {
    b.len() >= 4 && b[0] == 0x89 && b[1] == 0x50 && b[2] == 0x4e && b[3] == 0x47
}

/// A JPEG image begins with FF D8 FF; a fourth byte has to follow.
pub open spec fn begins_as_jpeg(b: Seq<u8>) -> bool {
    b.len() >= 4 && b[0] == 0xff && b[1] == 0xd8 && b[2] == 0xff
}

/// A WebP image begins with `RIFF`, four bytes, and `WEBP`.
pub open spec fn begins_as_webp(b: Seq<u8>) -> bool {
    &&& b.len() >= 12
    &&& b[0] == 0x52 && b[1] == 0x49 && b[2] == 0x46 && b[3] == 0x46
    &&& b[8] == 0x57 && b[9] == 0x45 && b[10] == 0x42 && b[11] == 0x50
}

/// A TIFF image begins with `II*` and a zero, or `MM`, a zero and `*`.
pub open spec fn begins_as_tiff(b: Seq<u8>) -> bool {
    &&& b.len() >= 4
    &&& {
        ||| b[0] == 0x49 && b[1] == 0x49 && b[2] == 0x2a && b[3] == 0x00
        ||| b[0] == 0x4d && b[1] == 0x4d && b[2] == 0x00 && b[3] == 0x2a
    }
}

/// A BMP image begins with `BM`; two more bytes have to follow.
pub open spec fn begins_as_bmp(b: Seq<u8>) -> bool {
    b.len() >= 4 && b[0] == 0x42 && b[1] == 0x4d
}

/// Every document that begins with the magic bytes of a format is told as being
/// of that format, whatever follows them; every other document is of an unknown
/// one.
pub proof fn formats_are_told_by_their_magic_bytes(b: Seq<u8>)
    ensures
        begins_as_pdf(b) <==> format_of(b) == TypeValue::Pdf,
        begins_as_png(b) ==> format_of(b) == TypeValue::Image("image/png"@),
        begins_as_jpeg(b) ==> format_of(b) == TypeValue::Image("image/jpeg"@),
        begins_as_webp(b) ==> format_of(b) == TypeValue::Image("image/webp"@),
        begins_as_tiff(b) ==> format_of(b) == TypeValue::Image("image/tiff"@),
        begins_as_bmp(b) ==> format_of(b) == TypeValue::Image("image/bmp"@),
        format_of(b) == TypeValue::Unknown <==> !(begins_as_pdf(b) || begins_as_png(b)
            || begins_as_jpeg(b) || begins_as_webp(b) || begins_as_tiff(b) || begins_as_bmp(b)),
{
    let pdf = seq![0x25u8, 0x50, 0x44, 0x46, 0x2d];
    let png = seq![0x89u8, 0x50, 0x4e, 0x47];
    let jpeg = seq![0xffu8, 0xd8, 0xff];
    let riff = seq![0x52u8, 0x49, 0x46, 0x46];
    let webp = seq![0x57u8, 0x45, 0x42, 0x50];
    let little = seq![0x49u8, 0x49, 0x2a, 0x00];
    let big = seq![0x4du8, 0x4d, 0x00, 0x2a];
    let bmp = seq![0x42u8, 0x4d];
    lemma_marked(b, pdf, 0);
    lemma_marked(b, png, 0);
    lemma_marked(b, jpeg, 0);
    lemma_marked(b, riff, 0);
    lemma_marked(b, webp, 8);
    lemma_marked(b, little, 0);
    lemma_marked(b, big, 0);
    lemma_marked(b, bmp, 0);
    assert(marked(b, pdf, 0) <==> begins_as_pdf(b)) by {
        if marked(b, pdf, 0) {
            assert(b[0 + 0int] == pdf[0] && b[0 + 1int] == pdf[1] && b[0 + 2int] == pdf[2]);
            assert(b[0 + 3int] == pdf[3] && b[0 + 4int] == pdf[4]);
        }
    }
    assert(b.len() >= 4 && marked(b, png, 0) <==> begins_as_png(b)) by {
        if marked(b, png, 0) {
            assert(b[0 + 0int] == png[0] && b[0 + 1int] == png[1] && b[0 + 2int] == png[2]);
            assert(b[0 + 3int] == png[3]);
        }
    }
    assert(b.len() >= 4 && marked(b, jpeg, 0) <==> begins_as_jpeg(b)) by {
        if marked(b, jpeg, 0) {
            assert(b[0 + 0int] == jpeg[0] && b[0 + 1int] == jpeg[1] && b[0 + 2int] == jpeg[2]);
        }
    }
    assert(marked(b, riff, 0) && marked(b, webp, 8) <==> begins_as_webp(b)) by {
        if marked(b, riff, 0) {
            assert(b[0 + 0int] == riff[0] && b[0 + 1int] == riff[1] && b[0 + 2int] == riff[2]);
            assert(b[0 + 3int] == riff[3]);
        }
        if marked(b, webp, 8) {
            assert(b[8 + 0int] == webp[0] && b[8 + 1int] == webp[1] && b[8 + 2int] == webp[2]);
            assert(b[8 + 3int] == webp[3]);
        }
    }
    assert(b.len() >= 4 && (marked(b, little, 0) || marked(b, big, 0)) <==> begins_as_tiff(b)) by {
        if marked(b, little, 0) {
            assert(b[0 + 0int] == little[0] && b[0 + 1int] == little[1]);
            assert(b[0 + 2int] == little[2] && b[0 + 3int] == little[3]);
        }
        if marked(b, big, 0) {
            assert(b[0 + 0int] == big[0] && b[0 + 1int] == big[1]);
            assert(b[0 + 2int] == big[2] && b[0 + 3int] == big[3]);
        }
    }
    assert(b.len() >= 4 && marked(b, bmp, 0) <==> begins_as_bmp(b)) by {
        if marked(b, bmp, 0) {
            assert(b[0 + 0int] == bmp[0] && b[0 + 1int] == bmp[1]);
        }
    }
}

/// The value of a document type tells the type, and the media type of an image.
pub proof fn type_values_tell_the_type(t: DocumentType)
    ensures
        t is Pdf <==> t@ is Pdf,
        t is Unknown <==> t@ is Unknown,
        t matches DocumentType::Image(mime) ==> t@ == TypeValue::Image(mime@),
{
}

// ---------------------------------------------------------------------------
// Opening a document
// ---------------------------------------------------------------------------

/// The Base64 of a text is what follows the first `;base64,`; without one, what
/// follows the first comma; without a comma, all of it.
pub proof fn base64_follows_its_mark(prefix: Seq<char>, body: Seq<char>)
    ensures
        is_free_of(prefix, ";base64,"@) ==> payload(prefix + ";base64,"@ + body) == body,
        !prefix.contains(',') && is_free_of(prefix + ","@ + body, ";base64,"@) ==> payload(
            prefix + ","@ + body,
        ) == body,
        !body.contains(',') ==> payload(body) == body,
{
    reveal_strlit(";base64,");
    reveal_strlit(",");
    let mark = ";base64,"@;
    let n = prefix.len() as int;
    if is_free_of(prefix, mark) {
        let raw = prefix + mark + body;
        assert(raw.subrange(n, n + 8) =~= mark);
        assert forall|k: int| 0 <= k < n implies !occurs_at(raw, mark, k) by {
            if occurs_at(raw, mark, k) {
                if k + 8 > n {
                    assert(raw.subrange(k, k + 8)[n - k] == raw[n]);
                    assert(mark[n - k] == ';');
                } else {
                    assert(prefix.subrange(k, k + mark.len()) =~= raw.subrange(k, k + 8));
                }
            }
        }
        lemma_first_at_is(raw, mark, 0, n);
        assert(raw.skip(n + 8) =~= body);
    }
    let raw = prefix + ","@ + body;
    if !prefix.contains(',') && is_free_of(raw, mark) {
        assert forall|k: int| 0 <= k implies !occurs_at(raw, mark, k) by {
            if occurs_at(raw, mark, k) {
                assert(raw.subrange(k, k + mark.len()) != mark);
            }
        }
        lemma_first_at_none(raw, mark, 0);
        assert(raw.subrange(n, n + 1) =~= ","@);
        assert forall|k: int| 0 <= k < n implies !occurs_at(raw, ","@, k) by {
            if occurs_at(raw, ","@, k) {
                assert(raw.subrange(k, k + 1)[0] == prefix[k]);
                assert(prefix.contains(prefix[k]));
            }
        }
        lemma_first_at_is(raw, ","@, 0, n);
        assert(raw.skip(n + 1) =~= body);
    }
    if !body.contains(',') {
        assert forall|k: int| 0 <= k implies !occurs_at(body, ","@, k) by {
            if occurs_at(body, ","@, k) {
                assert(body.subrange(k, k + 1)[0] == body[k]);
                assert(body.contains(body[k]));
            }
        }
        assert forall|k: int| 0 <= k implies !occurs_at(body, mark, k) by {
            if occurs_at(body, mark, k) {
                assert(body.subrange(k, k + 8)[7] == body[k + 7]);
                assert(body.contains(body[k + 7]));
            }
        }
        lemma_first_at_none(body, ","@, 0);
        lemma_first_at_none(body, mark, 0);
    }
}

/// Of the Base64, every character is read but white space.
pub proof fn only_white_space_is_passed_over(a: Seq<char>, c: char, b: Seq<char>)
    ensures
        compact(a + seq![c] + b) == if is_white(c) {
            compact(a) + compact(b)
        } else {
            compact(a) + seq![c] + compact(b)
        },
        compact(Seq::<char>::empty()) == Seq::<char>::empty(),
{
    let keep = |x: char| !is_white(x);
    reveal(Seq::filter);
    Seq::filter_distributes_over_add(a + seq![c], b, keep);
    Seq::filter_distributes_over_add(a, seq![c], keep);
    assert(seq![c].drop_last() =~= seq![]);
    assert(Seq::<char>::empty().filter(keep) =~= seq![]);
    if is_white(c) {
        assert(!keep(c));
        assert(seq![c].filter(keep) =~= seq![]);
        assert(a.filter(keep) + seq![] =~= a.filter(keep));
    } else {
        assert(keep(c));
        assert(seq![c].filter(keep) =~= seq![c]);
    }
}

/// A data URI is made of its scheme, its media type, the mark of Base64, and
/// the Base64 of its bytes.
pub proof fn data_uri_names_its_type_and_holds_its_bytes(mime: Seq<char>, bytes: Seq<u8>)
    ensures
        ({
            let uri = data_uri_of(mime, bytes);
            let n = mime.len() as int;
            &&& uri.len() >= n + 13
            &&& uri.take(5) == "data:"@
            &&& uri.subrange(5, 5 + n) == mime
            &&& uri.subrange(5 + n, 13 + n) == ";base64,"@
            &&& encoded(bytes, false) == uri.skip(13 + n)
        }),
{
    reveal_strlit("data:");
    reveal_strlit(";base64,");
    let uri = data_uri_of(mime, bytes);
    let n = mime.len() as int;
    assert(uri.take(5) =~= "data:"@);
    assert(uri.subrange(5, 5 + n) =~= mime);
    assert(uri.subrange(5 + n, 13 + n) =~= ";base64,"@);
    assert(uri.skip(13 + n) =~= encoded(bytes, false));
}

/// A text that is the Base64 of a PDF or of an image opens as that document,
/// with all of its bytes; one that is the Base64 of anything else is of an
/// unsupported format; and one that is no Base64 is refused as such.
pub proof fn documents_open_as_what_they_are(
    raw: Seq<char>,
    b: Seq<u8>,
    r: Result<Document, GatewayError>,
)
    requires
        is_opened(raw, r),
    ensures
        decodes(compact(payload(raw)), b) ==> {
            &&& begins_as_pdf(b) ==> (r matches Ok(Document::Pdf { bytes }) && bytes@ == b)
            &&& begins_as_png(b) ==> (r matches Ok(Document::Image { mime, bytes }) && mime@
                == "image/png"@ && bytes@ == b)
            &&& begins_as_jpeg(b) ==> (r matches Ok(Document::Image { mime, bytes }) && mime@
                == "image/jpeg"@ && bytes@ == b)
            &&& begins_as_webp(b) ==> (r matches Ok(Document::Image { mime, bytes }) && mime@
                == "image/webp"@ && bytes@ == b)
            &&& begins_as_tiff(b) ==> (r matches Ok(Document::Image { mime, bytes }) && mime@
                == "image/tiff"@ && bytes@ == b)
            &&& begins_as_bmp(b) ==> (r matches Ok(Document::Image { mime, bytes }) && mime@
                == "image/bmp"@ && bytes@ == b)
            &&& r is Err ==> r->Err_0 is UnsupportedFormat
            &&& r is Ok <==> begins_as_pdf(b) || begins_as_png(b) || begins_as_jpeg(b)
                || begins_as_webp(b) || begins_as_tiff(b) || begins_as_bmp(b)
        },
        (forall|x: Seq<u8>| !#[trigger] decodes(compact(payload(raw)), x)) ==> (r matches Err(
            GatewayError::Base64 { detail },
        ) && detail@ == url_safe_complaint(compact(payload(raw)))),
{
    let text = compact(payload(raw));
    formats_are_told_by_their_magic_bytes(b);
    assert forall|x: Seq<u8>| #[trigger] decodes(text, x) && decodes(text, b) implies x == b by {
        decoding_is_unique(text, x, b);
    }
}

// ---------------------------------------------------------------------------
// The pages of a PDF
// ---------------------------------------------------------------------------

/// A line that names a page count gives that count, wherever white space stands
/// around it; a line that does not begin with `Pages:` gives none.
pub proof fn page_count_is_read_from_its_line(a: Seq<char>, n: nat, b: Seq<char>, other: Seq<char>)
    requires
        is_blank(a),
        is_blank(b),
    ensures
        count_in_line("Pages:"@ + (a + decimal(n) + b)) == if n <= usize::MAX {
            Some(n)
        } else {
            None
        },
        !(other.len() >= 6 && other.take(6) == "Pages:"@) ==> count_in_line(other) is None,
{
    reveal_strlit("Pages:");
    let tail = a + decimal(n) + b;
    let line = "Pages:"@ + tail;
    assert(line.subrange(0, 6) =~= "Pages:"@);
    decimal_form_is_made_of_digits(n);
    let d = decimal(n);
    assert('0' <= d[0] <= '9');
    assert('0' <= d[d.len() - 1] <= '9');
    trimming_keeps_what_stands_between(a, d, b);
    starts_are_taken_off(tail, "Pages:"@);
    if tail.len() >= 6 && tail.take(6) == "Pages:"@ {
        assert(tail.take(6)[0] == tail[0]);
        assert(tail[0] == 'P');
        if a.len() > 0 {
            assert(tail[0] == a[0]);
            assert(is_white(a[0]));
        } else {
            assert(tail[0] == d[0]);
        }
        assert(false);
    }
    numbers_are_read_back(n, usize::MAX as nat);
    if begins(other, "Pages:"@) {
        assert(other.take(6) =~= other.subrange(0, 6));
    }
}

/// What follows `Pages:` on a line is a count where it is a number, but for the
/// white space around it, and else none.
pub proof fn only_numbers_are_page_counts(t: Seq<char>)
    requires
        !(t.len() >= 6 && t.take(6) == "Pages:"@),
    ensures
        count_in_line("Pages:"@ + t) == parsed(trimmed(t), usize::MAX as nat),
{
    reveal_strlit("Pages:");
    let line = "Pages:"@ + t;
    assert(line.subrange(0, 6) =~= "Pages:"@);
    starts_are_taken_off(t, "Pages:"@);
}

/// The count of a report is that of its first line that gives one.
pub proof fn first_page_count_of_a_report_counts(
    before: Seq<Seq<char>>,
    line: Seq<char>,
    rest: Seq<Seq<char>>,
)
    requires
        forall|i: int| 0 <= i < before.len() ==> count_in_line(#[trigger] before[i]) is None,
        count_in_line(line) is Some,
    ensures
        count_in_lines(before + seq![line] + rest) == count_in_line(line),
        count_in_lines(before) is None,
    decreases before.len(),
{
    let all = before + seq![line] + rest;
    if before.len() == 0 {
        assert(all[0] == line);
    } else {
        assert(all[0] == before[0]);
        let t = before.skip(1);
        assert forall|i: int| 0 <= i < t.len() implies count_in_line(#[trigger] t[i]) is None by {
            assert(t[i] == before[i + 1]);
        }
        first_page_count_of_a_report_counts(t, line, rest);
        assert(all.skip(1) =~= t + seq![line] + rest);
    }
}

/// The image of page `n` is a file with the stem `page-` and that number, with
/// the extension `png`; its place is told by the number.
pub proof fn page_images_are_told_by_their_names(file: PageFile, n: nat)
    requires
        file.stem is Some,
        file.extension is Some,
        file.stem->0@ == "page-"@ + decimal(n),
        n <= usize::MAX,
    ensures
        is_page_image(file) <==> file.extension->0@ == "png"@,
        page_index(file) == n,
{
    reveal_strlit("page-");
    let stem = file.stem->0@;
    assert(stem.subrange(0, 5) =~= "page-"@);
    assert(stem.skip(5) =~= decimal(n));
    numbers_are_read_back(n, usize::MAX as nat);
}

/// Zeros before the number of a page make no difference to its place, and a
/// file without a number comes first.
pub proof fn padded_page_numbers_count_the_same(
    file: PageFile,
    digits: Seq<char>,
    padded: PageFile,
    i: int,
)
    requires
        file.stem is Some,
        padded.stem is Some,
        file.stem->0@ == "page-"@ + digits,
        padded.stem->0@ == "page-"@ + (seq!['0'] + digits),
    ensures
        digits.len() > 0 && (forall|k: int|
            0 <= k < digits.len() ==> '0' <= #[trigger] digits[k] <= '9') ==> page_index(padded)
            == page_index(file),
        0 <= i < digits.len() && !('0' <= digits[i] <= '9') && (i > 0 || digits[0] != '+')
            ==> page_index(file) == 0,
{
    reveal_strlit("page-");
    assert(file.stem->0@.skip(5) =~= digits);
    assert(padded.stem->0@.skip(5) =~= seq!['0'] + digits);
    if digits.len() > 0 && (forall|k: int|
        0 <= k < digits.len() ==> '0' <= #[trigger] digits[k] <= '9') {
        leading_zeros_make_no_difference(digits, usize::MAX as nat);
    }
    if 0 <= i < digits.len() && !('0' <= digits[i] <= '9') && (i > 0 || digits[0] != '+') {
        other_texts_are_no_numbers(digits, i, usize::MAX as nat);
    }
}

/// A file without a stem or an extension, or with a stem that does not begin
/// with `page-`, is no page image.
pub proof fn other_files_are_no_page_images(file: PageFile)
    requires
        file.stem is None || file.extension is None || !(file.stem->0@.len() >= 5
            && file.stem->0@.take(5) == "page-"@),
    ensures
        !is_page_image(file),
{
    reveal_strlit("page-");
    if is_page_image(file) {
        let stem = file.stem->0@;
        assert(stem.take(5) =~= stem.subrange(0, 5));
    }
}

/// The order lists every page image and nothing else, each once, by the number
/// of its page; those with the same number keep the order in which they came.
pub proof fn page_order_lists_every_image_once(files: Seq<PageFile>, order: Seq<usize>)
    requires
        files.len() <= usize::MAX,
        is_page_order(files, order),
    ensures
        forall|k: usize|
            #[trigger]
            order.contains(k) <==> k < files.len() && is_page_image(files[k as int]),
        forall|i: int, j: int|
            #![trigger order[i], order[j]]
            0 <= i < j < order.len() ==> {
                let (a, b) = (order[i] as int, order[j] as int);
                &&& a != b
                &&& page_index(files[a]) <= page_index(files[b])
                &&& page_index(files[a]) == page_index(files[b]) ==> a < b
            },
{
    assert forall|k: usize|
        #[trigger]
        order.contains(k) <==> k < files.len() && is_page_image(files[k as int]) by {
        if order.contains(k) {
            let i = choose|i: int| 0 <= i < order.len() && order[i] == k;
            assert(order[i] < files.len());
        }
        if k < files.len() && is_page_image(files[k as int]) {
            assert(order.contains((k as int) as usize));
        }
    }
}

// ---------------------------------------------------------------------------
// Errors
// ---------------------------------------------------------------------------

/// A client is told of an error in its words, and only while the inference
/// server is not ready to wait.
pub proof fn errors_are_told_in_their_words(e: GatewayError)
    ensures
        e is Connect ==> e.told() == WARMING_UP@,
        !(e is Connect) && !(e is Refused) ==> e.told() == e.text() && e.status() == status_of(
            e.text(),
        ),
        e matches GatewayError::Refused { status, .. } ==> if status@.len() >= 3 && status@.take(3)
            == "503"@ {
            e.told() == WARMING_UP@ && e.status() == 503
        } else {
            e.told() == e.text() && e.status() == status_of(e.text())
        },
{
    reveal_strlit("503");
    if let GatewayError::Refused { status, .. } = e {
        if status@.len() >= 3 {
            assert(status@.take(3) =~= status@.subrange(0, 3));
        }
    }
}

/// What an error says holds what it is about, from its first character to its
/// last.
pub proof fn errors_say_what_they_are_about(
    name: String,
    pages: usize,
    limit: usize,
    a: String,
    b: String,
)
    ensures
        (GatewayError::Pattern { name }).text() == "Failed to compile "@ + name@,
        (GatewayError::TooManyPages { pages, limit }).text() == "PDF contains "@ + decimal(
            pages as nat,
        ) + " pages, which exceeds the maximum allowable limit of "@ + decimal(limit as nat)
            + " pages (PDF_MAX_SIZE)"@,
        (GatewayError::PdfInfo { stderr: a }).text() == "Failed to inspect PDF metadata: "@ + a@,
        (GatewayError::Connect { endpoint: a, cause: b }).text()
            == "Failed to connect to vLLM endpoint at "@ + a@,
        (GatewayError::Send { endpoint: a, cause: b }).text()
            == "Failed to connect to vLLM endpoint at "@ + a@,
        (GatewayError::Refused { status: a, body: b }).text() == "vLLM server returned error "@ + a@
            + ": "@ + b@,
        (GatewayError::Other { context: a, cause: b }).text() == a@,
{
}

/// An error that is about nothing else always says the same.
pub proof fn other_errors_have_fixed_words(a: String)
    ensures
        (GatewayError::Base64 { detail: a }).text() == "Failed to decode input document as Base64"@,
        GatewayError::UnsupportedFormat.text()
            == "Unsupported document format. Please supply a valid PDF, PNG, JPEG, WebP, TIFF, or BMP file."@,
        GatewayError::EmptyPdf.text() == "PDF has 0 pages"@,
        GatewayError::NoPageImages.text() == "PDF contained no rasterizable pages"@,
        GatewayError::NoPageCount.text() == "Could not determine page count from PDF metadata"@,
        (GatewayError::BadReply { cause: a }).text()
            == "Failed to deserialize vLLM chat response JSON"@,
{
}

/// A client that wants to listen is refused before anything is sent for a
/// document that cannot be read or is too large, and while the inference server
/// is not ready; of every other error it is told while it listens.
pub proof fn refusals_come_before_anything_is_sent(e: GatewayError)
    ensures
        e is Base64 || e is UnsupportedFormat || e is TooManyPages || e is Connect
            ==> e.is_refusal(),
        e matches GatewayError::Refused { status, .. } ==> (e.is_refusal() <==> status@.len() >= 3
            && status@.take(3) == "503"@),
        e is Pattern || e is EmptyPdf || e is NoPageImages || e is PdfInfo || e is NoPageCount
            || e is Send || e is BadReply || e is Other ==> !e.is_refusal(),
{
    reveal_strlit("503");
    if let GatewayError::Refused { status, .. } = e {
        if status@.len() >= 3 {
            assert(status@.take(3) =~= status@.subrange(0, 3));
        }
    }
}

/// What a client is told while it has to wait, and what it is told that sends
/// no document.
pub proof fn clients_are_told_what_to_do()
    ensures
        WARMING_UP@
            == "GPU Inference Server (baidu/Unlimited-OCR on NVIDIA A100) is currently initializing model weights. Please wait a moment until the GPU engine is ready."@,
        EMPTY_FILE@
            == "The 'file' field cannot be empty. Please provide a Base64-encoded PDF or image."@,
{
}

/// With its cause, an error says what it says without, then the cause.
pub proof fn errors_name_their_causes(e: GatewayError, a: String, b: String)
    ensures
        b@.len() > 0 ==> {
            &&& (GatewayError::Connect { endpoint: a, cause: b }).full_text() == (
            GatewayError::Connect { endpoint: a, cause: b }).text() + ": "@ + b@
            &&& (GatewayError::Send { endpoint: a, cause: b }).full_text() == (
            GatewayError::Send { endpoint: a, cause: b }).text() + ": "@ + b@
            &&& (GatewayError::BadReply { cause: b }).full_text() == (
            GatewayError::BadReply { cause: b }).text() + ": "@ + b@
            &&& (GatewayError::Other { context: a, cause: b }).full_text() == a@ + ": "@ + b@
        },
        b@.len() == 0 ==> (GatewayError::Other { context: a, cause: b }).full_text() == a@,
        (GatewayError::Base64 { detail: b }).full_text() == (
        GatewayError::Base64 { detail: b }).text() + ": "@ + ("Failed to decode Base64 string: "@
            + b@),
        e is Pattern || e is UnsupportedFormat || e is TooManyPages || e is EmptyPdf
            || e is NoPageImages || e is PdfInfo || e is NoPageCount || e is Refused
            ==> e.full_text() == e.text(),
{
    reveal_strlit("");
    reveal_strlit("Failed to decode Base64 string: ");
}

/// The HTTP status of an error goes by the words in it, the words for too large
/// a document before those for a bad one, and those before the words for a
/// server that fails.
pub proof fn statuses_go_by_words(a: Seq<char>, b: Seq<char>, message: Seq<char>)
    ensures
        status_of(a + "exceeds the maximum allowable limit"@ + b) == 413,
        !includes(a + "Unsupported document format"@ + b, "exceeds the maximum allowable limit"@)
            ==> status_of(a + "Unsupported document format"@ + b) == 400,
        !includes(a + "Base64"@ + b, "exceeds the maximum allowable limit"@) ==> status_of(
            a + "Base64"@ + b,
        ) == 400,
        ({
            let blamed = |m: Seq<char>|
                includes(m, "exceeds the maximum allowable limit"@) || includes(
                    m,
                    "Unsupported document format"@,
                ) || includes(m, "Base64"@);
            let failed = |m: Seq<char>|
                includes(m, "connection"@) || includes(m, "refused"@) || includes(m, "vLLM"@)
                    || includes(m, "503"@);
            &&& !blamed(message) && failed(message) ==> status_of(message) == 503
            &&& !blamed(message) && !failed(message) ==> status_of(message) == 500
        }),
{
    lemma_holds(a, "exceeds the maximum allowable limit"@, b);
    lemma_holds(a, "Unsupported document format"@, b);
    lemma_holds(a, "Base64"@, b);
}

proof fn lemma_holds(a: Seq<char>, m: Seq<char>, b: Seq<char>)
    ensures
        includes(a + m + b, m),
{
    let s = a + m + b;
    let n = a.len() as int;
    assert(s.subrange(n, n + m.len()) =~= m);
    assert(occurs_at(s, m, n));
}

// ---------------------------------------------------------------------------
// Settings
// ---------------------------------------------------------------------------

/// A setting that a variable writes as a number is that number where it is not
/// too large; a variable that is not set, or writes none, leaves the default.
pub proof fn settings_are_what_is_written(
    variable: Option<String>,
    n: nat,
    max: nat,
    default: nat,
    text: Seq<char>,
)
    ensures
        variable is None ==> number_in(variable, max, default) == default && text_in(
            variable,
            text,
        ) == text,
        variable matches Some(v) ==> text_in(variable, text) == v@,
        variable is Some && variable->0@ == decimal(n) ==> number_in(variable, max, default) == if n
            <= max {
            n
        } else {
            default
        },
        variable is Some && parsed(variable->0@, max) is None ==> number_in(variable, max, default)
            == default,
{
    numbers_are_read_back(n, max);
}

} // verus!
