//! Base64 with padding (RFC 4648), and the way in which clients hand a
//! document over in it.

use base64::engine::general_purpose::{STANDARD, URL_SAFE};
use base64::Engine;
use vstd::prelude::*;

use crate::text::{
    chars_of, concat, find_from, first_at, includes, is_white, is_white_space, lemma_first_at,
    lemma_first_at_is, lemma_first_at_none, occurs_at, string_of,
};

verus! {

broadcast use vstd::seq::group_seq_axioms;

/// The symbol of a value of six bits, in the standard alphabet or in the one
/// that is safe in URLs and file names.
pub open spec fn symbol(n: int, url_safe: bool) -> char {
    if n < 26 {
        (n + 'A' as int) as char
    } else if n < 52 {
        (n - 26 + 'a' as int) as char
    } else if n < 62 {
        (n - 52 + '0' as int) as char
    } else if n == 62 {
        if url_safe {
            '-'
        } else {
            '+'
        }
    } else {
        if url_safe {
            '_'
        } else {
            '/'
        }
    }
}

/// The byte at position `i`, zero behind the end.
pub open spec fn byte_at(bytes: Seq<u8>, i: int) -> int {
    if 0 <= i < bytes.len() {
        bytes[i] as int
    } else {
        0
    }
}

/// The six bits at position `k` of the bits of `bytes` in a row.
pub open spec fn sextet(bytes: Seq<u8>, k: int) -> int {
    let i = k / 4 * 3;
    if k % 4 == 0 {
        byte_at(bytes, i) / 4
    } else if k % 4 == 1 {
        byte_at(bytes, i) % 4 * 16 + byte_at(bytes, i + 1) / 16
    } else if k % 4 == 2 {
        byte_at(bytes, i + 1) % 16 * 4 + byte_at(bytes, i + 2) / 64
    } else {
        byte_at(bytes, i + 2) % 64
    }
}

/// `bytes` in Base64: a symbol for each six bits that hold a bit of `bytes`,
/// filled up with `=` to a multiple of four characters.
pub open spec fn encoded(bytes: Seq<u8>, url_safe: bool) -> Seq<char> {
    Seq::new(
        (bytes.len() + 2) / 3 * 4,
        |k: int|
            if k < (bytes.len() * 4 + 2) / 3 {
                symbol(sextet(bytes, k), url_safe)
            } else {
                '='
            },
    )
}

/// `text` is `bytes` in Base64, in one of the two alphabets.
pub open spec fn decodes(text: Seq<char>, bytes: Seq<u8>) -> bool {
    encoded(bytes, false) == text || encoded(bytes, true) == text
}

/// What the URL-safe decoder says of a text that it refuses.
pub uninterp spec fn url_safe_complaint(text: Seq<char>) -> Seq<char>;

/// `Engine::encode` of the standard engine writes bytes in the standard
/// alphabet of RFC 4648, with padding.
#[verifier::external_body]
pub(crate) fn encode_standard(bytes: &[u8]) -> (r: String)
    ensures
        r@ == encoded(bytes@, false),
{
    STANDARD.encode(bytes)
}

/// `Engine::decode` of the standard engine gives back the bytes of a text that
/// is their encoding to the character: padding has to be there, and bits that
/// hold no data have to be zero. It refuses every other text.
#[verifier::external_body]
fn decode_standard(text: &str) -> (r: Option<Vec<u8>>)
    ensures
        match r {
            Some(b) => encoded(b@, false) == text@,
            None => forall|b: Seq<u8>| #[trigger] encoded(b, false) != text@,
        },
{
    STANDARD.decode(text).ok()
}

/// `Engine::decode` of the URL-safe engine does the same for the URL-safe
/// alphabet. What it says of a text that it refuses depends on the text alone.
#[verifier::external_body]
fn decode_url_safe(text: &str) -> (r: Result<Vec<u8>, String>)
    ensures
        match r {
            Ok(b) => encoded(b@, true) == text@,
            Err(e) => (forall|b: Seq<u8>| #[trigger] encoded(b, true) != text@) && e@
                == url_safe_complaint(text@),
        },
{
    URL_SAFE.decode(text).map_err(|e| e.to_string())
}

/// The part of a client's text that holds the Base64: what follows the first
/// `;base64,`, or the first comma, or all of it.
pub open spec fn payload(raw: Seq<char>) -> Seq<char> {
    match first_at(raw, ";base64,"@, 0) {
        Some(i) => raw.skip(i + 8),
        None => match first_at(raw, ","@, 0) {
            Some(i) => raw.skip(i + 1),
            None => raw,
        },
    }
}

/// `s` without white space.
pub open spec fn compact(s: Seq<char>) -> Seq<char> {
    s.filter(|c: char| !is_white(c))
}

fn without_white_space(text: &str) -> (r: String)
    ensures
        r@ == compact(text@),
{
    let chars = chars_of(text);
    let ghost keep = |c: char| !is_white(c);
    let mut r = String::new();
    let mut i: usize = 0;
    proof {
        reveal(Seq::filter);
        assert(chars@.take(0) =~= seq![]);
    }
    while i < chars.len()
        invariant
            keep == |c: char| !is_white(c),
            i <= chars@.len(),
            r@ == chars@.take(i as int).filter(keep),
        decreases chars@.len() - i,
    {
        let c: char = chars[i];
        proof {
            reveal(Seq::filter);
            assert(chars@.take(i + 1).drop_last() =~= chars@.take(i as int));
        }
        if !is_white_space(c) {
            r.push(c);
        }
        i += 1;
    }
    proof {
        assert(chars@.take(chars@.len() as int) =~= chars@);
    }
    r
}

/// Why a text is no Base64.
#[derive(Debug)]
pub struct Base64Error {
    /// What the decoder says.
    pub detail: String,
}

/// Decodes a document from the text of a client: takes the prefix of a data
/// URI and all white space away, and reads the rest as Base64 in the standard
/// alphabet or else in the URL-safe one.
pub fn clean_and_decode_base64(raw_input: &str) -> (r: Result<Vec<u8>, Base64Error>)
    ensures
        match r {
            Ok(b) => decodes(compact(payload(raw_input@)), b@),
            Err(e) => {
                &&& forall|b: Seq<u8>| !#[trigger] decodes(compact(payload(raw_input@)), b)
                &&& e.detail@ == url_safe_complaint(compact(payload(raw_input@)))
            },
        },
{
    let chars = chars_of(raw_input);
    proof {
        reveal_strlit(";base64,");
        reveal_strlit(",");
        lemma_first_at(chars@, ";base64,"@, 0);
        lemma_first_at(chars@, ","@, 0);
        assert(chars@.skip(0) =~= chars@);
    }
    let start: usize = match find_from(&chars, &chars_of(";base64,"), 0) {
        Some(i) => i + 8,
        None => match find_from(&chars, &chars_of(","), 0) {
            Some(i) => i + 1,
            None => 0,
        },
    };
    let data = string_of(&chars, start, chars.len());
    proof {
        assert(data@ =~= payload(raw_input@));
    }
    let text = without_white_space(&data);
    match decode_standard(&text) {
        Some(b) => Ok(b),
        None => match decode_url_safe(&text) {
            Ok(b) => Ok(b),
            Err(detail) => Err(Base64Error { detail }),
        },
    }
}

/// A data URI that holds `bytes` in Base64.
pub open spec fn data_uri_of(mime: Seq<char>, bytes: Seq<u8>) -> Seq<char> {
    "data:"@ + mime + ";base64,"@ + encoded(bytes, false)
}

/// Writes a data URI that holds `bytes` in Base64.
pub fn data_uri(mime: &str, bytes: &[u8]) -> (r: String)
    ensures
        r@ == data_uri_of(mime@, bytes@),
{
    let mut r = concat("data:", mime);
    r.append(";base64,");
    r.append(&encode_standard(bytes));
    r
}

// ---------------------------------------------------------------------------
// Laws
// ---------------------------------------------------------------------------

proof fn lemma_symbol(a: int, b: int, x: bool, y: bool)
    requires
        0 <= a < 64,
        0 <= b < 64,
        symbol(a, x) == symbol(b, y),
    ensures
        a == b,
        symbol(a, x) != '=',
{
}

proof fn lemma_sextet_range(bytes: Seq<u8>, k: int)
    ensures
        0 <= sextet(bytes, k) < 64,
{
}

/// A text is the encoding of one row of bytes at most, whichever of the two
/// alphabets it uses.
pub proof fn decoding_is_unique(text: Seq<char>, a: Seq<u8>, b: Seq<u8>)
    requires
        decodes(text, a),
        decodes(text, b),
    ensures
        a == b,
{
    let x = encoded(a, false) != text;
    let y = encoded(b, false) != text;
    assert(encoded(a, x) == encoded(b, y));
    assert(encoded(a, x).len() == encoded(b, y).len());
    let used_a = (a.len() * 4 + 2) / 3;
    let used_b = (b.len() * 4 + 2) / 3;
    if used_a != used_b {
        let k = if used_a < used_b {
            used_a as int
        } else {
            used_b as int
        };
        lemma_sextet_range(a, k);
        lemma_sextet_range(b, k);
        lemma_symbol(sextet(a, k), sextet(a, k), x, x);
        lemma_symbol(sextet(b, k), sextet(b, k), y, y);
        assert(encoded(a, x)[k] == encoded(b, y)[k]);
        assert(false);
    }
    assert(a.len() == b.len());
    assert forall|k: int| 0 <= k < used_a implies sextet(a, k) == sextet(b, k) by {
        lemma_sextet_range(a, k);
        lemma_sextet_range(b, k);
        assert(encoded(a, x)[k] == encoded(b, y)[k]);
        lemma_symbol(sextet(a, k), sextet(b, k), x, y);
    }
    assert forall|i: int| 0 <= i < a.len() implies a[i] == b[i] by {
        let k = i / 3 * 4 + i % 3;
        assert(sextet(a, k) == sextet(b, k));
        assert(sextet(a, k + 1) == sextet(b, k + 1));
    }
    assert(a =~= b);
}

/// The characters of Base64 are neither white space nor the marks of a data
/// URI.
proof fn lemma_encoded_chars(bytes: Seq<u8>, url_safe: bool)
    ensures
        forall|k: int|
            #![trigger encoded(bytes, url_safe)[k]]
            0 <= k < encoded(bytes, url_safe).len() ==> {
                &&& !is_white(encoded(bytes, url_safe)[k])
                &&& encoded(bytes, url_safe)[k] != ','
                &&& encoded(bytes, url_safe)[k] != ';'
            },
{
    assert forall|k: int|
        #![trigger encoded(bytes, url_safe)[k]]
        0 <= k < encoded(bytes, url_safe).len() implies {
        &&& !is_white(encoded(bytes, url_safe)[k])
        &&& encoded(bytes, url_safe)[k] != ','
        &&& encoded(bytes, url_safe)[k] != ';'
    } by {
        lemma_sextet_range(bytes, k);
    }
}

proof fn lemma_filter_none(s: Seq<char>)
    requires
        forall|i: int| 0 <= i < s.len() ==> !is_white(#[trigger] s[i]),
    ensures
        compact(s) == s,
    decreases s.len(),
{
    reveal(Seq::filter);
    if s.len() > 0 {
        lemma_filter_none(s.drop_last());
        assert(s =~= s.drop_last().push(s.last()));
    }
}

/// Bytes in Base64 are read back as they were, in either alphabet, wherever
/// white space stands in the text.
pub proof fn plain_text_is_read_back(body: Seq<char>, bytes: Seq<u8>, url_safe: bool)
    requires
        compact(body) == encoded(bytes, url_safe),
    ensures
        decodes(compact(payload(body)), bytes),
{
    lemma_body(body, bytes, url_safe);
    reveal_strlit(";base64,");
    reveal_strlit(",");
    assert forall|k: int| 0 <= k implies !occurs_at(body, ","@, k) && !occurs_at(
        body,
        ";base64,"@,
        k,
    ) by {
        if occurs_at(body, ","@, k) {
            assert(body.subrange(k, k + 1)[0] == body[k]);
        }
        if occurs_at(body, ";base64,"@, k) {
            assert(body.subrange(k, k + 8)[0] == body[k]);
        }
    }
    lemma_first_at_none(body, ","@, 0);
    lemma_first_at_none(body, ";base64,"@, 0);
}

/// Bytes in a data URI are read back as they were, in either alphabet, wherever
/// white space stands in the text.
pub proof fn data_uri_is_read_back(
    prefix: Seq<char>,
    body: Seq<char>,
    bytes: Seq<u8>,
    url_safe: bool,
)
    requires
        !includes(prefix, ";base64,"@),
        compact(body) == encoded(bytes, url_safe),
    ensures
        decodes(compact(payload(prefix + ";base64,"@ + body)), bytes),
{
    lemma_body(body, bytes, url_safe);
    reveal_strlit(";base64,");
    let raw = prefix + ";base64,"@ + body;
    let n = prefix.len() as int;
    assert(raw.subrange(n, n + 8) =~= ";base64,"@);
    assert forall|k: int| 0 <= k < n implies !occurs_at(raw, ";base64,"@, k) by {
        if occurs_at(raw, ";base64,"@, k) {
            if k + 8 > n {
                assert(raw.subrange(k, k + 8)[n - k] == raw[n]);
                assert(";base64,"@[n - k] == ';');
            } else {
                assert(prefix.subrange(k, k + 8) =~= raw.subrange(k, k + 8));
                assert(occurs_at(prefix, ";base64,"@, k));
            }
        }
    }
    lemma_first_at_is(raw, ";base64,"@, 0, n);
    assert(raw.skip(n + 8) =~= body);
}

/// What `data_uri` writes, `clean_and_decode_base64` reads back.
pub proof fn written_data_uri_is_read_back(mime: Seq<char>, bytes: Seq<u8>)
    requires
        !includes(mime, ";base64,"@),
    ensures
        decodes(compact(payload(data_uri_of(mime, bytes))), bytes),
{
    let body = encoded(bytes, false);
    lemma_encoded_chars(bytes, false);
    lemma_filter_none(body);
    let prefix = "data:"@ + mime;
    reveal_strlit("data:");
    reveal_strlit(";base64,");
    assert forall|k: int| !occurs_at(prefix, ";base64,"@, k) by {
        if occurs_at(prefix, ";base64,"@, k) {
            assert(prefix.subrange(k, k + 8)[0] == prefix[k]);
            if k >= 5 {
                assert(mime.subrange(k - 5, k + 3) =~= prefix.subrange(k, k + 8));
                assert(occurs_at(mime, ";base64,"@, k - 5));
            }
        }
    }
    data_uri_is_read_back(prefix, body, bytes, false);
}

proof fn lemma_body(body: Seq<char>, bytes: Seq<u8>, url_safe: bool)
    requires
        compact(body) == encoded(bytes, url_safe),
    ensures
        forall|i: int|
            #![trigger body[i]]
            0 <= i < body.len() ==> {
                &&& body[i] != ','
                &&& body[i] != ';'
            },
{
    let keep = |c: char| !is_white(c);
    lemma_encoded_chars(bytes, url_safe);
    assert forall|i: int| #![trigger body[i]] 0 <= i < body.len() && !is_white(body[i]) implies {
        &&& body[i] != ','
        &&& body[i] != ';'
    } by {
        assert(keep(body[i]));
        body.lemma_filter_contains(keep, i);
        let k = choose|k: int|
            0 <= k < body.filter(keep).len() && body.filter(keep)[k] == body[i];
        assert(encoded(bytes, url_safe)[k] == body[i]);
    }
}

} // verus!
