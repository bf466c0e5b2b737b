//! What can go wrong, how it is worded, and which HTTP status answers it.

use vstd::prelude::*;

use crate::models::{ErrorResponse, ErrorValue};
use crate::text::{
    begins, concat, contains, decimal, decimal_text, includes, occurs_at, starts_with, trim,
    trimmed,
};

verus! {

broadcast use vstd::seq::group_seq_axioms;

/// Why a document could not be read.
#[derive(Debug)]
pub enum GatewayError {
    /// A pattern of the grounding markup does not compile.
    Pattern { name: String },
    /// The document is no Base64; `detail` is what the decoder says.
    Base64 { detail: String },
    /// The document is neither a PDF nor an image of a known format.
    UnsupportedFormat,
    /// A PDF has more pages than the gateway takes.
    TooManyPages { pages: usize, limit: usize },
    /// A PDF has no pages.
    EmptyPdf,
    /// No page of a PDF gave an image.
    NoPageImages,
    /// A PDF could not be inspected.
    PdfInfo { stderr: String },
    /// The inspection of a PDF names no page count.
    NoPageCount,
    /// The inference server does not take connections.
    Connect { endpoint: String, cause: String },
    /// A prompt could not be sent for another reason.
    Send { endpoint: String, cause: String },
    /// The inference server answered with an error.
    Refused { status: String, body: String },
    /// The reply of the inference server makes no sense.
    BadReply { cause: String },
    /// Something else failed outside the gateway.
    Other { context: String, cause: String },
}

/// What a client is told while the inference server is not ready.
pub const WARMING_UP: &'static str = "GPU Inference Server (baidu/Unlimited-OCR on NVIDIA A100) is currently initializing model weights. Please wait a moment until the GPU engine is ready.";

/// What a client is told whose document has an unknown format.
pub const UNSUPPORTED: &'static str = "Unsupported document format. Please supply a valid PDF, PNG, JPEG, WebP, TIFF, or BMP file.";

impl GatewayError {
    /// The error in one sentence.
    pub open spec fn text(self) -> Seq<char> {
        match self {
            GatewayError::Pattern { name } => "Failed to compile "@ + name@,
            GatewayError::Base64 { .. } => "Failed to decode input document as Base64"@,
            GatewayError::UnsupportedFormat => UNSUPPORTED@,
            GatewayError::TooManyPages { pages, limit } => "PDF contains "@ + decimal(pages as nat)
                + " pages, which exceeds the maximum allowable limit of "@ + decimal(limit as nat)
                + " pages (PDF_MAX_SIZE)"@,
            GatewayError::EmptyPdf => "PDF has 0 pages"@,
            GatewayError::NoPageImages => "PDF contained no rasterizable pages"@,
            GatewayError::PdfInfo { stderr } => "Failed to inspect PDF metadata: "@ + stderr@,
            GatewayError::NoPageCount => "Could not determine page count from PDF metadata"@,
            GatewayError::Connect { endpoint, .. } => "Failed to connect to vLLM endpoint at "@
                + endpoint@,
            GatewayError::Send { endpoint, .. } => "Failed to connect to vLLM endpoint at "@
                + endpoint@,
            GatewayError::Refused { status, body } => "vLLM server returned error "@ + status@
                + ": "@ + body@,
            GatewayError::BadReply { .. } => "Failed to deserialize vLLM chat response JSON"@,
            GatewayError::Other { context, .. } => context@,
        }
    }

    /// What caused the error, where something did.
    pub open spec fn reason(self) -> Seq<char> {
        match self {
            GatewayError::Base64 { detail } => "Failed to decode Base64 string: "@ + detail@,
            GatewayError::Connect { cause, .. } => cause@,
            GatewayError::Send { cause, .. } => cause@,
            GatewayError::BadReply { cause } => cause@,
            GatewayError::Other { cause, .. } => cause@,
            _ => ""@,
        }
    }

    /// The error and what caused it.
    pub open spec fn full_text(self) -> Seq<char> {
        if self.reason().len() == 0 {
            self.text()
        } else {
            self.text() + ": "@ + self.reason()
        }
    }

    /// The error in one sentence.
    pub fn message(&self) -> (r: String)
        ensures
            r@ == self.text(),
    {
        match self {
            GatewayError::Pattern { name } => concat("Failed to compile ", name),
            GatewayError::Base64 { .. } => "Failed to decode input document as Base64".to_string(),
            GatewayError::UnsupportedFormat => UNSUPPORTED.to_string(),
            GatewayError::TooManyPages { pages, limit } => {
                let mut r = concat("PDF contains ", &decimal_text(*pages));
                r.append(" pages, which exceeds the maximum allowable limit of ");
                r.append(&decimal_text(*limit));
                r.append(" pages (PDF_MAX_SIZE)");
                r
            },
            GatewayError::EmptyPdf => "PDF has 0 pages".to_string(),
            GatewayError::NoPageImages => "PDF contained no rasterizable pages".to_string(),
            GatewayError::PdfInfo { stderr } => concat("Failed to inspect PDF metadata: ", stderr),
            GatewayError::NoPageCount => "Could not determine page count from PDF metadata".to_string(),
            GatewayError::Connect { endpoint, .. } => concat(
                "Failed to connect to vLLM endpoint at ",
                endpoint,
            ),
            GatewayError::Send { endpoint, .. } => concat(
                "Failed to connect to vLLM endpoint at ",
                endpoint,
            ),
            GatewayError::Refused { status, body } => {
                let mut r = concat("vLLM server returned error ", status);
                r.append(": ");
                r.append(body);
                r
            },
            GatewayError::BadReply { .. } => "Failed to deserialize vLLM chat response JSON".to_string(),
            GatewayError::Other { context, .. } => context.clone(),
        }
    }

    /// The error and what caused it.
    pub fn full_message(&self) -> (r: String)
        ensures
            r@ == self.full_text(),
    {
        proof {
            reveal_strlit("");
            reveal_strlit("Failed to decode Base64 string: ");
        }
        let reason = match self {
            GatewayError::Base64 { detail } => concat("Failed to decode Base64 string: ", detail),
            GatewayError::Connect { cause, .. } => cause.clone(),
            GatewayError::Send { cause, .. } => cause.clone(),
            GatewayError::BadReply { cause } => cause.clone(),
            GatewayError::Other { cause, .. } => cause.clone(),
            _ => String::new(),
        };
        proof {
            assert(reason@ =~= self.reason());
        }
        let mut r = self.message();
        if !reason.as_str().is_empty() {
            r.append(": ");
            r.append(&reason);
        }
        r
    }

    /// The inference server is not ready: it takes no connections, or answers
    /// with 503 (Service Unavailable).
    pub open spec fn is_loading(self) -> bool {
        match self {
            GatewayError::Connect { .. } => true,
            GatewayError::Refused { status, .. } => begins(status@, "503"@),
            _ => false,
        }
    }

    /// What a client is told of the error.
    pub open spec fn told(self) -> Seq<char> {
        if self.is_loading() {
            WARMING_UP@
        } else {
            self.text()
        }
    }

    /// The HTTP status that answers the error.
    pub open spec fn status(self) -> u16 {
        if self.is_loading() {
            503
        } else {
            status_of(self.text())
        }
    }

    /// The inference server is not ready.
    pub fn loading(&self) -> (r: bool)
        ensures
            r == self.is_loading(),
    {
        match self {
            GatewayError::Connect { .. } => true,
            GatewayError::Refused { status, .. } => starts_with(status, "503"),
            _ => false,
        }
    }

    /// The reply to a request that failed with this error.
    pub fn reply(&self) -> (r: (u16, ErrorResponse))
        ensures
            r.0 == self.status(),
            r.1@ == (ErrorValue { error: "Processing failed"@, details: Some(self.told()) }),
    {
        let message = self.message();
        let loading = self.loading();
        let status: u16 = if loading {
            503
        } else {
            status_for(&message)
        };
        let details = if loading {
            WARMING_UP.to_string()
        } else {
            message
        };
        (
            status,
            ErrorResponse { error: "Processing failed".to_string(), details: Some(details) },
        )
    }

    /// The error refuses a request before anything of its document is sent: a
    /// document that cannot be read, one with too many pages, or an inference
    /// server that is not ready.
    pub open spec fn is_refusal(self) -> bool {
        self is Base64 || self is UnsupportedFormat || self is TooManyPages || self.is_loading()
    }

    /// The reply to a client that wants to listen, where this error refuses its
    /// request. Of every other error it is told while it listens.
    pub fn refusal(&self) -> (r: Option<(u16, ErrorResponse)>)
        ensures
            match r {
                Some(reply) => {
                    &&& self.is_refusal()
                    &&& reply.0 == self.status()
                    &&& reply.1@ == (ErrorValue {
                        error: "Processing failed"@,
                        details: Some(self.told()),
                    })
                },
                None => !self.is_refusal(),
            },
    {
        let refuses = match self {
            GatewayError::Base64 { .. } => true,
            GatewayError::UnsupportedFormat => true,
            GatewayError::TooManyPages { .. } => true,
            _ => self.loading(),
        };
        if refuses {
            Some(self.reply())
        } else {
            None
        }
    }
}

/// The HTTP status that answers an error, by what the error says.
pub open spec fn status_of(message: Seq<char>) -> u16 {
    if includes(message, "exceeds the maximum allowable limit"@) {
        413
    } else if includes(message, "Unsupported document format"@) || includes(message, "Base64"@) {
        400
    } else if includes(message, "connection"@) || includes(message, "refused"@) || includes(
        message,
        "vLLM"@,
    ) || includes(message, "503"@) {
        503
    } else {
        500
    }
}

/// The HTTP status that answers an error, by what the error says.
pub fn status_for(message: &str) -> (r: u16)
    ensures
        r == status_of(message@),
{
    if contains(message, "exceeds the maximum allowable limit") {
        413
    } else if contains(message, "Unsupported document format") || contains(message, "Base64") {
        400
    } else if contains(message, "connection") || contains(message, "refused") || contains(
        message,
        "vLLM",
    ) || contains(message, "503") {
        503
    } else {
        500
    }
}

/// What a client is told that sends no document.
pub const EMPTY_FILE: &'static str = "The 'file' field cannot be empty. Please provide a Base64-encoded PDF or image.";

/// Refuses a request without a document: one whose text is nothing but white
/// space.
pub fn refuse_empty(file: &str) -> (r: Option<(u16, ErrorResponse)>)
    ensures
        match r {
            Some(reply) => {
                &&& trimmed(file@).len() == 0
                &&& reply.0 == 400
                &&& reply.1@ == (ErrorValue {
                    error: "Invalid request"@,
                    details: Some(EMPTY_FILE@),
                })
            },
            None => trimmed(file@).len() > 0,
        },
{
    if trim(file).as_str().is_empty() {
        Some(
            (
                400,
                ErrorResponse {
                    error: "Invalid request".to_string(),
                    details: Some(EMPTY_FILE.to_string()),
                },
            ),
        )
    } else {
        None
    }
}

// ---------------------------------------------------------------------------
// Laws
// ---------------------------------------------------------------------------

proof fn lemma_includes_part(a: Seq<char>, b: Seq<char>, c: Seq<char>, pat: Seq<char>, i: int)
    requires
        occurs_at(b, pat, i),
    ensures
        includes(a + b + c, pat),
{
    let s = a + b + c;
    assert(s.subrange(a.len() + i, a.len() + i + pat.len()) =~= b.subrange(i, i + pat.len()));
    assert(occurs_at(s, pat, a.len() + i));
}

/// A PDF with too many pages is answered with 413 (Payload Too Large).
pub proof fn too_many_pages_is_payload_too_large(pages: usize, limit: usize)
    ensures
        (GatewayError::TooManyPages { pages, limit }).status() == 413,
{
    let a = "PDF contains "@ + decimal(pages as nat);
    let b = " pages, which exceeds the maximum allowable limit of "@;
    let c = decimal(limit as nat) + " pages (PDF_MAX_SIZE)"@;
    let p = "exceeds the maximum allowable limit"@;
    reveal_strlit(" pages, which exceeds the maximum allowable limit of ");
    reveal_strlit("exceeds the maximum allowable limit");
    assert(b.subrange(14, 49) =~= p);
    lemma_includes_part(a, b, c, p, 14);
    assert(a + b + c =~= (GatewayError::TooManyPages { pages, limit }).text());
}

/// A document of an unknown format is answered with 400 (Bad Request).
pub proof fn unsupported_format_is_bad_request()
    ensures
        GatewayError::UnsupportedFormat.status() == 400,
{
    let s = UNSUPPORTED@;
    let big = "exceeds the maximum allowable limit"@;
    let p = "Unsupported document format"@;
    reveal_strlit(
        "Unsupported document format. Please supply a valid PDF, PNG, JPEG, WebP, TIFF, or BMP file.",
    );
    reveal_strlit("exceeds the maximum allowable limit");
    reveal_strlit("Unsupported document format");
    assert forall|i: int| !occurs_at(s, big, i) by {
        if occurs_at(s, big, i) {
            assert(s.subrange(i, i + 35)[1] == s[i + 1]);
        }
    }
    assert(s.subrange(0, 27) =~= p);
    assert(occurs_at(s, p, 0));
}

/// A document that is no Base64 is answered with 400 (Bad Request).
pub proof fn bad_base64_is_bad_request(detail: String)
    ensures
        (GatewayError::Base64 { detail }).status() == 400,
{
    let s = "Failed to decode input document as Base64"@;
    let big = "exceeds the maximum allowable limit"@;
    reveal_strlit("Failed to decode input document as Base64");
    reveal_strlit("exceeds the maximum allowable limit");
    reveal_strlit("Base64");
    assert forall|i: int| !occurs_at(s, big, i) by {
        if occurs_at(s, big, i) {
            assert(s.subrange(i, i + 35)[1] == s[i + 1]);
        }
    }
    assert(s.subrange(35, 41) =~= "Base64"@);
    assert(occurs_at(s, "Base64"@, 35));
}

/// A text without the words that make an error the client's fault.
pub open spec fn blames_nobody(s: Seq<char>) -> bool {
    &&& !includes(s, "exceeds the maximum allowable limit"@)
    &&& !includes(s, "Unsupported document format"@)
    &&& !includes(s, "Base64"@)
}

proof fn lemma_unavailable(head: Seq<char>, tail: Seq<char>, i: int)
    requires
        occurs_at(head, "vLLM"@, i),
        blames_nobody(head + tail),
    ensures
        status_of(head + tail) == 503,
{
    lemma_includes_part(seq![], head, tail, "vLLM"@, i);
    assert(seq![] + head + tail =~= head + tail);
}

/// An occurrence lies behind a head in which nothing begins as it does.
proof fn lemma_behind(head: Seq<char>, tail: Seq<char>, pat: Seq<char>, i: int)
    requires
        pat.len() >= 2,
        forall|k: int|
            0 <= k < head.len() && #[trigger] head[k] == pat[0] ==> k + 1 < head.len() && head[k
                + 1] != pat[1],
        occurs_at(head + tail, pat, i),
    ensures
        includes(tail, pat),
{
    let s = head + tail;
    let n = head.len();
    assert(s.subrange(i, i + pat.len())[0] == s[i]);
    assert(s.subrange(i, i + pat.len())[1] == s[i + 1]);
    assert(i >= n) by {
        if i < n {
            assert(head[i] == pat[0]);
        }
    }
    assert(tail.subrange(i - n, i - n + pat.len()) =~= s.subrange(i, i + pat.len()));
    assert(occurs_at(tail, pat, i - n));
}

/// An occurrence lies on one side of a character that it does not hold.
proof fn lemma_one_side(a: Seq<char>, c: char, b: Seq<char>, pat: Seq<char>, i: int)
    requires
        forall|k: int| 0 <= k < pat.len() ==> #[trigger] pat[k] != c,
        occurs_at(a + seq![c] + b, pat, i),
    ensures
        includes(a, pat) || includes(b, pat),
{
    let s = a + seq![c] + b;
    let n = a.len();
    if i <= n < i + pat.len() {
        assert(s.subrange(i, i + pat.len())[n - i] == c);
        assert(pat[n - i] == c);
    } else if i + pat.len() <= n {
        assert(a.subrange(i, i + pat.len()) =~= s.subrange(i, i + pat.len()));
        assert(occurs_at(a, pat, i));
    } else {
        assert(b.subrange(i - n - 1, i - n - 1 + pat.len()) =~= s.subrange(i, i + pat.len()));
        assert(occurs_at(b, pat, i - n - 1));
    }
}

/// While the inference server is not ready, whether it takes no connections or
/// answers with 503, a client is answered with 503 (Service Unavailable) and is
/// told to wait.
pub proof fn loading_server_is_unavailable(e: GatewayError)
    requires
        e is Connect || (e matches GatewayError::Refused { status, .. } && begins(
            status@,
            "503"@,
        )),
    ensures
        e.status() == 503,
        e.told() == WARMING_UP@,
        e.is_refusal(),
{
}

/// A prompt that cannot be sent is answered with 503 (Service Unavailable), and
/// the client is told where it should have gone.
pub proof fn unsent_prompt_is_unavailable(endpoint: String, cause: String)
    requires
        blames_nobody(endpoint@),
    ensures
        (GatewayError::Send { endpoint, cause }).status() == 503,
        (GatewayError::Send { endpoint, cause }).told() == "Failed to connect to vLLM endpoint at "@
            + endpoint@,
{
    let head = "Failed to connect to vLLM endpoint at "@;
    let tail = endpoint@;
    let s = head + tail;
    reveal_strlit("Failed to connect to vLLM endpoint at ");
    reveal_strlit("exceeds the maximum allowable limit");
    reveal_strlit("Unsupported document format");
    reveal_strlit("Base64");
    reveal_strlit("vLLM");
    assert forall|i: int| !occurs_at(s, "exceeds the maximum allowable limit"@, i) by {
        if occurs_at(s, "exceeds the maximum allowable limit"@, i) {
            lemma_behind(head, tail, "exceeds the maximum allowable limit"@, i);
        }
    }
    assert forall|i: int| !occurs_at(s, "Unsupported document format"@, i) by {
        if occurs_at(s, "Unsupported document format"@, i) {
            lemma_behind(head, tail, "Unsupported document format"@, i);
        }
    }
    assert forall|i: int| !occurs_at(s, "Base64"@, i) by {
        if occurs_at(s, "Base64"@, i) {
            lemma_behind(head, tail, "Base64"@, i);
        }
    }
    assert(head.subrange(21, 25) =~= "vLLM"@);
    lemma_unavailable(head, tail, 21);
}

/// An error of the inference server is answered with 503 (Service
/// Unavailable).
pub proof fn server_error_is_unavailable(status: String, body: String)
    requires
        blames_nobody(status@),
        blames_nobody(body@),
    ensures
        (GatewayError::Refused { status, body }).status() == 503,
{
    let head = "vLLM server returned error "@;
    let tail = status@ + seq![':'] + (seq![' '] + body@);
    let s = head + tail;
    reveal_strlit("vLLM server returned error ");
    reveal_strlit(": ");
    reveal_strlit("exceeds the maximum allowable limit");
    reveal_strlit("Unsupported document format");
    reveal_strlit("Base64");
    reveal_strlit("vLLM");
    assert(s =~= (GatewayError::Refused { status, body }).text());
    assert forall|i: int| !occurs_at(s, "exceeds the maximum allowable limit"@, i) by {
        if occurs_at(s, "exceeds the maximum allowable limit"@, i) {
            lemma_refused(head, status@, body@, "exceeds the maximum allowable limit"@, i);
        }
    }
    assert forall|i: int| !occurs_at(s, "Unsupported document format"@, i) by {
        if occurs_at(s, "Unsupported document format"@, i) {
            lemma_refused(head, status@, body@, "Unsupported document format"@, i);
        }
    }
    assert forall|i: int| !occurs_at(s, "Base64"@, i) by {
        if occurs_at(s, "Base64"@, i) {
            lemma_refused(head, status@, body@, "Base64"@, i);
        }
    }
    assert(head.subrange(0, 4) =~= "vLLM"@);
    lemma_unavailable(head, tail, 0);
}

proof fn lemma_refused(
    head: Seq<char>,
    status: Seq<char>,
    body: Seq<char>,
    pat: Seq<char>,
    i: int,
)
    requires
        pat.len() >= 2,
        pat[0] != ' ',
        forall|k: int| 0 <= k < pat.len() ==> #[trigger] pat[k] != ':',
        forall|k: int|
            0 <= k < head.len() && #[trigger] head[k] == pat[0] ==> k + 1 < head.len() && head[k
                + 1] != pat[1],
        occurs_at(head + (status + seq![':'] + (seq![' '] + body)), pat, i),
    ensures
        includes(status, pat) || includes(body, pat),
{
    let tail = status + seq![':'] + (seq![' '] + body);
    lemma_behind(head, tail, pat, i);
    let j = choose|j: int| occurs_at(tail, pat, j);
    lemma_one_side(status, ':', seq![' '] + body, pat, j);
    if includes(seq![' '] + body, pat) {
        let k = choose|k: int| occurs_at(seq![' '] + body, pat, k);
        lemma_behind(seq![' '], body, pat, k);
    }
}

/// A reply of the inference server that makes no sense is answered with 503
/// (Service Unavailable).
pub proof fn bad_reply_is_unavailable(cause: String)
    ensures
        (GatewayError::BadReply { cause }).status() == 503,
{
    let s = "Failed to deserialize vLLM chat response JSON"@;
    reveal_strlit("Failed to deserialize vLLM chat response JSON");
    reveal_strlit("exceeds the maximum allowable limit");
    reveal_strlit("Unsupported document format");
    reveal_strlit("Base64");
    reveal_strlit("vLLM");
    assert forall|i: int| !occurs_at(s, "exceeds the maximum allowable limit"@, i) by {
        if occurs_at(s, "exceeds the maximum allowable limit"@, i) {
            assert(s.subrange(i, i + 35)[1] == s[i + 1]);
        }
    }
    assert forall|i: int| !occurs_at(s, "Unsupported document format"@, i) by {
        if occurs_at(s, "Unsupported document format"@, i) {
            assert(s.subrange(i, i + 27)[0] == s[i]);
        }
    }
    assert forall|i: int| !occurs_at(s, "Base64"@, i) by {
        if occurs_at(s, "Base64"@, i) {
            assert(s.subrange(i, i + 6)[0] == s[i]);
        }
    }
    assert(s.subrange(22, 26) =~= "vLLM"@);
    lemma_unavailable(s, seq![], 22);
    assert(s + seq![] =~= s);
}

} // verus!
