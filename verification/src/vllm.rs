//! Talking to the inference server: the prompt, the reply, and the lines of a
//! reply that comes in piece by piece.

use serde_json::Value;
use vstd::prelude::*;
use vstd::utf8::{
    decode_utf8_encode_utf8, encode_utf8, encode_utf8_decode_utf8, encode_utf8_valid_utf8, valid_utf8,
};

use crate::batches::{max_tokens_for, PageBatch, IMAGE_WINDOW, PDF_WINDOW};
use crate::config::AppConfig;
use crate::json::{content, elements, json_in, json_of, member, parse_json, Json};
use crate::models::{
    parts_of, MessageValue, PartValue, PromptValue, VllmChatMessage, VllmChatRequest,
    VllmChatResponse, VllmContentPart, VllmImageUrl, VllmXargs,
};
use crate::patterns::lemma_encode_concat;
use crate::processor::DocumentProcessor;
use crate::text::{
    begins, chars_of, concat, find_from, first_at, glued, lemma_first_at, lemma_first_at_extends,
    lemma_first_at_skip, lemma_glued_push, read_text, starts_with, string_of, text_of, texts, trim,
    trimmed,
};

verus! {

broadcast use vstd::seq::group_seq_axioms;

// ---------------------------------------------------------------------------
// The prompt
// ---------------------------------------------------------------------------

/// What the model is asked to do.
pub const INSTRUCTION: &'static str = "<image>document parsing.";

/// The length of the rows of tokens that the model may not repeat.
pub const NGRAM_SIZE: usize = 35;

/// The parts of a prompt: the instruction, then the images.
pub open spec fn parts_for(uris: Seq<Seq<char>>) -> Seq<PartValue> {
    seq![PartValue::Text(INSTRUCTION@)] + uris.map_values(|u: Seq<char>| PartValue::Image(u))
}

/// The prompt for the pages with the given images.
pub open spec fn prompt_for(
    model: Seq<char>,
    uris: Seq<Seq<char>>,
    window_size: usize,
    max_tokens: usize,
    stream: bool,
) -> PromptValue {
    PromptValue {
        model,
        messages: seq![MessageValue { role: "user"@, content: parts_for(uris) }],
        max_tokens,
        stream,
        skip_special_tokens: false,
        ngram_size: NGRAM_SIZE,
        window_size,
    }
}

/// Where prompts are sent to.
pub fn endpoint(config: &AppConfig) -> (r: String)
    ensures
        r@ == config.vllm_base_url@ + "/v1/chat/completions"@,
{
    concat(&config.vllm_base_url, "/v1/chat/completions")
}

/// Makes the prompt for the pages with the given images.
pub fn prompt(
    config: &AppConfig,
    image_data_uris: &Vec<String>,
    window_size: usize,
    max_tokens: usize,
    stream: bool,
) -> (r: VllmChatRequest)
    ensures
        r@ == prompt_for(
            config.model_id@,
            texts(image_data_uris@),
            window_size,
            max_tokens,
            stream,
        ),
{
    let ghost uris = texts(image_data_uris@);
    let ghost parts = parts_for(uris);
    let mut content: Vec<VllmContentPart> = Vec::new();
    content.push(VllmContentPart::Text { text: INSTRUCTION.to_string() });
    let mut i: usize = 0;
    proof {
        assert(parts_of(content@) =~= parts.take(1));
    }
    while i < image_data_uris.len()
        invariant
            i <= image_data_uris@.len(),
            uris == texts(image_data_uris@),
            parts == parts_for(uris),
            parts_of(content@) == parts.take(i + 1),
        decreases image_data_uris@.len() - i,
    {
        let ghost before = content@;
        content.push(
            VllmContentPart::ImageUrl {
                image_url: VllmImageUrl { url: image_data_uris[i].clone() },
            },
        );
        proof {
            assert(content@.last()@ == parts[i + 1]);
            assert(parts_of(content@) =~= parts_of(before).push(content@.last()@));
            assert(parts.take(i + 2) =~= parts.take(i + 1).push(parts[i + 1]));
        }
        i += 1;
    }
    proof {
        assert(parts.take(parts.len() as int) =~= parts);
    }
    let message = VllmChatMessage { role: "user".to_string(), content };
    let mut messages: Vec<VllmChatMessage> = Vec::new();
    messages.push(message);
    proof {
        assert(messages@.map_values(|m: VllmChatMessage| m@) =~= seq![message@]);
    }
    VllmChatRequest {
        model: config.model_id.clone(),
        messages,
        max_tokens,
        stream,
        skip_special_tokens: false,
        vllm_xargs: VllmXargs { ngram_size: NGRAM_SIZE, window_size },
    }
}

impl DocumentProcessor {
    /// Makes the prompt for an image.
    pub fn image_prompt(&self, data_uri: String, stream: bool) -> (r: VllmChatRequest)
        ensures
            r@ == prompt_for(
                self.settings().model_id@,
                seq![data_uri@],
                IMAGE_WINDOW,
                max_tokens_for(1),
                stream,
            ),
    {
        let mut uris: Vec<String> = Vec::new();
        uris.push(data_uri);
        proof {
            assert(texts(uris@) =~= seq![data_uri@]);
        }
        prompt(self.config(), &uris, IMAGE_WINDOW, 8192, stream)
    }

    /// Makes the prompt for pages of a PDF.
    pub fn batch_prompt(&self, batch: &PageBatch, stream: bool) -> (r: VllmChatRequest)
        ensures
            r@ == prompt_for(
                self.settings().model_id@,
                batch@.uris,
                PDF_WINDOW,
                max_tokens_for(batch@.uris.len() as int),
                stream,
            ),
    {
        prompt(self.config(), batch.data_uris(), PDF_WINDOW, batch.max_tokens(), stream)
    }
}

// ---------------------------------------------------------------------------
// The reply in one piece
// ---------------------------------------------------------------------------

/// The text of a reply: that of its first completion, nothing where it holds
/// none.
pub fn completion_text(reply: &VllmChatResponse) -> (r: String)
    ensures
        r@ == if reply.choices@.len() > 0 {
            reply.choices@[0].message.content@
        } else {
            Seq::<char>::empty()
        },
{
    if reply.choices.len() > 0 {
        reply.choices[0].message.content.clone()
    } else {
        String::new()
    }
}

/// Whether a status of the inference server is one of success.
pub open spec fn is_success(status: u16) -> bool {
    200 <= status < 300
}

/// Whether a status of the inference server is one of success.
pub fn succeeded(status: u16) -> (r: bool)
    ensures
        r == is_success(status),
{
    200 <= status && status < 300
}

// ---------------------------------------------------------------------------
// The reply piece by piece
// ---------------------------------------------------------------------------

/// The piece of text that an event of a streamed reply brings: the content of
/// the delta of the first choice.
pub open spec fn delta_in(event: Json) -> Option<Seq<char>> {
    match event {
        Json::Members(m) if m.contains_key("choices"@) => match m["choices"@] {
            Json::List(l) if l.len() > 0 => match l[0] {
                Json::Members(c) if c.contains_key("delta"@) => match c["delta"@] {
                    Json::Members(d) if d.contains_key("content"@) => match d["content"@] {
                        Json::Text(t) => Some(t),
                        _ => None,
                    },
                    _ => None,
                },
                _ => None,
            },
            _ => None,
        },
        _ => None,
    }
}

/// The piece of text that an event of a streamed reply brings.
pub fn delta_content(event: &Value) -> (r: Option<String>)
    ensures
        match r {
            Some(t) => delta_in(json_of(*event)) == Some(t@),
            None => delta_in(json_of(*event)) is None,
        },
{
    let choices = match member(event, "choices") {
        Some(c) => c,
        None => return None,
    };
    let list = match elements(choices) {
        Some(l) => l,
        None => return None,
    };
    proof {
        assert(list@.map_values(|v: Value| json_of(v)).len() == list@.len());
    }
    if list.len() == 0 {
        return None;
    }
    proof {
        assert(list@.map_values(|v: Value| json_of(v))[0] == json_of(list@[0]));
    }
    let delta = match member(&list[0], "delta") {
        Some(d) => d,
        None => return None,
    };
    match member(delta, "content") {
        Some(c) => match content(c) {
            Some(t) => Some(t.to_string()),
            None => None,
        },
        None => None,
    }
}

/// What a line of a streamed reply says.
pub enum LineValue {
    /// The next piece of text.
    Piece(Seq<char>),
    /// The reply is at its end.
    End,
    /// Nothing.
    Nothing,
}

/// What a line of a streamed reply says.
pub open spec fn meaning(line: Seq<char>) -> LineValue {
    let event = trimmed(line);
    if begins(event, "data: "@) {
        let data = trimmed(event.skip(6));
        if data == "[DONE]"@ {
            LineValue::End
        } else {
            match json_in(data) {
                Some(json) => match delta_in(json) {
                    Some(t) => LineValue::Piece(t),
                    None => LineValue::Nothing,
                },
                None => LineValue::Nothing,
            }
        }
    } else {
        LineValue::Nothing
    }
}

/// The pieces of text in the whole lines of `pending`, and what is left of it.
/// The line that ends the reply ends the reading, too: what is behind it stays.
pub open spec fn pieces_in(pending: Seq<char>) -> (Seq<Seq<char>>, Seq<char>)
    decreases pending.len(),
{
    match first_at(pending, seq!['\n'], 0) {
        Some(i) => {
            proof {
                lemma_first_at(pending, seq!['\n'], 0);
            }
            let rest = pending.skip(i + 1);
            match meaning(pending.take(i)) {
                LineValue::Piece(t) => (seq![t] + pieces_in(rest).0, pieces_in(rest).1),
                LineValue::End => (seq![], rest),
                LineValue::Nothing => pieces_in(rest),
            }
        },
        None => (seq![], pending),
    }
}

/// Reads the lines of a streamed reply.
#[derive(Debug)]
pub struct EventLines {
    line_buffer: String,
}

impl View for EventLines {
    type V = Seq<char>;

    closed spec fn view(&self) -> Seq<char> {
        self.line_buffer@
    }
}

#[derive(Debug)]
enum Line {
    Piece(String),
    End,
    Nothing,
}

fn read_line(line: &str) -> (r: Line)
    ensures
        match r {
            Line::Piece(t) => meaning(line@) == LineValue::Piece(t@),
            Line::End => meaning(line@) is End,
            Line::Nothing => meaning(line@) is Nothing,
        },
{
    let event = trim(line);
    if !starts_with(&event, "data: ") {
        return Line::Nothing;
    }
    proof {
        reveal_strlit("data: ");
    }
    let chars = chars_of(&event);
    let data = trim(&string_of(&chars, 6, chars.len()));
    proof {
        assert(chars@.subrange(6, chars@.len() as int) =~= event@.skip(6));
    }
    if data == "[DONE]".to_string() {
        return Line::End;
    }
    match parse_json(&data) {
        Ok(value) => match delta_content(&value) {
            Some(t) => Line::Piece(t),
            None => Line::Nothing,
        },
        Err(_) => Line::Nothing,
    }
}

impl EventLines {
    /// Before anything has come in.
    pub fn new() -> (r: Self)
        ensures
            r@ == Seq::<char>::empty(),
    {
        EventLines { line_buffer: String::new() }
    }

    /// Takes the next bytes of the reply, and gives out the pieces of text in
    /// the lines that are whole with them.
    pub fn feed(&mut self, bytes: &[u8]) -> (r: Vec<String>)
        ensures
            texts(r@) == pieces_in(old(self)@ + text_of(bytes@)).0,
            final(self)@ == pieces_in(old(self)@ + text_of(bytes@)).1,
    {
        let text = read_text(bytes);
        self.feed_text(&text)
    }

    /// Takes the next text of the reply, and gives out the pieces of text in
    /// the lines that are whole with it.
    pub fn feed_text(&mut self, text: &str) -> (r: Vec<String>)
        ensures
            texts(r@) == pieces_in(old(self)@ + text@).0,
            final(self)@ == pieces_in(old(self)@ + text@).1,
    {
        self.line_buffer.append(text);
        let chars = chars_of(&self.line_buffer);
        let mark: Vec<char> = vec!['\n'];
        let ghost whole = pieces_in(chars@);
        let mut r: Vec<String> = Vec::new();
        let mut at: usize = 0;
        proof {
            assert(mark@ =~= seq!['\n']);
            assert(chars@.skip(0) =~= chars@);
            assert(texts(r@) + whole.0 =~= whole.0);
        }
        loop
            invariant_except_break
                mark@ == seq!['\n'],
                at <= chars@.len(),
                texts(r@) + pieces_in(chars@.skip(at as int)).0 == whole.0,
                pieces_in(chars@.skip(at as int)).1 == whole.1,
            ensures
                at <= chars@.len(),
                texts(r@) == whole.0,
                chars@.skip(at as int) == whole.1,
            decreases chars@.len() - at,
        {
            let ghost pending = chars@.skip(at as int);
            let ghost before = r@;
            proof {
                lemma_first_at_skip(chars@, mark@, at as int, 0);
                lemma_first_at(pending, mark@, 0);
                assert(texts(r@) + seq![] =~= texts(r@));
            }
            match find_from(&chars, &mark, at) {
                Some(i) => {
                    let line = string_of(&chars, at, i);
                    proof {
                        assert(line@ =~= pending.take(i - at));
                        assert(pending.skip(i - at + 1) =~= chars@.skip(i + 1));
                    }
                    at = i + 1;
                    match read_line(&line) {
                        Line::Piece(t) => {
                            r.push(t);
                            proof {
                                let rest = pieces_in(chars@.skip(at as int)).0;
                                assert(texts(r@) =~= texts(before).push(t@));
                                assert(texts(before) + (seq![t@] + rest) =~= texts(r@) + rest);
                            }
                        },
                        Line::End => {
                            break;
                        },
                        Line::Nothing => {},
                    }
                },
                None => {
                    break;
                },
            }
        }
        self.line_buffer = string_of(&chars, at, chars.len());
        proof {
            assert(self@ =~= whole.1);
        }
        r
    }
}

// ---------------------------------------------------------------------------
// Laws
// ---------------------------------------------------------------------------

/// The pieces of text in all whole lines of `text`.
pub open spec fn line_pieces(text: Seq<char>) -> Seq<Seq<char>>
    decreases text.len(),
{
    match first_at(text, seq!['\n'], 0) {
        Some(i) => {
            proof {
                lemma_first_at(text, seq!['\n'], 0);
            }
            match meaning(text.take(i)) {
                LineValue::Piece(t) => seq![t] + line_pieces(text.skip(i + 1)),
                _ => line_pieces(text.skip(i + 1)),
            }
        },
        None => seq![],
    }
}

/// No piece of text follows a line that ends the reply.
pub open spec fn is_quiet_at_its_end(text: Seq<char>) -> bool
    decreases text.len(),
{
    match first_at(text, seq!['\n'], 0) {
        Some(i) => {
            proof {
                lemma_first_at(text, seq!['\n'], 0);
            }
            if meaning(text.take(i)) is End {
                line_pieces(text.skip(i + 1)).len() == 0
            } else {
                is_quiet_at_its_end(text.skip(i + 1))
            }
        },
        None => true,
    }
}

/// The pieces that are given out of a reply that comes in in the given chunks,
/// and what is pending after that.
pub open spec fn fed(chunks: Seq<Seq<char>>) -> (Seq<Seq<char>>, Seq<char>)
    decreases chunks.len(),
{
    if chunks.len() == 0 {
        (seq![], seq![])
    } else {
        let (before, pending) = fed(chunks.drop_last());
        let (more, left) = pieces_in(pending + chunks.last());
        (before + more, left)
    }
}

/// Where nothing follows the end of a reply, it makes no difference into which
/// chunks the reply is cut: each piece of text in a whole line is given out
/// once, in order. In any case nothing is lost: what is not given out is
/// pending.
pub proof fn reply_may_be_cut_anywhere(chunks: Seq<Seq<char>>)
    ensures
        fed(chunks).0 + line_pieces(fed(chunks).1) == line_pieces(glued(chunks)),
        is_quiet_at_its_end(glued(chunks)) ==> fed(chunks).0 == line_pieces(glued(chunks)),
{
    lemma_fed(chunks, seq![]);
    let (pieces, pending) = fed(chunks);
    assert(glued(chunks) + seq![] =~= glued(chunks));
    assert(pending + seq![] =~= pending);
    if is_quiet_at_its_end(glued(chunks)) {
        assert(line_pieces(pending) =~= seq![]);
        assert(pieces + seq![] =~= pieces);
    }
}

/// The same of a reply that comes in as bytes, where each chunk is UTF-8.
pub proof fn body_may_be_cut_anywhere(chunks: Seq<Seq<u8>>)
    requires
        forall|i: int| 0 <= i < chunks.len() ==> valid_utf8(#[trigger] chunks[i]),
        is_quiet_at_its_end(text_of(glued(chunks))),
    ensures
        fed(chunks.map_values(|c: Seq<u8>| text_of(c))).0 == line_pieces(text_of(glued(chunks))),
{
    lemma_chunk_texts(chunks);
    reply_may_be_cut_anywhere(chunks.map_values(|c: Seq<u8>| text_of(c)));
}

proof fn lemma_chunk_texts(chunks: Seq<Seq<u8>>)
    requires
        forall|i: int| 0 <= i < chunks.len() ==> valid_utf8(#[trigger] chunks[i]),
    ensures
        glued(chunks.map_values(|c: Seq<u8>| text_of(c))) == text_of(glued(chunks)),
        valid_utf8(glued(chunks)),
    decreases chunks.len(),
{
    let list = chunks.map_values(|c: Seq<u8>| text_of(c));
    if chunks.len() == 0 {
        assert(encode_utf8(seq![]) =~= seq![]);
        encode_utf8_decode_utf8(seq![]);
        encode_utf8_valid_utf8(seq![]);
    } else {
        let rest = chunks.skip(1);
        assert forall|i: int| 0 <= i < rest.len() implies valid_utf8(#[trigger] rest[i]) by {
            assert(rest[i] == chunks[i + 1]);
        }
        lemma_chunk_texts(rest);
        assert(list.skip(1) =~= rest.map_values(|c: Seq<u8>| text_of(c)));
        let a = text_of(chunks[0]);
        let b = text_of(glued(rest));
        decode_utf8_encode_utf8(chunks[0]);
        decode_utf8_encode_utf8(glued(rest));
        lemma_encode_concat(a, b);
        encode_utf8_decode_utf8(a + b);
        encode_utf8_valid_utf8(a + b);
    }
}

proof fn lemma_fed(chunks: Seq<Seq<char>>, b: Seq<char>)
    ensures
        ({
            let (pieces, pending) = fed(chunks);
            &&& pieces + line_pieces(pending + b) == line_pieces(glued(chunks) + b)
            &&& is_quiet_at_its_end(glued(chunks) + b) ==> {
                &&& is_quiet_at_its_end(pending + b)
                &&& first_at(pending, seq!['\n'], 0) is Some ==> line_pieces(pending + b).len()
                    == 0
            }
        }),
    decreases chunks.len(),
{
    if chunks.len() == 0 {
        lemma_first_at(Seq::<char>::empty(), seq!['\n'], 0);
        assert(glued(chunks) =~= seq![]);
        assert(seq![] + line_pieces(b) =~= line_pieces(b));
        assert(Seq::<char>::empty() + b =~= b);
    } else {
        let last = chunks.last();
        let (before, pending) = fed(chunks.drop_last());
        let (more, left) = pieces_in(pending + last);
        lemma_glued_push(chunks);
        lemma_fed(chunks.drop_last(), last + b);
        lemma_taken(pending + last, b);
        assert(glued(chunks.drop_last()) + (last + b) =~= glued(chunks) + b);
        assert(pending + (last + b) =~= pending + last + b);
        assert(before + (more + line_pieces(left + b)) =~= before + more + line_pieces(left + b));
    }
}

/// What is taken out of the pending text and what is left of it are all of it,
/// whatever follows.
proof fn lemma_taken(x: Seq<char>, b: Seq<char>)
    ensures
        ({
            let (pieces, left) = pieces_in(x);
            &&& pieces + line_pieces(left + b) == line_pieces(x + b)
            &&& is_quiet_at_its_end(x + b) ==> {
                &&& is_quiet_at_its_end(left + b)
                &&& first_at(left, seq!['\n'], 0) is Some ==> line_pieces(left + b).len() == 0
            }
        }),
    decreases x.len(),
{
    let mark = seq!['\n'];
    lemma_first_at(x, mark, 0);
    match first_at(x, mark, 0) {
        Some(i) => {
            let rest = x.skip(i + 1);
            lemma_first_at_extends(x, b, mark);
            assert((x + b).take(i) =~= x.take(i));
            assert((x + b).skip(i + 1) =~= rest + b);
            match meaning(x.take(i)) {
                LineValue::Piece(t) => {
                    lemma_taken(rest, b);
                    let (pieces, left) = pieces_in(rest);
                    assert(seq![t] + (pieces + line_pieces(left + b)) =~= (seq![t] + pieces)
                        + line_pieces(left + b));
                },
                LineValue::End => {
                    assert(seq![] + line_pieces(rest + b) =~= line_pieces(rest + b));
                    if is_quiet_at_its_end(x + b) {
                        lemma_silent(rest + b);
                    }
                },
                LineValue::Nothing => {
                    lemma_taken(rest, b);
                },
            }
        },
        None => {
            assert(seq![] + line_pieces(x + b) =~= line_pieces(x + b));
        },
    }
}

proof fn lemma_silent(x: Seq<char>)
    requires
        line_pieces(x).len() == 0,
    ensures
        is_quiet_at_its_end(x),
    decreases x.len(),
{
    lemma_first_at(x, seq!['\n'], 0);
    if let Some(i) = first_at(x, seq!['\n'], 0) {
        lemma_silent(x.skip(i + 1));
    }
}

} // verus!
