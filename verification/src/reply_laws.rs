//! What holds of prompts, and of the replies to them.

use vstd::prelude::*;

use crate::batches::{max_tokens_for, IMAGE_WINDOW, PDF_WINDOW};
use crate::json::{json_in, Json};
use crate::models::PartValue;
use crate::text::{begins, glued, is_white, trimmed};
use crate::text_laws::{is_blank, lemma_find_char, trimming_keeps_what_stands_between};
use crate::vllm::{delta_in, is_success, meaning, pieces_in, prompt_for, LineValue};

verus! {

broadcast use vstd::seq::group_seq_axioms;

// ---------------------------------------------------------------------------
// Prompts
// ---------------------------------------------------------------------------

/// A prompt is one message of the user: the instruction, then the image of
/// every page, in order, with nothing left out and nothing behind it.
pub proof fn prompt_shows_every_page(
    model: Seq<char>,
    uris: Seq<Seq<char>>,
    window: usize,
    max_tokens: usize,
    stream: bool,
)
    ensures
        ({
            let p = prompt_for(model, uris, window, max_tokens, stream);
            let parts = p.messages[0].content;
            &&& p.messages.len() == 1
            &&& p.messages[0].role == "user"@
            &&& parts.len() == uris.len() + 1
            &&& parts[0] == PartValue::Text("<image>document parsing."@)
            &&& forall|k: int|
                0 <= k < uris.len() ==> parts[k + 1] == PartValue::Image(#[trigger] uris[k])
        }),
{
    let parts = prompt_for(model, uris, window, max_tokens, stream).messages[0].content;
    assert forall|k: int| 0 <= k < uris.len() implies parts[k + 1] == PartValue::Image(
        #[trigger] uris[k],
    ) by {}
}

/// A prompt asks for what it is given to ask for, keeps the tags in the reply,
/// and forbids the model to repeat rows of 35 tokens.
pub proof fn prompt_asks_for_what_is_given(
    model: Seq<char>,
    uris: Seq<Seq<char>>,
    window: usize,
    max_tokens: usize,
    stream: bool,
)
    ensures
        ({
            let p = prompt_for(model, uris, window, max_tokens, stream);
            &&& p.model == model
            &&& p.max_tokens == max_tokens
            &&& p.stream == stream
            &&& p.window_size == window
            &&& !p.skip_special_tokens
            &&& p.ngram_size == 35
        }),
{
}

/// A reply to one page is 8192 tokens long at most, one to several pages twice
/// that; the model may not repeat itself within 128 tokens for an image, and
/// within 1024 for the pages of a PDF.
pub proof fn replies_are_limited(pages: int)
    ensures
        pages <= 1 ==> max_tokens_for(pages) == 8192,
        pages >= 2 ==> max_tokens_for(pages) == 2 * 8192,
        IMAGE_WINDOW == 128,
        PDF_WINDOW == 1024,
{
}

/// The statuses of success are those with a 2 in the place of the hundreds.
pub proof fn success_is_told_by_the_hundreds(status: u16)
    ensures
        is_success(status) <==> status / 100 == 2,
{
}

// ---------------------------------------------------------------------------
// The events of a streamed reply
// ---------------------------------------------------------------------------

/// The value has a member of the given name.
pub open spec fn has(json: Json, name: Seq<char>) -> bool {
    json is Members && json->Members_0.contains_key(name)
}

/// The first choice of an event.
pub open spec fn first_choice(event: Json) -> Json {
    event->Members_0["choices"@]->List_0[0]
}

/// `t` is the content of the delta of the first choice of an event.
pub open spec fn brings(event: Json, t: Seq<char>) -> bool {
    &&& has(event, "choices"@)
    &&& event->Members_0["choices"@] is List
    &&& event->Members_0["choices"@]->List_0.len() > 0
    &&& has(first_choice(event), "delta"@)
    &&& has(first_choice(event)->Members_0["delta"@], "content"@)
    &&& first_choice(event)->Members_0["delta"@]->Members_0["content"@] == Json::Text(t)
}

/// An event brings the content of the delta of its first choice as it stands
/// there, whatever else it holds; without such a content it brings none.
pub proof fn event_brings_its_content(event: Json, t: Seq<char>)
    ensures
        delta_in(event) == Some(t) <==> brings(event, t),
{
}

/// `data` is a text of JSON that brings `content`, as it stands behind the
/// `data: ` of a line.
pub open spec fn is_event(data: Seq<char>, content: Seq<char>) -> bool {
    &&& data.len() > 0
    &&& !is_white(data[0])
    &&& !is_white(data.last())
    &&& !data.contains('\n')
    &&& data != "[DONE]"@
    &&& json_in(data) is Some
    &&& brings(json_in(data)->0, content)
}

/// What follows `data: ` on a line is read without the white space around it.
proof fn lemma_data(a: Seq<char>, b: Seq<char>, data: Seq<char>, c: Seq<char>)
    requires
        is_blank(a),
        is_blank(b),
        is_blank(c),
        data.len() > 0,
        !is_white(data[0]),
        !is_white(data.last()),
    ensures
        ({
            let event = trimmed(a + ("data: "@ + b + data) + c);
            &&& begins(event, "data: "@)
            &&& trimmed(event.skip(6)) == data
        }),
{
    reveal_strlit("data: ");
    let m = "data: "@ + b + data;
    assert(m[0] == 'd');
    assert(m.last() == data.last());
    trimming_keeps_what_stands_between(a, m, c);
    assert(m.subrange(0, 6) =~= "data: "@);
    assert(m.skip(6) =~= b + data + seq![]);
    trimming_keeps_what_stands_between(b, data, seq![]);
}

/// A line that holds an event gives out the content of the event: all of its
/// characters, white space and line breaks included, whatever white space
/// stands around the JSON.
pub proof fn line_gives_out_the_whole_content(
    a: Seq<char>,
    b: Seq<char>,
    data: Seq<char>,
    c: Seq<char>,
    content: Seq<char>,
)
    requires
        is_blank(a),
        is_blank(b),
        is_blank(c),
        is_event(data, content),
    ensures
        meaning(a + ("data: "@ + b + data) + c) == LineValue::Piece(content),
{
    lemma_data(a, b, data, c);
    event_brings_its_content(json_in(data)->0, content);
}

/// The line with `[DONE]` ends the reply.
pub proof fn done_ends_the_reply(a: Seq<char>, b: Seq<char>, c: Seq<char>)
    requires
        is_blank(a),
        is_blank(b),
        is_blank(c),
    ensures
        meaning(a + ("data: "@ + b + "[DONE]"@) + c) is End,
{
    reveal_strlit("[DONE]");
    lemma_data(a, b, "[DONE]"@, c);
}

/// A line with data that brings no content says nothing, and neither does a
/// line without data.
pub proof fn other_lines_say_nothing(
    a: Seq<char>,
    b: Seq<char>,
    data: Seq<char>,
    c: Seq<char>,
    line: Seq<char>,
)
    requires
        is_blank(a),
        is_blank(b),
        is_blank(c),
        line.len() == 0 || (!is_white(line[0]) && !is_white(line.last())),
    ensures
        ({
            &&& data.len() > 0
            &&& !is_white(data[0])
            &&& !is_white(data.last())
            &&& data != "[DONE]"@
            &&& json_in(data) is None || forall|t: Seq<char>| !brings(json_in(data)->0, t)
        }) ==> meaning(a + ("data: "@ + b + data) + c) is Nothing,
        !(line.len() >= 6 && line.take(6) == "data: "@) ==> meaning(a + line + c) is Nothing,
{
    reveal_strlit("data: ");
    if data.len() > 0 && !is_white(data[0]) && !is_white(data.last()) {
        lemma_data(a, b, data, c);
        if json_in(data) is Some && delta_in(json_in(data)->0) is Some {
            event_brings_its_content(json_in(data)->0, delta_in(json_in(data)->0)->0);
        }
    }
    trimming_keeps_what_stands_between(a, line, c);
    if begins(line, "data: "@) {
        assert(line.take(6) =~= line.subrange(0, 6));
    }
}

/// Whole lines are read one behind the other. What a line says is given out
/// before what the next ones say; the line that ends the reply ends the
/// reading; and what is no whole line yet waits for the rest of it.
pub proof fn lines_are_read_in_order(line: Seq<char>, rest: Seq<char>)
    requires
        !line.contains('\n'),
    ensures
        pieces_in(line) == (Seq::<Seq<char>>::empty(), line),
        meaning(line) matches LineValue::Piece(t) ==> pieces_in(line + seq!['\n'] + rest) == (
            seq![t] + pieces_in(rest).0,
            pieces_in(rest).1,
        ),
        meaning(line) is End ==> pieces_in(line + seq!['\n'] + rest) == (
            Seq::<Seq<char>>::empty(),
            rest,
        ),
        meaning(line) is Nothing ==> pieces_in(line + seq!['\n'] + rest) == pieces_in(rest),
{
    lemma_find_char(line, '\n', rest);
    let s = line + seq!['\n'] + rest;
    assert(s.take(line.len() as int) =~= line);
    assert(s.skip(line.len() as int + 1) =~= rest);
}

/// An event as the inference server writes it: its line, and an empty one.
pub open spec fn event_text(data: Seq<char>) -> Seq<char> {
    "data: "@ + data + "\n\n"@
}

proof fn lemma_event(data: Seq<char>, content: Seq<char>, rest: Seq<char>)
    requires
        is_event(data, content),
    ensures
        pieces_in(event_text(data) + rest) == (
            seq![content] + pieces_in(rest).0,
            pieces_in(rest).1,
        ),
{
    reveal_strlit("data: ");
    reveal_strlit("\n\n");
    let none = Seq::<char>::empty();
    let line = "data: "@ + data;
    let tail = none + seq!['\n'] + rest;
    line_gives_out_the_whole_content(none, none, data, none, content);
    assert(none + ("data: "@ + none + data) + none =~= line);
    assert forall|k: int| 0 <= k < line.len() implies line[k] != '\n' by {
        if k >= 6 {
            assert(line[k] == data[k - 6]);
            assert(data.contains(data[k - 6]));
        }
    }
    lines_are_read_in_order(line, tail);
    other_lines_say_nothing(none, none, none, none, none);
    assert(none + none + none =~= none);
    lines_are_read_in_order(none, rest);
    assert(event_text(data) + rest =~= line + seq!['\n'] + tail);
}

/// A reply of events gives out the contents of all of them, in order and
/// character by character, so that its text is the contents one behind the
/// other; and what follows the line with `[DONE]` is not read.
pub proof fn reply_is_the_contents_of_its_events(
    data: Seq<Seq<char>>,
    contents: Seq<Seq<char>>,
    rest: Seq<char>,
)
    requires
        data.len() == contents.len(),
        forall|i: int|
            #![trigger data[i]]
            #![trigger contents[i]]
            0 <= i < data.len() ==> is_event(data[i], contents[i]),
    ensures
        ({
            let events = glued(data.map_values(|d: Seq<char>| event_text(d)));
            &&& pieces_in(events) == (contents, Seq::<char>::empty())
            &&& glued(pieces_in(events).0) == glued(contents)
            &&& pieces_in(events + "data: [DONE]\n"@ + rest) == (contents, rest)
        }),
    decreases data.len(),
{
    let list = data.map_values(|d: Seq<char>| event_text(d));
    let events = glued(list);
    let none = Seq::<char>::empty();
    let end = "data: [DONE]\n"@ + rest;
    if data.len() == 0 {
        assert(list.len() == 0);
        assert(events =~= none);
        lines_are_read_in_order(none, none);
        assert(contents =~= seq![]);
        reveal_strlit("data: ");
        reveal_strlit("[DONE]");
        reveal_strlit("data: [DONE]\n");
        let line = "data: "@ + none + "[DONE]"@;
        done_ends_the_reply(none, none, none);
        assert(none + line + none =~= line);
        assert forall|k: int| 0 <= k < line.len() implies line[k] != '\n' by {}
        lines_are_read_in_order(line, rest);
        assert(events + "data: [DONE]\n"@ + rest =~= line + seq!['\n'] + rest);
    } else {
        let more = data.skip(1);
        let pieces = contents.skip(1);
        assert forall|i: int|
            #![trigger more[i]]
            #![trigger pieces[i]]
            0 <= i < more.len() implies is_event(more[i], pieces[i]) by {
            assert(more[i] == data[i + 1] && pieces[i] == contents[i + 1]);
        }
        reply_is_the_contents_of_its_events(more, pieces, rest);
        assert(list.skip(1) =~= more.map_values(|d: Seq<char>| event_text(d)));
        let tail = glued(list.skip(1));
        assert(list[0] == event_text(data[0]));
        assert(is_event(data[0], contents[0]));
        lemma_event(data[0], contents[0], tail);
        lemma_event(data[0], contents[0], tail + "data: [DONE]\n"@ + rest);
        assert(events + "data: [DONE]\n"@ + rest =~= event_text(data[0]) + (tail
            + "data: [DONE]\n"@ + rest));
        assert(seq![contents[0]] + pieces =~= contents);
    }
}

} // verus!
