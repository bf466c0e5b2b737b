//! Documents that are read later: how a document is queued as a task, and what
//! a client is told of its task.

use serde_json::Value;
use uuid::Uuid;
use vstd::prelude::*;

use crate::config::{text_in, text_or};
use crate::encoding::{decodes, decoding_is_unique, encode_standard, encoded};
use crate::json::{json_in, json_of, parse_json};
use crate::text::{after_last, concat, text_after_last, text_opt};

verus! {

broadcast use vstd::seq::group_seq_axioms;

/// The list of the tasks that wait.
pub const QUEUE: &'static str = "ocr_tasks";

/// The state of a task that waits.
pub const QUEUED: &'static str = "queued";

/// The reply to a client that has queued a document.
#[derive(Debug)]
pub struct TaskResponse {
    pub task_id: String,
    pub status: String,
}

/// The reply to a client that asks for its task.
#[derive(Debug)]
pub struct StatusResponse {
    pub task_id: String,
    pub status: String,
    /// What was read, once the task is done.
    pub result: Option<Value>,
    /// What went wrong, where something did.
    pub error: Option<String>,
}

/// A request that is not granted: the HTTP status, and what the client is told.
#[derive(Debug)]
pub struct Refusal {
    pub status: u16,
    pub message: String,
}

/// Where the store of the tasks is.
pub fn redis_url(host: &Option<String>, port: &Option<String>) -> (r: String)
    ensures
        r@ == "redis://"@ + text_in(*host, "ocr-redis-service"@) + ":"@ + text_in(
            *port,
            "6379"@,
        ),
{
    let mut r = concat("redis://", &text_or(host, "ocr-redis-service"));
    r.append(":");
    r.append(&text_or(port, "6379"));
    r
}

/// The key under which a task is stored.
pub open spec fn key_of(task_id: Seq<char>) -> Seq<char> {
    "task:"@ + task_id
}

/// The key under which a task is stored.
pub fn task_key(task_id: &str) -> (r: String)
    ensures
        r@ == key_of(task_id@),
{
    concat("task:", task_id)
}

// ---------------------------------------------------------------------------
// Queueing a document
// ---------------------------------------------------------------------------

/// A digit of a hexadecimal number in lower case.
pub open spec fn is_hex_digit(c: char) -> bool {
    '0' <= c <= '9' || 'a' <= c <= 'f'
}

/// A random UUID (version 4 of RFC 9562) as text.
pub open spec fn is_random_uuid(s: Seq<char>) -> bool {
    &&& s.len() == 36
    &&& forall|i: int|
        0 <= i < 36 ==> if i == 8 || i == 13 || i == 18 || i == 23 {
            #[trigger] s[i] == '-'
        } else {
            is_hex_digit(s[i])
        }
    &&& s[14] == '4'
    &&& s[19] == '8' || s[19] == '9' || s[19] == 'a' || s[19] == 'b'
}

/// `Uuid::new_v4` makes a random UUID, and its `Display` writes it in groups of
/// lower-case hexadecimal digits between hyphens. Which UUID it is rests on
/// chance, so nothing is said of that, nor that two of them differ.
#[verifier::external_body]
fn random_uuid() -> (r: String)
    ensures
        is_random_uuid(r@),
{
    Uuid::new_v4().to_string()
}

/// The field of a form that holds the document.
pub const FILE_FIELD: &'static str = "file";

/// Whether the field of a form with the given name holds the document.
pub fn is_file_field(name: &Option<String>) -> (r: bool)
    ensures
        r == (text_opt(*name) == Some(FILE_FIELD@)),
{
    match name {
        Some(n) => *n == FILE_FIELD.to_string(),
        None => false,
    }
}

/// The refusal of a form without a document.
pub fn missing_file() -> (r: Refusal)
    ensures
        r.status == 400,
        r.message@ == "Missing 'file' field in multipart form"@,
{
    Refusal { status: 400, message: "Missing 'file' field in multipart form".to_string() }
}

/// A document that is queued: what is stored of it, and what its client is
/// told.
#[derive(Debug)]
pub struct QueuedTask {
    /// The key under which the fields are stored.
    pub key: String,
    /// The fields, each with its name, all stored at a time.
    pub fields: Vec<(String, String)>,
    /// The HTTP status of the reply.
    pub status: u16,
    /// The reply.
    pub response: TaskResponse,
}

/// The values of a list of fields.
pub open spec fn fields_of(list: Seq<(String, String)>) -> Seq<(Seq<char>, Seq<char>)> {
    list.map_values(|f: (String, String)| (f.0@, f.1@))
}

/// The name of a document; one that a client did not name is "unknown.pdf".
pub open spec fn document_name(file_name: Option<String>) -> Seq<char> {
    text_in(file_name, "unknown.pdf"@)
}

/// What is stored of a document.
pub open spec fn stored(file_name: Option<String>, data: Seq<u8>) -> Seq<(Seq<char>, Seq<char>)> {
    seq![
        ("status"@, QUEUED@),
        ("filename"@, document_name(file_name)),
        ("extension"@, after_last(document_name(file_name), '.')),
        ("data"@, encoded(data, false)),
    ]
}

impl QueuedTask {
    /// The task queues the given document under the given number.
    pub open spec fn queues(
        self,
        task_id: Seq<char>,
        file_name: Option<String>,
        data: Seq<u8>,
    ) -> bool {
        &&& self.key@ == key_of(task_id)
        &&& fields_of(self.fields@) == stored(file_name, data)
        &&& self.status == 202
        &&& self.response.task_id@ == task_id
        &&& self.response.status@ == QUEUED@
    }
}

/// Queues a document under a number that is not taken.
pub fn queue_document(task_id: String, file_name: &Option<String>, data: &[u8]) -> (r: QueuedTask)
    ensures
        r.queues(task_id@, *file_name, data@),
{
    let name = text_or(file_name, "unknown.pdf");
    let extension = text_after_last(&name, '.');
    let mut fields: Vec<(String, String)> = Vec::new();
    fields.push(("status".to_string(), QUEUED.to_string()));
    fields.push(("filename".to_string(), name));
    fields.push(("extension".to_string(), extension));
    fields.push(("data".to_string(), encode_standard(data)));
    proof {
        assert(fields_of(fields@) =~= stored(*file_name, data@));
    }
    QueuedTask {
        key: task_key(&task_id),
        fields,
        status: 202,
        response: TaskResponse { task_id, status: QUEUED.to_string() },
    }
}

/// Queues a document under a random number.
pub fn submit_task(file_name: &Option<String>, data: &[u8]) -> (r: QueuedTask)
    ensures
        is_random_uuid(r.response.task_id@),
        r.queues(r.response.task_id@, *file_name, data@),
{
    queue_document(random_uuid(), file_name, data)
}

// ---------------------------------------------------------------------------
// Asking for a task
// ---------------------------------------------------------------------------

/// What the first field with the given name holds.
pub open spec fn field(fields: Seq<(Seq<char>, Seq<char>)>, name: Seq<char>) -> Option<Seq<char>>
    decreases fields.len(),
{
    if fields.len() == 0 {
        None
    } else if fields[0].0 == name {
        Some(fields[0].1)
    } else {
        field(fields.skip(1), name)
    }
}

fn find_field(fields: &Vec<(String, String)>, name: &str) -> (r: Option<String>)
    ensures
        text_opt(r) == field(fields_of(fields@), name@),
{
    let ghost all = fields_of(fields@);
    let wanted = name.to_string();
    let mut i: usize = 0;
    proof {
        assert(all.skip(0) =~= all);
    }
    while i < fields.len()
        invariant
            i <= fields@.len(),
            all == fields_of(fields@),
            wanted@ == name@,
            field(all.skip(i as int), name@) == field(all, name@),
        decreases fields@.len() - i,
    {
        proof {
            assert(all.skip(i as int)[0] == all[i as int]);
            assert(all.skip(i as int).skip(1) =~= all.skip(i + 1));
        }
        if fields[i].0 == wanted {
            return Some(fields[i].1.clone());
        }
        i += 1;
    }
    None
}

/// The state of a task with the given fields.
pub open spec fn state_in(fields: Seq<(Seq<char>, Seq<char>)>) -> Seq<char> {
    match field(fields, "status"@) {
        Some(s) => s,
        None => "unknown"@,
    }
}

impl StatusResponse {
    /// The reply for a task with the given fields.
    pub open spec fn tells(
        self,
        task_id: Seq<char>,
        fields: Seq<(Seq<char>, Seq<char>)>,
    ) -> bool {
        &&& self.task_id@ == task_id
        &&& self.status@ == state_in(fields)
        &&& text_opt(self.error) == field(fields, "error"@)
        &&& match self.result {
            Some(value) => field(fields, "result"@) matches Some(text) && json_in(text) == Some(
                json_of(value),
            ),
            None => field(fields, "result"@) matches Some(text) ==> json_in(text) is None,
        }
    }
}

/// What a client is told of its task: its state, what was read as far as it is
/// JSON, and what went wrong. `fields` is what is stored of the task, each field
/// with its name, absent where nothing is stored.
pub fn get_status(task_id: String, fields: &Option<Vec<(String, String)>>) -> (r: Result<
    StatusResponse,
    Refusal,
>)
    ensures
        match r {
            Ok(reply) => fields matches Some(f) && reply.tells(task_id@, fields_of(f@)),
            Err(refusal) => {
                &&& fields is None
                &&& refusal.status == 404
                &&& refusal.message@ == "Task ID not found"@
            },
        },
{
    let list = match fields {
        Some(list) => list,
        None => return Err(Refusal { status: 404, message: "Task ID not found".to_string() }),
    };
    let status = match find_field(list, "status") {
        Some(s) => s,
        None => "unknown".to_string(),
    };
    let result = match find_field(list, "result") {
        Some(text) => match parse_json(&text) {
            Ok(value) => Some(value),
            Err(_) => None,
        },
        None => None,
    };
    let error = find_field(list, "error");
    Ok(StatusResponse { task_id, status, result, error })
}

// ---------------------------------------------------------------------------
// Laws
// ---------------------------------------------------------------------------

/// A task that was queued and not touched since is told of as queued, with
/// neither a result nor an error.
pub proof fn queued_task_is_told_of_as_queued(
    task: QueuedTask,
    task_id: Seq<char>,
    file_name: Option<String>,
    data: Seq<u8>,
    reply: StatusResponse,
)
    requires
        task.queues(task_id, file_name, data),
        reply.tells(task_id, fields_of(task.fields@)),
    ensures
        reply.task_id@ == task.response.task_id@,
        reply.status@ == task.response.status@,
        reply.result is None,
        reply.error is None,
{
    lemma_names();
    lemma_stored(file_name, data, "status"@);
    lemma_stored(file_name, data, "result"@);
    lemma_stored(file_name, data, "error"@);
}

/// The stored text of a document is the Base64 of that document, and of no
/// other.
pub proof fn queued_document_is_read_back(
    task: QueuedTask,
    task_id: Seq<char>,
    file_name: Option<String>,
    data: Seq<u8>,
    bytes: Seq<u8>,
)
    requires
        task.queues(task_id, file_name, data),
    ensures
        field(fields_of(task.fields@), "data"@) is Some,
        decodes(field(fields_of(task.fields@), "data"@)->0, bytes) <==> bytes == data,
{
    lemma_names();
    lemma_stored(file_name, data, "data"@);
    let text = encoded(data, false);
    assert(decodes(text, data));
    if decodes(text, bytes) {
        decoding_is_unique(text, bytes, data);
    }
}

/// What is stored of a queued document: that it waits, its name, what stands in
/// the name behind the last dot, and nothing else but its text; a document
/// without a name is `unknown.pdf`.
pub proof fn queued_document_is_stored_with_its_name(
    task: QueuedTask,
    task_id: Seq<char>,
    file_name: Option<String>,
    data: Seq<u8>,
    other: Seq<char>,
)
    requires
        task.queues(task_id, file_name, data),
    ensures
        ({
            let fields = fields_of(task.fields@);
            let name = if file_name is Some {
                file_name->0@
            } else {
                "unknown.pdf"@
            };
            &&& task.key@ == "task:"@ + task_id
            &&& task.status == 202
            &&& task.response.task_id@ == task_id
            &&& task.response.status@ == "queued"@
            &&& fields.len() == 4
            &&& field(fields, "status"@) == Some("queued"@)
            &&& field(fields, "filename"@) == Some(name)
            &&& field(fields, "extension"@) == Some(after_last(name, '.'))
            &&& field(fields, "data"@) == Some(encoded(data, false))
            &&& other != "status"@ && other != "filename"@ && other != "extension"@ && other
                != "data"@ ==> field(fields, other) is None
        }),
{
    lemma_names();
    lemma_stored(file_name, data, "status"@);
    lemma_stored(file_name, data, "filename"@);
    lemma_stored(file_name, data, "extension"@);
    lemma_stored(file_name, data, "data"@);
    lemma_stored(file_name, data, other);
}

/// The values of fields are those of each of them, in order.
pub proof fn field_values_are_listed_in_order(list: Seq<(String, String)>, k: int)
    requires
        0 <= k < list.len(),
    ensures
        fields_of(list).len() == list.len(),
        fields_of(list)[k].0 == list[k].0@,
        fields_of(list)[k].1 == list[k].1@,
{
}

/// Tasks wait in the list `ocr_tasks`, and the field `file` of a form holds the
/// document.
pub proof fn tasks_wait_in_their_list()
    ensures
        QUEUE@ == "ocr_tasks"@,
        FILE_FIELD@ == "file"@,
{
}

/// A field is found by its name wherever it stands, and the first of that name
/// counts.
pub proof fn first_field_of_a_name_counts(
    a: Seq<(Seq<char>, Seq<char>)>,
    name: Seq<char>,
    value: Seq<char>,
    b: Seq<(Seq<char>, Seq<char>)>,
)
    requires
        forall|i: int| 0 <= i < a.len() ==> (#[trigger] a[i]).0 != name,
    ensures
        field(a + seq![(name, value)] + b, name) == Some(value),
        field(a, name) is None,
    decreases a.len(),
{
    let s = a + seq![(name, value)] + b;
    if a.len() == 0 {
        assert(s[0] == (name, value));
    } else {
        let t = a.skip(1);
        assert(s[0] == a[0]);
        assert forall|i: int| 0 <= i < t.len() implies (#[trigger] t[i]).0 != name by {
            assert(t[i] == a[i + 1]);
        }
        first_field_of_a_name_counts(t, name, value, b);
        assert(s.skip(1) =~= t + seq![(name, value)] + b);
    }
}

/// A client is told the state that is stored of its task, `unknown` where none
/// is; the error that is stored, where one is; and the result as far as it is
/// JSON.
pub proof fn reply_tells_what_is_stored(
    reply: StatusResponse,
    task_id: Seq<char>,
    fields: Seq<(Seq<char>, Seq<char>)>,
)
    requires
        reply.tells(task_id, fields),
    ensures
        reply.task_id@ == task_id,
        field(fields, "status"@) matches Some(s) ==> reply.status@ == s,
        field(fields, "status"@) is None ==> reply.status@ == "unknown"@,
        field(fields, "error"@) matches Some(e) ==> reply.error is Some && reply.error->0@ == e,
        field(fields, "error"@) is None ==> reply.error is None,
        field(fields, "result"@) is None ==> reply.result is None,
        field(fields, "result"@) matches Some(text) ==> match json_in(text) {
            Some(json) => reply.result is Some && json_of(reply.result->0) == json,
            None => reply.result is None,
        },
{
}

proof fn lemma_names()
    ensures
        "status"@ =~= seq!['s', 't', 'a', 't', 'u', 's'],
        "filename"@ =~= seq!['f', 'i', 'l', 'e', 'n', 'a', 'm', 'e'],
        "extension"@ =~= seq!['e', 'x', 't', 'e', 'n', 's', 'i', 'o', 'n'],
        "data"@ =~= seq!['d', 'a', 't', 'a'],
        "result"@ =~= seq!['r', 'e', 's', 'u', 'l', 't'],
        "error"@ =~= seq!['e', 'r', 'r', 'o', 'r'],
{
    reveal_strlit("status");
    reveal_strlit("filename");
    reveal_strlit("extension");
    reveal_strlit("data");
    reveal_strlit("result");
    reveal_strlit("error");
}

proof fn lemma_stored(file_name: Option<String>, data: Seq<u8>, name: Seq<char>)
    ensures
        field(stored(file_name, data), name) == if name == "status"@ {
            Some(QUEUED@)
        } else if name == "filename"@ {
            Some(document_name(file_name))
        } else if name == "extension"@ {
            Some(after_last(document_name(file_name), '.'))
        } else if name == "data"@ {
            Some(encoded(data, false))
        } else {
            None
        },
{
    reveal_with_fuel(field, 5);
    let s = stored(file_name, data);
    assert(s.skip(1)[0] == s[1]);
    assert(s.skip(1).skip(1)[0] == s[2]);
    assert(s.skip(1).skip(1).skip(1)[0] == s[3]);
}

} // verus!
