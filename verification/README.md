# ocr_gateway

The decision core of an OCR gateway, written in Verus: opening documents that
clients send, planning the prompts for an inference server, reading the
grounding markup of its replies (in one piece or as they come in), making the
responses, and queueing documents as tasks.

- `src/` is the library. Every function states what it returns or changes, and
  Verus proves it. What is taken on trust stands at the few wrappers of outside
  functions (regular expressions, Base64, JSON, UUIDs, the lower case of
  Unicode), each with a comment that says what is claimed.
- `tests/` runs the library on concrete values.
- `app/` holds the two programs around it. `gateway` serves `/process`,
  `/process-stream` and `/health`; `producer` serves `/process`,
  `/status/{task_id}` and `/health` on top of Redis. They do the input and
  output: HTTP, the environment, `pdfinfo` and `pdftoppm`, Redis.

A client of `/process-stream` whose document cannot be read, has too many pages,
or comes while the inference server is not ready, is refused with the same
replies as one of `/process`; whatever else goes wrong is told as an `error`
event.

What the model writes is read in two ways, and the library proves that they
agree: `src/agreement.rs` states that the regions sent while a reply comes in
are the boxes of the finished response, however the reply is cut, and that the
texts are the same where no tag stands inside another and none is left.
