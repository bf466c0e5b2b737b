//! The decision core of an OCR gateway.
//!
//! A client hands over a document, an image or a PDF. The gateway opens it
//! ([`encoding`], [`pdf`], [`processor`]), asks an inference server to read its
//! pages ([`batches`], [`vllm`]), and makes a response of the replies
//! ([`patterns`], [`markup`], [`processor`]). A client may listen while its
//! document is read ([`grounding`], [`stream`]), or have it queued to be read
//! later ([`tasks`]).
//!
//! What holds of all this beyond a single call is proved in modules of its own:
//! of documents, errors and settings in [`document_laws`]; of prompts and the
//! replies to them in [`reply_laws`]; of boxes and the text around them in
//! [`markup_laws`] and [`sanitize_laws`]; of batches, responses and what is sent
//! in [`response_laws`]; of what the parser gives out in [`parser_laws`]; that
//! what a client that listens is sent agrees with the response in one piece, in
//! [`stream_laws`] and [`agreement`]; and of the texts beneath it all in
//! [`text_laws`].
//!
//! Nothing here does input or output: what was read from outside comes in as a
//! value, and what is to be sent goes out as one.

pub mod agreement;
pub mod batches;
pub mod config;
pub mod document_laws;
pub mod encoding;
pub mod errors;
pub mod grounding;
pub mod json;
pub mod markup;
pub mod markup_laws;
pub mod models;
pub mod parser_laws;
pub mod patterns;
pub mod pdf;
pub mod processor;
pub mod reply_laws;
pub mod response_laws;
pub mod sanitize_laws;
pub mod stream;
pub mod stream_laws;
pub mod tasks;
pub mod text;
pub mod text_laws;
pub mod vllm;
