//! The HTTP route layer: stateless mappings from a request body and a
//! handler outcome to the reply the route sends.
//!
//! Three routes exist. `GET /` lists the entries and replies with the
//! rendered page; `POST /add` inserts an entry and redirects to `/`;
//! `POST /delete` removes an entry by id and redirects to `/`. Every
//! failure category maps to exactly one status code: decoding failures
//! to 400, everything else to 500, and no reply carries internal error
//! detail in its body.
use vstd::prelude::*;

use crate::form::{
    dec_value, field_values, id_key, is_dec_digits, parse_add_params, parse_delete_params,
    text_key, DecodeError,
};
use crate::store::{EntryView, TodoStore};

verus! {

/// One failure category per way a request can go wrong.
#[derive(Clone, Copy, Debug, PartialEq, Eq, Structural)]
pub enum ServiceError {
    /// The template renderer rejected the entry list.
    Render,
    /// No storage connection could be acquired.
    Connection,
    /// The storage statement failed.
    Query,
    /// The form body could not be decoded.
    Decode,
}

/// The one status code each failure category maps to.
pub open spec fn spec_status_of(e: ServiceError) -> u16 {
    match e {
        ServiceError::Render => 500,
        ServiceError::Connection => 500,
        ServiceError::Query => 500,
        ServiceError::Decode => 400,
    }
}

/// The status dispatch table: decoding failures are the client's fault,
/// every other failure is the server's.
pub fn status_of(e: &ServiceError) -> (s: u16)
    ensures
        s == spec_status_of(*e),
{
    match e {
        ServiceError::Render => 500,
        ServiceError::Connection => 500,
        ServiceError::Query => 500,
        ServiceError::Decode => 400,
    }
}

/// What a route replies: a status code, the optional `Content-Type` and
/// `Location` headers, and the body.
pub struct HttpReply {
    pub status: u16,
    pub content_type: Option<String>,
    pub location: Option<String>,
    pub body: String,
}

/// The redirect target of the mutating routes.
pub open spec fn root_path() -> Seq<char> {
    seq!['/']
}

/// The content type of the rendered page.
pub open spec fn html_content_type() -> Seq<char> {
    seq!['t', 'e', 'x', 't', '/', 'h', 't', 'm', 'l']
}

/// A see-other redirect to `/` with an empty body.
pub open spec fn is_see_other(r: HttpReply) -> bool {
    &&& r.status == 303
    &&& r.content_type is None
    &&& r.location is Some
    &&& r.location.unwrap()@ == root_path()
    &&& r.body@ == Seq::<char>::empty()
}

/// An error reply: the category's status code and nothing else, so no
/// internal detail reaches the client.
pub open spec fn is_error_reply(r: HttpReply, e: ServiceError) -> bool {
    &&& r.status == spec_status_of(e)
    &&& r.content_type is None
    &&& r.location is None
    &&& r.body@ == Seq::<char>::empty()
}

/// The redirect-after-post reply: 303 with `Location: /` and no body.
fn see_other() -> (r: HttpReply)
    ensures
        is_see_other(r),
{
    let location = "/".to_owned();
    proof {
        reveal_strlit("/");
        assert(location@ =~= root_path());
    }
    HttpReply { status: 303, content_type: None, location: Some(location), body: String::new() }
}

/// The opaque reply for a failed request.
pub fn error_reply(e: &ServiceError) -> (r: HttpReply)
    ensures
        is_error_reply(r, *e),
{
    HttpReply { status: status_of(e), content_type: None, location: None, body: String::new() }
}

/// `GET /`: replies 200 with the rendered page, or the error reply when
/// storage or the renderer failed.
pub fn index_response(rendered: Result<String, ServiceError>) -> (r: HttpReply)
    ensures
        match rendered {
            Ok(html) => {
                &&& r.status == 200
                &&& r.content_type is Some
                &&& r.content_type.unwrap()@ == html_content_type()
                &&& r.location is None
                &&& r.body@ == html@
            },
            Err(e) => is_error_reply(r, e),
        },
{
    match rendered {
        Ok(html) => {
            let content_type = "text/html".to_owned();
            proof {
                reveal_strlit("text/html");
                assert(content_type@ =~= html_content_type());
            }
            HttpReply { status: 200, content_type: Some(content_type), location: None, body: html }
        },
        Err(e) => error_reply(&e),
    }
}

/// `POST /add` after the insertion attempt: redirect on success, the
/// error reply otherwise.
pub fn add_response(outcome: Result<(), ServiceError>) -> (r: HttpReply)
    ensures
        match outcome {
            Ok(_) => is_see_other(r),
            Err(e) => is_error_reply(r, e),
        },
{
    match outcome {
        Ok(_) => see_other(),
        Err(e) => error_reply(&e),
    }
}

/// `POST /delete` after the removal attempt: redirect on success, the
/// error reply otherwise.
pub fn delete_response(outcome: Result<(), ServiceError>) -> (r: HttpReply)
    ensures
        match outcome {
            Ok(_) => is_see_other(r),
            Err(e) => is_error_reply(r, e),
        },
{
    match outcome {
        Ok(_) => see_other(),
        Err(e) => error_reply(&e),
    }
}

/// `POST /add` against the storage model: a body with exactly one `text`
/// field holding valid UTF-8 appends an entry under the next fresh id and
/// redirects; any other body is rejected with 400 and changes nothing.
pub fn handle_add(store: &mut TodoStore, body: &[u8]) -> (r: HttpReply)
    requires
        old(store).wf(),
        old(store).fresh_id() < u32::MAX,
    ensures
        final(store).wf(),
        ({
            let vals = field_values(body@, text_key());
            if vals.len() == 1 && vstd::utf8::valid_utf8(vals[0]) {
                &&& is_see_other(r)
                &&& final(store)@ == old(store)@.push(
                    EntryView { id: old(store).fresh_id(), text: vstd::utf8::decode_utf8(vals[0]) },
                )
                &&& final(store).fresh_id() == old(store).fresh_id() + 1
            } else {
                &&& is_error_reply(r, ServiceError::Decode)
                &&& final(store)@ == old(store)@
                &&& final(store).fresh_id() == old(store).fresh_id()
            }
        }),
{
    match parse_add_params(body) {
        Ok(p) => {
            store.insert(p.text);
            see_other()
        },
        Err(_) => error_reply(&ServiceError::Decode),
    }
}

/// `POST /delete` against the storage model: a body with exactly one `id`
/// field naming a decimal `u32` removes that id (present or not) and
/// redirects; any other body is rejected with 400 and changes nothing.
pub fn handle_delete(store: &mut TodoStore, body: &[u8]) -> (r: HttpReply)
    requires
        old(store).wf(),
    ensures
        final(store).wf(),
        final(store).fresh_id() == old(store).fresh_id(),
        ({
            let vals = field_values(body@, id_key());
            if vals.len() == 1 && is_dec_digits(vals[0]) && dec_value(vals[0]) <= u32::MAX {
                &&& is_see_other(r)
                &&& final(store)@ == old(store)@.filter(
                    (|e: EntryView| e.id != dec_value(vals[0]) as u32),
                )
            } else {
                &&& is_error_reply(r, ServiceError::Decode)
                &&& final(store)@ == old(store)@
            }
        }),
{
    match parse_delete_params(body) {
        Ok(p) => {
            store.delete(p.id);
            proof {
                let ghost vals = field_values(body@, id_key());
                assert((|e: EntryView| e.id != p.id) =~= (
                |e: EntryView| e.id != dec_value(vals[0]) as u32));
            }
            see_other()
        },
        Err(_) => error_reply(&ServiceError::Decode),
    }
}

} // verus!
