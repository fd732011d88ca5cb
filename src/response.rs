//! The response builder and its serialization to wire bytes.
use vstd::prelude::*;
use vstd::utf8::encode_utf8;
use crate::errors::ServerError;
use crate::headers::{set_entry, Headers};
use crate::text::{decimal, decimal_string, push_str};

verus! {

/// The characters before the body: status line, headers and the empty line.
pub open spec fn head_text(status: Seq<char>, headers: Seq<char>) -> Seq<char> {
    seq!['H', 'T', 'T', 'P', '/', '1', '.', '1', ' '] + status + seq!['\r', '\n'] + headers + seq!['\r', '\n']
}

/// The name of the header that holds the body's length.
pub open spec fn content_length_name() -> Seq<char> {
    "Content-Length"@
}

/// Appends the bytes of `src` to `dst`.
fn append_bytes(dst: &mut Vec<u8>, src: &[u8])
    ensures
        final(dst)@ == old(dst)@ + src@,
{
    let mut i: usize = 0;
    let ghost start = dst@;
    while i < src.len()
        invariant
            i <= src@.len(),
            dst@ == start + src@.subrange(0, i as int),
        decreases src@.len() - i,
    {
        dst.push(src[i]);
        i = i + 1;
        assert(dst@ =~= start + src@.subrange(0, i as int));
    }
    assert(src@.subrange(0, i as int) =~= src@);
}

/// A response: a status such as `200 OK`, headers and a body. The body is
/// private: `set_body` is the one way to set it, and it sets the
/// `Content-Length` header together with it, which keeps `wf`.
#[derive(Debug)]
pub struct Response {
    pub status: String,
    pub headers: Headers,
    message_body: Vec<u8>,
}

impl Response {
    /// The status text.
    pub closed spec fn status_spec(&self) -> Seq<char> {
        self.status@
    }

    /// The headers.
    pub closed spec fn headers_spec(&self) -> Headers {
        self.headers
    }

    /// The body.
    pub closed spec fn body_spec(&self) -> Seq<u8> {
        self.message_body@
    }

    /// The headers are well formed, and a non-empty body has its length in
    /// the `Content-Length` header.
    pub open spec fn wf(&self) -> bool {
        &&& self.headers_spec().wf()
        &&& self.body_spec().len() > 0 ==> self.headers_spec()@.contains_key(content_length_name())
            && self.headers_spec()@[content_length_name()] == decimal(self.body_spec().len())
    }

    /// The wire form: the UTF-8 encoding of the status line, the headers and
    /// the empty line, then the body bytes as they are.
    pub open spec fn wire(&self) -> Seq<u8> {
        encode_utf8(head_text(self.status_spec(), self.headers_spec().rendered())) + self.body_spec()
    }

    /// The body.
    pub fn body(&self) -> (r: &Vec<u8>)
        ensures
            r@ == self.body_spec(),
    {
        &self.message_body
    }

    /// Replaces the body and sets `Content-Length` to its length in bytes. An
    /// existing `Content-Length` entry keeps its place; otherwise the entry
    /// goes last.
    pub fn set_body(&mut self, new_body: &[u8])
        requires
            old(self).headers_spec().wf(),
        ensures
            final(self).wf(),
            final(self).body_spec() == new_body@,
            final(self).status_spec() == old(self).status_spec(),
            final(self).headers_spec()@ == old(self).headers_spec()@.insert(
                content_length_name(),
                decimal(new_body@.len()),
            ),
            final(self).headers_spec().entries_spec() == set_entry(
                old(self).headers_spec().entries_spec(),
                content_length_name(),
                decimal(new_body@.len()),
            ),
    {
        let mut body: Vec<u8> = Vec::new();
        append_bytes(&mut body, new_body);
        assert(body@ =~= new_body@);
        self.message_body = body;
        let length = decimal_string(new_body.len());
        self.headers.insert("Content-Length".to_owned(), length);
    }

    /// The wire bytes of the response.
    pub fn serialize(&self) -> (r: Vec<u8>)
        ensures
            r@ == self.wire(),
    {
        let mut head = String::new();
        push_str(&mut head, "HTTP/1.1 ");
        push_str(&mut head, self.status.as_str());
        push_str(&mut head, "\r\n");
        let rendered = self.headers.render();
        push_str(&mut head, rendered.as_str());
        push_str(&mut head, "\r\n");
        proof {
            reveal_strlit("HTTP/1.1 ");
            reveal_strlit("\r\n");
            assert(head@ =~= head_text(self.status@, self.headers.rendered()));
        }
        let mut bytes: Vec<u8> = Vec::new();
        append_bytes(&mut bytes, head.as_str().as_bytes());
        append_bytes(&mut bytes, self.message_body.as_slice());
        assert(bytes@ =~= self.wire());
        bytes
    }

    /// Consumes the response and returns its wire bytes. Composing the
    /// bytes cannot fail.
    pub fn validate(self) -> (r: Result<Vec<u8>, ServerError>)
        ensures
            r matches Ok(b) && b@ == self.wire(),
    {
        Ok(self.serialize())
    }
}

impl Default for Response {
    /// Status `200 OK`, the one header `Content-Type: text/html`, no body.
    fn default() -> (r: Response)
        ensures
            r.wf(),
            r.status_spec() == "200 OK"@,
            r.headers_spec()@ == Map::<Seq<char>, Seq<char>>::empty().insert("Content-Type"@, "text/html"@),
            r.headers_spec().entries_spec() == seq![("Content-Type"@, "text/html"@)],
            r.body_spec().len() == 0,
    {
        let mut headers = Headers::new();
        headers.insert("Content-Type".to_owned(), "text/html".to_owned());
        let r = Response { status: "200 OK".to_owned(), headers, message_body: Vec::new() };
        assert(r.headers.entries_spec() =~= seq![("Content-Type"@, "text/html"@)]);
        r
    }
}

/// Serializing is a function of the response's status, header entries and
/// body: two responses that agree on them give the same bytes. Serializing
/// one response twice thus gives identical output, and so do two responses
/// built by the same calls, since `default` and `set_body` fix all three.
pub proof fn lemma_serialize_deterministic(a: &Response, b: &Response)
    requires
        a.status_spec() == b.status_spec(),
        a.headers_spec().entries_spec() == b.headers_spec().entries_spec(),
        a.body_spec() == b.body_spec(),
    ensures
        a.wire() == b.wire(),
{
}

} // verus!
