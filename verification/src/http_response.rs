use crate::text::{decimal, decimal_string};
use vstd::prelude::*;
use vstd::utf8::encode_utf8;

verus! {

/// The status of a response: one of the five codes the server ever sends.
#[derive(Debug, Clone, Copy, PartialEq, Eq, Structural)]
pub enum HttpStatus {
    Success,
    Created,
    BadRequest,
    NotFound,
    InternalServerError,
}

impl HttpStatus {
    /// The numeric code that stands in the status line.
    pub open spec fn spec_code(self) -> u16 {
        match self {
            HttpStatus::Success => 200,
            HttpStatus::Created => 201,
            HttpStatus::BadRequest => 400,
            HttpStatus::NotFound => 404,
            HttpStatus::InternalServerError => 500,
        }
    }

    /// The reason phrase that follows the code in the status line.
    pub open spec fn reason(self) -> Seq<char> {
        match self {
            HttpStatus::Success => "OK"@,
            HttpStatus::Created => "Created"@,
            HttpStatus::BadRequest => "Bad Request"@,
            HttpStatus::NotFound => "Not Found"@,
            HttpStatus::InternalServerError => "InternalServerError"@,
        }
    }

    /// The numeric code of the status.
    #[verifier::when_used_as_spec(spec_code)]
    pub fn code(self) -> (c: u16)
        ensures
            c == self.spec_code(),
    {
        match self {
            HttpStatus::Success => 200,
            HttpStatus::Created => 201,
            HttpStatus::BadRequest => 400,
            HttpStatus::NotFound => 404,
            HttpStatus::InternalServerError => 500,
        }
    }

    /// The reason phrase of the status.
    pub fn as_str(&self) -> (s: &'static str)
        ensures
            s@ == self.reason(),
    {
        match self {
            HttpStatus::Success => "OK",
            HttpStatus::Created => "Created",
            HttpStatus::BadRequest => "Bad Request",
            HttpStatus::NotFound => "Not Found",
            HttpStatus::InternalServerError => "InternalServerError",
        }
    }
}

/// A header block: names with their values, in the order in which the names
/// were first set.
pub type Headers = Seq<(Seq<char>, Seq<char>)>;

/// Index of the first entry of `headers` under `name`; the length of
/// `headers` where there is none.
pub open spec fn position(headers: Headers, name: Seq<char>) -> nat
    decreases headers.len(),
{
    if headers.len() == 0 || headers[0].0 == name {
        0
    } else {
        1 + position(headers.drop_first(), name)
    }
}

/// `headers` with `name` set to `value`: an entry under that name is
/// overwritten where it stands, a new name goes to the end.
pub open spec fn set_header(headers: Headers, name: Seq<char>, value: Seq<char>) -> Headers {
    let i = position(headers, name) as int;
    if i < headers.len() {
        headers.update(i, (name, value))
    } else {
        headers.push((name, value))
    }
}

/// The value that `headers` holds under `name`.
pub open spec fn header_value(headers: Headers, name: Seq<char>) -> Option<Seq<char>> {
    let i = position(headers, name) as int;
    if i < headers.len() {
        Some(headers[i].1)
    } else {
        None
    }
}

/// No name occurs twice.
pub open spec fn unique_names(headers: Headers) -> bool {
    forall|i: int, j: int|
        0 <= i < j < headers.len() ==> (#[trigger] headers[i]).0 != (#[trigger] headers[j]).0
}

/// `\r\n`, the end of a line on the wire.
pub open spec fn crlf() -> Seq<u8> {
    seq![13u8, 10u8]
}

/// `HTTP/1.1 <code> <reason>\r\n`
pub open spec fn status_line(status: HttpStatus) -> Seq<u8> {
    encode_utf8("HTTP/1.1 "@) + encode_utf8(decimal(status.spec_code() as nat)) + seq![32u8]
        + encode_utf8(status.reason()) + crlf()
}

/// `<name>: <value>\r\n`
pub open spec fn header_line(name: Seq<char>, value: Seq<char>) -> Seq<u8> {
    encode_utf8(name) + seq![58u8, 32u8] + encode_utf8(value) + crlf()
}

/// The lines of all headers, one after the other.
pub open spec fn header_block(headers: Headers) -> Seq<u8>
    decreases headers.len(),
{
    if headers.len() == 0 {
        Seq::empty()
    } else {
        header_block(headers.drop_last()) + header_line(headers.last().0, headers.last().1)
    }
}

/// What a response is: its status, its headers and its body.
pub ghost struct ResponseView {
    pub status: HttpStatus,
    pub headers: Headers,
    pub body: Seq<u8>,
}

impl ResponseView {
    /// The response with the given status, an empty body, and the content
    /// type of plain text.
    pub open spec fn new(status: HttpStatus) -> Self {
        ResponseView {
            status,
            headers: seq![("Content-Type"@, "text/plain"@)],
            body: Seq::empty(),
        }
    }

    /// The response with `body` as its body and `Content-Length` set to the
    /// length of `body`.
    pub open spec fn with_body(self, body: Seq<u8>) -> Self {
        ResponseView {
            status: self.status,
            headers: set_header(self.headers, "Content-Length"@, decimal(body.len())),
            body,
        }
    }

    /// The response with the header `name` set to `value`.
    pub open spec fn with_header(self, name: Seq<char>, value: Seq<char>) -> Self {
        ResponseView {
            status: self.status,
            headers: set_header(self.headers, name, value),
            body: self.body,
        }
    }

    /// The response as it goes over the wire: status line, headers, an empty
    /// line, and the body with nothing after it.
    pub open spec fn wire(self) -> Seq<u8> {
        status_line(self.status) + header_block(self.headers) + crlf() + self.body
    }
}

/// A response in the making: `new` gives it its status, `with_body` and
/// `with_header` fill it, and `to_string` gives the bytes to send.
#[derive(Debug, Clone)]
pub struct HttpResponse {
    status_code: HttpStatus,
    headers: Vec<(String, String)>,
    pub body: Vec<u8>,
}

impl View for HttpResponse {
    type V = ResponseView;

    closed spec fn view(&self) -> ResponseView {
        ResponseView {
            status: self.status_code,
            headers: self.headers.deep_view(),
            body: self.body@,
        }
    }
}

/// Where no entry before `i` stands under `name`, and the entry at `i` does
/// or `i` is the end, `i` is the position of `name`.
proof fn lemma_position_is(headers: Headers, name: Seq<char>, i: int)
    requires
        0 <= i <= headers.len(),
        forall|j: int| 0 <= j < i ==> (#[trigger] headers[j]).0 != name,
        i == headers.len() || headers[i].0 == name,
    ensures
        position(headers, name) == i,
    decreases i,
{
    if i > 0 {
        let t = headers.drop_first();
        assert forall|j: int| 0 <= j < i - 1 implies (#[trigger] t[j]).0 != name by {
            assert(t[j] == headers[j + 1]);
        }
        lemma_position_is(t, name, i - 1);
    }
}

/// The position of a name is an index of the block or its length, and no
/// entry before it stands under that name.
pub proof fn lemma_position(headers: Headers, name: Seq<char>)
    ensures
        position(headers, name) <= headers.len(),
        position(headers, name) < headers.len() ==> headers[position(headers, name) as int].0
            == name,
        forall|j: int| 0 <= j < position(headers, name) ==> (#[trigger] headers[j]).0 != name,
    decreases headers.len(),
{
    if headers.len() > 0 && headers[0].0 != name {
        let t = headers.drop_first();
        lemma_position(t, name);
        assert forall|j: int| 0 <= j < position(headers, name) implies (#[trigger] headers[j]).0
            != name by {
            if j > 0 {
                assert(headers[j] == t[j - 1]);
            }
        }
    }
}

/// Setting a header makes it the value under its name and changes the value
/// under no other name.
pub proof fn lemma_set_header_value(
    headers: Headers,
    name: Seq<char>,
    value: Seq<char>,
    other: Seq<char>,
)
    ensures
        header_value(set_header(headers, name, value), other) == if other == name {
            Some(value)
        } else {
            header_value(headers, other)
        },
{
    let after = set_header(headers, name, value);
    let i = position(headers, name) as int;
    lemma_position(headers, name);
    lemma_position(headers, other);
    let k = position(headers, other) as int;
    if other == name {
        lemma_position_is(after, name, i);
    } else if k < headers.len() {
        lemma_position_is(after, other, k);
    } else {
        lemma_position_is(after, other, after.len() as int);
    }
}

/// Setting a header keeps the names of a block distinct.
pub proof fn lemma_set_header_unique(headers: Headers, name: Seq<char>, value: Seq<char>)
    requires
        unique_names(headers),
    ensures
        unique_names(set_header(headers, name, value)),
{
    lemma_position(headers, name);
}

/// A new response has the content type of plain text.
pub proof fn lemma_new_content_type(status: HttpStatus)
    ensures
        header_value(ResponseView::new(status).headers, "Content-Type"@) == Some("text/plain"@),
        unique_names(ResponseView::new(status).headers),
{
    lemma_position_is(ResponseView::new(status).headers, "Content-Type"@, 0);
}

/// A response with a body names the length of the body as its
/// `Content-Length`.
pub proof fn lemma_with_body_length(response: ResponseView, body: Seq<u8>)
    ensures
        header_value(response.with_body(body).headers, "Content-Length"@) == Some(
            decimal(body.len()),
        ),
{
    lemma_set_header_value(
        response.headers,
        "Content-Length"@,
        decimal(body.len()),
        "Content-Length"@,
    );
}

/// Sets `name` to `value` in a header block.
fn put(headers: &mut Vec<(String, String)>, name: String, value: String)
    ensures
        final(headers).deep_view() == set_header(old(headers).deep_view(), name@, value@),
{
    let ghost before = headers.deep_view();
    let mut i: usize = 0;
    while i < headers.len()
        invariant
            i <= headers.len(),
            headers.deep_view() == before,
            before == old(headers).deep_view(),
            forall|j: int| 0 <= j < i ==> (#[trigger] before[j]).0 != name@,
        decreases headers.len() - i,
    {
        if headers[i].0 == name {
            proof {
                assert(before[i as int].0 == name@);
                lemma_position_is(before, name@, i as int);
            }
            headers[i] = (name, value);
            assert(headers.deep_view() == before.update(i as int, (name@, value@)));
            return ;
        }
        assert(before[i as int].0 != name@);
        i += 1;
    }
    proof {
        lemma_position_is(before, name@, i as int);
    }
    headers.push((name, value));
    assert(headers.deep_view() == before.push((name@, value@)));
}

/// Appends `bytes` to `out`.
fn append(out: &mut Vec<u8>, bytes: &[u8])
    ensures
        final(out)@ == old(out)@ + bytes@,
{
    out.extend_from_slice(bytes);
}

impl HttpResponse {
    /// A response with the given status, an empty body, and the content type
    /// of plain text.
    pub fn new(status_code: HttpStatus) -> (r: Self)
        ensures
            r@ == ResponseView::new(status_code),
    {
        let mut headers: Vec<(String, String)> = Vec::new();
        headers.push(("Content-Type".to_string(), "text/plain".to_string()));
        assert(headers.deep_view() == seq![("Content-Type"@, "text/plain"@)]);
        HttpResponse { status_code, headers, body: Vec::new() }
    }

    /// Replaces the body, and sets `Content-Length` to the new body's length.
    pub fn with_body(self, body: Vec<u8>) -> (r: Self)
        ensures
            r@ == self@.with_body(body@),
    {
        let mut r = self;
        let length = decimal_string(body.len());
        put(&mut r.headers, "Content-Length".to_string(), length);
        r.body = body;
        r
    }

    /// Sets the header `key` to `value`, in place of any value it had.
    pub fn with_header(self, key: &str, value: &str) -> (r: Self)
        ensures
            r@ == self@.with_header(key@, value@),
    {
        let mut r = self;
        put(&mut r.headers, key.to_string(), value.to_string());
        r
    }

    /// The bytes of the response as they go over the wire.
    pub fn to_string(&self) -> (out: Vec<u8>)
        ensures
            out@ == self@.wire(),
    {
        let mut out: Vec<u8> = Vec::new();
        append(&mut out, "HTTP/1.1 ".as_bytes());
        let code = decimal_string(self.status_code.code() as usize);
        append(&mut out, code.as_str().as_bytes());
        out.push(32u8);
        append(&mut out, self.status_code.as_str().as_bytes());
        out.push(13u8);
        out.push(10u8);
        assert(out@ == status_line(self@.status));
        let mut i: usize = 0;
        while i < self.headers.len()
            invariant
                i <= self.headers.len(),
                out@ == status_line(self@.status) + header_block(self@.headers.take(i as int)),
            decreases self.headers.len() - i,
        {
            let ghost before = out@;
            append(&mut out, self.headers[i].0.as_str().as_bytes());
            out.push(58u8);
            out.push(32u8);
            append(&mut out, self.headers[i].1.as_str().as_bytes());
            out.push(13u8);
            out.push(10u8);
            proof {
                let done = self@.headers.take(i + 1);
                assert(done.drop_last() == self@.headers.take(i as int));
                assert(done.last() == self@.headers[i as int]);
                assert(out@ == before + header_line(done.last().0, done.last().1));
            }
            i += 1;
        }
        assert(self@.headers.take(i as int) == self@.headers);
        out.push(13u8);
        out.push(10u8);
        append(&mut out, self.body.as_slice());
        out
    }
}

} // verus!
