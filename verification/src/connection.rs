use crate::http_request::{HttpRequest, RequestView};
use crate::http_response::{HttpResponse, HttpStatus, ResponseView};
use crate::prefix_tree::{PrefixTree, RouteMatch};
use crate::route::{Resolution, TrieView};
use crate::text::{
    chars_of, contains, find, first_at, lemma_first_at_unique, lowercase, number, occurs_at,
    parse_number, segments, split_whitespace, string_of, text_map, to_lowercase, tokens, trim,
    trimmed,
};
use vstd::hash_map::StringHashMap;
use vstd::prelude::*;
use vstd::slice::slice_subrange;
use vstd::string::StrSliceExecFns;
use vstd::utf8::encode_utf8;

verus! {

/// What a request line asks for.
pub ghost struct Target {
    pub method: Seq<char>,
    pub path: Seq<char>,
}

/// The method and the path of a request line: its first two tokens. A line
/// with fewer tokens asks for nothing.
pub open spec fn request_line(line: Seq<char>) -> Option<Target> {
    let words = tokens(line);
    if words.len() >= 2 {
        Some(Target { method: words[0], path: words[1] })
    } else {
        None
    }
}

/// A header as a header line gives it.
pub ghost struct Field {
    pub name: Seq<char>,
    pub value: Seq<char>,
}

/// The header that a line gives. The line is trimmed and split at its first
/// `": "`; the name is what stands before, in lower case, and the value what
/// stands after. A line without `": "` gives no header.
pub open spec fn header_of(line: Seq<char>) -> Option<Field> {
    let inner = trim(line);
    if contains(inner, ": "@) {
        let i = choose|i: int| first_at(inner, ": "@, i);
        Some(Field { name: lowercase(inner.take(i)), value: inner.skip(i + ": "@.len()) })
    } else {
        None
    }
}

/// Whether a line ends the headers: the bare line ending, or the empty line
/// that stands for the end of the stream.
pub open spec fn ends_headers(line: Seq<char>) -> bool {
    line.len() == 0 || line == seq!['\r', '\n']
}

/// The length of the body that the headers announce: the number under
/// `content-length`, and 0 where there is no such header or it writes no
/// number.
pub open spec fn body_length(headers: Map<Seq<char>, Seq<char>>) -> usize {
    if headers.contains_key("content-length"@) {
        match number(headers["content-length"@]) {
            Some(n) => n,
            None => 0,
        }
    } else {
        0
    }
}

/// The value of `accept-encoding`, where the request has that header and its
/// value holds `gzip`.
pub open spec fn gzip_encoding(headers: Map<Seq<char>, Seq<char>>) -> Option<Seq<char>> {
    if headers.contains_key("accept-encoding"@) && contains(
        headers["accept-encoding"@],
        "gzip"@,
    ) {
        Some(headers["accept-encoding"@])
    } else {
        None
    }
}

/// Reads the method and the path from a request line.
pub fn parse_request_line(line: &str) -> (target: Option<(String, String)>)
    ensures
        match target {
            Some((method, path)) => request_line(line@) == Some(
                Target { method: method@, path: path@ },
            ),
            None => request_line(line@) is None,
        },
{
    let words = split_whitespace(line);
    if words.len() < 2 {
        None
    } else {
        assert(words.deep_view()[0] == words[0]@);
        assert(words.deep_view()[1] == words[1]@);
        Some((words[0].clone(), words[1].clone()))
    }
}

/// Reads the header that a line gives.
pub fn parse_header(line: &str) -> (field: Option<(String, String)>)
    ensures
        match field {
            Some((name, value)) => header_of(line@) == Some(Field { name: name@, value: value@ }),
            None => header_of(line@) is None,
        },
{
    let chars = chars_of(line);
    let inner = trimmed(chars.as_slice());
    let separator = chars_of(": ");
    let end = inner.len();
    match find(inner, separator.as_slice()) {
        Some(i) => {
            proof {
                assert(occurs_at(inner@, separator@, i as int));
                let k = choose|k: int| first_at(inner@, ": "@, k);
                lemma_first_at_unique(inner@, ": "@, i as int, k);
                assert(inner@.subrange(0, i as int) == inner@.take(i as int));
                assert(inner@.subrange(i + separator@.len(), inner@.len() as int) == inner@.skip(
                    i + separator@.len(),
                ));
            }
            let name = to_lowercase(slice_subrange(inner, 0, i));
            let value = string_of(slice_subrange(inner, i + separator.len(), end));
            Some((name, value))
        },
        None => None,
    }
}

/// Tells whether a line ends the headers.
pub fn is_end_of_headers(line: &str) -> (end: bool)
    ensures
        end == ends_headers(line@),
{
    let chars = chars_of(line);
    if chars.len() == 0 {
        true
    } else if chars.len() == 2 && chars[0] == '\r' && chars[1] == '\n' {
        assert(chars@ =~= seq!['\r', '\n']);
        true
    } else {
        false
    }
}

/// The length of the body that the headers announce.
pub fn content_length(headers: &StringHashMap<String>) -> (length: usize)
    ensures
        length == body_length(text_map(headers@)),
{
    match headers.get("content-length") {
        Some(value) => {
            let chars = chars_of(value.as_str());
            match parse_number(chars.as_slice()) {
                Some(n) => n,
                None => 0,
            }
        },
        None => 0,
    }
}

/// The encoding to name in the response, where the request accepts `gzip`.
pub fn accepted_encoding(headers: &StringHashMap<String>) -> (encoding: Option<String>)
    ensures
        match encoding {
            Some(value) => gzip_encoding(text_map(headers@)) == Some(value@),
            None => gzip_encoding(text_map(headers@)) is None,
        },
{
    match headers.get("accept-encoding") {
        Some(value) => {
            let chars = chars_of(value.as_str());
            let gzip = chars_of("gzip");
            match find(chars.as_slice(), gzip.as_slice()) {
                Some(i) => Some(value.clone()),
                None => None,
            }
        },
        None => None,
    }
}

/// Where a connection stands: what it has read of its one request, and what
/// it waits for.
pub enum State {
    /// Nothing is read; the request line is awaited.
    RequestLine,
    /// The request line is read; the next header line is awaited.
    Headers { method: String, path: String, headers: StringHashMap<String> },
    /// The headers are read; the body is awaited.
    Body { method: String, path: String, headers: StringHashMap<String> },
    /// The request is with its handler; the response is awaited.
    Handler { encoding: Option<String> },
    /// The response is being written.
    Writing,
    /// The connection is done.
    Closed,
}

/// What happened on a connection.
pub enum Event {
    /// A line was read, with its line ending; the empty line stands for the
    /// end of the stream.
    Line(String),
    /// The body was read.
    Body(Vec<u8>),
    /// The handler gave its response.
    Response(HttpResponse),
    /// The handler failed, with this to say.
    Failure(String),
    /// The response was written and flushed.
    Written,
}

/// What is to be done next on a connection.
pub enum Action<'a, H> {
    /// Read a line.
    ReadLine,
    /// Read this many bytes of body.
    ReadBody(usize),
    /// Call the handler with the request.
    Invoke(&'a H, HttpRequest),
    /// Write these bytes and flush.
    Write(Vec<u8>),
    /// Close the connection.
    Close,
}

/// A state by what it holds: texts in place of strings, and the headers as
/// a map.
pub ghost enum StateView {
    RequestLine,
    Headers { method: Seq<char>, path: Seq<char>, headers: Map<Seq<char>, Seq<char>> },
    Body { method: Seq<char>, path: Seq<char>, headers: Map<Seq<char>, Seq<char>> },
    Handler { encoding: Option<Seq<char>> },
    Writing,
    Closed,
}

/// An event by what it holds.
pub ghost enum EventView {
    Line(Seq<char>),
    Body(Seq<u8>),
    Response(ResponseView),
    Failure(Seq<char>),
    Written,
}

/// An action by what it holds: the handler itself, and the request as the
/// handler sees it.
pub ghost enum ActionView<H> {
    ReadLine,
    ReadBody(usize),
    Invoke(H, RequestView),
    Write(Seq<u8>),
    Close,
}

/// A connection's next state, and what is to be done to get on.
pub ghost struct Move<H> {
    pub state: StateView,
    pub action: ActionView<H>,
}

impl View for State {
    type V = StateView;

    open spec fn view(&self) -> StateView {
        match self {
            State::RequestLine => StateView::RequestLine,
            State::Headers { method, path, headers } => StateView::Headers {
                method: method@,
                path: path@,
                headers: text_map(headers@),
            },
            State::Body { method, path, headers } => StateView::Body {
                method: method@,
                path: path@,
                headers: text_map(headers@),
            },
            State::Handler { encoding } => StateView::Handler {
                encoding: match encoding {
                    Some(value) => Some(value@),
                    None => None,
                },
            },
            State::Writing => StateView::Writing,
            State::Closed => StateView::Closed,
        }
    }
}

impl View for Event {
    type V = EventView;

    open spec fn view(&self) -> EventView {
        match self {
            Event::Line(line) => EventView::Line(line@),
            Event::Body(bytes) => EventView::Body(bytes@),
            Event::Response(response) => EventView::Response(response@),
            Event::Failure(message) => EventView::Failure(message@),
            Event::Written => EventView::Written,
        }
    }
}

impl<'a, H> View for Action<'a, H> {
    type V = ActionView<H>;

    open spec fn view(&self) -> ActionView<H> {
        match self {
            Action::ReadLine => ActionView::ReadLine,
            Action::ReadBody(length) => ActionView::ReadBody(*length),
            Action::Invoke(handler, request) => ActionView::Invoke(**handler, request@),
            Action::Write(bytes) => ActionView::Write(bytes@),
            Action::Close => ActionView::Close,
        }
    }
}

/// The connection writes `response` and has nothing more to do than to
/// close.
pub open spec fn reply<H>(response: ResponseView) -> Move<H> {
    Move { state: StateView::Writing, action: ActionView::Write(response.wire()) }
}

/// The response to a handler that failed: status 500, with what the handler
/// had to say as the body.
pub open spec fn failure(message: Seq<char>) -> ResponseView {
    ResponseView::new(HttpStatus::InternalServerError).with_body(encode_utf8(message))
}

/// The response of a handler as it is written: where the request accepted
/// `gzip`, the response names the accepted encoding as its own.
pub open spec fn encoded(response: ResponseView, encoding: Option<Seq<char>>) -> ResponseView {
    match encoding {
        Some(value) => response.with_header("Content-Encoding"@, value),
        None => response,
    }
}

/// Routes a request that is read in full. A path and method with a handler go
/// to the handler. A path that leads to handlers, but to none for the
/// method, is answered with status 400, and a path that leads to none with
/// status 404.
pub open spec fn dispatch<H>(
    trie: TrieView<H>,
    method: Seq<char>,
    path: Seq<char>,
    headers: Map<Seq<char>, Seq<char>>,
    body: Seq<u8>,
) -> Move<H> {
    match trie.resolve(segments(path), method) {
        Resolution::Found { handler, params } => Move {
            state: StateView::Handler { encoding: gzip_encoding(headers) },
            action: ActionView::Invoke(handler, RequestView { headers, params, body }),
        },
        Resolution::WrongMethod => reply(ResponseView::new(HttpStatus::BadRequest)),
        Resolution::NoRoute => reply(ResponseView::new(HttpStatus::NotFound)),
    }
}

/// What a connection does when something has happened: the state it goes to
/// and the action to take.
///
/// The request line must hold a method and a path, else the request is
/// answered with status 400. Header lines are read up to the line that ends
/// them; a line that gives no header is passed over. A body is read where the
/// headers announce one, and then the request is routed. The handler's
/// response is written, or status 500 where the handler failed, and after
/// the writing the connection is closed. Anything that a state does not
/// await closes the connection.
pub open spec fn next<H>(trie: TrieView<H>, state: StateView, event: EventView) -> Move<H> {
    match (state, event) {
        (StateView::RequestLine, EventView::Line(line)) => match request_line(line) {
            Some(target) => Move {
                state: StateView::Headers {
                    method: target.method,
                    path: target.path,
                    headers: Map::empty(),
                },
                action: ActionView::ReadLine,
            },
            None => reply(ResponseView::new(HttpStatus::BadRequest)),
        },
        (StateView::Headers { method, path, headers }, EventView::Line(line)) => {
            if ends_headers(line) {
                if body_length(headers) > 0 {
                    Move {
                        state: StateView::Body { method, path, headers },
                        action: ActionView::ReadBody(body_length(headers)),
                    }
                } else {
                    dispatch(trie, method, path, headers, Seq::empty())
                }
            } else {
                Move {
                    state: StateView::Headers {
                        method,
                        path,
                        headers: match header_of(line) {
                            Some(field) => headers.insert(field.name, field.value),
                            None => headers,
                        },
                    },
                    action: ActionView::ReadLine,
                }
            }
        },
        (StateView::Body { method, path, headers }, EventView::Body(body)) => dispatch(
            trie,
            method,
            path,
            headers,
            body,
        ),
        (StateView::Handler { encoding }, EventView::Response(response)) => reply(
            encoded(response, encoding),
        ),
        (StateView::Handler { encoding }, EventView::Failure(message)) => reply(failure(message)),
        (StateView::Writing, EventView::Written) => Move {
            state: StateView::Closed,
            action: ActionView::Close,
        },
        _ => Move { state: StateView::Closed, action: ActionView::Close },
    }
}

/// The state and the action of a connection that writes the bare response
/// with `status`.
fn respond<'a, H>(status: HttpStatus) -> (out: (State, Action<'a, H>))
    ensures
        (Move { state: out.0@, action: out.1@ }) == reply::<H>(ResponseView::new(status)),
{
    (State::Writing, Action::Write(HttpResponse::new(status).to_string()))
}

/// Routes a request that is read in full.
fn route<'a, H>(
    tree: &'a PrefixTree<H>,
    method: String,
    path: String,
    headers: StringHashMap<String>,
    body: Vec<u8>,
) -> (out: (State, Action<'a, H>))
    ensures
        (Move { state: out.0@, action: out.1@ }) == dispatch(
            tree@,
            method@,
            path@,
            text_map(headers@),
            body@,
        ),
{
    match tree.resolve(path.as_str(), method.as_str()) {
        RouteMatch::Found(handler, params) => {
            let encoding = accepted_encoding(&headers);
            (State::Handler { encoding }, Action::Invoke(handler, HttpRequest::new(headers, params, body)))
        },
        RouteMatch::WrongMethod => respond(HttpStatus::BadRequest),
        RouteMatch::NotFound => respond(HttpStatus::NotFound),
    }
}

/// Where a connection begins: nothing is read, and the request line is to be
/// read.
pub fn begin<'a, H>() -> (out: (State, Action<'a, H>))
    ensures
        out.0@ == StateView::RequestLine,
        out.1@ == ActionView::<H>::ReadLine,
{
    (State::RequestLine, Action::ReadLine)
}

/// Takes a connection one step on: from its state and what has happened to
/// its next state and what is to be done.
pub fn step<'a, H>(tree: &'a PrefixTree<H>, state: State, event: Event) -> (out: (
    State,
    Action<'a, H>,
))
    ensures
        (Move { state: out.0@, action: out.1@ }) == next(tree@, state@, event@),
{
    match state {
        State::RequestLine => match event {
            Event::Line(line) => match parse_request_line(line.as_str()) {
                Some((method, path)) => {
                    let headers: StringHashMap<String> = StringHashMap::new();
                    assert(text_map(headers@) == Map::<Seq<char>, Seq<char>>::empty());
                    (State::Headers { method, path, headers }, Action::ReadLine)
                },
                None => respond(HttpStatus::BadRequest),
            },
            _ => (State::Closed, Action::Close),
        },
        State::Headers { method, path, headers } => match event {
            Event::Line(line) => {
                if is_end_of_headers(line.as_str()) {
                    let length = content_length(&headers);
                    if length > 0 {
                        (State::Body { method, path, headers }, Action::ReadBody(length))
                    } else {
                        route(tree, method, path, headers, Vec::new())
                    }
                } else {
                    let mut headers = headers;
                    let ghost before = text_map(headers@);
                    match parse_header(line.as_str()) {
                        Some((name, value)) => {
                            headers.insert(name, value);
                            assert(text_map(headers@) == before.insert(name@, value@));
                        },
                        None => {},
                    }
                    (State::Headers { method, path, headers }, Action::ReadLine)
                }
            },
            _ => (State::Closed, Action::Close),
        },
        State::Body { method, path, headers } => match event {
            Event::Body(body) => route(tree, method, path, headers, body),
            _ => (State::Closed, Action::Close),
        },
        State::Handler { encoding } => match event {
            Event::Response(response) => {
                let response = match encoding {
                    Some(value) => response.with_header("Content-Encoding", value.as_str()),
                    None => response,
                };
                (State::Writing, Action::Write(response.to_string()))
            },
            Event::Failure(message) => {
                let body = message.as_str().as_bytes_vec();
                let response = HttpResponse::new(HttpStatus::InternalServerError).with_body(body);
                (State::Writing, Action::Write(response.to_string()))
            },
            _ => (State::Closed, Action::Close),
        },
        State::Writing => match event {
            Event::Written => (State::Closed, Action::Close),
            _ => (State::Closed, Action::Close),
        },
        State::Closed => (State::Closed, Action::Close),
    }
}

/// A request for a path that leads to no handler is answered with status
/// 404, whatever its method.
pub proof fn lemma_no_route_is_not_found<H>(
    trie: TrieView<H>,
    method: Seq<char>,
    path: Seq<char>,
    headers: Map<Seq<char>, Seq<char>>,
    body: Seq<u8>,
)
    requires
        trie.resolve(segments(path), method) is NoRoute,
    ensures
        dispatch(trie, method, path, headers, body) == reply::<H>(
            ResponseView::new(HttpStatus::NotFound),
        ),
{
}

/// A request for a path that leads to handlers, but to none for its method,
/// is answered with status 400.
pub proof fn lemma_wrong_method_is_bad_request<H>(
    trie: TrieView<H>,
    method: Seq<char>,
    path: Seq<char>,
    headers: Map<Seq<char>, Seq<char>>,
    body: Seq<u8>,
)
    requires
        trie.resolve(segments(path), method) is WrongMethod,
    ensures
        dispatch(trie, method, path, headers, body) == reply::<H>(
            ResponseView::new(HttpStatus::BadRequest),
        ),
{
}

/// A request without the header `content-length`, or with one that gives the
/// length as 0, is routed when its headers end, and its handler gets an empty
/// body.
pub proof fn lemma_no_length_no_body<H>(
    trie: TrieView<H>,
    method: Seq<char>,
    path: Seq<char>,
    headers: Map<Seq<char>, Seq<char>>,
    line: Seq<char>,
)
    requires
        ends_headers(line),
        !headers.contains_key("content-length"@) || number(headers["content-length"@]) == Some(
            0usize,
        ),
    ensures
        next(trie, StateView::Headers { method, path, headers }, EventView::Line(line))
            == dispatch(trie, method, path, headers, Seq::empty()),
        next(
            trie,
            StateView::Headers { method, path, headers },
            EventView::Line(line),
        ).action matches ActionView::Invoke(_, request) ==> request.body == Seq::<u8>::empty(),
{
}

/// The handler of a request gets the parameters that the trie bound, the
/// headers as they were read, and the body.
pub proof fn lemma_handler_gets_the_request<H>(
    trie: TrieView<H>,
    method: Seq<char>,
    path: Seq<char>,
    headers: Map<Seq<char>, Seq<char>>,
    body: Seq<u8>,
)
    requires
        trie.resolve(segments(path), method) is Found,
    ensures
        dispatch(trie, method, path, headers, body).action == ActionView::Invoke(
            trie.resolve(segments(path), method)->handler,
            RequestView {
                headers,
                params: trie.resolve(segments(path), method)->params,
                body,
            },
        ),
{
}

} // verus!
