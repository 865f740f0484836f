use http_server::connection::{
    accepted_encoding, begin, content_length, is_end_of_headers, parse_header, parse_request_line,
    step, Action, Event, State,
};
use http_server::http_request::HttpRequest;
use http_server::http_response::{HttpResponse, HttpStatus};
use http_server::prefix_tree::PrefixTree;
use vstd::hash_map::StringHashMap;

type Handler = fn(HttpRequest) -> Result<HttpResponse, String>;

fn hello(_: HttpRequest) -> Result<HttpResponse, String> {
    Ok(HttpResponse::new(HttpStatus::Success).with_body(b"hello".to_vec()))
}

fn echo(request: HttpRequest) -> Result<HttpResponse, String> {
    match request.params.get("text") {
        Some(text) => Ok(HttpResponse::new(HttpStatus::Success).with_body(text.clone().into_bytes())),
        None => Err("no text".to_string()),
    }
}

fn user_agent(request: HttpRequest) -> Result<HttpResponse, String> {
    match request.headers.get("user-agent") {
        Some(agent) => Ok(HttpResponse::new(HttpStatus::Success).with_body(agent.clone().into_bytes())),
        None => Err("no user agent".to_string()),
    }
}

fn body_back(request: HttpRequest) -> Result<HttpResponse, String> {
    let length = request.body.len();
    Ok(HttpResponse::new(HttpStatus::Created)
        .with_body(request.body)
        .with_header("X-Read", &length.to_string()))
}

fn routes() -> PrefixTree<Handler> {
    let mut tree: PrefixTree<Handler> = PrefixTree::new();
    tree.insert("/", "GET", hello);
    tree.insert("/echo/{text}", "GET", echo);
    tree.insert("/user-agent", "GET", user_agent);
    tree.insert("/files/{file_name}", "POST", body_back);
    tree
}

/// Runs one connection to its end and gives what was written, with the
/// actions taken on the way.
fn serve(tree: &PrefixTree<Handler>, lines: &[&str], body: &[u8]) -> (Vec<u8>, Vec<&'static str>) {
    let (mut state, mut action) = begin::<Handler>();
    let mut lines = lines.iter();
    let mut written: Vec<u8> = Vec::new();
    let mut trace: Vec<&'static str> = Vec::new();
    loop {
        let event = match action {
            Action::ReadLine => {
                trace.push("line");
                Event::Line(lines.next().map(|l| l.to_string()).unwrap_or_default())
            }
            Action::ReadBody(length) => {
                trace.push("body");
                Event::Body(body[..length.min(body.len())].to_vec())
            }
            Action::Invoke(handler, request) => {
                trace.push("invoke");
                match handler(request) {
                    Ok(response) => Event::Response(response),
                    Err(message) => Event::Failure(message),
                }
            }
            Action::Write(bytes) => {
                trace.push("write");
                written.extend_from_slice(&bytes);
                Event::Written
            }
            Action::Close => {
                trace.push("close");
                assert!(matches!(state, State::Closed));
                return (written, trace);
            }
        };
        let (s, a) = step(tree, state, event);
        state = s;
        action = a;
    }
}

fn text(bytes: Vec<u8>) -> String {
    String::from_utf8(bytes).unwrap()
}

fn headers_of(pairs: &[(&str, &str)]) -> StringHashMap<String> {
    let mut headers: StringHashMap<String> = StringHashMap::new();
    for (name, value) in pairs {
        headers.insert(name.to_string(), value.to_string());
    }
    headers
}

#[test]
fn request_line_gives_method_and_path() {
    assert_eq!(
        parse_request_line("GET /echo/abc123 HTTP/1.1\r\n"),
        Some(("GET".to_string(), "/echo/abc123".to_string()))
    );
    assert_eq!(parse_request_line("POST /x"), Some(("POST".to_string(), "/x".to_string())));
    assert_eq!(parse_request_line("  a\tb  c d\n"), Some(("a".to_string(), "b".to_string())));
}

#[test]
fn request_line_needs_two_tokens() {
    assert_eq!(parse_request_line("GET\r\n"), None);
    assert_eq!(parse_request_line("\r\n"), None);
    assert_eq!(parse_request_line(""), None);
    assert_eq!(parse_request_line("   "), None);
}

#[test]
fn header_line_is_split_at_the_first_separator() {
    assert_eq!(
        parse_header("Host: localhost:4221\r\n"),
        Some(("host".to_string(), "localhost:4221".to_string()))
    );
    assert_eq!(parse_header("A: b: c\r\n"), Some(("a".to_string(), "b: c".to_string())));
    assert_eq!(parse_header("  X-Key: v  \r\n"), Some(("x-key".to_string(), "v".to_string())));
    assert_eq!(parse_header(": v"), Some(("".to_string(), "v".to_string())));
    assert_eq!(parse_header("k:  v"), Some(("k".to_string(), " v".to_string())));
}

#[test]
fn header_name_is_put_in_lower_case_and_the_value_is_not() {
    assert_eq!(
        parse_header("User-Agent: Foo/1.2 BAR\r\n"),
        Some(("user-agent".to_string(), "Foo/1.2 BAR".to_string()))
    );
}

#[test]
fn line_without_separator_gives_no_header() {
    assert_eq!(parse_header("Host:localhost\r\n"), None);
    assert_eq!(parse_header("nonsense\r\n"), None);
    assert_eq!(parse_header("key: \r\n"), None);
    assert_eq!(parse_header("\n"), None);
    assert_eq!(parse_header(""), None);
}

#[test]
fn headers_end_at_the_bare_line_ending_or_the_end_of_the_stream() {
    assert!(is_end_of_headers("\r\n"));
    assert!(is_end_of_headers(""));
    assert!(!is_end_of_headers("\n"));
    assert!(!is_end_of_headers(" \r\n"));
    assert!(!is_end_of_headers("\r\n\r\n"));
    assert!(!is_end_of_headers("Host: x\r\n"));
}

#[test]
fn content_length_reads_the_header() {
    assert_eq!(content_length(&headers_of(&[("content-length", "5")])), 5);
    assert_eq!(content_length(&headers_of(&[("content-length", "0")])), 0);
    assert_eq!(content_length(&headers_of(&[("content-length", "+17")])), 17);
    assert_eq!(content_length(&headers_of(&[("host", "x"), ("content-length", "1024")])), 1024);
}

#[test]
fn content_length_is_zero_without_a_number() {
    assert_eq!(content_length(&headers_of(&[])), 0);
    assert_eq!(content_length(&headers_of(&[("host", "x")])), 0);
    assert_eq!(content_length(&headers_of(&[("content-length", "five")])), 0);
    assert_eq!(content_length(&headers_of(&[("content-length", "-5")])), 0);
    assert_eq!(content_length(&headers_of(&[("content-length", "")])), 0);
    assert_eq!(content_length(&headers_of(&[("content-length", "5 ")])), 0);
    assert_eq!(content_length(&headers_of(&[("content-length", "99999999999999999999999999")])), 0);
    assert_eq!(content_length(&headers_of(&[("Content-Length", "5")])), 0);
}

#[test]
fn accepted_encoding_needs_gzip() {
    assert_eq!(accepted_encoding(&headers_of(&[("accept-encoding", "gzip")])), Some("gzip".to_string()));
    assert_eq!(
        accepted_encoding(&headers_of(&[("accept-encoding", "deflate, gzip, br")])),
        Some("deflate, gzip, br".to_string())
    );
    assert_eq!(accepted_encoding(&headers_of(&[("accept-encoding", "deflate")])), None);
    assert_eq!(accepted_encoding(&headers_of(&[("accept-encoding", "GZIP")])), None);
    assert_eq!(accepted_encoding(&headers_of(&[("host", "gzip")])), None);
    assert_eq!(accepted_encoding(&headers_of(&[])), None);
}

#[test]
fn a_connection_begins_by_reading_the_request_line() {
    let (state, action) = begin::<Handler>();
    assert!(matches!(state, State::RequestLine));
    assert!(matches!(action, Action::ReadLine));
}

#[test]
fn get_root_says_hello() {
    let tree = routes();
    let (written, trace) = serve(&tree, &["GET / HTTP/1.1\r\n", "Host: localhost\r\n", "\r\n"], b"");
    assert_eq!(
        text(written),
        "HTTP/1.1 200 OK\r\nContent-Type: text/plain\r\nContent-Length: 5\r\n\r\nhello"
    );
    assert_eq!(trace, vec!["line", "line", "line", "invoke", "write", "close"]);
}

#[test]
fn echo_route_binds_text_and_answers_with_it() {
    let tree = routes();
    let (state, action) = begin::<Handler>();
    assert!(matches!(action, Action::ReadLine));
    let (state, _) = step(&tree, state, Event::Line("GET /echo/abc123 HTTP/1.1\r\n".to_string()));
    let (state, action) = step(&tree, state, Event::Line("\r\n".to_string()));
    assert!(matches!(state, State::Handler { encoding: None }));
    let response = match action {
        Action::Invoke(handler, request) => {
            assert_eq!(request.params.len(), 1);
            assert_eq!(request.params.get("text").map(|s| s.as_str()), Some("abc123"));
            assert!(request.body.is_empty());
            handler(request).unwrap()
        }
        _ => panic!("the handler is not called"),
    };
    let (state, action) = step(&tree, state, Event::Response(response));
    assert!(matches!(state, State::Writing));
    match action {
        Action::Write(bytes) => {
            assert!(text(bytes.clone()).contains("abc123"));
            assert_eq!(
                text(bytes),
                "HTTP/1.1 200 OK\r\nContent-Type: text/plain\r\nContent-Length: 6\r\n\r\nabc123"
            );
        }
        _ => panic!("nothing is written"),
    }
    let (state, action) = step(&tree, state, Event::Written);
    assert!(matches!(state, State::Closed));
    assert!(matches!(action, Action::Close));
}

#[test]
fn unknown_path_is_answered_with_404() {
    let tree = routes();
    let (written, trace) = serve(&tree, &["GET /nope HTTP/1.1\r\n", "\r\n"], b"");
    assert_eq!(text(written), "HTTP/1.1 404 Not Found\r\nContent-Type: text/plain\r\n\r\n");
    assert_eq!(trace, vec!["line", "line", "write", "close"]);
}

#[test]
fn unknown_path_in_an_empty_trie_is_answered_with_404() {
    let tree: PrefixTree<Handler> = PrefixTree::new();
    let (written, _) = serve(&tree, &["GET /nope HTTP/1.1\r\n", "\r\n"], b"");
    assert_eq!(text(written), "HTTP/1.1 404 Not Found\r\nContent-Type: text/plain\r\n\r\n");
    let (written, _) = serve(&tree, &["GET / HTTP/1.1\r\n", "\r\n"], b"");
    assert_eq!(text(written), "HTTP/1.1 404 Not Found\r\nContent-Type: text/plain\r\n\r\n");
}

#[test]
fn node_without_handlers_is_answered_with_404() {
    let tree = routes();
    let (written, _) = serve(&tree, &["GET /echo HTTP/1.1\r\n", "\r\n"], b"");
    assert_eq!(text(written), "HTTP/1.1 404 Not Found\r\nContent-Type: text/plain\r\n\r\n");
}

#[test]
fn wrong_method_is_answered_with_400() {
    let mut tree: PrefixTree<Handler> = PrefixTree::new();
    tree.insert("/", "GET", hello);
    let (written, trace) = serve(&tree, &["DELETE / HTTP/1.1\r\n", "\r\n"], b"");
    assert_eq!(text(written), "HTTP/1.1 400 Bad Request\r\nContent-Type: text/plain\r\n\r\n");
    assert_eq!(trace, vec!["line", "line", "write", "close"]);
}

#[test]
fn request_line_without_a_path_is_answered_with_400() {
    let tree = routes();
    let (written, trace) = serve(&tree, &["GET\r\n"], b"");
    assert_eq!(text(written), "HTTP/1.1 400 Bad Request\r\nContent-Type: text/plain\r\n\r\n");
    assert_eq!(trace, vec!["line", "write", "close"]);
    let (written, _) = serve(&tree, &[], b"");
    assert_eq!(text(written), "HTTP/1.1 400 Bad Request\r\nContent-Type: text/plain\r\n\r\n");
}

#[test]
fn headers_reach_the_handler_under_lower_case_names() {
    let tree = routes();
    let (written, _) = serve(
        &tree,
        &["GET /user-agent HTTP/1.1\r\n", "Host: localhost:4221\r\n", "User-Agent: foobar/1.2.3\r\n", "\r\n"],
        b"",
    );
    assert_eq!(
        text(written),
        "HTTP/1.1 200 OK\r\nContent-Type: text/plain\r\nContent-Length: 12\r\n\r\nfoobar/1.2.3"
    );
}

#[test]
fn a_later_header_line_replaces_an_earlier_one() {
    let tree = routes();
    let (written, _) = serve(
        &tree,
        &["GET /user-agent HTTP/1.1\r\n", "User-Agent: one\r\n", "USER-AGENT: two\r\n", "\r\n"],
        b"",
    );
    assert!(text(written).ends_with("\r\n\r\ntwo"));
}

#[test]
fn malformed_header_lines_are_passed_over() {
    let tree = routes();
    let (written, trace) = serve(
        &tree,
        &["GET /user-agent HTTP/1.1\r\n", "nonsense\r\n", "\n", "User-Agent:x\r\n", "User-Agent: ok\r\n", "\r\n"],
        b"",
    );
    assert!(text(written).ends_with("\r\n\r\nok"));
    assert_eq!(trace, vec!["line", "line", "line", "line", "line", "line", "invoke", "write", "close"]);
}

#[test]
fn headers_end_with_the_stream() {
    let tree = routes();
    let (written, trace) = serve(&tree, &["GET / HTTP/1.1\r\n", "Host: x\r\n"], b"");
    assert!(text(written).ends_with("hello"));
    assert_eq!(trace, vec!["line", "line", "line", "invoke", "write", "close"]);
}

#[test]
fn handler_failure_is_answered_with_500() {
    let tree = routes();
    let (written, trace) = serve(&tree, &["GET /user-agent HTTP/1.1\r\n", "\r\n"], b"");
    assert_eq!(
        text(written),
        "HTTP/1.1 500 InternalServerError\r\nContent-Type: text/plain\r\nContent-Length: 13\r\n\r\nno user agent"
    );
    assert_eq!(trace, vec!["line", "line", "invoke", "write", "close"]);
}

#[test]
fn body_is_read_by_its_announced_length() {
    let tree = routes();
    let (state, _) = begin::<Handler>();
    let (state, _) = step(&tree, state, Event::Line("POST /files/a.txt HTTP/1.1\r\n".to_string()));
    let (state, action) = step(&tree, state, Event::Line("Content-Length: 5\r\n".to_string()));
    assert!(matches!(action, Action::ReadLine));
    let (state, action) = step(&tree, state, Event::Line("\r\n".to_string()));
    assert!(matches!(state, State::Body { .. }));
    assert!(matches!(action, Action::ReadBody(5)));
    let (state, action) = step(&tree, state, Event::Body(b"12345".to_vec()));
    assert!(matches!(state, State::Handler { .. }));
    match action {
        Action::Invoke(_, request) => {
            assert_eq!(request.body, b"12345".to_vec());
            assert_eq!(request.params.get("file_name").map(|s| s.as_str()), Some("a.txt"));
            assert_eq!(request.headers.get("content-length").map(|s| s.as_str()), Some("5"));
        }
        _ => panic!("the handler is not called"),
    }
}

#[test]
fn body_is_handed_to_the_handler() {
    let tree = routes();
    let (written, trace) = serve(
        &tree,
        &["POST /files/a.txt HTTP/1.1\r\n", "Content-Length: 5\r\n", "\r\n"],
        b"12345and more",
    );
    assert_eq!(
        text(written),
        "HTTP/1.1 201 Created\r\nContent-Type: text/plain\r\nContent-Length: 5\r\nX-Read: 5\r\n\r\n12345"
    );
    assert_eq!(trace, vec!["line", "line", "line", "body", "invoke", "write", "close"]);
}

#[test]
fn a_short_body_is_taken_as_it_came() {
    let tree = routes();
    let (written, _) = serve(
        &tree,
        &["POST /files/a.txt HTTP/1.1\r\n", "Content-Length: 50\r\n", "\r\n"],
        b"123",
    );
    assert!(text(written).ends_with("X-Read: 3\r\n\r\n123"));
}

#[test]
fn no_body_is_read_without_a_length() {
    let tree = routes();
    let (written, trace) = serve(&tree, &["POST /files/a.txt HTTP/1.1\r\n", "\r\n"], b"ignored");
    assert!(text(written).ends_with("Content-Length: 0\r\nX-Read: 0\r\n\r\n"));
    assert_eq!(trace, vec!["line", "line", "invoke", "write", "close"]);
}

#[test]
fn no_body_is_read_for_length_zero() {
    let tree = routes();
    let (written, trace) = serve(
        &tree,
        &["POST /files/a.txt HTTP/1.1\r\n", "Content-Length: 0\r\n", "\r\n"],
        b"ignored",
    );
    assert!(text(written).ends_with("Content-Length: 0\r\nX-Read: 0\r\n\r\n"));
    assert_eq!(trace, vec!["line", "line", "line", "invoke", "write", "close"]);
}

#[test]
fn no_body_is_read_for_a_length_that_is_no_number() {
    let tree = routes();
    let (written, trace) = serve(
        &tree,
        &["POST /files/a.txt HTTP/1.1\r\n", "Content-Length: many\r\n", "\r\n"],
        b"ignored",
    );
    assert!(text(written).ends_with("X-Read: 0\r\n\r\n"));
    assert_eq!(trace, vec!["line", "line", "line", "invoke", "write", "close"]);
}

#[test]
fn no_body_is_read_for_a_request_that_has_no_route() {
    let tree = routes();
    let (state, _) = begin::<Handler>();
    let (state, _) = step(&tree, state, Event::Line("POST /nope HTTP/1.1\r\n".to_string()));
    let (state, _) = step(&tree, state, Event::Line("Content-Length: 3\r\n".to_string()));
    let (state, action) = step(&tree, state, Event::Line("\r\n".to_string()));
    assert!(matches!(action, Action::ReadBody(3)));
    let (state, action) = step(&tree, state, Event::Body(b"abc".to_vec()));
    assert!(matches!(state, State::Writing));
    match action {
        Action::Write(bytes) => {
            assert_eq!(text(bytes), "HTTP/1.1 404 Not Found\r\nContent-Type: text/plain\r\n\r\n")
        }
        _ => panic!("nothing is written"),
    }
}

#[test]
fn gzip_is_named_in_the_response() {
    let tree = routes();
    let (written, _) = serve(
        &tree,
        &["GET /echo/abc HTTP/1.1\r\n", "Accept-Encoding: deflate, gzip\r\n", "\r\n"],
        b"",
    );
    assert_eq!(
        text(written),
        "HTTP/1.1 200 OK\r\nContent-Type: text/plain\r\nContent-Length: 3\r\n\
         Content-Encoding: deflate, gzip\r\n\r\nabc"
    );
}

#[test]
fn other_encodings_are_not_named() {
    let tree = routes();
    let (written, _) = serve(
        &tree,
        &["GET /echo/abc HTTP/1.1\r\n", "Accept-Encoding: deflate\r\n", "\r\n"],
        b"",
    );
    assert_eq!(
        text(written),
        "HTTP/1.1 200 OK\r\nContent-Type: text/plain\r\nContent-Length: 3\r\n\r\nabc"
    );
}

#[test]
fn gzip_is_not_named_when_the_handler_fails() {
    let tree = routes();
    let (written, _) = serve(
        &tree,
        &["GET /user-agent HTTP/1.1\r\n", "Accept-Encoding: gzip\r\n", "\r\n"],
        b"",
    );
    assert!(!text(written).contains("Content-Encoding"));
}

#[test]
fn what_a_state_does_not_await_closes_the_connection() {
    let tree = routes();
    let closes = |state: State, event: Event| {
        let (state, action) = step(&tree, state, event);
        assert!(matches!(state, State::Closed));
        assert!(matches!(action, Action::Close));
    };
    closes(State::RequestLine, Event::Written);
    closes(State::RequestLine, Event::Body(vec![1]));
    closes(State::RequestLine, Event::Failure("x".to_string()));
    closes(State::RequestLine, Event::Response(HttpResponse::new(HttpStatus::Success)));
    closes(
        State::Headers { method: "GET".to_string(), path: "/".to_string(), headers: StringHashMap::new() },
        Event::Body(vec![]),
    );
    closes(
        State::Body { method: "GET".to_string(), path: "/".to_string(), headers: StringHashMap::new() },
        Event::Line("\r\n".to_string()),
    );
    closes(State::Handler { encoding: None }, Event::Line("x".to_string()));
    closes(State::Handler { encoding: None }, Event::Written);
    closes(State::Writing, Event::Line("x".to_string()));
    closes(State::Writing, Event::Response(HttpResponse::new(HttpStatus::Success)));
    closes(State::Writing, Event::Written);
    closes(State::Closed, Event::Written);
    closes(State::Closed, Event::Line("GET / HTTP/1.1".to_string()));
}

#[test]
fn connections_that_take_turns_keep_their_own_requests() {
    let tree = routes();
    let (a, _) = begin::<Handler>();
    let (b, _) = begin::<Handler>();
    let (a, _) = step(&tree, a, Event::Line("GET /echo/first HTTP/1.1\r\n".to_string()));
    let (b, _) = step(&tree, b, Event::Line("POST /files/second HTTP/1.1\r\n".to_string()));
    let (b, _) = step(&tree, b, Event::Line("Content-Length: 2\r\n".to_string()));
    let (a, action_a) = step(&tree, a, Event::Line("\r\n".to_string()));
    let (b, _) = step(&tree, b, Event::Line("\r\n".to_string()));
    let (b, action_b) = step(&tree, b, Event::Body(b"bb".to_vec()));
    let response_b = match action_b {
        Action::Invoke(handler, request) => {
            assert_eq!(request.params.len(), 1);
            assert_eq!(request.params.get("file_name").map(|s| s.as_str()), Some("second"));
            assert_eq!(request.body, b"bb".to_vec());
            handler(request).unwrap()
        }
        _ => panic!("the handler is not called"),
    };
    let response_a = match action_a {
        Action::Invoke(handler, request) => {
            assert_eq!(request.params.len(), 1);
            assert_eq!(request.params.get("text").map(|s| s.as_str()), Some("first"));
            assert!(request.body.is_empty());
            assert_eq!(request.headers.len(), 0);
            handler(request).unwrap()
        }
        _ => panic!("the handler is not called"),
    };
    let (_, action_b) = step(&tree, b, Event::Response(response_b));
    let (_, action_a) = step(&tree, a, Event::Response(response_a));
    match action_a {
        Action::Write(bytes) => assert!(text(bytes).ends_with("\r\n\r\nfirst")),
        _ => panic!("nothing is written"),
    }
    match action_b {
        Action::Write(bytes) => assert!(text(bytes).ends_with("\r\n\r\nbb")),
        _ => panic!("nothing is written"),
    }
}

#[test]
fn request_holds_what_it_was_made_of() {
    let request = HttpRequest::new(
        headers_of(&[("host", "x")]),
        headers_of(&[("text", "abc")]),
        b"body".to_vec(),
    );
    assert_eq!(request.headers.get("host").map(|s| s.as_str()), Some("x"));
    assert_eq!(request.headers.len(), 1);
    assert_eq!(request.params.get("text").map(|s| s.as_str()), Some("abc"));
    assert_eq!(request.params.len(), 1);
    assert_eq!(request.body, b"body".to_vec());
}
