use crate::text::text_map;
use vstd::hash_map::StringHashMap;
use vstd::prelude::*;

verus! {

/// What a request is to a handler: its headers by their lower-case names, the
/// parameters that its path bound, and its body.
pub ghost struct RequestView {
    pub headers: Map<Seq<char>, Seq<char>>,
    pub params: Map<Seq<char>, Seq<char>>,
    pub body: Seq<u8>,
}

/// A request as it is handed to a handler.
pub struct HttpRequest {
    pub headers: StringHashMap<String>,
    pub params: StringHashMap<String>,
    pub body: Vec<u8>,
}

impl View for HttpRequest {
    type V = RequestView;

    open spec fn view(&self) -> RequestView {
        RequestView {
            headers: text_map(self.headers@),
            params: text_map(self.params@),
            body: self.body@,
        }
    }
}

impl HttpRequest {
    /// The request with these headers, parameters and body.
    pub fn new(
        headers: StringHashMap<String>,
        params: StringHashMap<String>,
        body: Vec<u8>,
    ) -> (request: Self)
        ensures
            request.headers == headers,
            request.params == params,
            request.body == body,
    {
        HttpRequest { headers, params, body }
    }
}

} // verus!
