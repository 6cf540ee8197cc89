//! The HTTP/1.1 codec: method tokens, request and response values, the
//! request decoder and the response serializer.
//!
//! All wire text is handled as raw bytes; header, query-parameter and
//! path-parameter maps are entry lists from `crate::kv`.

use vstd::prelude::*;
use vstd::slice::{slice_subrange, slice_to_vec};
use vstd::string::StringSliceAdditionalSpecFns;
use crate::bytes::{
    bytes_eq, dec_bytes, dec_digits, dec_value, find_first, is_dec_digits, lemma_split_at_first_sep,
    lemma_split_len, lemma_split_no_sep, parse_dec, split_all, split_bytes, trim_slice, trimmed,
};
use crate::kv::{
    kv_get, kv_lookup, kv_set, kv_upsert, kv_view, kvo_lookup, kvo_set, kvo_view,
};

verus! {

/// The nine HTTP/1.1 request methods.
#[derive(Debug, Clone, Copy, PartialEq, Eq, Structural, Hash)]
pub enum HttpMethod {
    Get,
    Head,
    Post,
    Put,
    Delete,
    Connect,
    Options,
    Trace,
    Patch,
}

impl Default for HttpMethod {
    fn default() -> (r: Self)
        ensures
            r == HttpMethod::Get,
    {
        HttpMethod::Get
    }
}

/// The token of a method on the wire.
pub open spec fn method_bytes(m: HttpMethod) -> Seq<u8> {
    match m {
        HttpMethod::Get => seq!['G' as u8, 'E' as u8, 'T' as u8],
        HttpMethod::Head => seq!['H' as u8, 'E' as u8, 'A' as u8, 'D' as u8],
        HttpMethod::Post => seq!['P' as u8, 'O' as u8, 'S' as u8, 'T' as u8],
        HttpMethod::Put => seq!['P' as u8, 'U' as u8, 'T' as u8],
        HttpMethod::Delete => seq!['D' as u8, 'E' as u8, 'L' as u8, 'E' as u8, 'T' as u8, 'E' as u8],
        HttpMethod::Connect => seq![
            'C' as u8,
            'O' as u8,
            'N' as u8,
            'N' as u8,
            'E' as u8,
            'C' as u8,
            'T' as u8,
        ],
        HttpMethod::Options => seq![
            'O' as u8,
            'P' as u8,
            'T' as u8,
            'I' as u8,
            'O' as u8,
            'N' as u8,
            'S' as u8,
        ],
        HttpMethod::Trace => seq!['T' as u8, 'R' as u8, 'A' as u8, 'C' as u8, 'E' as u8],
        HttpMethod::Patch => seq!['P' as u8, 'A' as u8, 'T' as u8, 'C' as u8, 'H' as u8],
    }
}

/// The method whose token is `s`, compared verbatim; lowercase or unknown
/// tokens match nothing.
pub open spec fn spec_method_of(s: Seq<u8>) -> Option<HttpMethod> {
    if s == method_bytes(HttpMethod::Get) {
        Some(HttpMethod::Get)
    } else if s == method_bytes(HttpMethod::Head) {
        Some(HttpMethod::Head)
    } else if s == method_bytes(HttpMethod::Post) {
        Some(HttpMethod::Post)
    } else if s == method_bytes(HttpMethod::Put) {
        Some(HttpMethod::Put)
    } else if s == method_bytes(HttpMethod::Delete) {
        Some(HttpMethod::Delete)
    } else if s == method_bytes(HttpMethod::Connect) {
        Some(HttpMethod::Connect)
    } else if s == method_bytes(HttpMethod::Options) {
        Some(HttpMethod::Options)
    } else if s == method_bytes(HttpMethod::Trace) {
        Some(HttpMethod::Trace)
    } else if s == method_bytes(HttpMethod::Patch) {
        Some(HttpMethod::Patch)
    } else {
        None
    }
}

/// Parse a method token given as raw bytes.
pub fn method_of_bytes(s: &[u8]) -> (r: Option<HttpMethod>)
    ensures
        r == spec_method_of(s@),
{
    let t_get: Vec<u8> = vec!['G' as u8, 'E' as u8, 'T' as u8];
    let t_head: Vec<u8> = vec!['H' as u8, 'E' as u8, 'A' as u8, 'D' as u8];
    let t_post: Vec<u8> = vec!['P' as u8, 'O' as u8, 'S' as u8, 'T' as u8];
    let t_put: Vec<u8> = vec!['P' as u8, 'U' as u8, 'T' as u8];
    let t_delete: Vec<u8> = vec!['D' as u8, 'E' as u8, 'L' as u8, 'E' as u8, 'T' as u8, 'E' as u8];
    let t_connect: Vec<u8> = vec![
        'C' as u8,
        'O' as u8,
        'N' as u8,
        'N' as u8,
        'E' as u8,
        'C' as u8,
        'T' as u8,
    ];
    let t_options: Vec<u8> = vec![
        'O' as u8,
        'P' as u8,
        'T' as u8,
        'I' as u8,
        'O' as u8,
        'N' as u8,
        'S' as u8,
    ];
    let t_trace: Vec<u8> = vec!['T' as u8, 'R' as u8, 'A' as u8, 'C' as u8, 'E' as u8];
    let t_patch: Vec<u8> = vec!['P' as u8, 'A' as u8, 'T' as u8, 'C' as u8, 'H' as u8];
    proof {
        assert(t_get@ =~= method_bytes(HttpMethod::Get));
        assert(t_head@ =~= method_bytes(HttpMethod::Head));
        assert(t_post@ =~= method_bytes(HttpMethod::Post));
        assert(t_put@ =~= method_bytes(HttpMethod::Put));
        assert(t_delete@ =~= method_bytes(HttpMethod::Delete));
        assert(t_connect@ =~= method_bytes(HttpMethod::Connect));
        assert(t_options@ =~= method_bytes(HttpMethod::Options));
        assert(t_trace@ =~= method_bytes(HttpMethod::Trace));
        assert(t_patch@ =~= method_bytes(HttpMethod::Patch));
    }
    if bytes_eq(s, t_get.as_slice()) {
        Some(HttpMethod::Get)
    } else if bytes_eq(s, t_head.as_slice()) {
        Some(HttpMethod::Head)
    } else if bytes_eq(s, t_post.as_slice()) {
        Some(HttpMethod::Post)
    } else if bytes_eq(s, t_put.as_slice()) {
        Some(HttpMethod::Put)
    } else if bytes_eq(s, t_delete.as_slice()) {
        Some(HttpMethod::Delete)
    } else if bytes_eq(s, t_connect.as_slice()) {
        Some(HttpMethod::Connect)
    } else if bytes_eq(s, t_options.as_slice()) {
        Some(HttpMethod::Options)
    } else if bytes_eq(s, t_trace.as_slice()) {
        Some(HttpMethod::Trace)
    } else if bytes_eq(s, t_patch.as_slice()) {
        Some(HttpMethod::Patch)
    } else {
        None
    }
}

impl HttpMethod {
    /// Parse a method token; the comparison is verbatim and case-sensitive.
    pub fn from(s: &str) -> (r: Option<HttpMethod>)
        ensures
            r == spec_method_of(s.spec_bytes()),
    {
        method_of_bytes(s.as_bytes())
    }
}

// ---------------------------------------------------------------------------
// Requests
// ---------------------------------------------------------------------------

/// One decoded request. `path` is the request-target up to any `?`, kept
/// verbatim; `params` is filled by the router when a pattern with `:name`
/// or `*` segments matches.
#[derive(Debug, Clone)]
pub struct HttpRequest {
    pub method: HttpMethod,
    pub path: Vec<u8>,
    pub version: Vec<u8>,
    pub headers: Vec<(Vec<u8>, Vec<u8>)>,
    pub query_params: Vec<(Vec<u8>, Option<Vec<u8>>)>,
    pub params: Vec<(Vec<u8>, Vec<u8>)>,
    pub body: Vec<u8>,
}

/// The mathematical reading of a request.
#[verifier::ext_equal]
pub struct ReqView {
    pub method: HttpMethod,
    pub path: Seq<u8>,
    pub version: Seq<u8>,
    pub headers: Seq<(Seq<u8>, Seq<u8>)>,
    pub query_params: Seq<(Seq<u8>, Option<Seq<u8>>)>,
    pub params: Seq<(Seq<u8>, Seq<u8>)>,
    pub body: Seq<u8>,
}

impl View for HttpRequest {
    type V = ReqView;

    open spec fn view(&self) -> ReqView {
        ReqView {
            method: self.method,
            path: self.path@,
            version: self.version@,
            headers: kv_view(self.headers),
            query_params: kvo_view(self.query_params),
            params: kv_view(self.params),
            body: self.body@,
        }
    }
}

/// The request a decoder returns when the stream ends before any byte.
pub open spec fn empty_req_view() -> ReqView {
    ReqView {
        method: HttpMethod::Get,
        path: Seq::empty(),
        version: Seq::empty(),
        headers: Seq::empty(),
        query_params: Seq::empty(),
        params: Seq::empty(),
        body: Seq::empty(),
    }
}

impl Default for HttpRequest {
    fn default() -> (r: Self)
        ensures
            r@ == empty_req_view(),
    {
        let r = HttpRequest {
            method: HttpMethod::Get,
            path: Vec::new(),
            version: Vec::new(),
            headers: Vec::new(),
            query_params: Vec::new(),
            params: Vec::new(),
            body: Vec::new(),
        };
        proof {
            assert(kv_view(r.headers) =~= Seq::<(Seq<u8>, Seq<u8>)>::empty());
            assert(kvo_view(r.query_params) =~= Seq::<(Seq<u8>, Option<Seq<u8>>)>::empty());
            assert(kv_view(r.params) =~= Seq::<(Seq<u8>, Seq<u8>)>::empty());
        }
        r
    }
}

impl HttpRequest {
    /// The value of a header, looked up by exact name.
    pub fn header<'a>(&'a self, name: &[u8]) -> (r: Option<&'a Vec<u8>>)
        ensures
            match r {
                Some(v) => kv_get(self@.headers, name@) == Some(v@),
                None => kv_get(self@.headers, name@) is None,
            },
    {
        kv_lookup(&self.headers, name)
    }

    /// The value of a query parameter: `None` if the key is absent,
    /// `Some(None)` for a key without `=`, `Some(Some(v))` otherwise.
    pub fn query_param<'a>(&'a self, name: &[u8]) -> (r: Option<&'a Option<Vec<u8>>>)
        ensures
            match r {
                Some(v) => kv_get(self@.query_params, name@) == Some(
                    match v {
                        Some(x) => Some(x@),
                        None => None::<Seq<u8>>,
                    },
                ),
                None => kv_get(self@.query_params, name@) is None,
            },
    {
        kvo_lookup(&self.query_params, name)
    }

    /// The value bound to a route parameter by the router.
    pub fn param<'a>(&'a self, name: &[u8]) -> (r: Option<&'a Vec<u8>>)
        ensures
            match r {
                Some(v) => kv_get(self@.params, name@) == Some(v@),
                None => kv_get(self@.params, name@) is None,
            },
    {
        kv_lookup(&self.params, name)
    }
}

// ---------------------------------------------------------------------------
// Query strings
// ---------------------------------------------------------------------------

/// Whether one `&`-separated element of a query string is malformed: empty,
/// or holding more than one `=`.
pub open spec fn query_elem_bad(e: Seq<u8>) -> bool {
    e.len() == 0 || split_bytes(e, '=' as u8).len() > 2
}

/// The entries contributed by the elements, processed left to right with
/// later keys overriding earlier ones; `None` if any element is malformed.
pub open spec fn query_entries(elems: Seq<Seq<u8>>) -> Option<Seq<(Seq<u8>, Option<Seq<u8>>)>>
    decreases elems.len(),
{
    if elems.len() == 0 {
        Some(Seq::empty())
    } else {
        match query_entries(elems.drop_last()) {
            None => None,
            Some(acc) => {
                let e = elems.last();
                let parts = split_bytes(e, '=' as u8);
                if query_elem_bad(e) {
                    None
                } else if parts.len() == 1 {
                    Some(kv_upsert(acc, trimmed(parts[0]), None))
                } else {
                    Some(kv_upsert(acc, trimmed(parts[0]), Some(trimmed(parts[1]))))
                }
            },
        }
    }
}

/// The mapping a query string denotes: split on `&`, each element split on
/// `=` into a key and an optional value, keys and values trimmed of ASCII
/// whitespace, later duplicates overriding. `None` on a malformed string.
pub open spec fn spec_parse_query(raw: Seq<u8>) -> Option<Seq<(Seq<u8>, Option<Seq<u8>>)>> {
    query_entries(split_bytes(raw, '&' as u8))
}

proof fn lemma_query_entries_bad(elems: Seq<Seq<u8>>, i: int)
    requires
        0 <= i < elems.len(),
        query_elem_bad(elems[i]),
    ensures
        query_entries(elems) is None,
    decreases elems.len(),
{
    if i == elems.len() - 1 {
    } else {
        lemma_query_entries_bad(elems.drop_last(), i);
    }
}

/// Parse the text after the `?` of a request-target.
pub fn parse_query_params(params: &[u8]) -> (r: Option<Vec<(Vec<u8>, Option<Vec<u8>>)>>)
    ensures
        match r {
            Some(q) => spec_parse_query(params@) == Some(kvo_view(q)),
            None => spec_parse_query(params@) is None,
        },
{
    let elems = split_all(params, '&' as u8);
    let ghost dv = split_bytes(params@, '&' as u8);
    let mut out: Vec<(Vec<u8>, Option<Vec<u8>>)> = Vec::new();
    let mut i: usize = 0;
    proof {
        assert(dv.take(0) =~= Seq::<Seq<u8>>::empty());
        assert(kvo_view(out) =~= Seq::<(Seq<u8>, Option<Seq<u8>>)>::empty());
    }
    while i < elems.len()
        invariant
            i <= elems@.len(),
            elems@.len() == dv.len(),
            forall|k: int| 0 <= k < dv.len() ==> (#[trigger] elems@[k])@ == dv[k],
            dv == split_bytes(params@, '&' as u8),
            query_entries(dv.take(i as int)) == Some(kvo_view(out)),
        decreases elems@.len() - i,
    {
        let e = &elems[i];
        proof {
            assert(e@ == dv[i as int]);
            assert(dv.take(i as int + 1).drop_last() =~= dv.take(i as int));
            assert(dv.take(i as int + 1).last() == dv[i as int]);
        }
        if e.len() == 0 {
            proof {
                lemma_query_entries_bad(dv, i as int);
            }
            return None;
        }
        let ghost parts_s = split_bytes(dv[i as int], '=' as u8);
        let parts = split_all(e.as_slice(), '=' as u8);
        if parts.len() > 2 {
            proof {
                lemma_query_entries_bad(dv, i as int);
            }
            return None;
        }
        proof {
            crate::bytes::lemma_split_len(dv[i as int], '=' as u8);
            assert(!query_elem_bad(dv[i as int]));
        }
        let ghost prev = kvo_view(out);
        let key = trim_slice(parts[0].as_slice());
        if parts.len() == 2 {
            let value = trim_slice(parts[1].as_slice());
            let ghost vb = value@;
            kvo_set(&mut out, key, Some(value));
            proof {
                assert(kvo_view(out) == kv_upsert(prev, trimmed(parts_s[0]), Some(
                    trimmed(parts_s[1]),
                )));
            }
        } else {
            kvo_set(&mut out, key, None);
            proof {
                assert(kvo_view(out) == kv_upsert(
                    prev,
                    trimmed(parts_s[0]),
                    None::<Seq<u8>>,
                ));
            }
        }
        proof {
            assert(query_entries(dv.take(i as int + 1)) == Some(kvo_view(out)));
        }
        i += 1;
    }
    proof {
        assert(dv.take(i as int) =~= dv);
    }
    Some(out)
}

// ---------------------------------------------------------------------------
// Responses
// ---------------------------------------------------------------------------

/// One response under construction. Serialization adds the `Content-Length`
/// header; `headers` holds only user-supplied headers.
#[derive(Debug, Clone)]
pub struct HttpResponse {
    version: Vec<u8>,
    status_code: u16,
    status_text: Vec<u8>,
    headers: Vec<(Vec<u8>, Vec<u8>)>,
    pub body: Vec<u8>,
}

/// The mathematical reading of a response.
#[verifier::ext_equal]
pub struct RespView {
    pub version: Seq<u8>,
    pub status_code: u16,
    pub status_text: Seq<u8>,
    pub headers: Seq<(Seq<u8>, Seq<u8>)>,
    pub body: Seq<u8>,
}

impl View for HttpResponse {
    type V = RespView;

    closed spec fn view(&self) -> RespView {
        RespView {
            version: self.version@,
            status_code: self.status_code,
            status_text: self.status_text@,
            headers: kv_view(self.headers),
            body: self.body@,
        }
    }
}

pub open spec fn crlf() -> Seq<u8> {
    seq![13u8, 10u8]
}

/// The bytes of the header name `Content-Length`.
pub open spec fn content_length_name() -> Seq<u8> {
    seq![
        'C' as u8,
        'o' as u8,
        'n' as u8,
        't' as u8,
        'e' as u8,
        'n' as u8,
        't' as u8,
        '-' as u8,
        'L' as u8,
        'e' as u8,
        'n' as u8,
        'g' as u8,
        't' as u8,
        'h' as u8,
    ]
}

/// `Content-Length` as raw bytes, for exact header lookup.
pub fn content_length_key() -> (r: Vec<u8>)
    ensures
        r@ == content_length_name(),
{
    let r: Vec<u8> = vec![
        'C' as u8,
        'o' as u8,
        'n' as u8,
        't' as u8,
        'e' as u8,
        'n' as u8,
        't' as u8,
        '-' as u8,
        'L' as u8,
        'e' as u8,
        'n' as u8,
        'g' as u8,
        't' as u8,
        'h' as u8,
    ];
    proof {
        assert(r@ =~= content_length_name());
    }
    r
}

/// `<name>: <value>` without the line terminator.
pub open spec fn header_line(key: Seq<u8>, value: Seq<u8>) -> Seq<u8> {
    key + seq![':' as u8, ' ' as u8] + value
}

/// `<version> SP <status-code> SP <reason-phrase>`.
pub open spec fn status_line(r: RespView) -> Seq<u8> {
    r.version + seq![' ' as u8] + dec_bytes(r.status_code as nat) + seq![' ' as u8] + r.status_text
}

/// The user headers, each as `<name>: <value> CRLF`.
pub open spec fn encode_headers(hs: Seq<(Seq<u8>, Seq<u8>)>) -> Seq<u8>
    decreases hs.len(),
{
    if hs.len() == 0 {
        Seq::empty()
    } else {
        header_line(hs[0].0, hs[0].1) + crlf() + encode_headers(hs.skip(1))
    }
}

/// The serialized response: status line, then a `Content-Length` header
/// holding the body length, then the user headers, an empty line, and the
/// body bytes.
pub open spec fn spec_encode(r: RespView) -> Seq<u8> {
    status_line(r) + crlf() + header_line(content_length_name(), dec_bytes(r.body.len())) + crlf()
        + encode_headers(r.headers) + crlf() + r.body
}

proof fn lemma_encode_headers_push(hs: Seq<(Seq<u8>, Seq<u8>)>, e: (Seq<u8>, Seq<u8>))
    ensures
        encode_headers(hs.push(e)) =~= encode_headers(hs) + header_line(e.0, e.1) + crlf(),
    decreases hs.len(),
{
    if hs.len() == 0 {
        assert(hs.push(e).skip(1) =~= Seq::<(Seq<u8>, Seq<u8>)>::empty());
        assert(encode_headers(Seq::<(Seq<u8>, Seq<u8>)>::empty()) == Seq::<u8>::empty());
        assert(hs.push(e)[0] == e);
    } else {
        lemma_encode_headers_push(hs.skip(1), e);
        assert(hs.push(e).skip(1) =~= hs.skip(1).push(e));
        assert(hs.push(e)[0] == hs[0]);
    }
}

impl HttpResponse {
    /// A response with the given status line and no headers or body yet.
    pub fn new(version: &str, status_code: u16, status_text: &str) -> (r: HttpResponse)
        ensures
            r@.version == version.spec_bytes(),
            r@.status_code == status_code,
            r@.status_text == status_text.spec_bytes(),
            r@.headers == Seq::<(Seq<u8>, Seq<u8>)>::empty(),
            r@.body == Seq::<u8>::empty(),
    {
        let r = HttpResponse {
            version: version.as_bytes_vec(),
            status_code,
            status_text: status_text.as_bytes_vec(),
            headers: Vec::new(),
            body: Vec::new(),
        };
        proof {
            assert(kv_view(r.headers) =~= Seq::<(Seq<u8>, Seq<u8>)>::empty());
        }
        r
    }

    /// Set a user header; a header set twice keeps the later value.
    pub fn insert_header(&mut self, key: &str, value: &str)
        ensures
            final(self)@ == (RespView {
                headers: kv_upsert(
                    old(self)@.headers,
                    key.spec_bytes(),
                    value.spec_bytes(),
                ),
                ..old(self)@
            }),
    {
        kv_set(&mut self.headers, key.as_bytes_vec(), value.as_bytes_vec());
    }

    /// Replace the body with a copy of the given bytes.
    pub fn set_body(&mut self, body: &[u8])
        ensures
            final(self)@ == (RespView { body: body@, ..old(self)@ }),
    {
        self.body = vstd::slice::slice_to_vec(body);
    }

    /// Serialize the response; see `spec_encode` for the exact format.
    pub fn get_bytes(&self) -> (r: Vec<u8>)
        ensures
            r@ == spec_encode(self@),
    {
        let mut out: Vec<u8> = Vec::new();
        let mut piece = self.version.clone();
        out.append(&mut piece);
        out.push(' ' as u8);
        let mut piece = dec_digits(self.status_code as usize);
        out.append(&mut piece);
        out.push(' ' as u8);
        let mut piece = self.status_text.clone();
        out.append(&mut piece);
        out.push(13u8);
        out.push(10u8);
        proof {
            assert(out@ =~= status_line(self@) + crlf());
        }
        let mut piece = content_length_key();
        out.append(&mut piece);
        out.push(':' as u8);
        out.push(' ' as u8);
        let mut piece = dec_digits(self.body.len());
        out.append(&mut piece);
        out.push(13u8);
        out.push(10u8);
        let ghost head = status_line(self@) + crlf() + header_line(
            content_length_name(),
            dec_bytes(self@.body.len()),
        ) + crlf();
        proof {
            assert(out@ =~= head);
        }
        let mut i: usize = 0;
        proof {
            assert(kv_view(self.headers).take(0) =~= Seq::<(Seq<u8>, Seq<u8>)>::empty());
            assert(out@ =~= head + encode_headers(kv_view(self.headers).take(0)));
        }
        while i < self.headers.len()
            invariant
                i <= self.headers@.len(),
                out@ == head + encode_headers(kv_view(self.headers).take(i as int)),
            decreases self.headers@.len() - i,
        {
            let ghost hv = kv_view(self.headers);
            let mut piece = self.headers[i].0.clone();
            proof {
                assert(piece@ =~= hv[i as int].0);
            }
            out.append(&mut piece);
            out.push(':' as u8);
            out.push(' ' as u8);
            let mut piece = self.headers[i].1.clone();
            proof {
                assert(piece@ =~= hv[i as int].1);
            }
            out.append(&mut piece);
            out.push(13u8);
            out.push(10u8);
            proof {
                lemma_encode_headers_push(hv.take(i as int), hv[i as int]);
                assert(hv.take(i as int).push(hv[i as int]) =~= hv.take(i as int + 1));
                assert(out@ =~= head + encode_headers(hv.take(i as int + 1)));
            }
            i += 1;
        }
        proof {
            assert(kv_view(self.headers).take(i as int) =~= kv_view(self.headers));
        }
        out.push(13u8);
        out.push(10u8);
        let mut piece = self.body.clone();
        proof {
            assert(piece@ =~= self@.body);
        }
        out.append(&mut piece);
        proof {
            assert(out@ =~= spec_encode(self@));
        }
        out
    }

    /// 200 OK with the given body.
    pub fn ok(body: &[u8]) -> (r: HttpResponse)
        ensures
            r@.version == http11(),
            r@.status_code == 200,
            r@.status_text == reason_ok(),
            r@.headers == Seq::<(Seq<u8>, Seq<u8>)>::empty(),
            r@.body == body@,
    {
        let mut r = Self::with_status(200);
        r.set_body(body);
        r
    }

    /// 404 Not Found with the given message as body.
    pub fn not_found(message: &str) -> (r: HttpResponse)
        ensures
            r@.version == http11(),
            r@.status_code == 404,
            r@.status_text == reason_not_found(),
            r@.headers == Seq::<(Seq<u8>, Seq<u8>)>::empty(),
            r@.body == message.spec_bytes(),
    {
        let mut r = Self::with_status(404);
        r.set_body(message.as_bytes());
        r
    }

    /// 403 Forbidden with the given message as body.
    pub fn forbidden(message: &str) -> (r: HttpResponse)
        ensures
            r@.version == http11(),
            r@.status_code == 403,
            r@.status_text == reason_forbidden(),
            r@.headers == Seq::<(Seq<u8>, Seq<u8>)>::empty(),
            r@.body == message.spec_bytes(),
    {
        let mut r = Self::with_status(403);
        r.set_body(message.as_bytes());
        r
    }

    /// 500 Internal Server Error with the given message as body.
    pub fn internal_error(message: &str) -> (r: HttpResponse)
        ensures
            r@.version == http11(),
            r@.status_code == 500,
            r@.status_text == reason_internal_error(),
            r@.headers == Seq::<(Seq<u8>, Seq<u8>)>::empty(),
            r@.body == message.spec_bytes(),
    {
        let mut r = Self::with_status(500);
        r.set_body(message.as_bytes());
        r
    }

    /// An HTTP/1.1 response with a standard reason phrase for the four
    /// status codes the library itself produces.
    fn with_status(status_code: u16) -> (r: HttpResponse)
        requires
            status_code == 200 || status_code == 403 || status_code == 404 || status_code == 500,
        ensures
            r@.version == http11(),
            r@.status_code == status_code,
            r@.status_text == (if status_code == 200 {
                reason_ok()
            } else if status_code == 403 {
                reason_forbidden()
            } else if status_code == 404 {
                reason_not_found()
            } else {
                reason_internal_error()
            }),
            r@.headers == Seq::<(Seq<u8>, Seq<u8>)>::empty(),
            r@.body == Seq::<u8>::empty(),
    {
        let text: Vec<u8> = if status_code == 200 {
            let t: Vec<u8> = vec!['O' as u8, 'K' as u8];
            proof {
                assert(t@ =~= reason_ok());
            }
            t
        } else if status_code == 403 {
            let t: Vec<u8> = vec![
                'F' as u8,
                'o' as u8,
                'r' as u8,
                'b' as u8,
                'i' as u8,
                'd' as u8,
                'd' as u8,
                'e' as u8,
                'n' as u8,
            ];
            proof {
                assert(t@ =~= reason_forbidden());
            }
            t
        } else if status_code == 404 {
            let t: Vec<u8> = vec![
                'N' as u8,
                'o' as u8,
                't' as u8,
                ' ' as u8,
                'F' as u8,
                'o' as u8,
                'u' as u8,
                'n' as u8,
                'd' as u8,
            ];
            proof {
                assert(t@ =~= reason_not_found());
            }
            t
        } else {
            let t: Vec<u8> = vec![
                'I' as u8,
                'n' as u8,
                't' as u8,
                'e' as u8,
                'r' as u8,
                'n' as u8,
                'a' as u8,
                'l' as u8,
                ' ' as u8,
                'S' as u8,
                'e' as u8,
                'r' as u8,
                'v' as u8,
                'e' as u8,
                'r' as u8,
                ' ' as u8,
                'E' as u8,
                'r' as u8,
                'r' as u8,
                'o' as u8,
                'r' as u8,
            ];
            proof {
                assert(t@ =~= reason_internal_error());
            }
            t
        };
        let r = HttpResponse {
            version: vec!['H' as u8, 'T' as u8, 'T' as u8, 'P' as u8, '/' as u8, '1' as u8, '.'
                as u8, '1' as u8],
            status_code,
            status_text: text,
            headers: Vec::new(),
            body: Vec::new(),
        };
        proof {
            assert(r.version@ =~= http11());
            assert(kv_view(r.headers) =~= Seq::<(Seq<u8>, Seq<u8>)>::empty());
        }
        r
    }
}

/// The version token `HTTP/1.1`.
pub open spec fn http11() -> Seq<u8> {
    seq!['H' as u8, 'T' as u8, 'T' as u8, 'P' as u8, '/' as u8, '1' as u8, '.' as u8, '1' as u8]
}

pub open spec fn reason_ok() -> Seq<u8> {
    seq!['O' as u8, 'K' as u8]
}

pub open spec fn reason_forbidden() -> Seq<u8> {
    seq![
        'F' as u8,
        'o' as u8,
        'r' as u8,
        'b' as u8,
        'i' as u8,
        'd' as u8,
        'd' as u8,
        'e' as u8,
        'n' as u8,
    ]
}

pub open spec fn reason_not_found() -> Seq<u8> {
    seq![
        'N' as u8,
        'o' as u8,
        't' as u8,
        ' ' as u8,
        'F' as u8,
        'o' as u8,
        'u' as u8,
        'n' as u8,
        'd' as u8,
    ]
}

// ---------------------------------------------------------------------------
// The decoder
// ---------------------------------------------------------------------------

/// Why a byte stream is not a request.
#[derive(Debug, Clone, Copy, PartialEq, Eq, Structural)]
pub enum ParseError {
    /// The request line does not have exactly three fields.
    BadRequestLine,
    /// The first field is not one of the nine method tokens.
    BadMethod,
    /// The request-target holds more than one `?`.
    BadUri,
    /// The text after `?` is not a well-formed query string.
    BadQuery,
    /// A header line has no `:`.
    BadHeader,
    /// The stream ended inside the header block.
    UnexpectedEof,
    /// The `Content-Length` value is not a decimal number that fits.
    BadContentLength,
}

/// The first line of `s` (terminated by CRLF, terminator stripped; an
/// unterminated trailing line counts as a line) and what follows it.
pub open spec fn spec_read_line(s: Seq<u8>) -> (Seq<u8>, Seq<u8>)
    decreases s.len(),
{
    if s.len() == 0 {
        (Seq::<u8>::empty(), Seq::<u8>::empty())
    } else if s[0] == 13 && s.len() >= 2 && s[1] == 10 {
        (Seq::<u8>::empty(), s.skip(2))
    } else {
        let r = spec_read_line(s.skip(1));
        (seq![s[0]] + r.0, r.1)
    }
}

pub proof fn lemma_read_line_rest_len(s: Seq<u8>)
    ensures
        spec_read_line(s).1.len() <= s.len(),
        s.len() > 0 ==> spec_read_line(s).1.len() < s.len(),
    decreases s.len(),
{
    if s.len() == 0 {
    } else if s[0] == 13 && s.len() >= 2 && s[1] == 10 {
    } else {
        lemma_read_line_rest_len(s.skip(1));
    }
}

/// Reading a line stops at the first CRLF.
pub proof fn lemma_read_line_at(s: Seq<u8>, p: int)
    requires
        0 <= p,
        p + 1 < s.len(),
        s[p] == 13,
        s[p + 1] == 10,
        forall|k: int| 0 <= k < p ==> !((#[trigger] s[k]) == 13 && s[k + 1] == 10),
    ensures
        spec_read_line(s) == (s.take(p), s.skip(p + 2)),
    decreases p,
{
    if p == 0 {
        assert(s.take(0) =~= Seq::<u8>::empty());
    } else {
        let t = s.skip(1);
        assert(forall|k: int| 0 <= k < p - 1 ==> !((#[trigger] t[k]) == 13 && t[k + 1] == 10));
        lemma_read_line_at(t, p - 1);
        assert(seq![s[0]] + t.take(p - 1) =~= s.take(p));
        assert(t.skip(p + 1) =~= s.skip(p + 2));
    }
}

/// Without a CRLF the whole remainder is one line.
pub proof fn lemma_read_line_none(s: Seq<u8>)
    requires
        forall|k: int| 0 <= k && k + 1 < s.len() ==> !((#[trigger] s[k]) == 13 && s[k + 1] == 10),
    ensures
        spec_read_line(s) == (s, Seq::<u8>::empty()),
    decreases s.len(),
{
    if s.len() == 0 {
        assert(s =~= Seq::<u8>::empty());
    } else {
        let t = s.skip(1);
        assert(forall|k: int| 0 <= k && k + 1 < t.len() ==> !((#[trigger] t[k]) == 13 && t[k + 1]
            == 10));
        lemma_read_line_none(t);
        assert(seq![s[0]] + t =~= s);
    }
}

/// A line without line feeds followed by CRLF reads back as that line.
pub proof fn lemma_read_line_concat(l: Seq<u8>, rest: Seq<u8>)
    requires
        forall|k: int| 0 <= k < l.len() ==> (#[trigger] l[k]) != 10,
    ensures
        spec_read_line(l + crlf() + rest) == (l, rest),
{
    let s = l + crlf() + rest;
    assert(s[l.len() as int] == 13);
    assert(s[l.len() as int + 1] == 10);
    assert forall|k: int| 0 <= k < l.len() implies !((#[trigger] s[k]) == 13 && s[k + 1] == 10) by {
        if k + 1 < l.len() {
            assert(s[k + 1] == l[k + 1]);
        } else {
            assert(s[k + 1] == 13);
        }
    }
    lemma_read_line_at(s, l.len() as int);
    assert(s.take(l.len() as int) =~= l);
    assert(s.skip(l.len() as int + 2) =~= rest);
}

/// No method token holds a space, a line break or a colon, and none is
/// empty.
pub proof fn lemma_method_bytes_wf(m: HttpMethod)
    ensures
        method_bytes(m).len() > 0,
        forall|k: int|
            0 <= k < method_bytes(m).len() ==> (#[trigger] method_bytes(m)[k]) != ' ' as u8
                && method_bytes(m)[k] != 13 && method_bytes(m)[k] != 10 && method_bytes(m)[k]
                != ':' as u8 && method_bytes(m)[k] != '?' as u8,
{
}

/// Reading a method token back yields the method it came from.
pub proof fn lemma_method_round_trip(m: HttpMethod)
    ensures
        spec_method_of(method_bytes(m)) == Some(m),
{
}

/// Find the line starting at `pos`: returns its end and the start of the
/// next line.
#[verifier::loop_isolation(false)]
pub fn read_line_at(input: &[u8], pos: usize) -> (r: (usize, usize))
    requires
        pos <= input@.len(),
    ensures
        pos <= r.0 <= r.1 <= input@.len(),
        spec_read_line(input@.skip(pos as int)).0 == input@.subrange(pos as int, r.0 as int),
        spec_read_line(input@.skip(pos as int)).1 == input@.skip(r.1 as int),
        pos < input@.len() ==> r.1 > pos,
{
    let ghost t = input@.skip(pos as int);
    let mut j: usize = pos;
    while input.len() - j > 1
        invariant
            pos <= j,
            j <= input@.len(),
            forall|k: int|
                0 <= k < j - pos ==> !((#[trigger] t[k]) == 13 && t[k + 1] == 10),
        decreases input@.len() - j,
    {
        if input[j] == 13 && input[j + 1] == 10 {
            proof {
                assert(t[j - pos] == 13 && t[j - pos + 1] == 10);
                lemma_read_line_at(t, j - pos);
                assert(t.take(j - pos) =~= input@.subrange(pos as int, j as int));
                assert(t.skip(j - pos + 2) =~= input@.skip(j + 2));
            }
            return (j, j + 2);
        }
        proof {
            assert(t[j - pos] == input@[j as int]);
        }
        j += 1;
    }
    proof {
        assert(forall|k: int|
            0 <= k && k + 1 < t.len() ==> !((#[trigger] t[k]) == 13 && t[k + 1] == 10));
        lemma_read_line_none(t);
        assert(t =~= input@.subrange(pos as int, input@.len() as int));
        assert(input@.skip(input@.len() as int) =~= Seq::<u8>::empty());
    }
    (input.len(), input.len())
}

/// Parse header lines until the empty line, adding to `acc`; the result is
/// the header entries and what remains after the empty line. The stream
/// ending inside the block is an error, as is a line without `:`. A name
/// registered twice keeps the later value.
pub open spec fn spec_parse_headers(rest: Seq<u8>, acc: Seq<(Seq<u8>, Seq<u8>)>) -> Result<
    (Seq<(Seq<u8>, Seq<u8>)>, Seq<u8>),
    ParseError,
>
    decreases rest.len(),
    via spec_parse_headers_dec
{
    if rest.len() == 0 {
        Err(ParseError::UnexpectedEof)
    } else {
        let lr = spec_read_line(rest);
        if lr.0.len() == 0 {
            Ok((acc, lr.1))
        } else {
            let parts = split_bytes(lr.0, ':' as u8);
            if parts.len() < 2 {
                Err(ParseError::BadHeader)
            } else {
                let key = trimmed(parts[0]);
                let value = trimmed(lr.0.skip(parts[0].len() as int + 1));
                spec_parse_headers(lr.1, kv_upsert(acc, key, value))
            }
        }
    }
}

#[via_fn]
proof fn spec_parse_headers_dec(rest: Seq<u8>, acc: Seq<(Seq<u8>, Seq<u8>)>) {
    if rest.len() > 0 {
        lemma_read_line_rest_len(rest);
    }
}

/// What decoding a byte stream yields: an empty stream gives the default
/// request; otherwise the request line is split into exactly three fields,
/// the target into a path and an optional query, headers follow until an
/// empty line, and the body is as many bytes as `Content-Length` asks for
/// and the stream still holds. Without `Content-Length` the body is empty.
pub open spec fn spec_parse_request(s: Seq<u8>) -> Result<ReqView, ParseError> {
    if s.len() == 0 {
        Ok(empty_req_view())
    } else {
        let lr = spec_read_line(s);
        let fields = split_bytes(lr.0, ' ' as u8);
        if fields.len() != 3 {
            Err(ParseError::BadRequestLine)
        } else {
            match spec_method_of(fields[0]) {
                None => Err(ParseError::BadMethod),
                Some(m) => {
                    let uri = split_bytes(fields[1], '?' as u8);
                    if uri.len() > 2 {
                        Err(ParseError::BadUri)
                    } else {
                        let q = if uri.len() == 2 {
                            spec_parse_query(uri[1])
                        } else {
                            Some(Seq::<(Seq<u8>, Option<Seq<u8>>)>::empty())
                        };
                        match q {
                            None => Err(ParseError::BadQuery),
                            Some(qs) => match spec_parse_headers(
                                lr.1,
                                Seq::<(Seq<u8>, Seq<u8>)>::empty(),
                            ) {
                                Err(e) => Err(e),
                                Ok(hr) => match kv_get(hr.0, content_length_name()) {
                                    None => Ok(
                                        ReqView {
                                            method: m,
                                            path: uri[0],
                                            version: fields[2],
                                            headers: hr.0,
                                            query_params: qs,
                                            params: Seq::empty(),
                                            body: Seq::empty(),
                                        },
                                    ),
                                    Some(cl) => if !is_dec_digits(cl) || dec_value(cl)
                                        > usize::MAX as int {
                                        Err(ParseError::BadContentLength)
                                    } else {
                                        let n = if dec_value(cl) <= hr.1.len() {
                                            dec_value(cl)
                                        } else {
                                            hr.1.len() as int
                                        };
                                        Ok(
                                            ReqView {
                                                method: m,
                                                path: uri[0],
                                                version: fields[2],
                                                headers: hr.0,
                                                query_params: qs,
                                                params: Seq::empty(),
                                                body: hr.1.take(n),
                                            },
                                        )
                                    },
                                },
                            },
                        }
                    }
                }
            }
        }
    }
}

impl HttpRequest {
    /// Decode one request from the bytes read off a connection; see
    /// `spec_parse_request` for the exact format and errors.
    pub fn parse(input: &[u8]) -> (r: Result<HttpRequest, ParseError>)
        ensures
            match r {
                Ok(req) => spec_parse_request(input@) == Ok::<ReqView, ParseError>(req@),
                Err(e) => spec_parse_request(input@) == Err::<ReqView, ParseError>(e),
            },
    {
        if input.len() == 0 {
            return Ok(HttpRequest::default());
        }
        let (end0, next0) = read_line_at(input, 0);
        proof {
            assert(input@.skip(0) =~= input@);
        }
        let ghost lr = spec_read_line(input@);
        let line0 = slice_subrange(input, 0, end0);
        let ghost fields_s = split_bytes(lr.0, ' ' as u8);
        let fields = split_all(line0, ' ' as u8);
        if fields.len() != 3 {
            return Err(ParseError::BadRequestLine);
        }
        let m = match method_of_bytes(fields[0].as_slice()) {
            Some(m) => m,
            None => {
                return Err(ParseError::BadMethod);
            },
        };
        let ghost uri_s = split_bytes(fields_s[1], '?' as u8);
        let uri = split_all(fields[1].as_slice(), '?' as u8);
        if uri.len() > 2 {
            return Err(ParseError::BadUri);
        }
        proof {
            lemma_split_len(fields_s[1], '?' as u8);
        }
        let query_params: Vec<(Vec<u8>, Option<Vec<u8>>)> = if uri.len() == 2 {
            match parse_query_params(uri[1].as_slice()) {
                Some(q) => q,
                None => {
                    return Err(ParseError::BadQuery);
                },
            }
        } else {
            let q: Vec<(Vec<u8>, Option<Vec<u8>>)> = Vec::new();
            proof {
                assert(kvo_view(q) =~= Seq::<(Seq<u8>, Option<Seq<u8>>)>::empty());
            }
            q
        };
        // The header block.
        let ghost rest0 = lr.1;
        let mut headers: Vec<(Vec<u8>, Vec<u8>)> = Vec::new();
        let mut pos = next0;
        proof {
            assert(kv_view(headers) =~= Seq::<(Seq<u8>, Seq<u8>)>::empty());
        }
        loop
            invariant_except_break
                spec_parse_headers(rest0, Seq::<(Seq<u8>, Seq<u8>)>::empty())
                    == spec_parse_headers(input@.skip(pos as int), kv_view(headers)),
            invariant
                pos <= input@.len(),
                input@.len() > 0,
                rest0 == lr.1,
                lr == spec_read_line(input@),
                fields_s == split_bytes(lr.0, ' ' as u8),
                fields_s.len() == 3,
                spec_method_of(fields_s[0]) == Some(m),
                uri_s == split_bytes(fields_s[1], '?' as u8),
                1 <= uri_s.len() <= 2,
                uri_s.len() == 2 ==> spec_parse_query(uri_s[1]) == Some(kvo_view(query_params)),
                uri_s.len() == 1 ==> kvo_view(query_params) == Seq::<
                    (Seq<u8>, Option<Seq<u8>>),
                >::empty(),
            ensures
                spec_parse_headers(rest0, Seq::<(Seq<u8>, Seq<u8>)>::empty())
                    == Ok::<(Seq<(Seq<u8>, Seq<u8>)>, Seq<u8>), ParseError>(
                    (kv_view(headers), input@.skip(pos as int)),
                ),
            decreases input@.len() - pos,
        {
            if pos == input.len() {
                proof {
                    assert(input@.skip(pos as int) =~= Seq::<u8>::empty());
                }
                return Err(ParseError::UnexpectedEof);
            }
            let ghost cur = input@.skip(pos as int);
            let ghost cur_lr = spec_read_line(cur);
            let (end, next) = read_line_at(input, pos);
            if end == pos {
                proof {
                    assert(cur_lr.0 =~= Seq::<u8>::empty());
                    assert(spec_parse_headers(cur, kv_view(headers))
                        == Ok::<(Seq<(Seq<u8>, Seq<u8>)>, Seq<u8>), ParseError>(
                        (kv_view(headers), cur_lr.1),
                    ));
                    assert(cur_lr.1 == input@.skip(next as int));
                }
                pos = next;
                break;
            }
            let line = slice_subrange(input, pos, end);
            proof {
                assert(line@ == cur_lr.0);
                assert(line@.len() > 0);
            }
            let ci = match find_first(line, ':' as u8) {
                Some(c) => c,
                None => {
                    proof {
                        lemma_split_no_sep(line@, ':' as u8);
                    }
                    return Err(ParseError::BadHeader);
                },
            };
            let ghost before = kv_view(headers);
            proof {
                lemma_split_at_first_sep(line@, ':' as u8, ci as int);
            }
            let key = trim_slice(slice_subrange(line, 0, ci));
            let value = trim_slice(slice_subrange(line, ci + 1, line.len()));
            proof {
                let parts = split_bytes(cur_lr.0, ':' as u8);
                lemma_split_len(line@.skip(ci as int + 1), ':' as u8);
                assert(parts[0] == line@.take(ci as int));
                assert(parts[0].len() == ci as int);
                assert(key@ == trimmed(parts[0]));
                assert(line@.skip(ci as int + 1) =~= input@.subrange(
                    pos + ci + 1,
                    end as int,
                ));
                assert(value@ == trimmed(cur_lr.0.skip(parts[0].len() as int + 1)));
            }
            kv_set(&mut headers, key, value);
            proof {
                assert(spec_parse_headers(cur, before) == spec_parse_headers(
                    cur_lr.1,
                    kv_view(headers),
                ));
                assert(cur_lr.1 == input@.skip(next as int));
            }
            pos = next;
        }
        let ghost hs = kv_view(headers);
        let ghost rest1 = input@.skip(pos as int);
        proof {
            assert(spec_parse_headers(rest0, Seq::<(Seq<u8>, Seq<u8>)>::empty())
                == Ok::<_, ParseError>((hs, rest1)));
        }
        // The body, framed by Content-Length alone.
        let cl_key = content_length_key();
        let mut has_cl = false;
        let mut cl: usize = 0;
        match kv_lookup(&headers, cl_key.as_slice()) {
            None => {},
            Some(cl_value) => {
                match parse_dec(cl_value.as_slice()) {
                    None => {
                        return Err(ParseError::BadContentLength);
                    },
                    Some(n) => {
                        has_cl = true;
                        cl = n;
                    },
                }
            },
        }
        let body: Vec<u8> = if has_cl {
            let remaining = input.len() - pos;
            let take_n = if cl <= remaining {
                cl
            } else {
                remaining
            };
            let b = slice_to_vec(slice_subrange(input, pos, pos + take_n));
            proof {
                assert(b@ =~= rest1.take(take_n as int));
            }
            b
        } else {
            Vec::new()
        };
        let path = uri[0].clone();
        let version = fields[2].clone();
        proof {
            assert(path@ =~= uri_s[0]);
            assert(version@ =~= fields_s[2]);
        }
        let req = HttpRequest {
            method: m,
            path,
            version,
            headers,
            query_params,
            params: Vec::new(),
            body,
        };
        proof {
            assert(kv_view(req.params) =~= Seq::<(Seq<u8>, Seq<u8>)>::empty());
            let expected = spec_parse_request(input@);
            assert(expected is Ok);
            assert(req@ =~= expected->Ok_0);
        }
        Ok(req)
    }
}

pub open spec fn reason_internal_error() -> Seq<u8> {
    seq![
        'I' as u8,
        'n' as u8,
        't' as u8,
        'e' as u8,
        'r' as u8,
        'n' as u8,
        'a' as u8,
        'l' as u8,
        ' ' as u8,
        'S' as u8,
        'e' as u8,
        'r' as u8,
        'v' as u8,
        'e' as u8,
        'r' as u8,
        ' ' as u8,
        'E' as u8,
        'r' as u8,
        'r' as u8,
        'o' as u8,
        'r' as u8,
    ]
}

} // verus!
