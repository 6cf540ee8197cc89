//! The library's laws: proof functions that tie the codec and the router
//! together across operations, beyond each function's own contract.

use vstd::prelude::*;
use crate::bytes::{
    dec_bytes, dec_value, is_ws, lemma_dec_bytes_digits, lemma_dec_round_trip, lemma_split_len,
    lemma_split_pieces_no_sep, split_bytes, starts_with,
};
use crate::bytes::{lemma_split_at_first_sep, lemma_split_no_sep, lemma_trimmed_id, trimmed};
use crate::http::{
    content_length_name, crlf, encode_headers, header_line, lemma_method_bytes_wf,
    lemma_method_round_trip, lemma_read_line_concat, method_bytes, spec_encode, spec_parse_headers,
    spec_parse_request, spec_read_line, status_line, HttpMethod, ParseError, ReqView, RespView,
};
use crate::kv::{
    kv_get, kv_keys_unique, kv_upsert, lemma_kv_get_some_index, lemma_kv_get_upsert_other,
    lemma_kv_get_upsert_same,
};
use crate::router::{
    child_for, child_set, classify_segment, empty_node, handler_for, handlers_upsert, spec_insert,
    spec_match, try_params, Handler, ItemView, NodeView, RouterView,
};

verus! {

/// No line break, and no whitespace at either end: a field that survives the
/// decoder's per-line trimming unchanged.
pub open spec fn clean_field(s: Seq<u8>) -> bool {
    &&& (s.len() == 0 || (!is_ws(s[0]) && !is_ws(s[s.len() - 1])))
    &&& forall|k: int| 0 <= k < s.len() ==> (#[trigger] s[k]) != 13 && s[k] != 10
}

pub open spec fn no_colon(s: Seq<u8>) -> bool {
    forall|k: int| 0 <= k < s.len() ==> (#[trigger] s[k]) != ':' as u8
}

/// A response whose encoding is line-clean: the version and reason carry no
/// line breaks, the version no colon, header names are clean, colon-free and
/// none is `Content-Length`, and header values are clean.
pub open spec fn resp_wf(r: RespView) -> bool {
    &&& forall|k: int|
        0 <= k < r.version.len() ==> (#[trigger] r.version[k]) != 13 && r.version[k] != 10
            && r.version[k] != ':' as u8
    &&& forall|k: int|
        0 <= k < r.status_text.len() ==> (#[trigger] r.status_text[k]) != 13 && r.status_text[k]
            != 10
    &&& forall|i: int|
        0 <= i < r.headers.len() ==> {
            &&& clean_field((#[trigger] r.headers[i]).0)
            &&& no_colon(r.headers[i].0)
            &&& r.headers[i].0 != content_length_name()
            &&& clean_field(r.headers[i].1)
        }
}

/// The lines of the encoded head: the status line, the Content-Length line,
/// then one line per user header.
pub open spec fn response_lines(r: RespView) -> Seq<Seq<u8>> {
    seq![status_line(r), header_line(content_length_name(), dec_bytes(r.body.len()))]
        + user_header_lines(r.headers)
}

pub open spec fn user_header_lines(hs: Seq<(Seq<u8>, Seq<u8>)>) -> Seq<Seq<u8>>
    decreases hs.len(),
{
    if hs.len() == 0 {
        Seq::empty()
    } else {
        seq![header_line(hs[0].0, hs[0].1)] + user_header_lines(hs.skip(1))
    }
}

/// Each line followed by CRLF.
pub open spec fn join_crlf(lines: Seq<Seq<u8>>) -> Seq<u8>
    decreases lines.len(),
{
    if lines.len() == 0 {
        Seq::empty()
    } else {
        lines[0] + crlf() + join_crlf(lines.skip(1))
    }
}

/// A line that begins `Content-Length:`.
pub open spec fn is_cl_line(l: Seq<u8>) -> bool {
    starts_with(l, content_length_name() + seq![':' as u8])
}

pub open spec fn count_cl_lines(lines: Seq<Seq<u8>>) -> int
    decreases lines.len(),
{
    if lines.len() == 0 {
        0
    } else {
        (if is_cl_line(lines[0]) {
            1int
        } else {
            0int
        }) + count_cl_lines(lines.skip(1))
    }
}

proof fn lemma_cl_name_chars()
    ensures
        content_length_name().len() == 14,
        forall|k: int|
            0 <= k < content_length_name().len() ==> (#[trigger] content_length_name()[k])
                != ':' as u8 && content_length_name()[k] != ' ' as u8,
{
}

proof fn lemma_encode_headers_join(hs: Seq<(Seq<u8>, Seq<u8>)>)
    ensures
        encode_headers(hs) == join_crlf(user_header_lines(hs)),
    decreases hs.len(),
{
    if hs.len() > 0 {
        lemma_encode_headers_join(hs.skip(1));
        assert(user_header_lines(hs)[0] == header_line(hs[0].0, hs[0].1));
        assert(user_header_lines(hs).skip(1) =~= user_header_lines(hs.skip(1)));
    }
}

proof fn lemma_status_line_not_cl(r: RespView)
    requires
        forall|k: int|
            0 <= k < r.version.len() ==> (#[trigger] r.version[k]) != ':' as u8,
    ensures
        !is_cl_line(status_line(r)),
{
    lemma_cl_name_chars();
    let sl = status_line(r);
    let p = content_length_name() + seq![':' as u8];
    if is_cl_line(sl) {
        assert(forall|k: int| 0 <= k < 15 ==> #[trigger] sl.take(15)[k] == sl[k]);
        assert(forall|k: int| 0 <= k < 15 ==> #[trigger] sl[k] == p[k]);
        let lv = r.version.len() as int;
        if lv >= 15 {
            assert(sl[14] == r.version[14]);
            assert(p[14] == ':' as u8);
            assert(false);
        } else if lv == 14 {
            assert(sl[14] == ' ' as u8);
            assert(p[14] == ':' as u8);
            assert(false);
        } else {
            assert(sl[lv] == ' ' as u8);
            assert(p[lv] == content_length_name()[lv]);
            assert(false);
        }
    }
}

proof fn lemma_header_line_cl(k: Seq<u8>, v: Seq<u8>)
    requires
        no_colon(k),
    ensures
        is_cl_line(header_line(k, v)) <==> k == content_length_name(),
{
    lemma_cl_name_chars();
    let line = header_line(k, v);
    let p = content_length_name() + seq![':' as u8];
    if k == content_length_name() {
        assert(line.len() >= 15);
        assert(line.take(15) =~= p);
    }
    if is_cl_line(line) {
        assert(forall|i: int| 0 <= i < 15 ==> #[trigger] line.take(15)[i] == line[i]);
        assert(forall|i: int| 0 <= i < 15 ==> #[trigger] line[i] == p[i]);
        let lk = k.len() as int;
        if lk < 14 {
            assert(line[lk] == ':' as u8);
            assert(p[lk] == content_length_name()[lk]);
            assert(false);
        } else if lk == 14 {
            assert(forall|i: int| 0 <= i < 14 ==> #[trigger] k[i] == line[i]);
            assert(k =~= content_length_name());
        } else {
            assert(line[14] == k[14]);
            assert(p[14] == ':' as u8);
            assert(false);
        }
    }
}

proof fn lemma_user_lines_no_cl(hs: Seq<(Seq<u8>, Seq<u8>)>)
    requires
        forall|i: int|
            0 <= i < hs.len() ==> no_colon((#[trigger] hs[i]).0) && hs[i].0
                != content_length_name(),
    ensures
        count_cl_lines(user_header_lines(hs)) == 0,
    decreases hs.len(),
{
    if hs.len() > 0 {
        lemma_header_line_cl(hs[0].0, hs[0].1);
        assert(forall|i: int|
            0 <= i < hs.skip(1).len() ==> (#[trigger] hs.skip(1)[i]) == hs[i + 1]);
        lemma_user_lines_no_cl(hs.skip(1));
        assert(user_header_lines(hs)[0] == header_line(hs[0].0, hs[0].1));
        assert(user_header_lines(hs).skip(1) =~= user_header_lines(hs.skip(1)));
    }
}

/// The encoded head of a well-formed response is its lines each followed by
/// CRLF, then the empty line and the body; exactly one of those lines is a
/// `Content-Length:` line, it is the second, and its value reads back as the
/// body's exact length.
pub proof fn lemma_content_length_header(r: RespView)
    requires
        resp_wf(r),
    ensures
        spec_encode(r) == join_crlf(response_lines(r)) + crlf() + r.body,
        response_lines(r)[1] == header_line(content_length_name(), dec_bytes(r.body.len())),
        is_cl_line(response_lines(r)[1]),
        count_cl_lines(response_lines(r)) == 1,
        dec_value(dec_bytes(r.body.len())) == r.body.len(),
{
    lemma_encode_headers_join(r.headers);
    lemma_dec_round_trip(r.body.len());
    let cl_line = header_line(content_length_name(), dec_bytes(r.body.len()));
    let lines = response_lines(r);
    let user = user_header_lines(r.headers);
    assert(lines[0] == status_line(r));
    assert(lines[1] == cl_line);
    assert(lines.skip(1) =~= seq![cl_line] + user);
    assert((seq![cl_line] + user).skip(1) =~= user);
    assert((seq![cl_line] + user)[0] == cl_line);
    assert(join_crlf(seq![cl_line] + user) =~= cl_line + crlf() + join_crlf(user));
    assert(join_crlf(lines) =~= status_line(r) + crlf() + (cl_line + crlf() + join_crlf(user)));
    assert(spec_encode(r) =~= join_crlf(lines) + crlf() + r.body);
    lemma_status_line_not_cl(r);
    lemma_header_line_cl(content_length_name(), dec_bytes(r.body.len()));
    lemma_user_lines_no_cl(r.headers);
    assert(count_cl_lines(lines) == count_cl_lines(lines.skip(1)));
    assert(count_cl_lines(seq![cl_line] + user) == 1 + count_cl_lines(user));
}

/// A decoded request's path is the part of the request-target before any
/// `?`, kept verbatim, and never holds a `?` itself.
pub proof fn lemma_path_verbatim_no_query(input: Seq<u8>, req: ReqView)
    requires
        input.len() > 0,
        spec_parse_request(input) == Ok::<ReqView, ParseError>(req),
    ensures
        req.path == split_bytes(
            split_bytes(spec_read_line(input).0, ' ' as u8)[1],
            '?' as u8,
        )[0],
        forall|i: int| 0 <= i < req.path.len() ==> req.path[i] != '?' as u8,
{
    let target = split_bytes(spec_read_line(input).0, ' ' as u8)[1];
    lemma_split_len(target, '?' as u8);
    lemma_split_pieces_no_sep(target, '?' as u8);
}

// ---------------------------------------------------------------------------
// Round trip
// ---------------------------------------------------------------------------

/// Bind the entries in order, later entries overriding earlier ones: what
/// the header phase of the decoder accumulates.
pub open spec fn kv_upsert_all(
    acc: Seq<(Seq<u8>, Seq<u8>)>,
    hs: Seq<(Seq<u8>, Seq<u8>)>,
) -> Seq<(Seq<u8>, Seq<u8>)>
    decreases hs.len(),
{
    if hs.len() == 0 {
        acc
    } else {
        kv_upsert_all(kv_upsert(acc, hs[0].0, hs[0].1), hs.skip(1))
    }
}

proof fn lemma_get_after_upserts(
    acc: Seq<(Seq<u8>, Seq<u8>)>,
    hs: Seq<(Seq<u8>, Seq<u8>)>,
    key: Seq<u8>,
)
    requires
        kv_keys_unique(hs),
    ensures
        kv_get(kv_upsert_all(acc, hs), key) == (match kv_get(hs, key) {
            Some(v) => Some(v),
            None => kv_get(acc, key),
        }),
    decreases hs.len(),
{
    if hs.len() > 0 {
        let acc2 = kv_upsert(acc, hs[0].0, hs[0].1);
        assert(forall|i: int|
            0 <= i < hs.skip(1).len() ==> (#[trigger] hs.skip(1)[i]) == hs[i + 1]);
        lemma_get_after_upserts(acc2, hs.skip(1), key);
        if kv_get(hs.skip(1), key) is Some {
            lemma_kv_get_some_index(hs.skip(1), key);
            let j = choose|j: int|
                0 <= j < hs.skip(1).len() && (#[trigger] hs.skip(1)[j]).0 == key;
            assert(hs[j + 1].0 == key);
            assert(hs[0].0 != key);
        } else {
            if hs[0].0 == key {
                lemma_kv_get_upsert_same(acc, key, hs[0].1);
            } else {
                lemma_kv_get_upsert_other(acc, hs[0].0, hs[0].1, key);
            }
        }
    }
}

/// One header entry as the decoder requires it: a clean, colon-free name and
/// a clean value.
pub open spec fn header_entry_wf(e: (Seq<u8>, Seq<u8>)) -> bool {
    clean_field(e.0) && no_colon(e.0) && clean_field(e.1)
}

proof fn lemma_trimmed_header_value(v: Seq<u8>)
    requires
        clean_field(v),
    ensures
        trimmed(seq![' ' as u8] + v) == v,
{
    let s = seq![' ' as u8] + v;
    assert(is_ws(' ' as u8));
    assert(s.skip(1) =~= v);
    lemma_trimmed_id(v);
}

/// Parsing the encoding of a header block: each `name: value CRLF` line in
/// turn, then the empty line; the entries are bound in order and the bytes
/// after the empty line are left for the body phase.
proof fn lemma_parse_header_block(
    hs: Seq<(Seq<u8>, Seq<u8>)>,
    acc: Seq<(Seq<u8>, Seq<u8>)>,
    tail: Seq<u8>,
)
    requires
        forall|i: int| 0 <= i < hs.len() ==> header_entry_wf(#[trigger] hs[i]),
    ensures
        spec_parse_headers(encode_headers(hs) + crlf() + tail, acc) == Ok::<
            (Seq<(Seq<u8>, Seq<u8>)>, Seq<u8>),
            ParseError,
        >((kv_upsert_all(acc, hs), tail)),
    decreases hs.len(),
{
    if hs.len() == 0 {
        let s = crlf() + tail;
        assert(encode_headers(hs) + crlf() + tail =~= s);
        assert(s[0] == 13 && s[1] == 10);
        assert(spec_read_line(s).0 =~= Seq::<u8>::empty());
        assert(spec_read_line(s).1 =~= tail);
    } else {
        let k = hs[0].0;
        let v = hs[0].1;
        let line = header_line(k, v);
        let rest = encode_headers(hs.skip(1)) + crlf() + tail;
        let s = encode_headers(hs) + crlf() + tail;
        assert(s =~= line + crlf() + rest);
        assert forall|i: int| 0 <= i < line.len() implies (#[trigger] line[i]) != 10 by {
            if i < k.len() {
                assert(line[i] == k[i]);
            } else if i == k.len() {
                assert(line[i] == ':' as u8);
            } else if i == k.len() + 1 {
                assert(line[i] == ' ' as u8);
            } else {
                assert(line[i] == v[i - k.len() - 2]);
            }
        }
        lemma_read_line_concat(line, rest);
        assert(line.len() > 0);
        assert forall|i: int| 0 <= i < k.len() implies (#[trigger] line[i]) != ':' as u8 by {
            assert(line[i] == k[i]);
        }
        assert(line[k.len() as int] == ':' as u8);
        lemma_split_at_first_sep(line, ':' as u8, k.len() as int);
        let parts = split_bytes(line, ':' as u8);
        lemma_split_len(line.skip(k.len() as int + 1), ':' as u8);
        assert(parts[0] =~= k);
        lemma_trimmed_id(k);
        assert(trimmed(parts[0]) == k);
        assert(line.skip(k.len() as int + 1) =~= seq![' ' as u8] + v);
        lemma_trimmed_header_value(v);
        assert(forall|i: int|
            0 <= i < hs.skip(1).len() ==> header_entry_wf(#[trigger] hs.skip(1)[i]));
        lemma_parse_header_block(hs.skip(1), kv_upsert(acc, k, v), tail);
        assert(spec_parse_headers(s, acc) == spec_parse_headers(rest, kv_upsert(acc, k, v)));
    }
}

/// Round trip: encode a response, put a request line in place of the status
/// line, and decode. The method, path and version read back as given, the
/// body survives byte for byte, the `Content-Length` header holds the body's
/// length, and every user header reads back under its name.
pub proof fn lemma_encode_decode_round_trip(m: HttpMethod, path: Seq<u8>, r: RespView)
    requires
        resp_wf(r),
        forall|k: int| 0 <= k < r.version.len() ==> (#[trigger] r.version[k]) != ' ' as u8,
        forall|k: int|
            0 <= k < path.len() ==> (#[trigger] path[k]) != ' ' as u8 && path[k] != '?' as u8
                && path[k] != 13 && path[k] != 10,
        kv_keys_unique(r.headers),
        r.body.len() <= usize::MAX,
    ensures
        ({
            let request_line = method_bytes(m) + seq![' ' as u8] + path + seq![' ' as u8]
                + r.version;
            let input = request_line + crlf() + spec_encode(r).skip(
                status_line(r).len() as int + 2,
            );
            match spec_parse_request(input) {
                Ok(req) => {
                    &&& req.method == m
                    &&& req.path == path
                    &&& req.version == r.version
                    &&& req.body == r.body
                    &&& kv_get(req.headers, content_length_name()) == Some(
                        dec_bytes(r.body.len()),
                    )
                    &&& forall|k: Seq<u8>|
                        k != content_length_name() ==> #[trigger] kv_get(req.headers, k)
                            == kv_get(r.headers, k)
                    &&& req.query_params == Seq::<(Seq<u8>, Option<Seq<u8>>)>::empty()
                    &&& req.params == Seq::<(Seq<u8>, Seq<u8>)>::empty()
                },
                Err(_) => false,
            }
        }),
{
    let mb = method_bytes(m);
    let cl = content_length_name();
    let dec = dec_bytes(r.body.len());
    let cl_line = header_line(cl, dec);
    let rest_enc = cl_line + crlf() + encode_headers(r.headers) + crlf() + r.body;
    assert(spec_encode(r).skip(status_line(r).len() as int + 2) =~= rest_enc);
    let request_line = mb + seq![' ' as u8] + path + seq![' ' as u8] + r.version;
    let input = request_line + crlf() + rest_enc;
    assert(input.len() > 0);
    lemma_method_bytes_wf(m);
    // The request line reads back whole.
    assert forall|k: int| 0 <= k < request_line.len() implies (#[trigger] request_line[k])
        != 10 by {
        if k < mb.len() {
            assert(request_line[k] == mb[k]);
        } else if k == mb.len() {
            assert(request_line[k] == ' ' as u8);
        } else if k < mb.len() + 1 + path.len() {
            assert(request_line[k] == path[k - mb.len() - 1]);
        } else if k == mb.len() + 1 + path.len() {
            assert(request_line[k] == ' ' as u8);
        } else {
            assert(request_line[k] == r.version[k - mb.len() - 2 - path.len()]);
        }
    }
    lemma_read_line_concat(request_line, rest_enc);
    // Three fields: method, target, version.
    assert forall|k: int| 0 <= k < mb.len() implies (#[trigger] request_line[k]) != ' ' as u8 by {
        assert(request_line[k] == mb[k]);
    }
    assert(request_line[mb.len() as int] == ' ' as u8);
    lemma_split_at_first_sep(request_line, ' ' as u8, mb.len() as int);
    let tail1 = path + seq![' ' as u8] + r.version;
    assert(request_line.skip(mb.len() as int + 1) =~= tail1);
    assert(request_line.take(mb.len() as int) =~= mb);
    assert forall|k: int| 0 <= k < path.len() implies (#[trigger] tail1[k]) != ' ' as u8 by {
        assert(tail1[k] == path[k]);
    }
    assert(tail1[path.len() as int] == ' ' as u8);
    lemma_split_at_first_sep(tail1, ' ' as u8, path.len() as int);
    assert(tail1.take(path.len() as int) =~= path);
    assert(tail1.skip(path.len() as int + 1) =~= r.version);
    lemma_split_no_sep(r.version, ' ' as u8);
    let fields = split_bytes(request_line, ' ' as u8);
    assert(fields =~= seq![mb, path, r.version]);
    lemma_method_round_trip(m);
    // The target holds no query.
    lemma_split_no_sep(path, '?' as u8);
    assert(split_bytes(path, '?' as u8) =~= seq![path]);
    // The header block: the Content-Length line, then the user headers.
    lemma_cl_name_chars();
    lemma_dec_bytes_digits(r.body.len());
    assert(clean_field(cl)) by {
        assert(cl[0] == 'C' as u8);
        assert(cl[13] == 'h' as u8);
    }
    assert(clean_field(dec)) by {
        assert(48 <= dec[0] <= 57);
        assert(48 <= dec[dec.len() - 1] <= 57);
    }
    let cons = seq![(cl, dec)] + r.headers;
    assert(forall|i: int| 0 <= i < r.headers.len() ==> header_entry_wf(#[trigger] r.headers[i]));
    assert forall|i: int| 0 <= i < cons.len() implies header_entry_wf(#[trigger] cons[i]) by {
        if i > 0 {
            assert(cons[i] == r.headers[i - 1]);
        }
    }
    assert(encode_headers(cons) =~= cl_line + crlf() + encode_headers(r.headers)) by {
        assert(cons[0] == (cl, dec));
        assert(cons.skip(1) =~= r.headers);
    }
    lemma_parse_header_block(cons, Seq::empty(), r.body);
    assert(rest_enc =~= encode_headers(cons) + crlf() + r.body);
    let hs_res = kv_upsert_all(Seq::empty(), cons);
    assert(spec_parse_headers(rest_enc, Seq::empty()) == Ok::<
        (Seq<(Seq<u8>, Seq<u8>)>, Seq<u8>),
        ParseError,
    >((hs_res, r.body)));
    // The accumulated headers answer lookups like the response's own, plus
    // the Content-Length entry.
    assert forall|i: int, j: int| 0 <= i < j < cons.len() implies (#[trigger] cons[i]).0 != (
    #[trigger] cons[j]).0 by {
        if i == 0 {
            assert(cons[j].0 == r.headers[j - 1].0);
        } else {
            assert(cons[i].0 == r.headers[i - 1].0);
            assert(cons[j].0 == r.headers[j - 1].0);
        }
    }
    lemma_get_after_upserts(Seq::empty(), cons, cl);
    assert(kv_get(cons, cl) == Some(dec));
    assert(kv_get(hs_res, cl) == Some(dec));
    assert forall|k: Seq<u8>| k != cl implies #[trigger] kv_get(hs_res, k) == kv_get(
        r.headers,
        k,
    ) by {
        lemma_get_after_upserts(Seq::empty(), cons, k);
        assert(cons.skip(1) =~= r.headers);
        assert(kv_get(cons, k) == kv_get(r.headers, k));
        if kv_get(r.headers, k) is None {
            assert(kv_get(Seq::<(Seq<u8>, Seq<u8>)>::empty(), k) == None::<Seq<u8>>);
        }
    }
    // The body is framed by the Content-Length value exactly.
    lemma_dec_round_trip(r.body.len());
    assert(dec_value(dec) == r.body.len());
    assert(r.body.take(r.body.len() as int) =~= r.body);
}

// ---------------------------------------------------------------------------
// Tie-break
// ---------------------------------------------------------------------------

pub open spec fn user_seg() -> Seq<u8> {
    seq!['u' as u8, 's' as u8, 'e' as u8, 'r' as u8]
}

pub open spec fn admin_seg() -> Seq<u8> {
    seq!['a' as u8, 'd' as u8, 'm' as u8, 'i' as u8, 'n' as u8]
}

pub open spec fn id_pattern_seg() -> Seq<u8> {
    seq![':' as u8, 'i' as u8, 'd' as u8]
}

pub open spec fn id_name() -> Seq<u8> {
    seq!['i' as u8, 'd' as u8]
}

/// Static beats Param: with the patterns `/user/admin` and `/user/:id` both
/// registered for GET, the path `/user/admin` resolves to the static handler
/// and binds nothing, while `/user/<other>` for any other non-empty segment
/// resolves to the param handler and binds it to `id`.
pub proof fn lemma_static_beats_param(h_static: Handler, h_param: Handler, other: Seq<u8>)
    requires
        other.len() > 0,
        other != admin_seg(),
    ensures
        ({
            let e = Seq::<u8>::empty();
            let router = spec_insert(
                spec_insert(
                    empty_node(),
                    HttpMethod::Get,
                    seq![e, user_seg(), admin_seg()],
                    h_static,
                ),
                HttpMethod::Get,
                seq![e, user_seg(), id_pattern_seg()],
                h_param,
            );
            spec_match(router, HttpMethod::Get, seq![e, user_seg(), admin_seg()]) == Some(
                (h_static, Seq::<(Seq<u8>, Seq<u8>)>::empty()),
            ) && spec_match(router, HttpMethod::Get, seq![e, user_seg(), other]) == Some(
                (h_param, seq![(id_name(), other)]),
            )
        }),
{
    reveal_with_fuel(child_for, 4);
    reveal_with_fuel(child_set, 4);
    reveal_with_fuel(try_params, 4);
    reveal_with_fuel(handler_for, 3);
    reveal_with_fuel(handlers_upsert, 3);
    let e = Seq::<u8>::empty();
    let m = HttpMethod::Get;
    let segs_admin = seq![e, user_seg(), admin_seg()];
    let segs_id = seq![e, user_seg(), id_pattern_seg()];
    let segs_other = seq![e, user_seg(), other];
    assert(segs_admin.skip(1) =~= seq![user_seg(), admin_seg()]);
    assert(seq![user_seg(), admin_seg()].skip(1) =~= seq![admin_seg()]);
    assert(seq![admin_seg()].skip(1) =~= Seq::<Seq<u8>>::empty());
    assert(segs_id.skip(1) =~= seq![user_seg(), id_pattern_seg()]);
    assert(seq![user_seg(), id_pattern_seg()].skip(1) =~= seq![id_pattern_seg()]);
    assert(seq![id_pattern_seg()].skip(1) =~= Seq::<Seq<u8>>::empty());
    assert(segs_other.skip(1) =~= seq![user_seg(), other]);
    assert(seq![user_seg(), other].skip(1) =~= seq![other]);
    assert(seq![other].skip(1) =~= Seq::<Seq<u8>>::empty());
    // How each pattern segment is read.
    assert(classify_segment(e) == ItemView::Static(e));
    assert(classify_segment(user_seg()) == ItemView::Static(user_seg()));
    assert(classify_segment(admin_seg()) == ItemView::Static(admin_seg()));
    assert(id_pattern_seg().skip(1) =~= id_name());
    assert(classify_segment(id_pattern_seg()) == ItemView::Param(id_name()));
    // Registering /user/admin.
    let n_leaf1 = NodeView {
        handlers: seq![(m, h_static)],
        children: Seq::<(ItemView, NodeView)>::empty(),
    };
    assert(handlers_upsert(empty_node().handlers, m, h_static) =~= seq![(m, h_static)]);
    assert(spec_insert(empty_node(), m, Seq::empty(), h_static) =~= n_leaf1);
    let n_admin = NodeView {
        handlers: Seq::empty(),
        children: seq![(ItemView::Static(admin_seg()), n_leaf1)],
    };
    assert(child_for(empty_node().children, ItemView::Static(admin_seg())) is None);
    assert(child_set(empty_node().children, ItemView::Static(admin_seg()), n_leaf1) =~= seq![
        (ItemView::Static(admin_seg()), n_leaf1),
    ]);
    assert(spec_insert(empty_node(), m, seq![admin_seg()], h_static) =~= n_admin);
    let n_user1 = NodeView {
        handlers: Seq::empty(),
        children: seq![(ItemView::Static(user_seg()), n_admin)],
    };
    assert(child_for(empty_node().children, ItemView::Static(user_seg())) is None);
    assert(child_set(empty_node().children, ItemView::Static(user_seg()), n_admin) =~= seq![
        (ItemView::Static(user_seg()), n_admin),
    ]);
    assert(spec_insert(empty_node(), m, seq![user_seg(), admin_seg()], h_static) =~= n_user1);
    let n_root1 = NodeView {
        handlers: Seq::empty(),
        children: seq![(ItemView::Static(e), n_user1)],
    };
    assert(child_for(empty_node().children, ItemView::Static(e)) is None);
    assert(child_set(empty_node().children, ItemView::Static(e), n_user1) =~= seq![
        (ItemView::Static(e), n_user1),
    ]);
    assert(spec_insert(empty_node(), m, segs_admin, h_static) =~= n_root1);
    // Registering /user/:id on top of it.
    let n_leaf2 = NodeView {
        handlers: seq![(m, h_param)],
        children: Seq::<(ItemView, NodeView)>::empty(),
    };
    assert(handlers_upsert(empty_node().handlers, m, h_param) =~= seq![(m, h_param)]);
    assert(spec_insert(empty_node(), m, Seq::empty(), h_param) =~= n_leaf2);
    let n_admin2 = NodeView {
        handlers: Seq::empty(),
        children: seq![
            (ItemView::Static(admin_seg()), n_leaf1),
            (ItemView::Param(id_name()), n_leaf2),
        ],
    };
    assert(n_admin.children.skip(1) =~= Seq::<(ItemView, NodeView)>::empty());
    assert(child_for(Seq::<(ItemView, NodeView)>::empty(), ItemView::Param(id_name())) is None);
    assert(child_set(Seq::<(ItemView, NodeView)>::empty(), ItemView::Param(id_name()), n_leaf2)
        =~= seq![(ItemView::Param(id_name()), n_leaf2)]);
    assert(child_for(n_admin.children, ItemView::Param(id_name())) is None);
    assert(child_set(n_admin.children, ItemView::Param(id_name()), n_leaf2) =~= n_admin2.children);
    assert(spec_insert(n_admin, m, seq![id_pattern_seg()], h_param) =~= n_admin2);
    let n_user2 = NodeView {
        handlers: Seq::empty(),
        children: seq![(ItemView::Static(user_seg()), n_admin2)],
    };
    assert(child_for(n_user1.children, ItemView::Static(user_seg())) == Some(n_admin));
    assert(child_set(n_user1.children, ItemView::Static(user_seg()), n_admin2) =~= n_user2.children);
    assert(spec_insert(n_user1, m, seq![user_seg(), id_pattern_seg()], h_param) =~= n_user2);
    let n_root2 = NodeView {
        handlers: Seq::empty(),
        children: seq![(ItemView::Static(e), n_user2)],
    };
    assert(child_for(n_root1.children, ItemView::Static(e)) == Some(n_user1));
    assert(child_set(n_root1.children, ItemView::Static(e), n_user2) =~= n_root2.children);
    assert(spec_insert(n_root1, m, segs_id, h_param) =~= n_root2);
    // The static path resolves to the static handler, binding nothing.
    assert(handler_for(n_leaf1.handlers, m) == Some(h_static));
    assert(spec_match(n_leaf1, m, Seq::empty()) == Some(
        (h_static, Seq::<(Seq<u8>, Seq<u8>)>::empty()),
    ));
    assert(child_for(n_admin2.children, ItemView::Static(admin_seg())) == Some(n_leaf1));
    assert(spec_match(n_admin2, m, seq![admin_seg()]) == Some(
        (h_static, Seq::<(Seq<u8>, Seq<u8>)>::empty()),
    ));
    assert(child_for(n_user2.children, ItemView::Static(user_seg())) == Some(n_admin2));
    assert(spec_match(n_user2, m, seq![user_seg(), admin_seg()]) == Some(
        (h_static, Seq::<(Seq<u8>, Seq<u8>)>::empty()),
    ));
    assert(child_for(n_root2.children, ItemView::Static(e)) == Some(n_user2));
    assert(spec_match(n_root2, m, segs_admin) == Some(
        (h_static, Seq::<(Seq<u8>, Seq<u8>)>::empty()),
    ));
    // Any other non-empty segment resolves to the param handler.
    assert(n_admin2.children.skip(1) =~= seq![(ItemView::Param(id_name()), n_leaf2)]);
    assert(seq![(ItemView::Param(id_name()), n_leaf2)].skip(1) =~= Seq::<
        (ItemView, NodeView),
    >::empty());
    assert(child_for(n_admin2.children, ItemView::Static(other)) is None);
    assert(handler_for(n_leaf2.handlers, m) == Some(h_param));
    assert(spec_match(n_leaf2, m, Seq::empty()) == Some(
        (h_param, Seq::<(Seq<u8>, Seq<u8>)>::empty()),
    ));
    assert(Seq::<(Seq<u8>, Seq<u8>)>::empty().push((id_name(), other)) =~= seq![
        (id_name(), other),
    ]);
    assert(try_params(n_admin2.children.skip(1), m, seq![other]) == Some(
        (h_param, seq![(id_name(), other)]),
    ));
    assert(try_params(n_admin2.children, m, seq![other]) == Some(
        (h_param, seq![(id_name(), other)]),
    ));
    assert(spec_match(n_admin2, m, seq![other]) == Some((h_param, seq![(id_name(), other)])));
    assert(spec_match(n_user2, m, seq![user_seg(), other]) == Some(
        (h_param, seq![(id_name(), other)]),
    ));
    assert(spec_match(n_root2, m, segs_other) == Some((h_param, seq![(id_name(), other)])));
}

/// The matcher is deterministic: the outcome is a function of the router's
/// trie and the request value alone.
pub proof fn lemma_match_deterministic(r1: RouterView, r2: RouterView, q1: ReqView, q2: ReqView)
    requires
        r1 == r2,
        q1 == q2,
    ensures
        spec_match(r1.root, q1.method, split_bytes(q1.path, '/' as u8)) == spec_match(
            r2.root,
            q2.method,
            split_bytes(q2.path, '/' as u8),
        ),
{
}

} // verus!
