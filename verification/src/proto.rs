//! The wire protocol: one request frame and one response frame per
//! connection, each a self-delimiting textual object in the same shape as
//! the log records, so a reader can finish a frame without waiting for the
//! connection to close.

use vstd::prelude::*;

use crate::chars::{chars_to_string, str_to_chars};
use crate::codec::{
    decode_command, decode_string, encode_cmd, esc, parse_cmd, parse_str, push_escaped,
    record_suffix, rm_prefix, set_prefix, starts_with, lemma_parse_cmd_complete,
    lemma_parse_str_complete,
};
use crate::command::{Command, CommandView};
use crate::error::KVStoreError;
use crate::kv_store::KvStore;

verus! {

/// The mathematical shape of a request.
pub enum RequestView {
    /// Read a key.
    GET(Seq<char>),
    /// Set a key to a value.
    SET(Seq<char>, Seq<char>),
    /// Remove a key.
    RM(Seq<char>),
}

/// One request, as carried over a connection.
#[derive(Debug, Clone)]
pub enum Request {
    /// Read a key.
    GET(String),
    /// Set a key to a value.
    SET(String, String),
    /// Remove a key.
    RM(String),
}

impl View for Request {
    type V = RequestView;

    open spec fn view(&self) -> RequestView {
        match self {
            Request::GET(k) => RequestView::GET(k@),
            Request::SET(k, v) => RequestView::SET(k@, v@),
            Request::RM(k) => RequestView::RM(k@),
        }
    }
}

/// The mathematical shape of a response.
pub enum ResponseView {
    /// The operation succeeded; a read carries the value it found.
    Value(Option<Seq<char>>),
    /// The operation failed, with a human-readable message.
    Error(Seq<char>),
}

/// One response, as carried over a connection.
#[derive(Debug, Clone)]
pub enum Response {
    /// The operation succeeded; a read carries the value it found.
    Value(Option<String>),
    /// The operation failed, with a human-readable message.
    Error(String),
}

impl View for Response {
    type V = ResponseView;

    open spec fn view(&self) -> ResponseView {
        match self {
            Response::Value(ov) => ResponseView::Value(
                match ov {
                    Some(v) => Some(v@),
                    None => None,
                },
            ),
            Response::Error(m) => ResponseView::Error(m@),
        }
    }
}

/// The opening of a `GET` frame, up to and including the key's quote.
pub open spec fn get_prefix() -> Seq<char> {
    seq!['{', '"', 'G', 'E', 'T', '"', ':', '[', '"']
}

/// The opening of an `OK` frame carrying a value.
pub open spec fn ok_prefix() -> Seq<char> {
    seq!['{', '"', 'O', 'K', '"', ':', '[', '"']
}

/// The whole frame that reports success without a value.
pub open spec fn none_frame() -> Seq<char> {
    seq!['{', '"', 'N', 'O', 'N', 'E', '"', ':', '[', ']', '}']
}

/// The opening of an `ERR` frame, up to and including the message's quote.
pub open spec fn err_prefix() -> Seq<char> {
    seq!['{', '"', 'E', 'R', 'R', '"', ':', '[', '"']
}

/// The text of one encoded request frame.
pub open spec fn encode_req(rv: RequestView) -> Seq<char> {
    match rv {
        RequestView::GET(k) => get_prefix() + esc(k) + seq!['"'] + record_suffix(),
        RequestView::SET(k, v) => encode_cmd(CommandView::SET(k, v)),
        RequestView::RM(k) => encode_cmd(CommandView::RM(k)),
    }
}

/// Reads one request frame from the head of `s`.
pub open spec fn parse_req(s: Seq<char>) -> Option<(RequestView, int)> {
    if starts_with(s, get_prefix()) {
        match parse_str(s.skip(9)) {
            Some((k, n1)) => if s.len() >= 9 + n1 + 2 && s[9 + n1] == ']' && s[9 + n1 + 1]
                == '}' {
                Some((RequestView::GET(k), 9 + n1 + 2))
            } else {
                None
            },
            None => None,
        }
    } else {
        match parse_cmd(s) {
            Some((c, n)) => match c {
                CommandView::SET(k, v) => Some((RequestView::SET(k, v), n)),
                CommandView::RM(k) => Some((RequestView::RM(k), n)),
            },
            None => None,
        }
    }
}

/// The text of one encoded response frame.
pub open spec fn encode_resp(pv: ResponseView) -> Seq<char> {
    match pv {
        ResponseView::Value(Some(v)) => ok_prefix() + esc(v) + seq!['"'] + record_suffix(),
        ResponseView::Value(None) => none_frame(),
        ResponseView::Error(m) => err_prefix() + esc(m) + seq!['"'] + record_suffix(),
    }
}

/// Reads one response frame from the head of `s`.
pub open spec fn parse_resp(s: Seq<char>) -> Option<(ResponseView, int)> {
    if starts_with(s, none_frame()) {
        Some((ResponseView::Value(None), 11))
    } else if starts_with(s, ok_prefix()) {
        match parse_str(s.skip(8)) {
            Some((v, n1)) => if s.len() >= 8 + n1 + 2 && s[8 + n1] == ']' && s[8 + n1 + 1]
                == '}' {
                Some((ResponseView::Value(Some(v)), 8 + n1 + 2))
            } else {
                None
            },
            None => None,
        }
    } else if starts_with(s, err_prefix()) {
        match parse_str(s.skip(9)) {
            Some((m, n1)) => if s.len() >= 9 + n1 + 2 && s[9 + n1] == ']' && s[9 + n1 + 1]
                == '}' {
                Some((ResponseView::Error(m), 9 + n1 + 2))
            } else {
                None
            },
            None => None,
        }
    } else {
        None
    }
}

/// Reading one request frame succeeds on the encoding of any request
/// followed by anything, consumes exactly the encoding, and hands the
/// request back.
pub proof fn lemma_parse_req_complete(rv: RequestView, rest: Seq<char>)
    ensures
        parse_req(encode_req(rv) + rest) == Some((rv, encode_req(rv).len() as int)),
{
    let s = encode_req(rv) + rest;
    match rv {
        RequestView::GET(k) => {
            let n1: int = esc(k).len() as int + 1;
            assert(starts_with(s, get_prefix())) by {
                assert(s.take(9) =~= get_prefix());
            }
            assert(s.skip(9) =~= esc(k) + seq!['"'] + (record_suffix() + rest));
            lemma_parse_str_complete(k, record_suffix() + rest);
            assert(parse_str(s.skip(9)) == Some((k, n1)));
            assert(s.len() >= 9 + n1 + 2);
            assert(s[9 + n1] == ']');
            assert(s[9 + n1 + 1] == '}');
            assert(encode_req(rv).len() == 9 + n1 + 2);
        },
        RequestView::SET(k, v) => {
            assert(!starts_with(s, get_prefix())) by {
                assert(s[2] == 'S');
                if starts_with(s, get_prefix()) {
                    assert(s.take(9)[2] == 'G');
                }
            }
            lemma_parse_cmd_complete(CommandView::SET(k, v), rest);
        },
        RequestView::RM(k) => {
            assert(!starts_with(s, get_prefix())) by {
                assert(s[2] == 'R');
                if starts_with(s, get_prefix()) {
                    assert(s.take(9)[2] == 'G');
                }
            }
            lemma_parse_cmd_complete(CommandView::RM(k), rest);
        },
    }
}

/// Reading one response frame succeeds on the encoding of any response
/// followed by anything, consumes exactly the encoding, and hands the
/// response back.
pub proof fn lemma_parse_resp_complete(pv: ResponseView, rest: Seq<char>)
    ensures
        parse_resp(encode_resp(pv) + rest) == Some((pv, encode_resp(pv).len() as int)),
{
    let s = encode_resp(pv) + rest;
    match pv {
        ResponseView::Value(None) => {
            assert(starts_with(s, none_frame())) by {
                assert(s.take(11) =~= none_frame());
            }
        },
        ResponseView::Value(Some(v)) => {
            let n1: int = esc(v).len() as int + 1;
            assert(!starts_with(s, none_frame())) by {
                assert(s[2] == 'O');
                if starts_with(s, none_frame()) {
                    assert(s.take(11)[2] == 'N');
                }
            }
            assert(starts_with(s, ok_prefix())) by {
                assert(s.take(8) =~= ok_prefix());
            }
            assert(s.skip(8) =~= esc(v) + seq!['"'] + (record_suffix() + rest));
            lemma_parse_str_complete(v, record_suffix() + rest);
            assert(parse_str(s.skip(8)) == Some((v, n1)));
            assert(s.len() >= 8 + n1 + 2);
            assert(s[8 + n1] == ']');
            assert(s[8 + n1 + 1] == '}');
            assert(encode_resp(pv).len() == 8 + n1 + 2);
        },
        ResponseView::Error(m) => {
            let n1: int = esc(m).len() as int + 1;
            assert(!starts_with(s, none_frame())) by {
                assert(s[2] == 'E');
                if starts_with(s, none_frame()) {
                    assert(s.take(11)[2] == 'N');
                }
            }
            assert(!starts_with(s, ok_prefix())) by {
                assert(s[2] == 'E');
                if starts_with(s, ok_prefix()) {
                    assert(s.take(8)[2] == 'O');
                }
            }
            assert(starts_with(s, err_prefix())) by {
                assert(s.take(9) =~= err_prefix());
            }
            assert(s.skip(9) =~= esc(m) + seq!['"'] + (record_suffix() + rest));
            lemma_parse_str_complete(m, record_suffix() + rest);
            assert(parse_str(s.skip(9)) == Some((m, n1)));
            assert(s.len() >= 9 + n1 + 2);
            assert(s[9 + n1] == ']');
            assert(s[9 + n1 + 1] == '}');
            assert(encode_resp(pv).len() == 9 + n1 + 2);
        },
    }
}

/// The encoded text of one request frame.
pub fn encode_request(rq: &Request) -> (r: Vec<char>)
    ensures
        r@ == encode_req(rq@),
{
    match rq {
        Request::GET(k) => {
            let mut out: Vec<char> = Vec::new();
            out.push('{');
            out.push('"');
            out.push('G');
            out.push('E');
            out.push('T');
            out.push('"');
            out.push(':');
            out.push('[');
            out.push('"');
            proof {
                assert(out@ =~= get_prefix());
            }
            let kc = str_to_chars(k.as_str());
            push_escaped(&mut out, &kc);
            out.push('"');
            out.push(']');
            out.push('}');
            proof {
                assert(out@ =~= encode_req(rq@));
            }
            out
        },
        Request::SET(k, v) => {
            let c = Command::SET(k.clone(), v.clone());
            crate::codec::encode_command(&c)
        },
        Request::RM(k) => {
            let c = Command::RM(k.clone());
            crate::codec::encode_command(&c)
        },
    }
}

/// Reads exactly one request frame from `data` at `pos`: the request and
/// the count of characters consumed. `Serde` if no frame begins there.
pub fn decode_request(data: &Vec<char>, pos: usize) -> (r: Result<(Request, usize), KVStoreError>)
    requires
        pos <= data.len(),
    ensures
        r matches Ok(p) ==> parse_req(data@.skip(pos as int)) == Some((p.0@, p.1 as int))
            && 1 <= p.1 && pos + p.1 <= data.len(),
        r matches Err(e) ==> (parse_req(data@.skip(pos as int)) is None && e is Serde),
{
    let ghost s = data@.skip(pos as int);
    let n = data.len();
    let get_pref = n - pos >= 9 && data[pos] == '{' && data[pos + 1] == '"' && data[pos + 2]
        == 'G' && data[pos + 3] == 'E' && data[pos + 4] == 'T' && data[pos + 5] == '"' && data[pos
        + 6] == ':' && data[pos + 7] == '[' && data[pos + 8] == '"';
    proof {
        assert forall|j: int| 0 <= j < s.len() implies s[j] == data@[pos + j] by {}
        if get_pref {
            assert(s.take(9) =~= get_prefix());
        }
        if starts_with(s, get_prefix()) {
            assert forall|j: int| 0 <= j < 9 implies s[j] == get_prefix()[j] by {
                assert(s.take(9)[j] == s[j]);
            }
        }
        assert(get_pref == starts_with(s, get_prefix()));
    }
    if get_pref {
        match decode_string(data, pos + 9) {
            None => {
                proof {
                    assert(s.skip(9) =~= data@.skip(pos + 9));
                }
                Err(KVStoreError::Serde(String::from_str("invalid request frame")))
            },
            Some(kp) => {
                let (kchars, n1) = kp;
                proof {
                    assert(s.skip(9) =~= data@.skip(pos + 9));
                    crate::codec::lemma_parse_str_sound(s.skip(9));
                }
                let after_k = pos + 9 + n1;
                if n - after_k >= 2 && data[after_k] == ']' && data[after_k + 1] == '}' {
                    proof {
                        assert(s[9 + n1 as int] == data@[after_k as int]);
                        assert(s[9 + n1 as int + 1] == data@[after_k + 1]);
                    }
                    Ok((Request::GET(chars_to_string(&kchars)), after_k + 2 - pos))
                } else {
                    Err(KVStoreError::Serde(String::from_str("invalid request frame")))
                }
            },
        }
    } else {
        match decode_command(data, pos) {
            Ok(dc) => {
                let (cmd, cnt) = dc;
                match cmd {
                    Command::SET(k, v) => Ok((Request::SET(k, v), cnt)),
                    Command::RM(k) => Ok((Request::RM(k), cnt)),
                }
            },
            Err(e) => Err(e),
        }
    }
}

/// The encoded text of one response frame.
pub fn encode_response(resp: &Response) -> (r: Vec<char>)
    ensures
        r@ == encode_resp(resp@),
{
    let mut out: Vec<char> = Vec::new();
    match resp {
        Response::Value(ov) => match ov {
            None => {
                out.push('{');
                out.push('"');
                out.push('N');
                out.push('O');
                out.push('N');
                out.push('E');
                out.push('"');
                out.push(':');
                out.push('[');
                out.push(']');
                out.push('}');
                proof {
                    assert(out@ =~= none_frame());
                }
            },
            Some(v) => {
                out.push('{');
                out.push('"');
                out.push('O');
                out.push('K');
                out.push('"');
                out.push(':');
                out.push('[');
                out.push('"');
                proof {
                    assert(out@ =~= ok_prefix());
                }
                let vc = str_to_chars(v.as_str());
                push_escaped(&mut out, &vc);
                out.push('"');
                out.push(']');
                out.push('}');
                proof {
                    assert(out@ =~= encode_resp(resp@));
                }
            },
        },
        Response::Error(m) => {
            out.push('{');
            out.push('"');
            out.push('E');
            out.push('R');
            out.push('R');
            out.push('"');
            out.push(':');
            out.push('[');
            out.push('"');
            proof {
                assert(out@ =~= err_prefix());
            }
            let mc = str_to_chars(m.as_str());
            push_escaped(&mut out, &mc);
            out.push('"');
            out.push(']');
            out.push('}');
            proof {
                assert(out@ =~= encode_resp(resp@));
            }
        },
    }
    out
}

/// Reads exactly one response frame from `data` at `pos`: the response
/// and the count of characters consumed. `Serde` if no frame begins there.
pub fn decode_response(data: &Vec<char>, pos: usize) -> (r: Result<
    (Response, usize),
    KVStoreError,
>)
    requires
        pos <= data.len(),
    ensures
        r matches Ok(p) ==> parse_resp(data@.skip(pos as int)) == Some((p.0@, p.1 as int))
            && 1 <= p.1 && pos + p.1 <= data.len(),
        r matches Err(e) ==> (parse_resp(data@.skip(pos as int)) is None && e is Serde),
{
    let ghost s = data@.skip(pos as int);
    let n = data.len();
    proof {
        assert forall|j: int| 0 <= j < s.len() implies s[j] == data@[pos + j] by {}
    }
    let none_pref = n - pos >= 11 && data[pos] == '{' && data[pos + 1] == '"' && data[pos + 2]
        == 'N' && data[pos + 3] == 'O' && data[pos + 4] == 'N' && data[pos + 5] == 'E' && data[pos
        + 6] == '"' && data[pos + 7] == ':' && data[pos + 8] == '[' && data[pos + 9] == ']'
        && data[pos + 10] == '}';
    proof {
        if none_pref {
            assert(s.take(11) =~= none_frame());
        }
        if starts_with(s, none_frame()) {
            assert forall|j: int| 0 <= j < 11 implies s[j] == none_frame()[j] by {
                assert(s.take(11)[j] == s[j]);
            }
        }
        assert(none_pref == starts_with(s, none_frame()));
    }
    if none_pref {
        return Ok((Response::Value(None), 11));
    }
    let ok_pref = n - pos >= 8 && data[pos] == '{' && data[pos + 1] == '"' && data[pos + 2]
        == 'O' && data[pos + 3] == 'K' && data[pos + 4] == '"' && data[pos + 5] == ':' && data[pos
        + 6] == '[' && data[pos + 7] == '"';
    proof {
        if ok_pref {
            assert(s.take(8) =~= ok_prefix());
        }
        if starts_with(s, ok_prefix()) {
            assert forall|j: int| 0 <= j < 8 implies s[j] == ok_prefix()[j] by {
                assert(s.take(8)[j] == s[j]);
            }
        }
        assert(ok_pref == starts_with(s, ok_prefix()));
    }
    if ok_pref {
        match decode_string(data, pos + 8) {
            None => {
                proof {
                    assert(s.skip(8) =~= data@.skip(pos + 8));
                }
                return Err(KVStoreError::Serde(String::from_str("invalid response frame")));
            },
            Some(vp) => {
                let (vchars, n1) = vp;
                proof {
                    assert(s.skip(8) =~= data@.skip(pos + 8));
                    crate::codec::lemma_parse_str_sound(s.skip(8));
                }
                let after_v = pos + 8 + n1;
                if n - after_v >= 2 && data[after_v] == ']' && data[after_v + 1] == '}' {
                    proof {
                        assert(s[8 + n1 as int] == data@[after_v as int]);
                        assert(s[8 + n1 as int + 1] == data@[after_v + 1]);
                    }
                    return Ok((
                        Response::Value(Some(chars_to_string(&vchars))),
                        after_v + 2 - pos,
                    ));
                } else {
                    return Err(KVStoreError::Serde(String::from_str("invalid response frame")));
                }
            },
        }
    }
    let err_pref = n - pos >= 9 && data[pos] == '{' && data[pos + 1] == '"' && data[pos + 2]
        == 'E' && data[pos + 3] == 'R' && data[pos + 4] == 'R' && data[pos + 5] == '"' && data[pos
        + 6] == ':' && data[pos + 7] == '[' && data[pos + 8] == '"';
    proof {
        if err_pref {
            assert(s.take(9) =~= err_prefix());
        }
        if starts_with(s, err_prefix()) {
            assert forall|j: int| 0 <= j < 9 implies s[j] == err_prefix()[j] by {
                assert(s.take(9)[j] == s[j]);
            }
        }
        assert(err_pref == starts_with(s, err_prefix()));
    }
    if err_pref {
        match decode_string(data, pos + 9) {
            None => {
                proof {
                    assert(s.skip(9) =~= data@.skip(pos + 9));
                }
                return Err(KVStoreError::Serde(String::from_str("invalid response frame")));
            },
            Some(mp) => {
                let (mchars, n1) = mp;
                proof {
                    assert(s.skip(9) =~= data@.skip(pos + 9));
                    crate::codec::lemma_parse_str_sound(s.skip(9));
                }
                let after_m = pos + 9 + n1;
                if n - after_m >= 2 && data[after_m] == ']' && data[after_m + 1] == '}' {
                    proof {
                        assert(s[9 + n1 as int] == data@[after_m as int]);
                        assert(s[9 + n1 as int + 1] == data@[after_m + 1]);
                    }
                    return Ok((
                        Response::Error(chars_to_string(&mchars)),
                        after_m + 2 - pos,
                    ));
                } else {
                    return Err(KVStoreError::Serde(String::from_str("invalid response frame")));
                }
            },
        }
    }
    Err(KVStoreError::Serde(String::from_str("invalid response frame")))
}

/// The response for a read's outcome: the value found, no value, or the
/// error rendered as its message.
pub fn response_for_get(r: Result<Option<String>, KVStoreError>) -> (resp: Response)
    ensures
        r matches Ok(ov) ==> resp == Response::Value(ov),
        r matches Err(e) ==> (resp matches Response::Error(m) && (e is KeyNotFound ==> m@
            == "Key not found"@)),
{
    match r {
        Ok(ov) => Response::Value(ov),
        Err(e) => Response::Error(e.message()),
    }
}

/// The response for a write's outcome: a bare confirmation, or the error
/// rendered as its message.
pub fn response_for_write(r: Result<(), KVStoreError>) -> (resp: Response)
    ensures
        r is Ok ==> resp == Response::Value(None),
        r matches Err(e) ==> (resp matches Response::Error(m) && (e is KeyNotFound ==> m@
            == "Key not found"@)),
{
    match r {
        Ok(_) => Response::Value(None),
        Err(e) => Response::Error(e.message()),
    }
}

/// Runs one decoded request against the store and produces the response:
/// a read hands back the value or nothing; a write confirms; removing an
/// absent key reports `Key not found`.
pub fn handle_request(store: &mut KvStore, req: Request) -> (resp: Response)
    requires
        old(store).wf(),
    ensures
        final(store).wf(),
        req matches Request::GET(k) ==> *final(store) == *old(store) && (
        resp matches Response::Value(ov) && ((ov is Some) == old(store).state().contains_key(k@))
            && (ov matches Some(v) ==> v@ == old(store).state()[k@])),
        req matches Request::SET(k, v) ==> final(store).state() == old(store).state().insert(
            k@,
            v@,
        ) && (resp matches Response::Value(ov) && ov is None),
        req matches Request::RM(k) ==> (old(store).state().contains_key(k@)
            ==> final(store).state() == old(store).state().remove(k@) && (resp matches Response::Value(ov) && ov
            is None)) && (!old(store).state().contains_key(k@) ==> *final(store) == *old(store)
            && (resp matches Response::Error(m) && m@ == "Key not found"@)),
{
    match req {
        Request::GET(k) => response_for_get(store.get(k)),
        Request::SET(k, v) => response_for_write(store.set(k, v)),
        Request::RM(k) => response_for_write(store.remove(k)),
    }
}

/// The server's per-connection step: reads one request frame, runs it
/// against the store, and produces the response frame.
pub fn handle_frame(store: &mut KvStore, frame: &Vec<char>) -> (r: Vec<char>)
    requires
        old(store).wf(),
    ensures
        final(store).wf(),
        (parse_req(frame@) is None) ==> *final(store) == *old(store) && (exists|m: Seq<char>|
            r@ == encode_resp(ResponseView::Error(m))),
        parse_req(frame@) matches Some((rv, n)) ==> (rv matches RequestView::GET(k)
            ==> *final(store) == *old(store) && r@ == encode_resp(ResponseView::Value(
            if old(store).state().contains_key(k) {
                Some(old(store).state()[k])
            } else {
                None
            },
        ))),
        parse_req(frame@) matches Some((rv, n)) ==> (rv matches RequestView::SET(k, v)
            ==> final(store).state() == old(store).state().insert(k, v) && r@ == encode_resp(
            ResponseView::Value(None),
        )),
        parse_req(frame@) matches Some((rv, n)) ==> (rv matches RequestView::RM(k) ==> (old(
            store,
        ).state().contains_key(k) ==> final(store).state() == old(store).state().remove(k) && r@
            == encode_resp(ResponseView::Value(None))) && (!old(store).state().contains_key(k)
            ==> *final(store) == *old(store) && r@ == encode_resp(ResponseView::Error(
            "Key not found"@,
        )))),
{
    proof {
        assert(frame@.skip(0) =~= frame@);
    }
    match decode_request(frame, 0) {
        Err(e) => {
            let m = e.message();
            let ghost mv = m@;
            let resp = Response::Error(m);
            let out = encode_response(&resp);
            proof {
                assert(out@ == encode_resp(ResponseView::Error(mv)));
            }
            out
        },
        Ok(rp) => {
            let (rq, consumed) = rp;
            let ghost grq = rq;
            let resp = handle_request(store, rq);
            let out = encode_response(&resp);
            proof {
                assert(parse_req(frame@) == Some((grq@, consumed as int)));
                match grq {
                    Request::GET(kstr) => {
                        assert(grq@ == RequestView::GET(kstr@));
                        match resp {
                            Response::Value(ov) => {
                                assert((ov is Some) == old(store).state().contains_key(kstr@));
                                match ov {
                                    Some(v) => {
                                        assert(v@ == old(store).state()[kstr@]);
                                        assert(resp@ == ResponseView::Value(Some(v@)));
                                        assert(out@ == encode_resp(ResponseView::Value(Some(
                                            old(store).state()[kstr@],
                                        ))));
                                    },
                                    None => {
                                        assert(resp@ == ResponseView::Value(None::<Seq<char>>));
                                        assert(out@ == encode_resp(ResponseView::Value(
                                            None::<Seq<char>>,
                                        )));
                                    },
                                }
                            },
                            Response::Error(_m) => {
                                assert(false);
                            },
                        }
                    },
                    Request::SET(_kstr, _vstr) => {
                        match resp {
                            Response::Value(ov) => {
                                assert(ov is None);
                                assert(resp@ == ResponseView::Value(None::<Seq<char>>));
                            },
                            Response::Error(_m) => {
                                assert(false);
                            },
                        }
                    },
                    Request::RM(kstr) => {
                        if old(store).state().contains_key(kstr@) {
                            match resp {
                                Response::Value(ov) => {
                                    assert(ov is None);
                                    assert(resp@ == ResponseView::Value(None::<Seq<char>>));
                                },
                                Response::Error(_m) => {
                                    assert(false);
                                },
                            }
                        } else {
                            match resp {
                                Response::Value(_ov) => {
                                    assert(false);
                                },
                                Response::Error(m) => {
                                    assert(m@ == "Key not found"@);
                                    assert(resp@ == ResponseView::Error("Key not found"@));
                                },
                            }
                        }
                    },
                }
            }
            out
        },
    }
}

} // verus!
