//! The wire protocol and the server's dispatch.
//!
//! A connection carries exactly one encoded request and then exactly one
//! encoded response, with the same framing style as the log: a tag byte
//! followed by length-prefixed UTF-8 string items.
//!
//! Request layout: tag `0` (`Get`), `1` (`Put`) or `2` (`Remove`), then the
//! key, and for `Put` the value.  Response layout: tag `0` (`GetOk` with no
//! value), `1` (`GetOk` with a value, which follows), `2` (`SetOk`),
//! `3` (`RemoveOk`) or `4` (`Failure`, whose message follows).

use vstd::prelude::*;
use vstd::bytes::u64_from_le_bytes;
use vstd::slice::{slice_subrange, slice_to_vec};
use vstd::string::StringExecFns;

use crate::codec::{encode_str_into, lemma_parse_str_bad_stable, lemma_parse_str_encode,
    lemma_parse_str_stable, spec_encode_str, spec_parse_str, string_from_utf8};
use crate::error::KvsError;
use crate::store::{put_len, remove_record_len, KvStore};

verus! {

/// The tag byte of an encoded `Get` request.
pub const REQUEST_GET_TAG: u8 = 0;

/// The tag byte of an encoded `Put` request.
pub const REQUEST_SET_TAG: u8 = 1;

/// The tag byte of an encoded `Remove` request.
pub const REQUEST_REMOVE_TAG: u8 = 2;

/// The tag byte of a `GetOk` response that carries no value.
pub const RESPONSE_GET_NONE_TAG: u8 = 0;

/// The tag byte of a `GetOk` response whose value follows.
pub const RESPONSE_GET_SOME_TAG: u8 = 1;

/// The tag byte of a `SetOk` response.
pub const RESPONSE_SET_OK_TAG: u8 = 2;

/// The tag byte of a `RemoveOk` response.
pub const RESPONSE_REMOVE_OK_TAG: u8 = 3;

/// The tag byte of a `Failure` response, whose message follows.
pub const RESPONSE_ERR_TAG: u8 = 4;

/// One request from a client.
#[derive(Debug, Clone, PartialEq)]
pub enum Request {
    /// Ask for the value of a key.
    Get(String),
    /// Set the value of a key.
    Put(String, String),
    /// Remove a key.
    Remove(String),
}

/// The mathematical shape of a request.
pub enum RequestView {
    Get(Seq<char>),
    Put(Seq<char>, Seq<char>),
    Remove(Seq<char>),
}

impl View for Request {
    type V = RequestView;

    open spec fn view(&self) -> RequestView {
        match self {
            Request::Get(k) => RequestView::Get(k@),
            Request::Put(k, v) => RequestView::Put(k@, v@),
            Request::Remove(k) => RequestView::Remove(k@),
        }
    }
}

/// One response from the server.
#[derive(Debug, Clone, PartialEq)]
pub enum Response {
    /// The value of the asked key, or nothing when it is absent.
    GetOk(Option<String>),
    /// The set succeeded.
    SetOk,
    /// The remove succeeded.
    RemoveOk,
    /// The request failed; the engine error's message follows.
    Failure(String),
}

/// The mathematical shape of a response.
pub enum ResponseView {
    GetOk(Option<Seq<char>>),
    SetOk,
    RemoveOk,
    Failure(Seq<char>),
}

impl View for Response {
    type V = ResponseView;

    open spec fn view(&self) -> ResponseView {
        match self {
            Response::GetOk(o) => match o {
                Some(v) => ResponseView::GetOk(Some(v@)),
                None => ResponseView::GetOk(None),
            },
            Response::SetOk => ResponseView::SetOk,
            Response::RemoveOk => ResponseView::RemoveOk,
            Response::Failure(m) => ResponseView::Failure(m@),
        }
    }
}

/// A response shape that answers only a `Get`, for servers that use one
/// response type per operation.
#[derive(Debug, Clone, PartialEq)]
pub enum GetResponse {
    /// The value of the asked key, or nothing when it is absent.
    Success(Option<String>),
    /// The request failed with this message.
    Failure(String),
}

/// A response shape that answers only a `Set`.
#[derive(Debug, Clone, PartialEq)]
pub enum SetResponse {
    /// The set succeeded.
    Success,
    /// The request failed with this message.
    Failure(String),
}

/// A response shape that answers only a `Remove`.
#[derive(Debug, Clone, PartialEq)]
pub enum RemoveResponse {
    /// The remove succeeded.
    Success,
    /// The request failed with this message.
    Failure(String),
}

/// The encoding of one request.
pub open spec fn spec_encode_request(r: RequestView) -> Seq<u8> {
    match r {
        RequestView::Get(k) => seq![REQUEST_GET_TAG] + spec_encode_str(k),
        RequestView::Put(k, v) => seq![REQUEST_SET_TAG] + spec_encode_str(k) + spec_encode_str(v),
        RequestView::Remove(k) => seq![REQUEST_REMOVE_TAG] + spec_encode_str(k),
    }
}

/// The encoding of one response.
pub open spec fn spec_encode_response(r: ResponseView) -> Seq<u8> {
    match r {
        ResponseView::GetOk(o) => match o {
            Some(v) => seq![RESPONSE_GET_SOME_TAG] + spec_encode_str(v),
            None => seq![RESPONSE_GET_NONE_TAG],
        },
        ResponseView::SetOk => seq![RESPONSE_SET_OK_TAG],
        ResponseView::RemoveOk => seq![RESPONSE_REMOVE_OK_TAG],
        ResponseView::Failure(m) => seq![RESPONSE_ERR_TAG] + spec_encode_str(m),
    }
}

/// Parse one request at the head of the buffer: the request and the bytes
/// consumed, or `None` if no complete, well-formed request starts there.
pub open spec fn spec_parse_request(data: Seq<u8>) -> Option<(RequestView, int)> {
    if data.len() < 1 {
        None
    } else {
        let tag = data[0];
        if tag == REQUEST_GET_TAG {
            match spec_parse_str(data, 1) {
                Some((k, kl)) => Some((RequestView::Get(k), 1 + kl)),
                None => None,
            }
        } else if tag == REQUEST_SET_TAG {
            match spec_parse_str(data, 1) {
                Some((k, kl)) => match spec_parse_str(data, 1 + kl) {
                    Some((v, vl)) => Some((RequestView::Put(k, v), 1 + kl + vl)),
                    None => None,
                },
                None => None,
            }
        } else if tag == REQUEST_REMOVE_TAG {
            match spec_parse_str(data, 1) {
                Some((k, kl)) => Some((RequestView::Remove(k), 1 + kl)),
                None => None,
            }
        } else {
            None
        }
    }
}

/// Parse one response at the head of the buffer.
pub open spec fn spec_parse_response(data: Seq<u8>) -> Option<(ResponseView, int)> {
    if data.len() < 1 {
        None
    } else {
        let tag = data[0];
        if tag == RESPONSE_GET_NONE_TAG {
            Some((ResponseView::GetOk(None), 1))
        } else if tag == RESPONSE_GET_SOME_TAG {
            match spec_parse_str(data, 1) {
                Some((v, vl)) => Some((ResponseView::GetOk(Some(v)), 1 + vl)),
                None => None,
            }
        } else if tag == RESPONSE_SET_OK_TAG {
            Some((ResponseView::SetOk, 1))
        } else if tag == RESPONSE_REMOVE_OK_TAG {
            Some((ResponseView::RemoveOk, 1))
        } else if tag == RESPONSE_ERR_TAG {
            match spec_parse_str(data, 1) {
                Some((m, ml)) => Some((ResponseView::Failure(m), 1 + ml)),
                None => None,
            }
        } else {
            None
        }
    }
}

/// Encode one request as one self-delimiting frame.
pub fn encode_request(r: &Request) -> (out: Vec<u8>)
    ensures
        out@ == spec_encode_request(r@),
{
    let mut out: Vec<u8> = Vec::new();
    match r {
        Request::Get(k) => {
            out.push(REQUEST_GET_TAG);
            encode_str_into(&mut out, k);
        },
        Request::Put(k, v) => {
            out.push(REQUEST_SET_TAG);
            encode_str_into(&mut out, k);
            encode_str_into(&mut out, v);
        },
        Request::Remove(k) => {
            out.push(REQUEST_REMOVE_TAG);
            encode_str_into(&mut out, k);
        },
    }
    proof {
        assert(out@ =~= spec_encode_request(r@));
    }
    out
}

/// Encode one response as one self-delimiting frame.
pub fn encode_response(r: &Response) -> (out: Vec<u8>)
    ensures
        out@ == spec_encode_response(r@),
{
    let mut out: Vec<u8> = Vec::new();
    match r {
        Response::GetOk(o) => match o {
            Some(v) => {
                out.push(RESPONSE_GET_SOME_TAG);
                encode_str_into(&mut out, v);
            },
            None => {
                out.push(RESPONSE_GET_NONE_TAG);
            },
        },
        Response::SetOk => {
            out.push(RESPONSE_SET_OK_TAG);
        },
        Response::RemoveOk => {
            out.push(RESPONSE_REMOVE_OK_TAG);
        },
        Response::Failure(m) => {
            out.push(RESPONSE_ERR_TAG);
            encode_str_into(&mut out, m);
        },
    }
    proof {
        assert(out@ =~= spec_encode_response(r@));
    }
    out
}

/// Read one string item at `pos`, telling a short buffer (`Ok(None)`)
/// apart from bytes that are not UTF-8 (`Err`).
fn read_str(data: &Vec<u8>, pos: usize) -> (r: Result<Option<(String, usize)>, KvsError>)
    requires
        pos <= data@.len(),
    ensures
        match r {
            Ok(o) => match o {
                Some(p) => spec_parse_str(data@, pos as int) == Some((p.0@, p.1 as int)) && pos
                    + p.1 <= data@.len(),
                None => spec_parse_str(data@, pos as int) is None,
            },
            Err(e) => spec_parse_str(data@, pos as int) is None && e is Decode && forall|
                ext: Seq<u8>,
            | spec_parse_str(data@ + ext, pos as int) is None,
        },
{
    let rem = data.len() - pos;
    if rem < 8 {
        return Ok(None);
    }
    let header = slice_subrange(data.as_slice(), pos, pos + 8);
    let n = u64_from_le_bytes(header);
    if n > (rem - 8) as u64 {
        return Ok(None);
    }
    let nb = n as usize;
    let bytes = slice_to_vec(slice_subrange(data.as_slice(), pos + 8, pos + 8 + nb));
    match string_from_utf8(bytes) {
        Some(s) => Ok(Some((s, 8 + nb))),
        None => {
            proof {
                assert forall|ext: Seq<u8>| spec_parse_str(data@ + ext, pos as int) is None by {
                    lemma_parse_str_bad_stable(data@, ext, pos as int);
                }
            }
            Err(KvsError::Decode(String::from_str("string item is not valid UTF-8")))
        },
    }
}

/// Decode one request from the head of a receive buffer.
///
/// `Ok(None)` means that no complete frame has arrived yet: read more
/// bytes and try again.  An error means the bytes can never become the
/// start of a well-formed frame, however much more is read: the
/// connection is beyond saving.
pub fn decode_request(data: &Vec<u8>) -> (r: Result<Option<(Request, usize)>, KvsError>)
    ensures
        match r {
            Ok(o) => match o {
                Some(p) => spec_parse_request(data@) == Some((p.0@, p.1 as int)) && p.1
                    <= data@.len(),
                None => spec_parse_request(data@) is None,
            },
            Err(e) => spec_parse_request(data@) is None && e is Decode && forall|ext: Seq<u8>|
                spec_parse_request(data@ + ext) is None,
        },
{
    if data.len() < 1 {
        return Ok(None);
    }
    let tag = data[0];
    if tag == REQUEST_GET_TAG {
        match read_str(data, 1) {
            Ok(Some((k, kl))) => Ok(Some((Request::Get(k), 1 + kl))),
            Ok(None) => Ok(None),
            Err(e) => {
                proof {
                    assert forall|ext: Seq<u8>| spec_parse_request(data@ + ext) is None by {
                        assert((data@ + ext)[0] == data@[0]);
                    }
                }
                Err(e)
            },
        }
    } else if tag == REQUEST_SET_TAG {
        match read_str(data, 1) {
            Ok(Some((k, kl))) => match read_str(data, 1 + kl) {
                Ok(Some((v, vl))) => Ok(Some((Request::Put(k, v), 1 + kl + vl))),
                Ok(None) => Ok(None),
                Err(e) => {
                    proof {
                        assert forall|ext: Seq<u8>| spec_parse_request(data@ + ext) is None by {
                            assert((data@ + ext)[0] == data@[0]);
                            lemma_parse_str_stable(data@, ext, 1, k@, kl as int);
                        }
                    }
                    Err(e)
                },
            },
            Ok(None) => Ok(None),
            Err(e) => {
                proof {
                    assert forall|ext: Seq<u8>| spec_parse_request(data@ + ext) is None by {
                        assert((data@ + ext)[0] == data@[0]);
                    }
                }
                Err(e)
            },
        }
    } else if tag == REQUEST_REMOVE_TAG {
        match read_str(data, 1) {
            Ok(Some((k, kl))) => Ok(Some((Request::Remove(k), 1 + kl))),
            Ok(None) => Ok(None),
            Err(e) => {
                proof {
                    assert forall|ext: Seq<u8>| spec_parse_request(data@ + ext) is None by {
                        assert((data@ + ext)[0] == data@[0]);
                    }
                }
                Err(e)
            },
        }
    } else {
        proof {
            assert forall|ext: Seq<u8>| spec_parse_request(data@ + ext) is None by {
                assert((data@ + ext)[0] == data@[0]);
            }
        }
        Err(KvsError::Decode(String::from_str("unknown request tag")))
    }
}

/// Decode one response from the head of a receive buffer, with the same
/// convention as [`decode_request`].
pub fn decode_response(data: &Vec<u8>) -> (r: Result<Option<(Response, usize)>, KvsError>)
    ensures
        match r {
            Ok(o) => match o {
                Some(p) => spec_parse_response(data@) == Some((p.0@, p.1 as int)) && p.1
                    <= data@.len(),
                None => spec_parse_response(data@) is None,
            },
            Err(e) => spec_parse_response(data@) is None && e is Decode && forall|ext: Seq<u8>|
                spec_parse_response(data@ + ext) is None,
        },
{
    if data.len() < 1 {
        return Ok(None);
    }
    let tag = data[0];
    if tag == RESPONSE_GET_NONE_TAG {
        Ok(Some((Response::GetOk(None), 1)))
    } else if tag == RESPONSE_GET_SOME_TAG {
        match read_str(data, 1) {
            Ok(Some((v, vl))) => Ok(Some((Response::GetOk(Some(v)), 1 + vl))),
            Ok(None) => Ok(None),
            Err(e) => {
                proof {
                    assert forall|ext: Seq<u8>| spec_parse_response(data@ + ext) is None by {
                        assert((data@ + ext)[0] == data@[0]);
                    }
                }
                Err(e)
            },
        }
    } else if tag == RESPONSE_SET_OK_TAG {
        Ok(Some((Response::SetOk, 1)))
    } else if tag == RESPONSE_REMOVE_OK_TAG {
        Ok(Some((Response::RemoveOk, 1)))
    } else if tag == RESPONSE_ERR_TAG {
        match read_str(data, 1) {
            Ok(Some((m, ml))) => Ok(Some((Response::Failure(m), 1 + ml))),
            Ok(None) => Ok(None),
            Err(e) => {
                proof {
                    assert forall|ext: Seq<u8>| spec_parse_response(data@ + ext) is None by {
                        assert((data@ + ext)[0] == data@[0]);
                    }
                }
                Err(e)
            },
        }
    } else {
        proof {
            assert forall|ext: Seq<u8>| spec_parse_response(data@ + ext) is None by {
                assert((data@ + ext)[0] == data@[0]);
            }
        }
        Err(KvsError::Decode(String::from_str("unknown response tag")))
    }
}

/// Any buffer that starts with the encoding of a request parses back to
/// exactly that request, whatever follows it.
pub proof fn lemma_request_round_trip(r: RequestView, data: Seq<u8>)
    requires
        match r {
            RequestView::Get(k) => vstd::utf8::encode_utf8(k).len() <= u64::MAX,
            RequestView::Put(k, v) => vstd::utf8::encode_utf8(k).len() <= u64::MAX
                && vstd::utf8::encode_utf8(v).len() <= u64::MAX,
            RequestView::Remove(k) => vstd::utf8::encode_utf8(k).len() <= u64::MAX,
        },
        spec_encode_request(r).len() <= data.len(),
        data.subrange(0, spec_encode_request(r).len() as int) == spec_encode_request(r),
    ensures
        spec_parse_request(data) == Some((r, spec_encode_request(r).len() as int)),
{
    let enc = spec_encode_request(r);
    assert(data[0] == enc[0]);
    match r {
        RequestView::Get(k) => {
            let ek = spec_encode_str(k);
            assert(enc =~= seq![REQUEST_GET_TAG] + ek);
            assert forall|i: int| 0 <= i < ek.len() implies #[trigger] data.subrange(
                1,
                1 + ek.len() as int,
            )[i] == ek[i] by {
                assert(data.subrange(0, enc.len() as int)[1 + i] == enc[1 + i]);
            }
            assert(data.subrange(1, 1 + ek.len() as int) =~= ek);
            lemma_parse_str_encode(data, 1, k);
        },
        RequestView::Put(k, v) => {
            let ek = spec_encode_str(k);
            let ev = spec_encode_str(v);
            assert(enc =~= seq![REQUEST_SET_TAG] + ek + ev);
            assert forall|i: int| 0 <= i < ek.len() implies #[trigger] data.subrange(
                1,
                1 + ek.len() as int,
            )[i] == ek[i] by {
                assert(data.subrange(0, enc.len() as int)[1 + i] == enc[1 + i]);
            }
            assert(data.subrange(1, 1 + ek.len() as int) =~= ek);
            lemma_parse_str_encode(data, 1, k);
            assert forall|i: int| 0 <= i < ev.len() implies #[trigger] data.subrange(
                1 + ek.len() as int,
                1 + ek.len() + ev.len() as int,
            )[i] == ev[i] by {
                assert(data.subrange(0, enc.len() as int)[1 + ek.len() + i] == enc[1 + ek.len()
                    + i]);
            }
            assert(data.subrange(1 + ek.len() as int, 1 + ek.len() + ev.len() as int) =~= ev);
            lemma_parse_str_encode(data, 1 + ek.len() as int, v);
        },
        RequestView::Remove(k) => {
            let ek = spec_encode_str(k);
            assert(enc =~= seq![REQUEST_REMOVE_TAG] + ek);
            assert forall|i: int| 0 <= i < ek.len() implies #[trigger] data.subrange(
                1,
                1 + ek.len() as int,
            )[i] == ek[i] by {
                assert(data.subrange(0, enc.len() as int)[1 + i] == enc[1 + i]);
            }
            assert(data.subrange(1, 1 + ek.len() as int) =~= ek);
            lemma_parse_str_encode(data, 1, k);
        },
    }
}

/// Any buffer that starts with the encoding of a response parses back to
/// exactly that response, whatever follows it.
pub proof fn lemma_response_round_trip(r: ResponseView, data: Seq<u8>)
    requires
        match r {
            ResponseView::GetOk(o) => match o {
                Some(v) => vstd::utf8::encode_utf8(v).len() <= u64::MAX,
                None => true,
            },
            ResponseView::Failure(m) => vstd::utf8::encode_utf8(m).len() <= u64::MAX,
            _ => true,
        },
        spec_encode_response(r).len() <= data.len(),
        data.subrange(0, spec_encode_response(r).len() as int) == spec_encode_response(r),
    ensures
        spec_parse_response(data) == Some((r, spec_encode_response(r).len() as int)),
{
    let enc = spec_encode_response(r);
    assert(data[0] == enc[0]);
    match r {
        ResponseView::GetOk(o) => match o {
            Some(v) => {
                let ev = spec_encode_str(v);
                assert(enc =~= seq![RESPONSE_GET_SOME_TAG] + ev);
                assert forall|i: int| 0 <= i < ev.len() implies #[trigger] data.subrange(
                    1,
                    1 + ev.len() as int,
                )[i] == ev[i] by {
                    assert(data.subrange(0, enc.len() as int)[1 + i] == enc[1 + i]);
                }
                assert(data.subrange(1, 1 + ev.len() as int) =~= ev);
                lemma_parse_str_encode(data, 1, v);
            },
            None => {},
        },
        ResponseView::SetOk => {},
        ResponseView::RemoveOk => {},
        ResponseView::Failure(m) => {
            let em = spec_encode_str(m);
            assert(enc =~= seq![RESPONSE_ERR_TAG] + em);
            assert forall|i: int| 0 <= i < em.len() implies #[trigger] data.subrange(
                1,
                1 + em.len() as int,
            )[i] == em[i] by {
                assert(data.subrange(0, enc.len() as int)[1 + i] == enc[1 + i]);
            }
            assert(data.subrange(1, 1 + em.len() as int) =~= em);
            lemma_parse_str_encode(data, 1, m);
        },
    }
}

/// Whether the store has room to apply this request.
pub open spec fn room_for_request(s: KvStore, r: RequestView) -> bool {
    match r {
        RequestView::Get(_k) => true,
        RequestView::Put(k, v) => s.room_for(put_len(k, v)),
        RequestView::Remove(k) => s@.contains_key(k) ==> s.room_for(remove_record_len(k)),
    }
}

/// Whether the store has room to apply this request, decided at run time.
pub fn can_apply(store: &KvStore, request: &Request) -> (r: bool)
    requires
        store.wf(),
    ensures
        r == room_for_request(*store, request@),
{
    match request {
        Request::Get(_k) => true,
        Request::Put(k, v) => store.can_set(k, v),
        Request::Remove(k) => {
            if store.contains_key(k) {
                store.can_remove(k)
            } else {
                true
            }
        },
    }
}

/// Dispatch one request against the engine and build the response.
///
/// `Get` answers from the map; `Put` installs the mapping; `Remove` of a
/// live key deletes it, and of an absent key fails with exactly the
/// message `Key not found`.
pub fn process_request(store: &mut KvStore, request: Request) -> (r: Response)
    requires
        old(store).wf(),
        room_for_request(*old(store), request@),
    ensures
        final(store).wf(),
        match request@ {
            RequestView::Get(k) => *final(store) == *old(store) && (old(store)@.contains_key(k)
                ==> r@ == ResponseView::GetOk(Some(old(store)@[k]))) && (!old(
                store,
            )@.contains_key(k) ==> r@ == ResponseView::GetOk(None)),
            RequestView::Put(k, v) => final(store)@ == old(store)@.insert(k, v) && r@
                == ResponseView::SetOk,
            RequestView::Remove(k) => (old(store)@.contains_key(k) ==> final(store)@ == old(
                store,
            )@.remove(k) && r@ == ResponseView::RemoveOk) && (!old(store)@.contains_key(k)
                ==> *final(store) == *old(store) && r@ == ResponseView::Failure("Key not found"@)),
        },
{
    match request {
        Request::Get(key) => match store.get(key) {
            Ok(value) => Response::GetOk(value),
            Err(e) => Response::Failure(e.message()),
        },
        Request::Put(key, value) => match store.set(key, value) {
            Ok(_u) => Response::SetOk,
            Err(e) => Response::Failure(e.message()),
        },
        Request::Remove(key) => match store.remove(key) {
            Ok(_u) => Response::RemoveOk,
            Err(e) => {
                proof {
                    assert(e is KeyNotFound);
                }
                Response::Failure(e.message())
            },
        },
    }
}

/// What a client makes of the response to a `Get`.
pub fn interpret_get_response(r: Response) -> (out: Result<Option<String>, KvsError>)
    ensures
        match r@ {
            ResponseView::GetOk(o) => match o {
                Some(v) => out matches Ok(x) && x matches Some(s) && s@ == v,
                None => out matches Ok(x) && x is None,
            },
            ResponseView::Failure(m) => out matches Err(e) && e matches KvsError::StringError(s)
                && s@ == m,
            _ => out matches Err(e) && e is UnexpectedResponse,
        },
{
    match r {
        Response::GetOk(value) => Ok(value),
        Response::Failure(m) => Err(KvsError::StringError(m)),
        _ => Err(KvsError::UnexpectedResponse),
    }
}

/// What a client makes of the response to a `Set`.
pub fn interpret_set_response(r: Response) -> (out: Result<(), KvsError>)
    ensures
        match r@ {
            ResponseView::SetOk => out is Ok,
            ResponseView::Failure(m) => out matches Err(e) && e matches KvsError::StringError(s)
                && s@ == m,
            _ => out matches Err(e) && e is UnexpectedResponse,
        },
{
    match r {
        Response::SetOk => Ok(()),
        Response::Failure(m) => Err(KvsError::StringError(m)),
        _ => Err(KvsError::UnexpectedResponse),
    }
}

/// What a client makes of the response to a `Remove`.
pub fn interpret_remove_response(r: Response) -> (out: Result<(), KvsError>)
    ensures
        match r@ {
            ResponseView::RemoveOk => out is Ok,
            ResponseView::Failure(m) => out matches Err(e) && e matches KvsError::StringError(s)
                && s@ == m,
            _ => out matches Err(e) && e is UnexpectedResponse,
        },
{
    match r {
        Response::RemoveOk => Ok(()),
        Response::Failure(m) => Err(KvsError::StringError(m)),
        _ => Err(KvsError::UnexpectedResponse),
    }
}

impl GetResponse {
    /// The per-operation response form of a `Get` result.
    pub fn from_engine(r: Result<Option<String>, KvsError>) -> (out: GetResponse)
        ensures
            r matches Ok(v) ==> out == GetResponse::Success(v),
            r matches Err(e) ==> out matches GetResponse::Failure(m) && m@ == e.spec_message(),
    {
        match r {
            Ok(v) => GetResponse::Success(v),
            Err(e) => GetResponse::Failure(e.message()),
        }
    }
}

impl SetResponse {
    /// The per-operation response form of a `Set` result.
    pub fn from_engine(r: Result<(), KvsError>) -> (out: SetResponse)
        ensures
            r is Ok ==> out == SetResponse::Success,
            r matches Err(e) ==> out matches SetResponse::Failure(m) && m@ == e.spec_message(),
    {
        match r {
            Ok(_u) => SetResponse::Success,
            Err(e) => SetResponse::Failure(e.message()),
        }
    }
}

impl RemoveResponse {
    /// The per-operation response form of a `Remove` result.
    pub fn from_engine(r: Result<(), KvsError>) -> (out: RemoveResponse)
        ensures
            r is Ok ==> out == RemoveResponse::Success,
            r matches Err(e) ==> out matches RemoveResponse::Failure(m) && m@ == e.spec_message(),
    {
        match r {
            Ok(_u) => RemoveResponse::Success,
            Err(e) => RemoveResponse::Failure(e.message()),
        }
    }
}

} // verus!
