//! The command codec: every mutation is stored as one self-delimiting record.
//!
//! Record layout, committed to for the life of a log directory:
//!
//! * one tag byte: `0` for `Put`, `1` for `Remove`;
//! * the key as a string item: its UTF-8 byte length as a `u64` in
//!   little-endian order, followed by the UTF-8 bytes themselves;
//! * for `Put` only, the value as a second string item.
//!
//! Decoding a record therefore consumes exactly the bytes that encoding
//! produced, and the length of a record is recoverable from the stream
//! position before and after decoding.  End of input at a record boundary is
//! reported as `Ok(None)`; a truncated or corrupt record is a
//! [`KvsError::Decode`] error.

use vstd::prelude::*;
use vstd::bytes::{lemma_auto_spec_u64_to_from_le_bytes, spec_u64_from_le_bytes,
    spec_u64_to_le_bytes, u64_from_le_bytes, u64_to_le_bytes};
use vstd::slice::{slice_subrange, slice_to_vec};
use vstd::string::StrSliceExecFns;
use vstd::string::StringSliceAdditionalSpecFns;
use vstd::string::StringExecFns;
use vstd::utf8::{decode_utf8, decode_utf8_encode_utf8, encode_utf8, encode_utf8_decode_utf8,
    encode_utf8_valid_utf8, valid_utf8};

use crate::error::KvsError;

verus! {

/// The tag byte that starts an encoded `Set` record.
pub const SET_TAG: u8 = 0;

/// The tag byte that starts an encoded `Remove` record.
pub const REMOVE_TAG: u8 = 1;

/// A mutation recorded in the log.
#[derive(Debug, Clone, PartialEq)]
pub enum Command {
    /// Install a mapping from the first string to the second.
    Put(String, String),
    /// Delete the mapping for the given key.
    Remove(String),
}

/// The mathematical shape of a command: its strings as character sequences.
pub enum CommandView {
    Put(Seq<char>, Seq<char>),
    Remove(Seq<char>),
}

impl View for Command {
    type V = CommandView;

    open spec fn view(&self) -> CommandView {
        match self {
            Command::Put(k, v) => CommandView::Put(k@, v@),
            Command::Remove(k) => CommandView::Remove(k@),
        }
    }
}

/// The encoding of one string item: an eight-byte little-endian length,
/// then the UTF-8 bytes.
pub open spec fn spec_encode_str(s: Seq<char>) -> Seq<u8> {
    spec_u64_to_le_bytes(encode_utf8(s).len() as u64) + encode_utf8(s)
}

/// The encoding of one command.
pub open spec fn spec_encode(c: CommandView) -> Seq<u8> {
    match c {
        CommandView::Put(k, v) => seq![SET_TAG] + spec_encode_str(k) + spec_encode_str(v),
        CommandView::Remove(k) => seq![REMOVE_TAG] + spec_encode_str(k),
    }
}

/// Whether every string of the command has a UTF-8 length that fits the
/// eight-byte length header.  True of every command built from `String`s.
pub open spec fn spec_encodable(c: CommandView) -> bool {
    match c {
        CommandView::Put(k, v) => encode_utf8(k).len() <= u64::MAX
            && encode_utf8(v).len() <= u64::MAX,
        CommandView::Remove(k) => encode_utf8(k).len() <= u64::MAX,
    }
}

/// Parse one string item starting at `pos`: the characters and the number of
/// bytes consumed, or `None` if the item is truncated or not valid UTF-8.
pub open spec fn spec_parse_str(data: Seq<u8>, pos: int) -> Option<(Seq<char>, int)> {
    if pos + 8 <= data.len() {
        let n = spec_u64_from_le_bytes(data.subrange(pos, pos + 8)) as int;
        if pos + 8 + n <= data.len() {
            let bytes = data.subrange(pos + 8, pos + 8 + n);
            if valid_utf8(bytes) {
                Some((decode_utf8(bytes), 8 + n))
            } else {
                None
            }
        } else {
            None
        }
    } else {
        None
    }
}

/// Parse one record starting at `pos`: the command and the number of bytes
/// consumed, or `None` if no complete, well-formed record begins there.
pub open spec fn spec_parse(data: Seq<u8>, pos: int) -> Option<(CommandView, int)> {
    if 0 <= pos < data.len() {
        let tag = data[pos];
        if tag == SET_TAG {
            match spec_parse_str(data, pos + 1) {
                Some((k, kl)) => match spec_parse_str(data, pos + 1 + kl) {
                    Some((v, vl)) => Some((CommandView::Put(k, v), 1 + kl + vl)),
                    None => None,
                },
                None => None,
            }
        } else if tag == REMOVE_TAG {
            match spec_parse_str(data, pos + 1) {
                Some((k, kl)) => Some((CommandView::Remove(k), 1 + kl)),
                None => None,
            }
        } else {
            None
        }
    } else {
        None
    }
}

/// A string item reads back as exactly what was encoded, wherever the
/// encoding stands in a larger buffer.
pub(crate) proof fn lemma_parse_str_encode(data: Seq<u8>, pos: int, s: Seq<char>)
    requires
        0 <= pos,
        encode_utf8(s).len() <= u64::MAX,
        pos + spec_encode_str(s).len() <= data.len(),
        data.subrange(pos, pos + spec_encode_str(s).len() as int) == spec_encode_str(s),
    ensures
        spec_parse_str(data, pos) == Some((s, spec_encode_str(s).len() as int)),
{
    lemma_auto_spec_u64_to_from_le_bytes();
    let ub = encode_utf8(s);
    let n = ub.len() as int;
    let enc = spec_encode_str(s);
    assert(enc.len() == 8 + n);
    assert forall|i: int| 0 <= i < 8 implies #[trigger] data.subrange(pos, pos + 8)[i]
        == spec_u64_to_le_bytes(n as u64)[i] by {
        assert(data.subrange(pos, pos + enc.len() as int)[i] == enc[i]);
    }
    assert(data.subrange(pos, pos + 8) =~= spec_u64_to_le_bytes(n as u64));
    assert(spec_u64_from_le_bytes(data.subrange(pos, pos + 8)) == n as u64);
    assert(n as u64 as int == n);
    assert forall|i: int| 0 <= i < n implies #[trigger] data.subrange(pos + 8, pos + 8 + n)[i]
        == ub[i] by {
        assert(data.subrange(pos, pos + enc.len() as int)[8 + i] == enc[8 + i]);
    }
    assert(data.subrange(pos + 8, pos + 8 + n) =~= ub);
    encode_utf8_valid_utf8(s);
    encode_utf8_decode_utf8(s);
}

/// A string item that parses is exactly the encoding of what it yields.
proof fn lemma_parse_str_canonical(data: Seq<u8>, pos: int, s: Seq<char>, l: int)
    requires
        0 <= pos,
        spec_parse_str(data, pos) == Some((s, l)),
    ensures
        encode_utf8(s).len() <= u64::MAX,
        l == spec_encode_str(s).len(),
        8 <= l,
        pos + l <= data.len(),
        data.subrange(pos, pos + l) == spec_encode_str(s),
{
    lemma_auto_spec_u64_to_from_le_bytes();
    let header = data.subrange(pos, pos + 8);
    let n = spec_u64_from_le_bytes(header) as int;
    let bytes = data.subrange(pos + 8, pos + 8 + n);
    decode_utf8_encode_utf8(bytes);
    assert(encode_utf8(s) == bytes);
    assert(encode_utf8(s).len() as u64 == spec_u64_from_le_bytes(header));
    assert(spec_u64_to_le_bytes(spec_u64_from_le_bytes(header)) == header);
    assert(data.subrange(pos, pos + l) =~= header + bytes);
}

/// A complete string item parses the same in any extension of the buffer.
pub(crate) proof fn lemma_parse_str_stable(
    data: Seq<u8>,
    ext: Seq<u8>,
    pos: int,
    s: Seq<char>,
    l: int,
)
    requires
        0 <= pos,
        spec_parse_str(data, pos) == Some((s, l)),
    ensures
        spec_parse_str(data + ext, pos) == Some((s, l)),
{
    lemma_parse_str_canonical(data, pos, s, l);
    assert((data + ext).subrange(pos, pos + l) =~= data.subrange(pos, pos + l));
    lemma_parse_str_encode(data + ext, pos, s);
}

/// A string item whose bytes are all present but are not valid UTF-8 can
/// never become one by reading further: the buffer stays malformed.
pub(crate) proof fn lemma_parse_str_bad_stable(data: Seq<u8>, ext: Seq<u8>, pos: int)
    requires
        0 <= pos,
        pos + 8 <= data.len(),
        pos + 8 + (spec_u64_from_le_bytes(data.subrange(pos, pos + 8)) as int) <= data.len(),
        !valid_utf8(
            data.subrange(
                pos + 8,
                pos + 8 + (spec_u64_from_le_bytes(data.subrange(pos, pos + 8)) as int),
            ),
        ),
    ensures
        spec_parse_str(data + ext, pos) is None,
{
    let n = spec_u64_from_le_bytes(data.subrange(pos, pos + 8)) as int;
    assert((data + ext).subrange(pos, pos + 8) =~= data.subrange(pos, pos + 8));
    assert((data + ext).subrange(pos + 8, pos + 8 + n) =~= data.subrange(pos + 8, pos + 8 + n));
}

/// A record reads back as exactly what was encoded, wherever the encoding
/// stands in a larger buffer.
pub proof fn lemma_parse_encode(data: Seq<u8>, pos: int, c: CommandView)
    requires
        0 <= pos,
        spec_encodable(c),
        pos + spec_encode(c).len() <= data.len(),
        data.subrange(pos, pos + spec_encode(c).len() as int) == spec_encode(c),
    ensures
        spec_parse(data, pos) == Some((c, spec_encode(c).len() as int)),
{
    let enc = spec_encode(c);
    assert(data.subrange(pos, pos + enc.len() as int)[0] == enc[0]);
    assert(data[pos] == enc[0]);
    match c {
        CommandView::Put(k, v) => {
            let ek = spec_encode_str(k);
            let ev = spec_encode_str(v);
            assert(enc =~= seq![SET_TAG] + ek + ev);
            assert(enc[0] == SET_TAG);
            assert forall|i: int| 0 <= i < ek.len() implies #[trigger] data.subrange(
                pos + 1,
                pos + 1 + ek.len() as int,
            )[i] == ek[i] by {
                assert(data.subrange(pos, pos + enc.len() as int)[1 + i] == enc[1 + i]);
            }
            assert(data.subrange(pos + 1, pos + 1 + ek.len() as int) =~= ek);
            lemma_parse_str_encode(data, pos + 1, k);
            assert forall|i: int| 0 <= i < ev.len() implies #[trigger] data.subrange(
                pos + 1 + ek.len() as int,
                pos + 1 + ek.len() + ev.len() as int,
            )[i] == ev[i] by {
                assert(data.subrange(pos, pos + enc.len() as int)[1 + ek.len() + i] == enc[1
                    + ek.len() + i]);
            }
            assert(data.subrange(
                pos + 1 + ek.len() as int,
                pos + 1 + ek.len() + ev.len() as int,
            ) =~= ev);
            lemma_parse_str_encode(data, pos + 1 + ek.len() as int, v);
        },
        CommandView::Remove(k) => {
            let ek = spec_encode_str(k);
            assert(enc =~= seq![REMOVE_TAG] + ek);
            assert(enc[0] == REMOVE_TAG);
            assert forall|i: int| 0 <= i < ek.len() implies #[trigger] data.subrange(
                pos + 1,
                pos + 1 + ek.len() as int,
            )[i] == ek[i] by {
                assert(data.subrange(pos, pos + enc.len() as int)[1 + i] == enc[1 + i]);
            }
            assert(data.subrange(pos + 1, pos + 1 + ek.len() as int) =~= ek);
            lemma_parse_str_encode(data, pos + 1, k);
        },
    }
}

/// A record that parses is exactly the encoding of the command it yields:
/// the byte length of a record is recoverable, and parsing is canonical.
pub proof fn lemma_parse_canonical(data: Seq<u8>, pos: int, c: CommandView, l: int)
    requires
        spec_parse(data, pos) == Some((c, l)),
    ensures
        spec_encodable(c),
        l == spec_encode(c).len(),
        9 <= l,
        0 <= pos,
        pos + l <= data.len(),
        data.subrange(pos, pos + l) == spec_encode(c),
{
    match c {
        CommandView::Put(k, v) => {
            let (pk, kl) = spec_parse_str(data, pos + 1).unwrap();
            lemma_parse_str_canonical(data, pos + 1, pk, kl);
            let (pv, vl) = spec_parse_str(data, pos + 1 + kl).unwrap();
            lemma_parse_str_canonical(data, pos + 1 + kl, pv, vl);
            assert(data.subrange(pos, pos + l) =~= seq![SET_TAG] + spec_encode_str(k)
                + spec_encode_str(v));
        },
        CommandView::Remove(k) => {
            let (pk, kl) = spec_parse_str(data, pos + 1).unwrap();
            lemma_parse_str_canonical(data, pos + 1, pk, kl);
            assert(data.subrange(pos, pos + l) =~= seq![REMOVE_TAG] + spec_encode_str(k));
        },
    }
}

/// Parsing looks only at the bytes of the record itself: a buffer that holds
/// the same bytes over the record's range parses the same record there.
pub proof fn lemma_parse_stable(data: Seq<u8>, other: Seq<u8>, pos: int, c: CommandView, l: int)
    requires
        spec_parse(data, pos) == Some((c, l)),
        pos + l <= other.len(),
        other.subrange(pos, pos + l) == data.subrange(pos, pos + l),
    ensures
        spec_parse(other, pos) == Some((c, l)),
{
    lemma_parse_canonical(data, pos, c, l);
    lemma_parse_encode(other, pos, c);
}

/// Turn a `String` into its UTF-8 bytes, prefixed with the length header.
pub(crate) fn encode_str_into(out: &mut Vec<u8>, s: &String)
    ensures
        final(out)@ == old(out)@ + spec_encode_str(s@),
        encode_utf8(s@).len() <= u64::MAX,
{
    let mut bytes = s.as_str().as_bytes_vec();
    let n = bytes.len();
    let mut header = u64_to_le_bytes(n as u64);
    proof {
        assert(encode_utf8(s@).len() == n);
        assert(n as u64 as int == n as int);
    }
    out.append(&mut header);
    out.append(&mut bytes);
}

/// Encode one command as one self-delimiting record.
pub fn encode_command(cmd: &Command) -> (r: Vec<u8>)
    ensures
        r@ == spec_encode(cmd@),
        spec_encodable(cmd@),
{
    let mut out: Vec<u8> = Vec::new();
    match cmd {
        Command::Put(k, v) => {
            out.push(SET_TAG);
            encode_str_into(&mut out, k);
            encode_str_into(&mut out, v);
            proof {
                assert(out@ =~= spec_encode(cmd@));
            }
        },
        Command::Remove(k) => {
            out.push(REMOVE_TAG);
            encode_str_into(&mut out, k);
            proof {
                assert(out@ =~= spec_encode(cmd@));
            }
        },
    }
    out
}

/// Relies on `String::from_utf8` of std: it accepts exactly the byte
/// sequences that are valid UTF-8 and returns the characters they encode.
#[verifier::external_body]
pub(crate) fn string_from_utf8(bytes: Vec<u8>) -> (r: Option<String>)
    ensures
        r is Some <==> valid_utf8(bytes@),
        r matches Some(s) ==> s@ == decode_utf8(bytes@),
{
    String::from_utf8(bytes).ok()
}

/// Read one string item starting at `pos`.
fn decode_str(data: &Vec<u8>, pos: usize) -> (r: Option<(String, usize)>)
    requires
        pos <= data@.len(),
    ensures
        r matches Some(p) ==> spec_parse_str(data@, pos as int) == Some((p.0@, p.1 as int))
            && pos + p.1 <= data@.len(),
        r is None ==> spec_parse_str(data@, pos as int) is None,
{
    let rem = data.len() - pos;
    if rem < 8 {
        return None;
    }
    let header = slice_subrange(data.as_slice(), pos, pos + 8);
    let n = u64_from_le_bytes(header);
    if n > (rem - 8) as u64 {
        return None;
    }
    let nb = n as usize;
    let bytes = slice_to_vec(slice_subrange(data.as_slice(), pos + 8, pos + 8 + nb));
    match string_from_utf8(bytes) {
        Some(s) => Some((s, 8 + nb)),
        None => None,
    }
}

/// Decode one record starting at `pos`, or report a clean end of input.
///
/// `Ok(None)` means `pos` is exactly the end of the buffer: end of input at
/// a record boundary.  Any incomplete or ill-formed record is a
/// [`KvsError::Decode`] error.
pub fn decode_command(data: &Vec<u8>, pos: usize) -> (r: Result<Option<(Command, usize)>, KvsError>)
    requires
        pos <= data@.len(),
    ensures
        pos == data@.len() ==> (r matches Ok(o) && o is None),
        match r {
            Ok(o) => match o {
                None => pos == data@.len(),
                Some(p) => spec_parse(data@, pos as int) == Some((p.0@, p.1 as int)) && pos + p.1
                    <= data@.len(),
            },
            Err(e) => pos < data@.len() && spec_parse(data@, pos as int) is None && e is Decode,
        },
{
    if pos == data.len() {
        return Ok(None);
    }
    let tag = data[pos];
    if tag == SET_TAG {
        match decode_str(data, pos + 1) {
            Some((k, kl)) => match decode_str(data, pos + 1 + kl) {
                Some((v, vl)) => Ok(Some((Command::Put(k, v), 1 + kl + vl))),
                None => Err(KvsError::Decode(String::from_str("truncated or corrupt record"))),
            },
            None => Err(KvsError::Decode(String::from_str("truncated or corrupt record"))),
        }
    } else if tag == REMOVE_TAG {
        match decode_str(data, pos + 1) {
            Some((k, kl)) => Ok(Some((Command::Remove(k), 1 + kl))),
            None => Err(KvsError::Decode(String::from_str("truncated or corrupt record"))),
        }
    } else {
        Err(KvsError::Decode(String::from_str("unknown record tag")))
    }
}

} // verus!
