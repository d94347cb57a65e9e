//! The join packet, which may carry a name.
//!
//! ```text
//! byte 0:      0xFF
//! byte 1:      0xFF
//! byte 2:      name length in bytes, 0 for none   (optional)
//! bytes 3..:   the name, UTF-8                    (optional)
//! ```
//!
//! The two-byte rule governs the per-tick action channel. A join happens once,
//! so it can afford to be longer -- and a bare `[0xFF, 0xFF]` is still a valid
//! hello, so bots written before names existed keep working.
use vstd::prelude::*;
use vstd::string::StringSliceAdditionalSpecFns;
use vstd::utf8::{decode_utf8, encode_utf8, is_char_boundary, valid_utf8};

use crate::proto::codec::ProtoError;

use super::packet::HELLO_PLAYER_ID;

verus! {

broadcast use vstd::utf8::group_utf8_lib;

/// Longest name accepted, in bytes. A name is shown in a UI and stored per
/// seat, so it is bounded rather than trusted.
pub const MAX_NAME_BYTES: usize = 24;

#[derive(Debug, Clone, PartialEq, Eq, Default)]
pub struct Hello {
    pub name: Option<String>,
}

impl View for Hello {
    /// The name's characters, if it has one.
    type V = Option<Seq<char>>;

    open spec fn view(&self) -> Option<Seq<char>> {
        match &self.name {
            Some(n) => Some(n@),
            None => None,
        }
    }
}

/// The last character boundary at or before byte `end`.
pub open spec fn boundary_at_or_below(bytes: Seq<u8>, end: int) -> int
    decreases end,
{
    if end <= 0 {
        0
    } else if is_char_boundary(bytes, end) {
        end
    } else {
        boundary_at_or_below(bytes, end - 1)
    }
}

/// How many of `bytes` survive a cut to at most `limit` bytes that never
/// splits a character.
pub open spec fn truncated_len(bytes: Seq<u8>, limit: int) -> int {
    if bytes.len() <= limit {
        bytes.len() as int
    } else {
        boundary_at_or_below(bytes, limit)
    }
}

pub open spec fn truncated(bytes: Seq<u8>, limit: int) -> Seq<u8> {
    bytes.take(truncated_len(bytes, limit))
}

/// The bytes a hello goes out as.
pub open spec fn hello_bytes(name: Option<Seq<char>>) -> Seq<u8> {
    seq![HELLO_PLAYER_ID, 0xFFu8] + match name {
        None => Seq::empty(),
        Some(n) => {
            let t = truncated(encode_utf8(n), MAX_NAME_BYTES as int);
            seq![t.len() as u8] + t
        },
    }
}

/// Reading a hello. The first two bytes are taken as already recognised.
pub open spec fn spec_hello(buf: Seq<u8>) -> Result<Option<Seq<char>>, ProtoError> {
    if buf.len() < 2 {
        Err(ProtoError::Truncated { at: buf.len() as usize, need: (2 - buf.len()) as usize })
    } else if buf.len() == 2 || buf[2] == 0 {
        Ok(None)
    } else {
        let declared = buf[2] as int;
        let available = buf.len() - 3;
        if available < declared {
            Err(
                ProtoError::Truncated {
                    at: (3 + available) as usize,
                    need: (declared - available) as usize,
                },
            )
        } else {
            let raw = buf.subrange(3, 3 + declared);
            if !valid_utf8(raw) {
                Err(ProtoError::InvalidValue { field: "hello_name", value: declared as u32 })
            } else {
                Ok(Some(decode_utf8(truncated(raw, MAX_NAME_BYTES as int))))
            }
        }
    }
}

proof fn lemma_boundary(bytes: Seq<u8>, end: int)
    requires
        valid_utf8(bytes),
        end <= bytes.len(),
    ensures
        0 <= boundary_at_or_below(bytes, end) <= if end < 0 {
            0
        } else {
            end
        },
        is_char_boundary(bytes, boundary_at_or_below(bytes, end)),
    decreases end,
{
    if end > 0 && !is_char_boundary(bytes, end) {
        lemma_boundary(bytes, end - 1);
    }
}

/// A cut never splits a character: what is left is valid UTF-8, at most
/// `limit` bytes long (for a limit that is not negative), and a prefix of the
/// bytes it was cut from.
pub proof fn lemma_truncated(bytes: Seq<u8>, limit: int)
    requires
        valid_utf8(bytes),
        0 <= limit,
    ensures
        valid_utf8(truncated(bytes, limit)),
        truncated(bytes, limit).len() <= limit,
        truncated(bytes, limit).len() <= bytes.len(),
        truncated(bytes, limit) == bytes.subrange(0, truncated_len(bytes, limit)),
        is_char_boundary(bytes, truncated_len(bytes, limit)),
        bytes.len() <= limit ==> truncated(bytes, limit) == bytes,
{
    if bytes.len() <= limit {
        assert(bytes.take(bytes.len() as int) =~= bytes);
    } else {
        lemma_boundary(bytes, limit);
        vstd::utf8::valid_utf8_split(bytes, boundary_at_or_below(bytes, limit));
    }
}

/// A name of at most `MAX_NAME_BYTES` bytes is sent whole; a longer one loses
/// whole characters off its end until it fits.
pub proof fn lemma_hello_roundtrip(name: Option<Seq<char>>)
    ensures
        spec_hello(hello_bytes(name)) == Ok::<Option<Seq<char>>, ProtoError>(
            match name {
                None => None,
                Some(n) => if truncated(encode_utf8(n), MAX_NAME_BYTES as int).len() == 0 {
                    None
                } else {
                    Some(decode_utf8(truncated(encode_utf8(n), MAX_NAME_BYTES as int)))
                },
            },
        ),
        name matches Some(n) && 0 < encode_utf8(n).len() <= MAX_NAME_BYTES ==> spec_hello(
            hello_bytes(name),
        ) == Ok::<Option<Seq<char>>, ProtoError>(name),
{
    let bytes = hello_bytes(name);
    match name {
        None => {
            assert(bytes.len() == 2);
        },
        Some(n) => {
            let b = encode_utf8(n);
            let t = truncated(b, MAX_NAME_BYTES as int);
            lemma_truncated(b, MAX_NAME_BYTES as int);
            assert(bytes[2] == t.len() as u8);
            if t.len() > 0 {
                let raw = bytes.subrange(3, 3 + t.len() as int);
                assert(raw =~= t);
                lemma_truncated(t, MAX_NAME_BYTES as int);
            }
        },
    }
}

impl Hello {
    /// Longest name kept, in bytes; a longer one is cut at a character
    /// boundary.
    pub const MAX_NAME_BYTES: usize = 24;

    pub fn anonymous() -> (h: Self)
        ensures
            h@ == None::<Seq<char>>,
    {
        Hello { name: None }
    }

    pub fn named(name: &str) -> (h: Self)
        ensures
            h@ == Some(name@),
    {
        Hello { name: Some(name.to_owned()) }
    }

    pub fn encode(&self) -> (out: Vec<u8>)
        ensures
            out@ == hello_bytes(self@),
    {
        let mut out: Vec<u8> = Vec::new();
        out.push(HELLO_PLAYER_ID);
        out.push(0xFF);
        match &self.name {
            Some(name) => {
                let text = name.as_str();
                let kept = truncate_on_char_boundary(text, MAX_NAME_BYTES);
                let bytes = kept.as_bytes();
                proof {
                    lemma_truncated(text.spec_bytes(), MAX_NAME_BYTES as int);
                }
                out.push(bytes.len() as u8);
                let ghost start = out@;
                let mut i: usize = 0;
                while i < bytes.len()
                    invariant
                        i <= bytes@.len(),
                        out@ == start + bytes@.take(i as int),
                    decreases bytes@.len() - i,
                {
                    out.push(bytes[i]);
                    i = i + 1;
                    assert(out@ =~= start + bytes@.take(i as int));
                }
                assert(bytes@.take(bytes@.len() as int) =~= bytes@);
                assert(out@ =~= hello_bytes(self@));
            },
            None => {
                assert(out@ =~= hello_bytes(self@));
            },
        }
        out
    }

    /// Read a hello. The caller has already established that this is one.
    ///
    /// An over-long name is truncated rather than refused. Bytes that are not
    /// valid UTF-8 are an error, so the server can say so in its log.
    pub fn decode(buf: &[u8]) -> (res: Result<Self, ProtoError>)
        ensures
            match spec_hello(buf@) {
                Ok(v) => res matches Ok(h) && h@ == v,
                Err(e) => res == Err::<Self, ProtoError>(e),
            },
    {
        if buf.len() < 2 {
            return Err(ProtoError::Truncated { at: buf.len(), need: 2 - buf.len() });
        }
        if buf.len() == 2 {
            return Ok(Hello::anonymous());
        }
        let declared = buf[2] as usize;
        if declared == 0 {
            return Ok(Hello::anonymous());
        }
        let available = buf.len() - 3;
        if available < declared {
            return Err(ProtoError::Truncated { at: 3 + available, need: declared - available });
        }
        let raw = vstd::slice::slice_subrange(buf, 3, 3 + declared);
        let name = match utf8_str(raw) {
            Some(name) => name,
            None => {
                return Err(ProtoError::InvalidValue { field: "hello_name", value: declared as u32 });
            },
        };
        let kept = truncate_on_char_boundary(name, MAX_NAME_BYTES);
        proof {
            lemma_truncated(name.spec_bytes(), MAX_NAME_BYTES as int);
        }
        Ok(Hello { name: Some(kept.to_owned()) })
    }
}

/// `std::str::from_utf8`: the bytes as a string slice when they are valid
/// UTF-8, as its documentation states; nothing otherwise.
#[verifier::external_body]
fn utf8_str(bytes: &[u8]) -> (res: Option<&str>)
    ensures
        res is Some <==> valid_utf8(bytes@),
        res matches Some(s) ==> s.spec_bytes() == bytes@,
{
    std::str::from_utf8(bytes).ok()
}

/// Cut to at most `limit` bytes without splitting a character in half.
pub fn truncate_on_char_boundary(text: &str, limit: usize) -> (out: &str)
    ensures
        out.spec_bytes() == truncated(text.spec_bytes(), limit as int),
        out@ == decode_utf8(truncated(text.spec_bytes(), limit as int)),
{
    let ghost bytes = text.spec_bytes();
    proof {
        lemma_truncated(bytes, limit as int);
    }
    let raw = text.as_bytes();
    if raw.len() <= limit {
        assert(truncated(bytes, limit as int) == bytes);
        assert(decode_utf8(encode_utf8(text@)) == text@);
        return text;
    }
    let mut end = limit;
    while end > 0 && !text.is_char_boundary(end)
        invariant
            bytes == text.spec_bytes(),
            end <= limit < bytes.len(),
            boundary_at_or_below(bytes, end as int) == boundary_at_or_below(bytes, limit as int),
        decreases end,
    {
        end = end - 1;
    }
    let (head, _) = text.split_at(end);
    assert(head.spec_bytes() =~= truncated(bytes, limit as int));
    head
}

} // verus!
