//! Wire message framing.
//!
//! A frame is `u16 name_length | name bytes (UTF-8) | i32 data_length |
//! data bytes`, both lengths big-endian.  A decoder treats a frame as
//! incomplete — not invalid — until all declared bytes have arrived, and
//! rejects a frame only when the name bytes fail UTF-8 decoding.
use vstd::prelude::*;
use vstd::string::StrSliceExecFns;
use vstd::utf8::{decode_utf8, encode_utf8, valid_utf8};

verus! {

/// A message on the wire: a name and an opaque payload.
#[derive(Debug)]
pub struct Message {
    pub name: String,
    pub data: Vec<u8>,
}

/// The one way a complete frame can be rejected.
#[derive(Clone, Copy, PartialEq, Eq, Structural, Debug)]
pub enum DecodeError {
    /// The name bytes of the frame are not valid UTF-8.
    InvalidName,
}

/// Big-endian bytes of a 16-bit length.
pub open spec fn be16(n: int) -> Seq<u8> {
    seq![(n / 256) as u8, (n % 256) as u8]
}

/// The 16-bit length read from two big-endian bytes.
pub open spec fn from_be16(b0: u8, b1: u8) -> int {
    b0 * 256 + b1
}

/// Big-endian bytes of a 32-bit length.
pub open spec fn be32(n: int) -> Seq<u8> {
    seq![
        (n / 0x100_0000) as u8,
        ((n / 0x1_0000) % 256) as u8,
        ((n / 256) % 256) as u8,
        (n % 256) as u8,
    ]
}

/// The 32-bit length read from four big-endian bytes.
pub open spec fn from_be32(b0: u8, b1: u8, b2: u8, b3: u8) -> int {
    b0 * 0x100_0000 + b1 * 0x1_0000 + b2 * 256 + b3
}

/// The frame that `name_bytes` and `data` occupy on the wire.
pub open spec fn pack_bytes_spec(name_bytes: Seq<u8>, data: Seq<u8>) -> Seq<u8> {
    be16(name_bytes.len() as int) + name_bytes + be32(data.len() as int) + data
}

/// What decoding a buffer yields.
pub ghost enum DecodeOutcome {
    /// Not all declared bytes have arrived yet; nothing is consumed.
    Incomplete,
    /// A complete frame whose name bytes are not UTF-8; the frame is
    /// consumed.
    InvalidName { consumed: int },
    /// A complete frame; the frame is consumed.
    Frame { name: Seq<char>, data: Seq<u8>, consumed: int },
}

/// What decoding the given buffer yields.
///
/// A declared data length with the sign bit set can never be satisfied
/// (a declared length is a non-negative 31-bit value), so such a frame
/// stays incomplete forever rather than consuming bytes wrongly.
pub open spec fn decode_spec(src: Seq<u8>) -> DecodeOutcome {
    if src.len() < 2 {
        DecodeOutcome::Incomplete
    } else {
        let name_len = from_be16(src[0], src[1]);
        if src.len() < 2 + name_len + 4 {
            DecodeOutcome::Incomplete
        } else {
            let data_len = from_be32(
                src[2 + name_len],
                src[3 + name_len],
                src[4 + name_len],
                src[5 + name_len],
            );
            if data_len >= 0x8000_0000 {
                DecodeOutcome::Incomplete
            } else if src.len() < 6 + name_len + data_len {
                DecodeOutcome::Incomplete
            } else {
                let name_bytes = src.subrange(2, 2 + name_len);
                let data = src.subrange(6 + name_len, 6 + name_len + data_len);
                if valid_utf8(name_bytes) {
                    DecodeOutcome::Frame {
                        name: decode_utf8(name_bytes),
                        data,
                        consumed: 6 + name_len + data_len,
                    }
                } else {
                    DecodeOutcome::InvalidName { consumed: 6 + name_len + data_len }
                }
            }
        }
    }
}

/// Relies on `String::from_utf8`: it returns the decoded string exactly
/// when the bytes are valid UTF-8, and fails otherwise.
#[verifier::external_body]
fn bytes_to_string(bytes: Vec<u8>) -> (r: Option<String>)
    ensures
        match r {
            Some(s) => valid_utf8(bytes@) && s@ == decode_utf8(bytes@),
            None => !valid_utf8(bytes@),
        },
{
    String::from_utf8(bytes).ok()
}

/// The bytes of `src` from `start` (inclusive) to `end` (exclusive).
pub fn copy_range(src: &Vec<u8>, start: usize, end: usize) -> (r: Vec<u8>)
    requires
        start <= end <= src.len(),
    ensures
        r@ == src@.subrange(start as int, end as int),
{
    let mut out: Vec<u8> = Vec::new();
    let mut i: usize = start;
    while i < end
        invariant
            start <= i <= end <= src.len(),
            out@ == src@.subrange(start as int, i as int),
        decreases end - i,
    {
        out.push(src[i]);
        proof {
            assert(src@.subrange(start as int, i + 1) =~= src@.subrange(start as int, i as int)
                .push(src@[i as int]));
        }
        i += 1;
    }
    out
}

/// Appends the big-endian encoding of a 16-bit length, then the bytes of
/// `string`, to `buf`.
pub fn pack_str(string: &str, buf: &mut Vec<u8>)
    requires
        encode_utf8(string@).len() <= 65535,
    ensures
        final(buf)@ == old(buf)@ + be16(encode_utf8(string@).len() as int) + encode_utf8(string@),
{
    let bytes = string.as_bytes_vec();
    let len: u16 = bytes.len() as u16;
    buf.push((len / 256) as u8);
    buf.push((len % 256) as u8);
    let ghost mid = buf@;
    let mut i: usize = 0;
    while i < bytes.len()
        invariant
            0 <= i <= bytes.len(),
            buf@ == mid + bytes@.subrange(0, i as int),
            mid == old(buf)@ + be16(bytes@.len() as int),
            bytes@ == encode_utf8(string@),
        decreases bytes.len() - i,
    {
        buf.push(bytes[i]);
        proof {
            assert(bytes@.subrange(0, i + 1) =~= bytes@.subrange(0, i as int).push(
                bytes@[i as int]));
        }
        i += 1;
    }
    proof {
        assert(buf@ =~= old(buf)@ + be16(encode_utf8(string@).len() as int) + encode_utf8(
            string@));
    }
}

impl Message {
    /// The frame limits: the name at most 65535 bytes, the payload at most
    /// `i32::MAX` bytes.
    pub open spec fn wf(self) -> bool {
        &&& encode_utf8(self.name@).len() <= 65535
        &&& self.data@.len() <= 0x7fff_ffff
    }

    /// Whether this message fits the frame limits; see [`Message::wf`].
    pub fn check_wf(&self) -> (b: bool)
        ensures
            b == self.wf(),
    {
        self.name.as_str().as_bytes_vec().len() <= 65535 && self.data.len() <= 0x7fff_ffff
    }

    /// The full frame of this message.
    pub fn pack(&self) -> (r: Vec<u8>)
        requires
            self.wf(),
        ensures
            r@ == pack_bytes_spec(encode_utf8(self.name@), self.data@),
    {
        let mut buf: Vec<u8> = Vec::new();
        pack_str(self.name.as_str(), &mut buf);
        let dlen: u32 = self.data.len() as u32;
        buf.push((dlen / 0x100_0000) as u8);
        buf.push(((dlen / 0x1_0000) % 256) as u8);
        buf.push(((dlen / 256) % 256) as u8);
        buf.push((dlen % 256) as u8);
        let ghost mid = buf@;
        let mut i: usize = 0;
        while i < self.data.len()
            invariant
                0 <= i <= self.data.len(),
                buf@ == mid + self.data@.subrange(0, i as int),
            decreases self.data.len() - i,
        {
            buf.push(self.data[i]);
            proof {
                assert(self.data@.subrange(0, i + 1) =~= self.data@.subrange(0, i as int).push(
                    self.data@[i as int]));
            }
            i += 1;
        }
        proof {
            assert(buf@ =~= pack_bytes_spec(encode_utf8(self.name@), self.data@));
        }
        buf
    }
}

/// Splits a stream of bytes into frames.
pub struct MessageDecoder;

impl MessageDecoder {
    /// Takes one frame off the front of `src` if one has fully arrived.
    ///
    /// An incomplete frame leaves `src` unchanged and yields `Ok(None)`.
    /// A complete frame is consumed; it yields the message, or
    /// [`DecodeError::InvalidName`] when its name bytes are not UTF-8.
    pub fn decode(&mut self, src: &mut Vec<u8>) -> (r: Result<Option<Message>, DecodeError>)
        ensures
            decode_spec(old(src)@) is Incomplete ==> r is Ok && r->Ok_0 is None && final(src)@
                == old(src)@,
            decode_spec(old(src)@) matches DecodeOutcome::InvalidName { consumed } ==> r
                == Err::<Option<Message>, DecodeError>(DecodeError::InvalidName) && final(src)@
                == old(src)@.skip(consumed),
            decode_spec(old(src)@) matches DecodeOutcome::Frame { name, data, consumed } ==> {
                &&& r is Ok
                &&& r->Ok_0 is Some
                &&& r->Ok_0->0.name@ == name
                &&& r->Ok_0->0.data@ == data
                &&& final(src)@ == old(src)@.skip(consumed)
            },
    {
        if src.len() < 2 {
            // Have not received the name length prefix yet.
            return Ok(None);
        }
        let name_len: usize = (src[0] as usize) * 256 + (src[1] as usize);

        if src.len() < 2 + name_len + 4 {
            // Have not received the name and the data length yet.
            return Ok(None);
        }
        let data_len_raw: u32 = (src[2 + name_len] as u32) * 0x100_0000 + (src[3 + name_len]
            as u32) * 0x1_0000 + (src[4 + name_len] as u32) * 256 + (src[5 + name_len] as u32);
        if data_len_raw >= 0x8000_0000 {
            // A sign-bit length never has all its bytes arrive.
            return Ok(None);
        }
        let data_len: usize = data_len_raw as usize;

        if src.len() < 6 + name_len + data_len {
            // Have not received the data yet.
            return Ok(None);
        }

        // The full frame is here.
        let name_bytes = copy_range(src, 2, 2 + name_len);
        let data = copy_range(src, 6 + name_len, 6 + name_len + data_len);
        let rest = copy_range(src, 6 + name_len + data_len, src.len());
        proof {
            assert(rest@ =~= old(src)@.skip(6 + name_len + data_len));
        }
        *src = rest;

        match bytes_to_string(name_bytes) {
            Some(name) => Ok(Some(Message { name, data })),
            None => Err(DecodeError::InvalidName),
        }
    }
}

/// The string read from a 16-bit length prefix and that many UTF-8 bytes.
pub open spec fn unpack_string_spec(d: Seq<u8>) -> Option<Seq<char>> {
    if d.len() < 2 {
        None
    } else {
        let len = from_be16(d[0], d[1]);
        if d.len() < 2 + len {
            None
        } else {
            let name_bytes = d.subrange(2, 2 + len);
            if valid_utf8(name_bytes) {
                Some(decode_utf8(name_bytes))
            } else {
                None
            }
        }
    }
}

/// Reads a string with a 16-bit length prefix off the front of `data`.
///
/// Yields nothing when the prefix or the declared bytes are missing, or
/// when the declared bytes are not valid UTF-8.
pub fn unpack_string(data: &Vec<u8>) -> (r: Option<String>)
    ensures
        match r {
            Some(s) => unpack_string_spec(data@) == Some(s@),
            None => unpack_string_spec(data@) is None,
        },
{
    if data.len() < 2 {
        // The length prefix has not arrived.
        return None;
    }
    let len: usize = (data[0] as usize) * 256 + (data[1] as usize);
    if data.len() < 2 + len {
        return None;
    }
    let utf8_data = copy_range(data, 2, 2 + len);
    bytes_to_string(utf8_data)
}

/// Framing and decoding are inverse: a well-formed name and payload,
/// packed and then decoded (with anything following in the buffer), come
/// back unchanged, with exactly the frame consumed.
pub proof fn lemma_pack_decode_roundtrip(name: Seq<char>, data: Seq<u8>, rest: Seq<u8>)
    requires
        encode_utf8(name).len() <= 65535,
        data.len() <= 0x7fff_ffff,
    ensures
        decode_spec(pack_bytes_spec(encode_utf8(name), data) + rest) == (DecodeOutcome::Frame {
            name,
            data,
            consumed: 6 + encode_utf8(name).len() as int + data.len() as int,
        }),
{
    broadcast use vstd::utf8::encode_utf8_valid_utf8;
    broadcast use vstd::utf8::encode_utf8_decode_utf8;

    let nb = encode_utf8(name);
    let nl = nb.len() as int;
    let dl = data.len() as int;
    let src = pack_bytes_spec(nb, data) + rest;

    assert(src.len() == 6 + nl + dl + rest.len());
    assert(src[0] == (nl / 256) as u8);
    assert(src[1] == (nl % 256) as u8);
    assert(0 <= nl / 256 < 256 && 0 <= nl % 256 < 256) by (nonlinear_arith)
        requires
            0 <= nl <= 65535,
    ;
    assert(from_be16(src[0], src[1]) == nl) by {
        vstd::arithmetic::div_mod::lemma_fundamental_div_mod(nl, 256);
    }

    assert(src[2 + nl] == (dl / 0x100_0000) as u8);
    assert(src[3 + nl] == ((dl / 0x1_0000) % 256) as u8);
    assert(src[4 + nl] == ((dl / 256) % 256) as u8);
    assert(src[5 + nl] == (dl % 256) as u8);
    assert(0 <= dl / 0x100_0000 < 128 && 0 <= (dl / 0x1_0000) % 256 < 256 && 0 <= (dl / 256)
        % 256 < 256 && 0 <= dl % 256 < 256) by (nonlinear_arith)
        requires
            0 <= dl <= 0x7fff_ffff,
    ;
    assert((dl / 0x100_0000) * 0x100_0000 + ((dl / 0x1_0000) % 256) * 0x1_0000 + ((dl / 256)
        % 256) * 256 + dl % 256 == dl) by (nonlinear_arith)
        requires
            0 <= dl <= 0x7fff_ffff,
    ;
    assert(from_be32(src[2 + nl], src[3 + nl], src[4 + nl], src[5 + nl]) == dl);
    assert(dl < 0x8000_0000);

    assert(src.subrange(2, 2 + nl) =~= nb);
    assert(src.subrange(6 + nl, 6 + nl + dl) =~= data);
    assert(valid_utf8(nb));
    assert(decode_utf8(nb) == name);
}

} // verus!
