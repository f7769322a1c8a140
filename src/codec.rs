//! Little-endian, length-prefixed primitives of the module wire format.

use vstd::prelude::*;
use vstd::utf8::{decode_utf8, encode_utf8, valid_utf8};

verus! {

broadcast use vstd::utf8::encode_utf8_valid_utf8, vstd::utf8::encode_utf8_decode_utf8;

/// The two little-endian bytes of a word.
pub open spec fn le16(v: u16) -> Seq<u8> {
    seq![(v % 256) as u8, (v / 256) as u8]
}

/// The word held in two little-endian bytes.
pub open spec fn word_of(lo: u8, hi: u8) -> u16 {
    (lo + 256 * hi) as u16
}

/// `e` stands in `bytes` at `pos`.
pub open spec fn is_prefix_at(bytes: Seq<u8>, pos: int, e: Seq<u8>) -> bool {
    0 <= pos && pos + e.len() <= bytes.len() && bytes.subrange(pos, pos + e.len()) == e
}

pub proof fn lemma_prefix_split(bytes: Seq<u8>, pos: int, a: Seq<u8>, b: Seq<u8>)
    requires
        is_prefix_at(bytes, pos, a + b),
    ensures
        is_prefix_at(bytes, pos, a),
        is_prefix_at(bytes, pos + a.len(), b),
{
    let full = bytes.subrange(pos, pos + (a + b).len());
    assert(bytes.subrange(pos, pos + a.len()) =~= full.subrange(0, a.len() as int));
    assert(full.subrange(0, a.len() as int) =~= a);
    assert(bytes.subrange(pos + a.len(), pos + a.len() + b.len()) =~= full.subrange(
        a.len() as int,
        (a + b).len() as int,
    ));
    assert(full.subrange(a.len() as int, (a + b).len() as int) =~= b);
}

pub proof fn lemma_prefix_join(bytes: Seq<u8>, pos: int, a: Seq<u8>, b: Seq<u8>)
    requires
        is_prefix_at(bytes, pos, a),
        is_prefix_at(bytes, pos + a.len(), b),
    ensures
        is_prefix_at(bytes, pos, a + b),
{
    assert(bytes.subrange(pos, pos + a.len() + b.len()) =~= bytes.subrange(pos, pos + a.len())
        + bytes.subrange(pos + a.len(), pos + a.len() + b.len()));
}

/// Text: one length byte, then the UTF-8 bytes.
pub open spec fn enc_text(s: Seq<char>) -> Seq<u8> {
    seq![encode_utf8(s).len() as u8] + encode_utf8(s)
}

/// A byte sequence behind a word length prefix.
pub open spec fn enc_word_bytes(b: Seq<u8>) -> Seq<u8> {
    le16(b.len() as u16) + b
}

/// Why reading failed below the level of the module's own fields.
#[derive(Clone, Debug, PartialEq, Eq)]
pub enum ReadError {
    /// The input ended before the field was complete.
    Eof,
    /// Text bytes that are not UTF-8; the bytes are kept.
    NonUtf8(Vec<u8>),
}

/// Relies on std's `String::from_utf8`: it accepts exactly the valid UTF-8
/// byte sequences, and the string holds the characters they encode.
#[verifier::external_body]
fn string_from_utf8(bytes: Vec<u8>) -> (r: Option<String>)
    ensures
        match r {
            Some(s) => valid_utf8(bytes@) && s@ == decode_utf8(bytes@),
            None => !valid_utf8(bytes@),
        },
{
    String::from_utf8(bytes).ok()
}

pub proof fn lemma_word_round_trip(v: u16)
    ensures
        word_of(le16(v)[0], le16(v)[1]) == v,
{
}

pub proof fn lemma_word_at(bytes: Seq<u8>, pos: int, w: u16)
    requires
        0 <= pos,
        pos + 2 <= bytes.len(),
        bytes.subrange(pos, pos + 2) == le16(w),
    ensures
        word_of(bytes[pos], bytes[pos + 1]) == w,
{
    assert(bytes[pos] == le16(w)[0]);
    assert(bytes[pos + 1] == le16(w)[1]);
    lemma_word_round_trip(w);
}

pub proof fn lemma_le16_of_word(bytes: Seq<u8>, pos: int, w: u16)
    requires
        0 <= pos,
        pos + 2 <= bytes.len(),
        w == word_of(bytes[pos], bytes[pos + 1]),
    ensures
        bytes.subrange(pos, pos + 2) == le16(w),
{
    assert(bytes[pos] == (w % 256) as u8) by (nonlinear_arith)
        requires w == (bytes[pos] + 256 * bytes[pos + 1]) as u16, bytes[pos] < 256, bytes[pos + 1] < 256;
    assert(bytes[pos + 1] == (w / 256) as u8) by (nonlinear_arith)
        requires w == (bytes[pos] + 256 * bytes[pos + 1]) as u16, bytes[pos] < 256, bytes[pos + 1] < 256;
    assert(bytes.subrange(pos, pos + 2) =~= le16(w));
}

/// Appends a byte.
pub fn put_u8(out: &mut Vec<u8>, v: u8)
    ensures
        final(out)@ == old(out)@ + seq![v],
{
    out.push(v);
    assert(out@ =~= old(out)@ + seq![v]);
}

/// Appends a word, least significant byte first.
pub fn put_u16(out: &mut Vec<u8>, v: u16)
    ensures
        final(out)@ == old(out)@ + le16(v),
{
    out.push((v % 256) as u8);
    out.push((v / 256) as u8);
    assert(out@ =~= old(out)@ + le16(v));
}

/// Appends raw bytes.
pub fn put_bytes(out: &mut Vec<u8>, b: &[u8])
    ensures
        final(out)@ == old(out)@ + b@,
{
    let ghost start = out@;
    let mut i: usize = 0;
    while i < b.len()
        invariant
            0 <= i <= b.len(),
            out@ == start + b@.take(i as int),
        decreases b.len() - i,
    {
        out.push(b[i]);
        i = i + 1;
        assert(out@ =~= start + b@.take(i as int));
    }
    assert(b@.take(i as int) =~= b@);
}

/// Appends text behind its length byte; `false`, with nothing written, when
/// it is longer than 255 bytes.
pub fn put_text(out: &mut Vec<u8>, s: &String) -> (r: bool)
    ensures
        r <==> encode_utf8(s@).len() <= 255,
        r ==> final(out)@ == old(out)@ + enc_text(s@),
        !r ==> final(out)@ == old(out)@,
{
    let b = s.as_str().as_bytes();
    if b.len() > 255 {
        return false;
    }
    put_u8(out, b.len() as u8);
    put_bytes(out, b);
    assert(out@ =~= old(out)@ + enc_text(s@));
    true
}

/// Appends bytes behind a word length prefix; `false`, with nothing written,
/// when there are more than 65535 of them.
pub fn put_word_bytes(out: &mut Vec<u8>, b: &[u8]) -> (r: bool)
    ensures
        r <==> b@.len() <= 65535,
        r ==> final(out)@ == old(out)@ + enc_word_bytes(b@),
        !r ==> final(out)@ == old(out)@,
{
    if b.len() > 65535 {
        return false;
    }
    put_u16(out, b.len() as u16);
    put_bytes(out, b);
    assert(out@ =~= old(out)@ + enc_word_bytes(b@));
    true
}

/// Reads a byte at `pos`.
pub fn get_u8(bytes: &[u8], pos: usize) -> (r: Result<(u8, usize), ReadError>)
    ensures
        pos < bytes@.len() ==> r == Ok::<(u8, usize), ReadError>((bytes@[pos as int], (pos + 1) as usize)),
        pos >= bytes@.len() ==> r == Err::<(u8, usize), ReadError>(ReadError::Eof),
{
    if pos < bytes.len() {
        Ok((bytes[pos], pos + 1))
    } else {
        Err(ReadError::Eof)
    }
}

/// Reads a little-endian word at `pos`.
pub fn get_u16(bytes: &[u8], pos: usize) -> (r: Result<(u16, usize), ReadError>)
    ensures
        pos + 2 <= bytes@.len() ==> r == Ok::<(u16, usize), ReadError>(
            (word_of(bytes@[pos as int], bytes@[pos + 1]), (pos + 2) as usize),
        ),
        pos + 2 > bytes@.len() ==> r == Err::<(u16, usize), ReadError>(ReadError::Eof),
{
    if pos < bytes.len() && bytes.len() - pos >= 2 {
        let lo = bytes[pos] as u16;
        let hi = bytes[pos + 1] as u16;
        Ok((lo + 256 * hi, pos + 2))
    } else {
        Err(ReadError::Eof)
    }
}

/// Reads `len` raw bytes at `pos`.
pub fn get_bytes(bytes: &[u8], pos: usize, len: usize) -> (r: Result<(Vec<u8>, usize), ReadError>)
    ensures
        pos + len <= bytes@.len() ==> (r matches Ok((v, p)) && v@ == bytes@.subrange(
            pos as int,
            pos + len,
        ) && p == pos + len),
        pos + len > bytes@.len() ==> r matches Err(ReadError::Eof),
{
    if pos > bytes.len() || bytes.len() - pos < len {
        return Err(ReadError::Eof);
    }
    let n = bytes.len();
    let mut v: Vec<u8> = Vec::new();
    let mut i: usize = 0;
    while i < len
        invariant
            0 <= i <= len,
            n == bytes@.len(),
            pos + len <= n,
            v@ == bytes@.subrange(pos as int, pos + i),
        decreases len - i,
    {
        v.push(bytes[pos + i]);
        i = i + 1;
        assert(v@ =~= bytes@.subrange(pos as int, pos + i));
    }
    Ok((v, pos + len))
}

/// Reads bytes behind a word length prefix at `pos`.
pub fn get_word_bytes(bytes: &[u8], pos: usize) -> (r: Result<(Vec<u8>, usize), ReadError>)
    ensures
        r matches Ok((v, p)) ==> pos < p <= bytes@.len() && bytes@.subrange(pos as int, p as int)
            == enc_word_bytes(v@) && v@.len() <= 65535,
        r matches Err(e) ==> e == ReadError::Eof,
        pos + 2 <= bytes@.len() && pos + 2 + word_of(bytes@[pos as int], bytes@[pos + 1]) > bytes@.len()
            ==> r matches Err(ReadError::Eof),
        forall|b: Seq<u8>|
            #![trigger enc_word_bytes(b)]
            b.len() <= 65535 && pos + enc_word_bytes(b).len() <= bytes@.len()
                && bytes@.subrange(pos as int, pos + enc_word_bytes(b).len()) == enc_word_bytes(b)
                ==> (r matches Ok((v, p)) && v@ == b && p == pos + enc_word_bytes(b).len()),
{
    let n = bytes.len();
    if pos >= n || n - pos < 2 {
        return Err(ReadError::Eof);
    }
    let len = bytes[pos] as usize + 256 * (bytes[pos + 1] as usize);
    let p = pos + 2;
    proof {
        assert forall|b: Seq<u8>|
            #![trigger enc_word_bytes(b)]
            b.len() <= 65535 && pos + enc_word_bytes(b).len() <= bytes@.len()
                && bytes@.subrange(pos as int, pos + enc_word_bytes(b).len()) == enc_word_bytes(b)
            implies len == b.len() by {
            let e = enc_word_bytes(b);
            assert(bytes@[pos as int] == e[0]);
            assert(bytes@[pos + 1] == e[1]);
        }
    }
    if n - p < len {
        return Err(ReadError::Eof);
    }
    let (v, q) = match get_bytes(bytes, p, len) {
        Ok(x) => x,
        Err(e) => {
            return Err(e);
        },
    };
    proof {
        assert((len as u16) as int == len);
        assert(bytes@.subrange(pos as int, q as int) =~= enc_word_bytes(v@));
        assert forall|b: Seq<u8>|
            #![trigger enc_word_bytes(b)]
            b.len() <= 65535 && pos + enc_word_bytes(b).len() <= bytes@.len()
                && bytes@.subrange(pos as int, pos + enc_word_bytes(b).len()) == enc_word_bytes(b)
            implies v@ == b && q == pos + enc_word_bytes(b).len() by {
            let e = enc_word_bytes(b);
            assert(v@ =~= b) by {
                assert forall|k: int| 0 <= k < b.len() implies v@[k] == b[k] by {
                    assert(bytes@[pos + 2 + k] == e[2 + k]);
                }
            }
        }
    }
    Ok((v, q))
}

/// Reads text behind a length byte at `pos`.
pub fn get_text(bytes: &[u8], pos: usize) -> (r: Result<(String, usize), ReadError>)
    ensures
        r matches Ok((s, p)) ==> pos < p <= bytes@.len() && bytes@.subrange(pos as int, p as int)
            == enc_text(s@) && encode_utf8(s@).len() <= 255,
        r matches Err(ReadError::NonUtf8(b)) ==> !valid_utf8(b@),
        pos >= bytes@.len() ==> r matches Err(ReadError::Eof),
        pos < bytes@.len() && pos + 1 + bytes@[pos as int] <= bytes@.len() && !valid_utf8(
            bytes@.subrange(pos + 1, pos + 1 + bytes@[pos as int]),
        ) ==> r matches Err(ReadError::NonUtf8(_)),
        forall|s: Seq<char>|
            #![trigger enc_text(s)]
            encode_utf8(s).len() <= 255 && pos + enc_text(s).len() <= bytes@.len()
                && bytes@.subrange(pos as int, pos + enc_text(s).len()) == enc_text(s)
                ==> (r matches Ok((t, p)) && t@ == s && p == pos + enc_text(s).len()),
{
    let n = bytes.len();
    if pos >= n {
        return Err(ReadError::Eof);
    }
    let len = bytes[pos] as usize;
    let p = pos + 1;
    proof {
        assert forall|t: Seq<char>|
            #![trigger enc_text(t)]
            encode_utf8(t).len() <= 255 && pos + enc_text(t).len() <= bytes@.len()
                && bytes@.subrange(pos as int, pos + enc_text(t).len()) == enc_text(t)
            implies len == encode_utf8(t).len() by {
            let e = enc_text(t);
            assert(bytes@[pos as int] == e[0]);
        }
    }
    if n - p < len {
        return Err(ReadError::Eof);
    }
    let (v, q) = match get_bytes(bytes, p, len) {
        Ok(x) => x,
        Err(e) => {
            return Err(e);
        },
    };
    let ghost vb = v@;
    proof {
        assert forall|t: Seq<char>|
            #![trigger enc_text(t)]
            encode_utf8(t).len() <= 255 && pos + enc_text(t).len() <= bytes@.len()
                && bytes@.subrange(pos as int, pos + enc_text(t).len()) == enc_text(t)
            implies vb == encode_utf8(t) && q == pos + enc_text(t).len() by {
            let e = enc_text(t);
            assert(vb =~= encode_utf8(t)) by {
                assert forall|k: int| 0 <= k < vb.len() implies vb[k] == encode_utf8(t)[k] by {
                    assert(bytes@[pos + 1 + k] == e[1 + k]);
                }
            }
        }
    }
    let kept = copy_bytes(&v);
    match string_from_utf8(v) {
        Some(s) => {
            proof {
                vstd::utf8::decode_utf8_encode_utf8(vb);
                assert(bytes@.subrange(pos as int, q as int) =~= enc_text(s@));
            }
            Ok((s, q))
        },
        None => Err(ReadError::NonUtf8(kept)),
    }
}

/// Copies a byte vector.
pub fn copy_bytes(b: &Vec<u8>) -> (r: Vec<u8>)
    ensures
        r@ == b@,
{
    let mut r: Vec<u8> = Vec::new();
    put_bytes(&mut r, b.as_slice());
    assert(r@ =~= b@);
    r
}

} // verus!
