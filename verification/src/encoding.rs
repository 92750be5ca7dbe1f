//! Numbers and strings as bytes.
//!
//! A number takes eight bytes, the lowest first. A string is the number of its bytes, followed by
//! its bytes in UTF-8.
use vstd::bytes;
use vstd::prelude::*;
use vstd::slice;
use vstd::utf8;

verus! {

/// The bytes of a number.
pub open spec fn u64_bytes(n: u64) -> Seq<u8> {
    bytes::spec_u64_to_le_bytes(n)
}

/// The bytes of a string.
pub open spec fn str_bytes(s: Seq<char>) -> Seq<u8> {
    u64_bytes(utf8::encode_utf8(s).len() as u64) + utf8::encode_utf8(s)
}

/// The number at position `pos` of `b`, and the position behind it.
pub open spec fn u64_at(b: Seq<u8>, pos: int) -> Option<(u64, int)> {
    if 0 <= pos && pos + 8 <= b.len() {
        Some((bytes::spec_u64_from_le_bytes(b.subrange(pos, pos + 8)), pos + 8))
    } else {
        None
    }
}

/// The string at position `pos` of `b`, and the position behind it.
pub open spec fn str_at(b: Seq<u8>, pos: int) -> Option<(Seq<char>, int)> {
    match u64_at(b, pos) {
        Some((len, start)) => text_at(b, start, len as int),
        None => None,
    }
}

/// The text whose UTF-8 bytes are the `len` bytes at position `start` of `b`, and the position
/// behind it.
pub open spec fn text_at(b: Seq<u8>, start: int, len: int) -> Option<(Seq<char>, int)> {
    if 0 <= start && 0 <= len && start + len <= b.len() && utf8::valid_utf8(b.subrange(start, start + len)) {
        Some((utf8::decode_utf8(b.subrange(start, start + len)), start + len))
    } else {
        None
    }
}

/// A number takes eight bytes, the lowest first.
pub proof fn law_lowest_byte_comes_first(n: u64)
    ensures
        u64_bytes(n).len() == 8,
        u64_bytes(n)[0] == (n & 0xff) as u8,
        u64_bytes(n)[1] == ((n >> 8) & 0xff) as u8,
        u64_bytes(n)[2] == ((n >> 16) & 0xff) as u8,
        u64_bytes(n)[3] == ((n >> 24) & 0xff) as u8,
        u64_bytes(n)[4] == ((n >> 32) & 0xff) as u8,
        u64_bytes(n)[5] == ((n >> 40) & 0xff) as u8,
        u64_bytes(n)[6] == ((n >> 48) & 0xff) as u8,
        u64_bytes(n)[7] == ((n >> 56) & 0xff) as u8,
{
    bytes::spec_u64_to_le_bytes_to_open(n);
}

/// `part` stands in `b` at position `pos`.
pub open spec fn holds(b: Seq<u8>, pos: int, part: Seq<u8>) -> bool {
    0 <= pos && pos + part.len() <= b.len() && b.subrange(pos, pos + part.len()) == part
}

/// Where a sequence stands, its two parts stand one behind the other.
pub proof fn lemma_holds_split(b: Seq<u8>, pos: int, front: Seq<u8>, back: Seq<u8>)
    requires
        holds(b, pos, front + back),
    ensures
        holds(b, pos, front),
        holds(b, pos + front.len(), back),
{
    let whole = b.subrange(pos, pos + (front + back).len());
    assert(b.subrange(pos, pos + front.len()) =~= front) by {
        assert forall|i: int| 0 <= i < front.len() implies b[pos + i] == front[i] by {
            assert(whole[i] == (front + back)[i]);
        }
    }
    assert(b.subrange(pos + front.len(), pos + front.len() + back.len()) =~= back) by {
        assert forall|i: int| 0 <= i < back.len() implies b[pos + front.len() + i] == back[i] by {
            assert(whole[front.len() + i] == (front + back)[front.len() + i]);
        }
    }
}

/// A number takes eight bytes.
pub proof fn lemma_u64_len(n: u64)
    ensures
        u64_bytes(n).len() == 8,
{
    bytes::lemma_auto_spec_u64_to_from_le_bytes();
}

/// Reading gives back the number that was written.
pub proof fn lemma_u64_at(b: Seq<u8>, pos: int, n: u64)
    requires
        holds(b, pos, u64_bytes(n)),
    ensures
        u64_bytes(n).len() == 8,
        u64_at(b, pos) == Some((n, pos + 8)),
{
    bytes::lemma_auto_spec_u64_to_from_le_bytes();
}

/// Reading gives back the text that was written.
pub proof fn lemma_text_at(b: Seq<u8>, pos: int, s: Seq<char>)
    requires
        holds(b, pos, utf8::encode_utf8(s)),
    ensures
        text_at(b, pos, utf8::encode_utf8(s).len() as int) == Some((s, pos + utf8::encode_utf8(s).len())),
{
    utf8::encode_utf8_valid_utf8(s);
    utf8::encode_utf8_decode_utf8(s);
}

/// Reading gives back the string that was written.
pub proof fn lemma_str_at(b: Seq<u8>, pos: int, s: Seq<char>)
    requires
        holds(b, pos, str_bytes(s)),
        utf8::encode_utf8(s).len() <= u64::MAX,
    ensures
        str_at(b, pos) == Some((s, pos + str_bytes(s).len())),
{
    let len = utf8::encode_utf8(s).len() as u64;
    lemma_holds_split(b, pos, u64_bytes(len), utf8::encode_utf8(s));
    lemma_u64_at(b, pos, len);
    lemma_text_at(b, pos + 8, s);
}

/// What can be read stays the same when more bytes follow.
pub proof fn lemma_u64_extend(b: Seq<u8>, more: Seq<u8>, pos: int)
    requires
        u64_at(b, pos) is Some,
    ensures
        u64_at(b + more, pos) == u64_at(b, pos),
{
    assert((b + more).subrange(pos, pos + 8) =~= b.subrange(pos, pos + 8));
}

/// What can be read stays the same when more bytes follow.
pub proof fn lemma_str_extend(b: Seq<u8>, more: Seq<u8>, pos: int)
    requires
        str_at(b, pos) is Some,
    ensures
        str_at(b + more, pos) == str_at(b, pos),
{
    lemma_u64_extend(b, more, pos);
    let (len, start) = u64_at(b, pos).unwrap();
    assert((b + more).subrange(start, start + len) =~= b.subrange(start, start + len));
}

/// `std::str::from_utf8`: the string whose UTF-8 encoding is `b`, or `None` where `b` is not valid
/// UTF-8.
#[verifier::external_body]
fn utf8_str(b: &[u8]) -> (s: Option<&str>)
    ensures
        match s {
            Some(text) => utf8::valid_utf8(b@) && text@ == utf8::decode_utf8(b@),
            None => !utf8::valid_utf8(b@),
        },
{
    std::str::from_utf8(b).ok()
}

/// Appends a number.
pub fn write_u64(out: &mut Vec<u8>, n: u64)
    ensures
        final(out)@ == old(out)@ + u64_bytes(n),
{
    let mut part: Vec<u8> = bytes::u64_to_le_bytes(n);
    out.append(&mut part);
}

/// Appends the UTF-8 bytes of a string, without their number.
pub fn write_text(out: &mut Vec<u8>, s: &str)
    ensures
        final(out)@ == old(out)@ + utf8::encode_utf8(s@),
{
    let mut part: Vec<u8> = slice::slice_to_vec(s.as_bytes());
    out.append(&mut part);
}

/// Appends a string.
pub fn write_str(out: &mut Vec<u8>, s: &str)
    ensures
        final(out)@ == old(out)@ + str_bytes(s@),
        utf8::encode_utf8(s@).len() <= usize::MAX,
{
    let len: usize = s.as_bytes().len();
    write_u64(out, len as u64);
    write_text(out, s);
    assert(out@ =~= old(out)@ + str_bytes(s@));
}

/// Reads the number at position `pos`.
pub fn read_u64(b: &[u8], pos: usize) -> (read: Option<(u64, usize)>)
    ensures
        match read {
            Some((n, next)) => u64_at(b@, pos as int) == Some((n, next as int)),
            None => u64_at(b@, pos as int) is None,
        },
{
    if pos > b.len() || b.len() - pos < 8 {
        return None;
    }
    let part: &[u8] = slice::slice_subrange(b, pos, pos + 8);
    Some((bytes::u64_from_le_bytes(part), pos + 8))
}

/// Reads the text that takes the `len` bytes at position `start`.
pub fn read_text(b: &[u8], start: usize, len: u64) -> (read: Option<(String, usize)>)
    ensures
        match read {
            Some((s, next)) => text_at(b@, start as int, len as int) == Some((s@, next as int)),
            None => text_at(b@, start as int, len as int) is None,
        },
{
    if start > b.len() || ((b.len() - start) as u64) < len {
        return None;
    }
    let next: usize = start + len as usize;
    match utf8_str(slice::slice_subrange(b, start, next)) {
        Some(s) => Some((s.to_owned(), next)),
        None => None,
    }
}

/// Reads the string at position `pos`.
pub fn read_str(b: &[u8], pos: usize) -> (read: Option<(String, usize)>)
    ensures
        match read {
            Some((s, next)) => str_at(b@, pos as int) == Some((s@, next as int)),
            None => str_at(b@, pos as int) is None,
        },
{
    match read_u64(b, pos) {
        Some((len, start)) => read_text(b, start, len),
        None => None,
    }
}

} // verus!
