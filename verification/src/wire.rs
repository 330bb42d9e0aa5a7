//! The wire layout of record fields.
//!
//! A record is an 8-byte header followed by its fields: an integer is 4 or 8
//! bytes, least significant byte first; a string is its length in bytes as a
//! 32-bit integer followed by its UTF-8 bytes; an identity is its 32 bytes;
//! a list of strings is the number of its entries as a 32-bit integer
//! followed by the entries.
//!
//! Each field has a serialiser, which says what the bytes of a value are,
//! and a parser, which reads a value from the front of a byte sequence and
//! says how many bytes it took.

use crate::identity::Identity;
use vstd::bytes::*;
use vstd::prelude::*;
use vstd::slice::slice_subrange;
use vstd::utf8::*;

verus! {

/// Number of bytes in the header of a record.
pub const HEADER_LEN: usize = 8;

/// Whether a string is short enough for its length to be written as a
/// 32-bit integer.
pub open spec fn string_fits(s: Seq<char>) -> bool {
    encode_utf8(s).len() <= u32::MAX
}

/// Whether every string of a list fits.
pub open spec fn strings_fit(list: Seq<Seq<char>>) -> bool {
    forall|i: int| 0 <= i < list.len() ==> string_fits(#[trigger] list[i])
}

/// Whether a list of strings can be written: its length and the length of
/// each entry fit in 32 bits.
pub open spec fn string_list_fits(list: Seq<Seq<char>>) -> bool {
    list.len() <= u32::MAX && strings_fit(list)
}

/// The views of the strings of a vector.
pub open spec fn strings_view(list: Seq<String>) -> Seq<Seq<char>> {
    Seq::new(list.len(), |i: int| list[i]@)
}

/// The unsigned integer with the same 64 bits as `x` in two's complement.
pub open spec fn i64_bits(x: i64) -> u64 {
    if x >= 0 {
        x as u64
    } else {
        (x + 0x1_0000_0000_0000_0000) as u64
    }
}

/// The signed integer with the same 64 bits as `n` in two's complement.
pub open spec fn bits_i64(n: u64) -> i64 {
    if n < 0x8000_0000_0000_0000 {
        n as i64
    } else {
        (n - 0x1_0000_0000_0000_0000) as i64
    }
}

/// The bytes of a 32-bit integer.
pub open spec fn ser_u32(n: u32) -> Seq<u8> {
    spec_u32_to_le_bytes(n)
}

/// The bytes of a 64-bit integer.
pub open spec fn ser_u64(n: u64) -> Seq<u8> {
    spec_u64_to_le_bytes(n)
}

/// The bytes of a signed 64-bit integer.
pub open spec fn ser_i64(x: i64) -> Seq<u8> {
    ser_u64(i64_bits(x))
}

/// The bytes of a string.
pub open spec fn ser_string(s: Seq<char>) -> Seq<u8> {
    ser_u32(encode_utf8(s).len() as u32) + encode_utf8(s)
}

/// The bytes of the entries of a list of strings, one after the other.
pub open spec fn ser_strings(list: Seq<Seq<char>>) -> Seq<u8>
    decreases list.len(),
{
    if list.len() == 0 {
        Seq::<u8>::empty()
    } else {
        ser_string(list.first()) + ser_strings(list.drop_first())
    }
}

/// The bytes of a list of strings.
pub open spec fn ser_string_list(list: Seq<Seq<char>>) -> Seq<u8> {
    ser_u32(list.len() as u32) + ser_strings(list)
}

/// Reads a 32-bit integer from the front of `bytes`.
#[verifier::opaque]
pub open spec fn parse_u32(bytes: Seq<u8>) -> Option<(u32, nat)> {
    if bytes.len() >= 4 {
        Some((spec_u32_from_le_bytes(bytes.subrange(0, 4)), 4nat))
    } else {
        None
    }
}

/// Reads a 64-bit integer from the front of `bytes`.
#[verifier::opaque]
pub open spec fn parse_u64(bytes: Seq<u8>) -> Option<(u64, nat)> {
    if bytes.len() >= 8 {
        Some((spec_u64_from_le_bytes(bytes.subrange(0, 8)), 8nat))
    } else {
        None
    }
}

/// Reads a signed 64-bit integer from the front of `bytes`.
#[verifier::opaque]
pub open spec fn parse_i64(bytes: Seq<u8>) -> Option<(i64, nat)> {
    match parse_u64(bytes) {
        Some((n, used)) => Some((bits_i64(n), used)),
        None => None,
    }
}

/// Reads an identity from the front of `bytes`.
#[verifier::opaque]
pub open spec fn parse_identity(bytes: Seq<u8>) -> Option<(Seq<u8>, nat)> {
    if bytes.len() >= 32 {
        Some((bytes.subrange(0, 32), 32nat))
    } else {
        None
    }
}

/// Reads a string from the front of `bytes`: its length, then as many bytes,
/// which must be UTF-8.
#[verifier::opaque]
pub open spec fn parse_string(bytes: Seq<u8>) -> Option<(Seq<char>, nat)> {
    match parse_u32(bytes) {
        Some((len, _)) => {
            if bytes.len() >= 4 + len && valid_utf8(bytes.subrange(4, 4 + len)) {
                Some((decode_utf8(bytes.subrange(4, 4 + len)), (4 + len) as nat))
            } else {
                None
            }
        },
        None => None,
    }
}

/// Reads `count` strings from the front of `bytes`, one after the other.
#[verifier::opaque]
pub open spec fn parse_strings(bytes: Seq<u8>, count: nat) -> Option<(Seq<Seq<char>>, nat)>
    decreases count,
{
    if count == 0 {
        Some((Seq::<Seq<char>>::empty(), 0nat))
    } else {
        match parse_string(bytes) {
            Some((s, used)) => match parse_strings(bytes.skip(used as int), (count - 1) as nat) {
                Some((rest, more)) => Some((seq![s] + rest, used + more)),
                None => None,
            },
            None => None,
        }
    }
}

/// Reads a list of strings from the front of `bytes`: the number of its
/// entries, then the entries.
#[verifier::opaque]
pub open spec fn parse_string_list(bytes: Seq<u8>) -> Option<(Seq<Seq<char>>, nat)> {
    match parse_u32(bytes) {
        Some((count, _)) => match parse_strings(bytes.skip(4), count as nat) {
            Some((list, used)) => Some((list, 4 + used)),
            None => None,
        },
        None => None,
    }
}

/// Whether `bytes` begin with the record header `header`.
pub open spec fn has_header(bytes: Seq<u8>, header: u64) -> bool {
    parse_u64(bytes) matches Some((found, _)) && found == header
}

/// What follows the record header in `bytes`.
pub open spec fn after_header(bytes: Seq<u8>) -> Seq<u8> {
    match parse_u64(bytes) {
        Some((_, used)) => bytes.skip(used as int),
        None => bytes,
    }
}

/// A signed integer and the unsigned integer with the same bits stand for
/// each other.
pub proof fn lemma_i64_bits_round_trip(x: i64, n: u64)
    ensures
        bits_i64(i64_bits(x)) == x,
        i64_bits(bits_i64(n)) == n,
{
}

/// What was written as a 32-bit integer is read back, whatever follows it.
pub proof fn lemma_parse_ser_u32(n: u32, rest: Seq<u8>)
    ensures
        ser_u32(n).len() == 4,
        parse_u32(ser_u32(n) + rest) == Some((n, 4nat)),
        (ser_u32(n) + rest).skip(4) == rest,
{
    reveal(parse_u32);
    lemma_auto_spec_u32_to_from_le_bytes();
    assert((ser_u32(n) + rest).subrange(0, 4) =~= ser_u32(n));
    assert((ser_u32(n) + rest).skip(4) =~= rest);
}

/// What was written as a 64-bit integer is read back, whatever follows it.
pub proof fn lemma_parse_ser_u64(n: u64, rest: Seq<u8>)
    ensures
        ser_u64(n).len() == 8,
        parse_u64(ser_u64(n) + rest) == Some((n, 8nat)),
        (ser_u64(n) + rest).skip(8) == rest,
{
    reveal(parse_u64);
    lemma_auto_spec_u64_to_from_le_bytes();
    assert((ser_u64(n) + rest).subrange(0, 8) =~= ser_u64(n));
    assert((ser_u64(n) + rest).skip(8) =~= rest);
}

/// What was written as a signed 64-bit integer is read back, whatever
/// follows it.
pub proof fn lemma_parse_ser_i64(x: i64, rest: Seq<u8>)
    ensures
        ser_i64(x).len() == 8,
        parse_i64(ser_i64(x) + rest) == Some((x, 8nat)),
        (ser_i64(x) + rest).skip(8) == rest,
{
    reveal(parse_i64);
    lemma_i64_bits_round_trip(x, i64_bits(x));
    lemma_parse_ser_u64(i64_bits(x), rest);
}

/// Bytes that were written behind a header begin with that header and with
/// no other, and what follows the header is what was written behind it.
pub proof fn lemma_header(header: u64, rest: Seq<u8>)
    ensures
        forall|other: u64| has_header(ser_u64(header) + rest, other) <==> other == header,
        after_header(ser_u64(header) + rest) == rest,
{
    lemma_parse_ser_u64(header, rest);
}

/// The 32 bytes written for an identity are read back, whatever follows
/// them.
pub proof fn lemma_parse_ser_identity(id: Seq<u8>, rest: Seq<u8>)
    requires
        id.len() == 32,
    ensures
        parse_identity(id + rest) == Some((id, 32nat)),
        (id + rest).skip(32) == rest,
{
    reveal(parse_identity);
    assert((id + rest).subrange(0, 32) =~= id);
    assert((id + rest).skip(32) =~= rest);
}

/// What was written as a string is read back, whatever follows it.
pub proof fn lemma_parse_ser_string(s: Seq<char>, rest: Seq<u8>)
    requires
        string_fits(s),
    ensures
        ser_string(s).len() == 4 + encode_utf8(s).len(),
        parse_string(ser_string(s) + rest) == Some((s, ser_string(s).len())),
        (ser_string(s) + rest).skip(ser_string(s).len() as int) == rest,
{
    reveal(parse_string);
    reveal(parse_u32);
    let body = encode_utf8(s);
    let len = body.len() as u32;
    let bytes = ser_string(s) + rest;
    lemma_parse_ser_u32(len, body + rest);
    assert(bytes =~= ser_u32(len) + (body + rest));
    assert(bytes.subrange(4, 4 + len) =~= body);
    encode_utf8_valid_utf8(s);
    encode_utf8_decode_utf8(s);
    assert(bytes.skip(ser_string(s).len() as int) =~= rest);
}

/// The entries written for a list of strings are read back, whatever
/// follows them.
pub proof fn lemma_parse_ser_strings(list: Seq<Seq<char>>, rest: Seq<u8>)
    requires
        strings_fit(list),
    ensures
        parse_strings(ser_strings(list) + rest, list.len()) == Some(
            (list, ser_strings(list).len()),
        ),
        (ser_strings(list) + rest).skip(ser_strings(list).len() as int) == rest,
    decreases list.len(),
{
    reveal(parse_strings);
    if list.len() == 0 {
        assert(ser_strings(list) + rest =~= rest);
        assert(rest.skip(0) =~= rest);
        assert(list =~= Seq::<Seq<char>>::empty());
    } else {
        let head = list.first();
        let tail = list.drop_first();
        let after = ser_strings(tail) + rest;
        assert(string_fits(head));
        assert(strings_fit(tail)) by {
            assert forall|i: int| 0 <= i < tail.len() implies string_fits(#[trigger] tail[i]) by {
                assert(tail[i] == list[i + 1]);
            }
        }
        lemma_parse_ser_string(head, after);
        lemma_parse_ser_strings(tail, rest);
        assert(ser_strings(list) + rest =~= ser_string(head) + after);
        assert(seq![head] + tail =~= list);
        assert((ser_strings(list) + rest).skip(ser_strings(list).len() as int) =~= rest);
    }
}

/// What was written as a list of strings is read back, whatever follows it.
pub proof fn lemma_parse_ser_string_list(list: Seq<Seq<char>>, rest: Seq<u8>)
    requires
        string_list_fits(list),
    ensures
        parse_string_list(ser_string_list(list) + rest) == Some(
            (list, ser_string_list(list).len()),
        ),
        (ser_string_list(list) + rest).skip(ser_string_list(list).len() as int) == rest,
{
    reveal(parse_string_list);
    let entries = ser_strings(list) + rest;
    lemma_parse_ser_u32(list.len() as u32, entries);
    lemma_parse_ser_strings(list, rest);
    assert(ser_string_list(list) + rest =~= ser_u32(list.len() as u32) + entries);
    assert((ser_string_list(list) + rest).skip(ser_string_list(list).len() as int) =~= rest);
}

/// A string that was read can be written again.
pub proof fn lemma_parsed_string_fits(bytes: Seq<u8>)
    ensures
        parse_string(bytes) matches Some((s, used)) ==> string_fits(s) && used <= bytes.len(),
{
    reveal(parse_string);
    reveal(parse_u32);
    if let Some((len, _)) = parse_u32(bytes) {
        if bytes.len() >= 4 + len && valid_utf8(bytes.subrange(4, 4 + len)) {
            decode_utf8_encode_utf8(bytes.subrange(4, 4 + len));
        }
    }
}

/// The strings that were read are as many as were asked for, and each can
/// be written again.
pub proof fn lemma_parsed_strings_fit(bytes: Seq<u8>, count: nat)
    ensures
        parse_strings(bytes, count) matches Some((list, used)) ==> list.len() == count
            && strings_fit(list) && used <= bytes.len(),
    decreases count,
{
    reveal(parse_strings);
    if count > 0 {
        lemma_parsed_string_fits(bytes);
        if let Some((s, used)) = parse_string(bytes) {
            lemma_parsed_strings_fit(bytes.skip(used as int), (count - 1) as nat);
        }
    }
}

/// A list of strings that was read can be written again.
pub proof fn lemma_parsed_string_list_fits(bytes: Seq<u8>)
    ensures
        parse_string_list(bytes) matches Some((list, used)) ==> string_list_fits(list) && used
            <= bytes.len(),
{
    reveal(parse_string_list);
    reveal(parse_u32);
    if let Some((count, _)) = parse_u32(bytes) {
        lemma_parsed_strings_fit(bytes.skip(4), count as nat);
    }
}


/// A 32-bit integer that was read, written again, gives the bytes it was
/// read from.
pub proof fn lemma_ser_parse_u32(bytes: Seq<u8>)
    ensures
        parse_u32(bytes) matches Some((n, used)) ==> bytes == ser_u32(n) + bytes.skip(used as int),
{
    reveal(parse_u32);
    lemma_auto_spec_u32_to_from_le_bytes();
    if bytes.len() >= 4 {
        assert(bytes =~= bytes.subrange(0, 4) + bytes.skip(4));
    }
}

/// A 64-bit integer that was read, written again, gives the bytes it was
/// read from.
pub proof fn lemma_ser_parse_u64(bytes: Seq<u8>)
    ensures
        parse_u64(bytes) matches Some((n, used)) ==> bytes == ser_u64(n) + bytes.skip(used as int),
{
    reveal(parse_u64);
    lemma_auto_spec_u64_to_from_le_bytes();
    if bytes.len() >= 8 {
        assert(bytes =~= bytes.subrange(0, 8) + bytes.skip(8));
    }
}

/// A signed 64-bit integer that was read, written again, gives the bytes it
/// was read from.
pub proof fn lemma_ser_parse_i64(bytes: Seq<u8>)
    ensures
        parse_i64(bytes) matches Some((x, used)) ==> bytes == ser_i64(x) + bytes.skip(used as int),
{
    reveal(parse_i64);
    lemma_ser_parse_u64(bytes);
    if let Some((n, _)) = parse_u64(bytes) {
        lemma_i64_bits_round_trip(bits_i64(n), n);
    }
}

/// An identity that was read is the bytes it was read from.
pub proof fn lemma_ser_parse_identity(bytes: Seq<u8>)
    ensures
        parse_identity(bytes) matches Some((id, used)) ==> id.len() == 32 && bytes == id
            + bytes.skip(used as int),
{
    reveal(parse_identity);
    if bytes.len() >= 32 {
        assert(bytes =~= bytes.subrange(0, 32) + bytes.skip(32));
    }
}

/// A string that was read, written again, gives the bytes it was read from.
pub proof fn lemma_ser_parse_string(bytes: Seq<u8>)
    ensures
        parse_string(bytes) matches Some((s, used)) ==> bytes == ser_string(s) + bytes.skip(
            used as int,
        ),
{
    reveal(parse_string);
    reveal(parse_u32);
    lemma_ser_parse_u32(bytes);
    if let Some((len, _)) = parse_u32(bytes) {
        let body = bytes.subrange(4, 4 + len);
        if bytes.len() >= 4 + len && valid_utf8(body) {
            decode_utf8_encode_utf8(body);
            assert(body.len() == len);
            assert(ser_string(decode_utf8(body)) == ser_u32(len) + body);
            assert(bytes == ser_u32(len) + bytes.skip(4));
            assert(bytes.skip(4) =~= body + bytes.skip(4 + len));
            assert(bytes =~= (ser_u32(len) + body) + bytes.skip(4 + len));
        }
    }
}

/// Strings that were read, written again, give the bytes they were read
/// from.
pub proof fn lemma_ser_parse_strings(bytes: Seq<u8>, count: nat)
    ensures
        parse_strings(bytes, count) matches Some((list, used)) ==> bytes == ser_strings(list)
            + bytes.skip(used as int),
    decreases count,
{
    reveal(parse_strings);
    if count == 0 {
        assert(bytes =~= ser_strings(Seq::<Seq<char>>::empty()) + bytes.skip(0));
    } else {
        lemma_ser_parse_string(bytes);
        lemma_parsed_string_fits(bytes);
        if let Some((s, used)) = parse_string(bytes) {
            let after = bytes.skip(used as int);
            lemma_ser_parse_strings(after, (count - 1) as nat);
            lemma_parsed_strings_fit(after, (count - 1) as nat);
            if let Some((rest, more)) = parse_strings(after, (count - 1) as nat) {
                let list = seq![s] + rest;
                assert(list.first() == s);
                assert(list.drop_first() =~= rest);
                assert(after.skip(more as int) =~= bytes.skip((used + more) as int));
                assert(bytes =~= ser_strings(list) + bytes.skip((used + more) as int));
            }
        }
    }
}

/// A list of strings that was read, written again, gives the bytes it was
/// read from.
pub proof fn lemma_ser_parse_string_list(bytes: Seq<u8>)
    ensures
        parse_string_list(bytes) matches Some((list, used)) ==> bytes == ser_string_list(list)
            + bytes.skip(used as int),
{
    reveal(parse_string_list);
    reveal(parse_u32);
    lemma_ser_parse_u32(bytes);
    if let Some((count, _)) = parse_u32(bytes) {
        let after = bytes.skip(4);
        lemma_ser_parse_strings(after, count as nat);
        lemma_parsed_strings_fit(after, count as nat);
        if let Some((list, used)) = parse_strings(after, count as nat) {
            assert(after.skip(used as int) =~= bytes.skip((4 + used) as int));
            assert(bytes =~= ser_string_list(list) + bytes.skip((4 + used) as int));
        }
    }
}

/// Bytes that begin with a header are that header and what follows it.
pub proof fn lemma_ser_header(bytes: Seq<u8>, header: u64)
    ensures
        has_header(bytes, header) ==> bytes == ser_u64(header) + after_header(bytes),
{
    lemma_ser_parse_u64(bytes);
}

/// `core::str::Utf8Error`, which `core::str::from_utf8` returns for bytes
/// that are no UTF-8.
#[verifier::external_type_specification]
#[verifier::external_body]
pub struct ExUtf8Error(core::str::Utf8Error);

/// `core::str::from_utf8` succeeds on exactly the byte slices that are
/// UTF-8, and the string slice it returns then has those bytes.
pub assume_specification[ core::str::from_utf8 ](v: &[u8]) -> (res: Result<
    &str,
    core::str::Utf8Error,
>)
    ensures
        res is Ok <==> valid_utf8(v@),
        res matches Ok(s) ==> encode_utf8(s@) == v@,
;

/// The unsigned integer with the same bits as `x`.
pub fn i64_to_bits(x: i64) -> (n: u64)
    ensures
        n == i64_bits(x),
{
    if x >= 0 {
        x as u64
    } else {
        let shifted: i64 = (x + i64::MAX) + 1;
        (shifted as u64) + 0x8000_0000_0000_0000u64
    }
}

/// The signed integer with the same bits as `n`.
pub fn bits_to_i64(n: u64) -> (x: i64)
    ensures
        x == bits_i64(n),
{
    if n < 0x8000_0000_0000_0000u64 {
        n as i64
    } else {
        let low: u64 = n - 0x8000_0000_0000_0000u64;
        (low as i64) + i64::MIN
    }
}

/// Appends `bytes` to `out`.
pub fn write_bytes(out: &mut Vec<u8>, bytes: &[u8])
    ensures
        final(out)@ == old(out)@ + bytes@,
{
    let mut i: usize = 0;
    while i < bytes.len()
        invariant
            i <= bytes.len(),
            out@ == old(out)@ + bytes@.take(i as int),
        decreases bytes.len() - i,
    {
        out.push(bytes[i]);
        assert(bytes@.take(i + 1) =~= bytes@.take(i as int).push(bytes@[i as int]));
        i = i + 1;
    }
    assert(bytes@.take(i as int) =~= bytes@);
}

/// Appends a 32-bit integer to `out`.
pub fn write_u32(out: &mut Vec<u8>, n: u32)
    ensures
        final(out)@ == old(out)@ + ser_u32(n),
{
    let bytes = u32_to_le_bytes(n);
    write_bytes(out, bytes.as_slice());
}

/// Appends a 64-bit integer to `out`.
pub fn write_u64(out: &mut Vec<u8>, n: u64)
    ensures
        final(out)@ == old(out)@ + ser_u64(n),
{
    let bytes = u64_to_le_bytes(n);
    write_bytes(out, bytes.as_slice());
}

/// Appends a signed 64-bit integer to `out`.
pub fn write_i64(out: &mut Vec<u8>, x: i64)
    ensures
        final(out)@ == old(out)@ + ser_i64(x),
{
    write_u64(out, i64_to_bits(x));
}

/// Appends an identity to `out`.
pub fn write_identity(out: &mut Vec<u8>, id: &Identity)
    ensures
        final(out)@ == old(out)@ + id@,
{
    write_bytes(out, id.bytes.as_slice());
}

/// Appends a string to `out`.
pub fn write_string(out: &mut Vec<u8>, s: &str)
    requires
        string_fits(s@),
    ensures
        final(out)@ == old(out)@ + ser_string(s@),
{
    let bytes = s.as_bytes();
    let len: usize = bytes.len();
    write_u32(out, len as u32);
    write_bytes(out, bytes);
    assert(out@ =~= old(out)@ + ser_string(s@));
}

/// Appends a list of strings to `out`.
pub fn write_string_list(out: &mut Vec<u8>, list: &Vec<String>)
    requires
        string_list_fits(strings_view(list@)),
    ensures
        final(out)@ == old(out)@ + ser_string_list(strings_view(list@)),
{
    let ghost views = strings_view(list@);
    let count: usize = list.len();
    write_u32(out, count as u32);
    let ghost start = out@;
    let mut i: usize = 0;
    assert(views.skip(0) =~= views);
    while i < count
        invariant
            i <= count,
            count == list.len(),
            views == strings_view(list@),
            strings_fit(views),
            start + ser_strings(views) == out@ + ser_strings(views.skip(i as int)),
        decreases count - i,
    {
        let ghost before = out@;
        let ghost remaining = views.skip(i as int);
        assert(remaining.first() == list@[i as int]@);
        assert(remaining.drop_first() =~= views.skip(i + 1));
        assert(string_fits(views[i as int]));
        write_string(out, list[i].as_str());
        assert(out@ + ser_strings(views.skip(i + 1)) =~= before + ser_strings(remaining));
        i = i + 1;
    }
    assert(ser_strings(views.skip(i as int)) =~= Seq::<u8>::empty());
    assert(out@ =~= start + ser_strings(views));
    assert(out@ =~= old(out)@ + ser_string_list(views));
}

/// Reads a 32-bit integer at `pos`, and gives it with the position after it.
pub fn read_u32(data: &[u8], pos: usize) -> (read: Option<(u32, usize)>)
    ensures
        pos > data.len() ==> read is None,
        pos <= data.len() ==> match parse_u32(data@.skip(pos as int)) {
            Some((n, used)) => read == Some((n, (pos + used) as usize)) && pos + used
                <= data.len(),
            None => read is None,
        },
{
    proof {
        reveal(parse_u32);
    }
    if pos > data.len() {
        return None;
    }
    if data.len() - pos < 4 {
        None
    } else {
        let field = slice_subrange(data, pos, pos + 4);
        assert(field@ =~= data@.skip(pos as int).subrange(0, 4));
        Some((u32_from_le_bytes(field), pos + 4))
    }
}

/// Reads a 64-bit integer at `pos`, and gives it with the position after it.
pub fn read_u64(data: &[u8], pos: usize) -> (read: Option<(u64, usize)>)
    ensures
        pos > data.len() ==> read is None,
        pos <= data.len() ==> match parse_u64(data@.skip(pos as int)) {
            Some((n, used)) => read == Some((n, (pos + used) as usize)) && pos + used
                <= data.len(),
            None => read is None,
        },
{
    proof {
        reveal(parse_u64);
    }
    if pos > data.len() {
        return None;
    }
    if data.len() - pos < 8 {
        None
    } else {
        let field = slice_subrange(data, pos, pos + 8);
        assert(field@ =~= data@.skip(pos as int).subrange(0, 8));
        Some((u64_from_le_bytes(field), pos + 8))
    }
}

/// Reads the record header at the start of `data`, and gives the position
/// after it if the header is `header`.
pub fn read_header(data: &[u8], header: u64) -> (read: Option<usize>)
    ensures
        match read {
            Some(next) => has_header(data@, header) && next <= data.len() && after_header(data@)
                == data@.skip(next as int),
            None => !has_header(data@, header),
        },
{
    assert(data@.skip(0) =~= data@);
    match read_u64(data, 0) {
        Some((found, next)) => if found == header {
            Some(next)
        } else {
            None
        },
        None => None,
    }
}

/// Reads a signed 64-bit integer at `pos`, and gives it with the position
/// after it.
pub fn read_i64(data: &[u8], pos: usize) -> (read: Option<(i64, usize)>)
    ensures
        pos > data.len() ==> read is None,
        pos <= data.len() ==> match parse_i64(data@.skip(pos as int)) {
            Some((x, used)) => read == Some((x, (pos + used) as usize)) && pos + used
                <= data.len(),
            None => read is None,
        },
{
    proof {
        reveal(parse_i64);
    }
    if pos > data.len() {
        return None;
    }
    match read_u64(data, pos) {
        Some((n, next)) => Some((bits_to_i64(n), next)),
        None => None,
    }
}

/// Reads an identity at `pos`, and gives it with the position after it.
pub fn read_identity(data: &[u8], pos: usize) -> (read: Option<(Identity, usize)>)
    ensures
        pos > data.len() ==> read is None,
        pos <= data.len() ==> match parse_identity(data@.skip(pos as int)) {
            Some((id, used)) => read matches Some((found, next)) && found@ == id && next == pos
                + used && next <= data.len(),
            None => read is None,
        },
{
    proof {
        reveal(parse_identity);
    }
    if pos > data.len() {
        return None;
    }
    if data.len() - pos < 32 {
        None
    } else {
        let mut bytes: [u8; 32] = [0u8; 32];
        let mut i: usize = 0;
        while i < 32
            invariant
                i <= 32,
                pos + 32 <= data.len(),
                forall|j: int| 0 <= j < i ==> bytes@[j] == data@[pos + j],
            decreases 32 - i,
        {
            bytes[i] = data[pos + i];
            i = i + 1;
        }
        assert(bytes@ =~= data@.skip(pos as int).subrange(0, 32));
        Some((Identity::new(bytes), pos + 32))
    }
}

/// Reads a string at `pos`, and gives it with the position after it.
pub fn read_string(data: &[u8], pos: usize) -> (read: Option<(String, usize)>)
    ensures
        pos > data.len() ==> read is None,
        pos <= data.len() ==> match parse_string(data@.skip(pos as int)) {
            Some((s, used)) => read matches Some((found, next)) && found@ == s && next == pos
                + used && next <= data.len(),
            None => read is None,
        },
{
    proof {
        reveal(parse_string);
        reveal(parse_u32);
    }
    if pos > data.len() {
        return None;
    }
    match read_u32(data, pos) {
        None => None,
        Some((n, start)) => {
            let len: usize = n as usize;
            if data.len() - start < len {
                None
            } else {
                let body = slice_subrange(data, start, start + len);
                assert(body@ =~= data@.skip(pos as int).subrange(4, 4 + n));
                match core::str::from_utf8(body) {
                    Ok(s) => {
                        proof {
                            encode_utf8_decode_utf8(s@);
                        }
                        Some((s.to_owned(), start + len))
                    },
                    Err(_) => None,
                }
            }
        },
    }
}

/// What reading `count` strings gives when `list` was read before them and
/// `tail` is what reading the rest gives.
spec fn after_strings(list: Seq<Seq<char>>, used: nat, tail: Option<(Seq<Seq<char>>, nat)>)
    -> Option<(Seq<Seq<char>>, nat)> {
    match tail {
        Some((rest, more)) => Some((list + rest, used + more)),
        None => None,
    }
}

/// Reads a list of strings at `pos`, and gives it with the position after
/// it.
pub fn read_string_list(data: &[u8], pos: usize) -> (read: Option<(Vec<String>, usize)>)
    ensures
        pos > data.len() ==> read is None,
        pos <= data.len() ==> match parse_string_list(data@.skip(pos as int)) {
            Some((list, used)) => read matches Some((found, next)) && strings_view(found@)
                == list && next == pos + used && next <= data.len(),
            None => read is None,
        },
{
    proof {
        reveal(parse_string_list);
        reveal(parse_u32);
    }
    if pos > data.len() {
        return None;
    }
    match read_u32(data, pos) {
        None => None,
        Some((count, start)) => {
            let ghost whole = parse_strings(data@.skip(start as int), count as nat);
            assert(data@.skip(pos as int).skip(4) =~= data@.skip(start as int));
            let mut list: Vec<String> = Vec::new();
            let mut at: usize = start;
            let mut i: u32 = 0;
            assert(strings_view(list@) + Seq::<Seq<char>>::empty() =~= strings_view(list@));
            while i < count
                invariant
                    i <= count,
                    start <= at <= data.len(),
                    strings_view(list@).len() == i,
                    parse_u32(data@.skip(pos as int)) == Some((count, 4nat)),
                    data@.skip(pos as int).skip(4) == data@.skip(start as int),
                    whole == parse_strings(data@.skip(start as int), count as nat),
                    whole == after_strings(
                        strings_view(list@),
                        (at - start) as nat,
                        parse_strings(data@.skip(at as int), (count - i) as nat),
                    ),
                decreases count - i,
            {
                let ghost before = strings_view(list@);
                proof {
                    reveal(parse_string_list);
                    reveal_with_fuel(parse_strings, 2);
                }
                match read_string(data, at) {
                    None => {
                        return None;
                    },
                    Some((s, next)) => {
                        proof {
                            let used = (next - at) as nat;
                            assert(data@.skip(at as int).skip(used as int) =~= data@.skip(
                                next as int,
                            ));
                            if let Some((rest, more)) = parse_strings(
                                data@.skip(next as int),
                                (count - i - 1) as nat,
                            ) {
                                assert(before + (seq![s@] + rest) =~= before.push(s@) + rest);
                            }
                        }
                        list.push(s);
                        assert(strings_view(list@) =~= before.push(s@));
                        at = next;
                        i = i + 1;
                    },
                }
            }
            proof {
                reveal(parse_strings);
            }
            assert(strings_view(list@) + Seq::<Seq<char>>::empty() =~= strings_view(list@));
            Some((list, at))
        },
    }
}

} // verus!
