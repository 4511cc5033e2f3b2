//! Reading the Stable Diffusion `parameters` text out of PNG bytes.

use crate::text::same_text;
use vstd::prelude::*;
use vstd::slice::slice_subrange;
use vstd::utf8::{decode_utf8, encode_utf8, valid_utf8};

verus! {

/// The eight bytes every PNG file starts with: `\x89PNG\r\n\x1a\n`.
pub open spec fn png_signature() -> Seq<u8> {
    seq![0x89u8, 0x50u8, 0x4eu8, 0x47u8, 0x0du8, 0x0au8, 0x1au8, 0x0au8]
}

/// The chunk type `tEXt`.
pub open spec fn text_chunk_type() -> Seq<u8> {
    seq![0x74u8, 0x45u8, 0x58u8, 0x74u8]
}

/// The chunk type `iTXt`.
pub open spec fn itxt_chunk_type() -> Seq<u8> {
    seq![0x69u8, 0x54u8, 0x58u8, 0x74u8]
}

/// The chunk type `IEND`.
pub open spec fn end_chunk_type() -> Seq<u8> {
    seq![0x49u8, 0x45u8, 0x4eu8, 0x44u8]
}

/// The keyword under which Stable Diffusion stores its generation info.
pub open spec fn parameters_keyword() -> Seq<char> {
    seq!['p', 'a', 'r', 'a', 'm', 'e', 't', 'e', 'r', 's']
}

/// The big-endian unsigned 32-bit number in `b[i..i + 4]`.
pub open spec fn be_u32(b: Seq<u8>, i: int) -> int {
    b[i] * 16777216 + b[i + 1] * 65536 + b[i + 2] * 256 + b[i + 3]
}

/// The text that bytes decode to, when they are valid UTF-8.
pub open spec fn utf8_decoded(b: Seq<u8>) -> Option<Seq<char>> {
    if valid_utf8(b) {
        Some(decode_utf8(b))
    } else {
        None
    }
}

/// The position of the first zero byte at or after `from`.
pub open spec fn first_zero(d: Seq<u8>, from: int) -> Option<int>
    decreases d.len() - from,
{
    if from < 0 || from >= d.len() {
        None
    } else if d[from] == 0 {
        Some(from)
    } else {
        first_zero(d, from + 1)
    }
}

/// The text of a `tEXt` chunk whose keyword is `keyword`: the chunk is a
/// keyword, a zero byte, then the text; both parts must be valid UTF-8.
pub open spec fn text_chunk_value(data: Seq<u8>, keyword: Seq<char>) -> Option<Seq<char>> {
    match first_zero(data, 0) {
        None => None,
        Some(z) => if utf8_decoded(data.take(z)) == Some(keyword) {
            utf8_decoded(data.skip(z + 1))
        } else {
            None
        },
    }
}

/// The text of an uncompressed `iTXt` chunk whose keyword is `keyword`: the
/// chunk is a keyword and a zero byte, the compression flag and method, a
/// language tag and a zero byte, a translated keyword and a zero byte, then
/// the text.
pub open spec fn itxt_chunk_value(data: Seq<u8>, keyword: Seq<char>) -> Option<Seq<char>> {
    match first_zero(data, 0) {
        None => None,
        Some(z) => if utf8_decoded(data.take(z)) != Some(keyword) || z + 3 > data.len() {
            None
        } else {
            match first_zero(data, z + 3) {
                None => None,
                Some(l) => match first_zero(data, l + 1) {
                    None => None,
                    Some(t) => if data[z + 1] == 0 {
                        utf8_decoded(data.skip(t + 1))
                    } else {
                        None
                    },
                },
            }
        },
    }
}

/// Walking the chunks of `b` from `offset` (each is a 4-byte length, a 4-byte
/// type, the data and a 4-byte CRC): the `parameters` text of the first text
/// chunk that has it, stopping at `IEND` or at a chunk that does not fit.
pub open spec fn parameters_from(b: Seq<u8>, offset: int) -> Option<Seq<char>>
    decreases b.len() - offset,
{
    if offset < 0 || offset + 8 > b.len() {
        None
    } else {
        let length = be_u32(b, offset);
        let start = offset + 8;
        let next = start + length + 4;
        if next > b.len() {
            None
        } else {
            let data = b.subrange(start, start + length);
            let ty = b.subrange(offset + 4, offset + 8);
            if ty == text_chunk_type() {
                match text_chunk_value(data, parameters_keyword()) {
                    Some(t) => Some(t),
                    None => parameters_from(b, next),
                }
            } else if ty == itxt_chunk_type() {
                match itxt_chunk_value(data, parameters_keyword()) {
                    Some(t) => Some(t),
                    None => parameters_from(b, next),
                }
            } else if ty == end_chunk_type() {
                None
            } else {
                parameters_from(b, next)
            }
        }
    }
}

/// The Stable Diffusion `parameters` text of a PNG file, if it has one.
pub open spec fn png_parameters(b: Seq<u8>) -> Option<Seq<char>> {
    if b.len() >= 8 && b.take(8) == png_signature() {
        parameters_from(b, 8)
    } else {
        None
    }
}

/// `std::str::from_utf8`: claims that it succeeds exactly on valid UTF-8, with
/// the text those bytes decode to.
#[verifier::external_body]
fn utf8_text(bytes: &[u8]) -> (r: Option<String>)
    ensures
        r is Some <==> valid_utf8(bytes@),
        r matches Some(s) ==> s@ == decode_utf8(bytes@),
{
    std::str::from_utf8(bytes).ok().map(|s| s.to_owned())
}

/// The first zero byte of `data` at or after `from`.
fn find_zero(data: &[u8], from: usize) -> (r: Option<usize>)
    ensures
        r matches Some(k) ==> first_zero(data@, from as int) == Some(k as int) && k < data.len(),
        r is None ==> first_zero(data@, from as int) is None,
{
    let mut i = from;
    while i < data.len()
        invariant
            from <= i,
            first_zero(data@, from as int) == first_zero(data@, i as int),
        decreases data@.len() - i,
    {
        if data[i] == 0 {
            return Some(i);
        }
        i += 1;
    }
    None
}

/// Decodes `data[from..to]` as UTF-8.
fn utf8_range(data: &[u8], from: usize, to: usize) -> (r: Option<String>)
    requires
        from <= to <= data@.len(),
    ensures
        r.deep_view() == utf8_decoded(data@.subrange(from as int, to as int)),
{
    utf8_text(slice_subrange(data, from, to))
}

/// Whether `data[..end]` decodes to `keyword`.
fn keyword_matches(data: &[u8], end: usize, keyword: &str) -> (b: bool)
    requires
        end <= data@.len(),
    ensures
        b == (utf8_decoded(data@.take(end as int)) == Some(keyword@)),
{
    assert(data@.take(end as int) =~= data@.subrange(0, end as int));
    match utf8_range(data, 0, end) {
        Some(found) => same_text(found.as_str(), keyword),
        None => false,
    }
}

/// The text of a `tEXt` chunk with the given keyword.
pub fn parse_text_chunk(data: &[u8], keyword: &str) -> (r: Option<String>)
    ensures
        r.deep_view() == text_chunk_value(data@, keyword@),
{
    let null_pos = match find_zero(data, 0) {
        Some(k) => k,
        None => {
            return None;
        },
    };
    if !keyword_matches(data, null_pos, keyword) {
        return None;
    }
    assert(data@.skip(null_pos + 1) =~= data@.subrange(null_pos + 1, data@.len() as int));
    utf8_range(data, null_pos + 1, data.len())
}

/// The text of an uncompressed `iTXt` chunk with the given keyword.
pub fn parse_itxt_chunk(data: &[u8], keyword: &str) -> (r: Option<String>)
    ensures
        r.deep_view() == itxt_chunk_value(data@, keyword@),
{
    let keyword_end = match find_zero(data, 0) {
        Some(k) => k,
        None => {
            return None;
        },
    };
    if !keyword_matches(data, keyword_end, keyword) {
        return None;
    }
    let mut cursor = keyword_end + 1;
    if data.len() < 2 || cursor > data.len() - 2 {
        return None;
    }
    let compression_flag = data[cursor];
    cursor += 2;
    let language_end = match find_zero(data, cursor) {
        Some(k) => k,
        None => {
            return None;
        },
    };
    cursor = language_end + 1;
    let translated_end = match find_zero(data, cursor) {
        Some(k) => k,
        None => {
            return None;
        },
    };
    cursor = translated_end + 1;
    if compression_flag == 0 {
        assert(data@.skip(cursor as int) =~= data@.subrange(cursor as int, data@.len() as int));
        return utf8_range(data, cursor, data.len());
    }
    None
}

/// Whether `b[i..i + 4]` is the chunk type `t0 t1 t2 t3`.
fn chunk_type_is(b: &[u8], i: usize, t0: u8, t1: u8, t2: u8, t3: u8) -> (r: bool)
    requires
        i + 4 <= b@.len(),
    ensures
        r == (b@.subrange(i as int, i + 4) == seq![t0, t1, t2, t3]),
{
    let r = b[i] == t0 && b[i + 1] == t1 && b[i + 2] == t2 && b[i + 3] == t3;
    assert(r ==> b@.subrange(i as int, i + 4) =~= seq![t0, t1, t2, t3]);
    proof {
        if b@.subrange(i as int, i + 4) == seq![t0, t1, t2, t3] {
            assert(b@.subrange(i as int, i + 4)[0] == t0);
            assert(b@.subrange(i as int, i + 4)[1] == t1);
            assert(b@.subrange(i as int, i + 4)[2] == t2);
            assert(b@.subrange(i as int, i + 4)[3] == t3);
        }
    }
    r
}

/// Reads the Stable Diffusion `parameters` text from PNG bytes: the text of
/// the first `tEXt` or uncompressed `iTXt` chunk whose keyword is
/// `parameters`. `None` when the bytes are not a PNG or hold no such chunk.
pub fn extract_parameters(png_bytes: &[u8]) -> (r: Option<String>)
    ensures
        r.deep_view() == png_parameters(png_bytes@),
{
    if png_bytes.len() < 8 || !(chunk_type_is(png_bytes, 0, 0x89, 0x50, 0x4e, 0x47) && chunk_type_is(
        png_bytes,
        4,
        0x0d,
        0x0a,
        0x1a,
        0x0a,
    )) {
        proof {
            if png_bytes@.len() >= 8 && png_bytes@.take(8) == png_signature() {
                assert(png_bytes@.subrange(0, 4) =~= seq![0x89u8, 0x50u8, 0x4eu8, 0x47u8]);
                assert(png_bytes@.subrange(4, 8) =~= seq![0x0du8, 0x0au8, 0x1au8, 0x0au8]);
            }
        }
        return None;
    }
    assert(png_bytes@.take(8) =~= png_bytes@.subrange(0, 4) + png_bytes@.subrange(4, 8));
    assert(png_bytes@.take(8) =~= png_signature());
    let keyword = "parameters";
    proof {
        reveal_strlit("parameters");
    }
    assert(keyword@ =~= parameters_keyword());
    let mut offset: usize = 8;
    while offset <= png_bytes.len() && png_bytes.len() - offset >= 8
        invariant
            8 <= offset <= png_bytes@.len(),
            keyword@ == parameters_keyword(),
            png_parameters(png_bytes@) == parameters_from(png_bytes@, offset as int),
        decreases png_bytes@.len() - offset,
    {
        let length: usize = (png_bytes[offset] as usize) * 16777216 + (png_bytes[offset + 1] as usize) * 65536
            + (png_bytes[offset + 2] as usize) * 256 + (png_bytes[offset + 3] as usize);
        let start = offset + 8;
        if length > png_bytes.len() - start || png_bytes.len() - start - length < 4 {
            assert(start + length + 4 > png_bytes@.len());
            assert(parameters_from(png_bytes@, offset as int) is None);
            return None;
        }
        let data = slice_subrange(png_bytes, start, start + length);
        let next = start + length + 4;
        assert(length == be_u32(png_bytes@, offset as int));
        if chunk_type_is(png_bytes, offset + 4, 0x74, 0x45, 0x58, 0x74) {
            assert(seq![0x74u8, 0x45u8, 0x58u8, 0x74u8] =~= text_chunk_type());
            if let Some(text) = parse_text_chunk(data, keyword) {
                return Some(text);
            }
        } else if chunk_type_is(png_bytes, offset + 4, 0x69, 0x54, 0x58, 0x74) {
            assert(seq![0x69u8, 0x54u8, 0x58u8, 0x74u8] =~= itxt_chunk_type());
            assert(seq![0x74u8, 0x45u8, 0x58u8, 0x74u8] =~= text_chunk_type());
            if let Some(text) = parse_itxt_chunk(data, keyword) {
                return Some(text);
            }
        } else if chunk_type_is(png_bytes, offset + 4, 0x49, 0x45, 0x4e, 0x44) {
            assert(seq![0x49u8, 0x45u8, 0x4eu8, 0x44u8] =~= end_chunk_type());
            assert(seq![0x69u8, 0x54u8, 0x58u8, 0x74u8] =~= itxt_chunk_type());
            assert(seq![0x74u8, 0x45u8, 0x58u8, 0x74u8] =~= text_chunk_type());
            return None;
        } else {
            assert(seq![0x49u8, 0x45u8, 0x4eu8, 0x44u8] =~= end_chunk_type());
            assert(seq![0x69u8, 0x54u8, 0x58u8, 0x74u8] =~= itxt_chunk_type());
            assert(seq![0x74u8, 0x45u8, 0x58u8, 0x74u8] =~= text_chunk_type());
        }
        offset = next;
    }
    None
}


/// No byte is zero.
spec fn no_zero_byte(b: Seq<u8>) -> bool {
    forall|j: int| 0 <= j < b.len() ==> #[trigger] b[j] != 0
}

/// The UTF-8 encoding of a character other than NUL holds no zero byte.
proof fn lemma_scalar_no_zero(c: char)
    requires
        c != '\0',
    ensures
        no_zero_byte(vstd::utf8::encode_scalar(c as u32)),
{
    let v = c as u32;
    vstd::utf8::char_is_scalar(c);
    assert(v != 0);
    if vstd::utf8::has_width_1_encoding(v) {
        assert((v & 0x7f) as u8 != 0u8) by (bit_vector)
            requires
                1 <= v <= 0x7f,
        ;
    } else {
        assert((0xC0u8 | ((v >> 6) & 0x1F) as u8) != 0u8) by (bit_vector);
        assert((0xE0u8 | ((v >> 12) & 0x0F) as u8) != 0u8) by (bit_vector);
        assert((0xF0u8 | ((v >> 18) & 0x7) as u8) != 0u8) by (bit_vector);
        assert((0x80u8 | (v & 0x3F) as u8) != 0u8) by (bit_vector);
        assert((0x80u8 | ((v >> 6) & 0x3F) as u8) != 0u8) by (bit_vector);
        assert((0x80u8 | ((v >> 12) & 0x3F) as u8) != 0u8) by (bit_vector);
    }
}

/// Text without NUL characters encodes to bytes without zeros.
proof fn lemma_encoding_no_zero(s: Seq<char>)
    requires
        forall|i: int| 0 <= i < s.len() ==> s[i] != '\0',
    ensures
        no_zero_byte(encode_utf8(s)),
    decreases s.len(),
{
    if s.len() > 0 {
        lemma_scalar_no_zero(s[0]);
        lemma_encoding_no_zero(s.drop_first());
        let head = vstd::utf8::encode_scalar(s[0] as u32);
        let tail = encode_utf8(s.drop_first());
        assert forall|j: int| 0 <= j < encode_utf8(s).len() implies #[trigger] encode_utf8(s)[j] != 0 by {
            if j < head.len() {
                assert(encode_utf8(s)[j] == head[j]);
            } else {
                assert(encode_utf8(s)[j] == tail[j - head.len()]);
            }
        }
    }
}

/// The first zero at or after `i` is at `k` when `d[i..k]` holds none.
proof fn lemma_first_zero_at(d: Seq<u8>, i: int, k: int)
    requires
        0 <= i <= k < d.len(),
        d[k] == 0,
        forall|j: int| i <= j < k ==> d[j] != 0,
    ensures
        first_zero(d, i) == Some(k),
    decreases k - i,
{
    if i < k {
        lemma_first_zero_at(d, i + 1, k);
    }
}

/// A `tEXt` chunk made of a keyword, a zero byte and a text gives back that
/// text for that keyword (the text may itself hold zero bytes).
pub proof fn lemma_text_chunk_round_trip(keyword: Seq<char>, text: Seq<char>)
    requires
        forall|i: int| 0 <= i < keyword.len() ==> keyword[i] != '\0',
    ensures
        text_chunk_value(encode_utf8(keyword) + seq![0u8] + encode_utf8(text), keyword) == Some(
            text,
        ),
{
    let k = encode_utf8(keyword);
    let data = k + seq![0u8] + encode_utf8(text);
    lemma_encoding_no_zero(keyword);
    assert forall|j: int| 0 <= j < k.len() implies data[j] != 0 by {
        assert(data[j] == k[j]);
    }
    lemma_first_zero_at(data, 0, k.len() as int);
    assert(data.take(k.len() as int) =~= k);
    assert(data.skip((k.len() + 1) as int) =~= encode_utf8(text));
    vstd::utf8::encode_utf8_valid_utf8(keyword);
    vstd::utf8::encode_utf8_decode_utf8(keyword);
    vstd::utf8::encode_utf8_valid_utf8(text);
    vstd::utf8::encode_utf8_decode_utf8(text);
}


/// The chunk walk reads nothing before its offset: it depends only on the
/// bytes from there on.
proof fn lemma_parameters_from_suffix(b: Seq<u8>, i: int)
    requires
        0 <= i <= b.len(),
    ensures
        parameters_from(b, i) == parameters_from(b.skip(i), 0),
    decreases b.len() - i,
{
    let c = b.skip(i);
    if i + 8 <= b.len() {
        assert(be_u32(b, i) == be_u32(c, 0));
        let length = be_u32(b, i);
        let next = i + 8 + length + 4;
        if next <= b.len() {
            assert(b.subrange(i + 8, i + 8 + length) =~= c.subrange(8, 8 + length));
            assert(b.subrange(i + 4, i + 8) =~= c.subrange(4, 8));
            lemma_parameters_from_suffix(b, next);
            lemma_parameters_from_suffix(c, next - i);
            assert(c.skip(next - i) =~= b.skip(next));
        }
    }
}

/// A chunk of a type other than `tEXt`, `iTXt` and `IEND` changes nothing:
/// the `parameters` text of a PNG is the same with or without it.
pub proof fn lemma_other_chunk_skipped(ty: Seq<u8>, data: Seq<u8>, rest: Seq<u8>)
    requires
        ty.len() == 4,
        ty != text_chunk_type(),
        ty != itxt_chunk_type(),
        ty != end_chunk_type(),
        data.len() <= u32::MAX,
    ensures
        png_parameters(png_signature() + be_bytes(data.len() as u32) + ty + data + seq![
            0u8,
            0u8,
            0u8,
            0u8,
        ] + rest) == png_parameters(png_signature() + rest),
{
    let n = data.len() as u32;
    let crc = seq![0u8, 0u8, 0u8, 0u8];
    let b = png_signature() + be_bytes(n) + ty + data + crc + rest;
    let short = png_signature() + rest;
    lemma_be_u32_round_trip(n);
    assert(b.take(8) =~= png_signature());
    assert(short.take(8) =~= png_signature());
    assert(b.subrange(8, 12) =~= be_bytes(n));
    assert(be_u32(b, 8) == be_u32(be_bytes(n), 0));
    assert(b.subrange(12, 16) =~= ty);
    let next = 16 + n + 4;
    lemma_parameters_from_suffix(b, next);
    lemma_parameters_from_suffix(short, 8);
    assert(b.skip(next) =~= rest);
    assert(short.skip(8) =~= rest);
}

/// The four big-endian bytes of `n`.
pub open spec fn be_bytes(n: u32) -> Seq<u8> {
    seq![(n >> 24u32) as u8, (n >> 16u32) as u8, (n >> 8u32) as u8, n as u8]
}

/// Reading a chunk length gives back the number that was written, whatever
/// its size.
pub proof fn lemma_be_u32_round_trip(n: u32)
    ensures
        be_u32(be_bytes(n), 0) == n,
{
    let b0 = (n >> 24u32) as u8;
    let b1 = (n >> 16u32) as u8;
    let b2 = (n >> 8u32) as u8;
    let b3 = n as u8;
    assert(b0 as u32 == n / 16777216) by (bit_vector)
        requires
            b0 == (n >> 24u32) as u8,
    ;
    assert(b1 as u32 == (n / 65536) % 256) by (bit_vector)
        requires
            b1 == (n >> 16u32) as u8,
    ;
    assert(b2 as u32 == (n / 256) % 256) by (bit_vector)
        requires
            b2 == (n >> 8u32) as u8,
    ;
    assert(b3 as u32 == n % 256) by (bit_vector)
        requires
            b3 == n as u8,
    ;
    let x = n as int;
    assert(x == (x / 16777216) * 16777216 + ((x / 65536) % 256) * 65536 + ((x / 256) % 256) * 256
        + x % 256) by (nonlinear_arith)
        requires
            0 <= x,
    ;
}

/// A PNG file: the signature, then each chunk as length, type, data and a
/// (zero) CRC.
pub open spec fn png_file(chunks: Seq<(Seq<u8>, Seq<u8>)>) -> Seq<u8>
    decreases chunks.len(),
{
    if chunks.len() == 0 {
        png_signature()
    } else {
        let c = chunks.last();
        png_file(chunks.drop_last()) + be_bytes(c.1.len() as u32) + c.0 + c.1 + seq![
            0u8,
            0u8,
            0u8,
            0u8,
        ]
    }
}

/// The data of a `tEXt` chunk that stores `text` under the `parameters` keyword.
pub open spec fn parameters_text_data(text: Seq<char>) -> Seq<u8> {
    encode_utf8(parameters_keyword()) + seq![0u8] + encode_utf8(text)
}

/// A PNG whose first chunk is a `tEXt` chunk holding `text` under the
/// `parameters` keyword gives back exactly that text, whatever its length,
/// whatever follows.
pub proof fn lemma_png_text_round_trip(text: Seq<char>, rest: Seq<u8>)
    requires
        parameters_text_data(text).len() <= u32::MAX,
    ensures
        png_parameters(png_file(seq![(text_chunk_type(), parameters_text_data(text))]) + rest)
            == Some(text),
{
    let data = parameters_text_data(text);
    let n = data.len() as u32;
    let chunks = seq![(text_chunk_type(), data)];
    assert(chunks.drop_last() =~= Seq::<(Seq<u8>, Seq<u8>)>::empty());
    let crc = seq![0u8, 0u8, 0u8, 0u8];
    assert(chunks.last() == (text_chunk_type(), data));
    assert(png_file(chunks.drop_last()) == png_signature());
    let file = png_signature() + be_bytes(n) + text_chunk_type() + data + crc;
    assert(png_file(chunks) == file);
    let b = file + rest;
    lemma_be_u32_round_trip(n);
    assert(b.take(8) =~= png_signature());
    assert(b.subrange(8, 12) =~= be_bytes(n));
    assert(be_u32(b, 8) == be_u32(be_bytes(n), 0));
    assert(b.subrange(12, 16) =~= text_chunk_type());
    assert(b.subrange(16, 16 + n) =~= data);
    let kw = parameters_keyword();
    assert forall|i: int| 0 <= i < kw.len() implies kw[i] != '\0' by {
        assert(kw =~= seq!['p', 'a', 'r', 'a', 'm', 'e', 't', 'e', 'r', 's']);
    }
    lemma_text_chunk_round_trip(kw, text);
}

/// No zero byte in `d[i..k]`.
spec fn zero_free(d: Seq<u8>, i: int, k: int) -> bool {
    forall|j: int| i <= j < k ==> #[trigger] d[j] != 0
}

/// An uncompressed `iTXt` chunk made of a keyword, a zero byte, flag and
/// method zero, a language tag, a translated keyword (each ended by a zero
/// byte) and a text gives back that text for that keyword, whatever the
/// language tag and translated keyword (empty ones included).
pub proof fn lemma_itxt_chunk_round_trip(
    keyword: Seq<char>,
    language: Seq<char>,
    translated: Seq<char>,
    text: Seq<char>,
)
    requires
        forall|i: int| 0 <= i < keyword.len() ==> keyword[i] != '\0',
        forall|i: int| 0 <= i < language.len() ==> language[i] != '\0',
        forall|i: int| 0 <= i < translated.len() ==> translated[i] != '\0',
    ensures
        itxt_chunk_value(
            encode_utf8(keyword) + seq![0u8, 0u8, 0u8] + encode_utf8(language) + seq![0u8]
                + encode_utf8(translated) + seq![0u8] + encode_utf8(text),
            keyword,
        ) == Some(text),
{
    let k = encode_utf8(keyword);
    let l = encode_utf8(language);
    let t = encode_utf8(translated);
    let x = encode_utf8(text);
    let data = k + seq![0u8, 0u8, 0u8] + l + seq![0u8] + t + seq![0u8] + x;
    lemma_encoding_no_zero(keyword);
    lemma_encoding_no_zero(language);
    lemma_encoding_no_zero(translated);
    let z = k.len() as int;
    let le = z + 3 + l.len();
    let te = le + 1 + t.len();
    assert forall|j: int| 0 <= j < z implies data[j] != 0 by {
        assert(data[j] == k[j]);
    }
    lemma_first_zero_at(data, 0, z);
    assert forall|j: int| z + 3 <= j < le implies data[j] != 0 by {
        assert(data[j] == l[j - z - 3]);
    }
    lemma_first_zero_at(data, z + 3, le);
    assert forall|j: int| le + 1 <= j < te implies data[j] != 0 by {
        assert(data[j] == t[j - le - 1]);
    }
    lemma_first_zero_at(data, le + 1, te);
    assert(data.take(z) =~= k);
    assert(data[z + 1] == 0);
    assert(data.skip(te + 1) =~= x);
    vstd::utf8::encode_utf8_valid_utf8(keyword);
    vstd::utf8::encode_utf8_decode_utf8(keyword);
    vstd::utf8::encode_utf8_valid_utf8(text);
    vstd::utf8::encode_utf8_decode_utf8(text);
}

} // verus!
