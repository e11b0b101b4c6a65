//! The netstring header codec: the SCGI wire format is
//! `<decimal-digits>':' <header block of exactly that many bytes> ','`,
//! where the header block holds alternating NUL-terminated name and value
//! tokens. This module gives the byte-level specification of decoding, the
//! executable decoder and encoder, and the laws that relate them.

use vstd::prelude::*;
use crate::env::{
    SCGIEnv, env_from_pairs, lemma_env_from_pairs_of_unique, pairs_view, unique_keys,
};
use crate::outside::{lossy_decode, utf8_lossy_string};
use vstd::utf8::{
    char_is_scalar, decode_utf8, encode_scalar, encode_utf8, encode_utf8_decode_utf8,
    encode_utf8_valid_utf8, has_width_1_encoding, has_width_2_encoding, has_width_3_encoding,
    is_scalar, valid_utf8,
};

verus! {

/// Upper bound accepted for the declared header-block length, to bound the
/// memory a malformed or malicious sender can make the decoder allocate.
pub const MAX_HEADER_LENGTH: usize = 16777216;

/// How decoding a header block can fail.
#[derive(Clone, Copy, Debug, PartialEq, Eq, Structural)]
pub enum ScgiError {
    /// A byte before the `:` delimiter was not an ASCII digit, or the declared
    /// length exceeds [`MAX_HEADER_LENGTH`].
    InvalidHeaderLength,
    /// The input ended before the header block and its terminator were complete.
    Truncated,
    /// The byte after the header block was not the `,` terminator.
    MissingTerminator,
}

/// True of the ASCII encodings of `'0'` through `'9'`.
pub open spec fn is_digit_byte(b: u8) -> bool {
    0x30 <= b <= 0x39
}

/// Scanning the length prefix: starting at `i` with `acc` already accumulated,
/// consume digit bytes until a `:`; any other byte, or a value beyond
/// [`MAX_HEADER_LENGTH`], is `InvalidHeaderLength`, and running out of input is
/// `Truncated`. On success, the declared length and the index after the `:`.
pub open spec fn scan_length(input: Seq<u8>, i: int, acc: int) -> Result<(int, int), ScgiError>
    decreases input.len() - i,
    when 0 <= i <= input.len()
{
    if i >= input.len() {
        Err(ScgiError::Truncated)
    } else if input[i] == 0x3au8 {
        Ok((acc, i + 1))
    } else if is_digit_byte(input[i]) {
        let acc2 = acc * 10 + (input[i] - 0x30);
        if acc2 > MAX_HEADER_LENGTH as int {
            Err(ScgiError::InvalidHeaderLength)
        } else {
            scan_length(input, i + 1, acc2)
        }
    } else {
        Err(ScgiError::InvalidHeaderLength)
    }
}

/// One step of the length-prefix scan. [`scan_length`] unfolds to a chain of
/// these, which lets a caller that reads its input byte by byte (a stream)
/// drive the same scan the buffer decoder performs.
#[derive(Clone, Copy, Debug, PartialEq, Eq, Structural)]
pub enum LengthStep {
    /// The byte was a digit: the accumulated length so far.
    More(usize),
    /// The byte was the `:` delimiter: the declared header-block length.
    Done(usize),
}

/// Processes one byte of the length prefix, `acc` being the value accumulated
/// from the digit bytes already seen.
pub fn length_step(acc: usize, b: u8) -> (r: Result<LengthStep, ScgiError>)
    requires
        acc <= MAX_HEADER_LENGTH,
    ensures
        b == 0x3au8 ==> r == Ok::<LengthStep, ScgiError>(LengthStep::Done(acc)),
        b != 0x3au8 && !is_digit_byte(b) ==> r == Err::<LengthStep, ScgiError>(
            ScgiError::InvalidHeaderLength,
        ),
        b != 0x3au8 && is_digit_byte(b) ==> (if acc * 10 + (b - 0x30) > MAX_HEADER_LENGTH as int {
            r == Err::<LengthStep, ScgiError>(ScgiError::InvalidHeaderLength)
        } else {
            r == Ok::<LengthStep, ScgiError>(LengthStep::More((acc * 10 + (b - 0x30)) as usize))
        }),
{
    if b == 0x3a {
        Ok(LengthStep::Done(acc))
    } else if 0x30 <= b && b <= 0x39 {
        let acc2 = acc * 10 + (b - 0x30) as usize;
        if acc2 > MAX_HEADER_LENGTH {
            Err(ScgiError::InvalidHeaderLength)
        } else {
            Ok(LengthStep::More(acc2))
        }
    } else {
        Err(ScgiError::InvalidHeaderLength)
    }
}

/// Splitting a byte block on NUL separators: the tokens between (and around)
/// the NUL bytes, in order. A block of `n` NULs yields `n + 1` tokens; the
/// empty block yields one empty token.
pub open spec fn split_nuls(b: Seq<u8>) -> Seq<Seq<u8>>
    decreases b.len(),
{
    if b.len() == 0 {
        seq![Seq::<u8>::empty()]
    } else if b[0] == 0u8 {
        seq![Seq::<u8>::empty()] + split_nuls(b.drop_first())
    } else {
        let rest = split_nuls(b.drop_first());
        seq![seq![b[0]] + rest[0]] + rest.drop_first()
    }
}

/// Splitting always yields at least one token.
pub proof fn lemma_split_nuls_nonempty(b: Seq<u8>)
    ensures
        split_nuls(b).len() >= 1,
    decreases b.len(),
{
    if b.len() > 0 {
        lemma_split_nuls_nonempty(b.drop_first());
    }
}

/// Tokens taken in consecutive pairs, a dangling final token dropped.
pub open spec fn pair_tokens(toks: Seq<Seq<u8>>) -> Seq<(Seq<u8>, Seq<u8>)>
    decreases toks.len(),
{
    if toks.len() < 2 {
        Seq::empty()
    } else {
        seq![(toks[0], toks[1])] + pair_tokens(toks.skip(2))
    }
}

/// The raw (name, value) byte pairs a header block holds: NUL-separated
/// tokens consumed pairwise. An odd trailing name token produces no entry.
pub open spec fn header_pairs(block: Seq<u8>) -> Seq<(Seq<u8>, Seq<u8>)> {
    pair_tokens(split_nuls(block))
}

/// Byte-level decoding of a whole buffer: the length prefix is scanned, the
/// declared number of block bytes and the `,` terminator must follow, and the
/// raw header pairs plus the count of consumed bytes come back.
pub open spec fn spec_decode(input: Seq<u8>) -> Result<(Seq<(Seq<u8>, Seq<u8>)>, int), ScgiError> {
    match scan_length(input, 0, 0) {
        Err(e) => Err(e),
        Ok((n, start)) => {
            if input.len() < start + n + 1 {
                Err(ScgiError::Truncated)
            } else if input[start + n] != 0x2cu8 {
                Err(ScgiError::MissingTerminator)
            } else {
                Ok((header_pairs(input.subrange(start, start + n)), start + n + 1))
            }
        },
    }
}

/// The raw byte pairs read as text, by lossy UTF-8 decoding.
pub open spec fn char_pairs(raw: Seq<(Seq<u8>, Seq<u8>)>) -> Seq<(Seq<char>, Seq<char>)> {
    raw.map_values(|p: (Seq<u8>, Seq<u8>)| (lossy_decode(p.0), lossy_decode(p.1)))
}

/// The raw byte pairs read as text, when every token is valid UTF-8.
pub open spec fn utf8_char_pairs(raw: Seq<(Seq<u8>, Seq<u8>)>) -> Seq<(Seq<char>, Seq<char>)> {
    raw.map_values(|p: (Seq<u8>, Seq<u8>)| (decode_utf8(p.0), decode_utf8(p.1)))
}

/// True when every name and value token is valid UTF-8.
pub open spec fn all_valid_utf8(raw: Seq<(Seq<u8>, Seq<u8>)>) -> bool {
    forall|i: int|
        0 <= i < raw.len() ==> valid_utf8((#[trigger] raw[i]).0) && valid_utf8(raw[i].1)
}

/// What a successfully decoded environment is, given the header-block bytes:
/// the mapping built from the block's pairs in order, later values winning,
/// names and values read as (lossily decoded) text.
pub open spec fn decode_block_ok(e: SCGIEnv, block: Seq<u8>) -> bool {
    &&& e.wf()
    &&& e.ordered() == env_from_pairs(char_pairs(header_pairs(block)))
    &&& (all_valid_utf8(header_pairs(block)) ==> e.ordered() == env_from_pairs(
        utf8_char_pairs(header_pairs(block)),
    ))
}

/// Scans the length prefix of `input`, returning the declared block length
/// and the index of the first block byte.
fn scan_prefix(input: &[u8]) -> (r: Result<(usize, usize), ScgiError>)
    ensures
        r is Ok ==> scan_length(input@, 0, 0) == Ok::<(int, int), ScgiError>(
            (r->Ok_0.0 as int, r->Ok_0.1 as int),
        ),
        r is Err ==> scan_length(input@, 0, 0) == Err::<(int, int), ScgiError>(r->Err_0),
        r is Ok ==> r->Ok_0.0 <= MAX_HEADER_LENGTH && r->Ok_0.1 <= input@.len(),
{
    let mut i: usize = 0;
    let mut acc: usize = 0;
    loop
        invariant
            0 <= i <= input@.len(),
            acc <= MAX_HEADER_LENGTH,
            scan_length(input@, 0, 0) == scan_length(input@, i as int, acc as int),
        decreases input@.len() - i,
    {
        if i >= input.len() {
            return Err(ScgiError::Truncated);
        }
        let b = input[i];
        match length_step(acc, b) {
            Err(e) => {
                return Err(e);
            },
            Ok(LengthStep::Done(n)) => {
                return Ok((n, i + 1));
            },
            Ok(LengthStep::More(a2)) => {
                acc = a2;
                i = i + 1;
            },
        }
    }
}

/// Splits a header block into its NUL-separated tokens.
fn split_block(block: &[u8]) -> (toks: Vec<Vec<u8>>)
    ensures
        toks@.map_values(|t: Vec<u8>| t@) == split_nuls(block@),
{
    let mut toks: Vec<Vec<u8>> = Vec::new();
    let mut cur: Vec<u8> = Vec::new();
    let mut i: usize = 0;
    proof {
        lemma_split_nuls_nonempty(block@);
        assert(block@.skip(0) =~= block@);
        assert(shift_first(cur@, split_nuls(block@))[0] =~= split_nuls(block@)[0]);
        assert(split_nuls(block@) =~~= toks@.map_values(|t: Vec<u8>| t@) + shift_first(
            cur@,
            split_nuls(block@.skip(0)),
        ));
    }
    while i < block.len()
        invariant
            0 <= i <= block@.len(),
            split_nuls(block@) == toks@.map_values(|t: Vec<u8>| t@) + shift_first(
                cur@,
                split_nuls(block@.skip(i as int)),
            ),
        decreases block@.len() - i,
    {
        let ghost pre_toks = toks@.map_values(|t: Vec<u8>| t@);
        let ghost pre_cur = cur@;
        let ghost tail = block@.skip(i as int);
        proof {
            lemma_split_nuls_nonempty(tail);
            lemma_split_nuls_nonempty(block@.skip(i + 1));
            assert(tail.len() > 0);
            assert(tail[0] == block@[i as int]);
            assert(tail.drop_first() =~= block@.skip(i + 1));
        }
        let b = block[i];
        if b == 0 {
            proof {
                // split_nuls(tail) == [[]] + split_nuls(tail')
                assert(shift_first(pre_cur, split_nuls(tail)) =~~= seq![pre_cur] + shift_first(
                    Seq::<u8>::empty(),
                    split_nuls(block@.skip(i + 1)),
                ));
            }
            toks.push(cur);
            cur = Vec::new();
            proof {
                assert(toks@.map_values(|t: Vec<u8>| t@) =~~= pre_toks.push(pre_cur));
                assert(pre_toks.push(pre_cur) + shift_first(
                    cur@,
                    split_nuls(block@.skip(i + 1)),
                ) =~~= pre_toks + (seq![pre_cur] + shift_first(
                    cur@,
                    split_nuls(block@.skip(i + 1)),
                )));
            }
        } else {
            proof {
                let rest = split_nuls(block@.skip(i + 1));
                assert(split_nuls(tail) =~~= seq![seq![block@[i as int]] + rest[0]]
                    + rest.drop_first());
                assert(shift_first(pre_cur, split_nuls(tail)) =~~= shift_first(
                    pre_cur.push(block@[i as int]),
                    rest,
                ));
            }
            cur.push(b);
            proof {
                assert(cur@ =~= pre_cur.push(block@[i as int]));
            }
        }
        i = i + 1;
    }
    proof {
        assert(block@.skip(i as int) =~= Seq::<u8>::empty());
        assert(shift_first(cur@, split_nuls(Seq::<u8>::empty())) =~~= seq![cur@]);
    }
    let ghost pre_toks = toks@.map_values(|t: Vec<u8>| t@);
    toks.push(cur);
    proof {
        assert(toks@.map_values(|t: Vec<u8>| t@) =~~= pre_toks.push(cur@));
        assert(pre_toks.push(cur@) =~~= pre_toks + seq![cur@]);
    }
    toks
}

/// The first token extended at the front by `p`, the rest unchanged
/// (meaningful when `segs` is non-empty).
spec fn shift_first(p: Seq<u8>, segs: Seq<Seq<u8>>) -> Seq<Seq<u8>> {
    seq![p + segs[0]] + segs.drop_first()
}

/// Decodes a header block given the byte that followed it on the wire, which
/// the protocol requires to be the `,` terminator.
pub fn decode_block(block: &[u8], term: u8) -> (r: Result<SCGIEnv, ScgiError>)
    ensures
        term != 0x2cu8 ==> r == Err::<SCGIEnv, ScgiError>(ScgiError::MissingTerminator),
        term == 0x2cu8 ==> r is Ok && decode_block_ok(r->Ok_0, block@),
{
    if term != 0x2c {
        return Err(ScgiError::MissingTerminator);
    }
    let tokens = split_block(block);
    let ghost toks = tokens@.map_values(|t: Vec<u8>| t@);
    let ghost raw = header_pairs(block@);
    let ghost raw_chars = char_pairs(raw);
    let ghost raw_utf8 = utf8_char_pairs(raw);
    let mut env: Vec<(String, String)> = Vec::new();
    let mut idx: usize = 0;
    let ghost mut j: int = 0;
    proof {
        assert(toks.skip(0) =~~= toks);
        assert(raw.skip(0) =~~= raw);
        assert(raw_chars.take(0) =~~= Seq::<(Seq<char>, Seq<char>)>::empty());
        assert(raw_utf8.take(0) =~~= Seq::<(Seq<char>, Seq<char>)>::empty());
        assert(pairs_view(env@) =~~= Seq::<(Seq<char>, Seq<char>)>::empty());
    }
    while idx < tokens.len() && idx + 1 < tokens.len()
        invariant
            0 <= idx <= tokens@.len(),
            0 <= j <= raw.len(),
            toks == tokens@.map_values(|t: Vec<u8>| t@),
            raw == header_pairs(block@),
            raw_chars == char_pairs(raw),
            raw_utf8 == utf8_char_pairs(raw),
            pair_tokens(toks.skip(idx as int)) == raw.skip(j),
            pairs_view(env@) == env_from_pairs(raw_chars.take(j)),
            unique_keys(pairs_view(env@)),
            all_valid_utf8(raw) ==> pairs_view(env@) == env_from_pairs(raw_utf8.take(j)),
        decreases tokens@.len() - idx,
    {
        let ghost tl = toks.skip(idx as int);
        proof {
            assert(tl.len() == toks.len() - idx >= 2);
            assert(tl[0] == toks[idx as int]);
            assert(tl[1] == toks[idx as int + 1]);
            assert(tl.skip(2) =~~= toks.skip(idx as int + 2));
            // raw.skip(j) == [(toks[idx], toks[idx+1])] + pair_tokens(toks.skip(idx+2))
            assert(raw.skip(j).len() >= 1);
            assert(j < raw.len());
            assert(raw[j] == raw.skip(j)[0]);
            assert(raw[j] == (toks[idx as int], toks[idx as int + 1]));
            assert(pair_tokens(toks.skip(idx as int + 2)) =~~= raw.skip(j).drop_first());
            assert(raw.skip(j).drop_first() =~~= raw.skip(j + 1));
        }
        let name = utf8_lossy_string(tokens[idx].as_slice());
        let value = utf8_lossy_string(tokens[idx + 1].as_slice());
        proof {
            assert(raw_chars[j] == (lossy_decode(raw[j].0), lossy_decode(raw[j].1)));
            assert(name@ == raw_chars[j].0);
            assert(value@ == raw_chars[j].1);
        }
        let ghost pre = pairs_view(env@);
        crate::env::insert_pair(&mut env, name, value);
        proof {
            crate::env::lemma_env_insert_unique(pre, name@, value@);
            assert(raw_chars.take(j + 1).drop_last() =~~= raw_chars.take(j));
            assert(raw_chars.take(j + 1).last() == raw_chars[j]);
            assert(pairs_view(env@) == env_from_pairs(raw_chars.take(j + 1)));
            if all_valid_utf8(raw) {
                assert(valid_utf8(raw[j].0) && valid_utf8(raw[j].1));
                assert(raw_utf8[j] == (decode_utf8(raw[j].0), decode_utf8(raw[j].1)));
                assert(name@ == raw_utf8[j].0);
                assert(value@ == raw_utf8[j].1);
                assert(raw_utf8.take(j + 1).drop_last() =~~= raw_utf8.take(j));
                assert(raw_utf8.take(j + 1).last() == raw_utf8[j]);
                assert(pairs_view(env@) == env_from_pairs(raw_utf8.take(j + 1)));
            }
            j = j + 1;
        }
        idx = idx + 2;
    }
    proof {
        assert(pair_tokens(toks.skip(idx as int)).len() == 0);
        assert(raw.skip(j).len() == 0);
        assert(j == raw.len());
        assert(raw_chars.take(j) =~~= raw_chars);
        assert(raw_utf8.take(j) =~~= raw_utf8);
    }
    Ok(SCGIEnv { env })
}

/// Decodes one SCGI header block from the front of `input`. On success, the
/// environment and how many bytes of `input` it occupied; the request body is
/// whatever follows them. The errors are exactly those of [`spec_decode`]:
/// `InvalidHeaderLength` for a bad length prefix, `Truncated` for too little
/// input, `MissingTerminator` for a corrupt terminator byte.
pub fn decode(input: &[u8]) -> (r: Result<(SCGIEnv, usize), ScgiError>)
    ensures
        r is Ok <==> spec_decode(input@) is Ok,
        r is Err ==> r->Err_0 == spec_decode(input@)->Err_0,
        r is Ok ==> ({
            let p = scan_length(input@, 0, 0)->Ok_0;
            &&& r->Ok_0.1 == spec_decode(input@)->Ok_0.1
            &&& r->Ok_0.1 == p.1 + p.0 + 1
            &&& decode_block_ok(r->Ok_0.0, input@.subrange(p.1, p.1 + p.0))
        }),
{
    let pre = scan_prefix(input);
    let (n, start) = match pre {
        Err(e) => {
            return Err(e);
        },
        Ok(p) => p,
    };
    if input.len() - start <= n {
        return Err(ScgiError::Truncated);
    }
    let term = input[start + n];
    let block = vstd::slice::slice_subrange(input, start, start + n);
    match decode_block(block, term) {
        Err(e) => Err(e),
        Ok(headers) => Ok((headers, start + n + 1)),
    }
}

/// Free of NUL characters, which the wire format cannot carry in a name or
/// value (NUL is the token separator).
pub open spec fn nul_free(s: Seq<char>) -> bool {
    forall|i: int| 0 <= i < s.len() ==> (#[trigger] s[i]) as u32 != 0
}

/// Every name and value is free of NUL characters.
pub open spec fn nul_free_env(pairs: Seq<(Seq<char>, Seq<char>)>) -> bool {
    forall|i: int|
        0 <= i < pairs.len() ==> nul_free((#[trigger] pairs[i]).0) && nul_free(pairs[i].1)
}

/// The wire bytes of one (name, value) pair: both tokens UTF-8 encoded, each
/// followed by a NUL separator.
pub open spec fn pair_bytes(p: (Seq<char>, Seq<char>)) -> Seq<u8> {
    encode_utf8(p.0) + seq![0u8] + encode_utf8(p.1) + seq![0u8]
}

/// The header block encoding the given pairs in order.
pub open spec fn block_bytes(pairs: Seq<(Seq<char>, Seq<char>)>) -> Seq<u8>
    decreases pairs.len(),
{
    if pairs.len() == 0 {
        Seq::empty()
    } else {
        pair_bytes(pairs[0]) + block_bytes(pairs.drop_first())
    }
}

/// The ASCII decimal numeral of `n`, most significant digit first.
pub open spec fn digit_bytes(n: int) -> Seq<u8>
    decreases n,
    when n >= 0
{
    if n < 10 {
        seq![(0x30 + n) as u8]
    } else {
        digit_bytes(n / 10).push((0x30 + n % 10) as u8)
    }
}

/// The whole wire message for the given pairs: length prefix, `:`, header
/// block, `,` terminator.
pub open spec fn wire_bytes(pairs: Seq<(Seq<char>, Seq<char>)>) -> Seq<u8> {
    digit_bytes(block_bytes(pairs).len() as int) + seq![0x3au8] + block_bytes(pairs)
        + seq![0x2cu8]
}

/// The UTF-8 encodings of the pairs' names and values.
pub open spec fn raw_pairs(pairs: Seq<(Seq<char>, Seq<char>)>) -> Seq<(Seq<u8>, Seq<u8>)> {
    pairs.map_values(|p: (Seq<char>, Seq<char>)| (encode_utf8(p.0), encode_utf8(p.1)))
}

/// The UTF-8 encoding of a scalar contains a zero byte exactly for the scalar 0.
proof fn lemma_encode_scalar_nul(u: u32)
    requires
        is_scalar(u),
    ensures
        (exists|j: int| 0 <= j < encode_scalar(u).len() && encode_scalar(u)[j] == 0u8) <==> u
            == 0,
{
    if has_width_1_encoding(u) {
        assert(((u & 0x7F) as u8 == 0) <==> u == 0) by (bit_vector)
            requires
                u <= 0x7F,
        ;
        if u == 0 {
            assert(encode_scalar(u)[0] == 0u8);
        }
    } else if has_width_2_encoding(u) {
        assert((0xC0u8 | ((u >> 6) & 0x1F) as u8) != 0 && (0x80u8 | (u & 0x3F) as u8) != 0)
            by (bit_vector);
        assert(forall|j: int|
            0 <= j < encode_scalar(u).len() ==> encode_scalar(u)[j] != 0u8);
    } else if has_width_3_encoding(u) {
        assert((0xE0u8 | ((u >> 12) & 0x0F) as u8) != 0 && (0x80u8 | ((u >> 6) & 0x3F) as u8)
            != 0 && (0x80u8 | (u & 0x3F) as u8) != 0) by (bit_vector);
        assert(forall|j: int|
            0 <= j < encode_scalar(u).len() ==> encode_scalar(u)[j] != 0u8);
    } else {
        assert((0xF0u8 | ((u >> 18) & 0x7) as u8) != 0 && (0x80u8 | ((u >> 12) & 0x3F) as u8)
            != 0 && (0x80u8 | ((u >> 6) & 0x3F) as u8) != 0 && (0x80u8 | (u & 0x3F) as u8)
            != 0) by (bit_vector);
        assert(forall|j: int|
            0 <= j < encode_scalar(u).len() ==> encode_scalar(u)[j] != 0u8);
    }
}

/// A character sequence UTF-8 encodes to bytes with a zero exactly when it
/// holds the NUL character.
pub proof fn lemma_utf8_nul(s: Seq<char>)
    ensures
        (exists|j: int| 0 <= j < encode_utf8(s).len() && encode_utf8(s)[j] == 0u8) <==> (
        exists|i: int| 0 <= i < s.len() && s[i] as u32 == 0),
    decreases s.len(),
{
    if s.len() > 0 {
        char_is_scalar(s[0]);
        lemma_encode_scalar_nul(s[0] as u32);
        lemma_utf8_nul(s.drop_first());
        let eb = encode_scalar(s[0] as u32);
        let rest = encode_utf8(s.drop_first());
        assert(encode_utf8(s) == eb + rest);
        if exists|j: int| 0 <= j < encode_utf8(s).len() && encode_utf8(s)[j] == 0u8 {
            let j = choose|j: int| 0 <= j < encode_utf8(s).len() && encode_utf8(s)[j] == 0u8;
            if j < eb.len() {
                assert(eb[j] == 0u8);
                assert(s[0] as u32 == 0);
            } else {
                assert(rest[j - eb.len()] == 0u8);
                let i = choose|i: int|
                    0 <= i < s.drop_first().len() && s.drop_first()[i] as u32 == 0;
                assert(s[i + 1] as u32 == 0);
            }
        }
        if exists|i: int| 0 <= i < s.len() && s[i] as u32 == 0 {
            let i = choose|i: int| 0 <= i < s.len() && s[i] as u32 == 0;
            if i == 0 {
                let j = choose|j: int| 0 <= j < eb.len() && eb[j] == 0u8;
                assert(encode_utf8(s)[j] == 0u8);
            } else {
                assert(s.drop_first()[i - 1] as u32 == 0);
                let j = choose|j: int| 0 <= j < rest.len() && rest[j] == 0u8;
                assert(encode_utf8(s)[eb.len() + j] == 0u8);
            }
        }
    }
}

/// Splitting on NUL undoes concatenation with a NUL separator, for a
/// NUL-free first segment.
proof fn lemma_split_nuls_append(seg: Seq<u8>, rest: Seq<u8>)
    requires
        forall|i: int| 0 <= i < seg.len() ==> (#[trigger] seg[i]) != 0u8,
    ensures
        split_nuls(seg + seq![0u8] + rest) == seq![seg] + split_nuls(rest),
    decreases seg.len(),
{
    let w = seg + seq![0u8] + rest;
    if seg.len() == 0 {
        assert(w =~= seq![0u8] + rest);
        assert(w[0] == 0u8);
        assert(w.drop_first() =~= rest);
        assert(split_nuls(w) =~~= seq![seg] + split_nuls(rest));
    } else {
        assert(w[0] == seg[0]);
        assert(w[0] != 0u8);
        assert(w.drop_first() =~= seg.drop_first() + seq![0u8] + rest);
        lemma_split_nuls_append(seg.drop_first(), rest);
        let r = split_nuls(w.drop_first());
        lemma_split_nuls_nonempty(rest);
        assert(r == seq![seg.drop_first()] + split_nuls(rest));
        assert(r[0] == seg.drop_first());
        assert(seq![seq![w[0]] + r[0]] + r.drop_first() =~~= seq![seg] + split_nuls(rest));
    }
}

/// The flat token sequence of the pairs' encodings: name, value, name, value, …
spec fn tokens_of(pairs: Seq<(Seq<char>, Seq<char>)>) -> Seq<Seq<u8>>
    decreases pairs.len(),
{
    if pairs.len() == 0 {
        Seq::empty()
    } else {
        seq![encode_utf8(pairs[0].0), encode_utf8(pairs[0].1)] + tokens_of(pairs.drop_first())
    }
}

/// Splitting an encoded block recovers the tokens, plus the empty token after
/// the final separator.
proof fn lemma_block_split(pairs: Seq<(Seq<char>, Seq<char>)>)
    requires
        nul_free_env(pairs),
    ensures
        split_nuls(block_bytes(pairs)) == tokens_of(pairs) + seq![Seq::<u8>::empty()],
    decreases pairs.len(),
{
    if pairs.len() == 0 {
        assert(block_bytes(pairs).len() == 0);
        assert(split_nuls(block_bytes(pairs)) =~~= tokens_of(pairs) + seq![Seq::<u8>::empty()]);
    } else {
        let p0 = pairs[0];
        let kb = encode_utf8(p0.0);
        let vb = encode_utf8(p0.1);
        let tail = block_bytes(pairs.drop_first());
        assert(nul_free(p0.0) && nul_free(p0.1));
        lemma_utf8_nul(p0.0);
        lemma_utf8_nul(p0.1);
        assert(forall|i: int| 0 <= i < kb.len() ==> (#[trigger] kb[i]) != 0u8) by {
            if exists|i: int| 0 <= i < kb.len() && kb[i] == 0u8 {
                assert(exists|i: int| 0 <= i < p0.0.len() && p0.0[i] as u32 == 0);
            }
        }
        assert(forall|i: int| 0 <= i < vb.len() ==> (#[trigger] vb[i]) != 0u8) by {
            if exists|i: int| 0 <= i < vb.len() && vb[i] == 0u8 {
                assert(exists|i: int| 0 <= i < p0.1.len() && p0.1[i] as u32 == 0);
            }
        }
        assert(nul_free_env(pairs.drop_first())) by {
            assert(forall|i: int|
                0 <= i < pairs.len() - 1 ==> #[trigger] pairs.drop_first()[i] == pairs[i + 1]);
        }
        lemma_block_split(pairs.drop_first());
        assert(block_bytes(pairs) =~= kb + seq![0u8] + (vb + seq![0u8] + tail));
        lemma_split_nuls_append(kb, vb + seq![0u8] + tail);
        assert(vb + seq![0u8] + tail =~= vb + seq![0u8] + tail);
        lemma_split_nuls_append(vb, tail);
        assert(seq![kb] + (seq![vb] + (tokens_of(pairs.drop_first()) + seq![Seq::<u8>::empty()]))
            =~~= tokens_of(pairs) + seq![Seq::<u8>::empty()]);
    }
}

/// Pairing the token sequence of encoded pairs (with its trailing empty
/// token) yields exactly those pairs' encodings.
proof fn lemma_pair_tokens_of(pairs: Seq<(Seq<char>, Seq<char>)>)
    ensures
        pair_tokens(tokens_of(pairs) + seq![Seq::<u8>::empty()]) == raw_pairs(pairs),
    decreases pairs.len(),
{
    let t = tokens_of(pairs) + seq![Seq::<u8>::empty()];
    if pairs.len() == 0 {
        assert(t.len() == 1);
        assert(pair_tokens(t) =~~= raw_pairs(pairs));
    } else {
        lemma_pair_tokens_of(pairs.drop_first());
        assert(t[0] == encode_utf8(pairs[0].0));
        assert(t[1] == encode_utf8(pairs[0].1));
        assert(t.skip(2) =~~= tokens_of(pairs.drop_first()) + seq![Seq::<u8>::empty()]);
        assert(raw_pairs(pairs)[0] == (encode_utf8(pairs[0].0), encode_utf8(pairs[0].1)));
        assert(seq![(t[0], t[1])] + raw_pairs(pairs.drop_first()) =~~= raw_pairs(pairs));
    }
}

/// Ten to the `k`.
spec fn pow10(k: int) -> int
    decreases k,
    when k >= 0
{
    if k <= 0 {
        1
    } else {
        10 * pow10(k - 1)
    }
}

proof fn lemma_pow10_pos(k: int)
    requires
        k >= 0,
    ensures
        pow10(k) >= 1,
    decreases k,
{
    if k > 0 {
        lemma_pow10_pos(k - 1);
    }
}

/// The value of a digit-byte sequence read as a decimal numeral (meaningful
/// when every byte is an ASCII digit).
pub open spec fn byte_dec_value(s: Seq<u8>) -> int
    decreases s.len(),
{
    if s.len() == 0 {
        0
    } else {
        byte_dec_value(s.drop_last()) * 10 + (s.last() - 0x30)
    }
}

proof fn lemma_bdv_nonneg(s: Seq<u8>)
    requires
        forall|i: int| 0 <= i < s.len() ==> is_digit_byte(#[trigger] s[i]),
    ensures
        byte_dec_value(s) >= 0,
    decreases s.len(),
{
    if s.len() > 0 {
        assert(forall|i: int|
            0 <= i < s.len() - 1 ==> #[trigger] s.drop_last()[i] == s[i]);
        lemma_bdv_nonneg(s.drop_last());
    }
}

/// Peeling the most significant digit off a numeral.
proof fn lemma_bdv_first(s: Seq<u8>)
    requires
        s.len() > 0,
        forall|i: int| 0 <= i < s.len() ==> is_digit_byte(#[trigger] s[i]),
    ensures
        byte_dec_value(s) == (s[0] - 0x30) * pow10(s.len() - 1) + byte_dec_value(s.drop_first()),
    decreases s.len(),
{
    if s.len() == 1 {
        assert(s.drop_first().len() == 0);
        assert(byte_dec_value(s.drop_first()) == 0);
        assert(s.drop_last().len() == 0);
        assert(byte_dec_value(s.drop_last()) == 0);
        assert(s.last() == s[0]);
        assert(pow10(0) == 1);
        assert(byte_dec_value(s) == s[0] - 0x30);
    } else {
        let fore = s.drop_last();
        assert(forall|i: int| 0 <= i < fore.len() ==> #[trigger] fore[i] == s[i]);
        lemma_bdv_first(fore);
        assert(fore.drop_first() =~= s.drop_first().drop_last());
        assert(s.drop_first().last() == s.last());
        let m = s.len() - 2;
        let d0 = s[0] - 0x30;
        assert(byte_dec_value(s) == byte_dec_value(fore) * 10 + (s.last() - 0x30));
        assert(byte_dec_value(fore) == d0 * pow10(m) + byte_dec_value(fore.drop_first()));
        assert((d0 * pow10(m) + byte_dec_value(fore.drop_first())) * 10 + (s.last() - 0x30) == d0
            * (10 * pow10(m)) + (byte_dec_value(fore.drop_first()) * 10 + (s.last() - 0x30)))
            by (nonlinear_arith);
        assert(pow10(s.len() - 1) == 10 * pow10(m));
        assert(byte_dec_value(s.drop_first()) == byte_dec_value(fore.drop_first()) * 10 + (
        s.last() - 0x30));
    }
}

/// Scanning a numeral of digit bytes up to a `:` yields its value combined
/// with what was already accumulated.
proof fn lemma_scan_digits(input: Seq<u8>, i: int, j: int, acc: int)
    requires
        0 <= i <= j < input.len(),
        forall|k: int| i <= k < j ==> is_digit_byte(#[trigger] input[k]),
        input[j] == 0x3au8,
        0 <= acc,
        acc * pow10(j - i) + byte_dec_value(input.subrange(i, j)) <= MAX_HEADER_LENGTH as int,
    ensures
        scan_length(input, i, acc) == Ok::<(int, int), ScgiError>(
            (acc * pow10(j - i) + byte_dec_value(input.subrange(i, j)), j + 1),
        ),
    decreases j - i,
{
    let s = input.subrange(i, j);
    assert(forall|k: int| 0 <= k < s.len() ==> is_digit_byte(#[trigger] s[k]));
    lemma_bdv_nonneg(s);
    if i == j {
        assert(s.len() == 0);
        assert(pow10(0) == 1);
    } else {
        let d = input[i] - 0x30;
        let acc2 = acc * 10 + d;
        lemma_bdv_first(s);
        assert(s[0] == input[i]);
        assert(s.drop_first() =~= input.subrange(i + 1, j));
        lemma_bdv_nonneg(s.drop_first());
        lemma_pow10_pos(j - i - 1);
        lemma_pow10_pos(j - i);
        assert(acc2 * pow10(j - i - 1) + byte_dec_value(input.subrange(i + 1, j)) == acc * pow10(
            j - i,
        ) + byte_dec_value(s)) by (nonlinear_arith)
            requires
                acc2 == acc * 10 + d,
                pow10(j - i) == 10 * pow10(j - i - 1),
                byte_dec_value(s) == d * pow10(j - i - 1) + byte_dec_value(
                    input.subrange(i + 1, j),
                ),
        ;
        assert(acc2 <= acc2 * pow10(j - i - 1)) by (nonlinear_arith)
            requires
                acc2 >= 0,
                pow10(j - i - 1) >= 1,
        ;
        lemma_scan_digits(input, i + 1, j, acc2);
    }
}

/// The numeral of `n` is made of digit bytes and reads back as `n`.
proof fn lemma_digit_bytes(n: int)
    requires
        n >= 0,
    ensures
        digit_bytes(n).len() >= 1,
        forall|i: int| 0 <= i < digit_bytes(n).len() ==> is_digit_byte(#[trigger] digit_bytes(n)[i]),
        byte_dec_value(digit_bytes(n)) == n,
    decreases n,
{
    if n < 10 {
        let s = digit_bytes(n);
        assert(s == seq![(0x30 + n) as u8]);
        assert(s.drop_last().len() == 0);
        assert(byte_dec_value(s.drop_last()) == 0);
        assert(s.last() == (0x30 + n) as u8);
        assert((0x30 + n) as u8 == 0x30 + n);
        assert(byte_dec_value(s) == (0x30 + n) as u8 - 0x30);
    } else {
        lemma_digit_bytes(n / 10);
        let s = digit_bytes(n);
        let fore = digit_bytes(n / 10);
        assert(s == fore.push((0x30 + n % 10) as u8));
        assert(s.drop_last() =~= fore);
        assert(s.last() == (0x30 + n % 10) as u8);
        assert(byte_dec_value(s) == (n / 10) * 10 + n % 10);
        assert((n / 10) * 10 + n % 10 == n) by (nonlinear_arith)
            requires
                n >= 0,
        ;
    }
}

/// The round-trip law at the byte level: the wire message of NUL-free pairs
/// whose block fits the length bound decodes without error, consuming the
/// whole message, to exactly the pairs' UTF-8 encodings — which decode back
/// to the original names and values.
pub proof fn lemma_wire_round_trip(pairs: Seq<(Seq<char>, Seq<char>)>)
    requires
        nul_free_env(pairs),
        block_bytes(pairs).len() <= MAX_HEADER_LENGTH,
    ensures
        spec_decode(wire_bytes(pairs)) == Ok::<(Seq<(Seq<u8>, Seq<u8>)>, int), ScgiError>(
            (raw_pairs(pairs), wire_bytes(pairs).len() as int),
        ),
        all_valid_utf8(raw_pairs(pairs)),
        utf8_char_pairs(raw_pairs(pairs)) == pairs,
{
    let block = block_bytes(pairs);
    let n = block.len() as int;
    let w = wire_bytes(pairs);
    let ds = digit_bytes(n);
    let d = ds.len() as int;
    lemma_digit_bytes(n);
    assert(w.len() == d + 1 + n + 1);
    assert(forall|k: int| 0 <= k < d ==> #[trigger] w[k] == ds[k]);
    assert(w[d] == 0x3au8);
    lemma_pow10_pos(d);
    assert(w.subrange(0, d) =~= ds);
    assert(0 * pow10(d) + byte_dec_value(w.subrange(0, d)) == n);
    lemma_scan_digits(w, 0, d, 0);
    assert(scan_length(w, 0, 0) == Ok::<(int, int), ScgiError>((n, d + 1)));
    assert(w[d + 1 + n] == 0x2cu8);
    assert(w.subrange(d + 1, d + 1 + n) =~= block);
    lemma_block_split(pairs);
    lemma_pair_tokens_of(pairs);
    assert(header_pairs(block) == raw_pairs(pairs));
    assert(spec_decode(w) == Ok::<(Seq<(Seq<u8>, Seq<u8>)>, int), ScgiError>(
        (raw_pairs(pairs), w.len() as int),
    ));
    assert forall|i: int| 0 <= i < raw_pairs(pairs).len() implies valid_utf8(
        (#[trigger] raw_pairs(pairs)[i]).0,
    ) && valid_utf8(raw_pairs(pairs)[i].1) by {
        encode_utf8_valid_utf8(pairs[i].0);
        encode_utf8_valid_utf8(pairs[i].1);
    }
    assert forall|i: int| 0 <= i < pairs.len() implies #[trigger] utf8_char_pairs(
        raw_pairs(pairs),
    )[i] == pairs[i] by {
        encode_utf8_decode_utf8(pairs[i].0);
        encode_utf8_decode_utf8(pairs[i].1);
    }
    assert(utf8_char_pairs(raw_pairs(pairs)) =~~= pairs);
}

/// Appending one pair extends the block by that pair's bytes.
proof fn lemma_block_bytes_push(s: Seq<(Seq<char>, Seq<char>)>, p: (Seq<char>, Seq<char>))
    ensures
        block_bytes(s.push(p)) == block_bytes(s) + pair_bytes(p),
    decreases s.len(),
{
    if s.len() == 0 {
        assert(s.push(p)[0] == p);
        assert(s.push(p).drop_first() =~~= Seq::<(Seq<char>, Seq<char>)>::empty());
        assert(block_bytes(s.push(p).drop_first()) =~= Seq::<u8>::empty());
        assert(block_bytes(s) =~= Seq::<u8>::empty());
        assert(block_bytes(s.push(p)) == pair_bytes(s.push(p)[0]) + block_bytes(
            s.push(p).drop_first(),
        ));
        assert(block_bytes(s.push(p)) =~= block_bytes(s) + pair_bytes(p));
    } else {
        assert(s.push(p)[0] == s[0]);
        assert(s.push(p).drop_first() =~~= s.drop_first().push(p));
        lemma_block_bytes_push(s.drop_first(), p);
        assert(block_bytes(s.push(p)) =~= block_bytes(s) + pair_bytes(p));
    }
}

/// True when `v` holds a zero byte.
fn contains_zero(v: &Vec<u8>) -> (r: bool)
    ensures
        r <==> (exists|i: int| 0 <= i < v@.len() && v@[i] == 0u8),
{
    let mut i: usize = 0;
    while i < v.len()
        invariant
            0 <= i <= v@.len(),
            forall|j: int| 0 <= j < i ==> (#[trigger] v@[j]) != 0u8,
        decreases v@.len() - i,
    {
        if v[i] == 0 {
            return true;
        }
        i += 1;
    }
    false
}

/// Appends the decimal numeral of `n` to `out`.
fn push_digits(out: &mut Vec<u8>, n: usize)
    ensures
        final(out)@ == old(out)@ + digit_bytes(n as int),
    decreases n,
{
    if n < 10 {
        out.push(0x30 + n as u8);
        proof {
            assert(out@ =~= old(out)@ + digit_bytes(n as int));
        }
    } else {
        push_digits(out, n / 10);
        out.push(0x30 + (n % 10) as u8);
        proof {
            assert(out@ =~= old(out)@ + digit_bytes(n as int));
        }
    }
}

/// Encodes an environment to its wire message. `None` exactly when the wire
/// format cannot carry it: some name or value holds a NUL character, or the
/// header block would exceed [`MAX_HEADER_LENGTH`].
pub fn encode(headers: &SCGIEnv) -> (r: Option<Vec<u8>>)
    requires
        headers.wf(),
    ensures
        r is Some <==> (nul_free_env(headers.ordered()) && block_bytes(
            headers.ordered(),
        ).len() <= MAX_HEADER_LENGTH),
        r is Some ==> r->0@ == wire_bytes(headers.ordered()),
{
    let ghost pairs = headers.ordered();
    let mut block: Vec<u8> = Vec::new();
    let mut i: usize = 0;
    proof {
        assert(pairs.take(0) =~~= Seq::<(Seq<char>, Seq<char>)>::empty());
        assert(block@ =~= block_bytes(pairs.take(0)));
    }
    while i < headers.env.len()
        invariant
            0 <= i <= headers.env@.len(),
            pairs == headers.ordered(),
            block@ == block_bytes(pairs.take(i as int)),
            forall|j: int| 0 <= j < i ==> nul_free((#[trigger] pairs[j]).0) && nul_free(
                pairs[j].1,
            ),
        decreases headers.env@.len() - i,
    {
        let mut kb = headers.env[i].0.as_str().as_bytes_vec();
        let mut vb = headers.env[i].1.as_str().as_bytes_vec();
        proof {
            assert(pairs[i as int] == (headers.env@[i as int].0@, headers.env@[i as int].1@));
            lemma_utf8_nul(pairs[i as int].0);
            lemma_utf8_nul(pairs[i as int].1);
        }
        if contains_zero(&kb) {
            proof {
                assert(!nul_free(pairs[i as int].0));
            }
            return None;
        }
        if contains_zero(&vb) {
            proof {
                assert(!nul_free(pairs[i as int].1));
            }
            return None;
        }
        let ghost pre = block@;
        block.append(&mut kb);
        block.push(0);
        block.append(&mut vb);
        block.push(0);
        proof {
            assert(pairs.take(i + 1) =~~= pairs.take(i as int).push(pairs[i as int]));
            lemma_block_bytes_push(pairs.take(i as int), pairs[i as int]);
            assert(block@ =~= pre + pair_bytes(pairs[i as int]));
        }
        i += 1;
    }
    proof {
        assert(pairs.take(i as int) =~~= pairs);
    }
    if block.len() > MAX_HEADER_LENGTH {
        return None;
    }
    let n = block.len();
    let mut out: Vec<u8> = Vec::new();
    push_digits(&mut out, n);
    out.push(0x3a);
    out.append(&mut block);
    out.push(0x2c);
    proof {
        assert(out@ =~= wire_bytes(pairs));
    }
    Some(out)
}

/// The round-trip law: the wire message of any mapping (unique keys) of
/// NUL-free names and values that fits the length bound decodes without
/// error, consuming the whole message, and rebuilding the environment from
/// the decoded pairs reproduces an equal mapping.
pub proof fn lemma_round_trip(pairs: Seq<(Seq<char>, Seq<char>)>)
    requires
        unique_keys(pairs),
        nul_free_env(pairs),
        block_bytes(pairs).len() <= MAX_HEADER_LENGTH,
    ensures
        spec_decode(wire_bytes(pairs)) is Ok,
        spec_decode(wire_bytes(pairs))->Ok_0.1 == wire_bytes(pairs).len(),
        all_valid_utf8(spec_decode(wire_bytes(pairs))->Ok_0.0),
        env_from_pairs(utf8_char_pairs(spec_decode(wire_bytes(pairs))->Ok_0.0)) == pairs,
{
    lemma_wire_round_trip(pairs);
    lemma_env_from_pairs_of_unique(pairs);
}

/// Scanning fails on a byte that is neither a digit nor the delimiter.
proof fn lemma_scan_invalid(input: Seq<u8>, i: int, k: int, acc: int)
    requires
        0 <= k <= i < input.len(),
        forall|j: int| k <= j < i ==> is_digit_byte(#[trigger] input[j]),
        !is_digit_byte(input[i]),
        input[i] != 0x3au8,
        acc >= 0,
    ensures
        scan_length(input, k, acc) == Err::<(int, int), ScgiError>(ScgiError::InvalidHeaderLength),
    decreases i - k,
{
    if k < i {
        let d = input[k] - 0x30;
        lemma_scan_invalid(input, i, k + 1, acc * 10 + d);
    }
}

/// Decoding fails with `InvalidHeaderLength` when a byte that is neither a
/// digit nor the `:` delimiter appears with only digits before it.
pub proof fn lemma_decode_invalid_prefix(input: Seq<u8>, i: int)
    requires
        0 <= i < input.len(),
        forall|j: int| 0 <= j < i ==> is_digit_byte(#[trigger] input[j]),
        !is_digit_byte(input[i]),
        input[i] != 0x3au8,
    ensures
        spec_decode(input) == Err::<(Seq<(Seq<u8>, Seq<u8>)>, int), ScgiError>(
            ScgiError::InvalidHeaderLength,
        ),
{
    lemma_scan_invalid(input, i, 0, 0);
}

/// Decoding fails with `Truncated` when fewer bytes are available than the
/// length prefix, the delimiter, the declared block and the terminator need:
/// with `d` digits declaring `n` block bytes, any input under `d + n + 2`
/// bytes.
pub proof fn lemma_decode_truncated(input: Seq<u8>, d: int)
    requires
        0 <= d < input.len(),
        forall|j: int| 0 <= j < d ==> is_digit_byte(#[trigger] input[j]),
        input[d] == 0x3au8,
        byte_dec_value(input.subrange(0, d)) <= MAX_HEADER_LENGTH as int,
        input.len() < d + 1 + byte_dec_value(input.subrange(0, d)) + 1,
    ensures
        spec_decode(input) == Err::<(Seq<(Seq<u8>, Seq<u8>)>, int), ScgiError>(
            ScgiError::Truncated,
        ),
{
    lemma_scan_digits(input, 0, d, 0);
    lemma_pow10_pos(d);
}

/// Decoding fails with `MissingTerminator` when the byte right after the
/// declared-length header block is anything but `,`.
pub proof fn lemma_decode_missing_terminator(input: Seq<u8>, d: int)
    requires
        0 <= d < input.len(),
        forall|j: int| 0 <= j < d ==> is_digit_byte(#[trigger] input[j]),
        input[d] == 0x3au8,
        byte_dec_value(input.subrange(0, d)) <= MAX_HEADER_LENGTH as int,
        input.len() >= d + 1 + byte_dec_value(input.subrange(0, d)) + 1,
        input[d + 1 + byte_dec_value(input.subrange(0, d))] != 0x2cu8,
    ensures
        spec_decode(input) == Err::<(Seq<(Seq<u8>, Seq<u8>)>, int), ScgiError>(
            ScgiError::MissingTerminator,
        ),
{
    lemma_scan_digits(input, 0, d, 0);
    lemma_pow10_pos(d);
}

} // verus!
