use std::io::Read;
use vstd::prelude::*;

use crate::codec::{encode_all, lemma_tags_of_encoded, parse_tags, stream_frames_back, tags_of, TagView};
use crate::errors::ParseError;

verus! {

/// `ZICB`: the tag whose payload is the zlib-compressed inner stream.
pub open spec fn zicb_name() -> Seq<u8> {
    seq![0x5au8, 0x49u8, 0x43u8, 0x42u8]
}

/// `NECB`: the tag whose payload is the obfuscated inner stream.
pub open spec fn necb_name() -> Seq<u8> {
    seq![0x4eu8, 0x45u8, 0x43u8, 0x42u8]
}

/// What zlib inflation makes of `b`; `None` where `b` is not a complete,
/// well-formed zlib stream.
pub uninterp spec fn zlib_inflated(b: Seq<u8>) -> Option<Seq<u8>>;

/// Relies on `flate2::read::ZlibDecoder`, read to the end: over an in-memory
/// slice its output, or its failure on a corrupt or incomplete stream,
/// depends on the input bytes alone.
#[verifier::external_body]
fn zlib_inflate_payload(b: &[u8]) -> (r: Option<Vec<u8>>)
    ensures
        match r {
            Some(v) => zlib_inflated(b@) == Some(v@),
            None => zlib_inflated(b@) is None,
        },
{
    let mut out = Vec::new();
    let mut decoder = flate2::read::ZlibDecoder::new(b);
    match decoder.read_to_end(&mut out) {
        Ok(_) => Some(out),
        Err(_) => None,
    }
}

/// Every byte XOR-ed with `0x04`: the obfuscation, which is its own inverse.
pub open spec fn xor_mask_of(b: Seq<u8>) -> Seq<u8> {
    Seq::new(b.len(), |i: int| b[i] ^ 4u8)
}

/// Masks or unmasks an obfuscated payload.
pub fn xor_mask(b: &[u8]) -> (r: Vec<u8>)
    ensures
        r@ == xor_mask_of(b@),
{
    let mut r: Vec<u8> = Vec::new();
    let mut i: usize = 0;
    while i < b.len()
        invariant
            i <= b@.len(),
            r@ == xor_mask_of(b@).take(i as int),
        decreases b@.len() - i,
    {
        r.push(b[i] ^ 4u8);
        i = i + 1;
        assert(r@ =~= xor_mask_of(b@).take(i as int));
    }
    assert(xor_mask_of(b@).take(i as int) =~= xor_mask_of(b@));
    r
}

/// Applying the obfuscation twice gives back the same bytes.
pub proof fn lemma_xor_mask_twice(b: Seq<u8>)
    ensures
        xor_mask_of(xor_mask_of(b)) == b,
{
    assert forall|i: int| 0 <= i < b.len() implies xor_mask_of(xor_mask_of(b))[i] == b[i] by {
        let x = b[i];
        assert((x ^ 4u8) ^ 4u8 == x) by (bit_vector);
    }
    assert(xor_mask_of(xor_mask_of(b)) =~= b);
}

/// The compression layer of the stream that follows the entry tag: two tags
/// are skipped, the third must be `ZICB`, and its payload is inflated.
pub open spec fn decompress_of(s: Seq<u8>) -> Result<Seq<u8>, ParseError> {
    match tags_of(s) {
        Err(e) => Err(e),
        Ok(ts) => if ts.len() < 3 {
            Err(ParseError::TruncatedInput)
        } else if ts[2].0 != zicb_name() {
            Err(ParseError::InvalidFileType)
        } else {
            match zlib_inflated(ts[2].1) {
                Some(d) => Ok(d),
                None => Err(ParseError::DecompressionError),
            }
        },
    }
}

/// The obfuscation layer of a decompressed stream: where its fifth tag is
/// `NECB`, that tag's payload unmasked; else the stream itself.
pub open spec fn unprotect_of(d: Seq<u8>) -> Result<Seq<u8>, ParseError> {
    match tags_of(d) {
        Err(e) => Err(e),
        Ok(ts) => if ts.len() > 4 && ts[4].0 == necb_name() {
            Ok(xor_mask_of(ts[4].1))
        } else {
            Ok(d)
        },
    }
}

/// Undoes the compression layer of a wrapped container; `input` is what
/// follows the entry tag.
pub fn decompress(input: &[u8]) -> (r: Result<Vec<u8>, ParseError>)
    ensures
        match r {
            Ok(v) => decompress_of(input@) == Ok::<Seq<u8>, ParseError>(v@),
            Err(e) => decompress_of(input@) == Err::<Seq<u8>, ParseError>(e),
        },
{
    let tags = parse_tags(input)?;
    if tags.len() < 3 {
        return Err(ParseError::TruncatedInput);
    }
    assert(tags@[2]@ == crate::codec::tags_view(tags@)[2]);
    if !tags[2].name_is([0x5au8, 0x49u8, 0x43u8, 0x42u8]) {
        assert([0x5au8, 0x49u8, 0x43u8, 0x42u8]@ =~= zicb_name());
        return Err(ParseError::InvalidFileType);
    }
    assert([0x5au8, 0x49u8, 0x43u8, 0x42u8]@ =~= zicb_name());
    match zlib_inflate_payload(tags[2].data.as_slice()) {
        Some(d) => Ok(d),
        None => Err(ParseError::DecompressionError),
    }
}

/// Undoes the obfuscation layer of a decompressed stream, or hands the
/// stream back unchanged where it has none.
pub fn unprotect(input: &[u8]) -> (r: Result<Vec<u8>, ParseError>)
    ensures
        match r {
            Ok(v) => unprotect_of(input@) == Ok::<Seq<u8>, ParseError>(v@),
            Err(e) => unprotect_of(input@) == Err::<Seq<u8>, ParseError>(e),
        },
{
    let tags = parse_tags(input)?;
    let necb = [0x4eu8, 0x45u8, 0x43u8, 0x42u8];
    assert(necb@ =~= necb_name());
    if tags.len() > 4 && tags[4].name_is(necb) {
        assert(tags@[4]@ == crate::codec::tags_view(tags@)[4]);
        return Ok(xor_mask(tags[4].data.as_slice()));
    }
    proof {
        if tags@.len() > 4 {
            assert(tags@[4]@ == crate::codec::tags_view(tags@)[4]);
        }
    }
    Ok(vstd::slice::slice_to_vec(input))
}

/// The obfuscation layer leaves the stream unchanged: four tags followed by
/// `NECB` holding `s` masked unprotect to `s`, and `s` itself, whose fifth
/// tag is not `NECB`, unprotects to `s` as well.
pub proof fn lemma_obfuscation_layer_transparent(us: Seq<TagView>, s: Seq<u8>)
    requires
        us.len() == 4,
        stream_frames_back(us.push((necb_name(), xor_mask_of(s))), Seq::empty()),
        tags_of(s) matches Ok(ts) && (ts.len() <= 4 || ts[4].0 != necb_name()),
    ensures
        unprotect_of(encode_all(us.push((necb_name(), xor_mask_of(s))))) == Ok::<
            Seq<u8>,
            ParseError,
        >(s),
        unprotect_of(s) == Ok::<Seq<u8>, ParseError>(s),
{
    let ts = us.push((necb_name(), xor_mask_of(s)));
    lemma_tags_of_encoded(ts, Seq::empty());
    assert(encode_all(ts) + Seq::<u8>::empty() =~= encode_all(ts));
    assert(tags_of(Seq::<u8>::empty()) == Ok::<Seq<TagView>, ParseError>(Seq::empty()));
    assert(ts + Seq::<TagView>::empty() =~= ts);
    assert(ts[4] == (necb_name(), xor_mask_of(s)));
    lemma_xor_mask_twice(s);
}

} // verus!
