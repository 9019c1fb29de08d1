use vstd::prelude::*;

use crate::codec::{
    encode_all, encode_tags, lemma_encode_all_starts_with_name, lemma_tags_of_encoded, parse_tags, stream_frames_back, tags_of, tags_view,
    Tag, TagView,
};
use crate::errors::ParseError;
use crate::channelgroups::{after_entry, container_kind, container_kind_of, skip_entry, ContainerKind};
use crate::header::qvrs_name;
use crate::transform::{decompress, decompress_of, unprotect, unprotect_of};

verus! {

/// A channel-group file as a flat list of tags, for writing back.
///
/// Compressed and obfuscated files are read through their layers, and
/// written back without them.
#[derive(Debug)]
pub struct Quest3DFile {
    pub tags: Vec<Tag>,
}

impl View for Quest3DFile {
    type V = Seq<TagView>;

    open spec fn view(&self) -> Seq<TagView> {
        tags_view(self.tags@)
    }
}

/// The tags of a decompressed stream, read through its obfuscation layer.
pub open spec fn inner_tags_of(d: Seq<u8>) -> Result<Seq<TagView>, ParseError> {
    match unprotect_of(d) {
        Err(e) => Err(e),
        Ok(u) => tags_of(u),
    }
}

/// The flat tag list of the buffer `b`: all the tags of a plain container,
/// entry tag included; for a wrapped one, the tags inside its compressed
/// (and possibly obfuscated) layer.
pub open spec fn flat_of(b: Seq<u8>) -> Result<Seq<TagView>, ParseError> {
    if b.len() < 4 {
        Err(ParseError::TruncatedInput)
    } else {
        match container_kind_of(b.take(4)) {
            None => Err(ParseError::InvalidFileType),
            Some(ContainerKind::Plain) => tags_of(b),
            Some(ContainerKind::Wrapped) => match after_entry(b) {
                Err(e) => Err(e),
                Ok(rest) => match decompress_of(rest) {
                    Err(e) => Err(e),
                    Ok(d) => inner_tags_of(d),
                },
            },
        }
    }
}

impl Quest3DFile {
    /// Reads the tags of a decompressed stream `d`, unmasking its
    /// obfuscated layer where it has one.
    pub fn from_decompressed(d: &[u8]) -> (r: Result<Quest3DFile, ParseError>)
        ensures
            match r {
                Ok(f) => inner_tags_of(d@) == Ok::<Seq<TagView>, ParseError>(f@),
                Err(e) => inner_tags_of(d@) == Err::<Seq<TagView>, ParseError>(e),
            },
    {
        let u = match unprotect(d) {
            Ok(u) => u,
            Err(e) => return Err(e),
        };
        match parse_tags(u.as_slice()) {
            Ok(tags) => Ok(Quest3DFile { tags }),
            Err(e) => Err(e),
        }
    }

    /// Reads a whole file held in `input` as a flat tag list.
    pub fn from_bytes(input: &[u8]) -> (r: Result<Quest3DFile, ParseError>)
        ensures
            match r {
                Ok(f) => flat_of(input@) == Ok::<Seq<TagView>, ParseError>(f@),
                Err(e) => flat_of(input@) == Err::<Seq<TagView>, ParseError>(e),
            },
    {
        if input.len() < 4 {
            return Err(ParseError::TruncatedInput);
        }
        match container_kind(input) {
            None => Err(ParseError::InvalidFileType),
            Some(ContainerKind::Plain) => match parse_tags(input) {
                Ok(tags) => Ok(Quest3DFile { tags }),
                Err(e) => Err(e),
            },
            Some(ContainerKind::Wrapped) => {
                let rest = match skip_entry(input) {
                    Ok(rest) => rest,
                    Err(e) => return Err(e),
                };
                match decompress(rest) {
                    Ok(d) => Quest3DFile::from_decompressed(d.as_slice()),
                    Err(e) => Err(e),
                }
            },
        }
    }

    /// The bytes of the file as tags written verbatim: each name, then, for
    /// a non-empty payload, its little-endian `u32` length and the payload.
    pub fn to_bytes(&self) -> (r: Vec<u8>)
        requires
            forall|i: int|
                0 <= i < self.tags@.len() ==> (#[trigger] self.tags@[i]).data@.len() <= u32::MAX,
        ensures
            r@ == encode_all(self@),
    {
        encode_tags(self.tags.as_slice())
    }
}

/// Writing a plain container's tag list and reading it back gives the same
/// tags, for every list that starts with the `QVRS` entry tag and whose tags
/// frame back.
pub proof fn lemma_flat_round_trip(ts: Seq<TagView>)
    requires
        ts.len() > 0,
        ts[0].0 == qvrs_name(),
        stream_frames_back(ts, Seq::empty()),
    ensures
        flat_of(encode_all(ts)) == Ok::<Seq<TagView>, ParseError>(ts),
{
    assert(ts[0].0.len() == 4);
    lemma_encode_all_starts_with_name(ts);
    assert(encode_all(ts).take(4) =~= qvrs_name());
    lemma_tags_of_encoded(ts, Seq::empty());
    assert(encode_all(ts) + Seq::<u8>::empty() =~= encode_all(ts));
    assert(tags_of(Seq::<u8>::empty()) == Ok::<Seq<TagView>, ParseError>(Seq::empty()));
    assert(ts + Seq::<TagView>::empty() =~= ts);
}

} // verus!
