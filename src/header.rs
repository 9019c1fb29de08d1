use vstd::prelude::*;

use crate::codec::{le_u32_of, magic_name, parse_tags, read_le_u32, tags_of, tags_view, Tag, TagView};
use crate::errors::ParseError;

verus! {

/// `QVRS`: the engine-version tag, also the entry tag of a plain container.
pub open spec fn qvrs_name() -> Seq<u8> {
    seq![0x51u8, 0x56u8, 0x52u8, 0x53u8]
}

/// `CGGG`: the channel-group tag of the header.
pub open spec fn cggg_name() -> Seq<u8> {
    seq![0x43u8, 0x47u8, 0x47u8, 0x47u8]
}

/// The sixteen raw bytes of a channel group's unique identifier.
#[derive(Debug)]
pub struct Guid {
    bytes: Vec<u8>,
}

impl View for Guid {
    type V = Seq<u8>;

    closed spec fn view(&self) -> Seq<u8> {
        self.bytes@
    }
}

/// Sixteen zero bytes: the identifier of a group that has none.
pub open spec fn nil_guid() -> Seq<u8> {
    Seq::new(16, |i: int| 0u8)
}

impl Guid {
    #[verifier::type_invariant]
    spec fn inv(&self) -> bool {
        self.bytes@.len() == 16
    }

    /// The all-zero identifier.
    pub fn nil() -> (r: Guid)
        ensures
            r@ == nil_guid(),
    {
        let mut bytes: Vec<u8> = Vec::new();
        let mut i: usize = 0;
        while i < 16
            invariant
                i <= 16,
                bytes@ == Seq::new(i as nat, |j: int| 0u8),
            decreases 16 - i,
        {
            bytes.push(0u8);
            i = i + 1;
            assert(bytes@ =~= Seq::new(i as nat, |j: int| 0u8));
        }
        Guid { bytes }
    }

    /// The identifier held in `b`, which must be exactly sixteen bytes long.
    pub fn from_slice(b: &[u8]) -> (r: Option<Guid>)
        ensures
            r is Some <==> b@.len() == 16,
            r matches Some(g) ==> g@ == b@,
    {
        if b.len() != 16 {
            return None;
        }
        Some(Guid { bytes: vstd::slice::slice_to_vec(b) })
    }

    pub fn as_bytes(&self) -> (r: &[u8])
        ensures
            r@ == self@,
            r@.len() == 16,
    {
        proof {
            use_type_invariant(self);
        }
        self.bytes.as_slice()
    }
}

/// The structured header at the start of the innermost tag stream.
#[derive(Debug)]
pub struct GroupHeader {
    pub engine_version: u32,
    pub guid: Guid,
    pub channel_count: u32,
}

impl View for GroupHeader {
    type V = (u32, Seq<u8>, u32);

    open spec fn view(&self) -> (u32, Seq<u8>, u32) {
        (self.engine_version, self.guid@, self.channel_count)
    }
}

/// The header read from a tag stream, in its fixed order: `QVRS` with the
/// engine version, the `A3DG` marker, `CGGG`, a tag with the 16-byte
/// identifier, two tags not looked at, and a tag with the channel count.
pub open spec fn header_of(ts: Seq<TagView>) -> Result<(u32, Seq<u8>, u32), ParseError> {
    if ts.len() < 7 {
        Err(ParseError::TruncatedInput)
    } else if ts[0].0 != qvrs_name() || ts[1].0 != magic_name() || ts[2].0 != cggg_name() {
        Err(ParseError::NomError)
    } else if ts[0].1.len() < 4 || ts[6].1.len() < 4 {
        Err(ParseError::TruncatedInput)
    } else if ts[3].1.len() != 16 {
        Err(ParseError::NomError)
    } else {
        Ok((le_u32_of(ts[0].1) as u32, ts[3].1, le_u32_of(ts[6].1) as u32))
    }
}

/// The header of the tag stream that fills `b`.
pub open spec fn group_header_of(b: Seq<u8>) -> Result<(u32, Seq<u8>, u32), ParseError> {
    match tags_of(b) {
        Err(e) => Err(e),
        Ok(ts) => header_of(ts),
    }
}

/// Reads the header out of a list of tags.
pub fn header_from_tags(tags: &[Tag]) -> (r: Result<GroupHeader, ParseError>)
    ensures
        match r {
            Ok(h) => header_of(tags_view(tags@)) == Ok::<(u32, Seq<u8>, u32), ParseError>(h@),
            Err(e) => header_of(tags_view(tags@)) == Err::<(u32, Seq<u8>, u32), ParseError>(e),
        },
{
    let ghost v = tags_view(tags@);
    if tags.len() < 7 {
        return Err(ParseError::TruncatedInput);
    }
    assert(v[0] == tags@[0]@ && v[1] == tags@[1]@ && v[2] == tags@[2]@);
    assert(v[3] == tags@[3]@ && v[6] == tags@[6]@);
    let qvrs = [0x51u8, 0x56u8, 0x52u8, 0x53u8];
    let a3dg = [0x41u8, 0x33u8, 0x44u8, 0x47u8];
    let cggg = [0x43u8, 0x47u8, 0x47u8, 0x47u8];
    assert(qvrs@ =~= qvrs_name());
    assert(a3dg@ =~= magic_name());
    assert(cggg@ =~= cggg_name());
    if !tags[0].name_is(qvrs) || !tags[1].name_is(a3dg) || !tags[2].name_is(cggg) {
        return Err(ParseError::NomError);
    }
    if tags[0].data.len() < 4 || tags[6].data.len() < 4 {
        return Err(ParseError::TruncatedInput);
    }
    let guid = match Guid::from_slice(tags[3].data.as_slice()) {
        Some(g) => g,
        None => return Err(ParseError::NomError),
    };
    let engine_version = read_le_u32(tags[0].data.as_slice(), 0);
    let channel_count = read_le_u32(tags[6].data.as_slice(), 0);
    assert(tags[0].data@.skip(0) =~= tags[0].data@);
    assert(tags[6].data@.skip(0) =~= tags[6].data@);
    Ok(GroupHeader { engine_version, guid, channel_count })
}

/// Reads the header at the start of the innermost tag stream `input`.
pub fn parse_group_header(input: &[u8]) -> (r: Result<GroupHeader, ParseError>)
    ensures
        match r {
            Ok(h) => group_header_of(input@) == Ok::<(u32, Seq<u8>, u32), ParseError>(h@),
            Err(e) => group_header_of(input@) == Err::<(u32, Seq<u8>, u32), ParseError>(e),
        },
{
    let tags = parse_tags(input)?;
    header_from_tags(tags.as_slice())
}

} // verus!
