//! The IFD tree codec: recursive, offset-driven decoding of TIFF image file
//! directories, and serialization of a directory's tags back to bytes.
//!
//! A directory is a 2-byte entry count, a table of 12-byte entries, and a
//! 4-byte trailing link. An entry whose value is wider than four bytes
//! stores an offset relative to the TIFF base instead; offset tags lead to
//! nested sub-directories, and the paired strip tags point at data segments
//! that are gathered into one synthesized tag.

use vstd::prelude::*;
use crate::MetaError;
use crate::endian::{Endian, u16_val, u32_val, u16_bytes, u32_bytes, u16_from_bytes,
    u32_from_bytes, push_u16_bytes, push_u32_bytes};

verus! {

/// The groups an image file directory can belong to. A generic directory is
/// a chainable top-level one; the others are reached only through offset
/// tags.
#[allow(non_camel_case_types)]
#[derive(Clone, Copy, Debug, PartialEq, Eq, PartialOrd, Structural)]
pub enum ExifTagGroup {
    GENERIC,
    EXIF,
    INTEROP,
    GPS,
    NO_GROUP,
}

/// The two roles of the paired strip tags: the offsets tag and the
/// byte-counts tag that resolves it.
#[derive(Clone, Copy, Debug, PartialEq, Eq, Structural)]
pub enum StripRole {
    Offsets,
    ByteCounts,
}

/// How the decoder treats a known tag: a plain value, a link to a
/// sub-directory of some group, or one half of the paired strip data.
#[derive(Clone, Copy, Debug, PartialEq, Eq, Structural)]
pub enum TagKind {
    Plain,
    IfdOffset(ExifTagGroup),
    DataOffset(StripRole),
}

/// One decoded tag: either a directory entry with its raw value bytes, or
/// the synthesized strip tag holding the gathered data segments.
pub enum ExifTag {
    Entry { id: u16, format: u16, components: u32, data: Vec<u8> },
    Strips { segments: Vec<Vec<u8>> },
}

/// The mathematical view of a tag.
pub ghost enum TagView {
    Entry { id: u16, format: u16, components: u32, data: Seq<u8> },
    Strips { segments: Seq<Seq<u8>> },
}

impl View for ExifTag {
    type V = TagView;

    open spec fn view(&self) -> TagView {
        match self {
            ExifTag::Entry { id, format, components, data } => TagView::Entry {
                id: *id,
                format: *format,
                components: *components,
                data: data@,
            },
            ExifTag::Strips { segments } => TagView::Strips {
                segments: segments@.map_values(|s: Vec<u8>| s@),
            },
        }
    }
}

/// One decoded image file directory: its tags, its group, and the number of
/// the top-level generic directory it belongs under.
pub struct ImageFileDirectory {
    pub tags: Vec<ExifTag>,
    ifd_type: ExifTagGroup,
    belongs_to_generic_ifd_nr: u32,
}

/// The mathematical view of a directory.
pub ghost struct IfdView {
    pub tags: Seq<TagView>,
    pub ifd_type: ExifTagGroup,
    pub belongs_to_generic_ifd_nr: u32,
}

impl View for ImageFileDirectory {
    type V = IfdView;

    closed spec fn view(&self) -> IfdView {
        IfdView {
            tags: self.tags@.map_values(|t: ExifTag| t@),
            ifd_type: self.ifd_type,
            belongs_to_generic_ifd_nr: self.belongs_to_generic_ifd_nr,
        }
    }
}

impl ImageFileDirectory {
    /// Build a directory from its parts.
    pub fn new(tags: Vec<ExifTag>, ifd_type: ExifTagGroup, belongs_to_generic_ifd_nr: u32) -> (r:
        ImageFileDirectory)
        ensures
            r@ == (IfdView {
                tags: tags@.map_values(|t: ExifTag| t@),
                ifd_type,
                belongs_to_generic_ifd_nr,
            }),
    {
        ImageFileDirectory { tags, ifd_type, belongs_to_generic_ifd_nr }
    }

    /// The number of the top-level generic directory this one belongs to.
    pub fn get_generic_ifd_nr(&self) -> (r: u32)
        ensures
            r == self@.belongs_to_generic_ifd_nr,
    {
        self.belongs_to_generic_ifd_nr
    }

    /// The group of this directory.
    pub fn get_ifd_type(&self) -> (r: ExifTagGroup)
        ensures
            r == self@.ifd_type,
    {
        self.ifd_type
    }
}

/// How many sub-directory levels the decoder follows before giving up; EXIF
/// nesting is shallow, so this is a defensive bound.
pub const MAX_SUBIFD_NESTING: u32 = 8;

/// The number of bytes one component of a format occupies, for the twelve
/// TIFF format codes; an unknown code has none.
pub open spec fn spec_bytes_per_component(format: u16) -> Option<u32> {
    if format == 1 || format == 2 || format == 6 || format == 7 {
        Some(1u32)
    } else if format == 3 || format == 8 {
        Some(2u32)
    } else if format == 4 || format == 9 || format == 11 {
        Some(4u32)
    } else if format == 5 || format == 10 || format == 12 {
        Some(8u32)
    } else {
        None
    }
}

/// The number of bytes one component of a format occupies.
pub fn bytes_per_component(format: u16) -> (r: Option<u32>)
    ensures
        r == spec_bytes_per_component(format),
{
    if format == 1 || format == 2 || format == 6 || format == 7 {
        Some(1)
    } else if format == 3 || format == 8 {
        Some(2)
    } else if format == 4 || format == 9 || format == 11 {
        Some(4)
    } else if format == 5 || format == 10 || format == 12 {
        Some(8)
    } else {
        None
    }
}

/// The tag catalog: how a known tag id is treated in a given group, and the
/// format the catalog expects for it. An id outside the catalog is an
/// unknown tag and is carried through raw.
pub open spec fn spec_tag_kind(id: u16, group: ExifTagGroup) -> Option<TagKind> {
    if group == ExifTagGroup::GENERIC {
        if id == 0x0100 || id == 0x0101 {
            Some(TagKind::Plain)
        } else if id == 0x0111 {
            Some(TagKind::DataOffset(StripRole::Offsets))
        } else if id == 0x0117 {
            Some(TagKind::DataOffset(StripRole::ByteCounts))
        } else if id == 0x8769 {
            Some(TagKind::IfdOffset(ExifTagGroup::EXIF))
        } else if id == 0x8825 {
            Some(TagKind::IfdOffset(ExifTagGroup::GPS))
        } else {
            None
        }
    } else if group == ExifTagGroup::EXIF {
        if id == 0xa005 {
            Some(TagKind::IfdOffset(ExifTagGroup::INTEROP))
        } else {
            None
        }
    } else {
        None
    }
}

/// The tag catalog lookup.
pub fn tag_kind(id: u16, group: &ExifTagGroup) -> (r: Option<TagKind>)
    ensures
        r == spec_tag_kind(id, *group),
{
    match group {
        ExifTagGroup::GENERIC => {
            if id == 0x0100 || id == 0x0101 {
                Some(TagKind::Plain)
            } else if id == 0x0111 {
                Some(TagKind::DataOffset(StripRole::Offsets))
            } else if id == 0x0117 {
                Some(TagKind::DataOffset(StripRole::ByteCounts))
            } else if id == 0x8769 {
                Some(TagKind::IfdOffset(ExifTagGroup::EXIF))
            } else if id == 0x8825 {
                Some(TagKind::IfdOffset(ExifTagGroup::GPS))
            } else {
                None
            }
        },
        ExifTagGroup::EXIF => {
            if id == 0xa005 {
                Some(TagKind::IfdOffset(ExifTagGroup::INTEROP))
            } else {
                None
            }
        },
        _ => None,
    }
}

/// The format code the catalog expects for every known non-offset tag: the
/// 32-bit unsigned format.
pub const EXPECTED_FORMAT_INT32U: u16 = 4;

/// The 16-bit unsigned format code, the one coercible into the expected
/// one.
pub const FORMAT_INT16U: u16 = 3;

/// Zero-extend a row of 16-bit values into a row of 32-bit values, keeping
/// the byte order: the one permitted format coercion.
pub open spec fn widen_16_to_32(raw: Seq<u8>, e: Endian) -> Seq<u8>
    decreases raw.len(),
{
    if raw.len() < 2 {
        Seq::empty()
    } else {
        u32_bytes(e, u16_val(e, raw[0], raw[1]) as u32) + widen_16_to_32(raw.skip(2), e)
    }
}

/// Read a row of 32-bit values from raw bytes.
pub open spec fn u32_list_of(raw: Seq<u8>, e: Endian) -> Seq<u32>
    decreases raw.len(),
{
    if raw.len() < 4 {
        Seq::empty()
    } else {
        seq![u32_val(e, raw[0], raw[1], raw[2], raw[3])] + u32_list_of(raw.skip(4), e)
    }
}

/// The state the entry scan carries: the plain tags so far, the
/// sub-directories decoded through offset tags so far, and the two pending
/// halves of the strip pair.
pub ghost struct EntryState {
    pub tags: Seq<TagView>,
    pub subs: Seq<IfdView>,
    pub pend_offsets: Option<Seq<u8>>,
    pub pend_counts: Option<Seq<u8>>,
}

/// The empty scan state.
pub open spec fn empty_state() -> EntryState {
    EntryState { tags: Seq::empty(), subs: Seq::empty(), pend_offsets: None, pend_counts: None }
}

/// Gather the strip segments that the resolved offset/count rows point at.
pub open spec fn read_segments(
    data: Seq<u8>,
    base: int,
    offs: Seq<u32>,
    cnts: Seq<u32>,
    j: int,
) -> Result<Seq<Seq<u8>>, MetaError>
    decreases offs.len() - j,
{
    if j >= offs.len() || j >= cnts.len() {
        Ok(Seq::empty())
    } else {
        if base + offs[j] + cnts[j] > data.len() {
            Err(MetaError::Truncated)
        } else {
            let seg = data.subrange(base + offs[j], base + offs[j] + cnts[j]);
            match read_segments(data, base, offs, cnts, j + 1) {
                Ok(rest) => Ok(seq![seg] + rest),
                Err(e) => Err(e),
            }
        }
    }
}

/// Resolve the pending strip pair, if both halves arrived: gather the
/// segments and append the one synthesized strip tag. A lone half is
/// dropped.
pub open spec fn resolve_strips(data: Seq<u8>, base: int, e: Endian, st: EntryState) -> Result<
    Seq<TagView>,
    MetaError,
> {
    match (st.pend_offsets, st.pend_counts) {
        (Some(po), Some(pc)) => {
            let offs = u32_list_of(po, e);
            let cnts = u32_list_of(pc, e);
            match read_segments(data, base, offs, cnts, 0) {
                Ok(segments) => Ok(st.tags.push(TagView::Strips { segments })),
                Err(err) => Err(err),
            }
        },
        _ => Ok(st.tags),
    }
}

/// Whether `raw` is the value bytes the entry at `epos` designates: the
/// inline bytes for a narrow value, or the bytes at the entry's offset for a
/// wide one, which must lie inside the buffer.
pub open spec fn entry_raw_ok(
    data: Seq<u8>,
    epos: int,
    base: int,
    e: Endian,
    bc: int,
    raw: Seq<u8>,
) -> bool {
    if bc > 4 {
        let off = u32_val(e, data[epos + 8], data[epos + 9], data[epos + 10], data[epos + 11])
            as int;
        base + off + bc <= data.len() && raw == data.subrange(base + off, base + off + bc)
    } else {
        raw == data.subrange(epos + 8, epos + 8 + bc)
    }
}

/// Scan the directory entries from index `i` on, starting from the given
/// state. Mirrors one pass of the decoder's entry loop per step.
#[verifier::opaque]
pub open spec fn decode_entries_spec(
    data: Seq<u8>,
    entry_pos: int,
    base: int,
    e: Endian,
    group: ExifTagGroup,
    nr: u32,
    n: int,
    i: int,
    st: EntryState,
    depth: int,
) -> Result<EntryState, MetaError>
    decreases depth, 0int, n - i,
{
    if i >= n || depth <= 0 {
        Ok(st)
    } else {
        let epos = entry_pos + 12 * i;
        let id = u16_val(e, data[epos], data[epos + 1]);
        let fmt = u16_val(e, data[epos + 2], data[epos + 3]);
        let comps = u32_val(e, data[epos + 4], data[epos + 5], data[epos + 6], data[epos + 7]);
        match spec_bytes_per_component(fmt) {
            None => Err(MetaError::UnknownFormat),
            Some(size) => {
                let bc = (size as int) * (comps as int);
                let raw_or_err: Result<Seq<u8>, MetaError> = if bc > 4 {
                    let off = u32_val(
                        e,
                        data[epos + 8],
                        data[epos + 9],
                        data[epos + 10],
                        data[epos + 11],
                    ) as int;
                    if base + off + bc > data.len() {
                        Err(MetaError::Truncated)
                    } else {
                        Ok(data.subrange(base + off, base + off + bc))
                    }
                } else {
                    Ok(data.subrange(epos + 8, epos + 8 + bc))
                };
                match raw_or_err {
                    Err(err) => Err(err),
                    Ok(raw) => match spec_tag_kind(id, group) {
                        None => {
                            let st2 = EntryState {
                                tags: st.tags.push(
                                    TagView::Entry { id, format: fmt, components: comps, data: raw },
                                ),
                                ..st
                            };
                            decode_entries_spec(
                                data,
                                entry_pos,
                                base,
                                e,
                                group,
                                nr,
                                n,
                                i + 1,
                                st2,
                                depth,
                            )
                        },
                        Some(TagKind::IfdOffset(subgroup)) => {
                            if raw.len() != 4 {
                                Err(MetaError::FormatMismatch)
                            } else {
                                let off = u32_val(e, raw[0], raw[1], raw[2], raw[3]) as int;
                                if base + off > data.len() {
                                    Err(MetaError::BadOffset)
                                } else {
                                    match decode_ifd_spec(
                                        data,
                                        base + off,
                                        base,
                                        e,
                                        subgroup,
                                        nr,
                                        depth - 1,
                                    ) {
                                        Err(err) => Err(err),
                                        Ok((subifds, link)) => {
                                            if link is Some {
                                                Err(MetaError::SubIfdChained)
                                            } else {
                                                let st2 = EntryState {
                                                    subs: st.subs + subifds,
                                                    ..st
                                                };
                                                decode_entries_spec(
                                                    data,
                                                    entry_pos,
                                                    base,
                                                    e,
                                                    group,
                                                    nr,
                                                    n,
                                                    i + 1,
                                                    st2,
                                                    depth,
                                                )
                                            }
                                        },
                                    }
                                }
                            }
                        },
                        Some(kind) => {
                            // A known non-offset tag must carry the expected
                            // format, or the one permitted coercion applies.
                            let coerced: Result<(u16, Seq<u8>), MetaError> = if fmt
                                == EXPECTED_FORMAT_INT32U {
                                Ok((fmt, raw))
                            } else if fmt == FORMAT_INT16U {
                                Ok((EXPECTED_FORMAT_INT32U, widen_16_to_32(raw, e)))
                            } else {
                                Err(MetaError::FormatMismatch)
                            };
                            match coerced {
                                Err(err) => Err(err),
                                Ok((fmt2, raw2)) => {
                                    let st2 = if kind == TagKind::DataOffset(StripRole::Offsets) {
                                        EntryState { pend_offsets: Some(raw2), ..st }
                                    } else if kind == TagKind::DataOffset(
                                        StripRole::ByteCounts,
                                    ) {
                                        EntryState { pend_counts: Some(raw2), ..st }
                                    } else {
                                        EntryState {
                                            tags: st.tags.push(
                                                TagView::Entry {
                                                    id,
                                                    format: fmt2,
                                                    components: comps,
                                                    data: raw2,
                                                },
                                            ),
                                            ..st
                                        }
                                    };
                                    decode_entries_spec(
                                        data,
                                        entry_pos,
                                        base,
                                        e,
                                        group,
                                        nr,
                                        n,
                                        i + 1,
                                        st2,
                                        depth,
                                    )
                                },
                            }
                        },
                    },
                }
            },
        }
    }
}

/// The scan past the last entry returns the state unchanged.
proof fn lemma_entries_done(
    data: Seq<u8>,
    entry_pos: int,
    base: int,
    e: Endian,
    group: ExifTagGroup,
    nr: u32,
    n: int,
    i: int,
    st: EntryState,
    depth: int,
)
    requires
        i >= n || depth <= 0,
    ensures
        decode_entries_spec(data, entry_pos, base, e, group, nr, n, i, st, depth) == Ok::<
            EntryState,
            MetaError,
        >(st),
{
    reveal(decode_entries_spec);
}

/// An entry with a format code outside the table stops the scan.
proof fn lemma_entries_bad_format(
    data: Seq<u8>,
    entry_pos: int,
    base: int,
    e: Endian,
    group: ExifTagGroup,
    nr: u32,
    n: int,
    i: int,
    st: EntryState,
    depth: int,
)
    requires
        0 <= i < n,
        depth >= 1,
        spec_bytes_per_component(u16_val(e, data[entry_pos + 12 * i + 2], data[entry_pos + 12 * i
            + 3])) is None,
    ensures
        decode_entries_spec(data, entry_pos, base, e, group, nr, n, i, st, depth) == Err::<
            EntryState,
            MetaError,
        >(MetaError::UnknownFormat),
{
    reveal(decode_entries_spec);
}

/// A wide value whose offset runs past the buffer stops the scan.
proof fn lemma_entries_trunc(
    data: Seq<u8>,
    entry_pos: int,
    base: int,
    e: Endian,
    group: ExifTagGroup,
    nr: u32,
    n: int,
    i: int,
    st: EntryState,
    depth: int,
    size: u32,
)
    requires
        0 <= i < n,
        depth >= 1,
        spec_bytes_per_component(u16_val(e, data[entry_pos + 12 * i + 2], data[entry_pos + 12 * i
            + 3])) == Some(size),
        ({
            let epos = entry_pos + 12 * i;
            let comps = u32_val(e, data[epos + 4], data[epos + 5], data[epos + 6], data[epos + 7]);
            let bc = (size as int) * (comps as int);
            let off = u32_val(e, data[epos + 8], data[epos + 9], data[epos + 10], data[epos + 11])
                as int;
            bc > 4 && base + off + bc > data.len()
        }),
    ensures
        decode_entries_spec(data, entry_pos, base, e, group, nr, n, i, st, depth) == Err::<
            EntryState,
            MetaError,
        >(MetaError::Truncated),
{
    reveal(decode_entries_spec);
}

/// An unknown tag id appends its raw entry and the scan continues.
proof fn lemma_entries_unknown(
    data: Seq<u8>,
    entry_pos: int,
    base: int,
    e: Endian,
    group: ExifTagGroup,
    nr: u32,
    n: int,
    i: int,
    st: EntryState,
    depth: int,
    size: u32,
    raw: Seq<u8>,
)
    requires
        0 <= i < n,
        depth >= 1,
        spec_bytes_per_component(u16_val(e, data[entry_pos + 12 * i + 2], data[entry_pos + 12 * i
            + 3])) == Some(size),
        ({
            let epos = entry_pos + 12 * i;
            let comps = u32_val(e, data[epos + 4], data[epos + 5], data[epos + 6], data[epos + 7]);
            entry_raw_ok(data, epos, base, e, (size as int) * (comps as int), raw)
        }),
        spec_tag_kind(u16_val(e, data[entry_pos + 12 * i], data[entry_pos + 12 * i + 1]), group)
            is None,
    ensures
        ({
            let epos = entry_pos + 12 * i;
            let id = u16_val(e, data[epos], data[epos + 1]);
            let fmt = u16_val(e, data[epos + 2], data[epos + 3]);
            let comps = u32_val(e, data[epos + 4], data[epos + 5], data[epos + 6], data[epos + 7]);
            let st2 = EntryState {
                tags: st.tags.push(
                    TagView::Entry { id, format: fmt, components: comps, data: raw },
                ),
                ..st
            };
            decode_entries_spec(data, entry_pos, base, e, group, nr, n, i, st, depth)
                == decode_entries_spec(data, entry_pos, base, e, group, nr, n, i + 1, st2, depth)
        }),
{
    reveal(decode_entries_spec);
}

/// The outcomes of meeting an offset tag: a malformed value field, an
/// offset past the buffer, a failing nested decode, a nested directory that
/// claims a chain, or a clean nested decode whose directories join the
/// state.
proof fn lemma_entries_ifd_offset(
    data: Seq<u8>,
    entry_pos: int,
    base: int,
    e: Endian,
    group: ExifTagGroup,
    nr: u32,
    n: int,
    i: int,
    st: EntryState,
    depth: int,
    size: u32,
    raw: Seq<u8>,
    subgroup: ExifTagGroup,
)
    requires
        0 <= i < n,
        depth >= 1,
        spec_bytes_per_component(u16_val(e, data[entry_pos + 12 * i + 2], data[entry_pos + 12 * i
            + 3])) == Some(size),
        ({
            let epos = entry_pos + 12 * i;
            let comps = u32_val(e, data[epos + 4], data[epos + 5], data[epos + 6], data[epos + 7]);
            entry_raw_ok(data, epos, base, e, (size as int) * (comps as int), raw)
        }),
        spec_tag_kind(u16_val(e, data[entry_pos + 12 * i], data[entry_pos + 12 * i + 1]), group)
            == Some(TagKind::IfdOffset(subgroup)),
    ensures
        raw.len() != 4 ==> decode_entries_spec(data, entry_pos, base, e, group, nr, n, i, st, depth)
            == Err::<EntryState, MetaError>(MetaError::FormatMismatch),
        raw.len() == 4 ==> ({
            let off = u32_val(e, raw[0], raw[1], raw[2], raw[3]) as int;
            if base + off > data.len() {
                decode_entries_spec(data, entry_pos, base, e, group, nr, n, i, st, depth) == Err::<
                    EntryState,
                    MetaError,
                >(MetaError::BadOffset)
            } else {
                match decode_ifd_spec(data, base + off, base, e, subgroup, nr, depth - 1) {
                    Err(err) => decode_entries_spec(data, entry_pos, base, e, group, nr, n, i, st, depth)
                        == Err::<EntryState, MetaError>(err),
                    Ok((subifds, link)) => if link is Some {
                        decode_entries_spec(data, entry_pos, base, e, group, nr, n, i, st, depth)
                            == Err::<EntryState, MetaError>(MetaError::SubIfdChained)
                    } else {
                        decode_entries_spec(data, entry_pos, base, e, group, nr, n, i, st, depth)
                            == decode_entries_spec(
                            data,
                            entry_pos,
                            base,
                            e,
                            group,
                            nr,
                            n,
                            i + 1,
                            EntryState { subs: st.subs + subifds, ..st },
                            depth,
                        )
                    },
                }
            }
        }),
{
    reveal(decode_entries_spec);
    reveal(decode_ifd_spec);
}

/// The outcomes of meeting a known non-offset tag: the expected format
/// passes through, the 16-bit format widens, and anything else stops the
/// scan. A strip half parks in its pending slot; a plain tag is appended.
proof fn lemma_entries_known(
    data: Seq<u8>,
    entry_pos: int,
    base: int,
    e: Endian,
    group: ExifTagGroup,
    nr: u32,
    n: int,
    i: int,
    st: EntryState,
    depth: int,
    size: u32,
    raw: Seq<u8>,
    kind: TagKind,
)
    requires
        0 <= i < n,
        depth >= 1,
        spec_bytes_per_component(u16_val(e, data[entry_pos + 12 * i + 2], data[entry_pos + 12 * i
            + 3])) == Some(size),
        ({
            let epos = entry_pos + 12 * i;
            let comps = u32_val(e, data[epos + 4], data[epos + 5], data[epos + 6], data[epos + 7]);
            entry_raw_ok(data, epos, base, e, (size as int) * (comps as int), raw)
        }),
        spec_tag_kind(u16_val(e, data[entry_pos + 12 * i], data[entry_pos + 12 * i + 1]), group)
            == Some(kind),
        kind != TagKind::IfdOffset(ExifTagGroup::GENERIC),
        kind != TagKind::IfdOffset(ExifTagGroup::EXIF),
        kind != TagKind::IfdOffset(ExifTagGroup::INTEROP),
        kind != TagKind::IfdOffset(ExifTagGroup::GPS),
        kind != TagKind::IfdOffset(ExifTagGroup::NO_GROUP),
    ensures
        ({
            let epos = entry_pos + 12 * i;
            let id = u16_val(e, data[epos], data[epos + 1]);
            let fmt = u16_val(e, data[epos + 2], data[epos + 3]);
            let comps = u32_val(e, data[epos + 4], data[epos + 5], data[epos + 6], data[epos + 7]);
            if fmt != EXPECTED_FORMAT_INT32U && fmt != FORMAT_INT16U {
                decode_entries_spec(data, entry_pos, base, e, group, nr, n, i, st, depth) == Err::<
                    EntryState,
                    MetaError,
                >(MetaError::FormatMismatch)
            } else {
                let fmt2 = if fmt == EXPECTED_FORMAT_INT32U {
                    fmt
                } else {
                    EXPECTED_FORMAT_INT32U
                };
                let raw2 = if fmt == EXPECTED_FORMAT_INT32U {
                    raw
                } else {
                    widen_16_to_32(raw, e)
                };
                let st2 = if kind == TagKind::DataOffset(StripRole::Offsets) {
                    EntryState { pend_offsets: Some(raw2), ..st }
                } else if kind == TagKind::DataOffset(StripRole::ByteCounts) {
                    EntryState { pend_counts: Some(raw2), ..st }
                } else {
                    EntryState {
                        tags: st.tags.push(
                            TagView::Entry { id, format: fmt2, components: comps, data: raw2 },
                        ),
                        ..st
                    }
                };
                decode_entries_spec(data, entry_pos, base, e, group, nr, n, i, st, depth)
                    == decode_entries_spec(data, entry_pos, base, e, group, nr, n, i + 1, st2, depth)
            }
        }),
{
    reveal(decode_entries_spec);
}

/// Decode one directory at `pos`, and every sub-directory its offset tags
/// reach, with the given nesting budget. On success the decoded directories
/// come back in completion order (sub-directories first), together with the
/// trailing link to the next chained generic directory, if any.
#[verifier::opaque]
pub open spec fn decode_ifd_spec(
    data: Seq<u8>,
    pos: int,
    base: int,
    e: Endian,
    group: ExifTagGroup,
    nr: u32,
    depth: int,
) -> Result<(Seq<IfdView>, Option<u32>), MetaError>
    decreases depth, 1int, 0int,
{
    if depth <= 0 {
        Err(MetaError::NestingTooDeep)
    } else if data.len() < pos + 6 {
        Ok((Seq::empty(), None))
    } else {
        let n = u16_val(e, data[pos], data[pos + 1]) as int;
        if data.len() - pos < 2 + 12 * n + 4 {
            Err(MetaError::Truncated)
        } else {
            match decode_entries_spec(
                data,
                pos + 2,
                base,
                e,
                group,
                nr,
                n,
                0,
                empty_state(),
                depth,
            ) {
                Err(err) => Err(err),
                Ok(st) => match resolve_strips(data, base, e, st) {
                    Err(err) => Err(err),
                    Ok(tags) => {
                        let lp = pos + 2 + 12 * n;
                        let ifds = st.subs.push(
                            IfdView { tags, ifd_type: group, belongs_to_generic_ifd_nr: nr },
                        );
                        if data[lp] == 0 && data[lp + 1] == 0 && data[lp + 2] == 0 && data[lp + 3]
                            == 0 {
                            Ok((ifds, None))
                        } else {
                            Ok(
                                (
                                    ifds,
                                    Some(u32_val(e, data[lp], data[lp + 1], data[lp + 2], data[lp + 3])),
                                ),
                            )
                        }
                    },
                },
            }
        }
    }
}

/// Copy a byte range of the buffer into a fresh vector.
fn copy_range(src: &Vec<u8>, from: usize, to: usize) -> (r: Vec<u8>)
    requires
        from <= to <= src@.len(),
    ensures
        r@ == src@.subrange(from as int, to as int),
{
    let mut out: Vec<u8> = Vec::new();
    let mut i: usize = from;
    while i < to
        invariant
            from <= i <= to,
            to <= src@.len(),
            out@ == src@.subrange(from as int, i as int),
        decreases to - i,
    {
        out.push(src[i]);
        i += 1;
        assert(out@ =~= src@.subrange(from as int, i as int));
    }
    out
}

/// Zero-extend a row of 16-bit values into 32-bit values in the same byte
/// order.
fn widen_16_to_32_exec(raw: &Vec<u8>, e: &Endian) -> (r: Vec<u8>)
    ensures
        r@ == widen_16_to_32(raw@, *e),
{
    let n: usize = raw.len();
    let mut out: Vec<u8> = Vec::new();
    let mut i: usize = 0;
    proof {
        assert(raw@.skip(0) =~= raw@);
    }
    while n - i >= 2
        invariant
            0 <= i <= n,
            n == raw@.len(),
            widen_16_to_32(raw@, *e) == out@ + widen_16_to_32(raw@.skip(i as int), *e),
        decreases n - i,
    {
        let v = u16_from_bytes(e, raw[i], raw[i + 1]);
        let ghost pre = out@;
        push_u32_bytes(&mut out, e, v as u32);
        proof {
            assert(raw@.skip(i as int)[0] == raw@[i as int]);
            assert(raw@.skip(i as int)[1] == raw@[i as int + 1]);
            assert(raw@.skip(i as int).skip(2) =~= raw@.skip(i as int + 2));
            assert(widen_16_to_32(raw@.skip(i as int), *e) == u32_bytes(*e, v as u32)
                + widen_16_to_32(raw@.skip(i as int + 2), *e));
            assert(out@ + widen_16_to_32(raw@.skip(i as int + 2), *e) =~= pre + widen_16_to_32(
                raw@.skip(i as int),
                *e,
            ));
        }
        i += 2;
    }
    proof {
        assert(raw@.skip(i as int).len() < 2);
        assert(widen_16_to_32(raw@.skip(i as int), *e) == Seq::<u8>::empty());
        assert(out@ + Seq::<u8>::empty() =~= out@);
    }
    out
}

/// Read a row of 32-bit values from raw bytes.
fn u32_list_exec(raw: &Vec<u8>, e: &Endian) -> (r: Vec<u32>)
    ensures
        r@ == u32_list_of(raw@, *e),
{
    let n: usize = raw.len();
    let mut out: Vec<u32> = Vec::new();
    let mut i: usize = 0;
    proof {
        assert(raw@.skip(0) =~= raw@);
    }
    while n - i >= 4
        invariant
            0 <= i <= n,
            n == raw@.len(),
            u32_list_of(raw@, *e) == out@ + u32_list_of(raw@.skip(i as int), *e),
        decreases n - i,
    {
        let v = u32_from_bytes(e, raw[i], raw[i + 1], raw[i + 2], raw[i + 3]);
        let ghost pre = out@;
        out.push(v);
        proof {
            assert(raw@.skip(i as int)[0] == raw@[i as int]);
            assert(raw@.skip(i as int)[1] == raw@[i as int + 1]);
            assert(raw@.skip(i as int)[2] == raw@[i as int + 2]);
            assert(raw@.skip(i as int)[3] == raw@[i as int + 3]);
            assert(raw@.skip(i as int).skip(4) =~= raw@.skip(i as int + 4));
            assert(u32_list_of(raw@.skip(i as int), *e) == seq![v] + u32_list_of(
                raw@.skip(i as int + 4),
                *e,
            ));
            assert(out@ + u32_list_of(raw@.skip(i as int + 4), *e) =~= pre + u32_list_of(
                raw@.skip(i as int),
                *e,
            ));
        }
        i += 4;
    }
    proof {
        assert(raw@.skip(i as int).len() < 4);
        assert(u32_list_of(raw@.skip(i as int), *e) == Seq::<u32>::empty());
        assert(out@ + Seq::<u32>::empty() =~= out@);
    }
    out
}

/// The view of an optional pending byte row.
pub open spec fn opt_view(o: Option<Vec<u8>>) -> Option<Seq<u8>> {
    match o {
        Some(v) => Some(v@),
        None => None,
    }
}

/// Gather the strip segments and append the synthesized strip tag, if both
/// halves of the pair arrived.
#[verifier::loop_isolation(false)]
fn resolve_strips_exec(
    data: &Vec<u8>,
    base: usize,
    endian: &Endian,
    tags: Vec<ExifTag>,
    pend_offsets: Option<Vec<u8>>,
    pend_counts: Option<Vec<u8>>,
) -> (r: Result<Vec<ExifTag>, MetaError>)
    requires
        base <= data@.len(),
    ensures
        ({
            let st = EntryState {
                tags: tags@.map_values(|t: ExifTag| t@),
                subs: Seq::empty(),
                pend_offsets: opt_view(pend_offsets),
                pend_counts: opt_view(pend_counts),
            };
            match resolve_strips(data@, base as int, *endian, st) {
                Ok(ts) => r is Ok && r->Ok_0@.map_values(|t: ExifTag| t@) == ts,
                Err(err) => r == Err::<Vec<ExifTag>, MetaError>(err),
            }
        }),
{
    let dlen: usize = data.len();
    let ghost st = EntryState {
        tags: tags@.map_values(|t: ExifTag| t@),
        subs: Seq::empty(),
        pend_offsets: opt_view(pend_offsets),
        pend_counts: opt_view(pend_counts),
    };
    let mut tags = tags;
    if pend_offsets.is_some() && pend_counts.is_some() {
        let po = pend_offsets.unwrap();
        let pc = pend_counts.unwrap();
        let offs = u32_list_exec(&po, endian);
        let cnts = u32_list_exec(&pc, endian);
        let m: usize = if offs.len() < cnts.len() {
            offs.len()
        } else {
            cnts.len()
        };
        let mut segments: Vec<Vec<u8>> = Vec::new();
        let mut j: usize = 0;
        while j < m
            invariant
                0 <= j <= m,
                base <= data@.len() == dlen,
                m == if offs@.len() < cnts@.len() {
                    offs@.len() as int
                } else {
                    cnts@.len() as int
                },
                match read_segments(data@, base as int, offs@, cnts@, j as int) {
                    Ok(rest) => read_segments(data@, base as int, offs@, cnts@, 0) == Ok::<
                        Seq<Seq<u8>>,
                        MetaError,
                    >(segments@.map_values(|s: Vec<u8>| s@) + rest),
                    Err(err) => read_segments(data@, base as int, offs@, cnts@, 0) == Err::<
                        Seq<Seq<u8>>,
                        MetaError,
                    >(err),
                },
            decreases m - j,
        {
            let off = offs[j];
            let cnt = cnts[j];
            if (off as u64) + (cnt as u64) > (dlen - base) as u64 {
                return Err(MetaError::Truncated);
            }
            let start: usize = base + (off as usize);
            let seg = copy_range(data, start, start + (cnt as usize));
            let ghost pre_segs = segments@.map_values(|s: Vec<u8>| s@);
            let ghost segv = seg@;
            segments.push(seg);
            proof {
                let whole = read_segments(data@, base as int, offs@, cnts@, j as int);
                let after = read_segments(data@, base as int, offs@, cnts@, j as int + 1);
                assert(segments@.map_values(|s: Vec<u8>| s@) =~= pre_segs.push(segv));
                if after is Ok {
                    assert(whole == Ok::<Seq<Seq<u8>>, MetaError>(seq![segv] + after->Ok_0));
                    assert(pre_segs + (seq![segv] + after->Ok_0) =~= segments@.map_values(
                        |s: Vec<u8>| s@,
                    ) + after->Ok_0);
                }
            }
            j += 1;
        }
        proof {
            assert(read_segments(data@, base as int, offs@, cnts@, j as int) == Ok::<
                Seq<Seq<u8>>,
                MetaError,
            >(Seq::empty()));
            assert(segments@.map_values(|s: Vec<u8>| s@) + Seq::<Seq<u8>>::empty()
                =~= segments@.map_values(|s: Vec<u8>| s@));
        }
        let ghost pre_tags = tags@.map_values(|t: ExifTag| t@);
        let ghost segs_view = segments@.map_values(|s: Vec<u8>| s@);
        tags.push(ExifTag::Strips { segments });
        proof {
            assert(tags@.map_values(|t: ExifTag| t@) =~= pre_tags.push(
                TagView::Strips { segments: segs_view },
            ));
        }
        Ok(tags)
    } else {
        Ok(tags)
    }
}

/// Decode the single directory entry at index `i`, threading the decoded
/// tags and the pending strip halves through, and appending any nested
/// directories the entry's offset leads to.
#[verifier::rlimit(100)]
fn scan_one_entry(
    data: &Vec<u8>,
    entry_pos: usize,
    base: usize,
    endian: &Endian,
    group: &ExifTagGroup,
    generic_ifd_nr: u32,
    n: usize,
    i: usize,
    tags: Vec<ExifTag>,
    pend_offsets: Option<Vec<u8>>,
    pend_counts: Option<Vec<u8>>,
    insert_into: &mut Vec<ImageFileDirectory>,
    depth: u32,
    Ghost(st): Ghost<EntryState>,
) -> (r: Result<(Vec<ExifTag>, Option<Vec<u8>>, Option<Vec<u8>>), MetaError>)
    requires
        depth >= 1,
        i < n,
        base <= data@.len(),
        entry_pos + 12 * n <= data@.len(),
        st.tags == tags@.map_values(|t: ExifTag| t@),
        st.pend_offsets == opt_view(pend_offsets),
        st.pend_counts == opt_view(pend_counts),
    ensures
        ({
            let pre = old(insert_into)@.map_values(|d: ImageFileDirectory| d@);
            let post = final(insert_into)@.map_values(|d: ImageFileDirectory| d@);
            match r {
                Ok((tags2, po2, pc2)) => {
                    &&& post.len() >= pre.len()
                    &&& post.take(pre.len() as int) == pre
                    &&& decode_entries_spec(
                        data@,
                        entry_pos as int,
                        base as int,
                        *endian,
                        *group,
                        generic_ifd_nr,
                        n as int,
                        i as int,
                        st,
                        depth as int,
                    ) == decode_entries_spec(
                        data@,
                        entry_pos as int,
                        base as int,
                        *endian,
                        *group,
                        generic_ifd_nr,
                        n as int,
                        i as int + 1,
                        EntryState {
                            tags: tags2@.map_values(|t: ExifTag| t@),
                            subs: st.subs + post.skip(pre.len() as int),
                            pend_offsets: opt_view(po2),
                            pend_counts: opt_view(pc2),
                        },
                        depth as int,
                    )
                },
                Err(err) => decode_entries_spec(
                    data@,
                    entry_pos as int,
                    base as int,
                    *endian,
                    *group,
                    generic_ifd_nr,
                    n as int,
                    i as int,
                    st,
                    depth as int,
                ) == Err::<EntryState, MetaError>(err),
            }
        }),
    decreases depth, 0int, 1int,
{
    let dlen: usize = data.len();
    let mut tags = tags;
    let mut pend_offsets = pend_offsets;
    let mut pend_counts = pend_counts;
    let ghost insert0 = old(insert_into)@.map_values(|d: ImageFileDirectory| d@);
    let epos: usize = entry_pos + 12 * i;
    proof {
        assert(12 * (i as int) + 12 <= 12 * (n as int)) by (nonlinear_arith)
            requires
                i < n,
        ;
    }
    let id = u16_from_bytes(endian, data[epos], data[epos + 1]);
    let fmt = u16_from_bytes(endian, data[epos + 2], data[epos + 3]);
    let comps = u32_from_bytes(endian, data[epos + 4], data[epos + 5], data[epos + 6],
        data[epos + 7]);
    let size = match bytes_per_component(fmt) {
        None => {
            proof {
                lemma_entries_bad_format(data@, entry_pos as int, base as int, *endian, *group,
                    generic_ifd_nr, n as int, i as int, st, depth as int);
            }
            return Err(MetaError::UnknownFormat);
        },
        Some(size) => size,
    };
    proof {
        assert((size as u64) * (comps as u64) == (size as int) * (comps as int) && (size as int)
            * (comps as int) <= 0x8_00000000u64) by (nonlinear_arith)
            requires
                size <= 8,
                comps <= u32::MAX,
        ;
    }
    let bc: u64 = (size as u64) * (comps as u64);
    let raw: Vec<u8> = if bc > 4 {
        let off = u32_from_bytes(endian, data[epos + 8], data[epos + 9], data[epos + 10],
            data[epos + 11]);
        if (off as u64) + bc > (dlen - base) as u64 {
            proof {
                lemma_entries_trunc(data@, entry_pos as int, base as int, *endian, *group,
                    generic_ifd_nr, n as int, i as int, st, depth as int, size);
            }
            return Err(MetaError::Truncated);
        }
        let start: usize = base + (off as usize);
        let stop: usize = start + (bc as usize);
        copy_range(data, start, stop)
    } else {
        let bcu: usize = bc as usize;
        copy_range(data, epos + 8, epos + 8 + bcu)
    };
    let ghost rawv = raw@;
    proof {
        assert(entry_raw_ok(data@, epos as int, base as int, *endian, (size as int) * (
        comps as int), rawv));
    }

    match tag_kind(id, group) {
        None => {
            let ghost pre_tags = tags@.map_values(|t: ExifTag| t@);
            tags.push(ExifTag::Entry { id, format: fmt, components: comps, data: raw });
            proof {
                assert(tags@.map_values(|t: ExifTag| t@) =~= pre_tags.push(
                    TagView::Entry { id, format: fmt, components: comps, data: rawv },
                ));
                lemma_entries_unknown(data@, entry_pos as int, base as int, *endian, *group,
                    generic_ifd_nr, n as int, i as int, st, depth as int, size, rawv);
                assert(insert_into@.map_values(|d: ImageFileDirectory| d@).skip(
                    insert0.len() as int,
                ) =~= Seq::<IfdView>::empty());
                assert(st.subs + Seq::<IfdView>::empty() =~= st.subs);
                assert(insert_into@.map_values(|d: ImageFileDirectory| d@).take(
                    insert0.len() as int,
                ) =~= insert0);
            }
            Ok((tags, pend_offsets, pend_counts))
        },
        Some(TagKind::IfdOffset(subgroup)) => {
            proof {
                lemma_entries_ifd_offset(data@, entry_pos as int, base as int, *endian, *group,
                    generic_ifd_nr, n as int, i as int, st, depth as int, size, rawv, subgroup);
            }
            if raw.len() != 4 {
                return Err(MetaError::FormatMismatch);
            }
            let off2 = u32_from_bytes(endian, raw[0], raw[1], raw[2], raw[3]);
            if (off2 as u64) > (dlen - base) as u64 {
                return Err(MetaError::BadOffset);
            }
            let sub_pos: usize = base + (off2 as usize);
            let sub_result = decode_ifd_at(data, sub_pos, base, endian, &subgroup,
                generic_ifd_nr, insert_into, depth - 1);
            match sub_result {
                Err(err) => Err(err),
                Ok(link) => {
                    if link.is_some() {
                        return Err(MetaError::SubIfdChained);
                    }
                    proof {
                        let subres = decode_ifd_spec(
                            data@,
                            sub_pos as int,
                            base as int,
                            *endian,
                            subgroup,
                            generic_ifd_nr,
                            depth as int - 1,
                        );
                        assert(insert_into@.map_values(|d: ImageFileDirectory| d@)
                            =~= insert0 + subres->Ok_0.0);
                        assert(insert_into@.map_values(|d: ImageFileDirectory| d@).take(
                            insert0.len() as int,
                        ) =~= insert0);
                        assert(insert_into@.map_values(|d: ImageFileDirectory| d@).skip(
                            insert0.len() as int,
                        ) =~= subres->Ok_0.0);
                    }
                    Ok((tags, pend_offsets, pend_counts))
                },
            }
        },
        Some(kind) => {
            proof {
                lemma_entries_known(data@, entry_pos as int, base as int, *endian, *group,
                    generic_ifd_nr, n as int, i as int, st, depth as int, size, rawv, kind);
            }
            let (fmt2, raw2): (u16, Vec<u8>) = if fmt == EXPECTED_FORMAT_INT32U {
                (fmt, raw)
            } else if fmt == FORMAT_INT16U {
                (EXPECTED_FORMAT_INT32U, widen_16_to_32_exec(&raw, endian))
            } else {
                return Err(MetaError::FormatMismatch);
            };
            let ghost raw2v = raw2@;
            proof {
                assert(insert_into@.map_values(|d: ImageFileDirectory| d@).skip(
                    insert0.len() as int,
                ) =~= Seq::<IfdView>::empty());
                assert(st.subs + Seq::<IfdView>::empty() =~= st.subs);
                assert(insert_into@.map_values(|d: ImageFileDirectory| d@).take(
                    insert0.len() as int,
                ) =~= insert0);
            }
            match kind {
                TagKind::DataOffset(StripRole::Offsets) => {
                    pend_offsets = Some(raw2);
                    Ok((tags, pend_offsets, pend_counts))
                },
                TagKind::DataOffset(StripRole::ByteCounts) => {
                    pend_counts = Some(raw2);
                    Ok((tags, pend_offsets, pend_counts))
                },
                _ => {
                    let ghost pre_tags = tags@.map_values(|t: ExifTag| t@);
                    tags.push(ExifTag::Entry { id, format: fmt2, components: comps, data: raw2 });
                    proof {
                        assert(tags@.map_values(|t: ExifTag| t@) =~= pre_tags.push(
                            TagView::Entry { id, format: fmt2, components: comps, data: raw2v },
                        ));
                    }
                    Ok((tags, pend_offsets, pend_counts))
                },
            }
        },
    }
}

/// Scan the directory entries, decoding nested sub-directories as their
/// offset tags are met, and return the tags and the pending strip halves.
fn decode_entries_exec(
    data: &Vec<u8>,
    entry_pos: usize,
    base: usize,
    endian: &Endian,
    group: &ExifTagGroup,
    generic_ifd_nr: u32,
    n: usize,
    insert_into: &mut Vec<ImageFileDirectory>,
    depth: u32,
) -> (r: Result<(Vec<ExifTag>, Option<Vec<u8>>, Option<Vec<u8>>), MetaError>)
    requires
        depth >= 1,
        base <= data@.len(),
        entry_pos + 12 * n <= data@.len(),
    ensures
        ({
            let full = decode_entries_spec(
                data@,
                entry_pos as int,
                base as int,
                *endian,
                *group,
                generic_ifd_nr,
                n as int,
                0,
                empty_state(),
                depth as int,
            );
            match full {
                Ok(st) => r is Ok && ({
                    let (tags, po, pc) = r->Ok_0;
                    &&& tags@.map_values(|t: ExifTag| t@) == st.tags
                    &&& opt_view(po) == st.pend_offsets
                    &&& opt_view(pc) == st.pend_counts
                    &&& final(insert_into)@.map_values(|d: ImageFileDirectory| d@) == old(
                        insert_into,
                    )@.map_values(|d: ImageFileDirectory| d@) + st.subs
                }),
                Err(err) => r == Err::<(Vec<ExifTag>, Option<Vec<u8>>, Option<Vec<u8>>), MetaError>(
                    err,
                ),
            }
        }),
    decreases depth, 0int, 2int,
{
    let mut tags: Vec<ExifTag> = Vec::new();
    let mut pend_offsets: Option<Vec<u8>> = None;
    let mut pend_counts: Option<Vec<u8>> = None;
    let ghost mut st = empty_state();
    let ghost insert0 = old(insert_into)@.map_values(|d: ImageFileDirectory| d@);
    proof {
        assert(insert0 + st.subs =~= insert0);
        assert(st.tags =~= tags@.map_values(|t: ExifTag| t@));
    }
    let mut i: usize = 0;
    while i < n
        invariant
            0 <= i <= n,
            depth >= 1,
            base <= data@.len(),
            entry_pos + 12 * n <= data@.len(),
            st.tags == tags@.map_values(|t: ExifTag| t@),
            st.pend_offsets == opt_view(pend_offsets),
            st.pend_counts == opt_view(pend_counts),
            insert_into@.map_values(|d: ImageFileDirectory| d@) == insert0 + st.subs,
            decode_entries_spec(
                data@,
                entry_pos as int,
                base as int,
                *endian,
                *group,
                generic_ifd_nr,
                n as int,
                0,
                empty_state(),
                depth as int,
            ) == decode_entries_spec(
                data@,
                entry_pos as int,
                base as int,
                *endian,
                *group,
                generic_ifd_nr,
                n as int,
                i as int,
                st,
                depth as int,
            ),
        decreases n - i,
    {
        let ghost pre = insert_into@.map_values(|d: ImageFileDirectory| d@);
        let step = scan_one_entry(data, entry_pos, base, endian, group, generic_ifd_nr, n, i,
            tags, pend_offsets, pend_counts, insert_into, depth, Ghost(st));
        match step {
            Err(err) => {
                return Err(err);
            },
            Ok(t) => {
                let (tags2, po2, pc2) = t;
                proof {
                    let post = insert_into@.map_values(|d: ImageFileDirectory| d@);
                    let st_pre = st;
                    st = EntryState {
                        tags: tags2@.map_values(|t: ExifTag| t@),
                        subs: st.subs + post.skip(pre.len() as int),
                        pend_offsets: opt_view(po2),
                        pend_counts: opt_view(pc2),
                    };
                    assert(post =~= post.take(pre.len() as int) + post.skip(pre.len() as int));
                    assert(post =~= pre + post.skip(pre.len() as int));
                    assert(insert0 + st.subs =~= (insert0 + st_pre.subs) + post.skip(
                        pre.len() as int,
                    ));
                    assert(post =~= insert0 + st.subs);
                }
                tags = tags2;
                pend_offsets = po2;
                pend_counts = pc2;
            },
        }
        i += 1;
    }
    proof {
        lemma_entries_done(data@, entry_pos as int, base as int, *endian, *group,
            generic_ifd_nr, n as int, i as int, st, depth as int);
    }
    Ok((tags, pend_offsets, pend_counts))
}

/// Decode one directory and every sub-directory its offset tags reach,
/// with an explicit nesting budget.
fn decode_ifd_at(
    data: &Vec<u8>,
    pos: usize,
    base: usize,
    endian: &Endian,
    group: &ExifTagGroup,
    generic_ifd_nr: u32,
    insert_into: &mut Vec<ImageFileDirectory>,
    depth: u32,
) -> (r: Result<Option<u32>, MetaError>)
    requires
        pos <= data@.len(),
        base <= data@.len(),
    ensures
        match decode_ifd_spec(
            data@,
            pos as int,
            base as int,
            *endian,
            *group,
            generic_ifd_nr,
            depth as int,
        ) {
            Ok((ifds, link)) => r == Ok::<Option<u32>, MetaError>(link) && final(
                insert_into
            )@.map_values(|d: ImageFileDirectory| d@) == old(insert_into)@.map_values(
                |d: ImageFileDirectory| d@,
            ) + ifds,
            Err(err) => r == Err::<Option<u32>, MetaError>(err),
        },
    decreases depth, 1int,
{
    proof {
        reveal(decode_ifd_spec);
    }
    if depth == 0 {
        return Err(MetaError::NestingTooDeep);
    }
    let dlen: usize = data.len();
    if dlen - pos < 6 {
        proof {
            assert(insert_into@.map_values(|d: ImageFileDirectory| d@) =~= old(
                insert_into,
            )@.map_values(|d: ImageFileDirectory| d@) + Seq::<IfdView>::empty());
        }
        return Ok(None);
    }
    let n16 = u16_from_bytes(endian, data[pos], data[pos + 1]);
    let n: usize = n16 as usize;
    if (dlen - pos - 6) / 12 < n {
        proof {
            assert(dlen - pos < 2 + 12 * (n as int) + 4) by (nonlinear_arith)
                requires
                    (dlen - pos - 6) / 12 < n as int,
                    dlen - pos >= 6,
                    n >= 0,
            ;
        }
        return Err(MetaError::Truncated);
    }
    proof {
        assert(2 + 12 * (n as int) + 4 <= dlen - pos) by (nonlinear_arith)
            requires
                (dlen - pos - 6) / 12 >= n as int,
                dlen - pos >= 6,
                n >= 0,
        ;
    }
    let entry_pos: usize = pos + 2;
    let ghost n_spec = u16_val(*endian, data@[pos as int], data@[pos as int + 1]) as int;
    let ghost full = decode_entries_spec(
        data@,
        pos as int + 2,
        base as int,
        *endian,
        *group,
        generic_ifd_nr,
        n_spec,
        0,
        empty_state(),
        depth as int,
    );
    proof {
        reveal(decode_ifd_spec);
        reveal(decode_entries_spec);
        assert(n_spec == n as int);
        assert(pos as int + 2 == entry_pos as int);
        assert(depth as int >= 1);
        assert(!(data@.len() < pos as int + 6));
        assert(data@.len() - pos as int >= 2 + 12 * n_spec + 4);
        assert(decode_ifd_spec(
            data@,
            pos as int,
            base as int,
            *endian,
            *group,
            generic_ifd_nr,
            depth as int,
        ) == match full {
            Err(err) => Err::<(Seq<IfdView>, Option<u32>), MetaError>(err),
            Ok(st0) => match resolve_strips(data@, base as int, *endian, st0) {
                Err(err) => Err::<(Seq<IfdView>, Option<u32>), MetaError>(err),
                Ok(tags0) => {
                    let lp = pos as int + 2 + 12 * n_spec;
                    let ifds = st0.subs.push(
                        IfdView {
                            tags: tags0,
                            ifd_type: *group,
                            belongs_to_generic_ifd_nr: generic_ifd_nr,
                        },
                    );
                    if data@[lp] == 0 && data@[lp + 1] == 0 && data@[lp + 2] == 0 && data@[lp + 3]
                        == 0 {
                        Ok((ifds, None))
                    } else {
                        Ok(
                            (
                                ifds,
                                Some(
                                    u32_val(
                                        *endian,
                                        data@[lp],
                                        data@[lp + 1],
                                        data@[lp + 2],
                                        data@[lp + 3],
                                    ),
                                ),
                            ),
                        )
                    }
                },
            },
        });
        assert(full == decode_entries_spec(
            data@,
            entry_pos as int,
            base as int,
            *endian,
            *group,
            generic_ifd_nr,
            n as int,
            0,
            empty_state(),
            depth as int,
        ));
    }
    let scanned = decode_entries_exec(data, entry_pos, base, endian, group, generic_ifd_nr, n,
        insert_into, depth);
    let (tags, pend_offsets, pend_counts) = match scanned {
        Err(err) => {
            return Err(err);
        },
        Ok(t) => t,
    };
    let ghost st = full->Ok_0;
    proof {
        let st_used = EntryState {
            tags: st.tags,
            subs: Seq::empty(),
            pend_offsets: st.pend_offsets,
            pend_counts: st.pend_counts,
        };
        assert(resolve_strips(data@, base as int, *endian, st_used) == resolve_strips(
            data@,
            base as int,
            *endian,
            st,
        ));
    }
    let resolved = resolve_strips_exec(data, base, endian, tags, pend_offsets, pend_counts);
    let final_tags = match resolved {
        Err(err) => {
            return Err(err);
        },
        Ok(t) => t,
    };

    let ifd = ImageFileDirectory {
        tags: final_tags,
        ifd_type: *group,
        belongs_to_generic_ifd_nr: generic_ifd_nr,
    };
    let ghost pre_insert = insert_into@.map_values(|d: ImageFileDirectory| d@);
    insert_into.push(ifd);
    proof {
        assert(insert_into@.map_values(|d: ImageFileDirectory| d@) =~= pre_insert.push(
            IfdView {
                tags: resolve_strips(data@, base as int, *endian, st)->Ok_0,
                ifd_type: *group,
                belongs_to_generic_ifd_nr: generic_ifd_nr,
            },
        ));
        assert(insert_into@.map_values(|d: ImageFileDirectory| d@) =~= old(
            insert_into,
        )@.map_values(|d: ImageFileDirectory| d@) + st.subs.push(
            IfdView {
                tags: resolve_strips(data@, base as int, *endian, st)->Ok_0,
                ifd_type: *group,
                belongs_to_generic_ifd_nr: generic_ifd_nr,
            },
        ));
    }

    let lp: usize = pos + 2 + 12 * n;
    let l0 = data[lp];
    let l1 = data[lp + 1];
    let l2 = data[lp + 2];
    let l3 = data[lp + 3];
    if l0 == 0 && l1 == 0 && l2 == 0 && l3 == 0 {
        Ok(None)
    } else {
        Ok(Some(u32_from_bytes(endian, l0, l1, l2, l3)))
    }
}

impl ImageFileDirectory {
    /// Decode the directory that starts at `pos`, every sub-directory reachable
    /// from it, and hand back the offset of the next chained generic directory,
    /// if the trailing link names one.
    ///
    /// Decoded directories are appended to the accumulator, sub-directories
    /// first. Nesting deeper than the defensive limit, unknown format codes,
    /// unresolvable format mismatches and any offset or length that leaves the
    /// buffer are decode errors.
    pub fn decode_ifd(
        data: &Vec<u8>,
        pos: usize,
        data_begin_position: usize,
        endian: &Endian,
        group: &ExifTagGroup,
        generic_ifd_nr: u32,
        insert_into: &mut Vec<ImageFileDirectory>,
    ) -> (r: Result<Option<u32>, MetaError>)
        requires
            pos <= data@.len(),
            data_begin_position <= data@.len(),
        ensures
            match decode_ifd_spec(
                data@,
                pos as int,
                data_begin_position as int,
                *endian,
                *group,
                generic_ifd_nr,
                MAX_SUBIFD_NESTING as int,
            ) {
                Ok((ifds, link)) => r == Ok::<Option<u32>, MetaError>(link) && final(
                    insert_into
                )@.map_values(|d: ImageFileDirectory| d@) == old(insert_into)@.map_values(
                    |d: ImageFileDirectory| d@,
                ) + ifds,
                Err(err) => r == Err::<Option<u32>, MetaError>(err),
            },
    {
        decode_ifd_at(data, pos, data_begin_position, endian, group, generic_ifd_nr, insert_into,
            MAX_SUBIFD_NESTING)
    }
}

/// A run of zero bytes.
pub open spec fn zero_pad(n: int) -> Seq<u8> {
    Seq::new(
        if n >= 0 {
            n as nat
        } else {
            0
        },
        |i: int| 0u8,
    )
}

/// The id of an entry tag.
pub open spec fn tag_id(t: TagView) -> u16 {
    match t {
        TagView::Entry { id, .. } => id,
        _ => 0,
    }
}

/// The value bytes of an entry tag.
pub open spec fn tag_data(t: TagView) -> Seq<u8> {
    match t {
        TagView::Entry { data, .. } => data,
        _ => Seq::empty(),
    }
}

/// The format code of an entry tag.
pub open spec fn tag_format(t: TagView) -> u16 {
    match t {
        TagView::Entry { format, .. } => format,
        _ => 0,
    }
}

/// The component count of an entry tag.
pub open spec fn tag_components(t: TagView) -> u32 {
    match t {
        TagView::Entry { components, .. } => components,
        _ => 0,
    }
}

/// The pool bytes one tag contributes: its data when it is too wide for the
/// four-byte value field, nothing otherwise.
pub open spec fn tag_extra(t: TagView) -> int {
    if tag_data(t).len() > 4 {
        tag_data(t).len() as int
    } else {
        0
    }
}

/// The pool bytes that the first `j` tags contribute.
pub open spec fn pool_size_upto(tags: Seq<TagView>, j: int) -> int
    decreases j,
{
    if j <= 0 {
        0
    } else {
        pool_size_upto(tags, j - 1) + tag_extra(tags[j - 1])
    }
}

/// The twelve bytes of one directory entry: id, format, component count,
/// and the value field, which holds the zero-padded data or the offset into
/// the pool.
pub open spec fn entry_bytes_spec(t: TagView, e: Endian, off: int) -> Seq<u8> {
    match t {
        TagView::Entry { id, format, components, data } => u16_bytes(e, id) + u16_bytes(e, format)
            + u32_bytes(e, components) + (if data.len() <= 4 {
            data + zero_pad(4 - data.len())
        } else {
            u32_bytes(e, off as u32)
        }),
        _ => Seq::empty(),
    }
}

/// The entry table from tag `j` on, with each wide tag's offset pointing
/// past the header at its pool position.
pub open spec fn entries_bytes(tags: Seq<TagView>, e: Endian, j: int, hl: int) -> Seq<u8>
    decreases tags.len() - j,
{
    if j >= tags.len() {
        Seq::empty()
    } else {
        entry_bytes_spec(tags[j], e, hl + pool_size_upto(tags, j)) + entries_bytes(
            tags,
            e,
            j + 1,
            hl,
        )
    }
}

/// The data pool from tag `j` on.
pub open spec fn pool_bytes(tags: Seq<TagView>, j: int) -> Seq<u8>
    decreases tags.len() - j,
{
    if j >= tags.len() {
        Seq::empty()
    } else {
        (if tag_data(tags[j]).len() > 4 {
            tag_data(tags[j])
        } else {
            Seq::empty()
        }) + pool_bytes(tags, j + 1)
    }
}

/// The serialized directory: entry count, entry table in tag order, a zero
/// trailing link, and the data pool. Offsets are relative to the start of
/// the blob.
pub open spec fn encode_ifd_spec(tags: Seq<TagView>, e: Endian) -> Seq<u8> {
    u16_bytes(e, tags.len() as u16) + entries_bytes(tags, e, 0, 6 + 12 * tags.len() as int) + seq![
        0u8,
        0u8,
        0u8,
        0u8,
    ] + pool_bytes(tags, 0)
}

/// An encodable tag: a directory entry with a known format, consistent
/// length, and an id that the decoder either does not know or treats as a
/// plain value of the expected format.
pub open spec fn wf_encode_tag(t: TagView, group: ExifTagGroup) -> bool {
    match t {
        TagView::Entry { id, format, components, data } => {
            &&& spec_bytes_per_component(format) is Some
            &&& data.len() == (spec_bytes_per_component(format)->0 as int) * (components as int)
            &&& (spec_tag_kind(id, group) is None || (spec_tag_kind(id, group) == Some(
                TagKind::Plain,
            ) && format == EXPECTED_FORMAT_INT32U))
        },
        _ => false,
    }
}

/// An encodable tag set: every tag encodable, ids strictly ascending, few
/// enough entries for the 16-bit count, and a blob short enough for 32-bit
/// offsets.
pub open spec fn wf_encode_tags(tags: Seq<TagView>, group: ExifTagGroup) -> bool {
    &&& tags.len() <= 0xffff
    &&& forall|j: int| 0 <= j < tags.len() ==> wf_encode_tag(#[trigger] tags[j], group)
    &&& forall|j: int, k: int|
        0 <= j < k < tags.len() ==> tag_id(#[trigger] tags[j]) < tag_id(#[trigger] tags[k])
    &&& 6 + 12 * tags.len() as int + pool_size_upto(tags, tags.len() as int) <= 0xffffffff
}

/// The pool grows monotonically with the tag index, never past the whole
/// pool.
proof fn lemma_pool_size_mono(tags: Seq<TagView>, j: int, k: int)
    requires
        0 <= j <= k,
    ensures
        pool_size_upto(tags, j) <= pool_size_upto(tags, k),
        pool_size_upto(tags, j) >= 0,
    decreases k - j + j,
{
    if j > 0 && j <= k {
        lemma_pool_size_mono(tags, j - 1, k - 1);
    }
    if j < k {
        lemma_pool_size_mono(tags, j, k - 1);
        assert(tag_extra(tags[k - 1]) >= 0);
    }
}

/// Serialize this directory's tags into one directory blob: entry count,
/// entries in tag order with offsets relative to the blob start, a zero
/// trailing link, and the data pool.
impl ImageFileDirectory {
    #[verifier::rlimit(100)]
    pub fn encode_generic_ifd(&self, endian: &Endian) -> (r: Result<Vec<u8>, MetaError>)
        requires
            wf_encode_tags(self@.tags, self@.ifd_type),
        ensures
            r is Ok,
            r->Ok_0@ == encode_ifd_spec(self@.tags, *endian),
    {
        let ghost tagsv = self@.tags;
        let n: usize = self.tags.len();
        let hl: usize = 6 + 12 * n;
        let mut out: Vec<u8> = Vec::new();
        push_u16_bytes(&mut out, endian, n as u16);
        let ghost count_part = u16_bytes(*endian, n as u16);
        proof {
            assert(tagsv.len() == n);
            assert(out@ =~= count_part);
        }

        // Entry table.
        let mut pool_off: usize = 0;
        let mut j: usize = 0;
        while j < n
            invariant
                0 <= j <= n,
                n == self@.tags.len(),
                tagsv == self@.tags,
                hl == 6 + 12 * n,
                wf_encode_tags(tagsv, self@.ifd_type),
                pool_off == pool_size_upto(tagsv, j as int),
                count_part == u16_bytes(*endian, n as u16),
                out@ + entries_bytes(tagsv, *endian, j as int, hl as int) == count_part
                    + entries_bytes(tagsv, *endian, 0, hl as int),
            decreases n - j,
        {
            proof {
                lemma_pool_size_mono(tagsv, j as int, n as int);
                lemma_pool_size_mono(tagsv, j as int + 1, n as int);
            }
            let ghost pre = out@;
            let tag = &self.tags[j];
            proof {
                assert(tag@ == tagsv[j as int]);
                assert(wf_encode_tag(tagsv[j as int], self@.ifd_type));
            }
            match tag {
                ExifTag::Entry { id, format, components, data } => {
                    push_u16_bytes(&mut out, endian, *id);
                    push_u16_bytes(&mut out, endian, *format);
                    push_u32_bytes(&mut out, endian, *components);
                    if data.len() <= 4 {
                        let ghost vpre = out@;
                        let dl: usize = data.len();
                        let mut t: usize = 0;
                        while t < dl
                            invariant
                                0 <= t <= dl,
                                dl == data@.len() <= 4,
                                out@ == vpre + data@.take(t as int),
                            decreases dl - t,
                        {
                            out.push(data[t]);
                            t += 1;
                            assert(out@ =~= vpre + data@.take(t as int));
                        }
                        proof {
                            assert(data@.take(dl as int) =~= data@);
                        }
                        let ghost zpre = out@;
                        let mut z: usize = dl;
                        while z < 4
                            invariant
                                dl <= z <= 4,
                                out@ == zpre + zero_pad(z as int - dl as int),
                            decreases 4 - z,
                        {
                            out.push(0);
                            z += 1;
                            assert(out@ =~= zpre + zero_pad(z as int - dl as int));
                        }
                        proof {
                            assert(out@ =~= pre + entry_bytes_spec(
                                tagsv[j as int],
                                *endian,
                                hl as int + pool_size_upto(tagsv, j as int),
                            ));
                        }
                    } else {
                        let off: usize = hl + pool_off;
                        push_u32_bytes(&mut out, endian, off as u32);
                        proof {
                            assert(out@ =~= pre + entry_bytes_spec(
                                tagsv[j as int],
                                *endian,
                                hl as int + pool_size_upto(tagsv, j as int),
                            ));
                        }
                    }
                    if data.len() > 4 {
                        pool_off = pool_off + data.len();
                    }
                },
                ExifTag::Strips { .. } => {
                    proof {
                        assert(false);
                    }
                },
            }
            j += 1;
            proof {
                assert(entries_bytes(tagsv, *endian, j as int - 1, hl as int) == entry_bytes_spec(
                    tagsv[j as int - 1],
                    *endian,
                    hl as int + pool_size_upto(tagsv, j as int - 1),
                ) + entries_bytes(tagsv, *endian, j as int, hl as int));
                assert(out@ + entries_bytes(tagsv, *endian, j as int, hl as int) =~= count_part
                    + entries_bytes(tagsv, *endian, 0, hl as int));
            }
        }
        proof {
            assert(entries_bytes(tagsv, *endian, n as int, hl as int) == Seq::<u8>::empty());
            assert(out@ =~= count_part + entries_bytes(tagsv, *endian, 0, hl as int));
        }

        // Trailing link: no chained directory.
        out.push(0);
        out.push(0);
        out.push(0);
        out.push(0);
        let ghost before_pool = out@;
        proof {
            assert(before_pool =~= count_part + entries_bytes(tagsv, *endian, 0, hl as int)
                + seq![0u8, 0u8, 0u8, 0u8]);
        }

        // Data pool.
        let mut k: usize = 0;
        while k < n
            invariant
                0 <= k <= n,
                n == self@.tags.len(),
                tagsv == self@.tags,
                wf_encode_tags(tagsv, self@.ifd_type),
                out@ + pool_bytes(tagsv, k as int) == before_pool + pool_bytes(tagsv, 0),
            decreases n - k,
        {
            let ghost pre = out@;
            let tag = &self.tags[k];
            proof {
                assert(tag@ == tagsv[k as int]);
                assert(wf_encode_tag(tagsv[k as int], self@.ifd_type));
            }
            match tag {
                ExifTag::Entry { data, .. } => {
                    if data.len() > 4 {
                        let ghost vpre = out@;
                        let dl: usize = data.len();
                        let mut t: usize = 0;
                        while t < dl
                            invariant
                                0 <= t <= dl,
                                dl == data@.len(),
                                out@ == vpre + data@.take(t as int),
                            decreases dl - t,
                        {
                            out.push(data[t]);
                            t += 1;
                            assert(out@ =~= vpre + data@.take(t as int));
                        }
                        proof {
                            assert(data@.take(dl as int) =~= data@);
                        }
                    }
                },
                ExifTag::Strips { .. } => {
                    proof {
                        assert(false);
                    }
                },
            }
            k += 1;
            proof {
                assert(pool_bytes(tagsv, k as int - 1) == (if tag_data(
                    tagsv[k as int - 1],
                ).len() > 4 {
                    tag_data(tagsv[k as int - 1])
                } else {
                    Seq::<u8>::empty()
                }) + pool_bytes(tagsv, k as int));
                assert(out@ + pool_bytes(tagsv, k as int) =~= before_pool + pool_bytes(tagsv, 0));
            }
        }
        proof {
            assert(pool_bytes(tagsv, n as int) == Seq::<u8>::empty());
            assert(out@ =~= before_pool + pool_bytes(tagsv, 0));
            assert(out@ =~= encode_ifd_spec(tagsv, *endian));
        }
        Ok(out)
    }
}

/// Every directory entry serializes to exactly twelve bytes.
proof fn lemma_entry_bytes_len(t: TagView, e: Endian, off: int)
    requires
        t is Entry,
    ensures
        entry_bytes_spec(t, e, off).len() == 12,
{
}

/// The entry table from `j` on holds twelve bytes per remaining tag.
proof fn lemma_entries_bytes_len(tags: Seq<TagView>, e: Endian, j: int, hl: int)
    requires
        0 <= j <= tags.len(),
        forall|t: int| 0 <= t < tags.len() ==> (#[trigger] tags[t]) is Entry,
    ensures
        entries_bytes(tags, e, j, hl).len() == 12 * (tags.len() - j),
    decreases tags.len() - j,
{
    if j < tags.len() {
        lemma_entry_bytes_len(tags[j], e, hl + pool_size_upto(tags, j));
        lemma_entries_bytes_len(tags, e, j + 1, hl);
    }
}

/// The pool from `j` on holds what the remaining wide tags contribute.
proof fn lemma_pool_bytes_len(tags: Seq<TagView>, j: int)
    requires
        0 <= j <= tags.len(),
    ensures
        pool_bytes(tags, j).len() == pool_size_upto(tags, tags.len() as int) - pool_size_upto(
            tags,
            j,
        ),
    decreases tags.len() - j,
{
    if j < tags.len() {
        lemma_pool_bytes_len(tags, j + 1);
    }
}

/// The twelve bytes of tag `j` stand at their slot of the entry table.
proof fn lemma_entries_extract(tags: Seq<TagView>, e: Endian, j0: int, j: int, hl: int)
    requires
        0 <= j0 <= j < tags.len(),
        forall|t: int| 0 <= t < tags.len() ==> (#[trigger] tags[t]) is Entry,
    ensures
        entries_bytes(tags, e, j0, hl).subrange(12 * (j - j0), 12 * (j - j0) + 12)
            == entry_bytes_spec(tags[j], e, hl + pool_size_upto(tags, j)),
    decreases j - j0,
{
    lemma_entry_bytes_len(tags[j0], e, hl + pool_size_upto(tags, j0));
    lemma_entries_bytes_len(tags, e, j0 + 1, hl);
    if j == j0 {
        assert(entries_bytes(tags, e, j0, hl).subrange(0, 12) =~= entry_bytes_spec(
            tags[j0],
            e,
            hl + pool_size_upto(tags, j0),
        ));
    } else {
        lemma_entries_extract(tags, e, j0 + 1, j, hl);
        assert(entries_bytes(tags, e, j0, hl).subrange(12 * (j - j0), 12 * (j - j0) + 12)
            =~= entries_bytes(tags, e, j0 + 1, hl).subrange(
            12 * (j - j0 - 1),
            12 * (j - j0 - 1) + 12,
        ));
    }
}

/// A wide tag's data stands at its pool position.
proof fn lemma_pool_extract(tags: Seq<TagView>, j0: int, j: int)
    requires
        0 <= j0 <= j < tags.len(),
        tag_data(tags[j]).len() > 4,
    ensures
        ({
            let p = pool_size_upto(tags, j) - pool_size_upto(tags, j0);
            pool_bytes(tags, j0).subrange(p, p + tag_data(tags[j]).len() as int) == tag_data(
                tags[j],
            )
        }),
    decreases j - j0,
{
    lemma_pool_size_mono(tags, j0, j);
    if j == j0 {
        assert(pool_bytes(tags, j0).subrange(0, tag_data(tags[j0]).len() as int) =~= tag_data(
            tags[j0],
        )) by {
            lemma_pool_bytes_len(tags, j0 + 1);
        }
    } else {
        lemma_pool_extract(tags, j0 + 1, j);
        let ex = tag_extra(tags[j0]);
        let p = pool_size_upto(tags, j) - pool_size_upto(tags, j0);
        let p1 = pool_size_upto(tags, j) - pool_size_upto(tags, j0 + 1);
        let ln = tag_data(tags[j]).len() as int;
        lemma_pool_size_mono(tags, j0 + 1, j);
        lemma_pool_size_mono(tags, j + 1, tags.len() as int);
        lemma_pool_bytes_len(tags, j0);
        lemma_pool_bytes_len(tags, j0 + 1);
        assert(pool_size_upto(tags, j + 1) == pool_size_upto(tags, j) + ln);
        assert(p + ln <= pool_bytes(tags, j0).len());
        assert(p1 + ln <= pool_bytes(tags, j0 + 1).len());
        let head: Seq<u8> = if tag_data(tags[j0]).len() > 4 {
            tag_data(tags[j0])
        } else {
            Seq::empty()
        };
        assert(pool_bytes(tags, j0) == head + pool_bytes(tags, j0 + 1));
        assert(head.len() == ex);
        assert(p == p1 + ex);
        assert(pool_bytes(tags, j0).subrange(p, p + ln) =~= pool_bytes(tags, j0 + 1).subrange(
            p1,
            p1 + ln,
        ));
    }
}

/// The fields of entry `j` read back from the serialized blob: id, format
/// and component count round-trip, and the value bytes the decoder reads,
/// inline or through the pool offset, are the tag's own data.
#[verifier::rlimit(100)]
proof fn lemma_entry_readback(tags: Seq<TagView>, e: Endian, group: ExifTagGroup, j: int)
    requires
        wf_encode_tags(tags, group),
        0 <= j < tags.len(),
    ensures
        ({
            let blob = encode_ifd_spec(tags, e);
            let epos = 2 + 12 * j;
            let data = tag_data(tags[j]);
            let bc = data.len() as int;
            &&& u16_val(e, blob[epos], blob[epos + 1]) == tag_id(tags[j])
            &&& u16_val(e, blob[epos + 2], blob[epos + 3]) == tag_format(tags[j])
            &&& u32_val(e, blob[epos + 4], blob[epos + 5], blob[epos + 6], blob[epos + 7])
                == tag_components(tags[j])
            &&& (bc <= 4 ==> blob.subrange(epos + 8, epos + 8 + bc) == data)
            &&& (bc > 4 ==> ({
                let off = u32_val(
                    e,
                    blob[epos + 8],
                    blob[epos + 9],
                    blob[epos + 10],
                    blob[epos + 11],
                ) as int;
                &&& off + bc <= blob.len()
                &&& blob.subrange(off, off + bc) == data
            }))
        }),
{
    let blob = encode_ifd_spec(tags, e);
    let n = tags.len() as int;
    let hl = 6 + 12 * n;
    let epos = 2 + 12 * j;
    let off_j = hl + pool_size_upto(tags, j);
    assert(forall|t: int| 0 <= t < tags.len() ==> (#[trigger] tags[t]) is Entry);
    lemma_entries_bytes_len(tags, e, 0, hl);
    lemma_pool_bytes_len(tags, 0);
    lemma_pool_size_mono(tags, 0, j);
    lemma_pool_size_mono(tags, j, n);
    lemma_pool_size_mono(tags, j + 1, n);
    assert(blob.len() == hl + pool_size_upto(tags, n));
    lemma_entries_extract(tags, e, 0, j, hl);
    let eb = entry_bytes_spec(tags[j], e, off_j);
    lemma_entry_bytes_len(tags[j], e, off_j);
    assert(blob.subrange(2, 2 + 12 * n) =~= entries_bytes(tags, e, 0, hl));
    assert(blob.subrange(epos, epos + 12) =~= entries_bytes(tags, e, 0, hl).subrange(
        12 * j,
        12 * j + 12,
    ));
    assert(blob.subrange(epos, epos + 12) == eb);
    assert(forall|t: int| 0 <= t < 12 ==> blob[epos + t] == #[trigger] eb[t]) by {
        assert(forall|t: int|
            0 <= t < 12 ==> #[trigger] eb[t] == blob.subrange(epos, epos + 12)[t]);
    }
    let id = tag_id(tags[j]);
    let fmt = tag_format(tags[j]);
    let comps = tag_components(tags[j]);
    let data = tag_data(tags[j]);
    assert(wf_encode_tag(tags[j], group));
    assert(eb =~= u16_bytes(e, id) + u16_bytes(e, fmt) + u32_bytes(e, comps) + (if data.len()
        <= 4 {
        data + zero_pad(4 - data.len())
    } else {
        u32_bytes(e, off_j as u32)
    }));
    crate::endian::lemma_u16_roundtrip(e, id);
    crate::endian::lemma_u16_roundtrip(e, fmt);
    crate::endian::lemma_u32_roundtrip(e, comps);
    assert(eb[0] == u16_bytes(e, id)[0] && eb[1] == u16_bytes(e, id)[1]);
    assert(eb[2] == u16_bytes(e, fmt)[0] && eb[3] == u16_bytes(e, fmt)[1]);
    assert(eb[4] == u32_bytes(e, comps)[0] && eb[5] == u32_bytes(e, comps)[1] && eb[6]
        == u32_bytes(e, comps)[2] && eb[7] == u32_bytes(e, comps)[3]);
    let bc = data.len() as int;
    if bc <= 4 {
        assert(blob.subrange(epos + 8, epos + 8 + bc) =~= data) by {
            assert(forall|t: int|
                0 <= t < bc ==> #[trigger] data[t] == eb[8 + t] && eb[8 + t] == blob[epos + 8
                    + t]);
        }
    } else {
        assert(eb[8] == u32_bytes(e, off_j as u32)[0] && eb[9] == u32_bytes(e, off_j as u32)[1]
            && eb[10] == u32_bytes(e, off_j as u32)[2] && eb[11] == u32_bytes(
            e,
            off_j as u32,
        )[3]);
        assert(off_j <= 0xffffffff);
        crate::endian::lemma_u32_roundtrip(e, off_j as u32);
        let off = u32_val(e, blob[epos + 8], blob[epos + 9], blob[epos + 10], blob[epos + 11])
            as int;
        assert(off == off_j);
        assert(pool_size_upto(tags, j + 1) == pool_size_upto(tags, j) + bc);
        assert(off + bc <= blob.len());
        lemma_pool_extract(tags, 0, j);
        assert(blob.subrange(hl, blob.len() as int) =~= pool_bytes(tags, 0));
        assert(blob.subrange(off, off + bc) =~= pool_bytes(tags, 0).subrange(
            pool_size_upto(tags, j),
            pool_size_upto(tags, j) + bc,
        ));
    }
}

/// Decoding the serialized entry table recovers the tags one by one: each
/// entry reads back with the same id, format, component count and data,
/// nothing pends, and no sub-directory appears.
#[verifier::rlimit(100)]
proof fn lemma_decode_entries_of_encode(
    tags: Seq<TagView>,
    e: Endian,
    group: ExifTagGroup,
    nr: u32,
    j: int,
    st: EntryState,
    depth: int,
)
    requires
        wf_encode_tags(tags, group),
        0 <= j <= tags.len(),
        depth >= 1,
        st.pend_offsets is None,
        st.pend_counts is None,
    ensures
        decode_entries_spec(
            encode_ifd_spec(tags, e),
            2,
            0,
            e,
            group,
            nr,
            tags.len() as int,
            j,
            st,
            depth,
        ) == Ok::<EntryState, MetaError>(
            EntryState {
                tags: st.tags + tags.skip(j),
                subs: st.subs,
                pend_offsets: None,
                pend_counts: None,
            },
        ),
    decreases tags.len() - j,
{
    reveal(decode_entries_spec);
    reveal(decode_ifd_spec);
    let blob = encode_ifd_spec(tags, e);
    let n = tags.len() as int;
    if j == n {
        assert(st.tags + tags.skip(j) =~= st.tags);
        assert(EntryState {
            tags: st.tags + tags.skip(j),
            subs: st.subs,
            pend_offsets: None,
            pend_counts: None,
        } == st);
    } else {
        let epos = 2 + 12 * j;
        lemma_entry_readback(tags, e, group, j);
        assert(wf_encode_tag(tags[j], group));
        let id = tag_id(tags[j]);
        let fmt = tag_format(tags[j]);
        let comps = tag_components(tags[j]);
        let data = tag_data(tags[j]);
        let size = spec_bytes_per_component(fmt)->0;
        let bc = (size as int) * (comps as int);
        assert(bc == data.len());
        let raw: Seq<u8> = if bc > 4 {
            blob.subrange(
                u32_val(e, blob[epos + 8], blob[epos + 9], blob[epos + 10], blob[epos + 11]) as int,
                u32_val(e, blob[epos + 8], blob[epos + 9], blob[epos + 10], blob[epos + 11]) as int
                    + bc,
            )
        } else {
            blob.subrange(epos + 8, epos + 8 + bc)
        };
        assert(raw == data);
        let st2 = EntryState {
            tags: st.tags.push(TagView::Entry { id, format: fmt, components: comps, data: raw }),
            ..st
        };
        assert(TagView::Entry { id, format: fmt, components: comps, data: raw } == tags[j]);
        lemma_decode_entries_of_encode(tags, e, group, nr, j + 1, st2, depth);
        assert(st.tags.push(tags[j]) + tags.skip(j + 1) =~= st.tags + tags.skip(j));
        assert(decode_entries_spec(blob, 2, 0, e, group, nr, n, j, st, depth)
            == decode_entries_spec(blob, 2, 0, e, group, nr, n, j + 1, st2, depth));
    }
}

/// Decoding a serialized tag set recovers it exactly.
///
/// This is the round trip of the IFD codec: any encodable tag set, written
/// out with its entry table, trailing link and data pool, decodes back to
/// one directory holding the same tags in the same order, with no chained
/// directory. The permitted 16-to-32-bit coercion never fires because an
/// encodable set already carries the expected formats.
#[verifier::rlimit(100)]
pub proof fn lemma_ifd_roundtrip(tags: Seq<TagView>, e: Endian, group: ExifTagGroup, nr: u32)
    requires
        wf_encode_tags(tags, group),
    ensures
        decode_ifd_spec(
            encode_ifd_spec(tags, e),
            0,
            0,
            e,
            group,
            nr,
            MAX_SUBIFD_NESTING as int,
        ) == Ok::<(Seq<IfdView>, Option<u32>), MetaError>(
            (
                seq![
                    IfdView { tags: tags, ifd_type: group, belongs_to_generic_ifd_nr: nr },
                ],
                None,
            ),
        ),
{
    reveal(decode_ifd_spec);
    reveal(decode_entries_spec);
    let blob = encode_ifd_spec(tags, e);
    let n = tags.len() as int;
    let hl = 6 + 12 * n;
    assert(forall|t: int| 0 <= t < tags.len() ==> (#[trigger] tags[t]) is Entry);
    lemma_entries_bytes_len(tags, e, 0, hl);
    lemma_pool_bytes_len(tags, 0);
    lemma_pool_size_mono(tags, 0, n);
    assert(blob.len() == hl + pool_size_upto(tags, n));
    assert(blob.len() >= 0 + 6);

    // The entry count reads back.
    crate::endian::lemma_u16_roundtrip(e, n as u16);
    assert(blob[0] == u16_bytes(e, n as u16)[0] && blob[1] == u16_bytes(e, n as u16)[1]);
    assert(u16_val(e, blob[0], blob[1]) == n as u16);
    assert(u16_val(e, blob[0], blob[1]) as int == n);
    assert(blob.len() - 0 >= 2 + 12 * n + 4);

    // The entry scan recovers the tags.
    lemma_decode_entries_of_encode(tags, e, group, nr, 0, empty_state(), MAX_SUBIFD_NESTING as int);
    let st = EntryState {
        tags: empty_state().tags + tags.skip(0),
        subs: empty_state().subs,
        pend_offsets: None,
        pend_counts: None,
    };
    assert(empty_state().tags + tags.skip(0) =~= tags);
    assert(resolve_strips(blob, 0, e, st) == Ok::<Seq<TagView>, MetaError>(tags));

    // The trailing link is zero.
    let lp = 0 + 2 + 12 * n;
    assert(blob.subrange(lp, lp + 4) =~= seq![0u8, 0u8, 0u8, 0u8]);
    assert(blob[lp] == 0 && blob[lp + 1] == 0 && blob[lp + 2] == 0 && blob[lp + 3] == 0);
    assert(st.subs.push(IfdView { tags: tags, ifd_type: group, belongs_to_generic_ifd_nr: nr })
        =~= seq![IfdView { tags: tags, ifd_type: group, belongs_to_generic_ifd_nr: nr }]);
}

} // verus!