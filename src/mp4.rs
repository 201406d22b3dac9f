//! ReplayGain values in the metadata tree of an MP4 file: the freeform
//! items under `moov/udta/meta/ilst`, the boxes that hold them, and the
//! sizes and chunk offsets that change when the tree grows or shrinks.

use vstd::prelude::*;
use vstd::utf8::*;
use vstd::slice::slice_subrange;
use crate::ape::{text_from_bytes, text_of, utf8_lossy};
use vstd::arithmetic::div_mod::{lemma_fundamental_div_mod, lemma_fundamental_div_mod_converse};

verus! {

pub const RG_TRACK_GAIN: &'static str = "replaygain_track_gain";

pub const RG_TRACK_PEAK: &'static str = "replaygain_track_peak";

pub const RG_ALBUM_GAIN: &'static str = "replaygain_album_gain";

pub const RG_ALBUM_PEAK: &'static str = "replaygain_album_peak";

pub const ITUNES_NAMESPACE: &'static str = "com.apple.iTunes";

pub const MOOV: u32 = 0x6d6f6f76;

pub const UDTA: u32 = 0x75647461;

pub const META: u32 = 0x6d657461;

pub const ILST: u32 = 0x696c7374;

pub const MDAT: u32 = 0x6d646174;

pub const FREEFORM: u32 = 0x2d2d2d2d;

pub const MEAN: u32 = 0x6d65616e;

pub const NAME: u32 = 0x6e616d65;

pub const DATA: u32 = 0x64617461;

pub const STCO: u32 = 0x7374636f;

pub const CO64: u32 = 0x636f3634;

pub const TRAK: u32 = 0x7472616b;

pub const MDIA: u32 = 0x6d646961;

pub const MINF: u32 = 0x6d696e66;

pub const STBL: u32 = 0x7374626c;

pub const HDLR: u32 = 0x68646c72;

/// Failures of the metadata update.
#[derive(Debug, Clone, Copy, PartialEq, Eq, Structural)]
pub enum Mp4Error {
    /// The file has no `moov` box.
    NoMoov,
    /// A box of the metadata path claims more bytes than the file has.
    Malformed,
}

impl Mp4Error {
    pub fn message(&self) -> &'static str {
        match self {
            Mp4Error::NoMoov => "No moov box found in MP4 file",
            Mp4Error::Malformed => "Malformed MP4 box structure",
        }
    }
}

pub open spec fn be32(d: Seq<u8>, at: int) -> int {
    d[at] * 0x1000000 + d[at + 1] * 0x10000 + d[at + 2] * 0x100 + d[at + 3]
}

pub open spec fn be64(d: Seq<u8>, at: int) -> int {
    be32(d, at) * 0x1_0000_0000 + be32(d, at + 4)
}

/// The four big-endian bytes of `v` modulo 2^32.
pub open spec fn be32_bytes(v: int) -> Seq<u8> {
    let w = v % 0x1_0000_0000;
    seq![(w / 0x1000000) as u8, (w / 0x10000 % 0x100) as u8, (w / 0x100 % 0x100) as u8, (w % 0x100) as u8]
}

/// A box header: total size (0 when the box extends to the end of the
/// file), four-character type, and header length (8, or 16 with a 64-bit
/// size).
#[derive(Debug, Clone, Copy, PartialEq, Eq, Structural)]
pub struct BoxHeader {
    pub size: u64,
    pub box_type: u32,
    pub header_size: u8,
}

/// The header of the box at `pos`, when its bytes are there.
pub open spec fn box_header_at(d: Seq<u8>, pos: int) -> Option<BoxHeader> {
    if pos < 0 || pos + 8 > d.len() {
        None
    } else if be32(d, pos) == 1 {
        if pos + 16 > d.len() {
            None
        } else {
            Some(BoxHeader { size: be64(d, pos + 8) as u64, box_type: be32(d, pos + 4) as u32, header_size: 16 })
        }
    } else {
        Some(BoxHeader { size: be32(d, pos) as u64, box_type: be32(d, pos + 4) as u32, header_size: 8 })
    }
}

pub fn read_be32(data: &[u8], at: usize) -> (r: u32)
    requires
        at + 4 <= data@.len(),
    ensures
        r == be32(data@, at as int),
{
    (data[at] as u32) * 0x1000000 + (data[at + 1] as u32) * 0x10000 + (data[at + 2] as u32) * 0x100
        + data[at + 3] as u32
}

fn read_be64(data: &[u8], at: usize) -> (r: u64)
    requires
        at + 8 <= data@.len(),
    ensures
        r == be64(data@, at as int),
{
    let n = data.len();
    let hi = read_be32(data, at) as u64;
    let lo = read_be32(data, at + 4) as u64;
    assert(hi * 0x1_0000_0000 + lo <= u64::MAX) by (nonlinear_arith)
        requires
            hi <= 0xFFFF_FFFF,
            lo <= 0xFFFF_FFFF,
    ;
    hi * 0x1_0000_0000 + lo
}

impl BoxHeader {
    /// Reads the header of the box at `pos`.
    pub fn read(data: &[u8], pos: usize) -> (r: Option<BoxHeader>)
        ensures
            r == box_header_at(data@, pos as int),
    {
        let n = data.len();
        if pos > n || n - pos < 8 {
            return None;
        }
        let size = read_be32(data, pos);
        let box_type = read_be32(data, pos + 4);
        if size == 1 {
            if n - pos < 16 {
                return None;
            }
            Some(BoxHeader { size: read_be64(data, pos + 8), box_type, header_size: 16 })
        } else {
            Some(BoxHeader { size: size as u64, box_type, header_size: 8 })
        }
    }

    pub open spec fn content(&self) -> int {
        if self.size <= self.header_size {
            0
        } else {
            self.size - self.header_size
        }
    }

    /// Bytes after the header: 0 for a box that extends to the end of the
    /// file, or one whose size does not cover its header.
    pub fn content_size(&self) -> (r: u64)
        ensures
            r == self.content(),
    {
        if self.size <= self.header_size as u64 {
            0
        } else {
            self.size - self.header_size as u64
        }
    }

    /// The type as text.
    pub fn type_str(&self) -> (r: String)
        ensures
            valid_utf8(be32_bytes(self.box_type as int)) ==> r@ == decode_utf8(
                be32_bytes(self.box_type as int),
            ),
            !valid_utf8(be32_bytes(self.box_type as int)) ==> r@ == utf8_lossy(
                be32_bytes(self.box_type as int),
            ),
    {
        let mut b: Vec<u8> = Vec::new();
        push_be32(&mut b, self.box_type);
        assert(b@.subrange(0, 4) =~= be32_bytes(self.box_type as int));
        text_from_bytes(b.as_slice(), 0, 4)
    }
}

fn push_be32(out: &mut Vec<u8>, v: u32)
    ensures
        final(out)@ == old(out)@ + be32_bytes(v as int),
{
    out.push((v / 0x1000000) as u8);
    out.push((v / 0x10000 % 0x100) as u8);
    out.push((v / 0x100 % 0x100) as u8);
    out.push((v % 0x100) as u8);
    assert(final(out)@ =~= old(out)@ + be32_bytes(v as int));
}

/// The first top-level box of type `t` at or after `pos`, walking box by
/// box; the walk stops at a box that extends to the end or reaches it.
pub open spec fn find_top(d: Seq<u8>, pos: int, t: u32) -> Option<(int, BoxHeader)>
    decreases d.len() - pos,
{
    match box_header_at(d, pos) {
        None => None,
        Some(h) => if h.box_type == t {
            Some((pos, h))
        } else if h.size == 0 || pos + h.size >= d.len() {
            None
        } else {
            find_top(d, pos + h.size, t)
        },
    }
}

/// Finds the first top-level box of type `box_type`.
pub fn find_box(data: &[u8], box_type: u32) -> (r: Option<(usize, BoxHeader)>)
    ensures
        r matches Some((p, h)) ==> find_top(data@, 0, box_type) == Some((p as int, h)) && p + 8
            <= data@.len() && box_header_at(data@, p as int) == Some(h),
        r is None ==> find_top(data@, 0, box_type) is None,
{
    let n = data.len();
    let mut pos: usize = 0;
    loop
        invariant
            n == data@.len(),
            pos <= n,
            find_top(data@, pos as int, box_type) == find_top(data@, 0, box_type),
        decreases n - pos,
    {
        match BoxHeader::read(data, pos) {
            None => {
                return None;
            },
            Some(h) => {
                if h.box_type == box_type {
                    return Some((pos, h));
                }
                if h.size == 0 || h.size >= (n - pos) as u64 {
                    return None;
                }
                pos = pos + h.size as usize;
            },
        }
    }
}

/// The first box of type `t` among those that start at `pos` and whose
/// headers lie before `end`.
pub open spec fn find_in(d: Seq<u8>, pos: int, end: int, t: u32) -> Option<(int, BoxHeader)>
    decreases end - pos,
{
    if pos + 8 > end {
        None
    } else {
        match box_header_at(d, pos) {
            None => None,
            Some(h) => if h.box_type == t {
                Some((pos, h))
            } else if h.size == 0 || pos + h.size + 8 > end {
                None
            } else {
                find_in(d, pos + h.size, end, t)
            },
        }
    }
}

/// Finds the first box of type `box_type` inside the `container_size` bytes
/// at `container_start`.
pub fn find_box_in_container(
    data: &[u8],
    container_start: usize,
    container_size: usize,
    box_type: u32,
) -> (r: Option<(usize, BoxHeader)>)
    ensures
        r matches Some((p, h)) ==> find_in(
            data@,
            container_start as int,
            container_start + container_size,
            box_type,
        ) == Some((p as int, h)) && p + 8 <= data@.len() && box_header_at(data@, p as int) == Some(h),
        r is None ==> find_in(
            data@,
            container_start as int,
            container_start + container_size,
            box_type,
        ) is None,
{
    let n = data.len();
    let ghost end = container_start + container_size;
    let mut pos: usize = container_start;
    loop
        invariant
            n == data@.len(),
            end == container_start + container_size,
            container_start <= pos,
            find_in(data@, pos as int, end, box_type) == find_in(
                data@,
                container_start as int,
                end,
                box_type,
            ),
        decreases end - pos,
    {
        if pos - container_start > container_size || container_size - (pos - container_start) < 8 {
            return None;
        }
        match BoxHeader::read(data, pos) {
            None => {
                return None;
            },
            Some(h) => {
                if h.box_type == box_type {
                    return Some((pos, h));
                }
                if h.size == 0 {
                    return None;
                }
                if h.size > (container_size - (pos - container_start)) as u64 || h.size > (n
                    - pos) as u64 {
                    assert(pos + h.size + 8 > end ==> find_in(data@, pos as int, end, box_type) is None);
                    assert(pos + h.size + 8 <= end ==> find_in(
                        data@,
                        pos + h.size,
                        end,
                        box_type,
                    ) is None);
                    return None;
                }
                pos = pos + h.size as usize;
            },
        }
    }
}

/// Pushes the size field `base + len`, modulo 2^32.
fn push_size(out: &mut Vec<u8>, base: usize, len: usize)
    ensures
        final(out)@ == old(out)@ + be32_bytes(base + len),
{
    let w = ((base as u128 + len as u128) % 0x1_0000_0000) as u32;
    push_be32(out, w);
    assert(be32_bytes(w as int) =~= be32_bytes(base + len));
}

fn push_zeros(out: &mut Vec<u8>, k: usize)
    ensures
        final(out)@ == old(out)@ + Seq::new(k as nat, |i: int| 0u8),
{
    let ghost start = out@;
    let mut i: usize = 0;
    while i < k
        invariant
            i <= k,
            out@ == start + Seq::new(i as nat, |j: int| 0u8),
        decreases k - i,
    {
        out.push(0);
        i = i + 1;
        assert(out@ =~= start + Seq::new(i as nat, |j: int| 0u8));
    }
}

pub open spec fn zeros(k: nat) -> Seq<u8> {
    Seq::new(k, |i: int| 0u8)
}

/// A box: size, type, content.
pub open spec fn box_bytes(t: u32, content: Seq<u8>) -> Seq<u8> {
    be32_bytes(8int + content.len()) + be32_bytes(t as int) + content
}

/// A freeform item (`----`, iTunes style).
#[derive(Debug)]
pub struct FreeformTag {
    pub namespace: String,
    pub name: String,
    pub value: String,
}

impl View for FreeformTag {
    type V = (Seq<char>, Seq<char>, Seq<char>);

    open spec fn view(&self) -> (Seq<char>, Seq<char>, Seq<char>) {
        (self.namespace@, self.name@, self.value@)
    }
}

/// A freeform item: a `mean` box with the namespace, a `name` box with the
/// name, both after four bytes of version and flags, and a `data` box with
/// four bytes of version and flags, the type 1 (UTF-8 text) and the value.
#[verifier::opaque]
pub open spec fn freeform_bytes(t: (Seq<char>, Seq<char>, Seq<char>)) -> Seq<u8> {
    box_bytes(
        FREEFORM,
        box_bytes(MEAN, zeros(4) + encode_utf8(t.0)) + box_bytes(NAME, zeros(4) + encode_utf8(t.1))
            + box_bytes(DATA, zeros(4) + seq![0u8, 0, 0, 1] + encode_utf8(t.2)),
    )
}

/// Serializes a freeform item.
pub fn serialize_freeform_tag(tag: &FreeformTag) -> (r: Vec<u8>)
    ensures
        r@ == freeform_bytes(tag@),
{
    let mean_data = tag.namespace.as_str().as_bytes();
    let name_data = tag.name.as_str().as_bytes();
    let value_data = tag.value.as_str().as_bytes();
    let mut result: Vec<u8> = Vec::new();
    push_size(&mut result, 12, mean_data.len());
    push_be32(&mut result, MEAN);
    push_zeros(&mut result, 4);
    result.extend_from_slice(mean_data);
    push_size(&mut result, 12, name_data.len());
    push_be32(&mut result, NAME);
    push_zeros(&mut result, 4);
    result.extend_from_slice(name_data);
    push_size(&mut result, 16, value_data.len());
    push_be32(&mut result, DATA);
    push_zeros(&mut result, 4);
    push_be32(&mut result, 1);
    result.extend_from_slice(value_data);
    let mut freeform: Vec<u8> = Vec::new();
    push_size(&mut freeform, 8, result.len());
    push_be32(&mut freeform, FREEFORM);
    freeform.extend_from_slice(result.as_slice());
    assert(be32_bytes(1) =~= seq![0u8, 0, 0, 1]);
    reveal(freeform_bytes);
    assert(freeform@ =~= freeform_bytes(tag@));
    freeform
}

/// The namespace, name and value found in the child boxes of a freeform
/// item from `pos` on, a later box of a kind taking the place of an
/// earlier one; the walk stops at a box that runs past the end.
pub open spec fn freeform_fields(
    d: Seq<u8>,
    pos: int,
    ns: Option<Seq<char>>,
    nm: Option<Seq<char>>,
    v: Option<Seq<char>>,
) -> (Option<Seq<char>>, Option<Seq<char>>, Option<Seq<char>>)
    decreases d.len() - pos,
{
    match box_header_at(d, pos) {
        None => (ns, nm, v),
        Some(h) => {
            let cs = pos + h.header_size;
            let size = h.content();
            if cs + size > d.len() {
                (ns, nm, v)
            } else {
                let ns2 = if h.box_type == MEAN && size > 4 {
                    Some(text_of(d.subrange(cs + 4, cs + size)))
                } else {
                    ns
                };
                let nm2 = if h.box_type == NAME && size > 4 {
                    Some(text_of(d.subrange(cs + 4, cs + size)))
                } else {
                    nm
                };
                let v2 = if h.box_type == DATA && size > 8 {
                    Some(text_of(d.subrange(cs + 8, cs + size)))
                } else {
                    v
                };
                freeform_fields(d, cs + size, ns2, nm2, v2)
            }
        },
    }
}

/// The freeform item whose content is `d`, when it has all three parts.
pub open spec fn freeform_of(d: Seq<u8>) -> Option<(Seq<char>, Seq<char>, Seq<char>)> {
    match freeform_fields(d, 0, None, None, None) {
        (Some(a), Some(b), Some(c)) => Some((a, b, c)),
        _ => None,
    }
}

/// Parses the content of a freeform item.
pub fn parse_freeform_tag(data: &[u8]) -> (r: Option<FreeformTag>)
    ensures
        freeform_of(data@) == (match r {
            Some(t) => Some(t@),
            None => None,
        }),
{
    let n = data.len();
    let mut namespace: Option<String> = None;
    let mut name: Option<String> = None;
    let mut value: Option<String> = None;
    let mut pos: usize = 0;
    loop
        invariant
            n == data@.len(),
            pos <= n,
            freeform_fields(
                data@,
                pos as int,
                match namespace {
                    Some(s) => Some(s@),
                    None => None,
                },
                match name {
                    Some(s) => Some(s@),
                    None => None,
                },
                match value {
                    Some(s) => Some(s@),
                    None => None,
                },
            ) == freeform_fields(data@, 0, None, None, None),
        ensures
            (opt_view(namespace), opt_view(name), opt_view(value)) == freeform_fields(
                data@,
                0,
                None,
                None,
                None,
            ),
        decreases n - pos,
    {
        let h = match BoxHeader::read(data, pos) {
            Some(h) => h,
            None => break,
        };
        let content_start = pos + h.header_size as usize;
        let size64 = h.content_size();
        if size64 > (n - content_start) as u64 {
            break;
        }
        let content_size = size64 as usize;
        if h.box_type == MEAN && content_size > 4 {
            namespace = Some(text_from_bytes(data, content_start + 4, content_start + content_size));
        }
        if h.box_type == NAME && content_size > 4 {
            name = Some(text_from_bytes(data, content_start + 4, content_start + content_size));
        }
        if h.box_type == DATA && content_size > 8 {
            value = Some(text_from_bytes(data, content_start + 8, content_start + content_size));
        }
        pos = content_start + content_size;
    }
    match (namespace, name, value) {
        (Some(a), Some(b), Some(c)) => Some(FreeformTag { namespace: a, name: b, value: c }),
        _ => None,
    }
}

pub open spec fn ascii_lower(c: char) -> int {
    if 'A' <= c <= 'Z' {
        c as u32 + 32
    } else {
        c as u32 as int
    }
}

/// Equal but for the case of ASCII letters.
pub open spec fn ascii_ci_eq(a: Seq<char>, b: Seq<char>) -> bool {
    a.len() == b.len() && forall|i: int| 0 <= i < a.len() ==> ascii_lower(#[trigger] a[i]) == ascii_lower(b[i])
}

/// Relies on `str::eq_ignore_ascii_case`: equal when the texts match char
/// for char after ASCII letters are lowered.
#[verifier::external_body]
fn eq_ignore_ascii_case(a: &str, b: &str) -> (r: bool)
    ensures
        r == ascii_ci_eq(a@, b@),
{
    a.eq_ignore_ascii_case(b)
}

/// A freeform item that holds one of the four ReplayGain values.
pub open spec fn is_replaygain(t: (Seq<char>, Seq<char>, Seq<char>)) -> bool {
    t.0 == ITUNES_NAMESPACE@ && (ascii_ci_eq(t.1, RG_TRACK_GAIN@) || ascii_ci_eq(t.1, RG_TRACK_PEAK@)
        || ascii_ci_eq(t.1, RG_ALBUM_GAIN@) || ascii_ci_eq(t.1, RG_ALBUM_PEAK@))
}

fn is_replaygain_tag(t: &FreeformTag) -> (r: bool)
    ensures
        r == is_replaygain(t@),
{
    let ns = ITUNES_NAMESPACE.to_owned();
    t.namespace == ns && (eq_ignore_ascii_case(t.name.as_str(), RG_TRACK_GAIN)
        || eq_ignore_ascii_case(t.name.as_str(), RG_TRACK_PEAK) || eq_ignore_ascii_case(
        t.name.as_str(),
        RG_ALBUM_GAIN,
    ) || eq_ignore_ascii_case(t.name.as_str(), RG_ALBUM_PEAK))
}

/// The ReplayGain values to store, each as text.
#[derive(Debug)]
pub struct ReplayGainTags {
    pub track_gain: Option<String>,
    pub track_peak: Option<String>,
    pub album_gain: Option<String>,
    pub album_peak: Option<String>,
}

pub open spec fn opt_view(o: Option<String>) -> Option<Seq<char>> {
    match o {
        Some(s) => Some(s@),
        None => None,
    }
}

/// One freeform item for a value that is set.
pub open spec fn rg_item(name: Seq<char>, v: Option<Seq<char>>) -> Seq<(Seq<char>, Seq<char>, Seq<char>)> {
    match v {
        Some(x) => seq![(ITUNES_NAMESPACE@, name, x)],
        None => seq![],
    }
}

impl ReplayGainTags {
    /// No value set.
    pub fn new() -> (r: ReplayGainTags)
        ensures
            r.items() == Seq::<(Seq<char>, Seq<char>, Seq<char>)>::empty(),
            r.track_gain is None && r.track_peak is None && r.album_gain is None && r.album_peak is None,
    {
        ReplayGainTags { track_gain: None, track_peak: None, album_gain: None, album_peak: None }
    }

    /// The freeform items for the values that are set, in the order track
    /// gain, track peak, album gain, album peak.
    pub open spec fn items(&self) -> Seq<(Seq<char>, Seq<char>, Seq<char>)> {
        rg_item(RG_TRACK_GAIN@, opt_view(self.track_gain)) + rg_item(RG_TRACK_PEAK@, opt_view(self.track_peak))
            + rg_item(RG_ALBUM_GAIN@, opt_view(self.album_gain)) + rg_item(RG_ALBUM_PEAK@, opt_view(self.album_peak))
    }

    /// Whether no value is set.
    pub fn is_empty(&self) -> (r: bool)
        ensures
            r == (self.track_gain is None && self.track_peak is None && self.album_gain is None
                && self.album_peak is None),
    {
        self.track_gain.is_none() && self.track_peak.is_none() && self.album_gain.is_none()
            && self.album_peak.is_none()
    }

    /// The freeform items for the values that are set.
    pub fn to_freeform_tags(&self) -> (r: Vec<FreeformTag>)
        ensures
            r@.len() == self.items().len(),
            forall|i: int| 0 <= i < r@.len() ==> (#[trigger] r@[i])@ == self.items()[i],
    {
        let mut tags: Vec<FreeformTag> = Vec::new();
        let ghost a = rg_item(RG_TRACK_GAIN@, opt_view(self.track_gain));
        let ghost b = rg_item(RG_TRACK_PEAK@, opt_view(self.track_peak));
        let ghost c = rg_item(RG_ALBUM_GAIN@, opt_view(self.album_gain));
        let ghost e = rg_item(RG_ALBUM_PEAK@, opt_view(self.album_peak));
        if let Some(v) = &self.track_gain {
            tags.push(FreeformTag { namespace: ITUNES_NAMESPACE.to_owned(), name: RG_TRACK_GAIN.to_owned(), value: v.clone() });
        }
        assert(tags@.len() == a.len());
        assert(forall|i: int| 0 <= i < tags@.len() ==> (#[trigger] tags@[i])@ == a[i]);
        if let Some(v) = &self.track_peak {
            tags.push(FreeformTag { namespace: ITUNES_NAMESPACE.to_owned(), name: RG_TRACK_PEAK.to_owned(), value: v.clone() });
        }
        assert(tags@.len() == (a + b).len());
        assert(forall|i: int| 0 <= i < tags@.len() ==> (#[trigger] tags@[i])@ == (a + b)[i]);
        if let Some(v) = &self.album_gain {
            tags.push(FreeformTag { namespace: ITUNES_NAMESPACE.to_owned(), name: RG_ALBUM_GAIN.to_owned(), value: v.clone() });
        }
        assert(tags@.len() == (a + b + c).len());
        assert(forall|i: int| 0 <= i < tags@.len() ==> (#[trigger] tags@[i])@ == (a + b + c)[i]);
        if let Some(v) = &self.album_peak {
            tags.push(FreeformTag { namespace: ITUNES_NAMESPACE.to_owned(), name: RG_ALBUM_PEAK.to_owned(), value: v.clone() });
        }
        assert(tags@.len() == (a + b + c + e).len());
        assert(forall|i: int| 0 <= i < tags@.len() ==> (#[trigger] tags@[i])@ == (a + b + c + e)[i]);
        tags
    }
}

/// The items of an `ilst` content from `pos` on that are kept: all but the
/// ReplayGain freeform items, up to a box that runs past the end.
pub open spec fn kept_items(e: Seq<u8>, pos: int) -> Seq<u8>
    decreases e.len() - pos,
{
    if pos + 8 > e.len() {
        seq![]
    } else {
        match box_header_at(e, pos) {
            None => seq![],
            Some(h) => if h.size == 0 || pos + h.size > e.len() {
                seq![]
            } else {
                let inner = if h.header_size <= h.size {
                    e.subrange(pos + h.header_size, pos + h.size)
                } else {
                    seq![]
                };
                let rg = h.box_type == FREEFORM && match freeform_of(inner) {
                    Some(t) => is_replaygain(t),
                    None => false,
                };
                (if rg {
                    seq![]
                } else {
                    e.subrange(pos, pos + h.size)
                }) + kept_items(e, pos + h.size)
            },
        }
    }
}

pub open spec fn freeform_list_bytes(s: Seq<(Seq<char>, Seq<char>, Seq<char>)>) -> Seq<u8>
    decreases s.len(),
{
    if s.len() == 0 {
        seq![]
    } else {
        freeform_list_bytes(s.drop_last()) + freeform_bytes(s.last())
    }
}

/// An `ilst` box: the kept items of `existing`, then the new ReplayGain items.
#[verifier::opaque]
pub open spec fn ilst_bytes(tags: Seq<(Seq<char>, Seq<char>, Seq<char>)>, existing: Seq<u8>) -> Seq<u8> {
    box_bytes(ILST, kept_items(existing, 0) + freeform_list_bytes(tags))
}

/// Builds an `ilst` box from the content of an old one and the new values.
pub fn create_ilst_box(tags: &ReplayGainTags, existing_content: &[u8]) -> (r: Vec<u8>)
    ensures
        r@ == ilst_bytes(tags.items(), existing_content@),
{
    let e = existing_content;
    let n = e.len();
    let mut content: Vec<u8> = Vec::new();
    let mut pos: usize = 0;
    loop
        invariant
            n == e@.len(),
            pos <= n,
            content@ + kept_items(e@, pos as int) == kept_items(e@, 0),
        ensures
            content@ == kept_items(e@, 0),
        decreases n - pos,
    {
        if n - pos < 8 {
            assert(content@ =~= content@ + kept_items(e@, pos as int));
            break;
        }
        let h = match BoxHeader::read(e, pos) {
            Some(h) => h,
            None => {
                assert(content@ =~= content@ + kept_items(e@, pos as int));
                break;
            },
        };
        if h.size == 0 || h.size > (n - pos) as u64 {
            assert(content@ =~= content@ + kept_items(e@, pos as int));
            break;
        }
        let size = h.size as usize;
        let is_rg = if h.box_type == FREEFORM {
            let inner = if (h.header_size as usize) <= size {
                slice_subrange(e, pos + h.header_size as usize, pos + size)
            } else {
                slice_subrange(e, pos, pos)
            };
            assert(inner@ =~= (if h.header_size <= h.size {
                e@.subrange(pos + h.header_size, pos + h.size)
            } else {
                seq![]
            }));
            match parse_freeform_tag(inner) {
                Some(t) => is_replaygain_tag(&t),
                None => false,
            }
        } else {
            false
        };
        let ghost before = content@;
        if !is_rg {
            content.extend_from_slice(slice_subrange(e, pos, pos + size));
        }
        assert(content@ + kept_items(e@, pos + size) =~= before + kept_items(e@, pos as int));
        pos = pos + size;
    }
    let list = tags.to_freeform_tags();
    let mut i: usize = 0;
    let ghost kept = content@;
    while i < list.len()
        invariant
            i <= list@.len(),
            list@.len() == tags.items().len(),
            forall|j: int| 0 <= j < list@.len() ==> (#[trigger] list@[j])@ == tags.items()[j],
            content@ == kept + freeform_list_bytes(tags.items().take(i as int)),
        decreases list@.len() - i,
    {
        let b = serialize_freeform_tag(&list[i]);
        content.extend_from_slice(b.as_slice());
        assert(tags.items().take(i + 1).drop_last() =~= tags.items().take(i as int));
        i = i + 1;
        assert(content@ =~= kept + freeform_list_bytes(tags.items().take(i as int)));
    }
    assert(tags.items().take(i as int) =~= tags.items());
    let mut ilst: Vec<u8> = Vec::new();
    push_size(&mut ilst, 8, content.len());
    push_be32(&mut ilst, ILST);
    ilst.extend_from_slice(content.as_slice());
    reveal(ilst_bytes);
    assert(ilst@ =~= ilst_bytes(tags.items(), e@));
    ilst
}

/// The `hdlr` box of a metadata box: handler `mdir`, maker `appl`, empty name.
#[verifier::opaque]
pub open spec fn hdlr_bytes() -> Seq<u8> {
    box_bytes(
        HDLR,
        zeros(8) + be32_bytes(0x6d646972) + be32_bytes(0x6170706c) + zeros(9),
    )
}

pub fn create_hdlr_box() -> (r: Vec<u8>)
    ensures
        r@ == hdlr_bytes(),
{
    let mut hdlr: Vec<u8> = Vec::new();
    push_zeros(&mut hdlr, 8);
    push_be32(&mut hdlr, 0x6d646972);
    push_be32(&mut hdlr, 0x6170706c);
    push_zeros(&mut hdlr, 9);
    let mut result: Vec<u8> = Vec::new();
    push_size(&mut result, 8, hdlr.len());
    push_be32(&mut result, HDLR);
    result.extend_from_slice(hdlr.as_slice());
    reveal(hdlr_bytes);
    assert(result@ =~= hdlr_bytes());
    result
}

/// A `meta` box: version and flags, the `hdlr` box, then `ilst`.
#[verifier::opaque]
pub open spec fn meta_bytes(ilst: Seq<u8>) -> Seq<u8> {
    box_bytes(META, zeros(4) + hdlr_bytes() + ilst)
}

pub fn create_meta_box(ilst: &[u8]) -> (r: Vec<u8>)
    ensures
        r@ == meta_bytes(ilst@),
{
    let hdlr = create_hdlr_box();
    let mut content: Vec<u8> = Vec::new();
    push_zeros(&mut content, 4);
    content.extend_from_slice(hdlr.as_slice());
    content.extend_from_slice(ilst);
    let mut meta: Vec<u8> = Vec::new();
    push_size(&mut meta, 8, content.len());
    push_be32(&mut meta, META);
    meta.extend_from_slice(content.as_slice());
    reveal(meta_bytes);
    assert(meta@ =~= meta_bytes(ilst@));
    meta
}

pub fn create_udta_box(content: &[u8]) -> (r: Vec<u8>)
    ensures
        r@ == box_bytes(UDTA, content@),
{
    let mut udta: Vec<u8> = Vec::new();
    push_size(&mut udta, 8, content.len());
    push_be32(&mut udta, UDTA);
    udta.extend_from_slice(content);
    assert(udta@ =~= box_bytes(UDTA, content@));
    udta
}

/// `d` with the 32-bit size of the box at `pos` changed by `delta` (modulo
/// 2^32); a size of 0 or 1 (to the end, or 64-bit) is left alone.
#[verifier::opaque]
pub open spec fn size_patched(d: Seq<u8>, pos: int, delta: int) -> Seq<u8> {
    if pos < 0 || pos + 4 > d.len() || be32(d, pos) <= 1 {
        d
    } else {
        d.take(pos) + be32_bytes(be32(d, pos) + delta) + d.skip(pos + 4)
    }
}

fn write_be32(data: &mut Vec<u8>, pos: usize, v: u32)
    requires
        pos + 4 <= old(data)@.len(),
    ensures
        final(data)@ == old(data)@.take(pos as int) + be32_bytes(v as int) + old(data)@.skip(
            pos + 4,
        ),
{
    let n = data.len();
    data.set(pos, (v / 0x1000000) as u8);
    data.set(pos + 1, (v / 0x10000 % 0x100) as u8);
    data.set(pos + 2, (v / 0x100 % 0x100) as u8);
    data.set(pos + 3, (v % 0x100) as u8);
    assert(final(data)@ =~= old(data)@.take(pos as int) + be32_bytes(v as int) + old(data)@.skip(
        pos + 4,
    ));
}

/// `t` modulo `m`, in `0..m`.
fn wrap_mod(t: i128, m: i128) -> (r: i128)
    requires
        m > 0,
        t > i128::MIN,
    ensures
        r == (t as int) % (m as int),
        0 <= r < m,
{
    if t >= 0 {
        t % m
    } else {
        let u: i128 = (-t) % m;
        if u == 0 {
            proof {
                lemma_fundamental_div_mod(-t, m as int);
                let q = (-t) / (m as int);
                assert(t == (-q) * m + 0) by (nonlinear_arith)
                    requires
                        -t == m * q + 0,
                ;
                lemma_fundamental_div_mod_converse(t as int, m as int, -q, 0);
            }
            0
        } else {
            proof {
                lemma_fundamental_div_mod(-t, m as int);
                let q = (-t) / (m as int);
                assert(t == (-(q + 1)) * m + (m - u)) by (nonlinear_arith)
                    requires
                        -t == m * q + u,
                ;
                lemma_fundamental_div_mod_converse(t as int, m as int, -(q + 1), (m - u) as int);
            }
            m - u
        }
    }
}

/// Changes the 32-bit size of the box at `box_pos` by `size_diff`.
pub fn update_box_size(data: &mut Vec<u8>, box_pos: usize, size_diff: i128)
    requires
        -0x1_0000_0000_0000_0000 <= size_diff <= 0x1_0000_0000_0000_0000,
    ensures
        final(data)@ == size_patched(old(data)@, box_pos as int, size_diff as int),
{
    reveal(size_patched);
    let n = data.len();
    if box_pos > n || n - box_pos < 4 {
        return;
    }
    let current = read_be32(data.as_slice(), box_pos);
    if current <= 1 {
        return;
    }
    let m = wrap_mod(current as i128 + size_diff, 0x1_0000_0000);
    write_be32(data, box_pos, m as u32);
    assert(be32_bytes(m as int) =~= be32_bytes(current + size_diff));
}

/// One chunk-offset entry: where it is, and whether it is 64-bit.
#[derive(Debug, Clone, Copy, PartialEq, Eq, Structural)]
pub struct ChunkEntry {
    pub pos: usize,
    pub wide: bool,
}

/// The entries of the `stco` (or, `wide`, `co64`) box at `pos` of `size`
/// bytes: as many as its count says, of those that lie inside the box.
pub open spec fn table_entries(d: Seq<u8>, pos: int, size: int, wide: bool) -> Seq<ChunkEntry> {
    let w: int = if wide {
        8
    } else {
        4
    };
    if size < 16 {
        seq![]
    } else {
        let fit = (size - 16) / w;
        let count = be32(d, pos + 12);
        Seq::new(
            (if count < fit {
                count
            } else {
                fit
            }) as nat,
            |k: int| ChunkEntry { pos: (pos + 16 + w * k) as usize, wide },
        )
    }
}

pub open spec fn is_container(t: int) -> bool {
    t == TRAK || t == MDIA || t == MINF || t == STBL || t == MOOV || t == UDTA
}

/// The chunk-offset entries in the boxes from `pos` to `end`, looking into
/// `trak`, `mdia`, `minf`, `stbl`, `moov` and `udta`; the walk stops at a
/// box of size 0 or one that runs past `end`.
pub open spec fn entries_from(d: Seq<u8>, pos: int, end: int) -> Seq<ChunkEntry>
    decreases end - pos,
{
    if pos < 0 || pos + 8 > end || end > d.len() {
        seq![]
    } else {
        let size = be32(d, pos);
        let t = be32(d, pos + 4);
        if size == 0 || pos + size > end {
            seq![]
        } else {
            let here = if t == STCO {
                table_entries(d, pos, size, false)
            } else if t == CO64 {
                table_entries(d, pos, size, true)
            } else if is_container(t) && size >= 8 {
                entries_from(d, pos + 8, pos + size)
            } else {
                seq![]
            };
            here + entries_from(d, pos + size, end)
        }
    }
}

pub open spec fn be64_bytes(v: int) -> Seq<u8> {
    let w = v % 0x1_0000_0000_0000_0000;
    be32_bytes(w / 0x1_0000_0000) + be32_bytes(w % 0x1_0000_0000)
}

/// `d` with each entry, in order, moved by `delta` modulo its width.
pub open spec fn entries_shifted(d: Seq<u8>, es: Seq<ChunkEntry>, delta: int) -> Seq<u8>
    decreases es.len(),
{
    if es.len() == 0 {
        d
    } else {
        let prev = entries_shifted(d, es.drop_last(), delta);
        let e = es.last();
        let p = e.pos as int;
        if e.wide {
            if p + 8 > prev.len() {
                prev
            } else {
                prev.take(p) + be64_bytes(be64(prev, p) + delta) + prev.skip(p + 8)
            }
        } else {
            if p + 4 > prev.len() {
                prev
            } else {
                prev.take(p) + be32_bytes(be32(prev, p) + delta) + prev.skip(p + 4)
            }
        }
    }
}

fn collect_offsets(data: &[u8], start: usize, end: usize, out: &mut Vec<ChunkEntry>)
    requires
        end <= data@.len(),
    ensures
        final(out)@ == old(out)@ + entries_from(data@, start as int, end as int),
    decreases end - start,
{
    let ghost base = out@;
    let mut pos = start;
    loop
        invariant
            end <= data@.len(),
            start <= pos,
            out@ + entries_from(data@, pos as int, end as int) == base + entries_from(
                data@,
                start as int,
                end as int,
            ),
        ensures
            out@ == base + entries_from(data@, start as int, end as int),
        decreases end - pos,
    {
        if pos > end || end - pos < 8 {
            assert(out@ =~= out@ + entries_from(data@, pos as int, end as int));
            break;
        }
        let size = read_be32(data, pos) as usize;
        let box_type = read_be32(data, pos + 4);
        if size == 0 || size > end - pos {
            assert(out@ =~= out@ + entries_from(data@, pos as int, end as int));
            break;
        }
        let ghost before = out@;
        if box_type == STCO || box_type == CO64 {
            let wide = box_type == CO64;
            let w: usize = if wide {
                8
            } else {
                4
            };
            if size >= 16 {
                let count = read_be32(data, pos + 12) as usize;
                let fit = (size - 16) / w;
                let k_max = if count < fit {
                    count
                } else {
                    fit
                };
                let ghost tbl = table_entries(data@, pos as int, size as int, wide);
                assert(tbl.len() == k_max);
                let mut k: usize = 0;
                while k < k_max
                    invariant
                        k <= k_max,
                        tbl.len() == k_max,
                        tbl == table_entries(data@, pos as int, size as int, wide),
                        w == (if wide { 8int } else { 4 }),
                        k_max <= (size - 16) / (w as int),
                        pos + size <= end,
                        out@ == before + tbl.take(k as int),
                    decreases k_max - k,
                {
                    assert(w * k <= size - 16) by (nonlinear_arith)
                        requires
                            k < k_max,
                            k_max <= (size - 16) / (w as int),
                            w > 0,
                    ;
                    out.push(ChunkEntry { pos: pos + 16 + w * k, wide });
                    k = k + 1;
                    assert(out@ =~= before + tbl.take(k as int));
                }
                assert(tbl.take(k as int) =~= tbl);
            } else {
                assert(out@ =~= before + table_entries(data@, pos as int, size as int, wide));
            }
        } else if (box_type == TRAK || box_type == MDIA || box_type == MINF || box_type == STBL
            || box_type == MOOV || box_type == UDTA) && size >= 8 {
            collect_offsets(data, pos + 8, pos + size, out);
        } else {
            assert(out@ =~= before + Seq::<ChunkEntry>::empty());
        }
        assert(out@ + entries_from(data@, pos + size, end as int) =~= before + entries_from(
            data@,
            pos as int,
            end as int,
        ));
        pos = pos + size;
    }
}

fn apply_shifts(data: &mut Vec<u8>, es: &Vec<ChunkEntry>, delta: i128)
    requires
        -0x1_0000_0000_0000_0000 <= delta <= 0x1_0000_0000_0000_0000,
    ensures
        final(data)@ == entries_shifted(old(data)@, es@, delta as int),
{
    let ghost start = data@;
    let mut i: usize = 0;
    while i < es.len()
        invariant
            i <= es@.len(),
            -0x1_0000_0000_0000_0000 <= delta <= 0x1_0000_0000_0000_0000,
            data@ == entries_shifted(start, es@.take(i as int), delta as int),
        decreases es@.len() - i,
    {
        let e = es[i];
        assert(es@.take(i + 1).drop_last() =~= es@.take(i as int));
        let n = data.len();
        if e.wide {
            if e.pos <= n && n - e.pos >= 8 {
                let cur = read_be64(data.as_slice(), e.pos);
                let m = wrap_mod(cur as i128 + delta, 0x1_0000_0000_0000_0000);
                let ghost before = data@;
                write_be32(data, e.pos, (m / 0x1_0000_0000) as u32);
                write_be32(data, e.pos + 4, (m % 0x1_0000_0000) as u32);
                assert(data@ =~= before.take(e.pos as int) + be64_bytes(cur + delta) + before.skip(e.pos + 8));
            }
        } else {
            if e.pos <= n && n - e.pos >= 4 {
                let cur = read_be32(data.as_slice(), e.pos);
                let m = wrap_mod(cur as i128 + delta, 0x1_0000_0000);
                write_be32(data, e.pos, m as u32);
                assert(be32_bytes(m as int) =~= be32_bytes(cur + delta));
            }
        }
        i = i + 1;
    }
    assert(es@.take(i as int) =~= es@);
}

/// `b` with the chunk offsets inside the `moov` box at `moov_pos` moved by
/// `delta`.
pub open spec fn offsets_updated(b: Seq<u8>, moov_pos: int, delta: int) -> Seq<u8> {
    match find_top(b, 0, MOOV) {
        None => b,
        Some((_, h)) => {
            let end = if moov_pos + h.size > b.len() {
                b.len() as int
            } else {
                moov_pos + h.size
            };
            entries_shifted(b, entries_from(b, moov_pos + 8, end), delta)
        },
    }
}

/// Moves every chunk offset inside the `moov` box at `moov_pos` by
/// `size_diff`.
pub fn update_chunk_offsets(data: &mut Vec<u8>, moov_pos: usize, size_diff: i128)
    requires
        -0x1_0000_0000_0000_0000 <= size_diff <= 0x1_0000_0000_0000_0000,
    ensures
        final(data)@ == offsets_updated(old(data)@, moov_pos as int, size_diff as int),
{
    let n = data.len();
    let h = match find_box(data.as_slice(), MOOV) {
        Some((_, h)) => h,
        None => return,
    };
    let end: usize = if moov_pos as u64 > n as u64 || h.size > (n - moov_pos) as u64 {
        n
    } else {
        moov_pos + h.size as usize
    };
    if moov_pos <= usize::MAX - 8 {
        update_offsets_recursive(data, moov_pos + 8, end, size_diff);
    } else {
        assert(entries_from(old(data)@, moov_pos + 8, end as int) =~= Seq::<ChunkEntry>::empty());
    }
}

/// Moves by `size_diff` every chunk offset in the boxes from `start` to
/// `end`. The entries are found first: the walk reads box headers and
/// entry counts only, which the moves leave as they are.
pub fn update_offsets_recursive(data: &mut Vec<u8>, start: usize, end: usize, size_diff: i128)
    requires
        end <= old(data)@.len(),
        -0x1_0000_0000_0000_0000 <= size_diff <= 0x1_0000_0000_0000_0000,
    ensures
        final(data)@ == entries_shifted(
            old(data)@,
            entries_from(old(data)@, start as int, end as int),
            size_diff as int,
        ),
{
    let mut es: Vec<ChunkEntry> = Vec::new();
    collect_offsets(data.as_slice(), start, end, &mut es);
    apply_shifts(data, &es, size_diff);
}

/// Where the metadata path ends inside `moov`.
#[derive(Debug, Clone, Copy, PartialEq, Eq, Structural)]
pub enum IlstLocation {
    /// An `ilst` exists, inside the `meta` and `udta` at these offsets.
    Existing { ilst_pos: usize, ilst_size: u64, meta_pos: usize, udta_pos: usize },
    /// A `udta` exists, without `meta/ilst`.
    NeedsMeta { udta_pos: usize, udta_size: u64 },
    /// No `udta` exists.
    NeedsUdta,
}

pub open spec fn meta_content_size(h: BoxHeader) -> int {
    if h.content() >= 4 {
        h.content() - 4
    } else {
        0
    }
}

/// The end of the metadata path found in the `moov` content at `mcs` of
/// `mcsize` bytes.
pub open spec fn locate_ilst(d: Seq<u8>, mcs: int, mcsize: int) -> IlstLocation {
    match find_in(d, mcs, mcs + mcsize, UDTA) {
        None => IlstLocation::NeedsUdta,
        Some((up, uh)) => {
            let ucs = up + uh.header_size;
            match find_in(d, ucs, ucs + uh.content(), META) {
                None => IlstLocation::NeedsMeta { udta_pos: up as usize, udta_size: uh.size },
                Some((mp, mh)) => {
                    let ics = mp + mh.header_size + 4;
                    match find_in(d, ics, ics + meta_content_size(mh), ILST) {
                        None => IlstLocation::NeedsMeta { udta_pos: up as usize, udta_size: uh.size },
                        Some((ip, ih)) => IlstLocation::Existing {
                            ilst_pos: ip as usize,
                            ilst_size: ih.size,
                            meta_pos: mp as usize,
                            udta_pos: up as usize,
                        },
                    }
                },
            }
        },
    }
}

/// The file with the new `ilst` in place and the sizes of its ancestors
/// grown, before chunk offsets are moved.
pub open spec fn spliced(
    d: Seq<u8>,
    tags: Seq<(Seq<char>, Seq<char>, Seq<char>)>,
    moov_pos: int,
    moov_end: int,
    loc: IlstLocation,
) -> Result<Seq<u8>, Mp4Error> {
    match loc {
        IlstLocation::Existing { ilst_pos, ilst_size, meta_pos, udta_pos } => {
            let ip = ilst_pos as int;
            match box_header_at(d, ip) {
                None => Err(Mp4Error::Malformed),
                Some(ih) => {
                    let cs = ip + ih.header_size;
                    if ip + ilst_size > d.len() || cs + ih.content() > d.len() {
                        Err(Mp4Error::Malformed)
                    } else {
                        let existing = d.subrange(cs, cs + ih.content());
                        let new_ilst = ilst_bytes(tags, existing);
                        let delta = new_ilst.len() - ilst_size;
                        let body = d.take(ip) + new_ilst + d.skip(ip + ilst_size);
                        Ok(
                            size_patched(
                                size_patched(
                                    size_patched(body, moov_pos, delta),
                                    udta_pos as int,
                                    delta,
                                ),
                                meta_pos as int,
                                delta,
                            ),
                        )
                    }
                },
            }
        },
        IlstLocation::NeedsMeta { udta_pos, udta_size } => {
            let at = udta_pos + udta_size;
            if at > d.len() {
                Err(Mp4Error::Malformed)
            } else {
                let meta = meta_bytes(ilst_bytes(tags, seq![]));
                let body = d.take(at) + meta + d.skip(at);
                Ok(size_patched(size_patched(body, moov_pos, meta.len() as int), udta_pos as int, meta.len() as int))
            }
        },
        IlstLocation::NeedsUdta => {
            if moov_end > d.len() {
                Err(Mp4Error::Malformed)
            } else {
                let udta = box_bytes(UDTA, meta_bytes(ilst_bytes(tags, seq![])));
                let body = d.take(moov_end) + udta + d.skip(moov_end);
                Ok(size_patched(body, moov_pos, udta.len() as int))
            }
        },
    }
}

/// The file with the ReplayGain items `tags` in its metadata: the other
/// items kept, the missing boxes of the path created, ancestor sizes grown,
/// and, when `moov` comes before `mdat` and the length changed, every chunk
/// offset inside `moov` moved by the change.
pub open spec fn rebuilt(d: Seq<u8>, tags: Seq<(Seq<char>, Seq<char>, Seq<char>)>) -> Result<
    Seq<u8>,
    Mp4Error,
> {
    match find_top(d, 0, MOOV) {
        None => Err(Mp4Error::NoMoov),
        Some((mp, mh)) => if mp + mh.size > d.len() {
            Err(Mp4Error::Malformed)
        } else {
            let loc = locate_ilst(d, mp + mh.header_size, mh.content());
            match spliced(d, tags, mp, mp + mh.size, loc) {
                Err(e) => Err(e),
                Ok(b) => Ok(
                    if (match find_top(d, 0, MDAT) {
                        Some((xp, _)) => xp > mp,
                        None => false,
                    }) && b.len() != d.len() {
                        offsets_updated(b, mp, b.len() - d.len())
                    } else {
                        b
                    },
                ),
            }
        },
    }
}

proof fn lemma_find_in_clamp(d: Seq<u8>, pos: int, end: int, t: u32)
    requires
        end >= d.len(),
    ensures
        find_in(d, pos, end, t) == find_in(d, pos, d.len() as int, t),
    decreases end - pos,
{
    if pos + 8 <= d.len() {
        match box_header_at(d, pos) {
            None => {},
            Some(h) => {
                if h.box_type != t && h.size != 0 && pos + h.size + 8 <= end {
                    lemma_find_in_clamp(d, pos + h.size, end, t);
                }
            },
        }
    }
}

/// Looks for a box inside a container whose content may claim more bytes
/// than `data` has.
fn find_in_content(data: &[u8], start: usize, size: u64, box_type: u32) -> (r: Option<(usize, BoxHeader)>)
    requires
        start <= data@.len(),
    ensures
        r matches Some((p, h)) ==> find_in(data@, start as int, start + size, box_type) == Some(
            (p as int, h),
        ) && box_header_at(data@, p as int) == Some(h),
        r is None ==> find_in(data@, start as int, start + size, box_type) is None,
{
    let n = data.len();
    if size > (n - start) as u64 {
        proof {
            lemma_find_in_clamp(data@, start as int, start + size, box_type);
        }
        find_box_in_container(data, start, n - start, box_type)
    } else {
        find_box_in_container(data, start, size as usize, box_type)
    }
}

/// Finds where the metadata path ends inside the `moov` content.
fn create_or_update_ilst(data: &[u8], moov_content_start: usize, moov_content_size: u64) -> (r:
    IlstLocation)
    requires
        moov_content_start <= data@.len(),
    ensures
        r == locate_ilst(data@, moov_content_start as int, moov_content_size as int),
{
    let n = data.len();
    let (udta_pos, udta_header) = match find_in_content(data, moov_content_start, moov_content_size, UDTA) {
        Some(x) => x,
        None => return IlstLocation::NeedsUdta,
    };
    let udta_content_start = udta_pos + udta_header.header_size as usize;
    let (meta_pos, meta_header) = match find_in_content(data, udta_content_start, udta_header.content_size(), META) {
        Some(x) => x,
        None => return IlstLocation::NeedsMeta { udta_pos, udta_size: udta_header.size },
    };
    let mc = meta_header.content_size();
    let meta_content_size: u64 = if mc >= 4 {
        mc - 4
    } else {
        0
    };
    let meta_header_end = meta_pos + meta_header.header_size as usize;
    if n - meta_header_end < 4 {
        return IlstLocation::NeedsMeta { udta_pos, udta_size: udta_header.size };
    }
    let meta_content_start = meta_header_end + 4;
    let (ilst_pos, ilst_header) = match find_in_content(data, meta_content_start, meta_content_size, ILST) {
        Some(x) => x,
        None => return IlstLocation::NeedsMeta { udta_pos, udta_size: udta_header.size },
    };
    IlstLocation::Existing { ilst_pos, ilst_size: ilst_header.size, meta_pos, udta_pos }
}

fn splice_existing(
    data: &[u8],
    tags: &ReplayGainTags,
    moov_pos: usize,
    moov_end: usize,
    loc: IlstLocation,
) -> (r: Result<Vec<u8>, Mp4Error>)
    requires
        moov_end <= data@.len(),
        loc is Existing,
    ensures
        spliced(data@, tags.items(), moov_pos as int, moov_end as int, loc) == (match r {
            Ok(b) => Ok(b@),
            Err(e) => Err(e),
        }),
{
    let n = data.len();
    let (ilst_pos, ilst_size, meta_pos, udta_pos) = match loc {
        IlstLocation::Existing { ilst_pos, ilst_size, meta_pos, udta_pos } => (ilst_pos, ilst_size, meta_pos, udta_pos),
        _ => (0, 0, 0, 0),
    };
    if ilst_pos > n || ilst_size > (n - ilst_pos) as u64 {
        return Err(Mp4Error::Malformed);
    }
    let ih = match BoxHeader::read(data, ilst_pos) {
        Some(h) => h,
        None => return Err(Mp4Error::Malformed),
    };
    let cs = ilst_pos + ih.header_size as usize;
    let csize = ih.content_size();
    if cs > n || csize > (n - cs) as u64 {
        return Err(Mp4Error::Malformed);
    }
    let new_ilst = create_ilst_box(tags, slice_subrange(data, cs, cs + csize as usize));
    let ilst_end = ilst_pos + ilst_size as usize;
    let mut result: Vec<u8> = Vec::new();
    copy_range(&mut result, data, 0, ilst_pos);
    result.extend_from_slice(new_ilst.as_slice());
    copy_range(&mut result, data, ilst_end, n);
    assert(result@ =~= data@.take(ilst_pos as int) + new_ilst@ + data@.skip(ilst_end as int));
    let size_diff = new_ilst.len() as i128 - ilst_size as i128;
    update_box_size(&mut result, moov_pos, size_diff);
    update_box_size(&mut result, udta_pos, size_diff);
    update_box_size(&mut result, meta_pos, size_diff);
    Ok(result)
}

fn splice_needs_meta(
    data: &[u8],
    tags: &ReplayGainTags,
    moov_pos: usize,
    moov_end: usize,
    loc: IlstLocation,
) -> (r: Result<Vec<u8>, Mp4Error>)
    requires
        moov_end <= data@.len(),
        loc is NeedsMeta,
    ensures
        spliced(data@, tags.items(), moov_pos as int, moov_end as int, loc) == (match r {
            Ok(b) => Ok(b@),
            Err(e) => Err(e),
        }),
{
    let n = data.len();
    let (udta_pos, udta_size) = match loc {
        IlstLocation::NeedsMeta { udta_pos, udta_size } => (udta_pos, udta_size),
        _ => (0, 0),
    };
    if udta_pos > n || udta_size > (n - udta_pos) as u64 {
        return Err(Mp4Error::Malformed);
    }
    let empty: Vec<u8> = Vec::new();
    let ilst = create_ilst_box(tags, empty.as_slice());
    assert(empty@ =~= Seq::<u8>::empty());
    let meta_box = create_meta_box(ilst.as_slice());
    let udta_end = udta_pos + udta_size as usize;
    let mut result: Vec<u8> = Vec::new();
    copy_range(&mut result, data, 0, udta_end);
    result.extend_from_slice(meta_box.as_slice());
    copy_range(&mut result, data, udta_end, n);
    assert(result@ =~= data@.take(udta_end as int) + meta_box@ + data@.skip(udta_end as int));
    let size_diff = meta_box.len() as i128;
    update_box_size(&mut result, moov_pos, size_diff);
    update_box_size(&mut result, udta_pos, size_diff);
    Ok(result)
}

fn splice_needs_udta(
    data: &[u8],
    tags: &ReplayGainTags,
    moov_pos: usize,
    moov_end: usize,
) -> (r: Vec<u8>)
    requires
        moov_end <= data@.len(),
    ensures
        spliced(data@, tags.items(), moov_pos as int, moov_end as int, IlstLocation::NeedsUdta)
            == Ok::<Seq<u8>, Mp4Error>(r@),
{
    let n = data.len();
    let empty: Vec<u8> = Vec::new();
    let ilst = create_ilst_box(tags, empty.as_slice());
    assert(empty@ =~= Seq::<u8>::empty());
    let meta_box = create_meta_box(ilst.as_slice());
    let udta_box = create_udta_box(meta_box.as_slice());
    let mut result: Vec<u8> = Vec::new();
    copy_range(&mut result, data, 0, moov_end);
    result.extend_from_slice(udta_box.as_slice());
    copy_range(&mut result, data, moov_end, n);
    assert(result@ =~= data@.take(moov_end as int) + udta_box@ + data@.skip(moov_end as int));
    update_box_size(&mut result, moov_pos, udta_box.len() as i128);
    result
}

/// Puts the new `ilst` in place and grows the sizes of its ancestors.
fn splice(data: &[u8], tags: &ReplayGainTags, moov_pos: usize, moov_end: usize, loc: IlstLocation) -> (r: Result<Vec<u8>, Mp4Error>)
    requires
        moov_end <= data@.len(),
    ensures
        spliced(data@, tags.items(), moov_pos as int, moov_end as int, loc) == (match r {
            Ok(b) => Ok(b@),
            Err(e) => Err(e),
        }),
{
    match loc {
        IlstLocation::Existing { .. } => splice_existing(data, tags, moov_pos, moov_end, loc),
        IlstLocation::NeedsMeta { .. } => splice_needs_meta(data, tags, moov_pos, moov_end, loc),
        IlstLocation::NeedsUdta => Ok(splice_needs_udta(data, tags, moov_pos, moov_end)),
    }
}

/// Writes the ReplayGain items `tags` into the metadata of the MP4 file
/// `data`; fails without a `moov` box, or when a box of the metadata path
/// runs past the end of the file.
pub fn update_mp4_metadata(data: &[u8], tags: &ReplayGainTags) -> (r: Result<Vec<u8>, Mp4Error>)
    ensures
        rebuilt(data@, tags.items()) == (match r {
            Ok(b) => Ok(b@),
            Err(e) => Err(e),
        }),
{
    let n = data.len();
    let (moov_pos, moov_header) = match find_box(data, MOOV) {
        Some(x) => x,
        None => return Err(Mp4Error::NoMoov),
    };
    if moov_header.size > (n - moov_pos) as u64 {
        return Err(Mp4Error::Malformed);
    }
    let moov_end = moov_pos + moov_header.size as usize;
    let moov_content_start = moov_pos + moov_header.header_size as usize;
    if moov_content_start > n {
        return Err(Mp4Error::Malformed);
    }
    let loc = create_or_update_ilst(data, moov_content_start, moov_header.content_size());
    let mut result = match splice(data, tags, moov_pos, moov_end, loc) {
        Ok(b) => b,
        Err(e) => return Err(e),
    };
    let moov_first = match find_box(data, MDAT) {
        Some((mdat_pos, _)) => mdat_pos > moov_pos,
        None => false,
    };
    if moov_first && result.len() != n {
        let size_diff = result.len() as i128 - n as i128;
        update_chunk_offsets(&mut result, moov_pos, size_diff);
    }
    Ok(result)
}

fn copy_range(out: &mut Vec<u8>, data: &[u8], start: usize, end: usize)
    requires
        start <= end <= data@.len(),
    ensures
        final(out)@ == old(out)@ + data@.subrange(start as int, end as int),
{
    out.extend_from_slice(slice_subrange(data, start, end));
}

/// The four values read so far: track gain, track peak, album gain, album peak.
pub open spec fn with_item(
    acc: (Option<Seq<char>>, Option<Seq<char>>, Option<Seq<char>>, Option<Seq<char>>),
    t: (Seq<char>, Seq<char>, Seq<char>),
) -> (Option<Seq<char>>, Option<Seq<char>>, Option<Seq<char>>, Option<Seq<char>>) {
    if t.0 != ITUNES_NAMESPACE@ {
        acc
    } else if ascii_ci_eq(t.1, RG_TRACK_GAIN@) {
        (Some(t.2), acc.1, acc.2, acc.3)
    } else if ascii_ci_eq(t.1, RG_TRACK_PEAK@) {
        (acc.0, Some(t.2), acc.2, acc.3)
    } else if ascii_ci_eq(t.1, RG_ALBUM_GAIN@) {
        (acc.0, acc.1, Some(t.2), acc.3)
    } else if ascii_ci_eq(t.1, RG_ALBUM_PEAK@) {
        (acc.0, acc.1, acc.2, Some(t.2))
    } else {
        acc
    }
}

/// The values held by the freeform items from `pos` on, before `end`; a
/// later item of a key takes the place of an earlier one.
pub open spec fn values_from(
    d: Seq<u8>,
    pos: int,
    end: int,
    acc: (Option<Seq<char>>, Option<Seq<char>>, Option<Seq<char>>, Option<Seq<char>>),
) -> (Option<Seq<char>>, Option<Seq<char>>, Option<Seq<char>>, Option<Seq<char>>)
    decreases end - pos,
{
    if pos + 8 > end {
        acc
    } else {
        match box_header_at(d, pos) {
            None => acc,
            Some(h) => {
                let acc2 = if h.box_type == FREEFORM && h.header_size <= h.size && pos + h.size
                    <= d.len() {
                    match freeform_of(d.subrange(pos + h.header_size, pos + h.size)) {
                        Some(t) => with_item(acc, t),
                        None => acc,
                    }
                } else {
                    acc
                };
                if h.size == 0 || pos + h.size + 8 > end {
                    acc2
                } else {
                    values_from(d, pos + h.size, end, acc2)
                }
            },
        }
    }
}

/// The ReplayGain values stored in the file: none without the whole
/// `moov/udta/meta/ilst` path.
pub open spec fn stored_values(d: Seq<u8>) -> (
    Option<Seq<char>>,
    Option<Seq<char>>,
    Option<Seq<char>>,
    Option<Seq<char>>,
) {
    match find_top(d, 0, MOOV) {
        None => (None, None, None, None),
        Some((mp, mh)) => match locate_ilst(d, mp + mh.header_size, mh.content()) {
            IlstLocation::Existing { ilst_pos, .. } => match box_header_at(d, ilst_pos as int) {
                Some(ih) => values_from(
                    d,
                    ilst_pos + ih.header_size,
                    ilst_pos + ih.header_size + ih.content(),
                    (None, None, None, None),
                ),
                None => (None, None, None, None),
            },
            _ => (None, None, None, None),
        },
    }
}

impl ReplayGainTags {
    pub open spec fn values(&self) -> (
        Option<Seq<char>>,
        Option<Seq<char>>,
        Option<Seq<char>>,
        Option<Seq<char>>,
    ) {
        (
            opt_view(self.track_gain),
            opt_view(self.track_peak),
            opt_view(self.album_gain),
            opt_view(self.album_peak),
        )
    }
}

fn read_values(data: &[u8], start: usize, end: usize, tags: &mut ReplayGainTags)
    requires
        start <= end <= data@.len(),
    ensures
        final(tags).values() == values_from(data@, start as int, end as int, old(tags).values()),
{
    let ghost init = tags.values();
    let mut pos = start;
    loop
        invariant
            start <= pos,
            end <= data@.len(),
            values_from(data@, pos as int, end as int, tags.values()) == values_from(
                data@,
                start as int,
                end as int,
                init,
            ),
        ensures
            tags.values() == values_from(data@, start as int, end as int, init),
        decreases end - pos,
    {
        if pos > end || end - pos < 8 {
            break;
        }
        let h = match BoxHeader::read(data, pos) {
            Some(h) => h,
            None => break,
        };
        let ghost acc = tags.values();
        if h.box_type == FREEFORM && (h.header_size as u64) <= h.size && h.size <= (data.len()
            - pos) as u64 {
            let inner = slice_subrange(data, pos + h.header_size as usize, pos + h.size as usize);
            match parse_freeform_tag(inner) {
                Some(t) => {
                    let ns = ITUNES_NAMESPACE.to_owned();
                    if t.namespace == ns {
                        if eq_ignore_ascii_case(t.name.as_str(), RG_TRACK_GAIN) {
                            tags.track_gain = Some(t.value);
                        } else if eq_ignore_ascii_case(t.name.as_str(), RG_TRACK_PEAK) {
                            tags.track_peak = Some(t.value);
                        } else if eq_ignore_ascii_case(t.name.as_str(), RG_ALBUM_GAIN) {
                            tags.album_gain = Some(t.value);
                        } else if eq_ignore_ascii_case(t.name.as_str(), RG_ALBUM_PEAK) {
                            tags.album_peak = Some(t.value);
                        }
                    }
                },
                None => {},
            }
        }
        if h.size == 0 || h.size > (end - pos) as u64 || (end - pos) - (h.size as usize) < 8 {
            break;
        }
        pos = pos + h.size as usize;
    }
}

/// Reads the ReplayGain values stored in the metadata of the MP4 file `data`.
pub fn read_replaygain_tags(data: &[u8]) -> (r: ReplayGainTags)
    ensures
        r.values() == stored_values(data@),
{
    let n = data.len();
    let mut tags = ReplayGainTags::new();
    let (moov_pos, moov_header) = match find_box(data, MOOV) {
        Some(x) => x,
        None => return tags,
    };
    let moov_content_start = moov_pos + moov_header.header_size as usize;
    let loc = create_or_update_ilst(data, moov_content_start, moov_header.content_size());
    match loc {
        IlstLocation::Existing { ilst_pos, .. } => {
            let ih = match BoxHeader::read(data, ilst_pos) {
                Some(h) => h,
                None => return tags,
            };
            let cs = ilst_pos + ih.header_size as usize;
            let csize = ih.content_size();
            let end = if csize > (n - cs) as u64 {
                n
            } else {
                cs + csize as usize
            };
            proof {
                if cs + csize > n {
                    lemma_values_clamp(data@, cs as int, cs + csize, tags.values());
                }
            }
            read_values(data, cs, end, &mut tags);
            tags
        },
        _ => tags,
    }
}

proof fn lemma_values_clamp(
    d: Seq<u8>,
    pos: int,
    end: int,
    acc: (Option<Seq<char>>, Option<Seq<char>>, Option<Seq<char>>, Option<Seq<char>>),
)
    requires
        end >= d.len(),
    ensures
        values_from(d, pos, end, acc) == values_from(d, pos, d.len() as int, acc),
    decreases end - pos,
{
    if pos + 8 <= d.len() {
        match box_header_at(d, pos) {
            None => {},
            Some(h) => {
                let acc2 = if h.box_type == FREEFORM && h.header_size <= h.size && pos + h.size
                    <= d.len() {
                    match freeform_of(d.subrange(pos + h.header_size, pos + h.size)) {
                        Some(t) => with_item(acc, t),
                        None => acc,
                    }
                } else {
                    acc
                };
                if h.size != 0 && pos + h.size + 8 <= end {
                    lemma_values_clamp(d, pos + h.size, end, acc2);
                }
            },
        }
    }
}

/// Writes the ReplayGain values `tags` into the MP4 file `data`.
pub fn write_replaygain_tags(data: &[u8], tags: &ReplayGainTags) -> (r: Result<Vec<u8>, Mp4Error>)
    ensures
        rebuilt(data@, tags.items()) == (match r {
            Ok(b) => Ok(b@),
            Err(e) => Err(e),
        }),
{
    update_mp4_metadata(data, tags)
}

/// Removes the ReplayGain values from the MP4 file `data`.
pub fn delete_replaygain_tags(data: &[u8]) -> (r: Result<Vec<u8>, Mp4Error>)
    ensures
        rebuilt(data@, Seq::empty()) == (match r {
            Ok(b) => Ok(b@),
            Err(e) => Err(e),
        }),
{
    let empty = ReplayGainTags::new();
    update_mp4_metadata(data, &empty)
}

/// The file starts with an `ftyp` box of at least 12 bytes whose major
/// brand is one of `M4A `, `M4B `, `M4P `, `M4V `, `mp41`, `mp42`, `isom`,
/// `iso2`.
pub open spec fn is_mp4(d: Seq<u8>) -> bool {
    d.len() >= 12 && be32(d, 4) == 0x66747970 && be32(d, 0) >= 12 && {
        let b = be32(d, 8);
        b == 0x4d344120 || b == 0x4d344220 || b == 0x4d345020 || b == 0x4d345620 || b == 0x6d703431
            || b == 0x6d703432 || b == 0x69736f6d || b == 0x69736f32
    }
}

/// Whether `data` is an MP4/M4A file.
pub fn is_mp4_data(data: &[u8]) -> (r: bool)
    ensures
        r == is_mp4(data@),
{
    if data.len() < 12 {
        return false;
    }
    let size = read_be32(data, 0);
    let box_type = read_be32(data, 4);
    if box_type != 0x66747970 || size < 12 {
        return false;
    }
    let b = read_be32(data, 8);
    b == 0x4d344120 || b == 0x4d344220 || b == 0x4d345020 || b == 0x4d345620 || b == 0x6d703431
        || b == 0x6d703432 || b == 0x69736f6d || b == 0x69736f32
}

} // verus!
