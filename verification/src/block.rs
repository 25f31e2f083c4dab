//! Data blocks: the smallest unit of reading and caching. A block is a
//! collection of sorted key-value entries stored as
//! `data | offset #1 .. offset #N (2 bytes each, big endian) | N (2 bytes)`,
//! then compressed, then followed by one byte naming the compression.
use vstd::prelude::*;
use bytes::Bytes;
use crate::buffer::{bytes_contents, bytes_from_vec};
use crate::compression::{
    CompressionController,
    CompressionOptions,
    spec_compress,
    spec_controller,
    spec_decompress,
    roundtrip_holds,
};
use crate::error::{LsmError, BlockError, join_text};

verus! {

pub const SIZEOF_U8: usize = 1;

pub const SIZEOF_U16: usize = 2;

pub const SIZEOF_U64: usize = 8;

/// A block's contents: its entry bytes and the offsets of its entries.
pub struct BlockView {
    pub data: Seq<u8>,
    pub offsets: Seq<u16>,
}

pub struct Block {
    pub(crate) data: Vec<u8>,
    pub(crate) offsets: Vec<u16>,
}

impl View for Block {
    type V = BlockView;

    closed spec fn view(&self) -> BlockView {
        BlockView { data: self.data@, offsets: self.offsets@ }
    }
}

/// The two big-endian bytes of a 16-bit number.
pub open spec fn be_u16(v: u16) -> Seq<u8> {
    seq![(v / 256) as u8, (v % 256) as u8]
}

/// The 16-bit big-endian number stored at position `i`.
pub open spec fn u16_at(s: Seq<u8>, i: int) -> u16 {
    (s[i] * 256 + s[i + 1]) as u16
}

/// The offsets, each as two big-endian bytes, one after the other.
pub open spec fn offsets_bytes(offsets: Seq<u16>) -> Seq<u8>
    decreases offsets.len(),
{
    if offsets.len() == 0 {
        Seq::empty()
    } else {
        offsets_bytes(offsets.drop_last()) + be_u16(offsets.last())
    }
}

/// A block laid out before compression; the entry count is stored modulo
/// 2^16.
pub open spec fn block_layout(b: BlockView) -> Seq<u8> {
    b.data + offsets_bytes(b.offsets) + be_u16((b.offsets.len() % 65536) as u16)
}

/// The number of entries a laid-out block declares in its last two bytes.
pub open spec fn declared_count(d: Seq<u8>) -> nat {
    u16_at(d, d.len() - 2) as nat
}

/// Whether laid-out bytes are long enough for the count they declare.
pub open spec fn layout_fits(d: Seq<u8>) -> bool {
    d.len() >= 2 && 2 + 2 * declared_count(d) <= d.len()
}

/// The block that laid-out bytes describe.
pub open spec fn parse_layout(d: Seq<u8>) -> BlockView {
    let n = declared_count(d);
    let data_end = d.len() - 2 - 2 * n;
    BlockView { data: d.take(data_end), offsets: Seq::new(n, |i: int| u16_at(d, data_end + 2 * i)) }
}

/// The bytes a block is stored as with an algorithm, if compression succeeds.
pub open spec fn spec_encode(b: BlockView, o: CompressionOptions) -> Option<Seq<u8>> {
    match spec_compress(spec_controller(o), block_layout(b)) {
        Some(c) => Some(c.push(o.spec_to_u8())),
        None => None,
    }
}

/// What decoding stored bytes gives: the block, when the bytes end in the
/// algorithm's tag, decompress, and fit the layout; `None` where decoding
/// fails with an error.
pub open spec fn spec_decode(s: Seq<u8>, o: CompressionOptions) -> Option<BlockView> {
    match spec_decompress(spec_controller(o), s.drop_last()) {
        Some(d) => Some(parse_layout(d)),
        None => None,
    }
}

/// Whether decoding stored bytes with an algorithm runs without a fault:
/// there is a tag byte, it names the algorithm, and what decompresses fits
/// the layout.
pub open spec fn decode_defined(s: Seq<u8>, o: CompressionOptions) -> bool {
    &&& s.len() >= 1
    &&& s.last() == o.spec_to_u8()
    &&& (spec_decompress(spec_controller(o), s.drop_last()) matches Some(d) ==> layout_fits(d))
}

proof fn lemma_be_u16(v: u16)
    ensures
        u16_at(be_u16(v), 0) == v,
{
}

proof fn lemma_offsets_bytes(offsets: Seq<u16>)
    ensures
        offsets_bytes(offsets).len() == 2 * offsets.len(),
        forall|i: int|
            0 <= i < offsets.len() ==> #[trigger] u16_at(offsets_bytes(offsets), 2 * i)
                == offsets[i],
    decreases offsets.len(),
{
    if offsets.len() > 0 {
        let init = offsets.drop_last();
        lemma_offsets_bytes(init);
        let s = offsets_bytes(offsets);
        assert forall|i: int| 0 <= i < offsets.len() implies #[trigger] u16_at(s, 2 * i)
            == offsets[i] by {
            if i < init.len() {
                assert(s[2 * i] == offsets_bytes(init)[2 * i]);
                assert(s[2 * i + 1] == offsets_bytes(init)[2 * i + 1]);
                assert(u16_at(offsets_bytes(init), 2 * i) == init[i]);
            } else {
                lemma_be_u16(offsets.last());
                assert(s[2 * i] == be_u16(offsets.last())[0]);
                assert(s[2 * i + 1] == be_u16(offsets.last())[1]);
            }
        }
    }
}

/// Laying out a block with fewer than 2^16 entries and parsing the layout
/// gives the block back.
pub proof fn lemma_layout_roundtrip(b: BlockView)
    requires
        b.offsets.len() < 65536,
    ensures
        layout_fits(block_layout(b)),
        parse_layout(block_layout(b)) == b,
{
    let d = block_layout(b);
    let n = b.offsets.len();
    lemma_offsets_bytes(b.offsets);
    lemma_be_u16(n as u16);
    let tail = be_u16((n % 65536) as u16);
    assert(d[d.len() - 2] == tail[0]);
    assert(d[d.len() - 1] == tail[1]);
    assert(declared_count(d) == n);
    let data_end = d.len() - 2 - 2 * n;
    assert(data_end == b.data.len());
    assert(d.take(data_end) =~= b.data);
    let p = parse_layout(d);
    assert forall|i: int| 0 <= i < n implies p.offsets[i] == b.offsets[i] by {
        let ob = offsets_bytes(b.offsets);
        assert(d[data_end + 2 * i] == ob[2 * i]);
        assert(d[data_end + 2 * i + 1] == ob[2 * i + 1]);
        assert(u16_at(ob, 2 * i) == b.offsets[i]);
    }
    assert(p.offsets =~= b.offsets);
}

/// Decoding what a block was encoded as, with the same algorithm, gives the
/// block back, for blocks with fewer than 2^16 entries (under LZ4, whose
/// layout is at most 2^32 - 1 bytes long).
pub proof fn lemma_block_roundtrip(b: BlockView, o: CompressionOptions, stored: Seq<u8>)
    requires
        b.offsets.len() < 65536,
        spec_encode(b, o) == Some(stored),
        roundtrip_holds(spec_controller(o), block_layout(b).len()) ==> spec_decompress(
            spec_controller(o),
            stored.drop_last(),
        ) == Some(block_layout(b)),
        roundtrip_holds(spec_controller(o), block_layout(b).len()),
    ensures
        decode_defined(stored, o),
        spec_decode(stored, o) == Some(b),
{
    lemma_layout_roundtrip(b);
    let c = spec_compress(spec_controller(o), block_layout(b)).unwrap();
    assert(stored.drop_last() =~= c);
}

/// Lays a block out before compression.
fn layout(b: &Block) -> (r: Vec<u8>)
    ensures
        r@ == block_layout(b@),
{
    let mut buf = vstd::slice::slice_to_vec(b.data.as_slice());
    let mut i: usize = 0;
    while i < b.offsets.len()
        invariant
            0 <= i <= b.offsets.len(),
            buf@ == b.data@ + offsets_bytes(b.offsets@.take(i as int)),
        decreases b.offsets.len() - i,
    {
        let off = b.offsets[i];
        buf.push((off / 256) as u8);
        buf.push((off % 256) as u8);
        assert(b.offsets@.take(i + 1).drop_last() =~= b.offsets@.take(i as int));
        assert(buf@ =~= b.data@ + offsets_bytes(b.offsets@.take(i + 1)));
        i = i + 1;
    }
    assert(b.offsets@.take(b.offsets.len() as int) =~= b.offsets@);
    let n = (b.offsets.len() % 65536) as u16;
    buf.push((n / 256) as u8);
    buf.push((n % 256) as u8);
    assert(buf@ =~= block_layout(b@));
    buf
}

/// Parses laid-out bytes that fit the layout.
fn parse(mut d: Vec<u8>) -> (r: Block)
    requires
        layout_fits(d@),
    ensures
        r@ == parse_layout(d@),
{
    let len = d.len();
    let count = (d[len - 2] as usize) * 256 + (d[len - 1] as usize);
    assert(count == declared_count(d@));
    let data_end = len - SIZEOF_U16 - count * SIZEOF_U16;
    let mut offsets: Vec<u16> = Vec::new();
    let mut i: usize = 0;
    while i < count
        invariant
            0 <= i <= count,
            count == declared_count(d@),
            d@.len() == len,
            data_end == d@.len() - 2 - 2 * count,
            layout_fits(d@),
            offsets@ =~= Seq::new(i as nat, |j: int| u16_at(d@, data_end + 2 * j)),
        decreases count - i,
    {
        let p = data_end + 2 * i;
        let v = ((d[p] as u16) * 256 + (d[p + 1] as u16)) as u16;
        offsets.push(v);
        i = i + 1;
    }
    let ghost full = d@;
    d.truncate(data_end);
    assert(d@ =~= full.take(data_end as int));
    Block { data: d, offsets }
}

impl Block {
    /// Encodes the block to the stored layout: laid out, compressed, and
    /// followed by the compression's tag byte.
    pub fn encode(&self, compression_options: CompressionOptions) -> (r: Result<Bytes, LsmError>)
        ensures
            match r {
                Ok(s) => spec_encode(self@, compression_options) == Some(bytes_contents(s)) && (
                roundtrip_holds(spec_controller(compression_options), block_layout(self@).len()) ==> spec_decompress(
                    spec_controller(compression_options),
                    bytes_contents(s).drop_last(),
                ) == Some(block_layout(self@))),
                Err(_) => spec_encode(self@, compression_options) is None,
            },
    {
        let buf = layout(self);
        let compression_type: u8 = u8::from(compression_options);
        let controller = CompressionController::new(compression_options);
        match controller.compress(buf.as_slice()) {
            Ok(mut result) => {
                let ghost c = result@;
                result.push(compression_type);
                assert(result@.drop_last() =~= c);
                Ok(bytes_from_vec(result))
            },
            Err(e) => Err(compression_error("Compression failed: ", e)),
        }
    }

    /// Decodes stored bytes to a block. The bytes must end in the tag of the
    /// given compression, and what decompresses must fit the layout.
    pub fn decode(data: &[u8], compression_options: CompressionOptions) -> (r: Result<Self, LsmError>)
        requires
            decode_defined(data@, compression_options),
        ensures
            match r {
                Ok(b) => spec_decode(data@, compression_options) == Some(b@),
                Err(_) => spec_decode(data@, compression_options) is None,
            },
    {
        let body = vstd::slice::slice_subrange(data, 0, data.len() - SIZEOF_U8);
        assert(body@ =~= data@.drop_last());
        let controller = CompressionController::new(compression_options);
        match controller.de_compress(body) {
            Ok(d) => Ok(parse(d)),
            Err(e) => Err(compression_error("Decompression failed: ", e)),
        }
    }

    /// Decodes stored bytes to a block, answering with an error, not a
    /// fault, where the bytes are not a block of this compression.
    pub fn decode_checked(data: &[u8], compression_options: CompressionOptions) -> (r: Result<
        Self,
        LsmError,
    >)
        ensures
            match r {
                Ok(b) => decode_defined(data@, compression_options) && spec_decode(
                    data@,
                    compression_options,
                ) == Some(b@),
                Err(_) => !decode_defined(data@, compression_options) || spec_decode(
                    data@,
                    compression_options,
                ) is None,
            },
    {
        if data.len() < SIZEOF_U8 || data[data.len() - 1] != u8::from(compression_options) {
            return Err(LsmError::Block(BlockError::InvalidFormat(String::new())));
        }
        let body = vstd::slice::slice_subrange(data, 0, data.len() - SIZEOF_U8);
        assert(body@ =~= data@.drop_last());
        let controller = CompressionController::new(compression_options);
        let d = match controller.de_compress(body) {
            Ok(d) => d,
            Err(e) => return Err(compression_error("Decompression failed: ", e)),
        };
        let len = d.len();
        if len < SIZEOF_U16 {
            return Err(LsmError::Block(BlockError::InvalidFormat(String::new())));
        }
        let count = (d[len - 2] as usize) * 256 + (d[len - 1] as usize);
        if SIZEOF_U16 + count * SIZEOF_U16 > len {
            return Err(LsmError::Block(BlockError::InvalidFormat(String::new())));
        }
        Ok(parse(d))
    }
}

/// An internal error whose message is `prefix` followed by the message of
/// the compression error `e`.
fn compression_error(prefix: &str, e: LsmError) -> (r: LsmError)
    ensures
        r is Internal,
        e matches LsmError::Internal(m) ==> r matches LsmError::Internal(t) && t@ == prefix@ + m@,
{
    match e {
        LsmError::Internal(m) => LsmError::Internal(join_text(prefix, m.as_str())),
        _ => LsmError::Internal(join_text(prefix, "")),
    }
}

} // verus!
