//! The binary layout of the container.
use vstd::prelude::*;
use crate::catalog::ImageFiles;
use crate::model::{Content, ContentBlock, Ruby, RubyView, blocks_view, ruby_view};

verus! {

/// Why a block stream cannot be written.
#[derive(Debug, Clone, Copy, PartialEq, Eq, Structural)]
pub enum EncodeError {
    /// More blocks than a 16-bit count holds.
    TooManyBlocks,
    /// The images together are longer than a 32-bit offset reaches.
    ImagesTooLarge,
    /// More images than an 8-bit count holds.
    TooManyImages,
    /// The text of the block at this position takes 8192 bytes or more.
    TextTooLong { block: usize },
    /// The flags of the block at this position use more than two bits.
    InvalidFlags { block: usize },
    /// The block at this position has more spans than an 8-bit count holds.
    TooManySpans { block: usize },
    /// A reading of the block at this position takes more than 255 bytes.
    ReadingTooLong { block: usize },
}

pub const MAX_BLOCKS: usize = 65535;

pub const MAX_IMAGE_COUNT: usize = 255;

/// Text lengths, in code units, from which on a block cannot be written.
pub const MAX_TEXT_UNITS: usize = 4096;

pub const MAX_SPANS: usize = 255;

pub const MAX_READING_UNITS: usize = 127;

/// The tag bit of an image block's prefix.
pub const IMAGE_TAG: u16 = 0x8000;

/// The bit position of the flags in a text block's prefix.
pub const FLAGS_UNIT: u16 = 0x2000;

pub open spec fn le16(x: int) -> Seq<u8> {
    seq![(x % 256) as u8, ((x / 256) % 256) as u8]
}

pub open spec fn le32(x: int) -> Seq<u8> {
    seq![
        (x % 256) as u8,
        ((x / 0x100) % 256) as u8,
        ((x / 0x10000) % 256) as u8,
        ((x / 0x1000000) % 256) as u8,
    ]
}

/// Code units as UTF-16 little-endian bytes.
pub open spec fn units_le(s: Seq<u16>) -> Seq<u8>
    decreases s.len(),
{
    if s.len() == 0 {
        seq![]
    } else {
        units_le(s.drop_last()) + le16(s.last() as int)
    }
}

/// Sum of the first `i` lengths.
pub open spec fn prefix_sum(lens: Seq<u32>, i: int) -> int
    decreases i,
{
    if i <= 0 {
        0
    } else {
        prefix_sum(lens, i - 1) + lens[i - 1]
    }
}

/// The offset and length of each of the first `i` images.
pub open spec fn image_entries(offsets: Seq<u32>, lens: Seq<u32>, i: int) -> Seq<u8>
    decreases i,
{
    if i <= 0 {
        seq![]
    } else {
        image_entries(offsets, lens, i - 1) + le32(offsets[i - 1] as int) + le32(lens[i - 1] as int)
    }
}

/// The image table: a count, then an offset and a length per image.
pub open spec fn image_meta(offsets: Seq<u32>, lens: Seq<u32>) -> Seq<u8> {
    seq![offsets.len() as u8] + image_entries(offsets, lens, offsets.len() as int)
}

pub open spec fn span_bytes(r: RubyView) -> Seq<u8> {
    le16(r.start_offset as int) + seq![r.length, (2 * r.reading.len()) as u8] + units_le(r.reading)
}

pub open spec fn spans_bytes(rs: Seq<RubyView>) -> Seq<u8>
    decreases rs.len(),
{
    if rs.len() == 0 {
        seq![]
    } else {
        spans_bytes(rs.drop_last()) + span_bytes(rs.last())
    }
}

/// The span section of a text block: a count, then each span.
pub open spec fn ruby_bytes(rs: Seq<RubyView>) -> Seq<u8> {
    seq![rs.len() as u8] + spans_bytes(rs)
}

/// One block on the wire. A text block with no text carries no span section:
/// a reader goes from a zero length straight to the next block's prefix, so the
/// container stays readable by readers that expect that form.
pub open spec fn block_bytes(b: Content) -> Seq<u8> {
    match b {
        Content::Image { index } => le16(index + 0x8000),
        Content::Text { text, ruby, flags } => {
            le16(flags * 0x2000 + 2 * text.len()) + if text.len() == 0 {
                Seq::<u8>::empty()
            } else {
                units_le(text) + ruby_bytes(ruby)
            }
        },
    }
}

pub open spec fn blocks_bytes(bs: Seq<Content>) -> Seq<u8>
    decreases bs.len(),
{
    if bs.len() == 0 {
        seq![]
    } else {
        blocks_bytes(bs.drop_last()) + block_bytes(bs.last())
    }
}

/// The exclusive prefix sums of the lengths.
pub open spec fn offsets_of(lens: Seq<u32>) -> Seq<u32> {
    Seq::new(lens.len(), |i: int| prefix_sum(lens, i) as u32)
}

/// What keeps the block at position `i` from being written, if anything.
pub open spec fn block_problem(b: Content, i: int) -> Option<EncodeError> {
    match b {
        Content::Image { .. } => None,
        Content::Text { text, ruby, flags } => {
            if text.len() >= MAX_TEXT_UNITS {
                Some(EncodeError::TextTooLong { block: i as usize })
            } else if flags >= 4 {
                Some(EncodeError::InvalidFlags { block: i as usize })
            } else if text.len() == 0 {
                None
            } else if ruby.len() > MAX_SPANS {
                Some(EncodeError::TooManySpans { block: i as usize })
            } else if exists|j: int| 0 <= j < ruby.len() && #[trigger] ruby[j].reading.len() > MAX_READING_UNITS {
                Some(EncodeError::ReadingTooLong { block: i as usize })
            } else {
                None
            }
        },
    }
}

/// The problem of the first block that cannot be written.
pub open spec fn first_problem(bs: Seq<Content>) -> Option<EncodeError>
    decreases bs.len(),
{
    if bs.len() == 0 {
        None
    } else {
        match first_problem(bs.drop_last()) {
            Some(e) => Some(e),
            None => block_problem(bs.last(), bs.len() - 1),
        }
    }
}

/// Why the blocks and image lengths cannot be written, if they cannot.
pub open spec fn encode_error(bs: Seq<Content>, lens: Seq<u32>) -> Option<EncodeError> {
    if bs.len() > MAX_BLOCKS {
        Some(EncodeError::TooManyBlocks)
    } else if prefix_sum(lens, lens.len() as int) > u32::MAX {
        Some(EncodeError::ImagesTooLarge)
    } else if lens.len() > MAX_IMAGE_COUNT {
        Some(EncodeError::TooManyImages)
    } else {
        first_problem(bs)
    }
}

/// The container up to the image data: the block count, the image table, the blocks.
pub open spec fn container_bytes(bs: Seq<Content>, lens: Seq<u32>) -> Seq<u8> {
    le16(bs.len() as int) + image_meta(offsets_of(lens), lens) + blocks_bytes(bs)
}

proof fn lemma_prefix_sum_monotone(lens: Seq<u32>, i: int, j: int)
    requires
        0 <= i <= j <= lens.len(),
    ensures
        prefix_sum(lens, i) <= prefix_sum(lens, j),
    decreases j - i,
{
    if i < j {
        lemma_prefix_sum_monotone(lens, i, j - 1);
    }
}

fn push_le16(buf: &mut Vec<u8>, x: u16)
    ensures
        final(buf)@ == old(buf)@ + le16(x as int),
{
    buf.push((x % 256) as u8);
    buf.push((x / 256) as u8);
    assert(final(buf)@ =~= old(buf)@ + le16(x as int));
}

fn push_le32(buf: &mut Vec<u8>, x: u32)
    ensures
        final(buf)@ == old(buf)@ + le32(x as int),
{
    buf.push((x % 256) as u8);
    buf.push(((x / 0x100) % 256) as u8);
    buf.push(((x / 0x10000) % 256) as u8);
    buf.push(((x / 0x1000000) % 256) as u8);
    assert(final(buf)@ =~= old(buf)@ + le32(x as int));
}

/// Appends code units as UTF-16 little-endian bytes.
fn push_units(buf: &mut Vec<u8>, s: &Vec<u16>)
    ensures
        final(buf)@ == old(buf)@ + units_le(s@),
{
    let n = s.len();
    for i in 0..n
        invariant
            n == s@.len(),
            buf@ == old(buf)@ + units_le(s@.take(i as int)),
    {
        assert(s@.take(i + 1).drop_last() =~= s@.take(i as int));
        push_le16(buf, s[i]);
        assert(buf@ =~= old(buf)@ + units_le(s@.take(i + 1)));
    }
    assert(s@.take(n as int) =~= s@);
}

/// The offset of each image within the image data: the sum of the lengths before it.
/// `None` when the lengths together do not fit in 32 bits.
pub fn image_offsets(image_files: &ImageFiles) -> (r: Option<Vec<u32>>)
    ensures
        match r {
            Some(offsets) => prefix_sum(image_files.uncompressed_lengths@, image_files.uncompressed_lengths@.len() as int)
                <= u32::MAX && offsets@ == offsets_of(image_files.uncompressed_lengths@),
            None => prefix_sum(image_files.uncompressed_lengths@, image_files.uncompressed_lengths@.len() as int)
                > u32::MAX,
        },
{
    let lens = &image_files.uncompressed_lengths;
    let n = lens.len();
    let mut offsets: Vec<u32> = Vec::new();
    let mut acc: u64 = 0;
    for i in 0..n
        invariant
            n == lens@.len(),
            lens@ == image_files.uncompressed_lengths@,
            acc == prefix_sum(lens@, i as int),
            acc <= u32::MAX,
            offsets@ == offsets_of(lens@).take(i as int),
    {
        offsets.push(acc as u32);
        acc = acc + lens[i] as u64;
        assert(offsets@ =~= offsets_of(lens@).take(i + 1));
        assert(acc == prefix_sum(lens@, i + 1));
        if acc > u32::MAX as u64 {
            proof {
                lemma_prefix_sum_monotone(lens@, i + 1, n as int);
            }
            return None;
        }
    }
    assert(offsets_of(lens@).take(n as int) =~= offsets_of(lens@));
    Some(offsets)
}

/// Appends the image table.
pub fn extend_with_image_meta(buf: &mut Vec<u8>, image_offsets: &Vec<u32>, uncompressed_lengths: &Vec<u32>)
    requires
        image_offsets@.len() <= uncompressed_lengths@.len(),
        image_offsets@.len() <= MAX_IMAGE_COUNT,
    ensures
        final(buf)@ == old(buf)@ + image_meta(image_offsets@, uncompressed_lengths@),
{
    let n = image_offsets.len();
    buf.push(n as u8);
    for i in 0..n
        invariant
            n == image_offsets@.len(),
            n <= uncompressed_lengths@.len(),
            buf@ == old(buf)@ + seq![n as u8] + image_entries(image_offsets@, uncompressed_lengths@, i as int),
    {
        push_le32(buf, image_offsets[i]);
        push_le32(buf, uncompressed_lengths[i]);
        assert(buf@ =~= old(buf)@ + seq![n as u8] + image_entries(image_offsets@, uncompressed_lengths@, i + 1));
    }
    assert(buf@ =~= old(buf)@ + image_meta(image_offsets@, uncompressed_lengths@));
}

/// Appends the span section of a text block.
pub fn extend_with_ruby(buf: &mut Vec<u8>, ruby: &Vec<Ruby>)
    requires
        ruby@.len() <= MAX_SPANS,
        forall|j: int| 0 <= j < ruby@.len() ==> #[trigger] ruby@[j].reading@.len() <= MAX_READING_UNITS,
    ensures
        final(buf)@ == old(buf)@ + ruby_bytes(ruby_view(ruby@)),
{
    let ghost rv = ruby_view(ruby@);
    let n = ruby.len();
    buf.push(n as u8);
    for i in 0..n
        invariant
            n == ruby@.len(),
            rv == ruby_view(ruby@),
            forall|j: int| 0 <= j < ruby@.len() ==> #[trigger] ruby@[j].reading@.len() <= MAX_READING_UNITS,
            buf@ == old(buf)@ + seq![n as u8] + spans_bytes(rv.take(i as int)),
    {
        let r = &ruby[i];
        assert(rv.take(i + 1).drop_last() =~= rv.take(i as int));
        push_le16(buf, r.start_offset);
        buf.push(r.length);
        buf.push((r.reading.len() * 2) as u8);
        push_units(buf, &r.reading);
        assert(buf@ =~= old(buf)@ + seq![n as u8] + spans_bytes(rv.take(i + 1)));
    }
    assert(rv.take(n as int) =~= rv);
    assert(buf@ =~= old(buf)@ + ruby_bytes(rv));
}

/// Appends one block, or says why the block at position `i` cannot be written.
fn encode_block(buf: &mut Vec<u8>, block: &ContentBlock, i: usize) -> (r: Result<(), EncodeError>)
    ensures
        match r {
            Ok(()) => block_problem(block@, i as int) is None && final(buf)@ == old(buf)@ + block_bytes(block@),
            Err(e) => block_problem(block@, i as int) == Some(e),
        },
{
    match block {
        ContentBlock::Image { index } => {
            push_le16(buf, *index as u16 + IMAGE_TAG);
            Ok(())
        },
        ContentBlock::Text { text, ruby, flags } => {
            if text.len() >= MAX_TEXT_UNITS {
                return Err(EncodeError::TextTooLong { block: i });
            }
            if *flags >= 4 {
                return Err(EncodeError::InvalidFlags { block: i });
            }
            if text.len() > 0 {
                if ruby.len() > MAX_SPANS {
                    return Err(EncodeError::TooManySpans { block: i });
                }
                let m = ruby.len();
                for j in 0..m
                    invariant
                        m == ruby@.len(),
                        block@ == (Content::Text { text: text@, ruby: ruby_view(ruby@), flags: *flags }),
                        0 < text@.len() < MAX_TEXT_UNITS,
                        *flags < 4,
                        m <= MAX_SPANS,
                        forall|k: int| 0 <= k < j ==> #[trigger] ruby@[k].reading@.len() <= MAX_READING_UNITS,
                {
                    if ruby[j].reading.len() > MAX_READING_UNITS {
                        assert(ruby_view(ruby@)[j as int] == ruby@[j as int]@);
                        assert(ruby_view(ruby@)[j as int].reading.len() > MAX_READING_UNITS);
                        return Err(EncodeError::ReadingTooLong { block: i });
                    }
                }
                assert forall|k: int| 0 <= k < ruby@.len() implies !(#[trigger] ruby_view(ruby@)[k].reading.len() > MAX_READING_UNITS) by {
                    assert(ruby@[k].reading@.len() <= MAX_READING_UNITS);
                }
            }
            let prefix: u16 = *flags as u16 * FLAGS_UNIT + (text.len() * 2) as u16;
            push_le16(buf, prefix);
            if text.len() > 0 {
                push_units(buf, text);
                extend_with_ruby(buf, ruby);
            }
            assert(final(buf)@ =~= old(buf)@ + block_bytes(block@));
            Ok(())
        },
    }
}

/// The container up to its image data: the block count, the image table, then every block.
pub fn encode_container(blocks: &Vec<ContentBlock>, image_files: &ImageFiles) -> (r: Result<Vec<u8>, EncodeError>)
    requires
        image_files.wf(),
    ensures
        match r {
            Ok(bytes) => encode_error(blocks_view(blocks@), image_files.uncompressed_lengths@) is None
                && bytes@ == container_bytes(blocks_view(blocks@), image_files.uncompressed_lengths@),
            Err(e) => encode_error(blocks_view(blocks@), image_files.uncompressed_lengths@) == Some(e),
        },
{
    let ghost bv = blocks_view(blocks@);
    let ghost lens = image_files.uncompressed_lengths@;
    if blocks.len() > MAX_BLOCKS {
        return Err(EncodeError::TooManyBlocks);
    }
    let offsets = match image_offsets(image_files) {
        Some(o) => o,
        None => {
            return Err(EncodeError::ImagesTooLarge);
        },
    };
    if offsets.len() > MAX_IMAGE_COUNT {
        return Err(EncodeError::TooManyImages);
    }
    let mut buf: Vec<u8> = Vec::new();
    push_le16(&mut buf, blocks.len() as u16);
    extend_with_image_meta(&mut buf, &offsets, &image_files.uncompressed_lengths);
    let ghost head = buf@;
    let n = blocks.len();
    for i in 0..n
        invariant
            n == blocks@.len(),
            bv == blocks_view(blocks@),
            lens == image_files.uncompressed_lengths@,
            n <= MAX_BLOCKS,
            prefix_sum(lens, lens.len() as int) <= u32::MAX,
            lens.len() <= MAX_IMAGE_COUNT,
            first_problem(bv.take(i as int)) is None,
            buf@ == head + blocks_bytes(bv.take(i as int)),
    {
        assert(bv.take(i + 1).drop_last() =~= bv.take(i as int));
        match encode_block(&mut buf, &blocks[i], i) {
            Ok(()) => {},
            Err(e) => {
                proof {
                    assert(bv[i as int] == blocks@[i as int]@);
                    lemma_first_problem_extend(bv, i as int);
                }
                return Err(e);
            },
        }
        assert(buf@ =~= head + blocks_bytes(bv.take(i + 1)));
    }
    assert(bv.take(n as int) =~= bv);
    assert(buf@ =~= container_bytes(bv, lens));
    Ok(buf)
}

proof fn lemma_first_problem_extend(bv: Seq<Content>, i: int)
    requires
        0 <= i < bv.len(),
        first_problem(bv.take(i)) is None,
        block_problem(bv[i], i) is Some,
    ensures
        first_problem(bv) == block_problem(bv[i], i),
    decreases bv.len(),
{
    assert(bv.take(i + 1).drop_last() =~= bv.take(i));
    if i + 1 < bv.len() {
        assert(bv.drop_last().take(i) =~= bv.take(i));
        lemma_first_problem_extend(bv.drop_last(), i);
    } else {
        assert(bv.take(i + 1) =~= bv);
    }
}

} // verus!
