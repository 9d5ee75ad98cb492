//! The image catalog and the external-glyph substitution table.
use vstd::prelude::*;
use vstd::slice::{slice_subrange, slice_to_vec};
use vstd::utf8::{decode_utf8, valid_utf8};
use crate::utf16::{encode_utf16, str_from_utf8, utf16_of};

verus! {

/// The raster images of the archive, in catalog order.
#[derive(Debug)]
pub struct ImageFiles {
    /// Final path segment of each image.
    pub names: Vec<Vec<u8>>,
    /// Uncompressed byte length of each image.
    pub uncompressed_lengths: Vec<u32>,
    /// Position of each image among the archive's entries.
    pub file_numbers: Vec<usize>,
}

/// The largest number of images a catalog can hold.
pub const MAX_IMAGES: usize = 256;

impl ImageFiles {
    /// The three columns line up, and every index fits in a byte.
    pub open spec fn wf(&self) -> bool {
        &&& self.names@.len() == self.uncompressed_lengths@.len()
        &&& self.names@.len() == self.file_numbers@.len()
        &&& self.names@.len() <= MAX_IMAGES
    }
}

/// What part of a reference names the file: everything after its last `/`.
pub open spec fn last_segment(s: Seq<u8>) -> Seq<u8>
    decreases s.len(),
{
    if s.len() == 0 {
        s
    } else if s.last() == SLASH {
        Seq::<u8>::empty()
    } else {
        last_segment(s.drop_last()).push(s.last())
    }
}

pub const SLASH: u8 = 0x2f;

/// Where the last segment of `src` begins.
pub fn segment_start(src: &[u8]) -> (start: usize)
    ensures
        start <= src@.len(),
        src@.subrange(start as int, src@.len() as int) == last_segment(src@),
{
    let mut i = src.len();
    assert(src@.take(i as int) =~= src@);
    assert(src@.subrange(i as int, i as int) =~= Seq::<u8>::empty());
    assert(src@ + Seq::<u8>::empty() =~= src@);
    while i > 0 && src[i - 1] != SLASH
        invariant
            i <= src@.len(),
            last_segment(src@) == last_segment(src@.take(i as int)) + src@.subrange(i as int, src@.len() as int),
        decreases i,
    {
        assert(src@.take(i as int).drop_last() =~= src@.take(i - 1));
        assert(src@.subrange(i - 1, src@.len() as int) =~= seq![src@[i - 1]] + src@.subrange(i as int, src@.len() as int));
        assert(last_segment(src@.take(i as int)) == last_segment(src@.take(i - 1)).push(src@[i - 1]));
        i = i - 1;
    }
    if i > 0 {
        assert(src@.take(i as int).last() == SLASH);
    } else {
        assert(src@.take(0) =~= Seq::<u8>::empty());
    }
    i
}

/// Whether `name` equals `src` from position `start` on.
fn equals_from(name: &Vec<u8>, src: &[u8], start: usize) -> (r: bool)
    requires
        start <= src@.len(),
    ensures
        r == (name@ == src@.subrange(start as int, src@.len() as int)),
{
    if name.len() != src.len() - start {
        return false;
    }
    let n = name.len();
    for j in 0..n
        invariant
            n == name@.len(),
            n == src@.len() - start,
            start <= src@.len() <= usize::MAX,
            forall|k: int| 0 <= k < j ==> name@[k] == #[trigger] src@[start + k],
    {
        if name[j] != src[start + j] {
            assert(name@[j as int] != src@.subrange(start as int, src@.len() as int)[j as int]);
            return false;
        }
    }
    assert forall|k: int| 0 <= k < n implies name@[k] == src@.subrange(start as int, src@.len() as int)[k] by {
        assert(name@[k] == src@[start + k]);
    }
    assert(name@ =~= src@.subrange(start as int, src@.len() as int));
    true
}

/// Position of the first name that equals `key`.
fn find_name(names: &Vec<Vec<u8>>, src: &[u8], start: usize) -> (r: Option<usize>)
    requires
        start <= src@.len(),
    ensures
        match r {
            Some(i) => i < names@.len() && names@[i as int]@ == src@.subrange(start as int, src@.len() as int)
                && forall|j: int| 0 <= j < i ==> (#[trigger] names@[j])@ != src@.subrange(start as int, src@.len() as int),
            None => forall|j: int| 0 <= j < names@.len() ==> (#[trigger] names@[j])@ != src@.subrange(start as int, src@.len() as int),
        },
{
    let n = names.len();
    for i in 0..n
        invariant
            n == names@.len(),
            start <= src@.len(),
            forall|j: int| 0 <= j < i ==> (#[trigger] names@[j])@ != src@.subrange(start as int, src@.len() as int),
    {
        if equals_from(&names[i], src, start) {
            return Some(i);
        }
    }
    None
}

/// Whether `k` is the first position whose name is `key`.
pub open spec fn first_match(names: Seq<Vec<u8>>, key: Seq<u8>, k: int) -> bool {
    &&& 0 <= k < names.len()
    &&& names[k]@ == key
    &&& forall|j: int| 0 <= j < k ==> (#[trigger] names[j])@ != key
}

pub open spec fn no_match(names: Seq<Vec<u8>>, key: Seq<u8>) -> bool {
    forall|j: int| 0 <= j < names.len() ==> (#[trigger] names[j])@ != key
}

impl ImageFiles {
    /// The catalog index of the image that a reference points to, matched by the
    /// reference's last path segment.
    pub fn index_of(&self, src: &[u8]) -> (r: Option<u8>)
        requires
            self.wf(),
        ensures
            match r {
                Some(k) => first_match(self.names@, last_segment(src@), k as int),
                None => no_match(self.names@, last_segment(src@)),
            },
    {
        let start = segment_start(src);
        match find_name(&self.names, src, start) {
            Some(i) => Some(i as u8),
            None => None,
        }
    }
}

/// The external-glyph substitution table.
#[derive(Debug)]
pub struct Gaiji {
    /// Glyph names, as the last segment of a reference spells them.
    pub names: Vec<Vec<u8>>,
    /// Replacement text of each glyph, as UTF-16 code units.
    pub replacements: Vec<Vec<u16>>,
}

impl Gaiji {
    pub open spec fn wf(&self) -> bool {
        self.names@.len() == self.replacements@.len()
    }

    /// A table with no glyphs.
    pub fn empty() -> (r: Gaiji)
        ensures
            r.wf(),
            r.names@.len() == 0,
    {
        Gaiji { names: Vec::new(), replacements: Vec::new() }
    }

    /// The replacement of the glyph that a reference points to, matched by the
    /// reference's last path segment.
    pub fn mapped(&self, src: &[u8]) -> (r: Option<&Vec<u16>>)
        requires
            self.wf(),
        ensures
            match r {
                Some(t) => exists|k: int| first_match(self.names@, last_segment(src@), k) && *t == self.replacements@[k],
                None => no_match(self.names@, last_segment(src@)),
            },
    {
        let start = segment_start(src);
        match find_name(&self.names, src, start) {
            Some(i) => {
                assert(first_match(self.names@, last_segment(src@), i as int));
                Some(&self.replacements[i])
            },
            None => None,
        }
    }
}


impl Default for ImageFiles {
    /// A catalog with no images.
    fn default() -> (r: ImageFiles)
        ensures
            r.wf(),
            r.names@.len() == 0,
    {
        ImageFiles { names: Vec::new(), uncompressed_lengths: Vec::new(), file_numbers: Vec::new() }
    }
}

impl Default for Gaiji {
    /// A table with no glyphs.
    fn default() -> (r: Gaiji)
        ensures
            r.wf(),
            r.names@.len() == 0,
    {
        Gaiji::empty()
    }
}


pub const QUOTE: u8 = 0x22;

/// Where a scan of a glyph listing stands: each entry is a quoted name followed
/// by a quoted replacement; text outside quotes is ignored.
pub enum QuoteState {
    NameNext,
    InName { start: int },
    ReplacementNext { name_start: int, name_end: int },
    InReplacement { name_start: int, name_end: int, start: int },
}

pub struct ListingScan {
    /// The (name, replacement) byte strings found so far.
    pub entries: Seq<(Seq<u8>, Seq<u8>)>,
    pub state: QuoteState,
}

pub open spec fn listing_step(s: ListingScan, b: Seq<u8>, i: int) -> ListingScan {
    if b[i] != QUOTE {
        s
    } else {
        match s.state {
            QuoteState::NameNext => ListingScan { state: QuoteState::InName { start: i + 1 }, ..s },
            QuoteState::InName { start } => ListingScan {
                state: QuoteState::ReplacementNext { name_start: start, name_end: i },
                ..s
            },
            QuoteState::ReplacementNext { name_start, name_end } => ListingScan {
                state: QuoteState::InReplacement { name_start, name_end, start: i + 1 },
                ..s
            },
            QuoteState::InReplacement { name_start, name_end, start } => ListingScan {
                entries: s.entries.push((b.subrange(name_start, name_end), b.subrange(start, i))),
                state: QuoteState::NameNext,
            },
        }
    }
}

/// The scan after the first `i` bytes.
pub open spec fn listing_scan(b: Seq<u8>, i: int) -> ListingScan
    decreases i,
{
    if i <= 0 {
        ListingScan { entries: seq![], state: QuoteState::NameNext }
    } else {
        listing_step(listing_scan(b, i - 1), b, i - 1)
    }
}

/// The complete entries of a glyph listing; a name left without replacement is dropped.
pub open spec fn listing_entries(b: Seq<u8>) -> Seq<(Seq<u8>, Seq<u8>)> {
    listing_scan(b, b.len() as int).entries
}

enum ScanPos {
    NameNext,
    InName { start: usize },
    ReplacementNext { name_start: usize, name_end: usize },
    InReplacement { name_start: usize, name_end: usize, start: usize },
}

spec fn pos_view(p: ScanPos) -> QuoteState {
    match p {
        ScanPos::NameNext => QuoteState::NameNext,
        ScanPos::InName { start } => QuoteState::InName { start: start as int },
        ScanPos::ReplacementNext { name_start, name_end } => QuoteState::ReplacementNext {
            name_start: name_start as int,
            name_end: name_end as int,
        },
        ScanPos::InReplacement { name_start, name_end, start } => QuoteState::InReplacement {
            name_start: name_start as int,
            name_end: name_end as int,
            start: start as int,
        },
    }
}

spec fn pos_bounded(p: ScanPos, i: int) -> bool {
    match p {
        ScanPos::NameNext => true,
        ScanPos::InName { start } => start <= i,
        ScanPos::ReplacementNext { name_start, name_end } => name_start <= name_end <= i,
        ScanPos::InReplacement { name_start, name_end, start } => name_start <= name_end < start <= i,
    }
}

spec fn entries_match(names: Seq<Vec<u8>>, reps: Seq<Vec<u16>>, es: Seq<(Seq<u8>, Seq<u8>)>) -> bool {
    &&& names.len() == es.len()
    &&& reps.len() == names.len()
    &&& forall|k: int| 0 <= k < names.len() ==> (#[trigger] names[k])@ == es[k].0
        && valid_utf8(es[k].1)
        && reps[k]@ == utf16_of(decode_utf8(es[k].1))
}

/// Reads a glyph listing: quoted names, each followed by its quoted replacement
/// text. `None` when a replacement is not UTF-8.
pub fn get_gaiji(content: &[u8]) -> (r: Option<Gaiji>)
    ensures
        match r {
            Some(g) => {
                let es = listing_entries(content@);
                &&& g.wf()
                &&& g.names@.len() == es.len()
                &&& forall|k: int| 0 <= k < es.len() ==> (#[trigger] g.names@[k])@ == es[k].0
                    && valid_utf8(es[k].1) && g.replacements@[k]@ == utf16_of(decode_utf8(es[k].1))
            },
            None => exists|k: int| 0 <= k < listing_entries(content@).len()
                && !valid_utf8(#[trigger] listing_entries(content@)[k].1),
        },
{
    let ghost b = content@;
    let n = content.len();
    let mut names: Vec<Vec<u8>> = Vec::new();
    let mut replacements: Vec<Vec<u16>> = Vec::new();
    let mut pos = ScanPos::NameNext;
    for i in 0..n
        invariant
            n == b.len(),
            b == content@,
            pos_bounded(pos, i as int),
            pos_view(pos) == listing_scan(b, i as int).state,
            entries_match(names@, replacements@, listing_scan(b, i as int).entries),
    {
        let ghost before = listing_scan(b, i as int);
        assert(listing_scan(b, i + 1) == listing_step(before, b, i as int));
        if content[i] != QUOTE {
            proof { lemma_same_entries(names@, replacements@, before, listing_scan(b, i + 1)); }
        } else {
            match pos {
                ScanPos::NameNext => {
                    pos = ScanPos::InName { start: i + 1 };
                    proof { lemma_same_entries(names@, replacements@, before, listing_scan(b, i + 1)); }
                },
                ScanPos::InName { start } => {
                    pos = ScanPos::ReplacementNext { name_start: start, name_end: i };
                    proof { lemma_same_entries(names@, replacements@, before, listing_scan(b, i + 1)); }
                },
                ScanPos::ReplacementNext { name_start, name_end } => {
                    pos = ScanPos::InReplacement { name_start, name_end, start: i + 1 };
                    proof { lemma_same_entries(names@, replacements@, before, listing_scan(b, i + 1)); }
                },
                ScanPos::InReplacement { name_start, name_end, start } => {
                    let name = slice_to_vec(slice_subrange(content, name_start, name_end));
                    let text = slice_subrange(content, start, i);
                    match str_from_utf8(text) {
                        Some(t) => {
                            let units = encode_utf16(t);
                            let ghost names0 = names@;
                            let ghost reps0 = replacements@;
                            let ghost entry = (b.subrange(name_start as int, name_end as int), b.subrange(start as int, i as int));
                            names.push(name);
                            replacements.push(units);
                            pos = ScanPos::NameNext;
                            let ghost after = listing_scan(b, i + 1);
                            assert(after.entries == before.entries.push(entry));
                            assert(text@ == entry.1);
                            assert(units@ == utf16_of(decode_utf8(entry.1)));
                            proof { lemma_push_entry(names0, reps0, before.entries, names@.last(), replacements@.last(), entry); }
                            assert(names@ == names0.push(names@.last()));
                            assert(replacements@ == reps0.push(replacements@.last()));
                            assert(entries_match(names@, replacements@, after.entries));
                        },
                        None => {
                            proof {
                                lemma_listing_entries_keep(b, i + 1);
                                let k = before.entries.len() as int;
                                assert(listing_scan(b, i + 1).entries[k].1 == b.subrange(start as int, i as int));
                                assert(listing_entries(content@)[k] == listing_scan(b, i + 1).entries[k]);
                                assert(!valid_utf8(listing_entries(content@)[k].1));
                            }
                            return None;
                        },
                    }
                },
            }
        }
    }
    Some(Gaiji { names, replacements })
}

proof fn lemma_push_entry(
    names: Seq<Vec<u8>>,
    reps: Seq<Vec<u16>>,
    es: Seq<(Seq<u8>, Seq<u8>)>,
    name: Vec<u8>,
    units: Vec<u16>,
    entry: (Seq<u8>, Seq<u8>),
)
    requires
        entries_match(names, reps, es),
        name@ == entry.0,
        valid_utf8(entry.1),
        units@ == utf16_of(decode_utf8(entry.1)),
    ensures
        entries_match(names.push(name), reps.push(units), es.push(entry)),
{
    let n2 = names.push(name);
    let r2 = reps.push(units);
    let e2 = es.push(entry);
    assert forall|k: int| 0 <= k < n2.len() implies (#[trigger] n2[k])@ == e2[k].0 && valid_utf8(e2[k].1)
        && r2[k]@ == utf16_of(decode_utf8(e2[k].1)) by {
        if k < names.len() {
            assert(n2[k] == names[k]);
            assert(r2[k] == reps[k]);
            assert(e2[k] == es[k]);
        }
    }
}

proof fn lemma_same_entries(names: Seq<Vec<u8>>, reps: Seq<Vec<u16>>, before: ListingScan, after: ListingScan)
    requires
        after.entries == before.entries,
        entries_match(names, reps, before.entries),
    ensures
        entries_match(names, reps, after.entries),
{
}

/// Entries found early are never lost nor changed by what follows.
proof fn lemma_listing_entries_keep(b: Seq<u8>, i: int)
    requires
        0 <= i <= b.len(),
    ensures
        listing_scan(b, i).entries.len() <= listing_entries(b).len(),
        forall|k: int| 0 <= k < listing_scan(b, i).entries.len() ==>
            #[trigger] listing_entries(b)[k] == listing_scan(b, i).entries[k],
    decreases b.len() - i,
{
    if i < b.len() {
        lemma_listing_entries_keep(b, i + 1);
        assert(listing_scan(b, i + 1) == listing_step(listing_scan(b, i), b, i));
    }
}


/// Why the archive's images cannot form a catalog.
#[derive(Debug, Clone, Copy, PartialEq, Eq, Structural)]
pub enum CatalogError {
    /// More images than a one-byte index reaches.
    TooManyImages,
    /// An image longer than a 32-bit length holds.
    ImageTooLarge,
}

/// Whether an archive entry is a raster image, by the end of its name.
pub open spec fn is_image_name(n: Seq<u8>) -> bool {
    let l = n.len();
    ||| (l >= 3 && n[l - 3] == 106 && n[l - 2] == 112 && n[l - 1] == 103)
    ||| (l >= 4 && n[l - 4] == 106 && n[l - 3] == 112 && n[l - 2] == 101 && n[l - 1] == 103)
    ||| (l >= 3 && n[l - 3] == 112 && n[l - 2] == 110 && n[l - 1] == 103)
}

fn image_name(n: &Vec<u8>) -> (r: bool)
    ensures
        r == is_image_name(n@),
{
    let l = n.len();
    (l >= 3 && n[l - 3] == 106u8 && n[l - 2] == 112u8 && n[l - 1] == 103u8)
        || (l >= 4 && n[l - 4] == 106u8 && n[l - 3] == 112u8 && n[l - 2] == 101u8 && n[l - 1] == 103u8)
        || (l >= 3 && n[l - 3] == 112u8 && n[l - 2] == 110u8 && n[l - 1] == 103u8)
}

/// The positions of the image entries among the archive's entries, in order.
pub open spec fn image_positions(names: Seq<Vec<u8>>) -> Seq<int>
    decreases names.len(),
{
    if names.len() == 0 {
        seq![]
    } else if is_image_name(names.last()@) {
        image_positions(names.drop_last()).push(names.len() - 1)
    } else {
        image_positions(names.drop_last())
    }
}

proof fn lemma_image_positions_bounded(names: Seq<Vec<u8>>)
    ensures
        forall|k: int| 0 <= k < image_positions(names).len() ==> 0 <= #[trigger] image_positions(names)[k] < names.len(),
    decreases names.len(),
{
    if names.len() > 0 {
        let prev = image_positions(names.drop_last());
        lemma_image_positions_bounded(names.drop_last());
        assert forall|k: int| 0 <= k < image_positions(names).len() implies 0 <= #[trigger] image_positions(names)[k] < names.len() by {
            if k < prev.len() {
                assert(image_positions(names)[k] == prev[k]);
            }
        }
    }
}

/// The image catalog of an archive, from the names and uncompressed sizes of its
/// entries: each image entry, in archive order, by the last segment of its name.
pub fn get_image_files(entry_names: &Vec<Vec<u8>>, entry_sizes: &Vec<u64>) -> (r: Result<ImageFiles, CatalogError>)
    requires
        entry_names@.len() == entry_sizes@.len(),
    ensures
        ({
            let pos = image_positions(entry_names@);
            match r {
                Ok(f) => {
                    &&& f.wf()
                    &&& f.names@.len() == pos.len()
                    &&& forall|k: int| 0 <= k < pos.len() ==> {
                        &&& (#[trigger] f.file_numbers@[k]) == pos[k]
                        &&& f.names@[k]@ == last_segment(entry_names@[pos[k]]@)
                        &&& f.uncompressed_lengths@[k] == entry_sizes@[pos[k]]
                    }
                },
                Err(CatalogError::TooManyImages) => pos.len() > MAX_IMAGES,
                Err(CatalogError::ImageTooLarge) => pos.len() <= MAX_IMAGES && exists|k: int|
                    0 <= k < pos.len() && entry_sizes@[#[trigger] pos[k]] > u32::MAX,
            }
        }),
{
    let ghost all = entry_names@;
    let n = entry_names.len();
    let mut positions: Vec<usize> = Vec::new();
    for i in 0..n
        invariant
            n == all.len(),
            all == entry_names@,
            positions@.len() == image_positions(all.take(i as int)).len(),
            forall|k: int| 0 <= k < positions@.len() ==> #[trigger] positions@[k] as int == image_positions(all.take(i as int))[k],
    {
        assert(all.take(i + 1).drop_last() =~= all.take(i as int));
        if image_name(&entry_names[i]) {
            positions.push(i);
        }
    }
    assert(all.take(n as int) =~= all);
    proof { lemma_image_positions_bounded(all); }
    let ghost pos = image_positions(all);
    let m = positions.len();
    if m > MAX_IMAGES {
        return Err(CatalogError::TooManyImages);
    }
    let mut files = ImageFiles { names: Vec::new(), uncompressed_lengths: Vec::new(), file_numbers: Vec::new() };
    let mut k: usize = 0;
    while k < m
        invariant
            k <= m,
            m == positions@.len(),
            m == pos.len(),
            m <= MAX_IMAGES,
            n == all.len(),
            all == entry_names@,
            all.len() == entry_sizes@.len(),
            pos == image_positions(all),
            forall|j: int| 0 <= j < m ==> #[trigger] positions@[j] as int == pos[j],
            forall|j: int| 0 <= j < pos.len() ==> 0 <= #[trigger] pos[j] < all.len(),
            forall|j: int| 0 <= j < k ==> entry_sizes@[#[trigger] pos[j]] <= u32::MAX,
            files.names@.len() == k,
            files.uncompressed_lengths@.len() == k,
            files.file_numbers@.len() == k,
            forall|j: int| 0 <= j < k ==> {
                &&& (#[trigger] files.file_numbers@[j]) == pos[j]
                &&& files.names@[j]@ == last_segment(all[pos[j]]@)
                &&& files.uncompressed_lengths@[j] == entry_sizes@[pos[j]]
            },
        decreases m - k,
    {
        let p = positions[k];
        assert(pos[k as int] == p);
        let size = entry_sizes[p];
        if size > u32::MAX as u64 {
            return Err(CatalogError::ImageTooLarge);
        }
        let name = &entry_names[p];
        let start = segment_start(name.as_slice());
        let segment = slice_to_vec(slice_subrange(name.as_slice(), start, name.len()));
        assert(segment@ == last_segment(all[pos[k as int]]@));
        let ghost f0 = files;
        files.names.push(segment);
        files.uncompressed_lengths.push(size as u32);
        files.file_numbers.push(p);
        assert forall|j: int| 0 <= j < k + 1 implies {
            &&& (#[trigger] files.file_numbers@[j]) == pos[j]
            &&& files.names@[j]@ == last_segment(all[pos[j]]@)
            &&& files.uncompressed_lengths@[j] == entry_sizes@[pos[j]]
        } by {
            if j < k {
                assert(files.file_numbers@[j] == f0.file_numbers@[j]);
                assert(files.names@[j] == f0.names@[j]);
                assert(files.uncompressed_lengths@[j] == f0.uncompressed_lengths@[j]);
            }
        }
        k = k + 1;
    }
    Ok(files)
}

} // verus!
