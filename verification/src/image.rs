//! Binary images: the two formats a process can be created from, and what
//! loading one of them copies into the process's code region.
//!
//! An image is recognised by its first four bytes. An ELF image is read by
//! the `object` crate; each loadable segment whose bytes the file holds is
//! copied to the segment's address, counted from the base of the code region,
//! and execution begins at the entry point of the ELF header. A flat image is
//! copied as it stands to the base of the code region, where execution begins.

use vstd::prelude::*;
use vstd::slice::slice_to_vec;
use object::{Object, ObjectSegment};

verus! {

/// The size in bytes of the region that holds a process's code and stack.
pub const MAX_PROC_SIZE: usize = 10 * 1024 * 1024;

/// The formats of binary image that are recognised.
#[derive(Clone, Copy, Debug, PartialEq, Eq, Structural)]
pub enum ImageFormat {
    /// Starts with `7F 45 4C 46`.
    Elf,
    /// Starts with `7F 42 49 4E`.
    Flat,
}

/// Why an image cannot be loaded.
#[derive(Clone, Copy, Debug, PartialEq, Eq, Structural)]
pub enum ImageError {
    /// The image starts with neither magic, or starts with the ELF magic and
    /// is no ELF file that can be read.
    BadFormat,
    /// The entry point or a part of the image lies outside the code region.
    OutOfBounds,
}

/// The format that the first four bytes of `bin` announce.
pub open spec fn format_of(bin: Seq<u8>) -> Option<ImageFormat> {
    if bin.len() >= 4 && bin[0] == 0x7F && bin[1] == 0x45 && bin[2] == 0x4C && bin[3] == 0x46 {
        Some(ImageFormat::Elf)
    } else if bin.len() >= 4 && bin[0] == 0x7F && bin[1] == 0x42 && bin[2] == 0x49 && bin[3]
        == 0x4E {
        Some(ImageFormat::Flat)
    } else {
        None
    }
}

/// Reads the format of an image off its first four bytes. An image of fewer
/// than four bytes has no format.
pub fn image_format(bin: &[u8]) -> (r: Option<ImageFormat>)
    ensures
        r == format_of(bin@),
{
    if bin.len() < 4 {
        return None;
    }
    if bin[0] == 0x7F && bin[1] == 0x45 && bin[2] == 0x4C && bin[3] == 0x46 {
        Some(ImageFormat::Elf)
    } else if bin[0] == 0x7F && bin[1] == 0x42 && bin[2] == 0x49 && bin[3] == 0x4E {
        Some(ImageFormat::Flat)
    } else {
        None
    }
}

/// Bytes to copy into the code region, `address` bytes above its base.
pub struct Segment {
    pub address: u64,
    pub data: Vec<u8>,
}

impl View for Segment {
    type V = (u64, Seq<u8>);

    open spec fn view(&self) -> (u64, Seq<u8>) {
        (self.address, self.data@)
    }
}

/// The views of a list of segments.
pub open spec fn segment_views(segments: Seq<Segment>) -> Seq<(u64, Seq<u8>)> {
    Seq::new(segments.len(), |i: int| segments[i]@)
}

/// A loaded image: where execution begins, counted from the base of the code
/// region, and the bytes to copy there.
pub struct Image {
    pub entry_point: u64,
    pub segments: Vec<Segment>,
}

/// An image as plain values.
pub struct ImageView {
    pub entry_point: u64,
    pub segments: Seq<(u64, Seq<u8>)>,
}

impl View for Image {
    type V = ImageView;

    open spec fn view(&self) -> ImageView {
        ImageView {
            entry_point: self.entry_point,
            segments: segment_views(self.segments@),
        }
    }
}

/// The view of the result of loading.
pub open spec fn loaded_view(r: Result<Image, ImageError>) -> Result<ImageView, ImageError> {
    match r {
        Ok(image) => Ok(image@),
        Err(e) => Err(e),
    }
}

/// The entry point and every segment lie inside the code region.
pub open spec fn image_in_bounds(image: ImageView) -> bool {
    &&& image.entry_point < MAX_PROC_SIZE
    &&& forall|i: int|
        0 <= i < image.segments.len() ==> (#[trigger] image.segments[i]).0
            + image.segments[i].1.len() <= MAX_PROC_SIZE
}

/// One loadable segment of an ELF file, as the parser hands it out: its
/// address, and its bytes unless the file does not hold the range that the
/// program header names.
pub struct ElfSegment {
    pub address: u64,
    pub data: Option<Vec<u8>>,
}

impl View for ElfSegment {
    type V = (u64, Option<Seq<u8>>);

    open spec fn view(&self) -> (u64, Option<Seq<u8>>) {
        (
            self.address,
            match self.data {
                Some(d) => Some(d@),
                None => None,
            },
        )
    }
}

/// The views of a list of segments of a parsed file.
pub open spec fn elf_segment_views(segments: Seq<ElfSegment>) -> Seq<(u64, Option<Seq<u8>>)> {
    Seq::new(segments.len(), |i: int| segments[i]@)
}

/// What loading reads of a parsed ELF file: the entry point of its header
/// and its loadable segments in the order of the program headers.
pub struct ElfFile {
    pub entry: u64,
    pub segments: Vec<ElfSegment>,
}

impl View for ElfFile {
    type V = (u64, Seq<(u64, Option<Seq<u8>>)>);

    open spec fn view(&self) -> (u64, Seq<(u64, Option<Seq<u8>>)>) {
        (self.entry, elf_segment_views(self.segments@))
    }
}

/// The view of an optional parsed file.
pub open spec fn parsed_view(r: Option<ElfFile>) -> Option<(u64, Seq<(u64, Option<Seq<u8>>)>)> {
    match r {
        Some(file) => Some(file@),
        None => None,
    }
}

/// What the `object` crate reads out of the bytes `bin`: nothing if it cannot
/// parse them, else the entry point and, for each loadable segment, its
/// address and its bytes.
pub uninterp spec fn elf_contents(bin: Seq<u8>) -> Option<(u64, Seq<(u64, Option<Seq<u8>>)>)>;

/// Parses `bin` with `object::File::parse` and reads out of the parsed file
/// what loading needs: `Object::entry`, and for each segment that
/// `Object::segments` yields its `ObjectSegment::address` and the bytes that
/// `ObjectSegment::data` returns (`None` where it returns an error). The
/// result is `None` where the parser returns an error. Nothing is proved of
/// the parser: the contract only names its result, a function of the bytes.
#[verifier::external_body]
fn parse_elf(bin: &[u8]) -> (r: Option<ElfFile>)
    ensures
        parsed_view(r) == elf_contents(bin@),
{
    let file = object::File::parse(bin).ok()?;
    let segments = file.segments().map(
        |s| ElfSegment { address: s.address(), data: s.data().ok().map(|d| d.to_vec()) },
    ).collect();
    Some(ElfFile { entry: file.entry(), segments })
}

/// The segments that hold bytes, in order, each with its address.
pub open spec fn loadable(segments: Seq<(u64, Option<Seq<u8>>)>) -> Seq<(u64, Seq<u8>)>
    decreases segments.len(),
{
    if segments.len() == 0 {
        Seq::empty()
    } else {
        let rest = loadable(segments.drop_last());
        match segments.last().1 {
            Some(data) => rest.push((segments.last().0, data)),
            None => rest,
        }
    }
}

/// The image that a parsed ELF file loads as.
pub open spec fn elf_image(file: (u64, Seq<(u64, Option<Seq<u8>>)>)) -> ImageView {
    ImageView { entry_point: file.0, segments: loadable(file.1) }
}

/// The image that a flat binary loads as: the whole of it at the base of the
/// code region, where execution begins.
pub open spec fn flat_image(bin: Seq<u8>) -> ImageView {
    ImageView { entry_point: 0, segments: seq![(0u64, bin)] }
}

/// What loading `bin` gives. The image must start with one of the two
/// magics, an ELF image must parse, and what is loaded must lie inside the
/// code region.
pub open spec fn image_of(bin: Seq<u8>) -> Result<ImageView, ImageError> {
    match format_of(bin) {
        None => Err(ImageError::BadFormat),
        Some(ImageFormat::Flat) => bounded(flat_image(bin)),
        Some(ImageFormat::Elf) => match elf_contents(bin) {
            None => Err(ImageError::BadFormat),
            Some(file) => bounded(elf_image(file)),
        },
    }
}

/// The image if it lies inside the code region, else the error that says it
/// does not.
pub open spec fn bounded(image: ImageView) -> Result<ImageView, ImageError> {
    if image_in_bounds(image) {
        Ok(image)
    } else {
        Err(ImageError::OutOfBounds)
    }
}

/// Turns a parsed ELF file into the image to load: the segments that hold
/// bytes are kept in order, the others are passed over. Fails if the entry
/// point or a kept segment lies outside the code region.
pub fn load_elf(file: ElfFile) -> (r: Result<Image, ImageError>)
    ensures
        loaded_view(r) == bounded(elf_image(file@)),
{
    let ghost all = file@.1;
    let entry = file.entry;
    let segments = file.segments;
    let mut kept: Vec<Segment> = Vec::new();
    let mut fits = entry < MAX_PROC_SIZE as u64;
    for segment in it: segments.into_iter()
        invariant
            elf_segment_views(it.seq()) == all,
            segment_views(kept@) == loadable(all.take(it.index() as int)),
            fits == image_in_bounds(
                ImageView { entry_point: entry, segments: segment_views(kept@) },
            ),
    {
        proof {
            let i = it.index() as int;
            assert(all.take(i + 1).drop_last() =~= all.take(i));
            assert(segment@ == all[i]);
        }
        match segment.data {
            Some(data) => {
                let ok = data.len() <= MAX_PROC_SIZE && segment.address <= (MAX_PROC_SIZE
                    - data.len()) as u64;
                let ghost before = ImageView { entry_point: entry, segments: segment_views(kept@) };
                let ghost added = (segment.address, data@);
                kept.push(Segment { address: segment.address, data });
                proof {
                    let after = ImageView { entry_point: entry, segments: segment_views(kept@) };
                    assert(after.segments =~= before.segments.push(added));
                    if image_in_bounds(after) {
                        assert forall|j: int| 0 <= j < before.segments.len() implies (
                        #[trigger] before.segments[j]).0 + before.segments[j].1.len()
                            <= MAX_PROC_SIZE by {
                            assert(after.segments[j] == before.segments[j]);
                        }
                        assert(after.segments[before.segments.len() as int] == added);
                    }
                    if fits && ok {
                        assert forall|j: int| 0 <= j < after.segments.len() implies (
                        #[trigger] after.segments[j]).0 + after.segments[j].1.len()
                            <= MAX_PROC_SIZE by {
                            if j < before.segments.len() {
                                assert(after.segments[j] == before.segments[j]);
                            }
                        }
                    }
                }
                fits = fits && ok;
            },
            None => {},
        }
    }
    proof {
        assert(all.take(all.len() as int) =~= all);
    }
    if !fits {
        return Err(ImageError::OutOfBounds);
    }
    let image = Image { entry_point: entry, segments: kept };
    proof {
        assert(image@.segments =~= segment_views(kept@));
    }
    Ok(image)
}

/// Loads a flat image: the whole of it goes to the base of the code region.
/// Fails if it is larger than the region.
pub fn load_flat(bin: &[u8]) -> (r: Result<Image, ImageError>)
    ensures
        loaded_view(r) == bounded(flat_image(bin@)),
{
    if bin.len() > MAX_PROC_SIZE {
        proof {
            assert(flat_image(bin@).segments[0] == (0u64, bin@));
        }
        return Err(ImageError::OutOfBounds);
    }
    let mut segments: Vec<Segment> = Vec::new();
    segments.push(Segment { address: 0, data: slice_to_vec(bin) });
    let image = Image { entry_point: 0, segments };
    proof {
        assert(image@.segments =~= flat_image(bin@).segments);
        assert(image@ == flat_image(bin@));
        assert(image_in_bounds(image@));
    }
    Ok(image)
}

/// Loads a binary image: reads its format off the first four bytes, then
/// loads it as that format says.
pub fn load_image(bin: &[u8]) -> (r: Result<Image, ImageError>)
    ensures
        loaded_view(r) == image_of(bin@),
{
    match image_format(bin) {
        None => Err(ImageError::BadFormat),
        Some(ImageFormat::Flat) => load_flat(bin),
        Some(ImageFormat::Elf) => match parse_elf(bin) {
            None => Err(ImageError::BadFormat),
            Some(file) => load_elf(file),
        },
    }
}

} // verus!
