//! Translation between virtual addresses and file offsets, from the load
//! records of an ELF or PE image.
use crate::ranges::{
    empty_range_map, override_range, point_values, range_map_get, range_map_insert, StartsMap,
};
use goblin::container::{Container, Ctx, Endian};
use vstd::prelude::*;

verus! {

/// The error type of `goblin`, carried through opaquely.
#[verifier::external_type_specification]
#[verifier::external_body]
pub struct ExGoblinError(goblin::error::Error);

/// The ELF program header type of a loadable segment.
pub const PT_LOAD: u32 = 1;

/// An ELF program header, as far as the mapping reads it.
#[derive(Clone, Copy, Debug, PartialEq, Eq)]
pub struct SegmentRecord {
    pub kind: u32,
    pub file_start: u64,
    pub file_size: u64,
    pub va_start: u64,
    pub va_size: u64,
}

/// A PE section header, as far as the mapping reads it.
#[derive(Clone, Copy, Debug, PartialEq, Eq)]
pub struct SectionRecord {
    pub file_start: u32,
    pub file_size: u32,
    pub va_start: u32,
    pub va_size: u32,
}

/// The load records of an executable image.
#[derive(Debug)]
pub enum ImageHeaders {
    Elf { segments: Vec<SegmentRecord> },
    Pe { image_base: u64, sections: Vec<SectionRecord> },
    Other,
}

/// What the first bytes of an image say it is.
#[derive(Clone, Copy, Debug, PartialEq, Eq)]
pub enum ImageKind {
    Elf,
    Pe,
    Other,
}

/// The kind that the 16 bytes `head` announce, or `None` where they hold a
/// magic number whose context does not parse.
pub uninterp spec fn peeked_kind(head: Seq<u8>) -> Option<ImageKind>;

/// Relies on `goblin::peek_bytes`: it classifies an image by its first 16
/// bytes alone (ELF magic, DOS magic, or another format).
#[verifier::external_body]
fn peek_kind(bytes: &[u8]) -> (r: Result<ImageKind, goblin::error::Error>)
    requires
        bytes@.len() >= 16,
    ensures
        r is Ok <==> peeked_kind(bytes@.take(16)) is Some,
        r is Ok ==> peeked_kind(bytes@.take(16)) == Some(r->Ok_0),
{
    let head: &[u8; 16] = bytes[..16].try_into().unwrap();
    Ok(match goblin::peek_bytes(head)? {
        goblin::Hint::Elf(_) => ImageKind::Elf,
        goblin::Hint::PE => ImageKind::Pe,
        _ => ImageKind::Other,
    })
}

/// The fields of an ELF file header that locate its program headers.
#[derive(Clone, Copy, Debug, PartialEq, Eq)]
pub struct ElfHeaderRecord {
    pub class: u8,
    pub data: u8,
    pub phoff: u64,
    pub phnum: u16,
}

/// The ELF file header at the start of `b`, or `None` where it does not parse.
pub uninterp spec fn elf_header_of(b: Seq<u8>) -> Option<ElfHeaderRecord>;

/// Relies on `goblin::elf::Elf::parse_header`: it checks the magic, the class
/// (1 or 2) and the data encoding (1 or 2), then reads the header's fields.
#[verifier::external_body]
fn read_elf_header(bytes: &[u8]) -> (r: Result<ElfHeaderRecord, goblin::error::Error>)
    ensures
        r is Ok <==> elf_header_of(bytes@) is Some,
        r is Ok ==> elf_header_of(bytes@) == Some(r->Ok_0),
        r is Ok ==> (r->Ok_0.class == 1 || r->Ok_0.class == 2) && (r->Ok_0.data == 1 || r->Ok_0.data == 2),
{
    let h = goblin::elf::Elf::parse_header(bytes)?;
    Ok(ElfHeaderRecord { class: h.e_ident[goblin::elf::header::EI_CLASS], data: h.e_ident[goblin::elf::header::EI_DATA], phoff: h.e_phoff, phnum: h.e_phnum })
}

/// The `count` program headers at `offset` of `b`, in the given width and
/// byte order, or `None` where they do not fit or parse.
pub uninterp spec fn program_headers_of(b: Seq<u8>, offset: usize, count: usize, is_64: bool, is_lsb: bool) -> Option<Seq<SegmentRecord>>;

/// Relies on `goblin::elf::program_header::ProgramHeader::parse`: it rejects a
/// count larger than the bytes can hold, then reads each header in turn.
#[verifier::external_body]
fn read_program_headers(bytes: &[u8], offset: usize, count: usize, is_64: bool, is_lsb: bool) -> (r: Result<Vec<SegmentRecord>, goblin::error::Error>)
    ensures
        r is Ok <==> program_headers_of(bytes@, offset, count, is_64, is_lsb) is Some,
        r is Ok ==> program_headers_of(bytes@, offset, count, is_64, is_lsb) == Some(r->Ok_0@),
{
    let ctx = Ctx::new(if is_64 { Container::Big } else { Container::Little }, if is_lsb { Endian::Little } else { Endian::Big });
    let headers = goblin::elf::program_header::ProgramHeader::parse(bytes, offset, count, ctx)?;
    Ok(headers.iter().map(|p| SegmentRecord { kind: p.p_type, file_start: p.p_offset, file_size: p.p_filesz, va_start: p.p_vaddr, va_size: p.p_memsz }).collect())
}

/// The fields of a PE header that locate its section table, and its image base.
#[derive(Clone, Copy, Debug, PartialEq, Eq)]
pub struct PeHeaderRecord {
    pub pe_pointer: u32,
    pub optional_header_size: u16,
    pub section_count: u16,
    pub image_base: Option<u64>,
}

/// The PE header of `b`, or `None` where it does not parse.
pub uninterp spec fn pe_header_of(b: Seq<u8>) -> Option<PeHeaderRecord>;

/// Relies on `goblin::pe::header::Header::parse`: it reads the DOS header, the
/// COFF header and the optional header, when there is one.
#[verifier::external_body]
fn read_pe_header(bytes: &[u8]) -> (r: Result<PeHeaderRecord, goblin::error::Error>)
    ensures
        r is Ok <==> pe_header_of(bytes@) is Some,
        r is Ok ==> pe_header_of(bytes@) == Some(r->Ok_0),
{
    let h = goblin::pe::header::Header::parse(bytes)?;
    Ok(PeHeaderRecord { pe_pointer: h.dos_header.pe_pointer, optional_header_size: h.coff_header.size_of_optional_header, section_count: h.coff_header.number_of_sections, image_base: h.optional_header.map(|o| o.windows_fields.image_base) })
}

/// The PE section header at `offset` of `b`, or `None` where it does not parse.
pub uninterp spec fn section_at(b: Seq<u8>, offset: usize) -> Option<SectionRecord>;

/// Relies on `goblin::pe::section_table::SectionTable::parse`: it reads the
/// 40-byte section header at `offset`.
#[verifier::external_body]
fn read_section(bytes: &[u8], offset: usize) -> (r: Result<SectionRecord, goblin::error::Error>)
    ensures
        r is Ok <==> section_at(bytes@, offset) is Some,
        r is Ok ==> section_at(bytes@, offset) == Some(r->Ok_0),
{
    let mut at = offset;
    let s = goblin::pe::section_table::SectionTable::parse(bytes, &mut at, 0)?;
    Ok(SectionRecord { file_start: s.pointer_to_raw_data, file_size: s.size_of_raw_data, va_start: s.virtual_address, va_size: s.virtual_size })
}

/// The size of a PE section header.
pub const SECTION_HEADER_SIZE: usize = 40;

/// The `count` section headers from `offset` on, where all of them parse and
/// their offsets fit.
pub open spec fn sections_of(b: Seq<u8>, offset: int, count: int) -> Option<Seq<SectionRecord>>
    decreases count,
{
    if count <= 0 {
        Some(Seq::empty())
    } else if offset > usize::MAX {
        None
    } else {
        match section_at(b, offset as usize) {
            None => None,
            Some(s) => match sections_of(b, offset + SECTION_HEADER_SIZE, count - 1) {
                None => None,
                Some(rest) => Some(seq![s] + rest),
            },
        }
    }
}

/// The load records of the image in `b`: an image shorter than 16 bytes or of
/// an unknown kind has none; an ELF or PE image whose headers do not parse is
/// malformed.
pub open spec fn headers_of(b: Seq<u8>) -> Result<HeadersView, MappingError> {
    if b.len() < 16 {
        Ok(HeadersView::Other)
    } else {
        match peeked_kind(b.take(16)) {
            Some(ImageKind::Elf) => match elf_header_of(b) {
                None => Err(MappingError::Malformed),
                Some(h) => if h.phoff > usize::MAX {
                    Err(MappingError::Malformed)
                } else {
                    match program_headers_of(b, h.phoff as usize, h.phnum as usize, h.class == 2, h.data == 1) {
                        None => Err(MappingError::Malformed),
                        Some(s) => Ok(HeadersView::Elf(s)),
                    }
                },
            },
            Some(ImageKind::Pe) => match pe_header_of(b) {
                None => Err(MappingError::Malformed),
                Some(h) => match sections_of(b, h.pe_pointer + 24 + h.optional_header_size, h.section_count as int) {
                    None => Err(MappingError::Malformed),
                    Some(s) => Ok(
                        HeadersView::Pe(
                            match h.image_base {
                                Some(x) => x,
                                None => 0,
                            },
                            s,
                        ),
                    ),
                },
            },
            _ => Ok(HeadersView::Other),
        }
    }
}

/// The image base and the regions that load records describe, or the error.
pub open spec fn headers_spans(h: HeadersView) -> Result<(int, Seq<Span>), MappingError> {
    match h {
        HeadersView::Elf(segments) => match elf_spans(segments) {
            None => Err(MappingError::Overflow),
            Some(s) => Ok((0, s)),
        },
        HeadersView::Pe(image_base, sections) => if image_base > usize::MAX {
            Err(MappingError::Overflow)
        } else {
            match pe_spans(sections) {
                None => Err(MappingError::Overflow),
                Some(s) => Ok((image_base as int, s)),
            }
        },
        HeadersView::Other => Ok((0, Seq::empty())),
    }
}

/// The mathematical content of [`ImageHeaders`].
pub enum HeadersView {
    Elf(Seq<SegmentRecord>),
    Pe(u64, Seq<SectionRecord>),
    Other,
}

impl ImageHeaders {
    pub open spec fn view_headers(&self) -> HeadersView {
        match self {
            ImageHeaders::Elf { segments } => HeadersView::Elf(segments@),
            ImageHeaders::Pe { image_base, sections } => HeadersView::Pe(*image_base, sections@),
            ImageHeaders::Other => HeadersView::Other,
        }
    }
}

/// Reads the load records of the image in `bytes`.
pub fn read_image_headers(bytes: &[u8]) -> (r: Result<ImageHeaders, MappingError>)
    ensures
        match (r, headers_of(bytes@)) {
            (Ok(h), Ok(v)) => h.view_headers() == v,
            (Err(e1), Err(e2)) => e1 == e2,
            _ => false,
        },
{
    if bytes.len() < 16 {
        return Ok(ImageHeaders::Other);
    }
    match peek_kind(bytes) {
        Ok(ImageKind::Elf) => {
            let h = match read_elf_header(bytes) {
                Ok(h) => h,
                Err(_) => {
                    return Err(MappingError::Malformed);
                },
            };
            if h.phoff as u128 > usize::MAX as u128 {
                return Err(MappingError::Malformed);
            }
            match read_program_headers(bytes, h.phoff as usize, h.phnum as usize, h.class == 2, h.data == 1) {
                Ok(segments) => Ok(ImageHeaders::Elf { segments }),
                Err(_) => Err(MappingError::Malformed),
            }
        },
        Ok(ImageKind::Pe) => {
            let h = match read_pe_header(bytes) {
                Ok(h) => h,
                Err(_) => {
                    return Err(MappingError::Malformed);
                },
            };
            let ghost start = h.pe_pointer + 24 + h.optional_header_size;
            let count = h.section_count as usize;
            let mut sections: Vec<SectionRecord> = Vec::new();
            let mut offset: u128 = h.pe_pointer as u128 + 24 + h.optional_header_size as u128;
            let mut i: usize = 0;
            while i < count
                invariant
                    bytes@.len() >= 16,
                    peeked_kind(bytes@.take(16)) == Some(ImageKind::Pe),
                    pe_header_of(bytes@) == Some(h),
                    start == h.pe_pointer + 24 + h.optional_header_size,
                    count == h.section_count,
                    i <= count,
                    offset == start + SECTION_HEADER_SIZE * i,
                    offset <= start + SECTION_HEADER_SIZE * count,
                    sections_of(bytes@, start, count as int) == (match sections_of(bytes@, offset as int, count - i) {
                        None => None,
                        Some(rest) => Some(sections@ + rest),
                    }),
                decreases count - i,
            {
                if offset > usize::MAX as u128 {
                    assert(sections_of(bytes@, offset as int, count - i) is None);
                    return Err(MappingError::Malformed);
                }
                let sec = match read_section(bytes, offset as usize) {
                    Ok(sec) => sec,
                    Err(_) => {
                        assert(sections_of(bytes@, offset as int, count - i) is None);
                        return Err(MappingError::Malformed);
                    },
                };
                proof {
                    let rest = sections_of(bytes@, offset + SECTION_HEADER_SIZE, count - i - 1);
                    if rest is Some {
                        assert(sections@ + (seq![sec] + rest->0) == sections@.push(sec) + rest->0);
                    }
                }
                sections.push(sec);
                offset = offset + SECTION_HEADER_SIZE as u128;
                i = i + 1;
            }
            proof {
                assert(sections@ + Seq::<SectionRecord>::empty() == sections@);
            }
            let image_base = match h.image_base {
                Some(x) => x,
                None => 0,
            };
            Ok(ImageHeaders::Pe { image_base, sections })
        },
        _ => Ok(ImageHeaders::Other),
    }
}

/// Why an image's load records could not be turned into a mapping.
#[derive(Clone, Copy, Debug, PartialEq, Eq)]
pub enum MappingError {
    /// The headers of an ELF or PE image do not parse.
    Malformed,
    /// A load record's range does not fit in the address space.
    Overflow,
}

/// One loaded region: the file range `[file_start, file_end)` is loaded at the
/// virtual range `[va_start, va_end)`.
#[derive(Clone, Copy, Debug, PartialEq, Eq)]
pub struct Span {
    pub file_start: usize,
    pub file_end: usize,
    pub va_start: usize,
    pub va_end: usize,
}

/// Translation between virtual addresses and file offsets.
pub struct ExecutableMapping {
    /// The preferred image base.
    image_base: usize,
    /// Maps virtual addresses to the virtual and file start of their region.
    rva_mapping: StartsMap,
    /// Maps file offsets to the file and virtual start of their region.
    file_mapping: StartsMap,
    /// The loaded regions, in the order of the image's load records; a later
    /// region takes precedence where two overlap.
    spans: Ghost<Seq<Span>>,
}

/// What the virtual addresses of the regions `s`, inserted in order, map to.
pub open spec fn va_points(s: Seq<Span>) -> Map<int, (usize, usize)>
    decreases s.len(),
{
    if s.len() == 0 {
        Map::empty()
    } else {
        let sp = s.last();
        override_range(va_points(s.drop_last()), sp.va_start as int, sp.va_end as int, (sp.va_start, sp.file_start))
    }
}

/// What the file offsets of the regions `s`, inserted in order, map to.
pub open spec fn file_points(s: Seq<Span>) -> Map<int, (usize, usize)>
    decreases s.len(),
{
    if s.len() == 0 {
        Map::empty()
    } else {
        let sp = s.last();
        override_range(file_points(s.drop_last()), sp.file_start as int, sp.file_end as int, (sp.file_start, sp.va_start))
    }
}

/// The region for a record whose four fields are given, or `None` where its
/// ends overflow.
pub open spec fn span_of(file_start: int, file_size: int, va_start: int, va_size: int) -> Option<Span> {
    if file_start + file_size <= usize::MAX && va_start + va_size <= usize::MAX {
        Some(
            Span {
                file_start: file_start as usize,
                file_end: (file_start + file_size) as usize,
                va_start: va_start as usize,
                va_end: (va_start + va_size) as usize,
            },
        )
    } else {
        None
    }
}

/// The regions of the ELF load segments among `s`: those of type `PT_LOAD`
/// with a nonzero file and memory size; `None` where one overflows.
pub open spec fn elf_spans(s: Seq<SegmentRecord>) -> Option<Seq<Span>>
    decreases s.len(),
{
    if s.len() == 0 {
        Some(Seq::empty())
    } else {
        let r = s.last();
        match elf_spans(s.drop_last()) {
            None => None,
            Some(prefix) => if r.kind != PT_LOAD || r.file_size == 0 || r.va_size == 0 {
                Some(prefix)
            } else {
                match span_of(r.file_start as int, r.file_size as int, r.va_start as int, r.va_size as int) {
                    None => None,
                    Some(sp) => Some(prefix.push(sp)),
                }
            },
        }
    }
}

/// The regions of the PE sections among `s` whose raw data and virtual size
/// are both nonzero; `None` where one overflows.
pub open spec fn pe_spans(s: Seq<SectionRecord>) -> Option<Seq<Span>>
    decreases s.len(),
{
    if s.len() == 0 {
        Some(Seq::empty())
    } else {
        let r = s.last();
        match pe_spans(s.drop_last()) {
            None => None,
            Some(prefix) => if r.file_size == 0 || r.va_size == 0 {
                Some(prefix)
            } else {
                match span_of(r.file_start as int, r.file_size as int, r.va_start as int, r.va_size as int) {
                    None => None,
                    Some(sp) => Some(prefix.push(sp)),
                }
            },
        }
    }
}

/// The region for a record, where its ends fit.
fn make_span(file_start: u64, file_size: u64, va_start: u64, va_size: u64) -> (r: Option<Span>)
    ensures
        r == span_of(file_start as int, file_size as int, va_start as int, va_size as int),
{
    if file_start as u128 + file_size as u128 > usize::MAX as u128 || va_start as u128
        + va_size as u128 > usize::MAX as u128 {
        return None;
    }
    Some(
        Span {
            file_start: file_start as usize,
            file_end: (file_start + file_size) as usize,
            va_start: va_start as usize,
            va_end: (va_start + va_size) as usize,
        },
    )
}

/// The last region of `s` whose virtual range holds `x`.
pub open spec fn last_va_span(s: Seq<Span>, x: int) -> Option<Span>
    decreases s.len(),
{
    if s.len() == 0 {
        None
    } else if s.last().va_start <= x < s.last().va_end {
        Some(s.last())
    } else {
        last_va_span(s.drop_last(), x)
    }
}

/// The last region of `s` whose file range holds `x`.
pub open spec fn last_file_span(s: Seq<Span>, x: int) -> Option<Span>
    decreases s.len(),
{
    if s.len() == 0 {
        None
    } else if s.last().file_start <= x < s.last().file_end {
        Some(s.last())
    } else {
        last_file_span(s.drop_last(), x)
    }
}

/// `Some(x)` where `x` fits in a `usize`, else `None`.
pub open spec fn fits(x: int) -> Option<usize> {
    if 0 <= x <= usize::MAX {
        Some(x as usize)
    } else {
        None
    }
}

impl ExecutableMapping {
    pub closed spec fn base(&self) -> int {
        self.image_base as int
    }

    pub closed spec fn regions(&self) -> Seq<Span> {
        self.spans@
    }

    /// What each virtual address maps to: its region's virtual and file start.
    pub closed spec fn rva_points(&self) -> Map<int, (usize, usize)> {
        point_values(self.rva_mapping)
    }

    /// What each file offset maps to: its region's file and virtual start.
    pub closed spec fn file_points(&self) -> Map<int, (usize, usize)> {
        point_values(self.file_mapping)
    }

    /// The two maps hold the regions, inserted in order.
    pub open spec fn wf(&self) -> bool {
        &&& self.rva_points() == va_points(self.regions())
        &&& self.file_points() == file_points(self.regions())
    }

    /// The file offset of the virtual address `rva`.
    pub open spec fn spec_rva_to_file_offset(&self, rva: int) -> Option<usize> {
        let x = rva - self.base();
        if x < 0 || !self.rva_points().contains_key(x) {
            None
        } else {
            let (va_start, file_start) = self.rva_points()[x];
            fits(x - va_start + file_start)
        }
    }

    /// The virtual address of the file offset `off`.
    pub open spec fn spec_file_offset_to_rva(&self, off: int) -> Option<usize> {
        if !self.file_points().contains_key(off) {
            None
        } else {
            let (file_start, va_start) = self.file_points()[off];
            fits(off - file_start + va_start + self.base())
        }
    }

    /// A mapping that translates nothing.
    pub fn empty() -> (r: Self)
        ensures
            r.wf(),
            r.base() == 0,
            r.regions() == Seq::<Span>::empty(),
    {
        let rva_mapping = empty_range_map();
        let file_mapping = empty_range_map();
        assert(point_values(rva_mapping) =~= va_points(Seq::empty()));
        assert(point_values(file_mapping) =~= file_points(Seq::empty()));
        ExecutableMapping { image_base: 0, rva_mapping, file_mapping, spans: Ghost(Seq::empty()) }
    }

    /// The mapping of the regions `spans` with the image base `image_base`.
    fn from_spans(image_base: usize, spans: &Vec<Span>) -> (r: Self)
        ensures
            r.wf(),
            r.base() == image_base,
            r.regions() == spans@,
    {
        let mut rva_mapping = empty_range_map();
        let mut file_mapping = empty_range_map();
        assert(point_values(rva_mapping) =~= va_points(spans@.take(0)));
        assert(point_values(file_mapping) =~= file_points(spans@.take(0)));
        let mut i: usize = 0;
        while i < spans.len()
            invariant
                i <= spans@.len(),
                point_values(rva_mapping) == va_points(spans@.take(i as int)),
                point_values(file_mapping) == file_points(spans@.take(i as int)),
            decreases spans@.len() - i,
        {
            let sp = spans[i];
            assert(spans@.take(i + 1).drop_last() == spans@.take(i as int));
            let ghost va_before = point_values(rva_mapping);
            let ghost file_before = point_values(file_mapping);
            if sp.va_start < sp.va_end {
                range_map_insert(&mut rva_mapping, sp.va_start, sp.va_end, (sp.va_start, sp.file_start));
            } else {
                assert(va_before =~= override_range(va_before, sp.va_start as int, sp.va_end as int, (sp.va_start, sp.file_start)));
            }
            if sp.file_start < sp.file_end {
                range_map_insert(&mut file_mapping, sp.file_start, sp.file_end, (sp.file_start, sp.va_start));
            } else {
                assert(file_before =~= override_range(file_before, sp.file_start as int, sp.file_end as int, (sp.file_start, sp.va_start)));
            }
            i = i + 1;
        }
        assert(spans@.take(spans@.len() as int) == spans@);
        ExecutableMapping { image_base, rva_mapping, file_mapping, spans: Ghost(spans@) }
    }

    /// The mapping that the load records `h` describe: the ELF load segments,
    /// or the PE sections with the image base; no region for another format.
    pub fn from_headers(h: &ImageHeaders) -> (r: Result<Self, MappingError>)
        ensures
            match (r, ExecutableMapping::from_headers_spec(*h)) {
                (Ok(m1), Ok(m2)) => m1.wf() && m1.base() == m2.0 && m1.regions() == m2.1,
                (Err(e1), Err(e2)) => e1 == e2,
                _ => false,
            },
    {
        match h {
            ImageHeaders::Elf { segments } => {
                let mut spans: Vec<Span> = Vec::new();
                let mut i: usize = 0;
                while i < segments.len()
                    invariant
                        *h == (ImageHeaders::Elf { segments: *segments }),
                        i <= segments@.len(),
                        elf_spans(segments@.take(i as int)) == Some(spans@),
                    decreases segments@.len() - i,
                {
                    let r = segments[i];
                    assert(segments@.take(i + 1).drop_last() == segments@.take(i as int));
                    if r.kind == PT_LOAD && r.file_size != 0 && r.va_size != 0 {
                        match make_span(r.file_start, r.file_size, r.va_start, r.va_size) {
                            Some(sp) => spans.push(sp),
                            None => {
                                proof {
                                    lemma_elf_spans_stay_none(segments@, i as int + 1);
                                    assert(elf_spans(segments@) is None);
                                }
                                return Err(MappingError::Overflow);
                            },
                        }
                    }
                    i = i + 1;
                }
                assert(segments@.take(segments@.len() as int) == segments@);
                Ok(ExecutableMapping::from_spans(0, &spans))
            },
            ImageHeaders::Pe { image_base, sections } => {
                if *image_base as u128 > usize::MAX as u128 {
                    return Err(MappingError::Overflow);
                }
                let mut spans: Vec<Span> = Vec::new();
                let mut i: usize = 0;
                while i < sections.len()
                    invariant
                        *h == (ImageHeaders::Pe { image_base: *image_base, sections: *sections }),
                        *image_base <= usize::MAX,
                        i <= sections@.len(),
                        pe_spans(sections@.take(i as int)) == Some(spans@),
                    decreases sections@.len() - i,
                {
                    let r = sections[i];
                    assert(sections@.take(i + 1).drop_last() == sections@.take(i as int));
                    if r.file_size != 0 && r.va_size != 0 {
                        match make_span(r.file_start as u64, r.file_size as u64, r.va_start as u64, r.va_size as u64) {
                            Some(sp) => spans.push(sp),
                            None => {
                                proof {
                                    lemma_pe_spans_stay_none(sections@, i as int + 1);
                                    assert(pe_spans(sections@) is None);
                                }
                                return Err(MappingError::Overflow);
                            },
                        }
                    }
                    i = i + 1;
                }
                assert(sections@.take(sections@.len() as int) == sections@);
                Ok(ExecutableMapping::from_spans(*image_base as usize, &spans))
            },
            ImageHeaders::Other => Ok(ExecutableMapping::empty()),
        }
    }

    /// Parses the image in `bytes` and builds its mapping.
    pub fn parse(bytes: &[u8]) -> (r: Result<Self, MappingError>)
        ensures
            match headers_of(bytes@) {
                Err(e) => r == Err::<Self, MappingError>(e),
                Ok(h) => match (r, headers_spans(h)) {
                    (Ok(m1), Ok(m2)) => m1.wf() && m1.base() == m2.0 && m1.regions() == m2.1,
                    (Err(e1), Err(e2)) => e1 == e2,
                    _ => false,
                },
            },
    {
        match read_image_headers(bytes) {
            Ok(h) => ExecutableMapping::from_headers(&h),
            Err(e) => Err(e),
        }
    }

    /// What [`ExecutableMapping::from_headers`] yields for `h`: the image base
    /// and the regions, or the error.
    pub open spec fn from_headers_spec(h: ImageHeaders) -> Result<(int, Seq<Span>), MappingError> {
        headers_spans(h.view_headers())
    }

    /// Calculates the file offset of the virtual address `rva`.
    pub fn rva_to_file_offset(&self, rva: usize) -> (r: Option<usize>)
        ensures
            r == self.spec_rva_to_file_offset(rva as int),
    {
        if rva < self.image_base {
            return None;
        }
        let x = rva - self.image_base;
        let (va_start, file_start) = match range_map_get(&self.rva_mapping, x) {
            Some(v) => v,
            None => {
                return None;
            },
        };
        let v: i128 = x as i128 - va_start as i128 + file_start as i128;
        if v < 0 || v > usize::MAX as i128 {
            return None;
        }
        Some(v as usize)
    }

    /// Calculates the virtual address of the file offset `file_offset`.
    pub fn file_offset_to_rva(&self, file_offset: usize) -> (r: Option<usize>)
        ensures
            r == self.spec_file_offset_to_rva(file_offset as int),
    {
        let (file_start, va_start) = match range_map_get(&self.file_mapping, file_offset) {
            Some(v) => v,
            None => {
                return None;
            },
        };
        let v: i128 = file_offset as i128 - file_start as i128 + va_start as i128 + self.image_base as i128;
        if v < 0 || v > usize::MAX as i128 {
            return None;
        }
        Some(v as usize)
    }
}

/// Once a prefix of the segments overflows, every longer prefix does.
proof fn lemma_elf_spans_stay_none(s: Seq<SegmentRecord>, i: int)
    requires
        0 < i <= s.len(),
        ({
            let r = s[i - 1];
            &&& r.kind == PT_LOAD && r.file_size != 0 && r.va_size != 0
            &&& span_of(r.file_start as int, r.file_size as int, r.va_start as int, r.va_size as int) is None
        }),
    ensures
        elf_spans(s) is None,
    decreases s.len() - i,
{
    if i < s.len() {
        lemma_elf_spans_stay_none(s.drop_last(), i);
        assert(s.drop_last()[i - 1] == s[i - 1]);
    } else {
        assert(s.drop_last() == s.take(i - 1));
    }
}

/// Once a prefix of the sections overflows, every longer prefix does.
proof fn lemma_pe_spans_stay_none(s: Seq<SectionRecord>, i: int)
    requires
        0 < i <= s.len(),
        ({
            let r = s[i - 1];
            &&& r.file_size != 0 && r.va_size != 0
            &&& span_of(r.file_start as int, r.file_size as int, r.va_start as int, r.va_size as int) is None
        }),
    ensures
        pe_spans(s) is None,
    decreases s.len() - i,
{
    if i < s.len() {
        lemma_pe_spans_stay_none(s.drop_last(), i);
        assert(s.drop_last()[i - 1] == s[i - 1]);
    } else {
        assert(s.drop_last() == s.take(i - 1));
    }
}

impl ExecutableMapping {
    /// Whether the mapping can be inverted: no two regions share a virtual
    /// address, and no region's file range is longer than its virtual range.
    pub open spec fn invertible(&self) -> bool {
        &&& forall|i: int, j: int|
            0 <= i < j < self.regions().len() ==> (#[trigger] self.regions()[i]).va_end
                <= (#[trigger] self.regions()[j]).va_start || self.regions()[j].va_end
                <= self.regions()[i].va_start
        &&& forall|i: int|
            0 <= i < self.regions().len() ==> (#[trigger] self.regions()[i]).file_end
                - self.regions()[i].file_start <= self.regions()[i].va_end
                - self.regions()[i].va_start
    }
}

proof fn lemma_last_file_span_in(s: Seq<Span>, x: int)
    requires
        last_file_span(s, x) is Some,
    ensures
        exists|k: int|
            0 <= k < s.len() && s[k] == last_file_span(s, x)->0 && s[k].file_start <= x
                < s[k].file_end,
    decreases s.len(),
{
    if !(s.last().file_start <= x < s.last().file_end) {
        lemma_last_file_span_in(s.drop_last(), x);
        let k = choose|k: int|
            0 <= k < s.drop_last().len() && s.drop_last()[k] == last_file_span(s.drop_last(), x)->0
                && s.drop_last()[k].file_start <= x < s.drop_last()[k].file_end;
        assert(s[k] == s.drop_last()[k]);
    } else {
        assert(s[s.len() - 1] == s.last());
    }
}

proof fn lemma_only_va_span(s: Seq<Span>, k: int, y: int)
    requires
        0 <= k < s.len(),
        s[k].va_start <= y < s[k].va_end,
        forall|j: int| 0 <= j < s.len() && j != k ==> !((#[trigger] s[j]).va_start <= y < s[j].va_end),
    ensures
        last_va_span(s, y) == Some(s[k]),
    decreases s.len(),
{
    if k < s.len() - 1 {
        assert(!(s.last().va_start <= y < s.last().va_end));
        assert forall|j: int| 0 <= j < s.drop_last().len() && j != k implies !(
        (#[trigger] s.drop_last()[j]).va_start <= y < s.drop_last()[j].va_end) by {
            assert(s.drop_last()[j] == s[j]);
        }
        lemma_only_va_span(s.drop_last(), k, y);
    }
}

proof fn lemma_va_points_last(s: Seq<Span>, y: int)
    ensures
        va_points(s).contains_key(y) <==> last_va_span(s, y) is Some,
        last_va_span(s, y) is Some ==> va_points(s)[y] == (
            last_va_span(s, y)->0.va_start,
            last_va_span(s, y)->0.file_start,
        ),
    decreases s.len(),
{
    if s.len() > 0 {
        lemma_va_points_last(s.drop_last(), y);
    }
}

proof fn lemma_file_points_last(s: Seq<Span>, x: int)
    ensures
        file_points(s).contains_key(x) <==> last_file_span(s, x) is Some,
        last_file_span(s, x) is Some ==> file_points(s)[x] == (
            last_file_span(s, x)->0.file_start,
            last_file_span(s, x)->0.va_start,
        ),
    decreases s.len(),
{
    if s.len() > 0 {
        lemma_file_points_last(s.drop_last(), x);
    }
}

/// In an invertible mapping, translating a file offset to its virtual address
/// and back gives the file offset again.
pub proof fn lemma_round_trip(m: ExecutableMapping, x: int)
    requires
        m.wf(),
        m.invertible(),
        m.spec_file_offset_to_rva(x) is Some,
    ensures
        m.spec_rva_to_file_offset(m.spec_file_offset_to_rva(x)->0 as int) == Some(x as usize),
{
    let s = m.regions();
    lemma_file_points_last(s, x);
    lemma_last_file_span_in(s, x);
    let k = choose|k: int|
        0 <= k < s.len() && s[k] == last_file_span(s, x)->0 && s[k].file_start <= x < s[k].file_end;
    let sp = s[k];
    let y = x - sp.file_start + sp.va_start;
    assert forall|j: int| 0 <= j < s.len() && j != k implies !((#[trigger] s[j]).va_start <= y < s[j].va_end) by {
        if j < k {
            assert(s[j].va_end <= s[k].va_start || s[k].va_end <= s[j].va_start);
        } else {
            assert(s[k].va_end <= s[j].va_start || s[j].va_end <= s[k].va_start);
        }
    }
    lemma_only_va_span(s, k, y);
    lemma_va_points_last(s, y);
}

} // verus!
