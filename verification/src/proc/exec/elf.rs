//! Parsing of ELF files.
//!
//! The headers are read by the `goblin` crate; what they say is checked and picked out
//! here.
use vstd::prelude::*;
use vstd::utf8::{decode_utf8, valid_utf8};
use crate::proc::exec::text::{cut_at_nul, until_nul, utf8_text};

verus! {

/// What is used of an ELF header.
#[derive(Debug, Clone, Copy, PartialEq, Eq, Structural)]
pub struct ElfHeader {
    /// One for 32-bit files, two for 64-bit files.
    pub class: u8,
    /// One for little-endian files, two for big-endian files.
    pub data: u8,
    pub e_type: u16,
    pub e_machine: u16,
    /// Entry point.
    pub e_entry: u64,
    /// Offset of the program headers.
    pub e_phoff: u64,
    /// Size of a program header.
    pub e_phentsize: u16,
    /// Number of program headers.
    pub e_phnum: u16,
}

/// What is used of a program header.
#[derive(Debug, Clone, Copy, PartialEq, Eq, Structural)]
pub struct ProgramHeader {
    pub p_type: u32,
    pub p_flags: u32,
    pub p_offset: u64,
    pub p_vaddr: u64,
    pub p_filesz: u64,
    pub p_memsz: u64,
}

/// Width of the numbers in a file.
#[derive(Debug, Clone, Copy, PartialEq, Eq, Structural)]
pub enum ElfClass {
    Bits32,
    Bits64,
}

/// Byte order of the numbers in a file.
#[derive(Debug, Clone, Copy, PartialEq, Eq, Structural)]
pub enum ByteOrder {
    Little,
    Big,
}

/// The width that the header gives.
pub open spec fn class_of(h: ElfHeader) -> ElfClass {
    if h.class == 1 {
        ElfClass::Bits32
    } else {
        ElfClass::Bits64
    }
}

/// The byte order that the header gives.
pub open spec fn order_of(h: ElfHeader) -> ByteOrder {
    if h.data == 1 {
        ByteOrder::Little
    } else {
        ByteOrder::Big
    }
}

/// A file with a fixed place.
pub const ET_EXEC: u16 = 2;

/// A file that can be placed anywhere.
pub const ET_DYN: u16 = 3;

/// The only machine that programs are run for.
pub const EM_RISCV: u16 = 243;

/// Program header of a part that is loaded.
pub const PT_LOAD: u32 = 1;

/// Program header with the path of the dynamic linker.
pub const PT_INTERP: u32 = 3;

/// Program header with the place of the program headers.
pub const PT_PHDR: u32 = 6;

/// Why a file cannot be run.
#[derive(Debug, PartialEq, Eq)]
pub enum ElfError {
    /// The headers cannot be read.
    ParseFailed(String),
    /// It is neither a fixed nor a movable program.
    UnsupportedType(u16),
    /// It is for another machine.
    UnsupportedMachine(u16),
    /// The program headers do not lie within the bytes given.
    PhdrOverflow { phdr_end: u64, buffer_len: usize },
    /// A program header names a part of the file past all offsets.
    RangeOverflow,
}

/// A part of the file that is loaded, as the file has it.
#[derive(Debug, Clone, Copy, PartialEq, Eq, Structural)]
pub struct ElfSegment {
    pub vaddr: u64,
    /// Bytes in memory; those past the end of the file part are zero.
    pub memsz: u64,
    /// Bytes in the file.
    pub filesz: u64,
    /// Offset into the file.
    pub offset: u64,
    pub flags: u32,
}

/// What is known of a file that can be run.
#[derive(Debug)]
pub struct ElfParseResult {
    /// Entry point.
    pub entry: u64,
    /// Parts to load, in the order of the program headers.
    pub segments: Vec<ElfSegment>,
    /// Path of the dynamic linker.
    pub interp: Option<String>,
    /// Address of the program headers, zero where the file does not say.
    pub phdr_vaddr: u64,
    pub phnum: u16,
    pub phentsize: u16,
    /// It can be placed anywhere.
    pub is_dyn: bool,
}

/// What `goblin::elf::Elf::parse_header` makes of the bytes: the header, or the text of its
/// error.
pub uninterp spec fn parsed_header(bytes: Seq<u8>) -> Result<ElfHeader, Seq<char>>;

/// What `goblin::elf::ProgramHeader::parse` makes of the bytes: `count` program headers from
/// `offset` on, for a file of the given class and byte order, or the text of its error.
pub uninterp spec fn parsed_phdrs(
    bytes: Seq<u8>,
    offset: usize,
    count: usize,
    class: ElfClass,
    order: ByteOrder,
) -> Result<Seq<ProgramHeader>, Seq<char>>;

/// Read the header.
///
/// The call is `goblin::elf::Elf::parse_header`.  What it returns is named, not stated; of a
/// header that it accepts the class is that of a 32-bit or a 64-bit file, and the byte order
/// is one of the two there are.
#[verifier::external_body]
fn read_header(bytes: &[u8]) -> (r: Result<ElfHeader, String>)
    ensures
        match r {
            Ok(h) => {
                &&& parsed_header(bytes@) == Ok::<ElfHeader, Seq<char>>(h)
                &&& h.class == 1 || h.class == 2
                &&& h.data == 1 || h.data == 2
            },
            Err(e) => parsed_header(bytes@) == Err::<ElfHeader, Seq<char>>(e@),
        },
{
    match goblin::elf::Elf::parse_header(bytes) {
        Ok(h) => Ok(ElfHeader {
            class: h.e_ident[4],
            data: h.e_ident[5],
            e_type: h.e_type,
            e_machine: h.e_machine,
            e_entry: h.e_entry,
            e_phoff: h.e_phoff,
            e_phentsize: h.e_phentsize,
            e_phnum: h.e_phnum,
        }),
        Err(e) => Err(format!("{}", e)),
    }
}

/// Read the program headers.
///
/// The call is `goblin::elf::ProgramHeader::parse`, with the context that the class and the
/// byte order stand for.  What it returns is named, not stated; there are as many program
/// headers as were asked for.
#[verifier::external_body]
fn read_phdrs(
    bytes: &[u8],
    offset: usize,
    count: usize,
    class: ElfClass,
    order: ByteOrder,
) -> (r: Result<Vec<ProgramHeader>, String>)
    ensures
        match r {
            Ok(v) => {
                &&& parsed_phdrs(bytes@, offset, count, class, order) == Ok::<
                    Seq<ProgramHeader>,
                    Seq<char>,
                >(v@)
                &&& v@.len() == count
            },
            Err(e) => parsed_phdrs(bytes@, offset, count, class, order) == Err::<
                Seq<ProgramHeader>,
                Seq<char>,
            >(e@),
        },
{
    let container = match class {
        ElfClass::Bits32 => goblin::container::Container::Little,
        ElfClass::Bits64 => goblin::container::Container::Big,
    };
    let endian = match order {
        ByteOrder::Little => goblin::container::Endian::Little,
        ByteOrder::Big => goblin::container::Endian::Big,
    };
    let ctx = goblin::container::Ctx::new(container, endian);
    match goblin::elf::ProgramHeader::parse(bytes, offset, count, ctx) {
        Ok(v) => Ok(v.iter().map(|p| ProgramHeader { p_type: p.p_type, p_flags: p.p_flags, p_offset: p.p_offset, p_vaddr: p.p_vaddr, p_filesz: p.p_filesz, p_memsz: p.p_memsz }).collect()),
        Err(e) => Err(format!("{}", e)),
    }
}

/// Whether the header is of a program for this machine.
pub open spec fn header_error(h: ElfHeader) -> Option<ElfError> {
    if h.e_type != ET_EXEC && h.e_type != ET_DYN {
        Some(ElfError::UnsupportedType(h.e_type))
    } else if h.e_machine != EM_RISCV {
        Some(ElfError::UnsupportedMachine(h.e_machine))
    } else {
        None
    }
}

/// Check that the header is of a program for this machine.
pub fn validate_header(ehdr: &ElfHeader) -> (r: Result<(), ElfError>)
    ensures
        match header_error(*ehdr) {
            Some(e) => r == Err::<(), ElfError>(e),
            None => r is Ok,
        },
{
    if ehdr.e_type != ET_EXEC && ehdr.e_type != ET_DYN {
        return Err(ElfError::UnsupportedType(ehdr.e_type));
    }
    if ehdr.e_machine != EM_RISCV {
        return Err(ElfError::UnsupportedMachine(ehdr.e_machine));
    }
    Ok(())
}

/// First byte after the program headers, the largest number where that does not fit.
pub open spec fn phdr_end(h: ElfHeader) -> int {
    let end = h.e_phoff + h.e_phnum * h.e_phentsize;
    if end > u64::MAX {
        u64::MAX as int
    } else {
        end
    }
}

/// What the headers of a file are.
pub open spec fn headers_are(
    bytes: Seq<u8>,
    r: Result<(ElfHeader, Vec<ProgramHeader>), ElfError>,
) -> bool {
    match parsed_header(bytes) {
        Err(m) => r matches Err(ElfError::ParseFailed(s)) && s@ == m,
        Ok(h) => if phdr_end(h) > bytes.len() {
            r == Err::<(ElfHeader, Vec<ProgramHeader>), ElfError>(
                ElfError::PhdrOverflow {
                    phdr_end: phdr_end(h) as u64,
                    buffer_len: bytes.len() as usize,
                },
            )
        } else {
            match parsed_phdrs(
                bytes,
                h.e_phoff as usize,
                h.e_phnum as usize,
                class_of(h),
                order_of(h),
            ) {
                Err(m) => r matches Err(ElfError::ParseFailed(s)) && s@ == m,
                Ok(v) => r matches Ok((rh, rv)) && rh == h && rv@ == v,
            }
        },
    }
}

/// Read the header and the program headers.
pub fn parse_header_and_phdrs(bytes: &[u8]) -> (r: Result<
    (ElfHeader, Vec<ProgramHeader>),
    ElfError,
>)
    ensures
        headers_are(bytes@, r),
        r matches Ok((h, v)) ==> v@.len() == h.e_phnum,
{
    let header = match read_header(bytes) {
        Ok(h) => h,
        Err(m) => {
            return Err(ElfError::ParseFailed(m));
        },
    };
    assert(header.e_phnum * header.e_phentsize <= 65535 * 65535) by (nonlinear_arith)
        requires
            header.e_phnum <= 65535,
            header.e_phentsize <= 65535,
    ;
    let table: u64 = header.e_phnum as u64 * header.e_phentsize as u64;
    let end = header.e_phoff.saturating_add(table);
    if end > bytes.len() as u64 {
        return Err(ElfError::PhdrOverflow { phdr_end: end, buffer_len: bytes.len() });
    }
    let class = if header.class == 1 {
        ElfClass::Bits32
    } else {
        ElfClass::Bits64
    };
    let order = if header.data == 1 {
        ByteOrder::Little
    } else {
        ByteOrder::Big
    };
    match read_phdrs(bytes, header.e_phoff as usize, header.e_phnum as usize, class, order) {
        Ok(v) => Ok((header, v)),
        Err(m) => Err(ElfError::ParseFailed(m)),
    }
}

/// The part that a program header of that kind loads.
pub open spec fn segment_of(p: ProgramHeader) -> ElfSegment {
    ElfSegment {
        vaddr: p.p_vaddr,
        memsz: p.p_memsz,
        filesz: p.p_filesz,
        offset: p.p_offset,
        flags: p.p_flags,
    }
}

/// The parts that the first `n` program headers load.
pub open spec fn segments_of(ps: Seq<ProgramHeader>, n: int) -> Seq<ElfSegment>
    decreases n,
{
    if n <= 0 {
        Seq::empty()
    } else {
        let before = segments_of(ps, n - 1);
        if ps[n - 1].p_type == PT_LOAD {
            before.push(segment_of(ps[n - 1]))
        } else {
            before
        }
    }
}

/// The text that a program header points to: up to the first zero, where it lies within the
/// bytes given and is well-formed.
pub open spec fn text_at(bytes: Seq<u8>, p: ProgramHeader) -> Option<Seq<char>> {
    let end = p.p_offset + p.p_filesz;
    if end <= bytes.len() {
        let b = until_nul(bytes.subrange(p.p_offset as int, end));
        if valid_utf8(b) {
            Some(decode_utf8(b))
        } else {
            None
        }
    } else {
        None
    }
}

/// The path of the dynamic linker that the first `n` program headers give: the last that can
/// be read.
pub open spec fn interp_of(bytes: Seq<u8>, ps: Seq<ProgramHeader>, n: int) -> Option<Seq<char>>
    decreases n,
{
    if n <= 0 {
        None
    } else {
        let p = ps[n - 1];
        if p.p_type == PT_INTERP && text_at(bytes, p) is Some {
            text_at(bytes, p)
        } else {
            interp_of(bytes, ps, n - 1)
        }
    }
}

/// The address of the program headers that the first `n` of them give.
pub open spec fn phdr_vaddr_of(ps: Seq<ProgramHeader>, n: int) -> u64
    decreases n,
{
    if n <= 0 {
        0
    } else if ps[n - 1].p_type == PT_PHDR {
        ps[n - 1].p_vaddr
    } else {
        phdr_vaddr_of(ps, n - 1)
    }
}

/// No text lies past all offsets.
pub open spec fn texts_fit(ps: Seq<ProgramHeader>) -> bool {
    forall|i: int|
        0 <= i < ps.len() && (#[trigger] ps[i]).p_type == PT_INTERP ==> ps[i].p_offset
            + ps[i].p_filesz <= u64::MAX
}

/// Whether texts lie within all offsets.
pub fn check_texts(ps: &Vec<ProgramHeader>) -> (r: bool)
    ensures
        r == texts_fit(ps@),
{
    let mut i: usize = 0;
    while i < ps.len()
        invariant
            i <= ps@.len(),
            forall|j: int|
                0 <= j < i && (#[trigger] ps@[j]).p_type == PT_INTERP ==> ps@[j].p_offset
                    + ps@[j].p_filesz <= u64::MAX,
        decreases ps@.len() - i,
    {
        if ps[i].p_type == PT_INTERP && ps[i].p_offset > u64::MAX - ps[i].p_filesz {
            assert(ps@[i as int].p_offset + ps@[i as int].p_filesz > u64::MAX);
            return false;
        }
        i += 1;
    }
    true
}

/// Read the text that a program header points to.
pub fn read_text(bytes: &[u8], p: &ProgramHeader) -> (r: Option<String>)
    requires
        p.p_offset + p.p_filesz <= u64::MAX,
    ensures
        match (r, text_at(bytes@, *p)) {
            (Some(s), Some(t)) => s@ == t,
            (None, None) => true,
            _ => false,
        },
{
    let end: u64 = p.p_offset + p.p_filesz;
    if end > bytes.len() as u64 {
        return None;
    }
    let trimmed = cut_at_nul(bytes, p.p_offset as usize, end as usize);
    utf8_text(trimmed.as_slice())
}

/// What the headers of a file say of it.
pub open spec fn parsed_is(
    bytes: Seq<u8>,
    h: ElfHeader,
    ps: Seq<ProgramHeader>,
    r: Result<ElfParseResult, ElfError>,
) -> bool {
    let n = ps.len() as int;
    match header_error(h) {
        Some(e) => r == Err::<ElfParseResult, ElfError>(e),
        None => r matches Ok(p) && {
            &&& p.entry == h.e_entry
            &&& p.segments@ == segments_of(ps, n)
            &&& match (p.interp, interp_of(bytes, ps, n)) {
                (Some(s), Some(t)) => s@ == t,
                (None, None) => true,
                _ => false,
            }
            &&& p.phdr_vaddr == phdr_vaddr_of(ps, n)
            &&& p.phnum == h.e_phnum
            &&& p.phentsize == h.e_phentsize
            &&& p.is_dyn == (h.e_type == ET_DYN)
        },
    }
}

/// Check the header and pick out what is needed to run the file.
pub fn interpret_headers(bytes: &[u8], ehdr: &ElfHeader, phdrs: &Vec<ProgramHeader>) -> (r: Result<
    ElfParseResult,
    ElfError,
>)
    requires
        texts_fit(phdrs@),
    ensures
        parsed_is(bytes@, *ehdr, phdrs@, r),
{
    match validate_header(ehdr) {
        Ok(_) => {},
        Err(e) => {
            return Err(e);
        },
    }
    let mut segments: Vec<ElfSegment> = Vec::new();
    let mut interp: Option<String> = None;
    let mut phdr_vaddr: u64 = 0;
    let mut i: usize = 0;
    while i < phdrs.len()
        invariant
            i <= phdrs@.len(),
            texts_fit(phdrs@),
            segments@ == segments_of(phdrs@, i as int),
            match (interp, interp_of(bytes@, phdrs@, i as int)) {
                (Some(s), Some(t)) => s@ == t,
                (None, None) => true,
                _ => false,
            },
            phdr_vaddr == phdr_vaddr_of(phdrs@, i as int),
        decreases phdrs@.len() - i,
    {
        let ph = phdrs[i];
        if ph.p_type == PT_LOAD {
            segments.push(
                ElfSegment {
                    vaddr: ph.p_vaddr,
                    memsz: ph.p_memsz,
                    filesz: ph.p_filesz,
                    offset: ph.p_offset,
                    flags: ph.p_flags,
                },
            );
        } else if ph.p_type == PT_INTERP {
            if let Some(s) = read_text(bytes, &ph) {
                interp = Some(s);
            }
        } else if ph.p_type == PT_PHDR {
            phdr_vaddr = ph.p_vaddr;
        }
        i += 1;
    }
    Ok(
        ElfParseResult {
            entry: ehdr.e_entry,
            segments,
            interp,
            phdr_vaddr,
            phnum: ehdr.e_phnum,
            phentsize: ehdr.e_phentsize,
            is_dyn: ehdr.e_type == ET_DYN,
        },
    )
}

/// Parse the first page of an ELF file.
pub fn parse_elf(bytes: &[u8]) -> (r: Result<ElfParseResult, ElfError>)
    ensures
        exists|h: Result<(ElfHeader, Vec<ProgramHeader>), ElfError>| #[trigger]
            headers_are(bytes@, h) && match h {
                Err(e) => r == Err::<ElfParseResult, ElfError>(e),
                Ok((ehdr, phdrs)) => if header_error(ehdr) is Some || texts_fit(phdrs@) {
                    parsed_is(bytes@, ehdr, phdrs@, r)
                } else {
                    r == Err::<ElfParseResult, ElfError>(ElfError::RangeOverflow)
                },
            },
{
    let h = parse_header_and_phdrs(bytes);
    let ghost hs = h;
    assert(headers_are(bytes@, hs));
    match h {
        Err(e) => Err(e),
        Ok((ehdr, phdrs)) => {
            match validate_header(&ehdr) {
                Ok(_) => {},
                Err(e) => {
                    return Err(e);
                },
            }
            if !check_texts(&phdrs) {
                return Err(ElfError::RangeOverflow);
            }
            interpret_headers(bytes, &ehdr, &phdrs)
        },
    }
}

/// A file that is accepted is a program for this machine, and every part that it loads is
/// one that a program header names.
pub proof fn law_segments_come_from_headers(ps: Seq<ProgramHeader>, n: int, i: int)
    requires
        0 <= n <= ps.len(),
        0 <= i < segments_of(ps, n).len(),
    ensures
        exists|j: int|
            0 <= j < n && (#[trigger] ps[j]).p_type == PT_LOAD && segments_of(ps, n)[i] == segment_of(
                ps[j],
            ),
    decreases n,
{
    let before = segments_of(ps, n - 1);
    if i < before.len() {
        law_segments_come_from_headers(ps, n - 1, i);
        let j = choose|j: int|
            0 <= j < n - 1 && (#[trigger] ps[j]).p_type == PT_LOAD && before[i] == segment_of(ps[j]);
        assert(ps[j].p_type == PT_LOAD && segments_of(ps, n)[i] == segment_of(ps[j]));
    } else {
        assert(ps[n - 1].p_type == PT_LOAD);
    }
}

/// Every program header of the type that is loaded gives a part, with its address, sizes, offset and
/// flags, in the order of the headers; and nothing else gives one.
pub proof fn law_every_header_gives_its_part(ps: Seq<ProgramHeader>, n: int, j: int) -> (i: int)
    requires
        0 <= j < n <= ps.len(),
        ps[j].p_type == 1,
    ensures
        0 <= i < segments_of(ps, n).len(),
        segments_of(ps, n).len() <= n,
        i == segments_of(ps, j).len(),
        ({
            let s = segments_of(ps, n)[i];
            &&& s.vaddr == ps[j].p_vaddr
            &&& s.memsz == ps[j].p_memsz
            &&& s.filesz == ps[j].p_filesz
            &&& s.offset == ps[j].p_offset
            &&& s.flags == ps[j].p_flags
        }),
    decreases n,
{
    lemma_fewer_parts(ps, n);
    if j == n - 1 {
        segments_of(ps, n - 1).len() as int
    } else {
        law_every_header_gives_its_part(ps, n - 1, j)
    }
}

proof fn lemma_fewer_parts(ps: Seq<ProgramHeader>, n: int)
    requires
        0 <= n,
    ensures
        segments_of(ps, n).len() <= n,
    decreases n,
{
    if n > 0 {
        lemma_fewer_parts(ps, n - 1);
    }
}

/// A program is of one of the two types that can be run, and for a RISC-V machine; any other file is
/// refused, for its type first.
pub proof fn law_only_programs_run(h: ElfHeader)
    ensures
        header_error(h) is None <==> (h.e_type == 2 || h.e_type == 3) && h.e_machine == 243,
        h.e_type != 2 && h.e_type != 3 ==> header_error(h) == Some(
            ElfError::UnsupportedType(h.e_type),
        ),
        (h.e_type == 2 || h.e_type == 3) && h.e_machine != 243 ==> header_error(h) == Some(
            ElfError::UnsupportedMachine(h.e_machine),
        ),
{
}

/// The dynamic linker is the one that the last program header of its type names whose text can be
/// read; without such a header there is none.
pub proof fn law_last_linker_counts(bytes: Seq<u8>, ps: Seq<ProgramHeader>, n: int, j: int)
    requires
        0 <= j < n <= ps.len(),
        ps[j].p_type == 3,
        text_at(bytes, ps[j]) is Some,
        forall|i: int| j < i < n && (#[trigger] ps[i]).p_type == 3 ==> text_at(bytes, ps[i]) is None,
    ensures
        interp_of(bytes, ps, n) == text_at(bytes, ps[j]),
    decreases n,
{
    if j < n - 1 {
        law_last_linker_counts(bytes, ps, n - 1, j);
    }
}

/// Without a program header for a dynamic linker there is none.
pub proof fn law_no_linker(bytes: Seq<u8>, ps: Seq<ProgramHeader>, n: int)
    requires
        0 <= n <= ps.len(),
        forall|i: int| 0 <= i < n ==> (#[trigger] ps[i]).p_type != 3,
    ensures
        interp_of(bytes, ps, n) is None,
    decreases n,
{
    if n > 0 {
        law_no_linker(bytes, ps, n - 1);
    }
}

/// What is picked out of a file that can be run: its entry point, the number and size of its program
/// headers, whether it can be placed anywhere, and the address of its program headers that the last header
/// of that type gives.
pub proof fn law_parse_keeps_header(
    bytes: Seq<u8>,
    h: ElfHeader,
    ps: Seq<ProgramHeader>,
    r: Result<ElfParseResult, ElfError>,
)
    requires
        parsed_is(bytes, h, ps, r),
    ensures
        r is Ok <==> (h.e_type == 2 || h.e_type == 3) && h.e_machine == 243,
        r matches Ok(p) ==> {
            &&& p.entry == h.e_entry
            &&& p.phnum == h.e_phnum
            &&& p.phentsize == h.e_phentsize
            &&& p.is_dyn == (h.e_type == 3)
        },
        r matches Ok(p) ==> forall|j: int|
            0 <= j < ps.len() && (#[trigger] ps[j]).p_type == 6 && (forall|i: int|
                j < i < ps.len() ==> (#[trigger] ps[i]).p_type != 6) ==> p.phdr_vaddr == ps[j].p_vaddr,
{
    if r is Ok {
        assert forall|j: int|
            0 <= j < ps.len() && (#[trigger] ps[j]).p_type == 6 && (forall|i: int|
                j < i < ps.len() ==> (#[trigger] ps[i]).p_type != 6) implies (r->Ok_0).phdr_vaddr
            == ps[j].p_vaddr by {
            lemma_last_phdr(ps, ps.len() as int, j);
        }
    }
}

proof fn lemma_last_phdr(ps: Seq<ProgramHeader>, n: int, j: int)
    requires
        0 <= j < n <= ps.len(),
        ps[j].p_type == 6,
        forall|i: int| j < i < n ==> (#[trigger] ps[i]).p_type != 6,
    ensures
        phdr_vaddr_of(ps, n) == ps[j].p_vaddr,
    decreases n,
{
    if j < n - 1 {
        lemma_last_phdr(ps, n - 1, j);
    }
}

} // verus!
