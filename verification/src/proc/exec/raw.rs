//! Headers of 64-bit little-endian ELF files, read byte by byte.
use vstd::prelude::*;
use crate::hal::errno::Errno;
use crate::proc::exec::elf::{ElfHeader, ProgramHeader, EM_RISCV, ET_DYN, ET_EXEC};

verus! {

/// Size of the header in bytes.
pub const EHDR_SIZE: usize = 64;

/// Size of a program header in bytes.
pub const PHDR_SIZE: usize = 56;

/// The number in the `n` bytes from `i` on, lowest first.
pub open spec fn le(b: Seq<u8>, i: int, n: int) -> int
    decreases n,
{
    if n <= 0 {
        0
    } else {
        b[i] + 256 * le(b, i + 1, n - 1)
    }
}

fn le16(b: &[u8], i: usize) -> (r: u16)
    requires
        i + 2 <= b@.len() <= usize::MAX,
    ensures
        r == le(b@, i as int, 2),
{
    reveal_with_fuel(le, 3);
    b[i] as u16 + 256 * b[i + 1] as u16
}

fn le32(b: &[u8], i: usize) -> (r: u32)
    requires
        i + 4 <= b@.len() <= usize::MAX,
    ensures
        r == le(b@, i as int, 4),
{
    reveal_with_fuel(le, 5);
    b[i] as u32 + 256 * (b[i + 1] as u32 + 256 * (b[i + 2] as u32 + 256 * b[i + 3] as u32))
}

fn le64(b: &[u8], i: usize) -> (r: u64)
    requires
        i + 8 <= b@.len() <= usize::MAX,
    ensures
        r == le(b@, i as int, 8),
{
    let low = le32(b, i);
    let high = le32(b, i + 4);
    reveal_with_fuel(le, 9);
    low as u64 + 0x1_0000_0000 * high as u64
}

/// The header that the bytes give.
pub open spec fn header_at(b: Seq<u8>) -> ElfHeader {
    ElfHeader {
        class: b[4],
        data: b[5],
        e_type: le(b, 16, 2) as u16,
        e_machine: le(b, 18, 2) as u16,
        e_entry: le(b, 24, 8) as u64,
        e_phoff: le(b, 32, 8) as u64,
        e_phentsize: le(b, 54, 2) as u16,
        e_phnum: le(b, 56, 2) as u16,
    }
}

/// Whether the bytes start with the header of a program for this machine.
pub open spec fn runnable(b: Seq<u8>) -> bool {
    let h = header_at(b);
    &&& b.len() >= EHDR_SIZE
    &&& b[0] == 0x7f && b[1] == 0x45 && b[2] == 0x4c && b[3] == 0x46
    &&& h.class == 2
    &&& h.data == 1
    &&& h.e_type == ET_EXEC || h.e_type == ET_DYN
    &&& h.e_machine == EM_RISCV
}

/// Read the header.
pub fn parse_elf_header(buf: &[u8]) -> (r: Result<ElfHeader, Errno>)
    ensures
        r == if runnable(buf@) {
            Ok(header_at(buf@))
        } else {
            Err(Errno::Enoexec)
        },
{
    if buf.len() < EHDR_SIZE {
        return Err(Errno::Enoexec);
    }
    if !(buf[0] == 0x7f && buf[1] == 0x45 && buf[2] == 0x4c && buf[3] == 0x46) {
        return Err(Errno::Enoexec);
    }
    if buf[4] != 2 || buf[5] != 1 {
        return Err(Errno::Enoexec);
    }
    let h = ElfHeader {
        class: buf[4],
        data: buf[5],
        e_type: le16(buf, 16),
        e_machine: le16(buf, 18),
        e_entry: le64(buf, 24),
        e_phoff: le64(buf, 32),
        e_phentsize: le16(buf, 54),
        e_phnum: le16(buf, 56),
    };
    if (h.e_type != ET_EXEC && h.e_type != ET_DYN) || h.e_machine != EM_RISCV {
        return Err(Errno::Enoexec);
    }
    Ok(h)
}

/// The program header at `i`.
pub open spec fn phdr_at(b: Seq<u8>, i: int) -> ProgramHeader {
    ProgramHeader {
        p_type: le(b, i, 4) as u32,
        p_flags: le(b, i + 4, 4) as u32,
        p_offset: le(b, i + 8, 8) as u64,
        p_vaddr: le(b, i + 16, 8) as u64,
        p_filesz: le(b, i + 32, 8) as u64,
        p_memsz: le(b, i + 40, 8) as u64,
    }
}

/// Whether the program headers lie within the bytes and are large enough.
pub open spec fn phdrs_within(b: Seq<u8>, h: ElfHeader) -> bool {
    h.e_phoff + h.e_phnum * h.e_phentsize <= b.len() && h.e_phentsize >= PHDR_SIZE
}

/// Read the program headers, which follow one another.
pub fn parse_phdrs(buf: &[u8], hdr: &ElfHeader) -> (r: Result<Vec<ProgramHeader>, Errno>)
    ensures
        r matches Err(e) ==> e == Errno::Enoexec,
        r is Ok <==> phdrs_within(buf@, *hdr),
        r matches Ok(v) ==> v@ == Seq::new(
            hdr.e_phnum as nat,
            |i: int| phdr_at(buf@, hdr.e_phoff + i * PHDR_SIZE),
        ),
{
    assert(hdr.e_phnum * hdr.e_phentsize <= 65535 * 65535) by (nonlinear_arith)
        requires
            hdr.e_phnum <= 65535,
            hdr.e_phentsize <= 65535,
    ;
    let table: u64 = hdr.e_phnum as u64 * hdr.e_phentsize as u64;
    let len = buf.len();
    let end = match hdr.e_phoff.checked_add(table) {
        Some(end) => end,
        None => {
            return Err(Errno::Enoexec);
        },
    };
    if end > len as u64 || (hdr.e_phentsize as usize) < PHDR_SIZE {
        return Err(Errno::Enoexec);
    }
    assert(hdr.e_phnum * 56 <= hdr.e_phnum * hdr.e_phentsize) by (nonlinear_arith)
        requires
            hdr.e_phentsize >= 56,
    ;
    let off = hdr.e_phoff as usize;
    let mut r: Vec<ProgramHeader> = Vec::new();
    let mut i: usize = 0;
    while i < hdr.e_phnum as usize
        invariant
            i <= hdr.e_phnum,
            off == hdr.e_phoff,
            off + hdr.e_phnum * 56 <= len,
            len == buf@.len(),
            r@ == Seq::new(i as nat, |j: int| phdr_at(buf@, hdr.e_phoff + j * PHDR_SIZE)),
        decreases hdr.e_phnum - i,
    {
        assert(i * 56 + 56 <= hdr.e_phnum * 56);
        let at = off + i * PHDR_SIZE;
        let p = ProgramHeader {
            p_type: le32(buf, at),
            p_flags: le32(buf, at + 4),
            p_offset: le64(buf, at + 8),
            p_vaddr: le64(buf, at + 16),
            p_filesz: le64(buf, at + 32),
            p_memsz: le64(buf, at + 40),
        };
        let ghost r0 = r@;
        r.push(p);
        assert(r@ =~= Seq::new((i + 1) as nat, |j: int| phdr_at(buf@, hdr.e_phoff + j * PHDR_SIZE)));
        i += 1;
    }
    Ok(r)
}

/// Where the numbers of a header stand: the type and the machine, two bytes each, at 16 and 18, the entry
/// point and the place of the program headers, eight each, at 24 and 32, and the size and the number of
/// those, two each, at 54 and 56; all with the lowest byte first.
pub proof fn law_header_fields_have_their_place(b: Seq<u8>)
    requires
        b.len() >= 64,
    ensures
        ({
            let h = header_at(b);
            &&& h.e_type == b[16] + 256 * b[17]
            &&& h.e_machine == b[18] + 256 * b[19]
            &&& h.e_entry == b[24] + 0x100 * b[25] + 0x1_0000 * b[26] + 0x100_0000 * b[27]
                + 0x1_0000_0000 * b[28] + 0x100_0000_0000 * b[29] + 0x1_0000_0000_0000 * b[30]
                + 0x100_0000_0000_0000 * b[31]
            &&& h.e_phoff == b[32] + 0x100 * b[33] + 0x1_0000 * b[34] + 0x100_0000 * b[35]
                + 0x1_0000_0000 * b[36] + 0x100_0000_0000 * b[37] + 0x1_0000_0000_0000 * b[38]
                + 0x100_0000_0000_0000 * b[39]
            &&& h.e_phentsize == b[54] + 256 * b[55]
            &&& h.e_phnum == b[56] + 256 * b[57]
        }),
{
    reveal_with_fuel(le, 9);
}

/// A program that can be run is a 64-bit little-endian ELF file for a RISC-V machine.
pub proof fn law_runnable_programs(b: Seq<u8>)
    requires
        b.len() >= 64,
    ensures
        runnable(b) <==> b[0] == 0x7f && b[1] == 0x45 && b[2] == 0x4c && b[3] == 0x46 && b[4] == 2 && b[5]
            == 1 && (b[16] == 2 || b[16] == 3) && b[17] == 0 && b[18] == 243 && b[19] == 0,
{
    law_header_fields_have_their_place(b);
}

/// Where the numbers of a program header stand: the type and the flags, four bytes each, at 0 and 4, and the
/// offset, the address and the sizes in the file and in memory, eight each, at 8, 16, 32 and 40.
pub proof fn law_program_header_fields_have_their_place(b: Seq<u8>, i: int)
    requires
        0 <= i,
        i + 56 <= b.len(),
    ensures
        ({
            let p = phdr_at(b, i);
            &&& p.p_type == b[i] + 0x100 * b[i + 1] + 0x1_0000 * b[i + 2] + 0x100_0000 * b[i + 3]
            &&& p.p_flags == b[i + 4] + 0x100 * b[i + 5] + 0x1_0000 * b[i + 6] + 0x100_0000 * b[i + 7]
            &&& p.p_offset == le(b, i + 8, 8)
            &&& p.p_vaddr == le(b, i + 16, 8)
            &&& p.p_filesz == le(b, i + 32, 8)
            &&& p.p_memsz == le(b, i + 40, 8)
        }),
{
    reveal_with_fuel(le, 9);
}

} // verus!
