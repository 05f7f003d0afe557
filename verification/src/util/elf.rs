//! The header of an executable file.

use vstd::prelude::*;

verus! {

/// The little-endian number in two bytes.
pub open spec fn le16(d: Seq<u8>, at: int) -> int {
    d[at] + d[at + 1] * 0x100
}

/// The little-endian number in four bytes.
pub open spec fn le32(d: Seq<u8>, at: int) -> int {
    le16(d, at) + le16(d, at + 2) * 0x1_0000
}

/// The little-endian number in eight bytes.
pub open spec fn le64(d: Seq<u8>, at: int) -> int {
    le32(d, at) + le32(d, at + 4) * 0x1_0000_0000
}

/// Where the program headers begin.
pub open spec fn ph_off(d: Seq<u8>) -> int {
    le64(d, 32)
}

/// The size of a program header.
pub open spec fn ph_size(d: Seq<u8>) -> int {
    le16(d, 54)
}

/// How many program headers there are.
pub open spec fn ph_count(d: Seq<u8>) -> int {
    le16(d, 56)
}

/// Program header `i` is that of a segment to be loaded.
pub open spec fn is_load(d: Seq<u8>, i: int) -> bool {
    &&& 0 <= i < ph_count(d)
    &&& ph_off(d) + i * ph_size(d) + 4 <= d.len()
    &&& le32(d, ph_off(d) + i * ph_size(d)) == 1
}

/// What a header comes to: the entry point, or the first thing that is wrong with it.
pub open spec fn elf_entry(d: Seq<u8>) -> Result<usize, &'static str> {
    if d.len() < 64 {
        Err("too_short")
    } else if d[0] != 0x7f || d[1] != 0x45 || d[2] != 0x4c || d[3] != 0x46 {
        Err("bad_magic")
    } else if d[4] != 2 {
        Err("not_64bit")
    } else if d[5] != 1 {
        Err("not_le")
    } else if d[6] != 1 {
        Err("bad_version")
    } else if le16(d, 16) != 2 && le16(d, 16) != 3 {
        Err("not_exec")
    } else if ph_count(d) == 0 {
        Err("no_phdrs")
    } else if ph_off(d) + ph_size(d) * ph_count(d) > d.len() {
        Err("ph_overflow")
    } else if !exists|i: int| is_load(d, i) {
        Err("no_load")
    } else {
        Ok((le64(d, 24) as u64) as usize)
    }
}

fn read16(d: &[u8], at: usize) -> (r: u64)
    requires
        at + 2 <= d@.len(),
    ensures
        r == le16(d@, at as int),
        r <= 0xFFFF,
{
    d[at] as u64 + d[at + 1] as u64 * 0x100
}

fn read32(d: &[u8], at: usize) -> (r: u64)
    requires
        at + 4 <= d@.len(),
    ensures
        r == le32(d@, at as int),
        r <= 0xFFFF_FFFF,
{
    assert(d@.len() == d.len());
    read16(d, at) + read16(d, at + 2) * 0x1_0000
}

fn read64(d: &[u8], at: usize) -> (r: u64)
    requires
        at + 8 <= d@.len(),
    ensures
        r == le64(d@, at as int),
{
    assert(d@.len() == d.len());
    read32(d, at) + read32(d, at + 4) * 0x1_0000_0000
}

/// Checks the header of a 64-bit little-endian executable, whose program headers lie in the
/// file and name at least one segment to be loaded. Gives the entry point.
pub fn validate_elf_header(data: &[u8]) -> (r: Result<usize, &'static str>)
    ensures
        r == elf_entry(data@),
{
    if data.len() < 64 {
        return Err("too_short");
    }
    if data[0] != 0x7f || data[1] != 0x45 || data[2] != 0x4c || data[3] != 0x46 {
        return Err("bad_magic");
    }
    if data[4] != 2 {
        return Err("not_64bit");
    }
    if data[5] != 1 {
        return Err("not_le");
    }
    if data[6] != 1 {
        return Err("bad_version");
    }
    let kind: u64 = read16(data, 16);
    if kind != 2 && kind != 3 {
        return Err("not_exec");
    }
    let entry: u64 = read64(data, 24);
    let off: u64 = read64(data, 32);
    let size: u64 = read16(data, 54);
    let count: u64 = read16(data, 56);
    if count == 0 {
        return Err("no_phdrs");
    }
    assert(0 <= size * count <= 0xFFFF * 0xFFFF) by (nonlinear_arith)
        requires
            0 <= size <= 0xFFFF,
            0 <= count <= 0xFFFF,
    ;
    let len: u64 = data.len() as u64;
    let table: u64 = size * count;
    if table > len || off > len - table {
        return Err("ph_overflow");
    }
    let mut found = false;
    let mut i: u64 = 0;
    while i < count
        invariant
            i <= count,
            len == data@.len(),
            data@.len() <= usize::MAX,
            off == ph_off(data@),
            size == ph_size(data@),
            size <= 0xFFFF,
            count == ph_count(data@),
            count <= 0xFFFF,
            off + size * count <= len,
            found <==> exists|k: int| 0 <= k < i && is_load(data@, k),
        decreases count - i,
    {
        assert(0 <= i * size && i * size + size <= size * count) by (nonlinear_arith)
            requires
                0 <= i < count,
                0 <= size,
        ;
        let base: u64 = off + i * size;
        let ghost before = found;
        if len >= 4 && base <= len - 4 {
            let p_type: u64 = read32(data, base as usize);
            if p_type == 1 {
                found = true;
            }
        }
        proof {
            if found && !before {
                assert(is_load(data@, i as int));
            }
            if is_load(data@, i as int) {
                assert(found);
            }
        }
        i += 1;
    }
    if !found {
        return Err("no_load");
    }
    Ok(entry as usize)
}

/// Numbers are read with the low byte first.
pub proof fn law_low_byte_comes_first(d: Seq<u8>, at: int)
    ensures
        le16(d, at) == d[at] + 256 * d[at + 1],
        le32(d, at) == d[at] + 256 * (d[at + 1] + 256 * (d[at + 2] + 256 * d[at + 3])),
        le64(d, at) == d[at] + 256 * (d[at + 1] + 256 * (d[at + 2] + 256 * (d[at + 3] + 256 * (d[at
            + 4] + 256 * (d[at + 5] + 256 * (d[at + 6] + 256 * d[at + 7])))))),
{
}

/// A program is accepted if and only if its header says that it is one: the magic number, 64
/// bits, low byte first, version 1, executable or shared, a table of program headers inside the
/// file, and one of them to be loaded. It starts where the header says.
pub proof fn law_only_programs_are_accepted(d: Seq<u8>, i: int)
    requires
        d.len() <= usize::MAX,
    ensures
        elf_entry(d) is Ok ==> {
            &&& d.len() >= 64
            &&& d[0] == 0x7f && d[1] == 69 && d[2] == 76 && d[3] == 70
            &&& d[4] == 2 && d[5] == 1 && d[6] == 1
            &&& d[17] == 0 && (d[16] == 2 || d[16] == 3)
            &&& d[56] + 256 * d[57] > 0
            &&& le64(d, 32) + (d[54] + 256 * d[55]) * (d[56] + 256 * d[57]) <= d.len()
            &&& elf_entry(d)->Ok_0 == (le64(d, 24) as u64) as usize
            &&& exists|k: int|
                0 <= k < d[56] + 256 * d[57] && #[trigger] le32(
                    d,
                    le64(d, 32) + k * (d[54] + 256 * d[55]),
                ) == 1
        },
        d.len() >= 64 && d[0] == 0x7f && d[1] == 69 && d[2] == 76 && d[3] == 70 && d[4] == 2 && d[5]
            == 1 && d[6] == 1 && d[17] == 0 && (d[16] == 2 || d[16] == 3) && 0 <= i < d[56] + 256
            * d[57] && le64(d, 32) + (d[54] + 256 * d[55]) * (d[56] + 256 * d[57]) <= d.len()
            && le64(d, 32) + i * (d[54] + 256 * d[55]) + 4 <= d.len() && le32(
            d,
            le64(d, 32) + i * (d[54] + 256 * d[55]),
        ) == 1 ==> elf_entry(d) is Ok,
{
    if elf_entry(d) is Ok {
        let k = choose|k: int| is_load(d, k);
        assert(le32(d, le64(d, 32) + k * (d[54] + 256 * d[55])) == 1);
    }
    if d.len() >= 64 && 0 <= i < d[56] + 256 * d[57] && le64(d, 32) + i * (d[54] + 256 * d[55]) + 4
        <= d.len() && le32(d, le64(d, 32) + i * (d[54] + 256 * d[55])) == 1 {
        assert(is_load(d, i));
    }
}

/// What is wrong with a header is named after the first thing that is wrong.
pub proof fn law_first_fault_is_named(d: Seq<u8>)
    ensures
        d.len() < 64 <==> elf_entry(d) == Err::<usize, &'static str>("too_short"),
        d.len() >= 64 && d[0] != 0x7f ==> elf_entry(d) == Err::<usize, &'static str>("bad_magic"),
        d.len() >= 64 && d[0] == 0x7f && d[1] == 69 && d[2] == 76 && d[3] == 70 && d[4] == 1
            ==> elf_entry(d) == Err::<usize, &'static str>("not_64bit"),
        d.len() >= 64 && d[0] == 0x7f && d[1] == 69 && d[2] == 76 && d[3] == 70 && d[4] == 2 && d[5]
            == 2 ==> elf_entry(d) == Err::<usize, &'static str>("not_le"),
{
    reveal_strlit("too_short");
    reveal_strlit("bad_magic");
    reveal_strlit("not_64bit");
    reveal_strlit("not_le");
    reveal_strlit("bad_version");
    reveal_strlit("not_exec");
    reveal_strlit("no_phdrs");
    reveal_strlit("ph_overflow");
    reveal_strlit("no_load");
    assert("too_short"@.len() == 9 && "bad_magic"@[0] == 'b' && "too_short"@[0] == 't');
    assert("not_64bit"@[0] == 'n' && "not_le"@[0] == 'n' && "bad_version"@[0] == 'b');
    assert("not_exec"@[0] == 'n' && "no_phdrs"@[0] == 'n' && "no_load"@[0] == 'n');
    assert("ph_overflow"@[0] == 'p');
}

} // verus!
