//! Walking a module's top-level sections, dropping one named custom section,
//! and framing new content as a custom section.
use vstd::prelude::*;

use crate::error::BundleError;
use crate::leb::{leb_decode, leb_encode, lemma_decode_bounds, lemma_encode_len, lemma_radix_pow_ten, read_unsigned, write_unsigned};

verus! {

/// Bytes taken by the magic number and version at the start of a module.
pub const HEADER_LEN: usize = 8;

/// The kind byte of a custom (named) section.
pub const CUSTOM_SECTION_ID: u8 = 0;

/// The largest section kind byte of the format.
pub const MAX_SECTION_ID: u8 = 12;

/// The magic number `\0asm` followed by format version 1.
pub open spec fn module_header() -> Seq<u8> {
    seq![0x00u8, 0x61u8, 0x73u8, 0x6du8, 0x01u8, 0x00u8, 0x00u8, 0x00u8]
}

/// A 32-bit length or count at `pos`: at most five bytes, below `2^32`.
pub open spec fn u32_at(s: Seq<u8>, pos: int) -> Option<(nat, int)> {
    match leb_decode(s, pos, 5) {
        Some((v, next)) => if v < 0x1_0000_0000 {
            Some((v, next))
        } else {
            None
        },
        None => None,
    }
}

/// The section that starts at `pos`: where it ends, and for a custom section
/// its name. `None` when its extent or its name cannot be read.
pub open spec fn section_at(s: Seq<u8>, pos: int) -> Option<(int, Option<Seq<u8>>)> {
    if 0 <= pos < s.len() && s[pos] <= MAX_SECTION_ID {
        match u32_at(s, pos + 1) {
            Some((size, body)) => if body + size <= s.len() {
                let end = body + size;
                if s[pos] == CUSTOM_SECTION_ID {
                    match u32_at(s, body) {
                        Some((name_len, name_start)) => if name_start + name_len <= end {
                            Some((end, Some(s.subrange(name_start, name_start + name_len))))
                        } else {
                            None
                        },
                        None => None,
                    }
                } else {
                    Some((end, None))
                }
            } else {
                None
            },
            None => None,
        }
    } else {
        None
    }
}

/// Walks the sections from `pos` to the end of `s`. Each section is copied
/// whole, except the first custom section named `name` once `dropped` is
/// false. Gives what is kept and whether a section was dropped by then, or
/// `None` when some section's extent cannot be read.
pub open spec fn walk(s: Seq<u8>, pos: int, name: Seq<u8>, dropped: bool) -> Option<(Seq<u8>, bool)>
    decreases s.len() - pos,
{
    if pos < 0 || pos >= s.len() {
        Some((Seq::empty(), dropped))
    } else {
        match section_at(s, pos) {
            Some((end, section_name)) => if end <= pos {
                None
            } else {
                let skip = !dropped && section_name == Some(name);
                match walk(s, end, name, dropped || skip) {
                    Some((rest, d)) => if skip {
                        Some((rest, d))
                    } else {
                        Some((s.subrange(pos, end) + rest, d))
                    },
                    None => None,
                }
            },
            None => None,
        }
    }
}

/// Whether `m` starts with the module header.
pub open spec fn header_ok(m: Seq<u8>) -> bool {
    m.len() >= HEADER_LEN && m.subrange(0, HEADER_LEN as int) == module_header()
}

/// Whether `m` holds a custom section named `name`.
pub open spec fn has_section(m: Seq<u8>, name: Seq<u8>) -> bool {
    walk(m, HEADER_LEN as int, name, false) matches Some((_, true))
}

/// `m` without its first custom section named `name`; `None` when `m` is
/// malformed.
pub open spec fn filtered(name: Seq<u8>, m: Seq<u8>) -> Option<Seq<u8>> {
    if header_ok(m) {
        match walk(m, HEADER_LEN as int, name, false) {
            Some((kept, _)) => Some(m.subrange(0, HEADER_LEN as int) + kept),
            None => None,
        }
    } else {
        None
    }
}

/// The name length followed by the name.
pub open spec fn name_header(name: Seq<u8>) -> Seq<u8> {
    leb_encode(name.len()) + name
}

/// A custom section named `name` that carries `payload`.
pub open spec fn custom_section(name: Seq<u8>, payload: Seq<u8>) -> Seq<u8> {
    seq![CUSTOM_SECTION_ID] + leb_encode(name_header(name).len() + payload.len()) + name_header(
        name,
    ) + payload
}

spec fn after(prefix: Seq<u8>, r: Option<(Seq<u8>, bool)>) -> Option<Seq<u8>> {
    match r {
        Some((rest, _)) => Some(prefix + rest),
        None => None,
    }
}

fn read_u32(m: &[u8], pos: usize) -> (r: Option<(usize, usize)>)
    ensures
        match u32_at(m@, pos as int) {
            Some((v, next)) => r == Some((v as usize, next as usize)),
            None => r is None,
        },
{
    match read_unsigned(m, pos, 5) {
        Some((v, next)) => {
            proof {
                lemma_decode_bounds(m@, pos as int, 5);
            }
            if v < 0x1_0000_0000 {
                Some((v as usize, next))
            } else {
                None
            }
        },
        None => None,
    }
}

/// Reads the section at `pos`: where it ends, and for a custom section where
/// its name lies.
fn read_section(m: &[u8], pos: usize) -> (r: Option<(usize, Option<(usize, usize)>)>)
    requires
        pos < m@.len(),
    ensures
        match section_at(m@, pos as int) {
            Some((end, section_name)) => r matches Some((e, range)) && e == end && pos < e <= m@.len()
                && match range {
                Some((a, b)) => a <= b <= e && section_name == Some(m@.subrange(a as int, b as int)),
                None => section_name is None,
            },
            None => r is None,
        },
{
    let kind = m[pos];
    if kind > MAX_SECTION_ID {
        return None;
    }
    let (size, body) = match read_u32(m, pos + 1) {
        Some(x) => x,
        None => return None,
    };
    proof {
        lemma_decode_bounds(m@, pos + 1, 5);
    }
    if size > m.len() - body {
        return None;
    }
    let end = body + size;
    if kind != CUSTOM_SECTION_ID {
        return Some((end, None));
    }
    let (name_len, name_start) = match read_u32(m, body) {
        Some(x) => x,
        None => return None,
    };
    proof {
        lemma_decode_bounds(m@, body as int, 5);
    }
    if name_start > end || name_len > end - name_start {
        return None;
    }
    Some((end, Some((name_start, name_start + name_len))))
}

/// Whether `m[a..b]` holds exactly the bytes of `name`.
fn same_bytes(m: &[u8], a: usize, b: usize, name: &[u8]) -> (r: bool)
    requires
        a <= b <= m@.len(),
    ensures
        r == (m@.subrange(a as int, b as int) == name@),
{
    if b - a != name.len() {
        assert(m@.subrange(a as int, b as int).len() != name@.len());
        return false;
    }
    let mut i: usize = 0;
    while i < name.len()
        invariant
            a <= b <= m@.len(),
            b - a == name@.len(),
            i <= name@.len(),
            forall|k: int| 0 <= k < i ==> m@[a + k] == name@[k],
        decreases name@.len() - i,
    {
        if m[a + i] != name[i] {
            assert(m@.subrange(a as int, b as int)[i as int] != name@[i as int]);
            return false;
        }
        i = i + 1;
    }
    assert(m@.subrange(a as int, b as int) =~= name@);
    true
}

/// Appends `m[a..b]` to `out`.
fn copy_range(out: &mut Vec<u8>, m: &[u8], a: usize, b: usize)
    requires
        a <= b <= m@.len(),
    ensures
        final(out)@ == old(out)@ + m@.subrange(a as int, b as int),
{
    let mut i: usize = a;
    while i < b
        invariant
            a <= i <= b <= m@.len(),
            out@ == old(out)@ + m@.subrange(a as int, i as int),
        decreases b - i,
    {
        out.push(m[i]);
        assert(m@.subrange(a as int, i + 1) =~= m@.subrange(a as int, i as int).push(m@[i as int]));
        i = i + 1;
    }
}

/// Copies `module` without its first custom section named `section`. Every
/// other section, code sections included, is copied through as one block of
/// its declared length without looking inside it.
pub fn filter(section: &[u8], module: &[u8]) -> (r: Result<Vec<u8>, BundleError>)
    ensures
        match filtered(section@, module@) {
            Some(out) => r matches Ok(v) && v@ == out,
            None => r == Err::<Vec<u8>, BundleError>(BundleError::MalformedModule),
        },
{
    if module.len() < HEADER_LEN {
        return Err(BundleError::MalformedModule);
    }
    let magic = module[0] == 0x00 && module[1] == 0x61 && module[2] == 0x73 && module[3] == 0x6d
        && module[4] == 0x01 && module[5] == 0x00 && module[6] == 0x00 && module[7] == 0x00;
    if !magic {
        assert(module@.subrange(0, 8) != module_header()) by {
            if module@.subrange(0, 8) == module_header() {
                assert(module@.subrange(0, 8)[0] == module@[0]);
                assert(module@.subrange(0, 8)[1] == module@[1]);
                assert(module@.subrange(0, 8)[2] == module@[2]);
                assert(module@.subrange(0, 8)[3] == module@[3]);
                assert(module@.subrange(0, 8)[4] == module@[4]);
                assert(module@.subrange(0, 8)[5] == module@[5]);
                assert(module@.subrange(0, 8)[6] == module@[6]);
                assert(module@.subrange(0, 8)[7] == module@[7]);
            }
        }
        return Err(BundleError::MalformedModule);
    }
    assert(module@.subrange(0, 8) =~= module_header());
    let mut out: Vec<u8> = Vec::new();
    copy_range(&mut out, module, 0, HEADER_LEN);
    let mut pos: usize = HEADER_LEN;
    let mut dropped = false;
    while pos < module.len()
        invariant
            HEADER_LEN <= pos <= module@.len(),
            header_ok(module@),
            filtered(section@, module@) == after(out@, walk(module@, pos as int, section@, dropped)),
        decreases module@.len() - pos,
    {
        let (end, name_range) = match read_section(module, pos) {
            Some(x) => x,
            None => return Err(BundleError::MalformedModule),
        };
        let skip = match name_range {
            Some((a, b)) => !dropped && same_bytes(module, a, b, section),
            None => false,
        };
        let ghost prev = out@;
        if !skip {
            copy_range(&mut out, module, pos, end);
            proof {
                match walk(module@, end as int, section@, dropped || skip) {
                    Some((rest, d)) => {
                        assert(prev + (module@.subrange(pos as int, end as int) + rest) =~= out@
                            + rest);
                    },
                    None => {},
                }
            }
        }
        dropped = dropped || skip;
        pos = end;
    }
    assert(out@ + Seq::<u8>::empty() =~= out@);
    Ok(out)
}

/// Appends to `out` a custom section named `section` whose payload is
/// `archive`: the kind byte, the declared length (name header plus payload),
/// the name length, the name, then the payload.
pub fn append(section: &[u8], archive: &[u8], out: &mut Vec<u8>)
    requires
        section@.len() + archive@.len() + 10 <= u64::MAX,
    ensures
        final(out)@ == old(out)@ + custom_section(section@, archive@),
{
    proof {
        lemma_radix_pow_ten();
        lemma_encode_len(section@.len(), 10);
    }
    let mut header: Vec<u8> = Vec::new();
    write_unsigned(&mut header, section.len() as u64);
    copy_range(&mut header, section, 0, section.len());
    assert(section@.subrange(0, section@.len() as int) =~= section@);
    assert(header@ =~= name_header(section@));
    let size = archive.len() as u64 + header.len() as u64;
    let ghost start = out@;
    out.push(CUSTOM_SECTION_ID);
    write_unsigned(out, size);
    copy_range(out, &header, 0, header.len());
    copy_range(out, archive, 0, archive.len());
    assert(header@.subrange(0, header@.len() as int) =~= header@);
    assert(archive@.subrange(0, archive@.len() as int) =~= archive@);
    assert(out@ =~= start + custom_section(section@, archive@));
}

} // verus!
