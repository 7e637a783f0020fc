//! What filtering and framing guarantee together.
use vstd::prelude::*;

use crate::leb::{leb_decode, lemma_decode_bounds, leb_encode, lemma_decode_encode, lemma_decode_extend, lemma_encode_len, lemma_radix_pow_ten};
use crate::module::{custom_section, filtered, has_section, header_ok, name_header, section_at, u32_at, walk, HEADER_LEN};

verus! {

/// Whether the walk from `pos` reaches a section that starts at `a`.
pub open spec fn boundary(s: Seq<u8>, pos: int, a: int) -> bool
    decreases s.len() - pos,
{
    if pos == a {
        true
    } else if 0 <= pos < s.len() {
        match section_at(s, pos) {
            Some((end, _)) => end > pos && boundary(s, end, a),
            None => false,
        }
    } else {
        false
    }
}

proof fn lemma_section_extend(s: Seq<u8>, t: Seq<u8>, pos: int)
    requires
        section_at(s, pos) is Some,
    ensures
        section_at(s + t, pos) == section_at(s, pos),
{
    let st = s + t;
    assert(st[pos] == s[pos]);
    lemma_decode_extend(s, t, pos + 1, 5);
    let (size, body) = u32_at(s, pos + 1)->Some_0;
    if s[pos] == 0 {
        lemma_decode_extend(s, t, body, 5);
        let (nl, q) = u32_at(s, body)->Some_0;
        lemma_decode_bounds(s, pos + 1, 5);
        lemma_decode_bounds(s, body, 5);
        assert(body + size <= s.len());
        assert(q + nl <= body + size);
        assert(st.subrange(q, q + nl) =~= s.subrange(q, q + nl));
    }
}

proof fn lemma_walk_extend(s: Seq<u8>, t: Seq<u8>, pos: int, name: Seq<u8>, d: bool)
    requires
        0 <= pos <= s.len(),
        walk(s, pos, name, d) is Some,
    ensures
        ({
            let (o, d2) = walk(s, pos, name, d)->Some_0;
            walk(s + t, pos, name, d) == match walk(s + t, s.len() as int, name, d2) {
                Some((o2, d3)) => Some((o + o2, d3)),
                None => None,
            }
        }),
    decreases s.len() - pos,
{
    let st = s + t;
    if pos == s.len() {
        match walk(st, pos, name, d) {
            Some((o2, d3)) => {
                assert(Seq::<u8>::empty() + o2 =~= o2);
            },
            None => {},
        }
    } else {
        lemma_section_extend(s, t, pos);
        let (end, nm) = section_at(s, pos)->Some_0;
        let skip = !d && nm == Some(name);
        lemma_walk_extend(s, t, end, name, d || skip);
        assert(st.subrange(pos, end) =~= s.subrange(pos, end));
        let (o, d2) = walk(s, pos, name, d)->Some_0;
        match walk(st, s.len() as int, name, d2) {
            Some((o2, d3)) => {
                let (r, _) = walk(s, end, name, d || skip)->Some_0;
                assert(s.subrange(pos, end) + (r + o2) =~= (s.subrange(pos, end) + r) + o2);
            },
            None => {},
        }
    }
}

/// Once a section is dropped it stays dropped, and a walk that drops nothing
/// keeps every byte.
proof fn lemma_walk_keeps(s: Seq<u8>, pos: int, name: Seq<u8>, d: bool)
    requires
        0 <= pos <= s.len(),
        walk(s, pos, name, d) is Some,
    ensures
        ({
            let (o, d2) = walk(s, pos, name, d)->Some_0;
            (d ==> d2) && (d2 == d ==> o == s.subrange(pos, s.len() as int))
        }),
    decreases s.len() - pos,
{
    if pos < s.len() {
        let (end, nm) = section_at(s, pos)->Some_0;
        let skip = !d && nm == Some(name);
        lemma_walk_keeps(s, end, name, d || skip);
        assert(s.subrange(pos, end) + s.subrange(end, s.len() as int) =~= s.subrange(
            pos,
            s.len() as int,
        ));
    } else {
        assert(s.subrange(pos, s.len() as int) =~= Seq::<u8>::empty());
    }
}

proof fn lemma_walk_cut(s: Seq<u8>, pos: int, name: Seq<u8>)
    requires
        0 <= pos <= s.len(),
        walk(s, pos, name, false) matches Some((_, true)),
    ensures
        exists|a: int, b: int|
            pos <= a < b <= s.len() && boundary(s, pos, a) && section_at(s, a) == Some((b, Some(name)))
                && walk(s, pos, name, false)->Some_0.0 == s.subrange(pos, a) + s.subrange(
                b,
                s.len() as int,
            ),
    decreases s.len() - pos,
{
    let (end, nm) = section_at(s, pos)->Some_0;
    let skip = nm == Some(name);
    let o = walk(s, pos, name, false)->Some_0.0;
    lemma_walk_keeps(s, end, name, skip);
    lemma_section_within(s, pos);
    if skip {
        assert(s.subrange(pos, pos) =~= Seq::<u8>::empty());
        assert(o =~= s.subrange(pos, pos) + s.subrange(end, s.len() as int));
        assert(boundary(s, pos, pos));
    } else {
        lemma_walk_cut(s, end, name);
        let (a, b) = choose|a: int, b: int|
            end <= a < b <= s.len() && boundary(s, end, a) && section_at(s, a) == Some((b, Some(name)))
                && walk(s, end, name, false)->Some_0.0 == s.subrange(end, a) + s.subrange(
                b,
                s.len() as int,
            );
        assert(boundary(s, pos, a));
        assert(o =~= s.subrange(pos, a) + s.subrange(b, s.len() as int));
    }
}

/// A section that can be read ends within the data.
proof fn lemma_section_within(s: Seq<u8>, pos: int)
    requires
        section_at(s, pos) is Some,
    ensures
        section_at(s, pos)->Some_0.0 <= s.len(),
{
}

/// Filtering a module that holds no custom section named `name` gives the
/// module back unchanged; and after a custom section named `name` is
/// appended to it, filtering strips exactly that section and gives back the
/// module it started from, byte for byte.
pub proof fn law_refilter_after_append(name: Seq<u8>, m: Seq<u8>, payload: Seq<u8>)
    requires
        filtered(name, m) is Some,
        !has_section(m, name),
        name_header(name).len() + payload.len() < 0x1_0000_0000,
    ensures
        filtered(name, m) == Some(m),
        filtered(name, m + custom_section(name, payload)) == Some(m),
{
    let h = HEADER_LEN as int;
    lemma_walk_keeps(m, h, name, false);
    assert(m.subrange(0, h) + m.subrange(h, m.len() as int) =~= m);
    let f = custom_section(name, payload);
    let m2 = m + f;
    assert(m2.subrange(0, h) =~= m.subrange(0, h));
    assert(header_ok(m2));
    lemma_walk_extend(m, f, h, name, false);
    // The appended section, read where the module ends.
    let decl = name_header(name).len() + payload.len();
    let e1 = leb_encode(decl);
    let e2 = leb_encode(name.len());
    lemma_radix_pow_ten();
    lemma_encode_len(decl, 5);
    lemma_encode_len(name.len(), 5);
    let start = m.len() as int;
    let p = start + 1 + e1.len() as int;
    let q = p + e2.len() as int;
    assert(f =~= seq![0u8] + e1 + e2 + name + payload);
    assert(m2.len() == p + decl);
    assert(m2.subrange(start + 1, p) =~= e1);
    lemma_decode_encode(m2, start + 1, decl, 5);
    assert(m2.subrange(p, q) =~= e2);
    lemma_decode_encode(m2, p, name.len(), 5);
    assert(m2.subrange(q, q + name.len()) =~= name);
    assert(m2[start] == 0);
    assert(section_at(m2, start) == Some((m2.len() as int, Some(name))));
    assert(walk(m2, m2.len() as int, name, true) == Some((Seq::<u8>::empty(), true)));
    assert(walk(m2, start, name, false) == Some((Seq::<u8>::empty(), true)));
    let o = walk(m, h, name, false)->Some_0.0;
    assert(o + Seq::<u8>::empty() =~= o);
}

/// Filtering changes nothing but, at most, the removal of one whole custom
/// section named `name` that the walk over the module reaches: all other
/// bytes are kept, in their order.
pub proof fn law_passthrough(name: Seq<u8>, m: Seq<u8>)
    requires
        filtered(name, m) is Some,
    ensures
        filtered(name, m) == Some(m) || exists|a: int, b: int|
            HEADER_LEN <= a < b <= m.len() && boundary(m, HEADER_LEN as int, a) && section_at(m, a)
                == Some((b, Some(name))) && filtered(name, m) == Some(
                m.subrange(0, a) + m.subrange(b, m.len() as int),
            ),
{
    if has_section(m, name) {
        law_single_removal(name, m);
    } else {
        let h = HEADER_LEN as int;
        lemma_walk_keeps(m, h, name, false);
        assert(m.subrange(0, h) + m.subrange(h, m.len() as int) =~= m);
    }
}

/// When the module holds a custom section named `name`, filtering removes
/// exactly the bytes of that section and changes nothing else.
pub proof fn law_single_removal(name: Seq<u8>, m: Seq<u8>)
    requires
        header_ok(m),
        has_section(m, name),
    ensures
        exists|a: int, b: int|
            HEADER_LEN <= a < b <= m.len() && boundary(m, HEADER_LEN as int, a) && section_at(m, a)
                == Some((b, Some(name))) && filtered(name, m) == Some(
                m.subrange(0, a) + m.subrange(b, m.len() as int),
            ),
{
    let h = HEADER_LEN as int;
    lemma_walk_cut(m, h, name);
    let (a, b) = choose|a: int, b: int|
        h <= a < b <= m.len() && boundary(m, h, a) && section_at(m, a) == Some((b, Some(name)))
            && walk(m, h, name, false)->Some_0.0 == m.subrange(h, a) + m.subrange(
            b,
            m.len() as int,
        );
    assert(m.subrange(0, h) + (m.subrange(h, a) + m.subrange(b, m.len() as int)) =~= m.subrange(
        0,
        a,
    ) + m.subrange(b, m.len() as int));
}

/// Decoding the head of an appended custom section gives back its kind, a
/// declared length equal to the name header's length plus the payload's,
/// the name, and then the payload.
pub proof fn law_frame_decodes(name: Seq<u8>, payload: Seq<u8>)
    requires
        name_header(name).len() + payload.len() <= 0xffff_ffff_ffff_ffff,
    ensures
        ({
            let f = custom_section(name, payload);
            let decl = name_header(name).len() + payload.len();
            let p = 1 + leb_encode(decl).len() as int;
            let q = p + leb_encode(name.len()).len() as int;
            &&& f[0] == 0
            &&& leb_decode(f, 1, 10) == Some((decl, p))
            &&& leb_decode(f, p, 10) == Some((name.len(), q))
            &&& f.subrange(q, q + name.len()) == name
            &&& f.subrange(q + name.len(), f.len() as int) == payload
            &&& f.len() == p + decl
        }),
{
    let f = custom_section(name, payload);
    let decl = name_header(name).len() + payload.len();
    let e1 = leb_encode(decl);
    let e2 = leb_encode(name.len());
    lemma_radix_pow_ten();
    lemma_encode_len(decl, 10);
    lemma_encode_len(name.len(), 10);
    let p = 1 + e1.len() as int;
    let q = p + e2.len() as int;
    assert(f =~= seq![0u8] + e1 + e2 + name + payload);
    assert(f.subrange(1, p) =~= e1);
    lemma_decode_encode(f, 1, decl, 10);
    assert(f.subrange(p, q) =~= e2);
    lemma_decode_encode(f, p, name.len(), 10);
    assert(f.subrange(q, q + name.len()) =~= name);
    assert(f.subrange(q + name.len(), f.len() as int) =~= payload);
}

} // verus!
