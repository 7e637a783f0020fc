use wasm_bundle::error::BundleError;
use wasm_bundle::leb::read_unsigned;
use wasm_bundle::module::{append, filter};

const HEADER: [u8; 8] = [0x00, 0x61, 0x73, 0x6d, 0x01, 0x00, 0x00, 0x00];

fn module_with(sections: &[&[u8]]) -> Vec<u8> {
    let mut m = HEADER.to_vec();
    for s in sections {
        m.extend_from_slice(s);
    }
    m
}

fn custom(name: &[u8], payload: &[u8]) -> Vec<u8> {
    let mut body = vec![name.len() as u8];
    body.extend_from_slice(name);
    body.extend_from_slice(payload);
    let mut s = vec![0u8, body.len() as u8];
    s.extend_from_slice(&body);
    s
}

#[test]
fn header_only_module_is_unchanged() {
    let m = module_with(&[]);
    assert_eq!(filter(b".res", &m).unwrap(), m);
}

#[test]
fn module_without_target_is_unchanged() {
    let types: &[u8] = &[1, 4, 1, 0x60, 0, 0];
    let other = custom(b"name", &[9, 9]);
    let m = module_with(&[types, &other]);
    assert_eq!(filter(b".res", &m).unwrap(), m);
}

#[test]
fn named_section_is_removed() {
    let types: &[u8] = &[1, 4, 1, 0x60, 0, 0];
    let target = custom(b".res", &[1, 2, 3]);
    let other = custom(b"name", &[7]);
    let m = module_with(&[types, &target, &other]);
    let expected = module_with(&[types, &other]);
    assert_eq!(filter(b".res", &m).unwrap(), expected);
}

#[test]
fn only_first_named_section_is_removed() {
    let first = custom(b".res", &[1]);
    let second = custom(b".res", &[2]);
    let m = module_with(&[&first, &second]);
    assert_eq!(filter(b".res", &m).unwrap(), module_with(&[&second]));
}

#[test]
fn code_section_is_copied_without_parsing() {
    // A code section whose body looks like a custom section named ".res".
    let inner = custom(b".res", &[5]);
    let mut code = vec![10u8, inner.len() as u8];
    code.extend_from_slice(&inner);
    let m = module_with(&[&code]);
    assert_eq!(filter(b".res", &m).unwrap(), m);
}

#[test]
fn name_prefix_is_not_a_match() {
    let other = custom(b".resources", &[1]);
    let m = module_with(&[&other]);
    assert_eq!(filter(b".res", &m).unwrap(), m);
}

#[test]
fn bad_magic_is_refused() {
    let mut m = module_with(&[]);
    m[1] = 0x62;
    assert_eq!(filter(b".res", &m), Err(BundleError::MalformedModule));
    assert_eq!(filter(b".res", &HEADER[..7]), Err(BundleError::MalformedModule));
}

#[test]
fn overlong_section_is_refused() {
    let m = module_with(&[&[1, 5, 0, 0]]);
    assert_eq!(filter(b".res", &m), Err(BundleError::MalformedModule));
}

#[test]
fn unknown_section_kind_is_refused() {
    let m = module_with(&[&[13, 0]]);
    assert_eq!(filter(b".res", &m), Err(BundleError::MalformedModule));
}

#[test]
fn custom_name_past_section_is_refused() {
    let m = module_with(&[&[0, 2, 5, b'a']]);
    assert_eq!(filter(b".res", &m), Err(BundleError::MalformedModule));
    let empty_custom = module_with(&[&[0, 0]]);
    assert_eq!(filter(b".res", &empty_custom), Err(BundleError::MalformedModule));
}

#[test]
fn oversized_length_is_refused() {
    // Six length bytes exceed the five allowed for a 32-bit length.
    let m = module_with(&[&[1, 0x80, 0x80, 0x80, 0x80, 0x80, 0x00]]);
    assert_eq!(filter(b".res", &m), Err(BundleError::MalformedModule));
    // Five bytes whose value needs more than 32 bits.
    let m = module_with(&[&[1, 0x80, 0x80, 0x80, 0x80, 0x10]]);
    assert_eq!(filter(b".res", &m), Err(BundleError::MalformedModule));
}

#[test]
fn padded_length_is_accepted() {
    let m = module_with(&[&[1, 0x81, 0x00, 0x60]]);
    assert_eq!(filter(b".res", &m).unwrap(), m);
}

#[test]
fn append_frames_small_section() {
    let mut out = vec![0xaa];
    append(b"ab", &[1, 2, 3], &mut out);
    assert_eq!(out, vec![0xaa, 0, 6, 2, b'a', b'b', 1, 2, 3]);
}

#[test]
fn append_uses_multi_byte_lengths() {
    let archive = vec![7u8; 200];
    let mut out = Vec::new();
    append(b"x", &archive, &mut out);
    // 200 + 2 = 202 = 0b1_1001010
    assert_eq!(&out[..5], &[0, 0xca, 0x01, 1, b'x']);
    assert_eq!(out.len(), 5 + 200);
    assert_eq!(&out[5..], &archive[..]);
}

#[test]
fn append_then_filter_restores_module() {
    let types: &[u8] = &[1, 4, 1, 0x60, 0, 0];
    let m = module_with(&[types]);
    let mut out = filter(b".res", &m).unwrap();
    assert_eq!(out, m);
    append(b".res", &[1, 2, 3, 4], &mut out);
    assert!(out.len() > m.len());
    assert_eq!(filter(b".res", &out).unwrap(), m);
}

#[test]
fn appended_header_decodes() {
    let name = b".demo.resources";
    let archive = vec![3u8; 300];
    let mut out = Vec::new();
    append(name, &archive, &mut out);
    assert_eq!(out[0], 0);
    let (declared, p) = read_unsigned(&out, 1, 9).unwrap();
    assert_eq!(declared, 300 + 1 + 15);
    let (name_len, q) = read_unsigned(&out, p, 9).unwrap();
    assert_eq!(name_len, 15);
    assert_eq!(&out[q..q + 15], &name[..]);
    assert_eq!(&out[q + 15..], &archive[..]);
    assert_eq!(out.len(), p + declared as usize);
}

#[test]
fn read_unsigned_limits_bytes() {
    assert_eq!(read_unsigned(&[0xe5, 0x8e, 0x26], 0, 5), Some((624485, 3)));
    assert_eq!(read_unsigned(&[0xe5, 0x8e, 0x26], 0, 2), None);
    assert_eq!(read_unsigned(&[0x80], 0, 5), None);
    assert_eq!(read_unsigned(&[0x01, 0x7f], 1, 1), Some((127, 2)));
}
