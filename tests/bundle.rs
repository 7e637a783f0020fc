use std::io::Read;
use wasm_bundle::leb::read_unsigned;
use wasm_bundle::module::{append, filter};
use wasm_bundle::paths::{entry_names, read_paths, NodeKind, PathInfo};

#[test]
fn one_file_bundle_end_to_end() {
    let module: Vec<u8> = vec![0x00, 0x61, 0x73, 0x6d, 0x01, 0x00, 0x00, 0x00];
    let section = b".demo.resources";
    let paths = read_paths(b"/tmp/x/file.txt\n");
    let infos: Vec<PathInfo> = paths
        .into_iter()
        .map(|path| PathInfo {
            path,
            ancestors: vec![NodeKind::File, NodeKind::Dir, NodeKind::Dir, NodeKind::Dir],
        })
        .collect();
    let names = entry_names(&infos, b"/tmp/").unwrap();
    assert_eq!(names, vec![b"x/file.txt".to_vec()]);

    let content = b"hello bundle\n";
    let mut builder = tar::Builder::new(Vec::new());
    let mut header = tar::Header::new_gnu();
    header.set_size(content.len() as u64);
    header.set_mode(0o644);
    header.set_cksum();
    let name = String::from_utf8(names[0].clone()).unwrap();
    builder.append_data(&mut header, &name, &content[..]).unwrap();
    let archive = builder.into_inner().unwrap();

    let mut out = filter(section, &module).unwrap();
    assert_eq!(out, module);
    append(section, &archive, &mut out);

    assert_eq!(&out[..8], &module[..]);
    assert_eq!(out[8], 0);
    let (declared, p) = read_unsigned(&out, 9, 9).unwrap();
    assert_eq!(declared as usize, 1 + section.len() + archive.len());
    let (name_len, q) = read_unsigned(&out, p, 9).unwrap();
    assert_eq!(name_len as usize, section.len());
    assert_eq!(&out[q..q + section.len()], &section[..]);
    let payload = &out[q + section.len()..];
    assert_eq!(payload, &archive[..]);

    let mut unpacked = tar::Archive::new(payload);
    let mut entries = unpacked.entries().unwrap();
    let mut entry = entries.next().unwrap().unwrap();
    assert_eq!(entry.path().unwrap().to_str().unwrap(), "x/file.txt");
    let mut read_back = Vec::new();
    entry.read_to_end(&mut read_back).unwrap();
    assert_eq!(read_back, content.to_vec());
    drop(entry);
    assert!(entries.next().is_none());

    assert_eq!(filter(section, &out).unwrap(), module);
}
