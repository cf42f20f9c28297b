use bspedit::bsp::{BSPError, BSPLump, PakAlgo, ParsedMap};

fn put_u32(buf: &mut [u8], at: usize, v: u32) {
    buf[at..at + 4].copy_from_slice(&v.to_le_bytes());
}

/// A map with the entity lump right behind the header and the archive lump
/// behind that; every other lump is empty at offset 0.
fn build_map(version: u32, entities: &[u8], pak: &[u8]) -> Vec<u8> {
    let mut buf = vec![0u8; 0x40C];
    buf[0..4].copy_from_slice(b"VBSP");
    put_u32(&mut buf, 4, version);
    put_u32(&mut buf, 8, 0x40C);
    put_u32(&mut buf, 12, entities.len() as u32);
    put_u32(&mut buf, 8 + 16 * 40, 0x40C + entities.len() as u32);
    put_u32(&mut buf, 8 + 16 * 40 + 4, pak.len() as u32);
    put_u32(&mut buf, 0x408, 7);
    buf.extend_from_slice(entities);
    buf.extend_from_slice(pak);
    buf
}

fn store_entry(name: &[u8], data: &[u8]) -> Vec<u8> {
    let mut e = vec![0u8; 30];
    e[0..4].copy_from_slice(&[0x50, 0x4B, 3, 4]);
    e[18..22].copy_from_slice(&(data.len() as u32).to_le_bytes());
    e[22..26].copy_from_slice(&(data.len() as u32).to_le_bytes());
    e[26..28].copy_from_slice(&(name.len() as u16).to_le_bytes());
    e.extend_from_slice(name);
    e.extend_from_slice(data);
    e
}

fn central_directory() -> Vec<u8> {
    let mut c = vec![0u8; 46];
    c[0..4].copy_from_slice(&[0x50, 0x4B, 1, 2]);
    c
}

/// The payload of a compressed entry: the four-byte prefix, the five
/// property bytes and the stream.
fn lzma_payload(data: &[u8]) -> Vec<u8> {
    let packed = gmod_lzma::compress(data, 6).unwrap();
    let mut p = vec![9u8, 20, 5, 0];
    p.extend_from_slice(&packed[0..5]);
    p.extend_from_slice(&packed[13..]);
    p
}

fn lzma_entry(name: &[u8], data: &[u8]) -> Vec<u8> {
    let payload = lzma_payload(data);
    let mut e = vec![0u8; 30];
    e[0..4].copy_from_slice(&[0x50, 0x4B, 3, 4]);
    e[8] = 0x0E;
    e[18..22].copy_from_slice(&(payload.len() as u32).to_le_bytes());
    e[22..26].copy_from_slice(&(data.len() as u32).to_le_bytes());
    e[26..28].copy_from_slice(&(name.len() as u16).to_le_bytes());
    e.extend_from_slice(name);
    e.extend_from_slice(&payload);
    e
}

fn compressed_entities(text: &[u8]) -> Vec<u8> {
    let packed = gmod_lzma::compress(text, 6).unwrap();
    let mut l = b"LZMA".to_vec();
    l.extend_from_slice(&(text.len() as u32).to_le_bytes());
    l.extend_from_slice(&((packed.len() - 13) as u32).to_le_bytes());
    l.extend_from_slice(&packed[0..5]);
    l.extend_from_slice(&packed[13..]);
    l
}

fn entity_text(map: &ParsedMap) -> &str {
    match &map.lumps[0] {
        BSPLump::Entities(e) => e.string.as_str(),
        _ => panic!("slot 0 does not hold the entities"),
    }
}

#[test]
fn empty_buffer_is_truncated() {
    assert_eq!(ParsedMap::new(Vec::new()).err(), Some(BSPError::TruncatedHeader(0)));
}

#[test]
fn header_cut_short_is_truncated() {
    let mut buf = build_map(20, b"", &central_directory());
    buf.truncate(0x40B);
    assert_eq!(ParsedMap::new(buf).err(), Some(BSPError::TruncatedHeader(0x40B)));
}

#[test]
fn versions_19_20_21_decode() {
    for version in [19u32, 20, 21] {
        let map = ParsedMap::new(build_map(version, b"{\n}\n\0", &central_directory())).unwrap();
        assert_eq!(map.version, version);
        assert_eq!(map.iteration, 7);
        assert_eq!(map.lumps.len(), 64);
    }
}

#[test]
fn other_versions_are_refused() {
    for version in [0u32, 18, 22, 0xFFFF_FFFF] {
        let r = ParsedMap::new(build_map(version, b"", &central_directory()));
        assert_eq!(r.err(), Some(BSPError::InvalidVersion(version)));
    }
}

#[test]
fn other_magic_is_refused_with_the_value_read() {
    let mut buf = build_map(20, b"", &central_directory());
    buf[0..4].copy_from_slice(b"VBSQ");
    assert_eq!(ParsedMap::new(buf).err(), Some(BSPError::InvalidHeader(0x5153_4256)));
}

#[test]
fn magic_is_checked_before_version() {
    let mut buf = build_map(5, b"", &central_directory());
    buf[0] = 0;
    assert_eq!(ParsedMap::new(buf).err(), Some(BSPError::InvalidHeader(0x5053_4200)));
}

#[test]
fn lump_beyond_the_buffer_is_refused() {
    let mut buf = build_map(20, b"abc", &central_directory());
    let len = buf.len() as u32;
    put_u32(&mut buf, 8 + 16 * 7, len - 1);
    put_u32(&mut buf, 8 + 16 * 7 + 4, 2);
    assert_eq!(ParsedMap::new(buf).err(), Some(BSPError::LumpOutOfBounds(7)));
}

#[test]
fn lump_whose_end_wraps_is_refused() {
    let mut buf = build_map(20, b"abc", &central_directory());
    put_u32(&mut buf, 8 + 16 * 3, 0xFFFF_FFFF);
    put_u32(&mut buf, 8 + 16 * 3 + 4, 2);
    assert_eq!(ParsedMap::new(buf).err(), Some(BSPError::LumpOutOfBounds(3)));
}

#[test]
fn plain_entities_lose_one_trailing_nul() {
    let map = ParsedMap::new(build_map(20, b"{\n\"a\" \"b\"\n}\n\0", &central_directory())).unwrap();
    assert_eq!(entity_text(&map), "{\n\"a\" \"b\"\n}\n");
}

#[test]
fn plain_entities_lose_only_one_nul() {
    let map = ParsedMap::new(build_map(20, b"ab\0\0", &central_directory())).unwrap();
    assert_eq!(entity_text(&map), "ab\0");
}

#[test]
fn plain_entities_without_nul_are_kept_whole() {
    let map = ParsedMap::new(build_map(20, b"{\n}\n", &central_directory())).unwrap();
    assert_eq!(entity_text(&map), "{\n}\n");
}

#[test]
fn empty_entity_lump_is_empty_text() {
    let map = ParsedMap::new(build_map(20, b"", &central_directory())).unwrap();
    assert_eq!(entity_text(&map), "");
}

#[test]
fn entities_that_are_not_utf8_are_refused() {
    let r = ParsedMap::new(build_map(20, &[0x7B, 0xFF, 0x7D], &central_directory()));
    assert_eq!(r.err(), Some(BSPError::InvalidEntities(0)));
}

#[test]
fn compressed_entities_decode_to_the_declared_length() {
    let text = b"{\n\"classname\" \"worldspawn\"\n}\n{\n\"classname\" \"light\"\n}\n";
    let lump = compressed_entities(text);
    let map = ParsedMap::new(build_map(20, &lump, &central_directory())).unwrap();
    assert_eq!(entity_text(&map).as_bytes(), text);
    assert_eq!(entity_text(&map).len(), text.len());
}

#[test]
fn truncated_compressed_entities_are_refused() {
    let text = b"{\n\"classname\" \"worldspawn\"\n}\n{\n\"classname\" \"light\"\n}\n";
    let mut lump = compressed_entities(text);
    lump.truncate(lump.len() - 6);
    let r = ParsedMap::new(build_map(20, &lump, &central_directory()));
    assert_eq!(r.err(), Some(BSPError::InvalidEntities(12)));
}

#[test]
fn compressed_entities_with_a_wrong_length_are_refused() {
    let text = b"{\n\"classname\" \"worldspawn\"\n}\n";
    let mut lump = compressed_entities(text);
    lump[4..8].copy_from_slice(&(text.len() as u32 + 5).to_le_bytes());
    let r = ParsedMap::new(build_map(20, &lump, &central_directory()));
    assert_eq!(r.err(), Some(BSPError::InvalidEntities(12)));
}

#[test]
fn compressed_entities_without_a_header_are_refused() {
    let r = ParsedMap::new(build_map(20, b"LZMA\x01\x00", &central_directory()));
    assert_eq!(r.err(), Some(BSPError::InvalidEntities(4)));
}

#[test]
fn stored_entries_come_out_in_order() {
    let names: [&[u8]; 3] = [b"materials/a.vtf", b"b.txt", b"c"];
    let datas: [&[u8]; 3] = [b"first", b"", b"third entry"];
    let mut pak = Vec::new();
    for i in 0..3 {
        pak.extend_from_slice(&store_entry(names[i], datas[i]));
    }
    pak.extend_from_slice(&central_directory());
    let map = ParsedMap::new(build_map(20, b"", &pak)).unwrap();
    let lump = match &map.lumps[40] {
        BSPLump::PakFile(p) => p,
        _ => panic!("slot 40 does not hold the archive"),
    };
    let window = lump.data(&map.buf).unwrap();
    assert_eq!(window, &pak[..]);
    assert_eq!(lump.files.len(), 3);
    for i in 0..3 {
        let f = &lump.files[i];
        assert_eq!(f.name_bytes(window).unwrap(), names[i]);
        assert_eq!(f.name(window).unwrap().as_bytes(), names[i]);
        assert_eq!(f.data(window).unwrap(), datas[i]);
        assert_eq!(f.compression_algo, PakAlgo::Store);
        assert_eq!(f.real_data, None);
        assert!(!f.remove);
        assert_eq!(f.blacklisted, None);
    }
    assert_eq!(lump.files[0].name, (30, 15));
    assert_eq!(lump.files[0].data, (45, 5));
    assert_eq!(lump.files[1].name, (80, 5));
}

#[test]
fn extra_field_of_a_stored_entry_is_skipped() {
    let mut e = store_entry(b"n", b"");
    e[28] = 3;
    e.extend_from_slice(&[9, 9, 9]);
    e.extend_from_slice(b"data");
    e[22] = 4;
    let mut pak = e;
    pak.extend_from_slice(&central_directory());
    let map = ParsedMap::new(build_map(20, b"", &pak)).unwrap();
    let lump = match &map.lumps[40] {
        BSPLump::PakFile(p) => p,
        _ => panic!("slot 40 does not hold the archive"),
    };
    assert_eq!(lump.files.len(), 1);
    assert_eq!(lump.files[0].data, (34, 4));
    assert_eq!(lump.files[0].data(&pak).unwrap(), b"data");
}

#[test]
fn walk_stops_at_the_central_directory() {
    let mut pak = store_entry(b"kept", b"1234");
    pak.extend_from_slice(&central_directory());
    pak.extend_from_slice(&[0xFF; 100]);
    pak.extend_from_slice(&store_entry(b"behind", b"x"));
    let map = ParsedMap::new(build_map(20, b"", &pak)).unwrap();
    let lump = match &map.lumps[40] {
        BSPLump::PakFile(p) => p,
        _ => panic!("slot 40 does not hold the archive"),
    };
    assert_eq!(lump.files.len(), 1);
    assert_eq!(lump.files[0].name_bytes(&pak).unwrap(), b"kept");
}

#[test]
fn empty_archive_lump_has_no_entries() {
    let map = ParsedMap::new(build_map(20, b"", b"")).unwrap();
    let lump = match &map.lumps[40] {
        BSPLump::PakFile(p) => p,
        _ => panic!("slot 40 does not hold the archive"),
    };
    assert_eq!(lump.files.len(), 0);
}

#[test]
fn unknown_signature_is_refused_at_the_header() {
    let mut pak = store_entry(b"a", b"b");
    let at = pak.len() as u32;
    let mut bad = central_directory();
    bad[2] = 7;
    pak.extend_from_slice(&bad);
    let r = ParsedMap::new(build_map(20, b"", &pak));
    assert_eq!(r.err(), Some(BSPError::InvalidPakFile(at)));
}

#[test]
fn unknown_method_is_refused_at_the_method() {
    let mut pak = store_entry(b"a", b"b");
    pak[8] = 8;
    pak.extend_from_slice(&central_directory());
    let r = ParsedMap::new(build_map(20, b"", &pak));
    assert_eq!(r.err(), Some(BSPError::InvalidPakFile(8)));
}

#[test]
fn header_cut_short_is_refused_at_the_header() {
    let mut pak = store_entry(b"a", b"b");
    pak.extend_from_slice(&[0x50, 0x4B, 3, 4, 0, 0]);
    let r = ParsedMap::new(build_map(20, b"", &pak));
    assert_eq!(r.err(), Some(BSPError::InvalidPakFile(32)));
}

#[test]
fn entry_that_leaves_the_archive_is_refused() {
    let mut pak = store_entry(b"a", b"b");
    pak[22] = 200;
    pak.extend_from_slice(&central_directory());
    let r = ParsedMap::new(build_map(20, b"", &pak));
    assert_eq!(r.err(), Some(BSPError::InvalidPakFile(0)));
}

#[test]
fn compressed_entry_is_unpacked() {
    let content = b"a compressed entry a compressed entry a compressed entry";
    let mut pak = store_entry(b"plain", b"p");
    let second = pak.len() as u32;
    let entry = lzma_entry(b"packed.vtf", content);
    let payload_len = (entry.len() - 30 - 10) as u32;
    pak.extend_from_slice(&entry);
    pak.extend_from_slice(&central_directory());
    let map = ParsedMap::new(build_map(20, b"", &pak)).unwrap();
    let lump = match &map.lumps[40] {
        BSPLump::PakFile(p) => p,
        _ => panic!("slot 40 does not hold the archive"),
    };
    assert_eq!(lump.files.len(), 2);
    let f = &lump.files[1];
    assert_eq!(f.name, (second + 30, 10));
    assert_eq!(f.data, (second + 40, payload_len));
    assert_eq!(f.compression_algo, PakAlgo::LZMA(payload_len, content.len() as u32));
    assert_eq!(f.real_data.as_deref(), Some(&content[..]));
    assert_eq!(f.data(&pak).unwrap(), content);
    assert_eq!(f.data(&[]).unwrap(), content);
}

#[test]
fn compressed_entry_with_extra_field_is_refused() {
    let mut pak = lzma_entry(b"x", b"some content");
    pak[28] = 1;
    pak.extend_from_slice(&central_directory());
    let r = ParsedMap::new(build_map(20, b"", &pak));
    assert_eq!(r.err(), Some(BSPError::InvalidPakFile(28)));
}

#[test]
fn compressed_entry_that_does_not_unpack_is_refused_at_its_data() {
    let mut pak = lzma_entry(b"x", b"some content some content some content");
    let n = pak.len();
    pak.truncate(n - 4);
    let packed = (n - 4 - 31) as u32;
    pak[18..22].copy_from_slice(&packed.to_le_bytes());
    pak.extend_from_slice(&central_directory());
    let r = ParsedMap::new(build_map(20, b"", &pak));
    assert_eq!(r.err(), Some(BSPError::InvalidPakFile(31)));
}

#[test]
fn physical_order_is_by_offset() {
    let mut buf = build_map(20, b"abcdef", &central_directory());
    // lump 5 lies inside the header region, before lump 0
    put_u32(&mut buf, 8 + 16 * 5, 0x100);
    put_u32(&mut buf, 8 + 16 * 5 + 4, 4);
    let map = ParsedMap::new(buf).unwrap();
    assert_eq!(map.order.len(), 64);
    let at = |i: u8| map.order.iter().position(|x| x.0 == i).unwrap();
    assert!(at(5) < at(0));
    assert!(at(0) < at(40));
    assert_eq!(map.order[at(5)], (5, 0x100));
    assert_eq!(map.order[at(0)], (0, 0x40C));
    // lumps at the same offset keep the order of their indices
    assert_eq!(map.order[0], (1, 0));
    assert_eq!(map.order[1], (2, 0));
    assert_eq!(map.order[60], (63, 0));
    assert_eq!(map.order[61], (5, 0x100));
    assert_eq!(map.order[62], (0, 0x40C));
    assert_eq!(map.order[63], (40, 0x412));
}

#[test]
fn directory_records_are_kept() {
    let mut buf = build_map(21, b"abc", &central_directory());
    put_u32(&mut buf, 8 + 16 * 9 + 8, 0xAABB_CCDD);
    put_u32(&mut buf, 8 + 16 * 9 + 12, 0x0102_0304);
    let map = ParsedMap::new(buf.clone()).unwrap();
    match &map.lumps[9] {
        BSPLump::Unknown(b) => {
            assert_eq!((b.offset, b.size, b.version, b.four), (0, 0, 0xAABB_CCDD, 0x0102_0304));
        },
        _ => panic!("slot 9 is not an opaque lump"),
    }
    assert_eq!(map.buf, buf);
}
