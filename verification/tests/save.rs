use bspedit::bsp::{BSPError, BSPLump, PakAlgo, PakFile, ParsedMap};
use bspedit::encode::{encode_entities, frame_compressed, join_entities, plain_entity_lump};
use bspedit::kv::{parse_ents_hacky, Entity};
use bspedit::patch::patch;
use bspedit::repack::{encode_pak, restore_lzma_headers};
use bspedit::save::save;

fn put_u32(buf: &mut [u8], at: usize, v: u32) {
    buf[at..at + 4].copy_from_slice(&v.to_le_bytes());
}

fn build_map(entities: &[u8], four: u32, pak: &[u8]) -> Vec<u8> {
    let mut buf = vec![0u8; 0x40C];
    buf[0..4].copy_from_slice(b"VBSP");
    put_u32(&mut buf, 4, 20);
    put_u32(&mut buf, 8, 0x40C);
    put_u32(&mut buf, 12, entities.len() as u32);
    put_u32(&mut buf, 20, four);
    put_u32(&mut buf, 8 + 16 * 40, 0x40C + entities.len() as u32);
    put_u32(&mut buf, 8 + 16 * 40 + 4, pak.len() as u32);
    buf.extend_from_slice(entities);
    buf.extend_from_slice(pak);
    buf.extend_from_slice(b"what lies behind both lumps");
    buf
}

fn store_entry(name: &[u8], data: &[u8]) -> Vec<u8> {
    let mut e = vec![0u8; 30];
    e[0..4].copy_from_slice(&[0x50, 0x4B, 3, 4]);
    e[18..22].copy_from_slice(&(data.len() as u32).to_le_bytes());
    e[22..26].copy_from_slice(&(data.len() as u32).to_le_bytes());
    e[26..28].copy_from_slice(&(name.len() as u16).to_le_bytes());
    e.extend_from_slice(name);
    e.extend_from_slice(data);
    e
}

fn lzma_entry(name: &[u8], data: &[u8]) -> Vec<u8> {
    let packed = gmod_lzma::compress(data, 6).unwrap();
    let mut payload = vec![9u8, 20, 5, 0];
    payload.extend_from_slice(&packed[0..5]);
    payload.extend_from_slice(&packed[13..]);
    let mut e = vec![0u8; 30];
    e[0..4].copy_from_slice(&[0x50, 0x4B, 3, 4]);
    e[8] = 0x0E;
    e[18..22].copy_from_slice(&(payload.len() as u32).to_le_bytes());
    e[22..26].copy_from_slice(&(data.len() as u32).to_le_bytes());
    e[26..28].copy_from_slice(&(name.len() as u16).to_le_bytes());
    e.extend_from_slice(name);
    e.extend_from_slice(&payload);
    e
}

fn central_directory() -> Vec<u8> {
    let mut c = vec![0u8; 46];
    c[0..4].copy_from_slice(&[0x50, 0x4B, 1, 2]);
    c
}

/// An archive of three stored entries and one compressed one, with room to
/// spare behind the central directory.
fn sample_pak() -> Vec<u8> {
    let mut pak = store_entry(b"materials/one.vtf", b"the first texture");
    pak.extend_from_slice(&store_entry(b"materials/two.vtf", b"the second texture"));
    pak.extend_from_slice(&lzma_entry(b"models/packed.mdl", &[7u8; 300]));
    pak.extend_from_slice(&store_entry(b"readme.txt", b"hello"));
    pak.extend_from_slice(&central_directory());
    pak.extend_from_slice(&[0u8; 600]);
    pak
}

fn files_of(map: &ParsedMap) -> Vec<PakFile> {
    match &map.lumps[40] {
        BSPLump::PakFile(p) => p.files.clone(),
        _ => panic!("slot 40 does not hold the archive"),
    }
}

fn entities_of(map: &ParsedMap) -> Vec<Entity> {
    match &map.lumps[0] {
        BSPLump::Entities(e) => parse_ents_hacky(e.string.as_str()),
        _ => panic!("slot 0 does not hold the entities"),
    }
}

fn window(map: &ParsedMap, slot: usize) -> Vec<u8> {
    let base = match &map.lumps[slot] {
        BSPLump::Entities(e) => e.base,
        BSPLump::PakFile(p) => p.base,
        _ => panic!("not a decoded lump"),
    };
    map.buf[base.offset as usize..(base.offset + base.size) as usize].to_vec()
}

const TEXT: &[u8] = b"{\n\"classname\" \"worldspawn\"\n}\n{\n\"classname\" \"light\"\n\"origin\" \"1 2 3\"\n}\n\0";

#[test]
fn unedited_save_gives_back_the_buffer() {
    let buf = build_map(TEXT, 0, &sample_pak());
    let map = ParsedMap::new(buf.clone()).unwrap();
    let saved = save(&map, &entities_of(&map), &files_of(&map)).unwrap();
    assert_eq!(saved, buf);
}

#[test]
fn unedited_save_keeps_a_compressed_entity_lump() {
    let text = &TEXT[..TEXT.len() - 1];
    let packed = gmod_lzma::compress(text, 6).unwrap();
    let lump = frame_compressed(text.len() as u32, &packed).unwrap();
    let buf = build_map(&lump, text.len() as u32, &sample_pak());
    let map = ParsedMap::new(buf.clone()).unwrap();
    let saved = save(&map, &entities_of(&map), &files_of(&map)).unwrap();
    assert_eq!(saved, buf);
}

#[test]
fn joined_records_have_newlines_between_them() {
    let ents = vec![
        Entity { string: "{\na\n}".to_string(), dirty: false },
        Entity { string: "{\nb\n}".to_string(), dirty: true },
        Entity { string: "".to_string(), dirty: false },
    ];
    assert_eq!(join_entities(&ents), b"{\na\n}\n{\nb\n}\n");
    assert_eq!(plain_entity_lump(&ents), b"{\na\n}\n{\nb\n}\n\n\0");
    assert_eq!(join_entities(&Vec::new()), b"");
    assert_eq!(plain_entity_lump(&Vec::new()), b"\n\0");
}

#[test]
fn parsing_and_joining_give_back_the_text() {
    let map = ParsedMap::new(build_map(TEXT, 0, &sample_pak())).unwrap();
    let ents = entities_of(&map);
    assert_eq!(ents.len(), 2);
    assert_eq!(plain_entity_lump(&ents), TEXT);
}

#[test]
fn edited_entities_are_written_plain_and_padded() {
    let buf = build_map(TEXT, 0, &sample_pak());
    let map = ParsedMap::new(buf.clone()).unwrap();
    let mut ents = entities_of(&map);
    ents[1].string = "{\n\"classname\" \"x\"\n}".to_string();
    ents[1].dirty = true;
    let saved = save(&map, &ents, &files_of(&map)).unwrap();
    assert_eq!(saved.len(), buf.len());
    let expected = b"{\n\"classname\" \"worldspawn\"\n}\n{\n\"classname\" \"x\"\n}\n\0";
    let start = 0x40C;
    assert_eq!(&saved[start..start + expected.len()], expected);
    assert!(saved[start + expected.len()..start + TEXT.len()].iter().all(|b| *b == 0));
    assert_eq!(&saved[..start], &buf[..start]);
    assert_eq!(&saved[start + TEXT.len()..], &buf[start + TEXT.len()..]);
}

#[test]
fn edited_entities_of_the_same_size_fit() {
    let buf = build_map(TEXT, 0, &sample_pak());
    let map = ParsedMap::new(buf.clone()).unwrap();
    let mut ents = entities_of(&map);
    ents[0].string = ents[0].string.replace("worldspawn", "WORLDSPAWN");
    ents[0].dirty = true;
    let saved = save(&map, &ents, &files_of(&map)).unwrap();
    assert_eq!(saved.len(), buf.len());
    assert_ne!(saved, buf);
    let again = ParsedMap::new(saved).unwrap();
    assert_eq!(window(&again, 0), String::from_utf8(TEXT.to_vec()).unwrap().replace("worldspawn", "WORLDSPAWN").into_bytes());
}

#[test]
fn edited_entities_one_byte_too_long_fail() {
    let map = ParsedMap::new(build_map(TEXT, 0, &sample_pak())).unwrap();
    let mut ents = entities_of(&map);
    ents[0].string.push('x');
    ents[0].dirty = true;
    assert_eq!(save(&map, &ents, &files_of(&map)), Err(BSPError::LumpOverflow(0)));
}

#[test]
fn size_is_not_checked_while_no_record_is_dirty() {
    let buf = build_map(TEXT, 0, &sample_pak());
    let map = ParsedMap::new(buf.clone()).unwrap();
    let mut ents = entities_of(&map);
    ents[0].string.push_str("a change that nobody marked");
    assert_eq!(save(&map, &ents, &files_of(&map)).unwrap(), buf);
}

#[test]
fn patch_takes_exactly_the_size_and_refuses_one_more() {
    let map = ParsedMap::new(build_map(TEXT, 0, &sample_pak())).unwrap();
    let pak = window(&map, 40);
    let full = vec![b'e'; TEXT.len()];
    let patched = patch(&map, &full, &pak).unwrap();
    assert_eq!(&patched[0x40C..0x40C + TEXT.len()], &full[..]);
    let over = vec![b'e'; TEXT.len() + 1];
    assert_eq!(patch(&map, &over, &pak), Err(BSPError::LumpOverflow(0)));
    let mut big = pak.clone();
    big.push(0);
    assert_eq!(patch(&map, &full, &big), Err(BSPError::LumpOverflow(40)));
    assert_eq!(patch(&map, &over, &big), Err(BSPError::LumpOverflow(0)));
}

#[test]
fn patch_pads_with_zeros_and_leaves_the_directory() {
    let buf = build_map(TEXT, 0, &sample_pak());
    let map = ParsedMap::new(buf.clone()).unwrap();
    let patched = patch(&map, b"ab", b"cd").unwrap();
    let pak_at = 0x40C + TEXT.len();
    let pak_len = sample_pak().len();
    assert_eq!(patched.len(), buf.len());
    assert_eq!(&patched[..0x40C], &buf[..0x40C]);
    assert_eq!(&patched[0x40C..0x40E], b"ab");
    assert!(patched[0x40E..pak_at].iter().all(|b| *b == 0));
    assert_eq!(&patched[pak_at..pak_at + 2], b"cd");
    assert!(patched[pak_at + 2..pak_at + pak_len].iter().all(|b| *b == 0));
    assert_eq!(&patched[pak_at + pak_len..], b"what lies behind both lumps");
}

#[test]
fn compressed_frame_has_marker_lengths_properties_and_stream() {
    let mut packed = vec![0x5D, 0, 0, 1, 0];
    packed.extend_from_slice(&[11, 0, 0, 0, 0, 0, 0, 0]);
    packed.extend_from_slice(&[0xAA, 0xBB, 0xCC]);
    let lump = frame_compressed(0x0102_0304, &packed).unwrap();
    assert_eq!(
        lump,
        vec![b'L', b'Z', b'M', b'A', 4, 3, 2, 1, 3, 0, 0, 0, 0x5D, 0, 0, 1, 0, 0xAA, 0xBB, 0xCC]
    );
    assert_eq!(frame_compressed(1, &packed[..12]), None);
    assert_eq!(frame_compressed(1, &packed[..13]).unwrap().len(), 17);
}

#[test]
fn edited_entities_of_a_compressed_lump_are_compressed_again() {
    let text = &TEXT[..TEXT.len() - 1];
    let packed = gmod_lzma::compress(text, 6).unwrap();
    let mut lump = frame_compressed(text.len() as u32, &packed).unwrap();
    lump.extend_from_slice(&[0u8; 64]);
    let map = ParsedMap::new(build_map(&lump, text.len() as u32, &sample_pak())).unwrap();
    let mut ents = entities_of(&map);
    ents[0].string = ents[0].string.replace("worldspawn", "func_detail");
    ents[0].dirty = true;
    let encoded = encode_entities(&window(&map, 0), text.len() as u32, &ents).unwrap();
    assert_eq!(&encoded[0..4], b"LZMA");
    let plain = plain_entity_lump(&ents);
    assert_eq!(&encoded[4..8], &(plain.len() as u32).to_le_bytes());
    assert_eq!(&encoded[8..12], &((encoded.len() - 17) as u32).to_le_bytes());
    let saved = save(&map, &ents, &files_of(&map)).unwrap();
    let again = ParsedMap::new(saved).unwrap();
    match &again.lumps[0] {
        BSPLump::Entities(e) => assert_eq!(e.string.as_bytes(), &plain[..]),
        _ => panic!("slot 0 does not hold the entities"),
    }
}

#[test]
fn archive_without_removals_is_kept_byte_for_byte() {
    let pak = sample_pak();
    let map = ParsedMap::new(build_map(TEXT, 0, &pak)).unwrap();
    assert_eq!(encode_pak(&pak, &files_of(&map)).unwrap(), pak);
}

#[test]
fn removed_entry_is_left_out_of_the_rebuilt_archive() {
    let pak = sample_pak();
    let map = ParsedMap::new(build_map(TEXT, 0, &pak)).unwrap();
    let mut files = files_of(&map);
    files[1].remove = true;
    let rebuilt = encode_pak(&pak, &files).unwrap();
    assert_ne!(rebuilt, pak);
    let saved = save(&map, &entities_of(&map), &files).unwrap();
    let again = ParsedMap::new(saved).unwrap();
    let new_pak = window(&again, 40);
    assert_eq!(&new_pak[..rebuilt.len()], &rebuilt[..]);
    let kept = files_of(&again);
    assert_eq!(kept.len(), 3);
    assert_eq!(kept[0].name(&new_pak).unwrap(), "materials/one.vtf");
    assert_eq!(kept[0].data(&new_pak).unwrap(), b"the first texture");
    assert_eq!(kept[1].name(&new_pak).unwrap(), "models/packed.mdl");
    assert_eq!(kept[1].data(&new_pak).unwrap(), &[7u8; 300][..]);
    assert_eq!(kept[1].compression_algo, files[2].compression_algo);
    assert_eq!(kept[1].data.1, files[2].data.1);
    assert_eq!(kept[2].name(&new_pak).unwrap(), "readme.txt");
    assert_eq!(kept[2].data(&new_pak).unwrap(), b"hello");
    assert_eq!(kept[2].compression_algo, PakAlgo::Store);
}

#[test]
fn removing_the_compressed_entry_leaves_stored_entries_only() {
    let pak = sample_pak();
    let map = ParsedMap::new(build_map(TEXT, 0, &pak)).unwrap();
    let mut files = files_of(&map);
    files[2].remove = true;
    let rebuilt = encode_pak(&pak, &files).unwrap();
    let again = ParsedMap::new(build_map(TEXT, 0, &rebuilt)).unwrap();
    let kept = files_of(&again);
    assert_eq!(kept.len(), 3);
    assert!(kept.iter().all(|f| f.compression_algo == PakAlgo::Store));
}

#[test]
fn rebuilt_archive_larger_than_the_lump_fails() {
    // an archive that ends with its last entry has no room for the central
    // directory that the rebuilt one carries
    let mut pak = store_entry(b"a", b"1");
    pak.extend_from_slice(&store_entry(b"b", b"2"));
    let map = ParsedMap::new(build_map(TEXT, 0, &pak)).unwrap();
    let mut files = files_of(&map);
    assert_eq!(files.len(), 2);
    files[0].remove = true;
    assert_eq!(save(&map, &entities_of(&map), &files), Err(BSPError::LumpOverflow(40)));
}

#[test]
fn entry_with_a_stale_range_fails_the_rebuild() {
    let pak = sample_pak();
    let map = ParsedMap::new(build_map(TEXT, 0, &pak)).unwrap();
    let mut files = files_of(&map);
    files[0].remove = true;
    files[3].data = (pak.len() as u32 - 2, 5);
    assert_eq!(encode_pak(&pak, &files), Err(BSPError::InvalidPakFile(pak.len() as u32 - 2)));
    files[3].name = (pak.len() as u32, 1);
    assert_eq!(encode_pak(&pak, &files), Err(BSPError::InvalidPakFile(pak.len() as u32)));
}

#[test]
fn restore_sets_method_and_size_of_named_entries_only() {
    let pak = sample_pak();
    let map = ParsedMap::new(build_map(TEXT, 0, &pak)).unwrap();
    let files = files_of(&map);
    let mut archive = store_entry(b"readme.txt", b"hello");
    let second = archive.len();
    archive.extend_from_slice(&store_entry(b"models/packed.mdl", b"packed bytes"));
    archive.extend_from_slice(&central_directory());
    let before = archive.clone();
    assert_eq!(restore_lzma_headers(&mut archive, &files, &pak), Ok(()));
    assert_eq!(archive[second + 8], 0x0E);
    assert_eq!(&archive[second + 22..second + 26], &300u32.to_le_bytes());
    let mut expected = before;
    expected[second + 8] = 0x0E;
    expected[second + 22..second + 26].copy_from_slice(&300u32.to_le_bytes());
    assert_eq!(archive, expected);
}

#[test]
fn restore_refuses_an_archive_without_central_directory() {
    let pak = sample_pak();
    let map = ParsedMap::new(build_map(TEXT, 0, &pak)).unwrap();
    let files = files_of(&map);
    let mut archive = store_entry(b"readme.txt", b"hello");
    let end = archive.len() as u32;
    assert_eq!(
        restore_lzma_headers(&mut archive, &files, &pak),
        Err(BSPError::InvalidPakFile(end))
    );
    let mut junk = vec![1u8; 40];
    assert_eq!(restore_lzma_headers(&mut junk, &files, &pak), Err(BSPError::InvalidPakFile(0)));
}

#[test]
fn marking_finds_the_first_entry_of_that_name() {
    let mut pak = store_entry(b"a.vtf", b"1");
    pak.extend_from_slice(&store_entry(b"b.vtf", b"2"));
    pak.extend_from_slice(&store_entry(b"b.vtf", b"3"));
    pak.extend_from_slice(&central_directory());
    let map = ParsedMap::new(build_map(TEXT, 0, &pak)).unwrap();
    let mut files = files_of(&map);
    assert_eq!(bspedit::save::mark_removed(&mut files, &pak, b"b.vtf"), Some(1));
    assert_eq!(files.iter().map(|f| f.remove).collect::<Vec<_>>(), vec![false, true, false]);
    assert_eq!(bspedit::save::mark_removed(&mut files, &pak, b"b.vtf"), Some(1));
    assert_eq!(bspedit::save::mark_removed(&mut files, &pak, b"c.vtf"), None);
    assert_eq!(bspedit::save::mark_removed(&mut files, &pak, b"b.vt"), None);
    assert_eq!(files.iter().map(|f| f.remove).collect::<Vec<_>>(), vec![false, true, false]);
    assert_eq!(files[1].data, files_of(&map)[1].data);
}

#[test]
fn prospective_offsets_follow_the_physical_order() {
    let pak = sample_pak();
    let mut buf = build_map(TEXT, 0, &pak);
    let tail_at = (0x40C + TEXT.len() + pak.len()) as u32;
    // lump 9 is the tail behind both lumps, lump 3 lies inside the header
    put_u32(&mut buf, 8 + 16 * 9, tail_at);
    put_u32(&mut buf, 8 + 16 * 9 + 4, 27);
    put_u32(&mut buf, 8 + 16 * 3, 0x20);
    put_u32(&mut buf, 8 + 16 * 3 + 4, 0x10);
    let map = ParsedMap::new(buf).unwrap();
    let offsets = bspedit::save::prospective_offsets(&map, 100, 1000);
    assert_eq!(offsets.len(), 64);
    assert_eq!(offsets[3], 0x40C);
    assert_eq!(offsets[0], 0x40C + 0x10);
    assert_eq!(offsets[40], 0x40C + 0x10 + 100);
    assert_eq!(offsets[9], 0x40C + 0x10 + 100 + 1000);
    for i in 0..64 {
        if ![0, 3, 9, 40].contains(&i) {
            assert_eq!(offsets[i], 0);
        }
    }
    let same = bspedit::save::prospective_offsets(&map, TEXT.len() as u32, pak.len() as u32);
    assert_eq!(same[0], 0x40C + 0x10);
    assert_eq!(same[9], tail_at as u64 + 0x10);
}

#[test]
fn decoded_map_is_well_formed_until_it_is_tampered_with() {
    let pak = sample_pak();
    let map = ParsedMap::new(build_map(TEXT, 0, &pak)).unwrap();
    assert!(map.is_well_formed());

    let mut marked = map.clone();
    if let BSPLump::PakFile(p) = &mut marked.lumps[40] {
        p.files[0].remove = true;
    }
    if let BSPLump::Entities(e) = &mut marked.lumps[0] {
        e.string.push_str("edited");
    }
    assert!(marked.is_well_formed());

    let mut swapped = map.clone();
    swapped.order.swap(62, 63);
    assert!(!swapped.is_well_formed());

    let mut short = map.clone();
    short.lumps.pop();
    assert!(!short.is_well_formed());

    let mut moved = map.clone();
    if let BSPLump::PakFile(p) = &mut moved.lumps[40] {
        p.base.size += 1;
    }
    assert!(!moved.is_well_formed());

    let mut stale = map.clone();
    if let BSPLump::PakFile(p) = &mut stale.lumps[40] {
        p.files[3].data.1 = pak.len() as u32;
    }
    assert!(!stale.is_well_formed());

    let mut cut = map.clone();
    cut.buf.truncate(0x40C + 3);
    assert!(!cut.is_well_formed());

    let mut other = map.clone();
    other.version = 22;
    assert!(!other.is_well_formed());

    let mut mixed = map;
    mixed.lumps.swap(0, 40);
    assert!(!mixed.is_well_formed());
}
