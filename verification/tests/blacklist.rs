use bspedit::blacklist::{classify, hex_lower, screen, Blacklist, BlacklistReason};
use bspedit::bsp::{PakAlgo, PakFile};

const ABC: &str = "ba7816bf8f01cfea414140de5dae2223b00361a396177a9cb410ff61f20015ad";
const EMPTY: &str = "e3b0c44298fc1c149afbf4c8996fb92427ae41e4649b934ca495991b7852b855";

fn list(name: &str, hashes: &[&str]) -> String {
    let quoted: Vec<String> = hashes.iter().map(|h| format!("\"{}\"", h)).collect();
    format!("\"{}\": [{}]", name, quoted.join(", "))
}

fn blacklist(lists: &[String]) -> Blacklist {
    Blacklist::new(format!("{{{}}}", lists.join(", ")).as_bytes()).unwrap()
}

#[test]
fn name_behind_game_prefix_is_a_game() {
    assert_eq!(classify("game_tf2"), BlacklistReason::Game("tf2".to_string()));
    assert_eq!(classify("game_"), BlacklistReason::Game("".to_string()));
}

#[test]
fn name_behind_pack_prefix_is_a_pack() {
    assert_eq!(classify("pack_caf\u{e9}"), BlacklistReason::Pack("caf\u{e9}".to_string()));
}

#[test]
fn other_names_are_custom_lists() {
    assert_eq!(classify("mine"), BlacklistReason::Custom("mine".to_string()));
    assert_eq!(classify("Game_x"), BlacklistReason::Custom("Game_x".to_string()));
    assert_eq!(classify("game"), BlacklistReason::Custom("game".to_string()));
    assert_eq!(classify(""), BlacklistReason::Custom("".to_string()));
}

#[test]
fn text_that_is_not_an_object_of_lists_is_refused() {
    assert!(Blacklist::new(b"").is_err());
    assert!(Blacklist::new(b"[1, 2]").is_err());
    assert!(Blacklist::new(b"{\"a\": \"b\"}").is_err());
    assert!(Blacklist::new(b"{}").is_ok());
    let e = Blacklist::new(b"{\"a\": [1]}").err().unwrap();
    assert_eq!(e.line(), 1);
    assert!(e.is_data());
}

#[test]
fn content_is_found_by_its_sha256() {
    let b = blacklist(&[list("game_hl2", &["00", ABC]), list("pack_x", &[EMPTY])]);
    assert_eq!(b.check(b"abc"), Some(BlacklistReason::Game("hl2".to_string())));
    assert_eq!(b.check(b""), Some(BlacklistReason::Pack("x".to_string())));
    assert_eq!(b.check(b"abd"), None);
}

#[test]
fn listed_hashes_may_be_in_upper_case() {
    let b = blacklist(&[list("mine", &[&ABC.to_uppercase()])]);
    assert_eq!(b.check(b"abc"), Some(BlacklistReason::Custom("mine".to_string())));
}

#[test]
fn empty_blacklist_finds_nothing() {
    assert_eq!(blacklist(&[]).check(b"abc"), None);
    assert_eq!(blacklist(&[list("game_a", &[])]).check(b"abc"), None);
}

#[test]
fn content_in_two_lists_is_found_in_one_of_them() {
    let b = blacklist(&[list("game_a", &[ABC]), list("pack_b", &[ABC])]);
    let r = b.check(b"abc").unwrap();
    assert!(
        r == BlacklistReason::Game("a".to_string()) || r == BlacklistReason::Pack("b".to_string())
    );
}

#[test]
fn screening_notes_the_reason_on_listed_entries_only() {
    let pak = b"....abc...xyz".to_vec();
    let entry = |at: u32, len: u32| PakFile {
        name: (0, 4),
        data: (at, len),
        real_data: None,
        compression_algo: PakAlgo::Store,
        remove: false,
        blacklisted: None,
    };
    let mut files = vec![entry(4, 3), entry(10, 3), entry(12, 5), entry(0, 0)];
    files[3].real_data = Some(b"abc".to_vec());
    files[3].compression_algo = PakAlgo::LZMA(0, 3);
    let b = blacklist(&[list("pack_p", &[ABC])]);
    screen(&b, &pak, &mut files);
    let reason = Some(BlacklistReason::Pack("p".to_string()));
    assert_eq!(files[0].blacklisted, reason);
    assert_eq!(files[1].blacklisted, None);
    assert_eq!(files[2].blacklisted, None);
    assert_eq!(files[3].blacklisted, reason);
    assert_eq!(files[0].data, (4, 3));
    assert_eq!(files[3].real_data.as_deref(), Some(&b"abc"[..]));
    assert_eq!(files[3].compression_algo, PakAlgo::LZMA(0, 3));
}

#[test]
fn hexadecimal_has_two_lower_case_digits_for_each_byte() {
    assert_eq!(hex_lower(&[]), "");
    assert_eq!(hex_lower(&[0x00, 0x09, 0x0A, 0x0F, 0x10, 0x9F, 0xA0, 0xFF]), "00090a0f109fa0ff");
    assert_eq!(hex_lower(b"Hello world!"), "48656c6c6f20776f726c6421");
    let all: Vec<u8> = (0..=255).collect();
    assert_eq!(hex_lower(&all), hex::encode(&all));
}
