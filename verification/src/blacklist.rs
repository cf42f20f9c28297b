//! Classification of archive entries against a list of known content hashes.

use vstd::prelude::*;
use vstd::utf8::encode_utf8;
use crate::bsp::{PakFile, PakFileView};
use crate::text::{lemma_boundary_after_ascii, lemma_valid_between, string_between};

verus! {

/// Why an entry is on the blacklist: the list it was found in, by kind.
#[derive(Debug, PartialEq)]
pub enum BlacklistReason {
    Game(String),
    Pack(String),
    Custom(String),
}

/// A `BlacklistReason` with its text as a sequence of characters.
pub enum ReasonView {
    Game(Seq<char>),
    Pack(Seq<char>),
    Custom(Seq<char>),
}

impl View for BlacklistReason {
    type V = ReasonView;

    open spec fn view(&self) -> ReasonView {
        match *self {
            BlacklistReason::Game(s) => ReasonView::Game(s@),
            BlacklistReason::Pack(s) => ReasonView::Pack(s@),
            BlacklistReason::Custom(s) => ReasonView::Custom(s@),
        }
    }
}

impl Clone for BlacklistReason {
    fn clone(&self) -> (r: Self)
        ensures
            r == *self,
    {
        match self {
            BlacklistReason::Game(s) => BlacklistReason::Game(s.clone()),
            BlacklistReason::Pack(s) => BlacklistReason::Pack(s.clone()),
            BlacklistReason::Custom(s) => BlacklistReason::Custom(s.clone()),
        }
    }
}

impl ReasonView {
    /// The text that the reason carries.
    pub open spec fn text(&self) -> Seq<char> {
        match *self {
            ReasonView::Game(s) => s,
            ReasonView::Pack(s) => s,
            ReasonView::Custom(s) => s,
        }
    }
}

/// A blacklist: lists of content hashes, each list under its name. The lists
/// are held in a `hashbrown::HashMap` that the verifier does not look into:
/// what it holds is spoken of through `listed`.
#[verifier::external_body]
pub struct Blacklist {
    hashes: hashbrown::HashMap<String, Vec<String>>,
}

#[verifier::external_type_specification]
#[verifier::external_body]
pub struct ExJsonError(serde_json::Error);

/// The lists that the blacklist holds: the hashes of each list, by the name
/// of the list.
pub uninterp spec fn listed(b: Blacklist) -> Map<Seq<char>, Seq<Seq<char>>>;

/// The lists that `serde_json` reads from the JSON text `data`, an object of
/// arrays of strings; `None` where it reports an error.
pub uninterp spec fn parsed_lists(data: Seq<u8>) -> Option<Map<Seq<char>, Seq<Seq<char>>>>;

/// The SHA-256 digest of `data`.
pub uninterp spec fn sha256_of(data: Seq<u8>) -> Seq<u8>;

/// `text` in lower case, as the standard library maps it.
pub uninterp spec fn lowercased(text: Seq<char>) -> Seq<char>;

/// The strings of a vector as sequences of characters.
pub open spec fn texts(v: Seq<String>) -> Seq<Seq<char>> {
    Seq::new(v.len(), |i: int| v[i]@)
}

/// The ASCII code of the hexadecimal digit for `n`, in lower case.
pub open spec fn hex_digit_code(n: int) -> u8
    recommends
        0 <= n < 16,
{
    if n < 10 {
        (0x30 + n) as u8
    } else {
        (0x61 + n - 10) as u8
    }
}

/// The hexadecimal digit for `n`, in lower case.
pub open spec fn hex_digit(n: int) -> char
    recommends
        0 <= n < 16,
{
    hex_digit_code(n) as char
}

/// `bytes` in hexadecimal: two lower case digits for each byte, the high one
/// first.
pub open spec fn hex_text(bytes: Seq<u8>) -> Seq<char> {
    Seq::new(
        2 * bytes.len(),
        |i: int|
            if i % 2 == 0 {
                hex_digit(bytes[i / 2] as int / 16)
            } else {
                hex_digit(bytes[i / 2] as int % 16)
            },
    )
}

/// `serde_json::from_slice` into a `hashbrown::HashMap<String, Vec<String>>`.
///
/// Trusted: reading JSON depends on the text alone, so what the blacklist
/// holds on success is `parsed_lists(data)`, and the call fails exactly where
/// that is `None`.
#[verifier::external_body]
fn read_lists(data: &[u8]) -> (r: Result<Blacklist, serde_json::Error>)
    ensures
        r matches Ok(b) ==> parsed_lists(data@) == Some(listed(b)),
        r is Err ==> parsed_lists(data@) is None,
{
    match serde_json::from_slice::<hashbrown::HashMap<String, Vec<String>>>(data) {
        Ok(hashes) => Ok(Blacklist { hashes }),
        Err(e) => Err(e),
    }
}

/// `hashbrown::HashMap::iter`, with each list copied out.
///
/// Trusted: every list of the blacklist comes out once, under its name and
/// with its hashes in their order. The order of the lists is whatever the
/// map walks them in, and nothing is claimed of it.
#[verifier::external_body]
fn lists_of(b: &Blacklist) -> (r: Vec<(String, Vec<String>)>)
    ensures
        forall|i: int|
            0 <= i < r@.len() ==> listed(*b).dom().contains((#[trigger] r@[i]).0@) && listed(
                *b,
            )[r@[i].0@] == texts(r@[i].1@),
        forall|name: Seq<char>|
            listed(*b).dom().contains(name) ==> exists|i: int|
                0 <= i < r@.len() && (#[trigger] r@[i]).0@ == name,
{
    b.hashes.iter().map(|(name, hashes)| (name.clone(), hashes.clone())).collect()
}

/// `sha2::Sha256::digest`.
///
/// Trusted: the digest depends on the data alone.
#[verifier::external_body]
fn sha256(data: &[u8]) -> (r: Vec<u8>)
    ensures
        r@ == sha256_of(data@),
{
    <sha2::Sha256 as sha2::Digest>::digest(data).to_vec()
}

/// The ASCII code of the hexadecimal digit for `n`, in lower case.
fn hex_code(n: u8) -> (r: u8)
    requires
        n < 16,
    ensures
        r == hex_digit_code(n as int),
        r < 0x80,
{
    if n < 10 {
        0x30 + n
    } else {
        0x61 + n - 10
    }
}

/// Writes `bytes` in hexadecimal: two lower case digits for each byte, the
/// high one first.
pub fn hex_lower(bytes: &[u8]) -> (r: String)
    ensures
        r@ == hex_text(bytes@),
{
    let n = bytes.len();
    let mut out: Vec<u8> = Vec::new();
    let mut i: usize = 0;
    while i < n
        invariant
            i <= n,
            n == bytes@.len(),
            out@.len() == 2 * i,
            forall|k: int|
                0 <= k < 2 * i ==> #[trigger] out@[k] == hex_text(bytes@)[k] as u8 && out@[k] < 0x80,
        decreases n - i,
    {
        let b = bytes[i];
        out.push(hex_code(b / 16));
        out.push(hex_code(b % 16));
        i += 1;
    }
    let len = out.len();
    proof {
        let chars = hex_text(bytes@);
        assert(vstd::utf8::is_ascii_chars(chars)) by {
            assert forall|k: int| 0 <= k < chars.len() implies '\0' <= #[trigger] chars[k]
                <= '\u{7f}' by {
                assert(out@[k] == chars[k] as u8);
            }
        }
        vstd::utf8::is_ascii_chars_encode_utf8(chars);
        assert(encode_utf8(chars) =~= out@);
        vstd::utf8::encode_utf8_valid_utf8(chars);
        vstd::utf8::encode_utf8_decode_utf8(chars);
        assert(out@.subrange(0, len as int) =~= out@);
    }
    string_between(out.as_slice(), 0, len)
}

/// `str::to_lowercase` of the standard library.
///
/// Trusted: the result depends on the text alone.
#[verifier::external_body]
fn lower(text: &str) -> (r: String)
    ensures
        r@ == lowercased(text@),
{
    text.to_lowercase()
}

/// The digest of `data` as the blacklist writes it: SHA-256 in lower case
/// hexadecimal.
pub open spec fn digest_text(data: Seq<u8>) -> Seq<char> {
    hex_text(sha256_of(data))
}

/// The bytes of `game_`.
pub open spec fn game_prefix() -> Seq<u8> {
    seq![0x67u8, 0x61, 0x6D, 0x65, 0x5F]
}

/// The bytes of `pack_`.
pub open spec fn pack_prefix() -> Seq<u8> {
    seq![0x70u8, 0x61, 0x63, 0x6B, 0x5F]
}

/// The bytes of `name` begin with the five bytes of `prefix`.
pub open spec fn has_prefix(name: Seq<u8>, prefix: Seq<u8>) -> bool {
    name.len() >= 5 && name.subrange(0, 5) == prefix
}

/// The reason that a list named `name` stands for: the name behind `game_`
/// or `pack_` where it begins with one of them, else the whole name as a
/// custom list. The texts are given by their bytes.
pub open spec fn names_reason(name: Seq<u8>, reason: ReasonView) -> bool {
    if has_prefix(name, game_prefix()) {
        reason is Game && encode_utf8(reason.text()) == name.subrange(5, name.len() as int)
    } else if has_prefix(name, pack_prefix()) {
        reason is Pack && encode_utf8(reason.text()) == name.subrange(5, name.len() as int)
    } else {
        reason is Custom && encode_utf8(reason.text()) == name
    }
}

/// Tells whether the bytes of a name begin with the given five bytes.
fn begins_with_five(b: &[u8], c0: u8, c1: u8, c2: u8, c3: u8, c4: u8) -> (r: bool)
    ensures
        r == has_prefix(b@, seq![c0, c1, c2, c3, c4]),
{
    if b.len() >= 5 && b[0] == c0 && b[1] == c1 && b[2] == c2 && b[3] == c3 && b[4] == c4 {
        assert(b@.subrange(0, 5) =~= seq![c0, c1, c2, c3, c4]);
        true
    } else {
        if b.len() >= 5 {
            let ghost head = b@.subrange(0, 5);
            assert(head[0] == b@[0] && head[1] == b@[1] && head[2] == b@[2] && head[3] == b@[3]
                && head[4] == b@[4]);
        }
        false
    }
}

/// The reason that a list named `name` stands for.
pub fn classify(name: &str) -> (r: BlacklistReason)
    ensures
        names_reason(encode_utf8(name@), r@),
{
    broadcast use vstd::utf8::encode_utf8_valid_utf8;

    let b = name.as_bytes();
    let len = b.len();
    let game = begins_with_five(b, 0x67, 0x61, 0x6D, 0x65, 0x5F);
    let pack = begins_with_five(b, 0x70, 0x61, 0x63, 0x6B, 0x5F);
    if game || pack {
        proof {
            let head = b@.subrange(0, 5);
            assert(head[4] == b@[4]);
            lemma_boundary_after_ascii(b@, 5);
            vstd::utf8::is_char_boundary_start_end_of_seq(b@);
            lemma_valid_between(b@, 5, len as int);
        }
        let rest = string_between(b, 5, len);
        if game {
            BlacklistReason::Game(rest)
        } else {
            BlacklistReason::Pack(rest)
        }
    } else {
        assert(b@.subrange(0, len as int) =~= b@);
        BlacklistReason::Custom(string_between(b, 0, len))
    }
}

/// The list `name` of `lists` holds a hash that, in lower case, is `digest`.
pub open spec fn is_hit(lists: Map<Seq<char>, Seq<Seq<char>>>, digest: Seq<char>, name: Seq<char>) -> bool {
    lists.dom().contains(name) && exists|j: int|
        0 <= j < lists[name].len() && lowercased(#[trigger] lists[name][j]) == digest
}

/// Tells whether a list holds a hash that, in lower case, is `digest`.
fn list_holds(hashes: &Vec<String>, digest: &String) -> (r: bool)
    ensures
        r == exists|j: int|
            0 <= j < hashes@.len() && lowercased(#[trigger] texts(hashes@)[j]) == digest@,
{
    let mut j: usize = 0;
    while j < hashes.len()
        invariant
            j <= hashes@.len(),
            forall|k: int| 0 <= k < j ==> lowercased(#[trigger] texts(hashes@)[k]) != digest@,
        decreases hashes@.len() - j,
    {
        let low = lower(hashes[j].as_str());
        assert(texts(hashes@)[j as int] == hashes@[j as int]@);
        if low == *digest {
            return true;
        }
        j += 1;
    }
    false
}

impl Blacklist {
    /// Reads a blacklist from JSON text: an object that gives, for each list
    /// name, an array of hashes. Where the text is not that, the error of the
    /// JSON reader is handed on.
    pub fn new(data: &[u8]) -> (r: Result<Blacklist, serde_json::Error>)
        ensures
            match r {
                Ok(b) => parsed_lists(data@) == Some(listed(b)),
                Err(_) => parsed_lists(data@) is None,
            },
    {
        read_lists(data)
    }

    /// Looks `data` up in the blacklist: where a list holds its digest, the
    /// reason that the name of such a list stands for. Where several lists
    /// hold it, the reason is that of one of them.
    pub fn check(&self, data: &[u8]) -> (r: Option<BlacklistReason>)
        ensures
            match r {
                Some(reason) => exists|name: Seq<char>|
                    #[trigger] is_hit(listed(*self), digest_text(data@), name) && names_reason(
                        encode_utf8(name),
                        reason@,
                    ),
                None => forall|name: Seq<char>|
                    !#[trigger] is_hit(listed(*self), digest_text(data@), name),
            },
    {
        let digest = hex_lower(sha256(data).as_slice());
        let lists = lists_of(self);
        let mut i: usize = 0;
        while i < lists.len()
            invariant
                i <= lists@.len(),
                digest@ == digest_text(data@),
                forall|k: int|
                    0 <= k < lists@.len() ==> listed(*self).dom().contains(
                        (#[trigger] lists@[k]).0@,
                    ) && listed(*self)[lists@[k].0@] == texts(lists@[k].1@),
                forall|k: int|
                    0 <= k < i ==> !is_hit(listed(*self), digest@, (#[trigger] lists@[k]).0@),
            decreases lists@.len() - i,
        {
            if list_holds(&lists[i].1, &digest) {
                let reason = classify(lists[i].0.as_str());
                assert(is_hit(listed(*self), digest@, lists@[i as int].0@));
                return Some(reason);
            }
            i += 1;
        }
        assert forall|name: Seq<char>| !#[trigger] is_hit(listed(*self), digest@, name) by {
            if listed(*self).dom().contains(name) {
                let k = choose|k: int| 0 <= k < lists@.len() && (#[trigger] lists@[k]).0@ == name;
                assert(!is_hit(listed(*self), digest@, lists@[k].0@));
            }
        }
        None
    }
}

/// The entries after each has been looked up: an entry whose content is on
/// the blacklist carries a reason for it, every other entry is as before.
pub open spec fn is_screened(b: Blacklist, pak: Seq<u8>, before: PakFileView, after: PakFileView) -> bool {
    let readable = before.real_data is Some || before.data.0 + before.data.1 <= pak.len();
    let hit = readable && exists|name: Seq<char>|
        #[trigger] is_hit(listed(b), digest_text(before.content(pak)), name);
    if hit {
        &&& after.blacklisted matches Some(reason)
        &&& exists|name: Seq<char>|
            #[trigger] is_hit(listed(b), digest_text(before.content(pak)), name) && names_reason(
                encode_utf8(name),
                reason,
            )
        &&& after == PakFileView { blacklisted: after.blacklisted, ..before }
    } else {
        after == before
    }
}

/// Looks up the content of every entry of an archive and notes the reason on
/// each entry that is on the blacklist. An entry whose content cannot be read
/// out of `pak` is left as it is.
pub fn screen(b: &Blacklist, pak: &[u8], files: &mut Vec<PakFile>)
    ensures
        final(files)@.len() == old(files)@.len(),
        forall|i: int|
            0 <= i < old(files)@.len() ==> is_screened(
                *b,
                pak@,
                #[trigger] old(files)@[i]@,
                final(files)@[i]@,
            ),
{
    let mut i: usize = 0;
    while i < files.len()
        invariant
            i <= files@.len(),
            files@.len() == old(files)@.len(),
            forall|k: int| i <= k < files@.len() ==> files@[k] == old(files)@[k],
            forall|k: int|
                0 <= k < i ==> is_screened(*b, pak@, #[trigger] old(files)@[k]@, files@[k]@),
        decreases files@.len() - i,
    {
        let found = match files[i].data(pak) {
            Some(content) => b.check(content),
            None => None,
        };
        match found {
            Some(reason) => {
                let ghost before = files@[i as int]@;
                let mut f = files[i].clone();
                f.blacklisted = Some(reason);
                files.set(i, f);
                assert(files@[i as int]@ == PakFileView {
                    blacklisted: files@[i as int]@.blacklisted,
                    ..before
                });
            },
            None => {},
        }
        i += 1;
    }
}

} // verus!
