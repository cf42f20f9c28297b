//! What the viewer needs to know of archive entries that hold textures:
//! which entries are textures, what is wrong with one, how to bring pixel
//! data into the order the screen wants, and which entries a search shows.

use vstd::prelude::*;
use crate::blacklist::{BlacklistReason, ReasonView};

verus! {

/// What keeps a texture from being shown as it is.
#[derive(Debug)]
pub enum TextureProblem {
    /// Its content is on the blacklist.
    Blacklist(BlacklistReason),
    /// Its pixels are in a format that cannot be decoded; holds the number of
    /// the format.
    UnsupportedImageFormat(u32),
}

/// A `TextureProblem` as a mathematical value.
pub enum ProblemView {
    Blacklist(ReasonView),
    UnsupportedImageFormat(u32),
}

impl View for TextureProblem {
    type V = ProblemView;

    open spec fn view(&self) -> ProblemView {
        match *self {
            TextureProblem::Blacklist(r) => ProblemView::Blacklist(r@),
            TextureProblem::UnsupportedImageFormat(f) => ProblemView::UnsupportedImageFormat(f),
        }
    }
}

/// The bytes of `.vtf`.
pub open spec fn texture_suffix() -> Seq<u8> {
    seq![0x2Eu8, 0x76, 0x74, 0x66]
}

/// The name ends with `.vtf`.
pub open spec fn names_texture(name: Seq<u8>) -> bool {
    name.len() >= 4 && name.subrange(name.len() - 4, name.len() as int) == texture_suffix()
}

/// Tells whether an entry with this name holds a texture.
pub fn is_texture_name(name: &[u8]) -> (r: bool)
    ensures
        r == names_texture(name@),
{
    let n = name.len();
    if n < 4 {
        return false;
    }
    let ghost tail = name@.subrange(n - 4, n as int);
    assert(tail[0] == name@[n - 4] && tail[1] == name@[n - 3] && tail[2] == name@[n - 2] && tail[3]
        == name@[n - 1]);
    if name[n - 4] == 0x2E && name[n - 3] == 0x76 && name[n - 2] == 0x74 && name[n - 1] == 0x66 {
        assert(tail =~= texture_suffix());
        true
    } else {
        false
    }
}

/// The problem of a texture: the reason where its entry is on the blacklist,
/// else its format where that cannot be decoded, else none.
pub fn texture_problem(blacklisted: &Option<BlacklistReason>, decodable: bool, format: u32) -> (r:
    Option<TextureProblem>)
    ensures
        match *blacklisted {
            Some(reason) => r matches Some(p) && p@ == ProblemView::Blacklist(reason@),
            None => if decodable {
                r is None
            } else {
                r matches Some(p) && p@ == ProblemView::UnsupportedImageFormat(format)
            },
        },
{
    match blacklisted {
        Some(reason) => Some(TextureProblem::Blacklist(reason.clone())),
        None => if decodable {
            None
        } else {
            Some(TextureProblem::UnsupportedImageFormat(format))
        },
    }
}

/// Pixels of four bytes each with the bytes of every pixel in reverse order.
/// Bytes behind the last whole pixel stay as they are.
pub open spec fn reversed_pixels(p: Seq<u8>) -> Seq<u8> {
    Seq::new(
        p.len(),
        |i: int|
            if i / 4 * 4 + 4 <= p.len() {
                p[i / 4 * 4 + (3 - i % 4)]
            } else {
                p[i]
            },
    )
}

/// Turns pixels stored as alpha, blue, green, red into red, green, blue,
/// alpha, in place.
pub fn abgr_to_rgba(pixels: &mut Vec<u8>)
    ensures
        final(pixels)@ == reversed_pixels(old(pixels)@),
{
    let ghost before = pixels@;
    let n = pixels.len();
    let mut i: usize = 0;
    while n - i >= 4
        invariant
            i % 4 == 0,
            i <= n,
            n == before.len(),
            pixels@.len() == n,
            forall|k: int| 0 <= k < i ==> pixels@[k] == reversed_pixels(before)[k],
            forall|k: int| i <= k < n ==> pixels@[k] == before[k],
        decreases n - i,
    {
        let a = pixels[i];
        let b = pixels[i + 1];
        let c = pixels[i + 2];
        let d = pixels[i + 3];
        pixels.set(i, d);
        pixels.set(i + 1, c);
        pixels.set(i + 2, b);
        pixels.set(i + 3, a);
        i += 4;
    }
    assert(pixels@ =~= reversed_pixels(before));
}

/// `needle` stands in `hay` at `at`.
pub open spec fn occurs_at(hay: Seq<u8>, needle: Seq<u8>, at: int) -> bool {
    0 <= at && at + needle.len() <= hay.len() && hay.subrange(at, at + needle.len()) == needle
}

/// `needle` stands somewhere in `hay`.
pub open spec fn occurs(hay: Seq<u8>, needle: Seq<u8>) -> bool {
    exists|at: int| occurs_at(hay, needle, at)
}

/// Tells whether `needle` stands in `hay` at `at`.
fn stands_at(hay: &[u8], needle: &[u8], at: usize) -> (r: bool)
    requires
        at + needle@.len() <= hay@.len(),
    ensures
        r == occurs_at(hay@, needle@, at as int),
{
    let n = needle.len();
    let total = hay.len();
    let ghost part = hay@.subrange(at as int, at + n);
    let mut i: usize = 0;
    while i < n
        invariant
            i <= n,
            n == needle@.len(),
            total == hay@.len(),
            at + n <= hay@.len(),
            part == hay@.subrange(at as int, at + n),
            forall|k: int| 0 <= k < i ==> part[k] == needle@[k],
        decreases n - i,
    {
        if hay[at + i] != needle[i] {
            assert(part[i as int] != needle@[i as int]);
            return false;
        }
        i += 1;
    }
    assert(part =~= needle@);
    true
}

/// Tells whether `needle` stands somewhere in `hay`.
pub fn contains_bytes(hay: &[u8], needle: &[u8]) -> (r: bool)
    ensures
        r == occurs(hay@, needle@),
{
    if needle.len() > hay.len() {
        return false;
    }
    let last = hay.len() - needle.len();
    let mut at: usize = 0;
    while at < last
        invariant
            at <= last,
            last + needle@.len() == hay@.len(),
            forall|k: int| 0 <= k < at ==> !occurs_at(hay@, needle@, k),
        decreases last - at,
    {
        if stands_at(hay, needle, at) {
            return true;
        }
        at += 1;
    }
    stands_at(hay, needle, last)
}

/// An item is shown in a list if it is on the blacklist or the list is not
/// narrowed to such items, and if the search text is empty or stands in its
/// name.
pub open spec fn is_shown(name: Seq<u8>, search: Seq<u8>, only_blacklisted: bool, blacklisted: bool) -> bool {
    (!only_blacklisted || blacklisted) && (search.len() == 0 || occurs(name, search))
}

/// Tells whether an item is shown in a list.
pub fn shown(name: &[u8], search: &[u8], only_blacklisted: bool, blacklisted: bool) -> (r: bool)
    ensures
        r == is_shown(name@, search@, only_blacklisted, blacklisted),
{
    if only_blacklisted && !blacklisted {
        return false;
    }
    search.len() == 0 || contains_bytes(name, search)
}

} // verus!
