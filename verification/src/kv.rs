//! Entity records: the text of the entity lump cut into one piece per record.

use vstd::prelude::*;
use vstd::string::StringSliceAdditionalSpecFns;
use vstd::utf8::*;
use crate::text::{
    lemma_boundary_after_ascii, lemma_cut_is_boundary, lemma_valid_between,
    string_between, };

verus! {

/// One entity record: its text, and whether that text was edited.
#[derive(Debug)]
pub struct Entity {
    pub string: String,
    pub dirty: bool,
}

/// A record closes at `i`: a closing brace followed by a newline.
pub open spec fn closes_at(b: Seq<u8>, i: int) -> bool {
    0 <= i && i + 1 < b.len() && b[i] == 0x7D && b[i + 1] == 0x0A
}

/// The end of the piece that starts at `from`: the position after the first
/// close at or after `from`, or the end of the text.
pub open spec fn piece_end(b: Seq<u8>, from: int) -> int
    decreases b.len() - from,
{
    if from < 0 || from + 1 >= b.len() {
        b.len() as int
    } else if closes_at(b, from) {
        from + 2
    } else {
        piece_end(b, from + 1)
    }
}

/// The pieces of the text from `from` on, each up to and with its close.
pub open spec fn pieces(b: Seq<u8>, from: int) -> Seq<Seq<u8>>
    decreases b.len() - from,
{
    if from < 0 || from >= b.len() {
        Seq::empty()
    } else {
        let end = piece_end(b, from);
        if end <= from || end > b.len() {
            Seq::empty()
        } else {
            seq![b.subrange(from, end)] + pieces(b, end)
        }
    }
}

/// A piece longer than three bytes loses its last byte, the newline of its
/// close, if that byte is a character of its own.
pub open spec fn trimmed(piece: Seq<u8>) -> Seq<u8> {
    if piece.len() > 3 && piece.last() < 0x80 {
        piece.drop_last()
    } else {
        piece
    }
}

/// The texts of the records that `b` holds.
pub open spec fn record_texts(b: Seq<u8>) -> Seq<Seq<u8>> {
    Seq::new(pieces(b, 0).len(), |i: int| trimmed(pieces(b, 0)[i]))
}

/// A piece ends behind its start, inside the text, and after a newline unless
/// it ends with the text.
pub proof fn lemma_piece_end(b: Seq<u8>, from: int)
    requires
        0 <= from < b.len(),
    ensures
        from < piece_end(b, from) <= b.len(),
        piece_end(b, from) < b.len() ==> b[piece_end(b, from) - 1] == 0x0A,
    decreases b.len() - from,
{
    if from + 1 < b.len() && !closes_at(b, from) {
        lemma_piece_end(b, from + 1);
    }
}

/// Finds the end of the piece that starts at `from`.
fn find_piece_end(b: &[u8], from: usize) -> (end: usize)
    requires
        from < b@.len(),
    ensures
        end == piece_end(b@, from as int),
        from < end <= b@.len(),
{
    let len = b.len();
    let mut i = from;
    proof {
        lemma_piece_end(b@, from as int);
    }
    while i + 1 < len && !(b[i] == 0x7D && b[i + 1] == 0x0A)
        invariant
            from <= i < len,
            len == b@.len(),
            piece_end(b@, i as int) == piece_end(b@, from as int),
        decreases len - i,
    {
        i += 1;
    }
    if i + 1 < len {
        i + 2
    } else {
        len
    }
}

/// Cuts the text of the entity lump into records.
///
/// Each piece runs up to and with the next closing brace that a newline
/// follows; what is left after the last close is a piece too. A piece longer
/// than three bytes is stored without its last byte (if that byte is a
/// character of its own). No record is marked as edited.
pub fn parse_ents_hacky(data: &str) -> (r: Vec<Entity>)
    ensures
        r@.len() == record_texts(data.spec_bytes()).len(),
        forall|i: int|
            0 <= i < r@.len() ==> {
                &&& encode_utf8((#[trigger] r@[i]).string@) == record_texts(data.spec_bytes())[i]
                &&& !r@[i].dirty
            },
{
    broadcast use encode_utf8_valid_utf8;

    let b = data.as_bytes();
    let len = b.len();
    let mut out: Vec<Entity> = Vec::new();
    let mut from: usize = 0;
    let ghost mut done: Seq<Seq<u8>> = Seq::empty();
    assert(done + pieces(b@, 0) =~= pieces(b@, 0));
    while from < len
        invariant
            len == b@.len(),
            from <= len,
            valid_utf8(b@),
            from == 0 || b@[from - 1] == 0x0A || from == len,
            done + pieces(b@, from as int) == pieces(b@, 0),
            out@.len() == done.len(),
            forall|i: int|
                0 <= i < out@.len() ==> {
                    &&& encode_utf8((#[trigger] out@[i]).string@) == trimmed(done[i])
                    &&& !out@[i].dirty
                },
        decreases len - from,
    {
        let end = find_piece_end(b, from);
        let stop = if end - from > 3 && b[end - 1] < 0x80 {
            end - 1
        } else {
            end
        };
        proof {
            lemma_piece_end(b@, from as int);
            let piece = b@.subrange(from as int, end as int);
            assert(trimmed(piece) =~= b@.subrange(from as int, stop as int));
            if from > 0 && from < len {
                lemma_boundary_after_ascii(b@, from as int);
            } else {
                is_char_boundary_start_end_of_seq(b@);
            }
            if stop < len {
                if stop == end {
                    lemma_boundary_after_ascii(b@, stop as int);
                } else {
                    lemma_cut_is_boundary(b@, stop as int);
                }
            } else {
                is_char_boundary_start_end_of_seq(b@);
            }
            lemma_valid_between(b@, from as int, stop as int);
        }
        let string = string_between(b, from, stop);
        let ghost before = done;
        out.push(Entity { string, dirty: false });
        proof {
            let piece = b@.subrange(from as int, end as int);
            done = done.push(piece);
            assert(before + (seq![piece] + pieces(b@, end as int)) =~= done + pieces(
                b@,
                end as int,
            ));
        }
        from = end;
    }
    proof {
        assert(pieces(b@, from as int) =~= Seq::<Seq<u8>>::empty());
        assert(done =~= pieces(b@, 0));
    }
    out
}

/// The bytes of `"classname" "`, which opens the line that names the class.
pub open spec fn class_prefix() -> Seq<u8> {
    seq![0x22u8, 0x63, 0x6C, 0x61, 0x73, 0x73, 0x6E, 0x61, 0x6D, 0x65, 0x22, 0x20, 0x22]
}

/// The bytes of `"origin" "`, which opens the line that gives the origin.
pub open spec fn origin_prefix() -> Seq<u8> {
    seq![0x22u8, 0x6F, 0x72, 0x69, 0x67, 0x69, 0x6E, 0x22, 0x20, 0x22]
}

/// `line` begins with `prefix`.
pub open spec fn begins_with(line: Seq<u8>, prefix: Seq<u8>) -> bool {
    prefix.len() <= line.len() && line.subrange(0, prefix.len() as int) == prefix
}

/// The position of the first newline at or after `from`, or the end of the
/// text.
pub open spec fn line_break(b: Seq<u8>, from: int) -> int
    decreases b.len() - from,
{
    if from < 0 || from >= b.len() {
        b.len() as int
    } else if b[from] == 0x0A {
        from
    } else {
        line_break(b, from + 1)
    }
}

/// The end of the line that starts at `from`: its newline, or the carriage
/// return before that newline, or the end of the text.
pub open spec fn line_stop(b: Seq<u8>, from: int) -> int {
    let e = line_break(b, from);
    if e < b.len() && from < e && b[e - 1] == 0x0D {
        e - 1
    } else {
        e
    }
}

/// The range of the value on a line `b[from..stop]`: from the 14th byte of
/// the line up to its last byte, which is left out. The range is empty where
/// the line is shorter than that or would be cut inside a character.
pub open spec fn value_range(b: Seq<u8>, from: int, stop: int) -> (int, int) {
    if stop - from >= 14 && !is_continuation_byte(b[from + 13]) && !is_continuation_byte(
        b[stop - 1],
    ) {
        (from + 13, stop - 1)
    } else {
        (from, from)
    }
}

/// The ranges of the class name and of the origin after the lines from
/// `from` on have been read, given what the lines before gave. A later line
/// replaces what an earlier line of its kind gave.
pub open spec fn scan_lines(b: Seq<u8>, from: int, class: (int, int), origin: Option<(int, int)>) -> (
    (int, int),
    Option<(int, int)>,
)
    decreases b.len() - from,
{
    if from < 0 || from >= b.len() {
        (class, origin)
    } else {
        let brk = line_break(b, from);
        let stop = line_stop(b, from);
        let line = b.subrange(from, stop);
        let next = if brk < b.len() { brk + 1 } else { brk };
        if next <= from || next > b.len() {
            (class, origin)
        } else if begins_with(line, class_prefix()) {
            scan_lines(b, next, value_range(b, from, stop), origin)
        } else if begins_with(line, origin_prefix()) {
            scan_lines(b, next, class, Some(value_range(b, from, stop)))
        } else {
            scan_lines(b, next, class, origin)
        }
    }
}

/// The bytes of the display name of a record with text `b`: the class name,
/// and behind it the origin between angle brackets where the record has one.
pub open spec fn pretty_bytes(b: Seq<u8>) -> Seq<u8> {
    let (class, origin) = scan_lines(b, 0, (0, 0), None);
    match origin {
        Some(o) => b.subrange(class.0, class.1) + seq![0x3Cu8] + b.subrange(o.0, o.1) + seq![0x3Eu8],
        None => b.subrange(class.0, class.1),
    }
}

/// A line break lies at or behind the start of its line, inside the text.
pub proof fn lemma_line_break(b: Seq<u8>, from: int)
    requires
        0 <= from <= b.len(),
    ensures
        from <= line_break(b, from) <= b.len(),
        line_break(b, from) < b.len() ==> b[line_break(b, from)] == 0x0A,
    decreases b.len() - from,
{
    if from < b.len() && b[from] != 0x0A {
        lemma_line_break(b, from + 1);
    }
}

/// Tells whether `b[from..stop]` begins with `prefix`.
fn line_begins_with(b: &[u8], from: usize, stop: usize, prefix: &[u8]) -> (r: bool)
    requires
        from <= stop <= b@.len(),
    ensures
        r == begins_with(b@.subrange(from as int, stop as int), prefix@),
{
    let n = prefix.len();
    if stop - from < n {
        return false;
    }
    let ghost line = b@.subrange(from as int, stop as int);
    let mut i: usize = 0;
    while i < n
        invariant
            i <= n,
            n == prefix@.len(),
            from + n <= stop <= b@.len(),
            line == b@.subrange(from as int, stop as int),
            forall|k: int| 0 <= k < i ==> line[k] == prefix@[k],
        decreases n - i,
    {
        if b[from + i] != prefix[i] {
            assert(line.subrange(0, n as int)[i as int] != prefix@[i as int]);
            return false;
        }
        i += 1;
    }
    assert(line.subrange(0, n as int) =~= prefix@);
    true
}

/// The range of the value on the line `b[from..stop]`.
fn line_value(b: &[u8], from: usize, stop: usize) -> (r: (usize, usize))
    requires
        from <= stop <= b@.len(),
    ensures
        (r.0 as int, r.1 as int) == value_range(b@, from as int, stop as int),
        from <= r.0 <= r.1 <= stop,
{
    if stop - from >= 14 && !(0x80 <= b[from + 13] && b[from + 13] <= 0xBF) && !(0x80 <= b[stop - 1]
        && b[stop - 1] <= 0xBF) {
        (from + 13, stop - 1)
    } else {
        (from, from)
    }
}

/// A range inside well-formed UTF-8 that is cut at character boundaries, or
/// is empty.
pub open spec fn clean_range(b: Seq<u8>, r: (int, int)) -> bool {
    &&& 0 <= r.0 <= r.1 <= b.len()
    &&& valid_utf8(b.subrange(r.0, r.1))
}

/// The value range of a line is a clean range.
pub proof fn lemma_value_range_clean(b: Seq<u8>, from: int, stop: int)
    requires
        valid_utf8(b),
        0 <= from <= stop <= b.len(),
    ensures
        clean_range(b, value_range(b, from, stop)),
{
    let r = value_range(b, from, stop);
    if r.0 == r.1 {
        assert(b.subrange(r.0, r.1) =~= Seq::<u8>::empty());
    } else {
        lemma_cut_is_boundary(b, r.0);
        lemma_cut_is_boundary(b, r.1);
        lemma_valid_between(b, r.0, r.1);
    }
}

impl Entity {
    /// The display name of the record: its class name, and behind it its
    /// origin between angle brackets where the record has one.
    ///
    /// The class name is read from the last line that begins with
    /// `"classname" "`, the origin from the last line that begins with
    /// `"origin" "`; of either line the value is what stands from the 14th
    /// byte up to the last byte, which is left out.
    pub fn pretty_name(&self) -> (r: String)
        ensures
            encode_utf8(r@) == pretty_bytes(encode_utf8(self.string@)),
    {
        broadcast use encode_utf8_valid_utf8;

        let b = self.string.as_str().as_bytes();
        let len = b.len();
        let class_open: Vec<u8> = vec![
            0x22u8, 0x63, 0x6C, 0x61, 0x73, 0x73, 0x6E, 0x61, 0x6D, 0x65, 0x22, 0x20, 0x22,
        ];
        let origin_open: Vec<u8> = vec![0x22u8, 0x6F, 0x72, 0x69, 0x67, 0x69, 0x6E, 0x22, 0x20, 0x22];
        assert(class_open@ =~= class_prefix());
        assert(origin_open@ =~= origin_prefix());
        let mut class: (usize, usize) = (0, 0);
        let mut origin: Option<(usize, usize)> = None;
        let mut from: usize = 0;
        assert(b@.subrange(0, 0) =~= Seq::<u8>::empty());
        while from < len
            invariant
                len == b@.len(),
                from <= len,
                valid_utf8(b@),
                class_open@ == class_prefix(),
                origin_open@ == origin_prefix(),
                clean_range(b@, (class.0 as int, class.1 as int)),
                origin matches Some(o) ==> clean_range(b@, (o.0 as int, o.1 as int)),
                scan_lines(b@, 0, (0, 0), None) == scan_lines(
                    b@,
                    from as int,
                    (class.0 as int, class.1 as int),
                    match origin {
                        Some(o) => Some((o.0 as int, o.1 as int)),
                        None => None,
                    },
                ),
            decreases len - from,
        {
            let mut brk = from;
            while brk < len && b[brk] != 0x0A
                invariant
                    from <= brk <= len,
                    len == b@.len(),
                    line_break(b@, brk as int) == line_break(b@, from as int),
                decreases len - brk,
            {
                brk += 1;
            }
            proof {
                lemma_line_break(b@, from as int);
            }
            let stop = if brk < len && from < brk && b[brk - 1] == 0x0D {
                brk - 1
            } else {
                brk
            };
            proof {
                lemma_value_range_clean(b@, from as int, stop as int);
            }
            if line_begins_with(b, from, stop, class_open.as_slice()) {
                class = line_value(b, from, stop);
            } else if line_begins_with(b, from, stop, origin_open.as_slice()) {
                origin = Some(line_value(b, from, stop));
            }
            from = if brk < len {
                brk + 1
            } else {
                brk
            };
        }
        let mut out: Vec<u8> = Vec::new();
        let mut i = class.0;
        while i < class.1
            invariant
                class.0 <= i <= class.1 <= b@.len(),
                out@ == b@.subrange(class.0 as int, i as int),
            decreases class.1 - i,
        {
            out.push(b[i]);
            assert(out@ =~= b@.subrange(class.0 as int, i + 1));
            i += 1;
        }
        match origin {
            Some(o) => {
                let ghost head = out@;
                out.push(0x3C);
                let mut k = o.0;
                while k < o.1
                    invariant
                        o.0 <= k <= o.1 <= b@.len(),
                        out@ == head + seq![0x3Cu8] + b@.subrange(o.0 as int, k as int),
                    decreases o.1 - k,
                {
                    out.push(b[k]);
                    assert(out@ =~= head + seq![0x3Cu8] + b@.subrange(o.0 as int, k + 1));
                    k += 1;
                }
                out.push(0x3E);
                proof {
                    let mid = b@.subrange(o.0 as int, o.1 as int);
                    assert(out@ =~= head + seq![0x3Cu8] + mid + seq![0x3Eu8]);
                    lemma_single_ascii_valid(0x3C);
                    lemma_single_ascii_valid(0x3E);
                    valid_utf8_concat(head, seq![0x3Cu8]);
                    valid_utf8_concat(head + seq![0x3Cu8], mid);
                    valid_utf8_concat(head + seq![0x3Cu8] + mid, seq![0x3Eu8]);
                }
            },
            None => {},
        }
        let ghost all = out@;
        let n = out.len();
        assert(all.subrange(0, n as int) =~= all);
        string_between(out.as_slice(), 0, n)
    }
}

/// One ASCII byte is well-formed UTF-8.
pub proof fn lemma_single_ascii_valid(c: u8)
    requires
        c < 0x80,
    ensures
        valid_utf8(seq![c]),
{
    let s = seq![c];
    assert(valid_first_scalar(s));
    assert(pop_first_scalar(s) =~= Seq::<u8>::empty());
    reveal_with_fuel(valid_utf8, 2);
}

} // verus!
