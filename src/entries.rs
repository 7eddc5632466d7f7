//! From the bytes of a history file to its logical entries and their commands.
use vstd::prelude::*;

use crate::header::HeaderMatcher;

verus! {

/// The line feed that ends a physical line.
pub const NEWLINE: u8 = 0x0a;

/// The contents of each byte vector of `v`.
pub open spec fn views(v: Seq<Vec<u8>>) -> Seq<Seq<u8>> {
    v.map_values(|x: Vec<u8>| x@)
}

/// Splits `t` at each line feed, scanning from the left: the lines completed
/// so far and the line being read.
pub open spec fn split_scan(t: Seq<u8>) -> (Seq<Seq<u8>>, Seq<u8>)
    decreases t.len(),
{
    if t.len() == 0 {
        (seq![], seq![])
    } else {
        let (done, cur) = split_scan(t.drop_last());
        if t.last() == NEWLINE {
            (done.push(cur), seq![])
        } else {
            (done, cur.push(t.last()))
        }
    }
}

/// The physical lines of `t`, without their line feeds. A final line feed
/// ends the last line and opens no empty one.
pub open spec fn lines_of(t: Seq<u8>) -> Seq<Seq<u8>> {
    let (done, cur) = split_scan(t);
    if cur.len() > 0 {
        done.push(cur)
    } else {
        done
    }
}

/// Reads `lines` in order: the entries completed so far and the entry being
/// assembled. A line that `is_header` accepts closes the entry being
/// assembled, if there is one, and opens the next; any other line continues
/// it after a line feed. Into an empty accumulator a line goes as it is.
pub open spec fn scan_entries(lines: Seq<Seq<u8>>, is_header: spec_fn(Seq<u8>) -> bool) -> (
    Seq<Seq<u8>>,
    Seq<u8>,
)
    decreases lines.len(),
{
    if lines.len() == 0 {
        (seq![], seq![])
    } else {
        let (done, acc) = scan_entries(lines.drop_last(), is_header);
        let line = lines.last();
        if acc.len() == 0 {
            (done, line)
        } else if is_header(line) {
            (done.push(acc), line)
        } else {
            (done, acc.push(NEWLINE) + line)
        }
    }
}

/// The logical entries of `lines`, header included, in the order of their
/// first line. An entry left over at the end counts unless it is empty.
pub open spec fn raw_entries(lines: Seq<Seq<u8>>, is_header: spec_fn(Seq<u8>) -> bool) -> Seq<
    Seq<u8>,
> {
    let (done, acc) = scan_entries(lines, is_header);
    if acc.len() > 0 {
        done.push(acc)
    } else {
        done
    }
}

pub open spec fn is_ascii_digit(b: u8) -> bool {
    0x30 <= b <= 0x39
}

/// Whether the separator `:<digit>;` that closes a header starts at `i`.
pub open spec fn is_separator_at(e: Seq<u8>, i: int) -> bool {
    &&& 0 <= i
    &&& i + 3 <= e.len()
    &&& e[i] == 0x3a
    &&& is_ascii_digit(e[i + 1])
    &&& e[i + 2] == 0x3b
}

/// The first position at or after `k` where a separator starts.
pub open spec fn separator_from(e: Seq<u8>, k: int) -> Option<int>
    decreases e.len() - k,
{
    if k < 0 || k + 3 > e.len() {
        None
    } else if is_separator_at(e, k) {
        Some(k)
    } else {
        separator_from(e, k + 1)
    }
}

/// An ASCII whitespace byte: space, tab, line feed, vertical tab, form feed
/// or carriage return.
pub open spec fn is_ascii_space(b: u8) -> bool {
    b == 0x20 || (0x09 <= b <= 0x0d)
}

/// Whether `e` opens with a header that the separator at `i` closes: a colon,
/// one whitespace byte, then only digits up to `i`, at least one.
pub open spec fn opens_with_header(e: Seq<u8>, i: int) -> bool {
    &&& 3 <= i <= e.len()
    &&& e[0] == 0x3a
    &&& is_ascii_space(e[1])
    &&& forall|j: int| 2 <= j < i ==> is_ascii_digit(#[trigger] e[j])
}

/// The command of entry `e`: all that follows the separator that closes its
/// header, or `None` where `e` does not open with a header so closed.
pub open spec fn body_of(e: Seq<u8>) -> Option<Seq<u8>> {
    match separator_from(e, 0) {
        Some(i) => if opens_with_header(e, i) {
            Some(e.subrange(i + 3, e.len() as int))
        } else {
            None
        },
        None => None,
    }
}

/// Splits the bytes of a history file into its physical lines.
pub fn split_lines(text: &[u8]) -> (r: Vec<Vec<u8>>)
    ensures
        views(r@) == lines_of(text@),
{
    let mut done: Vec<Vec<u8>> = Vec::new();
    let mut cur: Vec<u8> = Vec::new();
    let mut i: usize = 0;
    while i < text.len()
        invariant
            i <= text.len(),
            (views(done@), cur@) == split_scan(text@.subrange(0, i as int)),
        decreases text.len() - i,
    {
        assert(text@.subrange(0, i + 1).drop_last() =~= text@.subrange(0, i as int));
        let ghost old_done = views(done@);
        if text[i] == NEWLINE {
            done.push(cur);
            assert(views(done@) =~= old_done.push(cur@));
            cur = Vec::new();
        } else {
            cur.push(text[i]);
        }
        i += 1;
    }
    assert(text@.subrange(0, text.len() as int) =~= text@);
    if cur.len() > 0 {
        let ghost old_done = views(done@);
        let ghost c = cur@;
        done.push(cur);
        assert(views(done@) =~= old_done.push(c));
    }
    done
}

/// Appends `b` to `v`.
pub(crate) fn append_bytes(v: &mut Vec<u8>, b: &Vec<u8>)
    ensures
        final(v)@ == old(v)@ + b@,
{
    let mut j: usize = 0;
    while j < b.len()
        invariant
            j <= b@.len(),
            v@ == old(v)@ + b@.subrange(0, j as int),
        decreases b.len() - j,
    {
        v.push(b[j]);
        j += 1;
        assert(v@ =~= old(v)@ + b@.subrange(0, j as int));
    }
    assert(b@.subrange(0, b@.len() as int) =~= b@);
}

/// Rebuilds the logical entries of `lines`, header included, in order.
pub fn reconstruct_entries(m: &HeaderMatcher, lines: &Vec<Vec<u8>>) -> (r: Vec<Vec<u8>>)
    ensures
        views(r@) == raw_entries(views(lines@), m.is_header()),
{
    let ghost ls = views(lines@);
    let mut done: Vec<Vec<u8>> = Vec::new();
    let mut acc: Vec<u8> = Vec::new();
    let mut i: usize = 0;
    while i < lines.len()
        invariant
            i <= lines@.len(),
            ls == views(lines@),
            (views(done@), acc@) == scan_entries(ls.subrange(0, i as int), m.is_header()),
        decreases lines.len() - i,
    {
        assert(ls.subrange(0, i + 1).drop_last() =~= ls.subrange(0, i as int));
        let ghost old_done = views(done@);
        let line = &lines[i];
        if acc.len() == 0 {
            append_bytes(&mut acc, line);
        } else if m.matches(line.as_slice()) {
            let ghost a = acc@;
            done.push(acc);
            assert(views(done@) =~= old_done.push(a));
            acc = Vec::new();
            append_bytes(&mut acc, line);
        } else {
            acc.push(NEWLINE);
            append_bytes(&mut acc, line);
        }
        i += 1;
    }
    assert(ls.subrange(0, lines@.len() as int) =~= ls);
    if acc.len() > 0 {
        let ghost old_done = views(done@);
        let ghost a = acc@;
        done.push(acc);
        assert(views(done@) =~= old_done.push(a));
    }
    done
}

/// The command held by one entry: what follows the `:<digit>;` separator
/// that closes the header `:<whitespace><digits>` at its start, or `None`
/// where the entry does not open with such a header.
pub fn parse_command(entry: &[u8]) -> (r: Option<Vec<u8>>)
    ensures
        body_of(entry@) == (match r {
            Some(b) => Some(b@),
            None => None,
        }),
{
    let mut k: usize = 0;
    while k < entry.len() && entry.len() - k >= 3
        invariant
            k <= entry@.len(),
            separator_from(entry@, 0) == separator_from(entry@, k as int),
        decreases entry.len() - k,
    {
        if entry[k] == 0x3a && 0x30 <= entry[k + 1] && entry[k + 1] <= 0x39 && entry[k + 2] == 0x3b {
            assert(is_separator_at(entry@, k as int));
            assert(separator_from(entry@, 0) == Some(k as int));
            if k < 3 || entry[0] != 0x3a || !(entry[1] == 0x20 || (0x09 <= entry[1] && entry[1] <= 0x0d)) {
                return None;
            }
            let mut q: usize = 2;
            while q < k
                invariant
                    2 <= q <= k,
                    k + 3 <= entry@.len(),
                    separator_from(entry@, 0) == Some(k as int),
                    forall|j: int| 2 <= j < q ==> is_ascii_digit(#[trigger] entry@[j]),
                decreases k - q,
            {
                if entry[q] < 0x30 || entry[q] > 0x39 {
                    assert(!is_ascii_digit(entry@[q as int]));
                    assert(!opens_with_header(entry@, k as int));
                    return None;
                }
                q += 1;
            }
            let mut b: Vec<u8> = Vec::new();
            let mut j: usize = k + 3;
            while j < entry.len()
                invariant
                    k + 3 <= j <= entry@.len(),
                    b@ == entry@.subrange(k + 3, j as int),
                decreases entry.len() - j,
            {
                b.push(entry[j]);
                j += 1;
                assert(b@ =~= entry@.subrange(k + 3, j as int));
            }
            assert(is_separator_at(entry@, k as int));
            assert(separator_from(entry@, 0) == Some(k as int));
            assert(b@ == entry@.subrange(k + 3, entry@.len() as int));
            assert(body_of(entry@) == Some(b@));
            return Some(b);
        }
        assert(!is_separator_at(entry@, k as int));
        k += 1;
    }
    assert(separator_from(entry@, k as int) is None);
    None
}

} // verus!
