//! Fresh timestamps for the kept commands, and the text written back.
use vstd::prelude::*;

use crate::entries::{append_bytes, views, NEWLINE};

verus! {

/// The ASCII digit for `d`.
pub open spec fn digit(d: nat) -> u8 {
    (0x30 + d) as u8
}

/// `n` written in decimal, without leading zeros.
pub open spec fn decimal(n: nat) -> Seq<u8>
    decreases n,
{
    if n < 10 {
        seq![digit(n)]
    } else {
        decimal(n / 10).push(digit(n % 10))
    }
}

/// The header that opens a written entry: `: <timestamp>:0;`. The status
/// flag is always written as `0`.
pub open spec fn header_text(timestamp: nat) -> Seq<u8> {
    seq![0x3a, 0x20] + decimal(timestamp) + seq![0x3a, 0x30, 0x3b]
}

/// One written entry: its header, its command with the command's own line
/// feeds intact, and a closing line feed.
pub open spec fn record(timestamp: nat, body: Seq<u8>) -> Seq<u8> {
    header_text(timestamp) + body + seq![NEWLINE]
}

/// The text of a history file holding `es`, in order.
pub open spec fn history_text(es: Seq<(u64, Seq<u8>)>) -> Seq<u8>
    decreases es.len(),
{
    if es.len() == 0 {
        seq![]
    } else {
        history_text(es.drop_last()) + record(es.last().0 as nat, es.last().1)
    }
}

/// The commands `cs`, the `i`-th stamped with `base + i`.
pub open spec fn stamped(cs: Seq<Seq<u8>>, base: nat) -> Seq<(u64, Seq<u8>)> {
    Seq::new(cs.len(), |i: int| ((base + i) as u64, cs[i]))
}

/// One entry of the rewritten file.
pub struct OutputEntry {
    pub timestamp: u64,
    pub body: Vec<u8>,
}

impl View for OutputEntry {
    type V = (u64, Seq<u8>);

    open spec fn view(&self) -> (u64, Seq<u8>) {
        (self.timestamp, self.body@)
    }
}

/// The views of each entry of `v`.
pub open spec fn entry_views(v: Seq<OutputEntry>) -> Seq<(u64, Seq<u8>)> {
    v.map_values(|e: OutputEntry| e@)
}

/// Stamps `commands` in order with `base`, `base + 1`, and so on.
pub fn assign_timestamps(commands: &Vec<Vec<u8>>, base: u64) -> (r: Vec<OutputEntry>)
    requires
        base + commands@.len() <= u64::MAX as int + 1,
    ensures
        entry_views(r@) == stamped(views(commands@), base as nat),
        r@.len() == commands@.len(),
        r@.len() > 0 ==> r@[0].timestamp == base,
        forall|i: int|
            0 <= i < r@.len() - 1 ==> #[trigger] r@[i + 1].timestamp == r@[i].timestamp + 1,
{
    let mut r: Vec<OutputEntry> = Vec::new();
    let mut i: usize = 0;
    while i < commands.len()
        invariant
            i <= commands@.len(),
            base + commands@.len() <= u64::MAX as int + 1,
            r@.len() == i,
            forall|q: int| 0 <= q < i ==> #[trigger] r@[q].timestamp == base + q,
            forall|q: int| 0 <= q < i ==> #[trigger] r@[q].body@ == commands@[q]@,
        decreases commands.len() - i,
    {
        let mut body: Vec<u8> = Vec::new();
        append_bytes(&mut body, &commands[i]);
        r.push(OutputEntry { timestamp: base + i as u64, body });
        i += 1;
    }
    assert(entry_views(r@) =~= stamped(views(commands@), base as nat));
    r
}

/// Appends `n` in decimal to `out`.
fn push_decimal(out: &mut Vec<u8>, n: u64)
    ensures
        final(out)@ == old(out)@ + decimal(n as nat),
    decreases n,
{
    if n >= 10 {
        push_decimal(out, n / 10);
    }
    let d: u8 = (n % 10) as u8;
    out.push(0x30 + d);
    assert(final(out)@ =~= old(out)@ + decimal(n as nat));
}

/// The text of the history file that holds `entries`, in order.
pub fn format_history(entries: &Vec<OutputEntry>) -> (r: Vec<u8>)
    ensures
        r@ == history_text(entry_views(entries@)),
{
    let ghost es = entry_views(entries@);
    let mut out: Vec<u8> = Vec::new();
    let mut i: usize = 0;
    while i < entries.len()
        invariant
            i <= entries@.len(),
            es == entry_views(entries@),
            out@ == history_text(es.subrange(0, i as int)),
        decreases entries.len() - i,
    {
        let e = &entries[i];
        let ghost before = out@;
        out.push(0x3a);
        out.push(0x20);
        push_decimal(&mut out, e.timestamp);
        out.push(0x3a);
        out.push(0x30);
        out.push(0x3b);
        append_bytes(&mut out, &e.body);
        out.push(NEWLINE);
        assert(es.subrange(0, i + 1).drop_last() =~= es.subrange(0, i as int));
        assert(out@ =~= before + record(e.timestamp as nat, e.body@));
        i += 1;
    }
    assert(es.subrange(0, i as int) =~= es);
    out
}

} // verus!
