//! Reading back what a rewrite wrote.
use vstd::prelude::*;

use crate::dedup::{dedup, history_commands};
use crate::entries::{body_of, is_ascii_digit, lines_of, raw_entries, scan_entries, separator_from, split_scan, NEWLINE};
use crate::laws::{
    continuation, join_lines, lemma_multi_line, newlines, lemma_decimal_digits, lemma_dedup_idempotent, lemma_first_occurrence_order, lemma_one_entry,
    lemma_separator_found, lemma_written_header_strips,
};
use crate::header::{header_of_width, header_rule, is_header_line};
use crate::output::{decimal, header_text, history_text, record, stamped};

verus! {

/// The pieces of `b` between its line feeds, in order: one more than it has
/// line feeds.
pub open spec fn pieces(b: Seq<u8>) -> Seq<Seq<u8>> {
    split_scan(b).0.push(split_scan(b).1)
}

/// The physical lines of one written entry.
pub open spec fn record_lines(timestamp: nat, body: Seq<u8>) -> Seq<Seq<u8>> {
    pieces(body).update(0, header_text(timestamp) + pieces(body)[0])
}

/// The physical lines of a written file, entry after entry.
pub open spec fn all_lines(es: Seq<(u64, Seq<u8>)>) -> Seq<Seq<u8>>
    decreases es.len(),
{
    if es.len() == 0 {
        seq![]
    } else {
        all_lines(es.drop_last()) + record_lines(es.last().0 as nat, es.last().1)
    }
}

/// The entries of a written file, header included.
pub open spec fn written_entries(es: Seq<(u64, Seq<u8>)>) -> Seq<Seq<u8>> {
    es.map_values(|e: (u64, Seq<u8>)| header_text(e.0 as nat) + e.1)
}

proof fn lemma_split_concat(a: Seq<u8>, b: Seq<u8>)
    requires
        split_scan(a).1.len() == 0,
    ensures
        split_scan(a + b) == (split_scan(a).0 + split_scan(b).0, split_scan(b).1),
    decreases b.len(),
{
    if b.len() == 0 {
        assert(a + b =~= a);
        assert(split_scan(a).0 + split_scan(b).0 =~= split_scan(a).0);
    } else {
        assert((a + b).drop_last() =~= a + b.drop_last());
        lemma_split_concat(a, b.drop_last());
        let (d, c) = split_scan(b.drop_last());
        assert(split_scan(a).0 + d.push(c) =~= (split_scan(a).0 + d).push(c));
    }
}

proof fn lemma_split_no_newline(h: Seq<u8>)
    requires
        !h.contains(NEWLINE),
    ensures
        split_scan(h) == (Seq::<Seq<u8>>::empty(), h),
    decreases h.len(),
{
    if h.len() > 0 {
        assert(!h.drop_last().contains(NEWLINE)) by {
            if h.drop_last().contains(NEWLINE) {
                let k = choose|k: int| 0 <= k < h.len() - 1 && h.drop_last()[k] == NEWLINE;
                assert(h[k] == NEWLINE);
            }
        }
        lemma_split_no_newline(h.drop_last());
        assert(h[h.len() - 1] != NEWLINE);
        assert(h.drop_last().push(h.last()) =~= h);
    } else {
        assert(h =~= Seq::<u8>::empty());
    }
}

proof fn lemma_split_after_prefix(h: Seq<u8>, b: Seq<u8>)
    requires
        !h.contains(NEWLINE),
    ensures
        pieces(h + b) == pieces(b).update(0, h + pieces(b)[0]),
    decreases b.len(),
{
    if b.len() == 0 {
        assert(h + b =~= h);
        lemma_split_no_newline(h);
        assert(pieces(h + b) =~= pieces(b).update(0, h + pieces(b)[0]));
    } else {
        let p = b.drop_last();
        assert((h + b).drop_last() =~= h + p);
        lemma_split_after_prefix(h, p);
        let (d, c) = split_scan(p);
        let (dh, ch) = split_scan(h + p);
        let l = dh.push(ch);
        let r = d.push(c).update(0, h + d.push(c)[0]);
        assert(l == r);
        assert(dh.len() == d.len());
        assert(ch == l[d.len() as int]);
        assert forall|k: int| 0 <= k < dh.len() implies dh[k] == l[k] by {}
        if d.len() == 0 {
            assert(dh =~= Seq::<Seq<u8>>::empty());
            assert(ch == h + c);
        } else {
            assert(dh =~= d.update(0, h + d[0]));
            assert(ch == c);
        }
        if b.last() == NEWLINE {
            assert(pieces(h + b) =~= pieces(b).update(0, h + pieces(b)[0]));
        } else {
            assert(pieces(h + b) =~= pieces(b).update(0, h + pieces(b)[0]));
        }
    }
}

proof fn lemma_pieces(b: Seq<u8>)
    ensures
        join_lines(pieces(b)) == b,
        forall|k: int| 0 <= k < pieces(b).len() ==> !(#[trigger] pieces(b)[k]).contains(NEWLINE),
    decreases b.len(),
{
    if b.len() == 0 {
        assert(pieces(b) =~= seq![Seq::<u8>::empty()]);
        assert(b =~= Seq::<u8>::empty());
        assert forall|k: int| 0 <= k < pieces(b).len() implies !(
        #[trigger] pieces(b)[k]).contains(NEWLINE) by {
            assert(pieces(b)[k] =~= Seq::<u8>::empty());
        }
    } else {
        let p = b.drop_last();
        lemma_pieces(p);
        let (d, c) = split_scan(p);
        let x = b.last();
        assert(p.push(x) =~= b);
        if x == NEWLINE {
            let q = d.push(c).push(Seq::<u8>::empty());
            assert(pieces(b) =~= q);
            assert(q.drop_last() =~= d.push(c));
            assert(join_lines(q) =~= join_lines(d.push(c)).push(NEWLINE) + Seq::<u8>::empty());
            assert forall|k: int| 0 <= k < q.len() implies !(#[trigger] q[k]).contains(NEWLINE) by {
                if k < q.len() - 1 {
                    assert(q[k] == pieces(p)[k]);
                } else {
                    assert(q[k] =~= Seq::<u8>::empty());
                }
            }
        } else {
            let q = d.push(c.push(x));
            assert(pieces(b) =~= q);
            assert(q.drop_last() =~= d);
            assert(d.push(c).drop_last() =~= d);
            if d.len() == 0 {
                assert(join_lines(d.push(c)) == c);
                assert(join_lines(q) == c.push(x));
            } else {
                assert(join_lines(q) =~= join_lines(d).push(NEWLINE) + c.push(x));
                assert(join_lines(d.push(c)) =~= join_lines(d).push(NEWLINE) + c);
            }
            assert forall|k: int| 0 <= k < q.len() implies !(#[trigger] q[k]).contains(NEWLINE) by {
                if k < q.len() - 1 {
                    assert(q[k] == pieces(p)[k]);
                } else {
                    assert(pieces(p)[k] == c);
                    if q[k].contains(NEWLINE) {
                        let j = choose|j: int| 0 <= j < q[k].len() && q[k][j] == NEWLINE;
                        if j < c.len() {
                            assert(c[j] == NEWLINE);
                        }
                    }
                }
            }
        }
    }
}

proof fn lemma_header_no_newline(t: nat)
    ensures
        !header_text(t).contains(NEWLINE),
        header_text(t).len() > 0,
{
    lemma_decimal_digits(t);
    let h = header_text(t);
    let d = decimal(t);
    if h.contains(NEWLINE) {
        let k = choose|k: int| 0 <= k < h.len() && h[k] == NEWLINE;
        if 2 <= k < 2 + d.len() {
            assert(h[k] == d[k - 2]);
        }
    }
}

proof fn lemma_concat_no_newline(a: Seq<u8>, b: Seq<u8>)
    requires
        !a.contains(NEWLINE),
        !b.contains(NEWLINE),
    ensures
        !(a + b).contains(NEWLINE),
{
    if (a + b).contains(NEWLINE) {
        let k = choose|k: int| 0 <= k < (a + b).len() && (a + b)[k] == NEWLINE;
        if k < a.len() {
            assert(a[k] == NEWLINE);
        } else {
            assert(b[k - a.len()] == NEWLINE);
        }
    }
}

/// A written entry spans one physical line more than its command holds line
/// feeds: the header followed by the command's first line, then each further
/// line of the command as it is, with no header before any of them.
pub proof fn lemma_record_lines(t: nat, b: Seq<u8>)
    ensures
        lines_of(record(t, b)) == record_lines(t, b),
        split_scan(record(t, b)).1.len() == 0,
        record_lines(t, b).len() == newlines(b) + 1,
        record_lines(t, b)[0] == header_text(t) + pieces(b)[0],
        forall|k: int| 1 <= k < record_lines(t, b).len() ==> #[trigger] record_lines(t, b)[k] == pieces(b)[k],
        join_lines(pieces(b)) == b,
        forall|k: int| 0 <= k < pieces(b).len() ==> !(#[trigger] pieces(b)[k]).contains(NEWLINE),
{
    lemma_pieces(b);
    lemma_pieces_count(b);
    let hb = header_text(t) + b;
    assert(record(t, b) =~= hb.push(NEWLINE));
    assert(record(t, b).drop_last() =~= hb);
    lemma_header_no_newline(t);
    lemma_split_after_prefix(header_text(t), b);
}

/// The physical lines of a written file are those of its entries, entry
/// after entry.
pub proof fn lemma_all_lines(es: Seq<(u64, Seq<u8>)>)
    ensures
        lines_of(history_text(es)) == all_lines(es),
        split_scan(history_text(es)).1.len() == 0,
    decreases es.len(),
{
    if es.len() > 0 {
        let prev = history_text(es.drop_last());
        let rec = record(es.last().0 as nat, es.last().1);
        lemma_all_lines(es.drop_last());
        lemma_record_lines(es.last().0 as nat, es.last().1);
        lemma_split_concat(prev, rec);
    } else {
        assert(all_lines(es) =~= Seq::<Seq<u8>>::empty());
    }
}

proof fn lemma_join_update(ls: Seq<Seq<u8>>, h: Seq<u8>)
    requires
        ls.len() >= 1,
    ensures
        join_lines(ls.update(0, h + ls[0])) == h + join_lines(ls),
    decreases ls.len(),
{
    let u = ls.update(0, h + ls[0]);
    if ls.len() > 1 {
        assert(u.drop_last() =~= ls.drop_last().update(0, h + ls.drop_last()[0]));
        lemma_join_update(ls.drop_last(), h);
        assert(u.last() == ls.last());
        assert(join_lines(u) =~= h + join_lines(ls));
    }
}

proof fn lemma_scan_append(pre: Seq<Seq<u8>>, q: Seq<Seq<u8>>, is_header: spec_fn(Seq<u8>) -> bool)
    requires
        q.len() >= 1,
        is_header(q[0]),
        q[0].len() > 0,
        forall|k: int| 1 <= k < q.len() ==> !is_header(#[trigger] q[k]),
        forall|k: int| 0 <= k < q.len() ==> !(#[trigger] q[k]).contains(NEWLINE),
    ensures
        scan_entries(pre + q, is_header) == (raw_entries(pre, is_header), join_lines(q)),
    decreases q.len(),
{
    if q.len() == 1 {
        assert((pre + q).drop_last() =~= pre);
        assert((pre + q).last() == q[0]);
    } else {
        let p = q.drop_last();
        assert((pre + q).drop_last() =~= pre + p);
        assert(p[0] == q[0]);
        lemma_scan_append(pre, p, is_header);
        lemma_one_entry(p, is_header);
        assert((pre + q).last() == q[q.len() - 1]);
    }
}

proof fn lemma_written_read_back(es: Seq<(u64, Seq<u8>)>, is_header: spec_fn(Seq<u8>) -> bool)
    requires
        forall|i: int| 0 <= i < es.len() ==> is_header(#[trigger] record_lines(es[i].0 as nat, es[i].1)[0]),
        forall|i: int, k: int|
            0 <= i < es.len() && 1 <= k < pieces(es[i].1).len() ==> !is_header(#[trigger] pieces(es[i].1)[k]),
    ensures
        raw_entries(all_lines(es), is_header) == written_entries(es),
    decreases es.len(),
{
    if es.len() == 0 {
        assert(raw_entries(all_lines(es), is_header) =~= written_entries(es));
    } else {
        let pe = es.drop_last();
        let n = es.len() - 1;
        assert forall|i: int| 0 <= i < pe.len() implies is_header(#[trigger] record_lines(pe[i].0 as nat, pe[i].1)[0]) by {
            assert(pe[i] == es[i]);
        }
        assert forall|i: int, k: int| 0 <= i < pe.len() && 1 <= k < pieces(pe[i].1).len() implies !is_header(#[trigger] pieces(pe[i].1)[k]) by {
            assert(pe[i] == es[i]);
        }
        lemma_written_read_back(pe, is_header);
        let t = es[n].0 as nat;
        let b = es[n].1;
        assert(es.last() == es[n]);
        let q = record_lines(t, b);
        lemma_pieces(b);
        lemma_header_no_newline(t);
        lemma_concat_no_newline(header_text(t), pieces(b)[0]);
        assert forall|k: int| 1 <= k < q.len() implies !is_header(#[trigger] q[k]) by {
            assert(q[k] == pieces(es[n].1)[k]);
        }
        assert forall|k: int| 0 <= k < q.len() implies !(#[trigger] q[k]).contains(NEWLINE) by {
            if k > 0 {
                assert(q[k] == pieces(b)[k]);
            }
        }
        lemma_scan_append(all_lines(pe), q, is_header);
        lemma_join_update(pieces(b), header_text(t));
        assert(join_lines(q) == header_text(t) + b);
        assert(written_entries(es) =~= written_entries(pe).push(header_text(t) + b));
    }
}

/// Reading back a rewrite: the text written for `cs` from `base` on holds
/// exactly the commands `cs`, in order, under any header rule that accepts
/// each written header line and refuses each line of a command after its
/// first.
pub proof fn lemma_rewrite_reads_back(cs: Seq<Seq<u8>>, base: nat, is_header: spec_fn(Seq<u8>) -> bool)
    requires
        base + cs.len() <= u64::MAX as int + 1,
        forall|i: int| 0 <= i < cs.len() ==> is_header(#[trigger] record_lines((base + i) as nat, cs[i])[0]),
        forall|i: int, k: int|
            0 <= i < cs.len() && 1 <= k < pieces(cs[i]).len() ==> !is_header(#[trigger] pieces(cs[i])[k]),
    ensures
        history_commands(history_text(stamped(cs, base)), is_header) == Some(cs),
{
    let es = stamped(cs, base);
    assert forall|i: int| 0 <= i < es.len() implies is_header(#[trigger] record_lines(es[i].0 as nat, es[i].1)[0]) by {
        assert(es[i].0 as nat == (base + i) as nat);
        assert(record_lines((base + i) as nat, cs[i])[0] == record_lines(es[i].0 as nat, es[i].1)[0]);
    }
    assert forall|i: int, k: int| 0 <= i < es.len() && 1 <= k < pieces(es[i].1).len() implies !is_header(#[trigger] pieces(es[i].1)[k]) by {
        assert(pieces(cs[i])[k] == pieces(es[i].1)[k]);
    }
    lemma_all_lines(es);
    lemma_written_read_back(es, is_header);
    let raw = written_entries(es);
    assert forall|k: int| 0 <= k < raw.len() implies (#[trigger] body_of(raw[k])) == Some(cs[k]) by {
        lemma_written_header_strips(es[k].0 as nat, cs[k]);
    }
    assert(raw.map_values(|e: Seq<u8>| body_of(e)->0) =~= cs);
}

/// A second run removes nothing more: where the header rule accepts each
/// header line that a first run writes, a second run on the text it wrote
/// keeps exactly the commands that the first run kept, in the same order.
pub proof fn lemma_second_run_keeps_all(text: Seq<u8>, base: nat, is_header: spec_fn(Seq<u8>) -> bool)
    requires
        history_commands(text, is_header) is Some,
        base + dedup(history_commands(text, is_header)->0).len() <= u64::MAX as int + 1,
        forall|i: int| 0 <= i < dedup(history_commands(text, is_header)->0).len() ==> is_header(
            #[trigger] record_lines((base + i) as nat, dedup(history_commands(text, is_header)->0)[i])[0],
        ),
    ensures
        ({
            let kept = dedup(history_commands(text, is_header)->0);
            let written = history_text(stamped(kept, base));
            &&& history_commands(written, is_header) == Some(kept)
            &&& dedup(kept) == kept
        }),
{
    let kept = dedup(history_commands(text, is_header)->0);
    lemma_kept_continuations(text, is_header);
    assert forall|i: int, k: int| 0 <= i < kept.len() && 1 <= k < pieces(kept[i]).len() implies !is_header(
        #[trigger] pieces(kept[i])[k],
    ) by {
        assert(continuations_refused(kept[i], is_header));
    }
    lemma_rewrite_reads_back(kept, base, is_header);
    lemma_dedup_idempotent(history_commands(text, is_header)->0);
}

/// Whether `is_header` refuses every line of `b` after its first.
pub open spec fn continuations_refused(b: Seq<u8>, is_header: spec_fn(Seq<u8>) -> bool) -> bool {
    forall|k: int| 1 <= k < pieces(b).len() ==> !is_header(#[trigger] pieces(b)[k])
}

proof fn lemma_pieces_push(z: Seq<u8>, x: u8)
    ensures
        pieces(z.push(x)) == if x == NEWLINE {
            pieces(z).push(Seq::<u8>::empty())
        } else {
            pieces(z).update(pieces(z).len() - 1, pieces(z).last().push(x))
        },
{
    assert(z.push(x).drop_last() =~= z);
    assert(z.push(x).last() == x);
    let (d, c) = split_scan(z);
    if x == NEWLINE {
        assert(pieces(z.push(x)) =~= pieces(z).push(Seq::<u8>::empty()));
    } else {
        assert(pieces(z.push(x)) =~= pieces(z).update(pieces(z).len() - 1, pieces(z).last().push(x)));
    }
}

proof fn lemma_pieces_concat(x: Seq<u8>, y: Seq<u8>)
    ensures
        pieces(x + y) == pieces(x).drop_last() + pieces(split_scan(x).1 + y),
    decreases y.len(),
{
    let c = split_scan(x).1;
    lemma_pieces(x);
    assert(pieces(x)[pieces(x).len() - 1] == c);
    if y.len() == 0 {
        assert(x + y =~= x);
        assert(c + y =~= c);
        lemma_split_no_newline(c);
        assert(pieces(x).drop_last() + pieces(c) =~= pieces(x));
    } else {
        let yp = y.drop_last();
        let b = y.last();
        lemma_pieces_concat(x, yp);
        assert(x + y =~= (x + yp).push(b));
        assert(c + y =~= (c + yp).push(b));
        lemma_pieces_push(x + yp, b);
        lemma_pieces_push(c + yp, b);
        let d = pieces(x).drop_last();
        let q = pieces(c + yp);
        if b == NEWLINE {
            assert((d + q).push(Seq::<u8>::empty()) =~= d + q.push(Seq::<u8>::empty()));
        } else {
            assert((d + q).update((d + q).len() - 1, (d + q).last().push(b)) =~= d + q.update(
                q.len() - 1,
                q.last().push(b),
            ));
        }
    }
}

proof fn lemma_scan_continuations(lines: Seq<Seq<u8>>, is_header: spec_fn(Seq<u8>) -> bool)
    requires
        forall|k: int| 0 <= k < lines.len() ==> !(#[trigger] lines[k]).contains(NEWLINE),
    ensures
        forall|j: int|
            0 <= j < scan_entries(lines, is_header).0.len() ==> continuations_refused(
                #[trigger] scan_entries(lines, is_header).0[j],
                is_header,
            ),
        continuations_refused(scan_entries(lines, is_header).1, is_header),
    decreases lines.len(),
{
    if lines.len() > 0 {
        let p = lines.drop_last();
        let line = lines.last();
        assert(line == lines[lines.len() - 1]);
        lemma_scan_continuations(p, is_header);
        let (done, acc) = scan_entries(p, is_header);
        lemma_split_no_newline(line);
        assert(pieces(line) =~= seq![line]);
        if acc.len() != 0 && !is_header(line) {
            let a = acc.push(NEWLINE);
            lemma_pieces_concat(a, line);
            lemma_pieces_push(acc, NEWLINE);
            assert(a.drop_last() =~= acc);
            assert(split_scan(a).1 =~= Seq::<u8>::empty());
            assert(split_scan(a).1 + line =~= line);
            assert(pieces(a + line) =~= pieces(acc).push(line));
        }
    } else {
        assert(pieces(Seq::<u8>::empty()) =~= seq![Seq::<u8>::empty()]);
    }
}

proof fn lemma_body_continuations(e: Seq<u8>, is_header: spec_fn(Seq<u8>) -> bool)
    requires
        continuations_refused(e, is_header),
        body_of(e) is Some,
    ensures
        continuations_refused(body_of(e)->0, is_header),
{
    lemma_separator_found(e, 0);
    let i = separator_from(e, 0)->0;
    let b = body_of(e)->0;
    let x = e.subrange(0, i + 3);
    assert(x + b =~= e);
    lemma_pieces_concat(x, b);
    let c = split_scan(x).1;
    lemma_pieces(x);
    assert(pieces(x)[pieces(x).len() - 1] == c);
    lemma_split_after_prefix(c, b);
    let m = pieces(x).len() - 1;
    assert forall|k: int| 1 <= k < pieces(b).len() implies !is_header(#[trigger] pieces(b)[k]) by {
        assert(pieces(e)[m + k] == pieces(c + b)[k]);
    }
}

/// Whatever the header rule, each command that a run keeps has no line after
/// its first that the rule would take for a header.
proof fn lemma_kept_continuations(text: Seq<u8>, is_header: spec_fn(Seq<u8>) -> bool)
    requires
        history_commands(text, is_header) is Some,
    ensures
        forall|i: int|
            0 <= i < dedup(history_commands(text, is_header)->0).len() ==> continuations_refused(
                #[trigger] dedup(history_commands(text, is_header)->0)[i],
                is_header,
            ),
{
    let ls = lines_of(text);
    lemma_pieces(text);
    assert forall|k: int| 0 <= k < ls.len() implies !(#[trigger] ls[k]).contains(NEWLINE) by {
        assert(ls[k] == pieces(text)[k]);
    }
    lemma_scan_continuations(ls, is_header);
    let raw = raw_entries(ls, is_header);
    assert forall|j: int| 0 <= j < raw.len() implies continuations_refused(#[trigger] raw[j], is_header) by {
        let (done, acc) = scan_entries(ls, is_header);
        if j < done.len() {
            assert(raw[j] == done[j]);
        }
    }
    let cs = history_commands(text, is_header)->0;
    assert forall|i: int| 0 <= i < dedup(cs).len() implies continuations_refused(#[trigger] dedup(cs)[i], is_header) by {
        lemma_first_occurrence_order(cs);
        assert(dedup(cs).contains(dedup(cs)[i]));
        assert(cs.contains(dedup(cs)[i]));
        assert(cs == raw.map_values(|e: Seq<u8>| body_of(e)->0));
        let j = choose|j: int| 0 <= j < cs.len() && cs[j] == dedup(cs)[i];
        assert(cs[j] == body_of(raw[j])->0);
        assert(body_of(raw[j]) is Some);
        assert(continuations_refused(raw[j], is_header));
        lemma_body_continuations(raw[j], is_header);
    }
}

proof fn lemma_pieces_count(b: Seq<u8>)
    ensures
        pieces(b).len() == newlines(b) + 1,
    decreases b.len(),
{
    if b.len() == 0 {
        assert(pieces(b) =~= seq![Seq::<u8>::empty()]);
    } else {
        lemma_pieces_count(b.drop_last());
        assert(b.drop_last().push(b.last()) =~= b);
        lemma_pieces_push(b.drop_last(), b.last());
    }
}

proof fn lemma_scan_concat(pre: Seq<Seq<u8>>, r: Seq<Seq<u8>>, is_header: spec_fn(Seq<u8>) -> bool)
    requires
        r.len() >= 1,
        scan_entries(pre, is_header).1.len() == 0 || is_header(r[0]),
    ensures
        scan_entries(pre + r, is_header) == (
            raw_entries(pre, is_header) + scan_entries(r, is_header).0,
            scan_entries(r, is_header).1,
        ),
    decreases r.len(),
{
    assert((pre + r).drop_last() =~= pre + r.drop_last());
    assert((pre + r).last() == r.last());
    if r.len() == 1 {
        assert(pre + r.drop_last() =~= pre);
        assert(r.drop_last() =~= Seq::<Seq<u8>>::empty());
        assert(r.last() == r[0]);
        let (d, a) = scan_entries(pre, is_header);
        assert(scan_entries(r.drop_last(), is_header).1.len() == 0);
        assert(scan_entries(r, is_header).1 == r[0]);
        assert(scan_entries(r, is_header).0 =~= Seq::<Seq<u8>>::empty());
        if a.len() == 0 {
            assert(raw_entries(pre, is_header) + Seq::<Seq<u8>>::empty() =~= d);
            assert(scan_entries(pre + r, is_header) == (d, r[0]));
        } else {
            assert(raw_entries(pre, is_header) + Seq::<Seq<u8>>::empty() =~= d.push(a));
            assert(scan_entries(pre + r, is_header) == (d.push(a), r[0]));
        }
    } else {
        let rp = r.drop_last();
        assert(rp[0] == r[0]);
        lemma_scan_concat(pre, rp, is_header);
        let (d, a) = scan_entries(rp, is_header);
        assert((raw_entries(pre, is_header) + d).push(a) =~= raw_entries(pre, is_header) + d.push(a));
        assert(r.drop_last() == rp);
        assert(scan_entries(pre + r, is_header).0 == raw_entries(pre, is_header) + scan_entries(r, is_header).0);
        assert(scan_entries(pre + r, is_header).1 == scan_entries(r, is_header).1);
    }
}

proof fn lemma_raw_concat(pre: Seq<Seq<u8>>, r: Seq<Seq<u8>>, is_header: spec_fn(Seq<u8>) -> bool)
    requires
        r.len() == 0 || scan_entries(pre, is_header).1.len() == 0 || is_header(r[0]),
    ensures
        raw_entries(pre + r, is_header) == raw_entries(pre, is_header) + raw_entries(r, is_header),
{
    if r.len() == 0 {
        assert(pre + r =~= pre);
        assert(raw_entries(r, is_header) =~= Seq::<Seq<u8>>::empty());
        assert(raw_entries(pre, is_header) + raw_entries(r, is_header) =~= raw_entries(pre, is_header));
    } else {
        lemma_scan_concat(pre, r, is_header);
        let (d, a) = scan_entries(r, is_header);
        assert((raw_entries(pre, is_header) + d).push(a) =~= raw_entries(pre, is_header) + d.push(a));
    }
}

/// Multi-line commands inside a file: a header line followed by lines that
/// open no entry, with whatever lines stand before them and, after them,
/// nothing or a line that opens an entry, make up exactly one entry of the
/// file, in its place: the lines joined by line feeds. Its command holds one
/// line feed fewer than there are lines: the command of the header line, then
/// every further line after a line feed.
pub proof fn lemma_multi_line_in_file(
    before: Seq<Seq<u8>>,
    lines: Seq<Seq<u8>>,
    after: Seq<Seq<u8>>,
    is_header: spec_fn(Seq<u8>) -> bool,
)
    requires
        lines.len() >= 1,
        is_header(lines[0]),
        lines[0].len() > 0,
        forall|k: int| 1 <= k < lines.len() ==> !is_header(#[trigger] lines[k]),
        forall|k: int| 0 <= k < lines.len() ==> !(#[trigger] lines[k]).contains(NEWLINE),
        after.len() == 0 || is_header(after[0]),
    ensures
        raw_entries(before + lines + after, is_header) == raw_entries(before, is_header) + seq![
            join_lines(lines),
        ] + raw_entries(after, is_header),
        newlines(join_lines(lines)) == lines.len() - 1,
        body_of(lines[0]) matches Some(b) ==> {
            &&& body_of(join_lines(lines)) == Some(b + continuation(lines))
            &&& newlines(b + continuation(lines)) == lines.len() - 1
        },
{
    lemma_multi_line(lines, is_header);
    lemma_raw_concat(before, lines, is_header);
    lemma_raw_concat(before + lines, after, is_header);
}

/// Ten to the power `k`.
pub open spec fn pow10(k: nat) -> nat
    decreases k,
{
    if k == 0 {
        1
    } else {
        10 * pow10((k - 1) as nat)
    }
}

proof fn lemma_pow10_positive(k: nat)
    ensures
        pow10(k) >= 1,
    decreases k,
{
    if k > 0 {
        lemma_pow10_positive((k - 1) as nat);
    }
}

proof fn lemma_decimal_len_ge(n: nat, k: nat)
    requires
        n >= pow10(k),
    ensures
        decimal(n).len() >= k + 1,
    decreases k,
{
    lemma_decimal_digits(n);
    if k > 0 {
        let p = pow10((k - 1) as nat);
        lemma_pow10_positive((k - 1) as nat);
        assert(n >= 10 * p);
        assert(n / 10 >= p) by (nonlinear_arith)
            requires
                n >= 10 * p,
        ;
        lemma_decimal_len_ge(n / 10, (k - 1) as nat);
    }
}

proof fn lemma_decimal_len_le(n: nat, k: nat)
    requires
        k >= 1,
        n < pow10(k),
    ensures
        decimal(n).len() <= k,
    decreases k,
{
    if n >= 10 && k > 1 {
        let p = pow10((k - 1) as nat);
        assert(n / 10 < p) by (nonlinear_arith)
            requires
                n < 10 * p,
        ;
        lemma_decimal_len_le(n / 10, (k - 1) as nat);
    } else if n >= 10 {
        assert(pow10(1) == 10) by {
            reveal_with_fuel(pow10, 2);
        }
    }
}

/// A header that the rewrite writes with a timestamp of 10 to 13 digits is
/// one that the header rule accepts, whatever follows it on its line.
pub proof fn lemma_written_header_accepted(timestamp: nat, rest: Seq<u8>)
    requires
        1_000_000_000 <= timestamp < 10_000_000_000_000,
    ensures
        is_header_line(header_text(timestamp) + rest),
{
    assert(pow10(9) == 1_000_000_000 && pow10(13) == 10_000_000_000_000) by {
        reveal_with_fuel(pow10, 14);
    }
    lemma_decimal_len_ge(timestamp, 9);
    lemma_decimal_len_le(timestamp, 13);
    lemma_decimal_digits(timestamp);
    let d = decimal(timestamp);
    let c = d.len() as int;
    let l = header_text(timestamp) + rest;
    assert forall|j: int| 2 <= j < 2 + c implies is_ascii_digit(#[trigger] l[j]) by {
        assert(l[j] == d[j - 2]);
    }
    assert(l[0] == 0x3a && l[1] == 0x20);
    assert(l[2 + c] == 0x3a && l[3 + c] == 0x30 && l[4 + c] == 0x3b);
    assert(header_of_width(l, c));
}

/// Running twice removes nothing more: where a first run keeps the commands
/// `kept` of `text` and stamps them from a `base` of 10 to 13 digits whose
/// last timestamp still has at most 13 digits, a second run on the text it
/// wrote keeps exactly `kept` again, in the same order.
pub proof fn lemma_run_twice(text: Seq<u8>, base: nat)
    requires
        history_commands(text, header_rule()) is Some,
        1_000_000_000 <= base,
        base + dedup(history_commands(text, header_rule())->0).len() <= 10_000_000_000_000,
    ensures
        ({
            let kept = dedup(history_commands(text, header_rule())->0);
            &&& history_commands(history_text(stamped(kept, base)), header_rule()) == Some(kept)
            &&& dedup(kept) == kept
        }),
{
    let kept = dedup(history_commands(text, header_rule())->0);
    assert forall|i: int| 0 <= i < kept.len() implies (header_rule())(
        #[trigger] record_lines((base + i) as nat, kept[i])[0],
    ) by {
        lemma_record_lines((base + i) as nat, kept[i]);
        lemma_written_header_accepted((base + i) as nat, pieces(kept[i])[0]);
    }
    lemma_second_run_keeps_all(text, base, header_rule());
}

} // verus!
