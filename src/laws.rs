//! What holds of the deduplication and of the rewritten file for every input.
use vstd::prelude::*;

use crate::dedup::dedup;
use crate::entries::{body_of, is_ascii_digit, is_separator_at, raw_entries, scan_entries, separator_from, NEWLINE};
use crate::output::{decimal, header_text};

verus! {

/// Every occurrence of `y` in `s` comes after some occurrence of `x`.
pub open spec fn occurs_first(s: Seq<Seq<u8>>, x: Seq<u8>, y: Seq<u8>) -> bool {
    forall|k: int| 0 <= k < s.len() && s[k] == y ==> exists|j: int| 0 <= j < k && s[j] == x
}

/// How many items of `s` repeat one that occurs earlier in `s`.
pub open spec fn repeats(s: Seq<Seq<u8>>) -> nat
    decreases s.len(),
{
    if s.len() == 0 {
        0
    } else {
        repeats(s.drop_last()) + if s.drop_last().contains(s.last()) {
            1nat
        } else {
            0nat
        }
    }
}

proof fn lemma_dedup_facts(s: Seq<Seq<u8>>)
    ensures
        dedup(s).no_duplicates(),
        forall|x: Seq<u8>| s.contains(x) <==> dedup(s).contains(x),
        forall|i: int, j: int|
            0 <= i < j < dedup(s).len() ==> occurs_first(s, dedup(s)[i], dedup(s)[j]),
        dedup(s).len() + repeats(s) == s.len(),
    decreases s.len(),
{
    if s.len() > 0 {
        let p = s.drop_last();
        let x = s.last();
        let d = dedup(p);
        lemma_dedup_facts(p);
        assert forall|y: Seq<u8>| p.contains(y) implies s.contains(y) by {
            let k = choose|k: int| 0 <= k < p.len() && p[k] == y;
            assert(s[k] == y);
        }
        assert forall|y: Seq<u8>| s.contains(y) implies p.contains(y) || y == x by {
            let k = choose|k: int| 0 <= k < s.len() && s[k] == y;
            if k < p.len() {
                assert(p[k] == y);
            }
        }
        assert(s.contains(x)) by {
            assert(s[s.len() - 1] == x);
        }
        if d.contains(x) {
            assert forall|i: int, j: int| 0 <= i < j < dedup(s).len() implies occurs_first(
                s,
                dedup(s)[i],
                dedup(s)[j],
            ) by {
                assert(occurs_first(p, d[i], d[j]));
                assert forall|k: int| 0 <= k < s.len() && s[k] == d[j] implies exists|q: int|
                    0 <= q < k && s[q] == d[i] by {
                    if k < p.len() {
                        assert(p[k] == d[j]);
                        let q = choose|q: int| 0 <= q < k && p[q] == d[i];
                        assert(s[q] == d[i]);
                    } else {
                        assert(d.contains(d[i]));
                        assert(p.contains(d[i]));
                        let q = choose|q: int| 0 <= q < p.len() && p[q] == d[i];
                        assert(s[q] == d[i]);
                    }
                }
            }
        } else {
            let e = d.push(x);
            assert(dedup(s) == e);
            assert forall|y: Seq<u8>| e.contains(y) <==> d.contains(y) || y == x by {
                if e.contains(y) {
                    let k = choose|k: int| 0 <= k < e.len() && e[k] == y;
                    if k < d.len() {
                        assert(d[k] == y);
                    }
                }
                if d.contains(y) {
                    let k = choose|k: int| 0 <= k < d.len() && d[k] == y;
                    assert(e[k] == y);
                }
                if y == x {
                    assert(e[d.len() as int] == y);
                }
            }
            assert forall|i: int, j: int| 0 <= i < e.len() && 0 <= j < e.len() && i != j implies e[i]
                != e[j] by {
                if i < d.len() && j < d.len() {
                } else if i < d.len() {
                    assert(d.contains(e[i]));
                } else {
                    assert(d.contains(e[j]));
                }
            }
            assert forall|i: int, j: int| 0 <= i < j < e.len() implies occurs_first(s, e[i], e[j]) by {
                assert(d.contains(e[i]));
                assert(p.contains(e[i]));
                assert forall|k: int| 0 <= k < s.len() && s[k] == e[j] implies exists|q: int|
                    0 <= q < k && s[q] == e[i] by {
                    if k < p.len() {
                        assert(p[k] == e[j]);
                        if j < d.len() {
                            assert(occurs_first(p, d[i], d[j]));
                            let q = choose|q: int| 0 <= q < k && p[q] == d[i];
                            assert(s[q] == e[i]);
                        } else {
                            assert(p.contains(x));
                        }
                    } else {
                        if j < d.len() {
                            assert(d.contains(x));
                        }
                        let q = choose|q: int| 0 <= q < p.len() && p[q] == e[i];
                        assert(s[q] == e[i]);
                    }
                }
            }
        }
    }
}

/// First-occurrence order: the output holds each distinct command of `s`
/// exactly once, holds nothing else, and ranks two commands as their first
/// occurrences in `s` rank: every occurrence of a later output command comes
/// after an occurrence of each earlier one.
pub proof fn lemma_first_occurrence_order(s: Seq<Seq<u8>>)
    ensures
        dedup(s).no_duplicates(),
        forall|x: Seq<u8>| s.contains(x) <==> dedup(s).contains(x),
        forall|i: int, j: int|
            0 <= i < j < dedup(s).len() ==> occurs_first(s, dedup(s)[i], dedup(s)[j]),
{
    lemma_dedup_facts(s);
}

/// Count: the output holds as many commands as `s` has distinct ones, and each
/// repeat of an earlier command takes exactly one off the length of `s`.
pub proof fn lemma_count(s: Seq<Seq<u8>>)
    ensures
        dedup(s).len() == s.to_set().len(),
        dedup(s).len() == s.len() - repeats(s),
{
    lemma_dedup_facts(s);
    dedup(s).unique_seq_to_set();
    assert(dedup(s).to_set() =~= s.to_set());
}

proof fn lemma_dedup_of_distinct(s: Seq<Seq<u8>>)
    requires
        s.no_duplicates(),
    ensures
        dedup(s) == s,
    decreases s.len(),
{
    if s.len() > 0 {
        let p = s.drop_last();
        assert(p.no_duplicates());
        lemma_dedup_of_distinct(p);
        assert(!p.contains(s.last()));
        assert(p.push(s.last()) =~= s);
    }
}

/// Deduplicating a second time removes nothing more.
pub proof fn lemma_dedup_idempotent(s: Seq<Seq<u8>>)
    ensures
        dedup(dedup(s)) == dedup(s),
{
    lemma_dedup_facts(s);
    lemma_dedup_of_distinct(dedup(s));
}

/// The lines `ls` joined with a line feed between each two.
pub open spec fn join_lines(ls: Seq<Seq<u8>>) -> Seq<u8>
    decreases ls.len(),
{
    if ls.len() == 0 {
        seq![]
    } else if ls.len() == 1 {
        ls[0]
    } else {
        join_lines(ls.drop_last()).push(NEWLINE) + ls.last()
    }
}

/// The lines of `ls` after the first, each after a line feed.
pub open spec fn continuation(ls: Seq<Seq<u8>>) -> Seq<u8>
    decreases ls.len(),
{
    if ls.len() <= 1 {
        seq![]
    } else {
        continuation(ls.drop_last()).push(NEWLINE) + ls.last()
    }
}

/// How many line feeds `s` holds.
pub open spec fn newlines(s: Seq<u8>) -> nat
    decreases s.len(),
{
    if s.len() == 0 {
        0
    } else {
        newlines(s.drop_last()) + if s.last() == NEWLINE {
            1nat
        } else {
            0nat
        }
    }
}

proof fn lemma_newlines_add(a: Seq<u8>, b: Seq<u8>)
    ensures
        newlines(a + b) == newlines(a) + newlines(b),
    decreases b.len(),
{
    if b.len() > 0 {
        assert((a + b).drop_last() =~= a + b.drop_last());
        lemma_newlines_add(a, b.drop_last());
    } else {
        assert(a + b =~= a);
    }
}

proof fn lemma_newlines_none(s: Seq<u8>)
    requires
        !s.contains(NEWLINE),
    ensures
        newlines(s) == 0,
    decreases s.len(),
{
    if s.len() > 0 {
        assert(!s.drop_last().contains(NEWLINE)) by {
            if s.drop_last().contains(NEWLINE) {
                let k = choose|k: int| 0 <= k < s.len() - 1 && s.drop_last()[k] == NEWLINE;
                assert(s[k] == NEWLINE);
            }
        }
        lemma_newlines_none(s.drop_last());
        assert(s[s.len() - 1] == s.last());
    }
}

pub(crate) proof fn lemma_one_entry(ls: Seq<Seq<u8>>, is_header: spec_fn(Seq<u8>) -> bool)
    requires
        ls.len() >= 1,
        ls[0].len() > 0,
        forall|k: int| 1 <= k < ls.len() ==> !is_header(#[trigger] ls[k]),
        forall|k: int| 0 <= k < ls.len() ==> !(#[trigger] ls[k]).contains(NEWLINE),
    ensures
        scan_entries(ls, is_header) == (Seq::<Seq<u8>>::empty(), join_lines(ls)),
        join_lines(ls) == ls[0] + continuation(ls),
        newlines(continuation(ls)) == ls.len() - 1,
    decreases ls.len(),
{
    let p = ls.drop_last();
    if ls.len() == 1 {
        assert(p =~= Seq::<Seq<u8>>::empty());
        assert(ls.last() == ls[0]);
        assert(ls[0] + continuation(ls) =~= ls[0]);
        assert(scan_entries(p, is_header).1.len() == 0);
        assert(scan_entries(ls, is_header).1 == ls[0]);
        assert(scan_entries(ls, is_header).0 =~= Seq::<Seq<u8>>::empty());
    } else {
        assert(p[0] == ls[0]);
        lemma_one_entry(p, is_header);
        assert(join_lines(p).len() > 0);
        assert(ls.last() == ls[ls.len() - 1]);
        assert(!is_header(ls.last()));
        assert(join_lines(ls) =~= ls[0] + continuation(ls));
        lemma_newlines_add(continuation(p).push(NEWLINE), ls.last());
        lemma_newlines_none(ls.last());
        assert(continuation(p).push(NEWLINE).drop_last() =~= continuation(p));
        assert(scan_entries(ls, is_header).1 == join_lines(ls));
        assert(scan_entries(ls, is_header).0 =~= Seq::<Seq<u8>>::empty());
    }
}

pub(crate) proof fn lemma_separator_found(e: Seq<u8>, k: int)
    ensures
        separator_from(e, k) matches Some(i) ==> k <= i && is_separator_at(e, i),
    decreases e.len() - k,
{
    if 0 <= k && k + 3 <= e.len() && !is_separator_at(e, k) {
        lemma_separator_found(e, k + 1);
    }
}

proof fn lemma_separator_prefix(e: Seq<u8>, f: Seq<u8>, k: int)
    requires
        0 <= k,
        e.len() <= f.len(),
        f.subrange(0, e.len() as int) == e,
        separator_from(e, k) is Some,
    ensures
        separator_from(f, k) == separator_from(e, k),
    decreases e.len() - k,
{
    assert(k + 3 <= e.len());
    assert(f[k] == e[k] && f[k + 1] == e[k + 1] && f[k + 2] == e[k + 2]) by {
        assert(f.subrange(0, e.len() as int)[k] == f[k]);
        assert(f.subrange(0, e.len() as int)[k + 1] == f[k + 1]);
        assert(f.subrange(0, e.len() as int)[k + 2] == f[k + 2]);
    }
    if !is_separator_at(e, k) {
        lemma_separator_prefix(e, f, k + 1);
    }
}

/// Multi-line commands: where a first line that opens an entry is followed
/// only by lines that open none, and no line holds a line feed, the lines make
/// up exactly one entry, the lines joined by line feeds. Its command holds one
/// line feed fewer than there are lines: the command of the first line, then
/// every further line after a line feed.
pub proof fn lemma_multi_line(lines: Seq<Seq<u8>>, is_header: spec_fn(Seq<u8>) -> bool)
    requires
        lines.len() >= 1,
        is_header(lines[0]),
        lines[0].len() > 0,
        forall|k: int| 1 <= k < lines.len() ==> !is_header(#[trigger] lines[k]),
        forall|k: int| 0 <= k < lines.len() ==> !(#[trigger] lines[k]).contains(NEWLINE),
    ensures
        raw_entries(lines, is_header) == seq![join_lines(lines)],
        newlines(join_lines(lines)) == lines.len() - 1,
        body_of(lines[0]) matches Some(b) ==> {
            &&& body_of(join_lines(lines)) == Some(b + continuation(lines))
            &&& newlines(b + continuation(lines)) == lines.len() - 1
        },
{
    lemma_one_entry(lines, is_header);
    assert(raw_entries(lines, is_header) =~= seq![join_lines(lines)]);
    let e = lines[0];
    let f = join_lines(lines);
    lemma_newlines_add(e, continuation(lines));
    lemma_newlines_none(e);
    if let Some(b) = body_of(e) {
        assert(f.subrange(0, e.len() as int) =~= e);
        lemma_separator_prefix(e, f, 0);
        let i = separator_from(e, 0)->0;
        lemma_separator_found(e, 0);
        assert(b =~= e.subrange(i + 3, e.len() as int));
        assert(f.subrange(i + 3, f.len() as int) =~= b + continuation(lines));
        assert(!b.contains(NEWLINE)) by {
            if b.contains(NEWLINE) {
                let k = choose|k: int| 0 <= k < b.len() && b[k] == NEWLINE;
                assert(e[i + 3 + k] == NEWLINE);
            }
        }
        lemma_newlines_none(b);
        lemma_newlines_add(b, continuation(lines));
    }
}

pub(crate) proof fn lemma_decimal_digits(n: nat)
    ensures
        decimal(n).len() >= 1,
        forall|j: int| 0 <= j < decimal(n).len() ==> is_ascii_digit(#[trigger] decimal(n)[j]),
    decreases n,
{
    if n >= 10 {
        lemma_decimal_digits(n / 10);
    }
}

proof fn lemma_separator_first(e: Seq<u8>, k: int, p: int)
    requires
        0 <= k <= p,
        forall|j: int| k <= j < p ==> !is_separator_at(e, j),
        is_separator_at(e, p),
    ensures
        separator_from(e, k) == Some(p),
    decreases p - k,
{
    if k < p {
        lemma_separator_first(e, k + 1, p);
    }
}

/// A written entry gives its command back: stripping the header that the
/// rewrite puts before a command leaves that command, whatever it holds.
pub proof fn lemma_written_header_strips(timestamp: nat, command: Seq<u8>)
    ensures
        body_of(header_text(timestamp) + command) == Some(command),
{
    let d = decimal(timestamp);
    let e = header_text(timestamp) + command;
    lemma_decimal_digits(timestamp);
    let p: int = 2 + d.len() as int;
    assert forall|j: int| 0 <= j < p implies !is_separator_at(e, j) by {
        if j >= 2 {
            assert(e[j] == d[j - 2]);
        } else {
            assert(e[1] == 0x20);
        }
    }
    assert(e[p] == 0x3a && e[p + 1] == 0x30 && e[p + 2] == 0x3b);
    lemma_separator_first(e, 0, p);
    assert(e.subrange(p + 3, e.len() as int) =~= command);
}

} // verus!
