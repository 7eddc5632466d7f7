//! First-occurrence deduplication of the commands of a history file.
use vstd::prelude::*;

use crate::entries::{body_of, lines_of, parse_command, raw_entries, reconstruct_entries, split_lines, views};
use crate::header::HeaderMatcher;
use crate::HistoryError;

verus! {

/// The distinct items of `s`, each where it first occurs.
pub open spec fn dedup(s: Seq<Seq<u8>>) -> Seq<Seq<u8>>
    decreases s.len(),
{
    if s.len() == 0 {
        seq![]
    } else {
        let d = dedup(s.drop_last());
        if d.contains(s.last()) {
            d
        } else {
            d.push(s.last())
        }
    }
}

/// The command of every entry, or `None` where one of them is malformed.
pub open spec fn commands_of(raw: Seq<Seq<u8>>) -> Option<Seq<Seq<u8>>> {
    if forall|k: int| 0 <= k < raw.len() ==> (#[trigger] body_of(raw[k])) is Some {
        Some(raw.map_values(|e: Seq<u8>| body_of(e)->0))
    } else {
        None
    }
}

/// The commands that a history file holds, in order, duplicates included.
pub open spec fn history_commands(text: Seq<u8>, is_header: spec_fn(Seq<u8>) -> bool) -> Option<
    Seq<Seq<u8>>,
> {
    commands_of(raw_entries(lines_of(text), is_header))
}

/// Whether two byte vectors hold the same bytes.
fn same_bytes(a: &Vec<u8>, b: &Vec<u8>) -> (r: bool)
    ensures
        r == (a@ == b@),
{
    if a.len() != b.len() {
        return false;
    }
    let mut j: usize = 0;
    while j < a.len()
        invariant
            j <= a@.len(),
            a@.len() == b@.len(),
            a@.subrange(0, j as int) == b@.subrange(0, j as int),
        decreases a.len() - j,
    {
        if a[j] != b[j] {
            assert(a@[j as int] != b@[j as int]);
            return false;
        }
        assert(a@.subrange(0, j + 1) =~= a@.subrange(0, j as int).push(a@[j as int]));
        assert(b@.subrange(0, j + 1) =~= b@.subrange(0, j as int).push(b@[j as int]));
        j += 1;
    }
    assert(a@ =~= a@.subrange(0, j as int));
    assert(b@ =~= b@.subrange(0, j as int));
    true
}

/// Whether `v` already holds the command `c`.
fn contains_command(v: &Vec<Vec<u8>>, c: &Vec<u8>) -> (r: bool)
    ensures
        r == views(v@).contains(c@),
{
    let mut j: usize = 0;
    while j < v.len()
        invariant
            j <= v@.len(),
            forall|q: int| 0 <= q < j ==> v@[q]@ != c@,
        decreases v.len() - j,
    {
        if same_bytes(&v[j], c) {
            assert(views(v@)[j as int] == c@);
            return true;
        }
        j += 1;
    }
    assert forall|q: int| 0 <= q < views(v@).len() implies views(v@)[q] != c@ by {
        assert(views(v@)[q] == v@[q]@);
    }
    false
}

/// Adds the command of entry `tmp_command` to `unique_commands` unless it is
/// there already. An entry without a separator is refused and changes nothing.
pub fn insert_if_unique(tmp_command: &[u8], unique_commands: &mut Vec<Vec<u8>>) -> (r: Result<
    (),
    HistoryError,
>)
    ensures
        match body_of(tmp_command@) {
            Some(c) => {
                &&& r is Ok
                &&& views(final(unique_commands)@) == if views(old(unique_commands)@).contains(c) {
                    views(old(unique_commands)@)
                } else {
                    views(old(unique_commands)@).push(c)
                }
            },
            None => {
                &&& r == Err::<(), HistoryError>(HistoryError::MalformedEntry)
                &&& final(unique_commands)@ == old(unique_commands)@
            },
        },
{
    let command = match parse_command(tmp_command) {
        Some(c) => c,
        None => return Err(HistoryError::MalformedEntry),
    };
    if contains_command(unique_commands, &command) {
        return Ok(());
    }
    let ghost c = command@;
    unique_commands.push(command);
    assert(views(unique_commands@) =~= views(old(unique_commands)@).push(c));
    Ok(())
}

/// The distinct commands of a history file, each where it first occurs; an
/// error where an entry is malformed.
pub fn unique_commands(m: &HeaderMatcher, text: &[u8]) -> (r: Result<Vec<Vec<u8>>, HistoryError>)
    ensures
        match history_commands(text@, m.is_header()) {
            Some(cs) => r is Ok && views(r->Ok_0@) == dedup(cs),
            None => r is Err && r->Err_0 == HistoryError::MalformedEntry,
        },
{
    let lines = split_lines(text);
    let raw = reconstruct_entries(m, &lines);
    let ghost rv = views(raw@);
    let ghost f = |e: Seq<u8>| body_of(e)->0;
    let mut unique: Vec<Vec<u8>> = Vec::new();
    let mut k: usize = 0;
    while k < raw.len()
        invariant
            k <= raw@.len(),
            rv == views(raw@),
            rv == raw_entries(lines_of(text@), m.is_header()),
            f == (|e: Seq<u8>| body_of(e)->0),
            forall|q: int| 0 <= q < k ==> (#[trigger] body_of(rv[q])) is Some,
            views(unique@) == dedup(rv.subrange(0, k as int).map_values(f)),
        decreases raw.len() - k,
    {
        assert(rv[k as int] == raw@[k as int]@);
        match insert_if_unique(raw[k].as_slice(), &mut unique) {
            Ok(()) => {},
            Err(e) => {
                assert(body_of(rv[k as int]) is None);
                assert(commands_of(rv) is None);
                assert(e == HistoryError::MalformedEntry);
                return Err(e);
            },
        }
        let ghost s = rv.subrange(0, k + 1).map_values(f);
        assert(s.drop_last() =~= rv.subrange(0, k as int).map_values(f));
        k += 1;
    }
    assert(rv.subrange(0, k as int) =~= rv);
    Ok(unique)
}

} // verus!
