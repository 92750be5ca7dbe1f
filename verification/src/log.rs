//! The log of the table of contents, as bytes.
//!
//! An entry of the log is written as the number of tables that it takes away and their numbers, and
//! then the number of tables that it adds and what is recorded of each.
use crate::encoding;
use crate::error::Error;
use crate::table::{InfoView, TableId, TableInfo};
use crate::toc;
use crate::toc::{Entry, EntryView, TocState, TOC};
use vstd::prelude::*;
use vstd::utf8;

verus! {

/// The bytes of numbers, one behind the other.
pub open spec fn ids_bytes(ids: Seq<TableId>) -> Seq<u8>
    decreases ids.len(),
{
    if ids.len() == 0 {
        Seq::empty()
    } else {
        ids_bytes(ids.drop_last()) + encoding::u64_bytes(ids.last())
    }
}

/// The bytes of what is recorded of a table.
pub open spec fn info_bytes(info: InfoView) -> Seq<u8> {
    encoding::u64_bytes(info.id) + (encoding::u64_bytes(info.level) + (encoding::u64_bytes(info.keys_offset) + (
    encoding::u64_bytes(info.file_size) + (encoding::str_bytes(info.smallest_key) + encoding::str_bytes(
        info.biggest_key,
    )))))
}

/// The bytes of what is recorded of several tables.
pub open spec fn infos_bytes(infos: Seq<InfoView>) -> Seq<u8>
    decreases infos.len(),
{
    if infos.len() == 0 {
        Seq::empty()
    } else {
        infos_bytes(infos.drop_last()) + info_bytes(infos.last())
    }
}

/// The bytes of an entry of the log.
pub open spec fn entry_bytes(entry: EntryView) -> Seq<u8> {
    encoding::u64_bytes(entry.removals.len() as u64) + (ids_bytes(entry.removals) + (encoding::u64_bytes(
        entry.additions.len() as u64,
    ) + infos_bytes(entry.additions)))
}

/// The `n` numbers from position `pos` of `b` on, and the position behind them.
pub open spec fn ids_from(b: Seq<u8>, pos: int, n: nat) -> Option<(Seq<TableId>, int)>
    decreases n,
{
    if n == 0 {
        Some((Seq::empty(), pos))
    } else {
        match ids_from(b, pos, (n - 1) as nat) {
            Some((ids, at)) => match encoding::u64_at(b, at) {
                Some((id, next)) => Some((ids.push(id), next)),
                None => None,
            },
            None => None,
        }
    }
}

/// What is recorded of a table at position `pos` of `b`, and the position behind it.
pub open spec fn info_at(b: Seq<u8>, pos: int) -> Option<(InfoView, int)> {
    match (
        encoding::u64_at(b, pos),
        encoding::u64_at(b, pos + 8),
        encoding::u64_at(b, pos + 16),
        encoding::u64_at(b, pos + 24),
        encoding::str_at(b, pos + 32),
    ) {
        (Some((id, _)), Some((level, _)), Some((keys_offset, _)), Some((file_size, _)), Some((smallest_key, at))) => {
            match encoding::str_at(b, at) {
                Some((biggest_key, next)) => Some(
                    (InfoView { id, level, keys_offset, file_size, smallest_key, biggest_key }, next),
                ),
                None => None,
            }
        },
        _ => None,
    }
}

/// What is recorded of `n` tables from position `pos` of `b` on, and the position behind it.
pub open spec fn infos_from(b: Seq<u8>, pos: int, n: nat) -> Option<(Seq<InfoView>, int)>
    decreases n,
{
    if n == 0 {
        Some((Seq::empty(), pos))
    } else {
        match infos_from(b, pos, (n - 1) as nat) {
            Some((infos, at)) => match info_at(b, at) {
                Some((info, next)) => Some((infos.push(info), next)),
                None => None,
            },
            None => None,
        }
    }
}

/// The entry at position `pos` of the log, and the position behind it.
pub open spec fn entry_at(b: Seq<u8>, pos: int) -> Option<(EntryView, int)> {
    match encoding::u64_at(b, pos) {
        Some((removed, at)) => match ids_from(b, at, removed as nat) {
            Some((removals, middle)) => match encoding::u64_at(b, middle) {
                Some((added, behind)) => match infos_from(b, behind, added as nat) {
                    Some((additions, next)) => if toc::ids_bounded(additions) {
                        Some((EntryView { removals, additions }, next))
                    } else {
                        None
                    },
                    None => None,
                },
                None => None,
            },
            None => None,
        },
        None => None,
    }
}

proof fn lemma_ids_from_advances(b: Seq<u8>, pos: int, n: nat)
    ensures
        ids_from(b, pos, n) matches Some((ids, next)) ==> ids.len() == n && next >= pos && (pos <= b.len() ==> next
            <= b.len()),
    decreases n,
{
    if n > 0 {
        lemma_ids_from_advances(b, pos, (n - 1) as nat);
    }
}

proof fn lemma_infos_from_advances(b: Seq<u8>, pos: int, n: nat)
    ensures
        infos_from(b, pos, n) matches Some((infos, next)) ==> infos.len() == n && next >= pos && (pos <= b.len()
            ==> next <= b.len()),
    decreases n,
{
    if n > 0 {
        lemma_infos_from_advances(b, pos, (n - 1) as nat);
    }
}

/// An entry of the log takes up some of its bytes.
pub proof fn lemma_entry_at_advances(b: Seq<u8>, pos: int)
    ensures
        entry_at(b, pos) matches Some((entry, next)) ==> pos < next <= b.len(),
{
    if entry_at(b, pos) is Some {
        let (removed, at) = encoding::u64_at(b, pos).unwrap();
        lemma_ids_from_advances(b, at, removed as nat);
        let (removals, middle) = ids_from(b, at, removed as nat).unwrap();
        let (added, behind) = encoding::u64_at(b, middle).unwrap();
        lemma_infos_from_advances(b, behind, added as nat);
    }
}

/// What the entries from position `pos` of the log on make of a table of contents, or `None` where
/// they cannot be read.
pub open spec fn replay_from(toc: TocState, b: Seq<u8>, pos: int) -> Option<TocState>
    decreases b.len() - pos,
{
    if pos == b.len() {
        Some(toc)
    } else {
        proof {
            lemma_entry_at_advances(b, pos);
        }
        match entry_at(b, pos) {
            Some((entry, next)) => replay_from(toc::after_entry(toc, entry), b, next),
            None => None,
        }
    }
}

/// The table of contents that the log amounts to, or `None` where it cannot be read.
pub open spec fn replay(log: Seq<u8>) -> Option<TocState> {
    replay_from(toc::empty_toc(), log, 0)
}

proof fn lemma_ids_from(b: Seq<u8>, pos: int, ids: Seq<TableId>)
    requires
        encoding::holds(b, pos, ids_bytes(ids)),
    ensures
        ids_from(b, pos, ids.len()) == Some((ids, pos + ids_bytes(ids).len())),
    decreases ids.len(),
{
    if ids.len() > 0 {
        let front = ids_bytes(ids.drop_last());
        encoding::lemma_holds_split(b, pos, front, encoding::u64_bytes(ids.last()));
        lemma_ids_from(b, pos, ids.drop_last());
        encoding::lemma_u64_at(b, pos + front.len(), ids.last());
        assert(ids.drop_last().push(ids.last()) =~= ids);
    } else {
        assert(ids =~= Seq::<TableId>::empty());
    }
}

/// The keys of the table are short enough for their lengths to be written.
pub open spec fn info_fits(info: InfoView) -> bool {
    &&& utf8::encode_utf8(info.smallest_key).len() <= u64::MAX
    &&& utf8::encode_utf8(info.biggest_key).len() <= u64::MAX
}

proof fn lemma_info_at(b: Seq<u8>, pos: int, info: InfoView)
    requires
        encoding::holds(b, pos, info_bytes(info)),
        info_fits(info),
    ensures
        info_at(b, pos) == Some((info, pos + info_bytes(info).len())),
{
    let f = encoding::str_bytes(info.biggest_key);
    let e = encoding::str_bytes(info.smallest_key);
    let d = encoding::u64_bytes(info.file_size);
    let c = encoding::u64_bytes(info.keys_offset);
    let a = encoding::u64_bytes(info.level);
    encoding::lemma_holds_split(b, pos, encoding::u64_bytes(info.id), a + (c + (d + (e + f))));
    encoding::lemma_u64_at(b, pos, info.id);
    encoding::lemma_holds_split(b, pos + 8, a, c + (d + (e + f)));
    encoding::lemma_u64_at(b, pos + 8, info.level);
    encoding::lemma_holds_split(b, pos + 16, c, d + (e + f));
    encoding::lemma_u64_at(b, pos + 16, info.keys_offset);
    encoding::lemma_holds_split(b, pos + 24, d, e + f);
    encoding::lemma_u64_at(b, pos + 24, info.file_size);
    encoding::lemma_holds_split(b, pos + 32, e, f);
    encoding::lemma_str_at(b, pos + 32, info.smallest_key);
    encoding::lemma_str_at(b, pos + 32 + e.len(), info.biggest_key);
}

proof fn lemma_infos_from(b: Seq<u8>, pos: int, infos: Seq<InfoView>)
    requires
        encoding::holds(b, pos, infos_bytes(infos)),
        forall|i: int| 0 <= i < infos.len() ==> info_fits(#[trigger] infos[i]),
    ensures
        infos_from(b, pos, infos.len()) == Some((infos, pos + infos_bytes(infos).len())),
    decreases infos.len(),
{
    if infos.len() > 0 {
        let front = infos_bytes(infos.drop_last());
        encoding::lemma_holds_split(b, pos, front, info_bytes(infos.last()));
        lemma_infos_from(b, pos, infos.drop_last());
        lemma_info_at(b, pos + front.len(), infos.last());
        assert(infos.drop_last().push(infos.last()) =~= infos);
    } else {
        assert(infos =~= Seq::<InfoView>::empty());
    }
}

/// The entry can be written and read back.
pub open spec fn entry_fits(entry: EntryView) -> bool {
    &&& entry.removals.len() <= u64::MAX
    &&& entry.additions.len() <= u64::MAX
    &&& forall|i: int| 0 <= i < entry.additions.len() ==> info_fits(#[trigger] entry.additions[i])
    &&& toc::ids_bounded(entry.additions)
}

proof fn lemma_entry_at(b: Seq<u8>, pos: int, entry: EntryView)
    requires
        encoding::holds(b, pos, entry_bytes(entry)),
        entry_fits(entry),
    ensures
        entry_at(b, pos) == Some((entry, pos + entry_bytes(entry).len())),
{
    let removed = entry.removals.len() as u64;
    let added = entry.additions.len() as u64;
    let d = infos_bytes(entry.additions);
    let c = encoding::u64_bytes(added);
    let a = ids_bytes(entry.removals);
    encoding::lemma_holds_split(b, pos, encoding::u64_bytes(removed), a + (c + d));
    encoding::lemma_u64_at(b, pos, removed);
    encoding::lemma_holds_split(b, pos + 8, a, c + d);
    lemma_ids_from(b, pos + 8, entry.removals);
    encoding::lemma_holds_split(b, pos + 8 + a.len(), c, d);
    encoding::lemma_u64_at(b, pos + 8 + a.len(), added);
    lemma_infos_from(b, pos + 16 + a.len(), entry.additions);
}

proof fn lemma_ids_from_extend(b: Seq<u8>, more: Seq<u8>, pos: int, n: nat)
    requires
        ids_from(b, pos, n) is Some,
    ensures
        ids_from(b + more, pos, n) == ids_from(b, pos, n),
    decreases n,
{
    if n > 0 {
        lemma_ids_from_extend(b, more, pos, (n - 1) as nat);
        encoding::lemma_u64_extend(b, more, ids_from(b, pos, (n - 1) as nat).unwrap().1);
    }
}

proof fn lemma_info_extend(b: Seq<u8>, more: Seq<u8>, pos: int)
    requires
        info_at(b, pos) is Some,
    ensures
        info_at(b + more, pos) == info_at(b, pos),
{
    encoding::lemma_u64_extend(b, more, pos);
    encoding::lemma_u64_extend(b, more, pos + 8);
    encoding::lemma_u64_extend(b, more, pos + 16);
    encoding::lemma_u64_extend(b, more, pos + 24);
    encoding::lemma_str_extend(b, more, pos + 32);
    encoding::lemma_str_extend(b, more, encoding::str_at(b, pos + 32).unwrap().1);
}

proof fn lemma_infos_from_extend(b: Seq<u8>, more: Seq<u8>, pos: int, n: nat)
    requires
        infos_from(b, pos, n) is Some,
    ensures
        infos_from(b + more, pos, n) == infos_from(b, pos, n),
    decreases n,
{
    if n > 0 {
        lemma_infos_from_extend(b, more, pos, (n - 1) as nat);
        lemma_info_extend(b, more, infos_from(b, pos, (n - 1) as nat).unwrap().1);
    }
}

proof fn lemma_entry_extend(b: Seq<u8>, more: Seq<u8>, pos: int)
    requires
        entry_at(b, pos) is Some,
    ensures
        entry_at(b + more, pos) == entry_at(b, pos),
{
    let (removed, at) = encoding::u64_at(b, pos).unwrap();
    encoding::lemma_u64_extend(b, more, pos);
    lemma_ids_from_extend(b, more, at, removed as nat);
    let (removals, middle) = ids_from(b, at, removed as nat).unwrap();
    encoding::lemma_u64_extend(b, more, middle);
    let (added, behind) = encoding::u64_at(b, middle).unwrap();
    lemma_infos_from_extend(b, more, behind, added as nat);
}

proof fn lemma_replay_from_append(toc: TocState, b: Seq<u8>, pos: int, entry: EntryView)
    requires
        0 <= pos <= b.len(),
        replay_from(toc, b, pos) is Some,
        entry_fits(entry),
    ensures
        replay_from(toc, b + entry_bytes(entry), pos) == Some(
            toc::after_entry(replay_from(toc, b, pos).unwrap(), entry),
        ),
    decreases b.len() - pos,
{
    let more = entry_bytes(entry);
    let all = b + more;
    if pos == b.len() {
        assert(all.subrange(pos, pos + more.len()) =~= more);
        lemma_entry_at(all, pos, entry);
        let done = toc::after_entry(toc, entry);
        assert(replay_from(done, all, all.len() as int) == Some(done));
    } else {
        let (found, next) = entry_at(b, pos).unwrap();
        lemma_entry_at_advances(b, pos);
        lemma_entry_extend(b, more, pos);
        lemma_replay_from_append(toc::after_entry(toc, found), b, next, entry);
    }
}

/// Appending an entry to the log has on what the log amounts to the effect of the entry.
pub proof fn lemma_replay_append(log: Seq<u8>, entry: EntryView)
    requires
        replay(log) is Some,
        entry_fits(entry),
    ensures
        replay(log + entry_bytes(entry)) == Some(toc::after_entry(replay(log).unwrap(), entry)),
{
    lemma_replay_from_append(toc::empty_toc(), log, 0, entry);
}

proof fn lemma_replay_tail(toc: TocState, b: Seq<u8>, pos: int, tail: Seq<u8>)
    requires
        0 <= pos <= b.len(),
        replay_from(toc, b, pos) is Some,
        0 < tail.len() < 8,
    ensures
        replay_from(toc, b + tail, pos) is None,
    decreases b.len() - pos,
{
    if pos < b.len() {
        let (found, next) = entry_at(b, pos).unwrap();
        lemma_entry_at_advances(b, pos);
        lemma_entry_extend(b, tail, pos);
        lemma_replay_tail(toc::after_entry(toc, found), b, next, tail);
    }
}

/// A log that ends in the midst of a number cannot be read, however much of it can.
pub proof fn law_incomplete_log_is_refused(log: Seq<u8>, tail: Seq<u8>)
    requires
        replay(log) is Some,
        0 < tail.len() < 8,
    ensures
        replay(log + tail) is None,
{
    lemma_replay_tail(toc::empty_toc(), log, 0, tail);
}

/// Appends the bytes of an entry to the log.
pub fn write_entry(log: &mut Vec<u8>, entry: &Entry)
    ensures
        final(log)@ == old(log)@ + entry_bytes(entry@),
        toc::ids_bounded(entry@.additions) ==> entry_fits(entry@),
{
    let ghost start = log@;
    let ghost removals = entry@.removals;
    let ghost adds = entry@.additions;
    let removed: usize = entry.removals.len();
    let added: usize = entry.additions.len();
    encoding::write_u64(log, removed as u64);
    let ghost first = encoding::u64_bytes(removed as u64);
    let mut i: usize = 0;
    assert(removals.take(0) =~= Seq::<TableId>::empty());
    assert(log@ =~= start + first + ids_bytes(removals.take(0)));
    while i < removed
        invariant
            removed == entry.removals.len(),
            removals == entry.removals@,
            i <= removed,
            log@ == start + first + ids_bytes(removals.take(i as int)),
        decreases removed - i,
    {
        encoding::write_u64(log, entry.removals[i]);
        proof {
            let more = removals.take(i + 1);
            assert(more.drop_last() =~= removals.take(i as int));
            assert(log@ =~= start + first + ids_bytes(more));
        }
        i += 1;
    }
    assert(removals.take(i as int) =~= removals);
    encoding::write_u64(log, added as u64);
    let ghost second = encoding::u64_bytes(added as u64);
    let ghost base = start + first + ids_bytes(removals) + second;
    let mut j: usize = 0;
    assert(adds.take(0) =~= Seq::<InfoView>::empty());
    assert(log@ =~= base + infos_bytes(adds.take(0)));
    while j < added
        invariant
            added == entry.additions.len(),
            adds == toc::info_views(entry.additions@),
            j <= added,
            log@ == base + infos_bytes(adds.take(j as int)),
            forall|n: int| 0 <= n < j ==> info_fits(#[trigger] adds[n]),
        decreases added - j,
    {
        let info: &TableInfo = &entry.additions[j];
        let ghost before = log@;
        encoding::write_u64(log, info.id);
        encoding::write_u64(log, info.level);
        encoding::write_u64(log, info.keys_offset);
        encoding::write_u64(log, info.file_size);
        encoding::write_str(log, info.smallest_key.as_str());
        encoding::write_str(log, info.biggest_key.as_str());
        proof {
            assert(adds[j as int] == info@);
            assert(log@ =~= before + info_bytes(info@));
            let more = adds.take(j + 1);
            assert(more.drop_last() =~= adds.take(j as int));
            assert(log@ =~= base + infos_bytes(more));
        }
        j += 1;
    }
    proof {
        assert(adds.take(j as int) =~= adds);
        assert(log@ =~= start + entry_bytes(entry@));
    }
}

proof fn lemma_ids_from_stuck(b: Seq<u8>, pos: int, n: nat, m: nat)
    requires
        n <= m,
        ids_from(b, pos, n) is None,
    ensures
        ids_from(b, pos, m) is None,
    decreases m,
{
    if n < m {
        lemma_ids_from_stuck(b, pos, n, (m - 1) as nat);
    }
}

proof fn lemma_infos_from_stuck(b: Seq<u8>, pos: int, n: nat, m: nat)
    requires
        n <= m,
        infos_from(b, pos, n) is None,
    ensures
        infos_from(b, pos, m) is None,
    decreases m,
{
    if n < m {
        lemma_infos_from_stuck(b, pos, n, (m - 1) as nat);
    }
}

/// Reads `n` numbers.
fn read_ids(b: &Vec<u8>, pos: usize, n: u64) -> (read: Option<(Vec<TableId>, usize)>)
    ensures
        match read {
            Some((ids, next)) => ids_from(b@, pos as int, n as nat) == Some((ids@, next as int)),
            None => ids_from(b@, pos as int, n as nat) is None,
        },
{
    let mut ids: Vec<TableId> = Vec::new();
    let mut at: usize = pos;
    let mut i: u64 = 0;
    while i < n
        invariant
            i <= n,
            ids_from(b@, pos as int, i as nat) == Some((ids@, at as int)),
        decreases n - i,
    {
        match encoding::read_u64(b.as_slice(), at) {
            Some((id, next)) => {
                ids.push(id);
                at = next;
            },
            None => {
                proof {
                    lemma_ids_from_stuck(b@, pos as int, (i + 1) as nat, n as nat);
                }
                return None;
            },
        }
        i += 1;
    }
    Some((ids, at))
}

/// Reads what is recorded of a table.
fn read_info(b: &Vec<u8>, pos: usize) -> (read: Option<(TableInfo, usize)>)
    ensures
        match read {
            Some((info, next)) => info_at(b@, pos as int) == Some((info@, next as int)),
            None => info_at(b@, pos as int) is None,
        },
{
    match encoding::read_u64(b.as_slice(), pos) {
        Some((id, p1)) => match encoding::read_u64(b.as_slice(), p1) {
            Some((level, p2)) => match encoding::read_u64(b.as_slice(), p2) {
                Some((keys_offset, p3)) => match encoding::read_u64(b.as_slice(), p3) {
                    Some((file_size, p4)) => match encoding::read_str(b.as_slice(), p4) {
                        Some((smallest_key, p5)) => match encoding::read_str(b.as_slice(), p5) {
                            Some((biggest_key, next)) => Some(
                                (TableInfo { id, level, keys_offset, file_size, smallest_key, biggest_key }, next),
                            ),
                            None => None,
                        },
                        None => None,
                    },
                    None => None,
                },
                None => None,
            },
            None => None,
        },
        None => None,
    }
}

/// Reads what is recorded of `n` tables.
fn read_infos(b: &Vec<u8>, pos: usize, n: u64) -> (read: Option<(Vec<TableInfo>, usize)>)
    ensures
        match read {
            Some((infos, next)) => infos_from(b@, pos as int, n as nat) == Some((toc::info_views(infos@), next as int)),
            None => infos_from(b@, pos as int, n as nat) is None,
        },
{
    let mut infos: Vec<TableInfo> = Vec::new();
    let mut at: usize = pos;
    let mut i: u64 = 0;
    assert(toc::info_views(infos@) =~= Seq::<InfoView>::empty());
    while i < n
        invariant
            i <= n,
            infos_from(b@, pos as int, i as nat) == Some((toc::info_views(infos@), at as int)),
        decreases n - i,
    {
        let ghost before = toc::info_views(infos@);
        match read_info(b, at) {
            Some((info, next)) => {
                infos.push(info);
                at = next;
                assert(toc::info_views(infos@) =~= before.push(info@));
            },
            None => {
                proof {
                    lemma_infos_from_stuck(b@, pos as int, (i + 1) as nat, n as nat);
                }
                return None;
            },
        }
        i += 1;
    }
    Some((infos, at))
}

/// Whether the added tables leave room for the number of the next one.
fn has_room(infos: &Vec<TableInfo>) -> (yes: bool)
    ensures
        yes == toc::ids_bounded(toc::info_views(infos@)),
{
    let ghost v = toc::info_views(infos@);
    let mut i: usize = 0;
    while i < infos.len()
        invariant
            i <= infos.len(),
            v == toc::info_views(infos@),
            forall|j: int| 0 <= j < i ==> (#[trigger] v[j]).id < u64::MAX,
        decreases infos.len() - i,
    {
        assert(v[i as int] == infos[i as int]@);
        if infos[i].id == u64::MAX {
            return false;
        }
        i += 1;
    }
    true
}

/// Reads an entry of the log.
fn read_entry(b: &Vec<u8>, pos: usize) -> (read: Option<(Entry, usize)>)
    ensures
        match read {
            Some((entry, next)) => entry_at(b@, pos as int) == Some((entry@, next as int)),
            None => entry_at(b@, pos as int) is None,
        },
{
    match encoding::read_u64(b.as_slice(), pos) {
        Some((removed, at)) => match read_ids(b, at, removed) {
            Some((removals, middle)) => match encoding::read_u64(b.as_slice(), middle) {
                Some((added, behind)) => match read_infos(b, behind, added) {
                    Some((additions, next)) => {
                        if has_room(&additions) {
                            Some((Entry { removals, additions }, next))
                        } else {
                            None
                        }
                    },
                    None => None,
                },
                None => None,
            },
            None => None,
        },
        None => None,
    }
}

/// Reads the table of contents from its log.
pub fn read_toc(log: &Vec<u8>) -> (read: Result<TOC, Error>)
    ensures
        match replay(log@) {
            Some(state) => read matches Ok(toc) && toc.wf() && toc@ == state,
            None => read matches Err(e) && e == Error::CorruptToc,
        },
{
    let mut toc: TOC = TOC::new();
    let mut pos: usize = 0;
    while pos < log.len()
        invariant
            pos <= log.len(),
            toc.wf(),
            replay_from(toc@, log@, pos as int) == replay(log@),
        decreases log.len() - pos,
    {
        proof {
            lemma_entry_at_advances(log@, pos as int);
        }
        match read_entry(log, pos) {
            Some((entry, next)) => {
                toc.apply(&entry);
                pos = next;
            },
            None => {
                return Err(Error::CorruptToc);
            },
        }
    }
    Ok(toc)
}

} // verus!
