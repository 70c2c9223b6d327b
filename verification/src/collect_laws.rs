//! What is gathered from a walk, and when it is handed on.
use vstd::prelude::*;

use crate::scanner::{
    advanced, batches_of, entered, entries_in, gathered_after, law_nothing_lost, left, place_of,
    FileEntry, Gathered, ScanStats,
};
use crate::tally::{
    bytes_in, dirs_in, entry_of, files_in, share, shares, shares_since, times, Record,
};
use crate::text::texts;
use crate::walk::{sizes_of, sum_of, totals_of, Effect, Totals};
use crate::walk_laws::{said, Said};

verus! {

/// Streamed entries are handed on in batches of a thousand, and fewer than that are held back.
pub proof fn law_batches_of_a_thousand(start: Gathered, effects: Seq<Effect>)
    requires
        start.streaming,
        start.buffer.len() < 1000,
    ensures
        forall|i: int|
            0 <= i < batches_of(start, effects).len() ==> (#[trigger] batches_of(
                start,
                effects,
            )[i]).len() == 1000,
        gathered_after(start, effects).buffer.len() < 1000,
        1000 * batches_of(start, effects).len() + gathered_after(start, effects).buffer.len()
            == start.buffer.len() + entries_in(effects).len(),
    decreases effects.len(),
{
    law_nothing_lost(start, effects);
    if effects.len() > 0 {
        let next = start.next(effects[0]);
        law_batches_of_a_thousand(next, effects.skip(1));
    }
}

/// An entry is handed on in a batch exactly when it is the thousandth that is held.
pub proof fn law_thousandth_fills(g: Gathered, e: FileEntry)
    ensures
        g.fills(Effect::Found(e)) <==> g.streaming && g.buffer.len() >= 999,
        g.next(Effect::Found(e)).buffer == if g.streaming && g.buffer.len() >= 999 {
            Seq::empty()
        } else {
            g.buffer.push(e)
        },
{
}

/// Nothing but an entry that is found changes what is held or counted, makes a batch or a report.
pub proof fn law_only_entries_count(g: Gathered, effect: Effect)
    requires
        !(effect is Found),
    ensures
        g.next(effect).buffer == g.buffer,
        g.next(effect).processed == g.processed,
        !g.fills(effect),
        !g.due(effect),
{
}

/// As many entries are counted as were found.
pub proof fn law_found_are_counted(start: Gathered, effects: Seq<Effect>)
    requires
        start.processed + entries_in(effects).len() <= u64::MAX,
    ensures
        gathered_after(start, effects).processed == start.processed + entries_in(effects).len(),
        gathered_after(start, effects).streaming == start.streaming,
        gathered_after(start, effects).reporting == start.reporting,
    decreases effects.len(),
{
    if effects.len() > 0 {
        law_found_are_counted(start.next(effects[0]), effects.skip(1));
    }
}

/// Progress is reported, where it is to be, with the first entry and with every hundredth after it.
pub proof fn law_report_every_hundred(start: Gathered, before: Seq<Effect>, e: FileEntry)
    requires
        start.processed == 0,
        entries_in(before).len() <= u64::MAX,
    ensures
        gathered_after(start, before).due(Effect::Found(e)) <==> start.reporting && entries_in(
            before,
        ).len() % 100 == 0,
{
    law_found_are_counted(start, before);
}

/// How many of the entries of a directory are done, and how many it has, where it is being scanned.
pub open spec fn progress_in(active: Seq<(String, usize, usize)>, dir: Seq<char>) -> Option<
    (usize, usize),
>
    decreases active.len(),
{
    if active.len() == 0 {
        None
    } else if active.last().0@ == dir {
        Some((active.last().1, active.last().2))
    } else {
        progress_in(active.drop_last(), dir)
    }
}

/// No directory is listed twice.
pub open spec fn listed_once(active: Seq<(String, usize, usize)>) -> bool {
    forall|i: int, j: int|
        0 <= i < j < active.len() ==> (#[trigger] active[i]).0@ != (#[trigger] active[j]).0@
}

proof fn lemma_progress_at(active: Seq<(String, usize, usize)>, dir: Seq<char>, k: int)
    requires
        listed_once(active),
        0 <= k < active.len(),
        active[k].0@ == dir,
    ensures
        progress_in(active, dir) == Some((active[k].1, active[k].2)),
    decreases active.len(),
{
    if k < active.len() - 1 {
        let rest = active.drop_last();
        assert forall|i: int, j: int| 0 <= i < j < rest.len() implies (#[trigger] rest[i]).0@ != (
        #[trigger] rest[j]).0@ by {
            assert(active[i].0@ != active[j].0@);
        }
        assert(active[k].0@ != active[active.len() - 1].0@);
        lemma_progress_at(rest, dir, k);
    }
}

proof fn lemma_no_progress(active: Seq<(String, usize, usize)>, dir: Seq<char>)
    requires
        forall|k: int| 0 <= k < active.len() ==> (#[trigger] active[k]).0@ != dir,
    ensures
        progress_in(active, dir) is None,
    decreases active.len(),
{
    if active.len() > 0 {
        assert(active[active.len() - 1].0@ != dir);
        let rest = active.drop_last();
        assert forall|k: int| 0 <= k < rest.len() implies (#[trigger] rest[k]).0@ != dir by {
            assert(active[k].0@ != dir);
        }
        lemma_no_progress(rest, dir);
    }
}

proof fn lemma_place(active: Seq<(String, usize, usize)>, path: Seq<char>)
    ensures
        place_of(active, path) <= active.len(),
        place_of(active, path) < active.len() ==> active[place_of(active, path) as int].0@ == path,
        forall|k: int| 0 <= k < place_of(active, path) ==> (#[trigger] active[k]).0@ != path,
    decreases active.len(),
{
    if active.len() > 0 && active[0].0@ != path {
        let rest = active.skip(1);
        lemma_place(rest, path);
        assert forall|k: int| 0 <= k < place_of(active, path) implies (#[trigger] active[k]).0@
            != path by {
            if k > 0 {
                assert(rest[k - 1].0@ != path);
            }
        }
    }
}

proof fn lemma_same_progress(
    a: Seq<(String, usize, usize)>,
    b: Seq<(String, usize, usize)>,
    dir: Seq<char>,
)
    requires
        listed_once(a),
        listed_once(b),
        forall|k: int|
            0 <= k < a.len() && (#[trigger] a[k]).0@ == dir ==> exists|m: int|
                0 <= m < b.len() && (#[trigger] b[m]).0@ == dir && b[m].1 == a[k].1 && b[m].2
                    == a[k].2,
        forall|m: int|
            0 <= m < b.len() && (#[trigger] b[m]).0@ == dir ==> exists|k: int|
                0 <= k < a.len() && (#[trigger] a[k]).0@ == dir,
    ensures
        progress_in(a, dir) == progress_in(b, dir),
{
    if exists|k: int| 0 <= k < a.len() && (#[trigger] a[k]).0@ == dir {
        let k = choose|k: int| 0 <= k < a.len() && (#[trigger] a[k]).0@ == dir;
        let m = choose|m: int|
            0 <= m < b.len() && (#[trigger] b[m]).0@ == dir && b[m].1 == a[k].1 && b[m].2 == a[k].2;
        lemma_progress_at(a, dir, k);
        lemma_progress_at(b, dir, m);
    } else {
        lemma_no_progress(a, dir);
        lemma_no_progress(b, dir);
    }
}

/// A directory that is entered is being scanned, with none of its entries done; every other one is
/// as far as it was.
pub proof fn law_entered_is_active(
    active: Seq<(String, usize, usize)>,
    path: String,
    total: usize,
    other: Seq<char>,
)
    requires
        listed_once(active),
        other != path@,
    ensures
        listed_once(entered(active, path, total)),
        progress_in(entered(active, path, total), path@) == Some((0usize, total)),
        progress_in(entered(active, path, total), other) == progress_in(active, other),
{
    lemma_place(active, path@);
    let k = place_of(active, path@) as int;
    let next = entered(active, path, total);
    assert forall|i: int, j: int| 0 <= i < j < next.len() implies (#[trigger] next[i]).0@ != (
    #[trigger] next[j]).0@ by {
        if j < active.len() {
            assert(active[i].0@ != active[j].0@);
        } else {
            assert(active[i].0@ != path@);
        }
    }
    lemma_progress_at(next, path@, k);
    assert forall|m: int| 0 <= m < active.len() && (#[trigger] active[m]).0@ == other implies exists|
        o: int,
    |
        0 <= o < next.len() && (#[trigger] next[o]).0@ == other && next[o].1 == active[m].1
            && next[o].2 == active[m].2 by {
        assert(next[m] == active[m]);
    }
    assert forall|o: int| 0 <= o < next.len() && (#[trigger] next[o]).0@ == other implies exists|
        m: int,
    | 0 <= m < active.len() && (#[trigger] active[m]).0@ == other by {
        assert(active[o].0@ == other);
    }
    lemma_same_progress(active, next, other);
}

/// A directory that is being scanned gets as far as is said; every other one is as far as it was,
/// and none comes to be scanned by that.
pub proof fn law_advanced_is_noted(
    active: Seq<(String, usize, usize)>,
    path: String,
    done: usize,
    other: Seq<char>,
)
    requires
        listed_once(active),
        other != path@,
    ensures
        listed_once(advanced(active, path, done)),
        progress_in(advanced(active, path, done), path@) == match progress_in(active, path@) {
            Some((_, total)) => Some((done, total)),
            None => None,
        },
        progress_in(advanced(active, path, done), other) == progress_in(active, other),
{
    lemma_place(active, path@);
    let k = place_of(active, path@) as int;
    let next = advanced(active, path, done);
    assert forall|i: int, j: int| 0 <= i < j < next.len() implies (#[trigger] next[i]).0@ != (
    #[trigger] next[j]).0@ by {
        assert(active[i].0@ != active[j].0@);
    }
    if k < active.len() {
        lemma_progress_at(next, path@, k);
        lemma_progress_at(active, path@, k);
    } else {
        lemma_no_progress(active, path@);
    }
    assert forall|m: int| 0 <= m < active.len() && (#[trigger] active[m]).0@ == other implies exists|
        o: int,
    |
        0 <= o < next.len() && (#[trigger] next[o]).0@ == other && next[o].1 == active[m].1
            && next[o].2 == active[m].2 by {
        assert(next[m] == active[m]);
    }
    assert forall|o: int| 0 <= o < next.len() && (#[trigger] next[o]).0@ == other implies exists|
        m: int,
    | 0 <= m < active.len() && (#[trigger] active[m]).0@ == other by {
        assert(active[o].0@ == other);
    }
    lemma_same_progress(active, next, other);
}

/// A directory that is left is not being scanned any more; every other one is as far as it was.
pub proof fn law_left_is_gone(
    active: Seq<(String, usize, usize)>,
    path: String,
    other: Seq<char>,
)
    requires
        listed_once(active),
        other != path@,
    ensures
        listed_once(left(active, path)),
        progress_in(left(active, path), path@) is None,
        progress_in(left(active, path), other) == progress_in(active, other),
{
    lemma_place(active, path@);
    let k = place_of(active, path@) as int;
    let next = left(active, path);
    if k < active.len() {
        assert forall|i: int| 0 <= i < next.len() implies (#[trigger] next[i]) == active[if i < k {
            i
        } else {
            i + 1
        }] by {}
        assert forall|i: int, j: int| 0 <= i < j < next.len() implies (#[trigger] next[i]).0@ != (
        #[trigger] next[j]).0@ by {
            let a = if i < k {
                i
            } else {
                i + 1
            };
            let b = if j < k {
                j
            } else {
                j + 1
            };
            assert(active[a].0@ != active[b].0@);
        }
        assert forall|i: int| 0 <= i < next.len() implies (#[trigger] next[i]).0@ != path@ by {
            if i < k {
                assert(active[i].0@ != path@);
            } else {
                assert(active[k].0@ != active[i + 1].0@);
            }
        }
    }
    lemma_no_progress(next, path@);
    assert forall|m: int| 0 <= m < active.len() && (#[trigger] active[m]).0@ == other implies exists|
        o: int,
    |
        0 <= o < next.len() && (#[trigger] next[o]).0@ == other && next[o].1 == active[m].1
            && next[o].2 == active[m].2 by {
        if k < active.len() && m > k {
            assert(next[m - 1] == active[m]);
        } else {
            assert(next[m] == active[m]);
        }
    }
    assert forall|o: int| 0 <= o < next.len() && (#[trigger] next[o]).0@ == other implies exists|
        m: int,
    | 0 <= m < active.len() && (#[trigger] active[m]).0@ == other by {
        if k < active.len() && o >= k {
            assert(active[o + 1].0@ == other);
        } else {
            assert(active[o].0@ == other);
        }
    }
    lemma_same_progress(active, next, other);
}

/// What a walk makes known of its directories reaches the report, and one more worker is busy from
/// where entries are handed out to where they are done.
pub proof fn law_effects_reach_the_report(g: Gathered, path: String, n: usize)
    ensures
        g.next(Effect::Entered { path, total: n }) == (Gathered {
            active: entered(g.active, path, n),
            ..g
        }),
        g.next(Effect::Advanced { path, done: n }) == (Gathered {
            active: advanced(g.active, path, n),
            ..g
        }),
        g.next(Effect::Left { path }) == (Gathered { active: left(g.active, path), ..g }),
        g.workers < usize::MAX ==> g.next(Effect::Forked).workers == g.workers + 1,
        g.workers > 0 ==> g.next(Effect::Joined).workers == g.workers - 1,
        g.next(Effect::Forked).next(Effect::Joined) == g,
{
}

/// The entry for a line of a directory walker's list says what that line says: path, name, kind,
/// time, depth, and the directory that it lies in, but for the root of the scan. A file has the
/// length that is listed, a directory the size that was added up for it.
pub proof fn law_record_makes_entry(r: Record, size: nat)
    requires
        size <= u64::MAX,
    ensures
        said(entry_of(r, size)) == (Said {
            path: r.path@,
            name: r.name@,
            parent: if r.depth > 0 && r.parent_path is Some {
                Some(r.parent_path->0@)
            } else {
                None
            },
            size: if r.is_dir {
                size
            } else {
                r.len as nat
            },
            is_dir: r.is_dir,
            changed: match r.modified_at {
                Some(t) => Some((t.secs, t.nanos)),
                None => None,
            },
            depth: r.depth as nat,
        }),
{
}

/// A record counts once: a file as one file with its length, whatever that is, and to each of the
/// directories above it; a directory as one directory, and to none.
pub proof fn law_record_counts_once(records: Seq<Record>, r: Record, key: Seq<char>)
    requires
        forall|i: int, j: int|
            0 <= i < j < r.ancestors@.len() ==> (#[trigger] r.ancestors@[i])@ != (
            #[trigger] r.ancestors@[j])@,
    ensures
        !r.is_dir ==> {
            &&& files_in(records.push(r)) == files_in(records) + 1
            &&& dirs_in(records.push(r)) == dirs_in(records)
            &&& bytes_in(records.push(r)) == bytes_in(records) + r.len
            &&& (exists|i: int| 0 <= i < r.ancestors@.len() && (#[trigger] r.ancestors@[i])@ == key)
                ==> shares(records.push(r), key) == shares(records, key) + r.len
            &&& (forall|i: int| 0 <= i < r.ancestors@.len() ==> (#[trigger] r.ancestors@[i])@ != key)
                ==> shares(records.push(r), key) == shares(records, key)
        },
        r.is_dir ==> {
            &&& files_in(records.push(r)) == files_in(records)
            &&& dirs_in(records.push(r)) == dirs_in(records) + 1
            &&& bytes_in(records.push(r)) == bytes_in(records)
            &&& shares(records.push(r), key) == shares(records, key)
        },
        files_in(Seq::empty()) == 0,
        dirs_in(Seq::empty()) == 0,
        bytes_in(Seq::empty()) == 0,
        shares(Seq::empty(), key) == 0,
{
    let all = records.push(r);
    assert(all.drop_last() =~= records);
    assert(all.last() == r);
    let above = texts(r.ancestors@);
    assert forall|i: int, j: int| 0 <= i < j < above.len() implies above[i] != above[j] by {
        assert(r.ancestors@[i]@ != r.ancestors@[j]@);
    }
    lemma_found_once(above, key);
    if exists|i: int| 0 <= i < r.ancestors@.len() && (#[trigger] r.ancestors@[i])@ == key {
        let i = choose|i: int| 0 <= i < r.ancestors@.len() && (#[trigger] r.ancestors@[i])@ == key;
        assert(above[i] == key);
        assert(above.contains(key));
        assert(r.len as nat * 1nat == r.len) by (nonlinear_arith);
    } else {
        assert(!above.contains(key));
        assert(r.len as nat * 0nat == 0) by (nonlinear_arith);
    }
}

/// What is counted to a directory starts from nothing again at its own record, and grows by the
/// length of every file below it after that.
pub proof fn law_directory_starts_anew(records: Seq<Record>, r: Record, key: Seq<char>)
    requires
        forall|i: int, j: int|
            0 <= i < j < r.ancestors@.len() ==> (#[trigger] r.ancestors@[i])@ != (
            #[trigger] r.ancestors@[j])@,
    ensures
        r.is_dir && r.key@ == key ==> shares_since(records.push(r), key) == 0,
        r.is_dir && r.key@ != key ==> shares_since(records.push(r), key) == shares_since(
            records,
            key,
        ),
        !r.is_dir && (exists|i: int|
            0 <= i < r.ancestors@.len() && (#[trigger] r.ancestors@[i])@ == key) ==> shares_since(
            records.push(r),
            key,
        ) == shares_since(records, key) + r.len,
        !r.is_dir && (forall|i: int|
            0 <= i < r.ancestors@.len() ==> (#[trigger] r.ancestors@[i])@ != key) ==> shares_since(
            records.push(r),
            key,
        ) == shares_since(records, key),
        shares_since(Seq::empty(), key) == 0,
{
    law_record_counts_once(records, r, key);
    assert(records.push(r).drop_last() =~= records);
    assert(shares(records.push(r), key) == shares(records, key) + share(r, key));
}

proof fn lemma_found_once(keys: Seq<Seq<char>>, key: Seq<char>)
    requires
        forall|i: int, j: int| 0 <= i < j < keys.len() ==> keys[i] != keys[j],
    ensures
        times(keys, key) == if keys.contains(key) {
            1nat
        } else {
            0
        },
    decreases keys.len(),
{
    if keys.len() > 0 {
        let rest = keys.drop_last();
        lemma_found_once(rest, key);
        if keys.contains(key) {
            let i = choose|i: int| 0 <= i < keys.len() && keys[i] == key;
            if i < rest.len() {
                assert(rest[i] == key);
                assert(keys[i] != keys[keys.len() - 1]);
            } else {
                assert(!rest.contains(key));
            }
        }
        if rest.contains(key) {
            let i = choose|i: int| 0 <= i < rest.len() && rest[i] == key;
            assert(keys[i] == key);
        }
        if keys.last() == key {
            assert(keys[keys.len() - 1] == key);
        }
    }
}

/// What walks come to together is the sum of what each comes to, in every count.
pub proof fn law_walks_add_up(parts: Seq<(u64, ScanStats)>, size: u64, stats: ScanStats)
    ensures
        ({
            let before = totals_of(parts);
            let after = totals_of(parts.push((size, stats)));
            &&& after.size == before.size + stats.total_size
            &&& after.files == before.files + stats.total_files
            &&& after.dirs == before.dirs + stats.total_dirs
        }),
        sizes_of(parts.push((size, stats))) == sizes_of(parts).push(size),
        sum_of(sizes_of(parts).push(size)) == sum_of(sizes_of(parts)) + size,
        totals_of(Seq::empty()) == (Totals { size: 0, files: 0, dirs: 0 }),
        sum_of(Seq::empty()) == 0,
{
    let all = parts.push((size, stats));
    assert(all.drop_last() =~= parts);
    assert(sizes_of(all) =~= sizes_of(parts).push(size));
    assert(sizes_of(parts).push(size).drop_last() =~= sizes_of(parts));
}

} // verus!
