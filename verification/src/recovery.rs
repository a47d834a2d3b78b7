//! Reopening: what reading the files of a data directory gives back of the
//! store that wrote them.

use vstd::prelude::*;
use crate::codec::encoding;
use crate::codec::lemma_encoding_starts;
use crate::codec::lemma_reads_in_place;
use crate::codec::lemma_skip_blank_bounds;
use crate::codec::next_step;
use crate::codec::lemma_reads_first;
use crate::codec::reads_back;
use crate::codec::reads_first;
use crate::codec::skip_blank;
use crate::codec::Step;
use crate::common::Record;
use crate::index::CommandPos;
use crate::index::ascending;
use crate::index::has_key;
use crate::index::lemma_listed;
use crate::index::lemma_offset_monotonic;
use crate::index::lemma_relocated;
use crate::index::lemma_slot;
use crate::index::map_of;
use crate::index::offset_of;
use crate::index::ordered;
use crate::index::relocated;
use crate::index::slot_of;
use crate::index::Entries;
use crate::model::can_compact;
use crate::model::compacted_world;
use crate::model::holds;
use crate::model::laid_out;
use crate::model::lemma_compacted;
use crate::model::lemma_laid_out_len;
use crate::model::live_lens;
use crate::errors::Fault;
use crate::laws::can_perform;
use crate::laws::get_of;
use crate::laws::perform;
use crate::laws::run;
use crate::laws::runs;
use crate::laws::law_write;
use crate::model::after_write;
use crate::model::can_write;
use crate::store::compaction_due;
use crate::store::StoreState;
use crate::writer::KvWriter;
use crate::model::appended;
use crate::model::bytes_at;
use crate::model::has_room;
use crate::model::lemma_appended;
use crate::model::record_of;
use crate::model::sound;
use crate::model::swept;
use crate::model::Disk;
use crate::model::World;
use crate::store::opened;
use crate::store::replay_all;
use crate::store::KvStore;
use crate::errors::KvsError;
use crate::store::replay_from;
use crate::store::Replayed;
use crate::writer::apply_record;
use crate::writer::dead_bytes;

verus! {

/// The bytes of the records `recs`, one behind the other.
pub open spec fn flat(recs: Seq<Record>) -> Seq<u8>
    decreases recs.len(),
{
    if recs.len() == 0 {
        Seq::empty()
    } else {
        flat(recs.drop_last()) + encoding(recs.last())
    }
}

/// The index after the records `recs` of the segment `file_no` were brought
/// into the index `start`, each at the place where it lies in the segment.
pub open spec fn log_index(recs: Seq<Record>, file_no: u64, start: Map<Seq<char>, CommandPos>) -> Map<
    Seq<char>,
    CommandPos,
>
    decreases recs.len(),
{
    if recs.len() == 0 {
        start
    } else {
        let head = recs.drop_last();
        apply_record(
            log_index(head, file_no, start),
            recs.last(),
            CommandPos {
                file_no,
                start: flat(head).len() as u64,
                len: encoding(recs.last()).len() as u64,
            },
        )
    }
}

/// The bytes of two rows of records, one behind the other, are the bytes
/// of the one row behind the bytes of the other.
pub proof fn lemma_flat_add(a: Seq<Record>, b: Seq<Record>)
    ensures
        flat(a + b) == flat(a) + flat(b),
    decreases b.len(),
{
    if b.len() == 0 {
        assert(a + b =~= a);
        assert(flat(a) + flat(b) =~= flat(a));
    } else {
        lemma_flat_add(a, b.drop_last());
        assert((a + b).drop_last() =~= a + b.drop_last());
        assert((a + b).last() == b.last());
        assert(flat(a + b) =~= flat(a) + flat(b));
    }
}

/// The bytes of a row of records are those of the records before the
/// `j`-th, of the `j`-th, and of the records behind it.
pub proof fn lemma_flat_split(recs: Seq<Record>, j: int)
    requires
        0 <= j < recs.len(),
    ensures
        flat(recs) == flat(recs.take(j)) + encoding(recs[j]) + flat(recs.skip(j + 1)),
        flat(recs.take(j + 1)) == flat(recs.take(j)) + encoding(recs[j]),
        flat(recs).len() == flat(recs.take(j)).len() + encoding(recs[j]).len() + flat(
            recs.skip(j + 1),
        ).len(),
{
    assert(recs.take(j + 1).drop_last() =~= recs.take(j));
    assert(recs.take(j + 1).last() == recs[j]);
    assert(recs =~= recs.take(j + 1) + recs.skip(j + 1));
    lemma_flat_add(recs.take(j + 1), recs.skip(j + 1));
}

/// Reading the bytes of a row of records that the codec reads back finds
/// every record at its place: from the `j`-th record on, and so from the
/// first, the reader ends with the index that the records give.
pub proof fn lemma_replay_log(
    recs: Seq<Record>,
    file_no: u64,
    j: int,
    start: Map<Seq<char>, CommandPos>,
    dead: int,
)
    requires
        0 <= j <= recs.len(),
        forall|i: int| 0 <= i < recs.len() ==> reads_first(#[trigger] recs[i]),
        flat(recs).len() <= u64::MAX,
    ensures
        replay_from(
            flat(recs),
            file_no,
            flat(recs.take(j)).len() as int,
            log_index(recs.take(j), file_no, start),
            dead,
        ).index == log_index(recs, file_no, start),
        replay_from(
            flat(recs),
            file_no,
            flat(recs.take(j)).len() as int,
            log_index(recs.take(j), file_no, start),
            dead,
        ).intact,
    decreases recs.len() - j,
{
    let bytes = flat(recs);
    let pos = flat(recs.take(j)).len() as int;
    let index = log_index(recs.take(j), file_no, start);
    if j == recs.len() {
        assert(recs.take(j) =~= recs);
        lemma_skip_blank_bounds(bytes, pos);
    } else {
        let rec = recs[j];
        lemma_flat_split(recs, j);
        lemma_reads_in_place(flat(recs.take(j)), rec, flat(recs.skip(j + 1)));
        let end = pos + encoding(rec).len();
        assert(next_step(bytes, pos) == Step::Item(rec, end));
        lemma_encoding_starts(rec);
        let at = CommandPos { file_no, start: pos as u64, len: (end - pos) as u64 };
        assert(recs.take(j + 1).drop_last() =~= recs.take(j));
        assert(recs.take(j + 1).last() == rec);
        assert(log_index(recs.take(j + 1), file_no, start) == apply_record(index, rec, at));
        lemma_replay_log(recs, file_no, j + 1, start, dead + dead_bytes(index, rec, end - pos));
    }
}

/// What reading the segments of `disk` with the numbers from `lo` up to,
/// but without, `hi` gives, in the ascending order of their numbers.
/// Reading stops at the first segment that is damaged.
pub open spec fn replay_files(disk: Disk, lo: int, hi: int) -> Replayed
    decreases hi - lo,
{
    if hi <= lo {
        Replayed { index: Map::empty(), dead: 0, intact: true }
    } else {
        let before = replay_files(disk, lo, hi - 1);
        if before.intact && 0 <= hi - 1 <= u64::MAX && disk.contains_key((hi - 1) as u64) {
            replay_from(disk[(hi - 1) as u64], (hi - 1) as u64, 0, before.index, before.dead)
        } else {
            before
        }
    }
}

/// Reading depends on the segments that are read only.
pub proof fn lemma_replay_files_same(a: Disk, b: Disk, lo: int, hi: int)
    requires
        forall|f: u64|
            lo <= f < hi ==> (#[trigger] a.contains_key(f) == b.contains_key(f)) && (a.contains_key(
                f,
            ) ==> a[f] == b[f]),
    ensures
        replay_files(a, lo, hi) == replay_files(b, lo, hi),
    decreases hi - lo,
{
    if hi > lo {
        lemma_replay_files_same(a, b, lo, hi - 1);
        if 0 <= hi - 1 <= u64::MAX {
            let f = (hi - 1) as u64;
            assert(a.contains_key(f) == b.contains_key(f));
        }
    }
}

/// Numbers without a segment are passed over.
pub proof fn lemma_replay_files_skip(disk: Disk, lo: int, mid: int, hi: int)
    requires
        lo <= mid <= hi,
        forall|f: u64| lo <= f < mid ==> !#[trigger] disk.contains_key(f),
    ensures
        replay_files(disk, lo, hi) == replay_files(disk, mid, hi),
    decreases hi - lo,
{
    if hi > mid {
        lemma_replay_files_skip(disk, lo, mid, hi - 1);
    } else if hi > lo {
        lemma_replay_files_skip(disk, lo, hi - 1, hi - 1);
        if 0 <= hi - 1 <= u64::MAX {
            assert(!disk.contains_key((hi - 1) as u64));
        }
    }
}

/// Whether `segs` are the segments of `disk`, each once, in the ascending
/// order of their numbers: what a data directory hands to `open`.
pub open spec fn lists(segs: Seq<(u64, Seq<u8>)>, disk: Disk) -> bool {
    &&& forall|i: int, j: int| 0 <= i < j < segs.len() ==> segs[i].0 < segs[j].0
    &&& forall|i: int|
        0 <= i < segs.len() ==> disk.contains_key(#[trigger] segs[i].0) && disk[segs[i].0]
            == segs[i].1
    &&& forall|f: u64| #[trigger]
        disk.contains_key(f) ==> exists|i: int| 0 <= i < segs.len() && #[trigger] segs[i].0 == f
}

/// Reading the listed segments one after the other is reading the
/// segments of the disk in the order of their numbers.
pub proof fn lemma_replay_listed(segs: Seq<(u64, Seq<u8>)>, disk: Disk, n: int, hi: int)
    requires
        lists(segs, disk),
        0 <= n <= segs.len(),
        0 <= hi <= u64::MAX + 1,
        n > 0 ==> segs[n - 1].0 < hi,
        n < segs.len() ==> hi <= segs[n].0,
    ensures
        replay_all(segs, n) == replay_files(disk, 0, hi),
    decreases hi,
{
    if hi > 0 {
        let f = (hi - 1) as u64;
        if disk.contains_key(f) {
            let i = choose|i: int| 0 <= i < segs.len() && #[trigger] segs[i].0 == f;
            if i >= n {
                if i > n {
                    assert(segs[n].0 < segs[i].0);
                }
            }
            if i < n - 1 {
                assert(segs[i].0 < segs[n - 1].0);
            }
            assert(i == n - 1);
            if n - 1 > 0 {
                assert(segs[n - 2].0 < segs[n - 1].0);
            }
            lemma_replay_listed(segs, disk, n - 1, hi - 1);
        } else {
            if n > 0 {
                assert(disk.contains_key(segs[n - 1].0));
            }
            lemma_replay_listed(segs, disk, n, hi - 1);
        }
    } else {
        assert(n == 0);
    }
}

/// What was written to a data directory: for each segment the records it
/// holds, and for each live key its value.
pub struct Journal {
    pub logs: Map<u64, Seq<Record>>,
    pub values: Map<Seq<char>, Seq<char>>,
}

/// Whether reading the segments from `lo` on finds every byte in a record
/// and gives the index of the store.
pub open spec fn replays_to(w: World, lo: int) -> bool {
    let r = replay_files(w.disk, lo, w.store.writer.current_file_no + 1);
    r.intact && r.index == w.store.index
}

/// Whether the store can be got back from its files: the world is sound;
/// every segment holds the bytes of records that the codec reads back, one
/// behind the other, as the journal tells them; the record of every live
/// key is a `Set` of that key, with the value that the journal tells; and
/// reading the segments gives the index of the store, from the first
/// segment on as well as from the safe point on.
pub open spec fn recoverable(w: World, j: Journal) -> bool {
    &&& sound(w)
    &&& forall|f: u64| #[trigger]
        w.disk.contains_key(f) ==> {
            &&& j.logs.contains_key(f)
            &&& w.disk[f] == flat(j.logs[f])
            &&& w.disk[f].len() <= u64::MAX
            &&& forall|i: int| 0 <= i < j.logs[f].len() ==> reads_first(#[trigger] j.logs[f][i])
        }
    &&& forall|k: Seq<char>| #[trigger]
        w.store.index.contains_key(k) ==> {
            &&& j.values.contains_key(k)
            &&& bytes_at(w.disk, w.store.index[k]) == encoding(Record::Put(k, j.values[k]))
            &&& reads_first(Record::Put(k, j.values[k]))
        }
    &&& replays_to(w, 0)
    &&& replays_to(w, w.store.safe_point as int)
}

/// The journal after the record was appended to the active segment.
pub open spec fn journal_appended(w: World, j: Journal, rec: Record) -> Journal {
    let active = w.store.writer.current_file_no;
    Journal {
        logs: j.logs.insert(active, j.logs[active].push(rec)),
        values: match rec {
            Record::Put(k, v) => j.values.insert(k, v),
            Record::Rm(k) => j.values.remove(k),
            Record::Get(_) => j.values,
        },
    }
}

/// Reading the world after a record was appended gives the index after
/// that record.
proof fn lemma_appended_replays(w: World, j: Journal, rec: Record, lo: int)
    requires
        recoverable(w, j),
        has_room(w, rec),
        reads_first(rec),
        0 <= lo <= w.store.writer.current_file_no,
        replays_to(w, lo),
    ensures
        replays_to(appended(w, rec), lo),
{
    let a = appended(w, rec);
    let active = w.store.writer.current_file_no;
    let log = j.logs[active];
    let log2 = log.push(rec);
    assert(w.disk.contains_key(active));
    let before = replay_files(w.disk, lo, active as int);
    lemma_replay_files_same(w.disk, a.disk, lo, active as int);
    assert(replay_files(a.disk, lo, active as int) == before);
    assert(before.intact);
    lemma_replay_log(log, active, 0, before.index, before.dead);
    assert(log.take(0) =~= Seq::<Record>::empty());
    assert(log2.take(0) =~= Seq::<Record>::empty());
    assert(log2.drop_last() =~= log);
    assert(flat(log2) == flat(log) + encoding(rec));
    assert(a.disk[active] == flat(log2));
    assert forall|i: int| 0 <= i < log2.len() implies reads_first(#[trigger] log2[i]) by {
        if i < log.len() {
            assert(log2[i] == log[i]);
        }
    }
    lemma_replay_log(log2, active, 0, before.index, before.dead);
    lemma_appended(w, rec);
}

/// A store that can be got back from its files can still be got back
/// after a record that the codec reads back was appended.
pub proof fn lemma_appended_recoverable(w: World, j: Journal, rec: Record)
    requires
        recoverable(w, j),
        has_room(w, rec),
        reads_first(rec),
        !(rec is Get),
    ensures
        recoverable(appended(w, rec), journal_appended(w, j, rec)),
{
    let a = appended(w, rec);
    let j2 = journal_appended(w, j, rec);
    let active = w.store.writer.current_file_no;
    let log = j.logs[active];
    let log2 = log.push(rec);
    lemma_appended(w, rec);
    lemma_appended_replays(w, j, rec, 0);
    lemma_appended_replays(w, j, rec, w.store.safe_point as int);
    assert(w.disk.contains_key(active));
    assert(log2.drop_last() =~= log);
    assert forall|f: u64| #[trigger] a.disk.contains_key(f) implies j2.logs.contains_key(f)
        && a.disk[f] == flat(j2.logs[f]) && a.disk[f].len() <= u64::MAX && (forall|i: int|
        0 <= i < j2.logs[f].len() ==> reads_first(#[trigger] j2.logs[f][i])) by {
        if f == active {
            assert forall|i: int| 0 <= i < log2.len() implies reads_first(#[trigger] log2[i]) by {
                if i < log.len() {
                    assert(log2[i] == log[i]);
                }
            }
        } else {
            assert(w.disk.contains_key(f));
        }
    }
    assert forall|k: Seq<char>| #[trigger] a.store.index.contains_key(k) implies j2.values.contains_key(
        k,
    ) && bytes_at(a.disk, a.store.index[k]) == encoding(Record::Put(k, j2.values[k]))
        && reads_first(Record::Put(k, j2.values[k])) by {
        if k == rec.key() {
            assert(record_of(a, k) == Some(encoding(rec)));
        } else {
            assert(record_of(a, k) == record_of(w, k));
            assert(w.store.index.contains_key(k));
        }
    }
}

/// A store that can be got back from its files can still be got back
/// after the files below the safe point were removed.
pub proof fn law_sweep_recoverable(w: World, j: Journal)
    requires
        recoverable(w, j),
    ensures
        recoverable(swept(w), j),
{
    let sw = swept(w);
    let sp = w.store.safe_point as int;
    let hi = w.store.writer.current_file_no + 1;
    crate::laws::law_sweep(w);
    lemma_replay_files_same(w.disk, sw.disk, sp, hi);
    lemma_replay_files_skip(sw.disk, 0, sp, hi);
    assert forall|k: Seq<char>| #[trigger] sw.store.index.contains_key(k) implies j.values.contains_key(
        k,
    ) && bytes_at(sw.disk, sw.store.index[k]) == encoding(Record::Put(k, j.values[k]))
        && reads_first(Record::Put(k, j.values[k])) by {
        assert(w.store.index.contains_key(k));
        assert(record_of(sw, k) == record_of(w, k));
    }
    assert forall|f: u64| #[trigger] sw.disk.contains_key(f) implies j.logs.contains_key(f)
        && sw.disk[f] == flat(j.logs[f]) && sw.disk[f].len() <= u64::MAX && (forall|i: int|
        0 <= i < j.logs[f].len() ==> reads_first(#[trigger] j.logs[f][i])) by {
        assert(w.disk.contains_key(f));
    }
}

/// The records that a compaction writes: a `Set` for each entry, with the
/// value that the journal tells for its key.
pub open spec fn copies(s: Entries, values: Map<Seq<char>, Seq<char>>) -> Seq<Record> {
    Seq::new(s.len(), |i: int| Record::Put(s[i].0, values[s[i].0]))
}

/// The journal after a compaction.
pub open spec fn journal_compacted(w: World, j: Journal) -> Journal {
    Journal {
        logs: j.logs.insert(
            (w.store.writer.current_file_no + 1) as u64,
            copies(ordered(w.store.index), j.values),
        ).insert((w.store.writer.current_file_no + 2) as u64, Seq::empty()),
        values: j.values,
    }
}

/// The mapping `x` with the entries `t` laid over it.
pub open spec fn overlay(x: Map<Seq<char>, CommandPos>, t: Entries) -> Map<Seq<char>, CommandPos> {
    Map::new(
        |k: Seq<char>| x.contains_key(k) || has_key(t, k),
        |k: Seq<char>|
            if has_key(t, k) {
                t[slot_of(t, k)].1
            } else {
                x[k]
            },
    )
}

/// Laying one more entry over a mapping sets its key.
proof fn lemma_overlay_push(x: Map<Seq<char>, CommandPos>, u: Entries)
    requires
        ascending(u),
        u.len() > 0,
    ensures
        overlay(x, u) == overlay(x, u.drop_last()).insert(u.last().0, u.last().1),
{
    let h = u.drop_last();
    let n = u.len() - 1;
    assert forall|a: int, b: int| 0 <= a < b < h.len() implies crate::text::key_lt(
        #[trigger] h[a].0,
        #[trigger] h[b].0,
    ) by {
        assert(crate::text::key_lt(u[a].0, u[b].0));
    }
    lemma_slot(u, n);
    assert forall|q: Seq<char>| has_key(u, q) <==> (has_key(h, q) || q == u[n].0) by {
        if has_key(u, q) {
            let i = slot_of(u, q);
            if i < n {
                assert(h[i] == u[i]);
            }
        }
        if has_key(h, q) {
            let i = slot_of(h, q);
            assert(u[i] == h[i]);
        }
    }
    assert forall|q: Seq<char>| has_key(h, q) && q != u[n].0 implies u[slot_of(u, q)].1 == h[slot_of(
        h,
        q,
    )].1 by {
        let i = slot_of(h, q);
        assert(u[i] == h[i]);
        lemma_slot(u, i);
        lemma_slot(h, i);
    }
    assert(overlay(x, u) =~= overlay(x, h).insert(u[n].0, u[n].1));
}

/// Entries laid over a mapping that has no other keys hide it.
proof fn lemma_overlay_all(x: Map<Seq<char>, CommandPos>, t: Entries)
    requires
        forall|k: Seq<char>| x.contains_key(k) ==> has_key(t, k),
    ensures
        overlay(x, t) == map_of(t),
{
    assert(overlay(x, t) =~= map_of(t));
}

/// What a compaction writes is what the journal tells: the first `m`
/// records laid end to end are the bytes of the first `m` copies, and the
/// index that the copies give is the old one with the moved entries laid
/// over it.
proof fn lemma_copies(w: World, j: Journal, x: Map<Seq<char>, CommandPos>, m: int)
    requires
        recoverable(w, j),
        can_compact(w),
        0 <= m <= ordered(w.store.index).len(),
    ensures
        laid_out(w.disk, ordered(w.store.index), m) == flat(
            copies(ordered(w.store.index), j.values).take(m),
        ),
        flat(copies(ordered(w.store.index), j.values).take(m)).len() == offset_of(
            live_lens(ordered(w.store.index)),
            m,
        ),
        log_index(
            copies(ordered(w.store.index), j.values).take(m),
            (w.store.writer.current_file_no + 1) as u64,
            x,
        ) == overlay(
            x,
            relocated(
                ordered(w.store.index),
                (w.store.writer.current_file_no + 1) as u64,
                live_lens(ordered(w.store.index)),
            ).take(m),
        ),
    decreases m,
{
    let s = ordered(w.store.index);
    let n = s.len() as int;
    let lens = live_lens(s);
    let c = (w.store.writer.current_file_no + 1) as u64;
    let all = copies(s, j.values);
    let t = relocated(s, c, lens);
    lemma_listed(w.store.index);
    lemma_relocated(s, c, lens);
    assert forall|i: int| 0 <= i < n implies holds(w.disk, #[trigger] s[i].1) by {
        lemma_slot(s, i);
        assert(w.store.index.contains_key(s[i].0));
    }
    lemma_laid_out_len(w.disk, s, m);
    if m == 0 {
        assert(all.take(0) =~= Seq::<Record>::empty());
        assert(t.take(0) =~= Seq::<(Seq<char>, CommandPos)>::empty());
        assert(overlay(x, t.take(0)) =~= x);
    } else {
        lemma_copies(w, j, x, m - 1);
        let k = s[m - 1].0;
        lemma_slot(s, m - 1);
        assert(w.store.index.contains_key(k));
        assert(w.store.index[k] == s[m - 1].1);
        assert(holds(w.disk, s[m - 1].1));
        let rec = all[m - 1];
        assert(rec == Record::Put(k, j.values[k]));
        assert(bytes_at(w.disk, s[m - 1].1) == encoding(rec));
        assert(all.take(m).drop_last() =~= all.take(m - 1));
        assert(all.take(m).last() == rec);
        assert(encoding(rec).len() == s[m - 1].1.len);
        assert(lens[m - 1] == s[m - 1].1.len);
        lemma_offset_monotonic(lens, m - 1, n);
        lemma_offset_monotonic(lens, 0, m - 1);
        let u = t.take(m);
        assert forall|a: int, b: int| 0 <= a < b < u.len() implies crate::text::key_lt(
            #[trigger] u[a].0,
            #[trigger] u[b].0,
        ) by {
            assert(crate::text::key_lt(t[a].0, t[b].0));
        }
        assert(u.drop_last() =~= t.take(m - 1));
        assert(u.last() == t[m - 1]);
        lemma_overlay_push(x, u);
        let at = CommandPos {
            file_no: c,
            start: flat(all.take(m - 1)).len() as u64,
            len: encoding(rec).len() as u64,
        };
        assert(at == t[m - 1].1);
        assert(log_index(all.take(m), c, x) == apply_record(
            log_index(all.take(m - 1), c, x),
            rec,
            at,
        ));
    }
}

/// Reading the world after a compaction, from the segment `lo` on, gives
/// the index of the store, where reading the world before it gave a
/// mapping `x` that holds no key but the live ones.
proof fn lemma_compacted_replays(w: World, j: Journal, lo: int, x: Map<Seq<char>, CommandPos>)
    requires
        recoverable(w, j),
        can_compact(w),
        0 <= lo <= w.store.writer.current_file_no + 1,
        replay_files(w.disk, lo, w.store.writer.current_file_no + 1).intact,
        replay_files(w.disk, lo, w.store.writer.current_file_no + 1).index == x,
        forall|k: Seq<char>| x.contains_key(k) ==> w.store.index.contains_key(k),
    ensures
        replay_files(compacted_world(w).disk, lo, w.store.writer.current_file_no + 3).intact,
        replay_files(compacted_world(w).disk, lo, w.store.writer.current_file_no + 3).index
            == compacted_world(w).store.index,
{
    let cw = compacted_world(w);
    let s = ordered(w.store.index);
    let n = s.len() as int;
    let lens = live_lens(s);
    let a = w.store.writer.current_file_no as int;
    let c = (a + 1) as u64;
    let a2 = (a + 2) as u64;
    let all = copies(s, j.values);
    let t = relocated(s, c, lens);
    lemma_listed(w.store.index);
    lemma_compacted(w);
    lemma_copies(w, j, x, n);
    assert(all.take(n) =~= all);
    assert(t.take(n) =~= t);
    assert(all.take(0) =~= Seq::<Record>::empty());
    assert(cw.disk[c] == flat(all));
    assert(!w.disk.contains_key(c));
    assert(!w.disk.contains_key(a2));
    lemma_replay_files_same(w.disk, cw.disk, lo, a + 1);
    let before = replay_files(cw.disk, lo, a + 1);
    assert forall|i: int| 0 <= i < all.len() implies reads_first(#[trigger] all[i]) by {
        lemma_slot(s, i);
        assert(w.store.index.contains_key(s[i].0));
    }
    lemma_replay_log(all, c, 0, x, before.dead);
    assert forall|k: Seq<char>| x.contains_key(k) implies has_key(t, k) by {
        assert(w.store.index.contains_key(k));
        assert(has_key(s, k));
        let i = slot_of(s, k);
        assert(t[i].0 == k);
    }
    lemma_overlay_all(x, t);
    let mid = replay_files(cw.disk, lo, a + 2);
    assert(cw.disk.contains_key(c));
    assert(mid == replay_from(cw.disk[c], c, 0, before.index, before.dead));
    assert(mid.intact && mid.index == map_of(t));
    assert(cw.disk.contains_key(a2));
    assert(cw.disk[a2] =~= Seq::<u8>::empty());
    assert(skip_blank(cw.disk[a2], 0) == 0);
    let end = replay_files(cw.disk, lo, a + 3);
    assert(end == replay_from(cw.disk[a2], a2, 0, mid.index, mid.dead));
}

/// A store that can be got back from its files can still be got back
/// after a compaction.
pub proof fn lemma_compacted_recoverable(w: World, j: Journal)
    requires
        recoverable(w, j),
        can_compact(w),
    ensures
        recoverable(compacted_world(w), journal_compacted(w, j)),
{
    let cw = compacted_world(w);
    let j2 = journal_compacted(w, j);
    let s = ordered(w.store.index);
    let n = s.len() as int;
    let lens = live_lens(s);
    let a = w.store.writer.current_file_no as int;
    let c = (a + 1) as u64;
    let a2 = (a + 2) as u64;
    let all = copies(s, j.values);
    lemma_listed(w.store.index);
    lemma_compacted(w);
    lemma_copies(w, j, w.store.index, n);
    assert(all.take(n) =~= all);
    lemma_compacted_replays(w, j, 0, w.store.index);
    lemma_replay_files_skip(w.disk, a + 1, a + 1, a + 1);
    assert(replay_files(w.disk, a + 1, a + 1).index =~= Map::<Seq<char>, CommandPos>::empty());
    lemma_compacted_replays(w, j, a + 1, replay_files(w.disk, a + 1, a + 1).index);
    assert forall|f: u64| #[trigger] cw.disk.contains_key(f) implies j2.logs.contains_key(f)
        && cw.disk[f] == flat(j2.logs[f]) && cw.disk[f].len() <= u64::MAX && (forall|i: int|
        0 <= i < j2.logs[f].len() ==> reads_first(#[trigger] j2.logs[f][i])) by {
        if f == c {
            assert forall|i: int| 0 <= i < all.len() implies reads_first(#[trigger] all[i]) by {
                lemma_slot(s, i);
                assert(w.store.index.contains_key(s[i].0));
            }
        } else if f == a2 {
            assert(cw.disk[a2] =~= flat(Seq::<Record>::empty()));
        } else {
            assert(w.disk.contains_key(f));
        }
    }
    assert forall|k: Seq<char>| #[trigger] cw.store.index.contains_key(k) implies j2.values.contains_key(
        k,
    ) && bytes_at(cw.disk, cw.store.index[k]) == encoding(Record::Put(k, j2.values[k]))
        && reads_first(Record::Put(k, j2.values[k])) by {
        assert(w.store.index.dom().contains(k));
        assert(w.store.index.contains_key(k));
        assert(record_of(cw, k) == record_of(w, k));
    }
}

/// The journal after a record was written: it was appended, and the log
/// was compacted where that was due.
pub open spec fn journal_written(w: World, j: Journal, rec: Record) -> Journal {
    let j1 = journal_appended(w, j, rec);
    if compaction_due(appended(w, rec).store) {
        journal_compacted(appended(w, rec), j1)
    } else {
        j1
    }
}

/// The world of a store that was opened on an empty directory: no key is
/// live, and the only segment is the active one, which is empty.
pub open spec fn fresh_world(threshold: u64) -> World {
    World {
        store: StoreState {
            index: Map::empty(),
            writer: KvWriter {
                current_file_no: 1,
                uncompacted_bytes: 0,
                threshold,
                compacting: false,
            },
            safe_point: 0,
        },
        disk: Map::empty().insert(1u64, Seq::empty()),
    }
}

/// The journal of an empty directory.
pub open spec fn fresh_journal() -> Journal {
    Journal { logs: Map::empty().insert(1u64, Seq::empty()), values: Map::empty() }
}

/// A store that is opened on an empty directory can be got back from its
/// files.
pub proof fn law_fresh_recoverable(threshold: u64)
    ensures
        recoverable(fresh_world(threshold), fresh_journal()),
{
    let w = fresh_world(threshold);
    crate::index::lemma_listable_empty();
    let nothing = Seq::<u8>::empty();
    assert(w.disk[1u64] =~= flat(Seq::<Record>::empty()));
    assert(skip_blank(nothing, 0) == 0);
    assert(!w.disk.contains_key(0u64));
    assert(replay_files(w.disk, 0, 0).intact);
    assert(replay_files(w.disk, 0, 1) == replay_files(w.disk, 0, 0));
    assert(replay_files(w.disk, 0, 2) == replay_from(
        nothing,
        1u64,
        0,
        Map::empty(),
        0,
    ));
}

/// Whatever is written, the store can be got back from its files: a store
/// that can be got back can still be got back after a `Set` or an `Rm`
/// that the codec reads back was written, with or without the compaction
/// that it set off.
pub proof fn law_write_recoverable(w: World, j: Journal, rec: Record)
    requires
        recoverable(w, j),
        can_write(w, rec),
        reads_back(rec),
        !(rec is Get),
    ensures
        recoverable(after_write(w, rec), journal_written(w, j, rec)),
{
    lemma_reads_first(rec);
    lemma_appended_recoverable(w, j, rec);
    if compaction_due(appended(w, rec).store) {
        lemma_compacted_recoverable(appended(w, rec), journal_appended(w, j, rec));
    }
}

/// The journal after one operation of the engine.
pub open spec fn journal_performed(w: World, j: Journal, op: Record) -> Journal {
    if perform(w, op) == w {
        j
    } else {
        journal_written(w, j, op)
    }
}

/// The journal after the operations `ops`, one after the other.
pub open spec fn journal_after(w: World, j: Journal, ops: Seq<Record>) -> Journal
    decreases ops.len(),
{
    if ops.len() == 0 {
        j
    } else {
        journal_performed(
            run(w, ops.drop_last()),
            journal_after(w, j, ops.drop_last()),
            ops.last(),
        )
    }
}

/// At all times the store can be got back from its files: a store that
/// can be got back can still be got back after any operations whose
/// records the codec reads back.
pub proof fn law_run_recoverable(w: World, j: Journal, ops: Seq<Record>)
    requires
        recoverable(w, j),
        runs(w, ops),
        forall|i: int| 0 <= i < ops.len() ==> reads_back(#[trigger] ops[i]),
    ensures
        recoverable(run(w, ops), journal_after(w, j, ops)),
    decreases ops.len(),
{
    if ops.len() > 0 {
        let head = ops.drop_last();
        let op = ops.last();
        assert forall|i: int| 0 <= i < head.len() implies reads_back(#[trigger] head[i]) by {
            assert(head[i] == ops[i]);
        }
        law_run_recoverable(w, j, head);
        let before = run(w, head);
        let jb = journal_after(w, j, head);
        assert(reads_back(ops[ops.len() - 1]));
        if perform(before, op) != before {
            assert(!(op is Get));
            assert(can_perform(before, op));
            law_write_recoverable(before, jb, op);
        }
    }
}

/// Closing and reopening changes nothing. Where the store can be got back
/// from its files, opening a store on the segments of its directory finds
/// every segment intact and gives the index that the store had: every key
/// is live that was, at the position it had, so that every `get` gives
/// what it gave.
pub proof fn law_reopen(w: World, j: Journal, segs: Seq<(u64, Seq<u8>)>)
    requires
        recoverable(w, j),
        lists(segs, w.disk),
    ensures
        replay_all(segs, segs.len() as int).intact,
        replay_all(segs, segs.len() as int).index == w.store.index,
        forall|k: Seq<char>| #[trigger]
            get_of(
                World {
                    store: StoreState {
                        index: replay_all(segs, segs.len() as int).index,
                        ..w.store
                    },
                    disk: w.disk,
                },
                k,
            ) == get_of(w, k),
{
    let n = segs.len() as int;
    let hi = w.store.writer.current_file_no + 1;
    if n > 0 {
        assert(w.disk.contains_key(segs[n - 1].0));
    }
    lemma_replay_listed(segs, w.disk, n, hi);
    let again = World {
        store: StoreState { index: replay_all(segs, n).index, ..w.store },
        disk: w.disk,
    };
    assert(again.store == w.store);
}

/// A value that was set is there after reopening. After a `Set` of a key
/// and a value that the codec reads back, opening a store on the segments
/// of the directory gives an index in which the key is live, and a `get` of
/// the key gives the value.
pub proof fn law_set_survives_reopen(
    w: World,
    j: Journal,
    k: Seq<char>,
    v: Seq<char>,
    segs: Seq<(u64, Seq<u8>)>,
)
    requires
        recoverable(w, j),
        can_write(w, Record::Put(k, v)),
        reads_back(Record::Put(k, v)),
        lists(segs, after_write(w, Record::Put(k, v)).disk),
    ensures
        replay_all(segs, segs.len() as int).intact,
        replay_all(segs, segs.len() as int).index.contains_key(k),
        get_of(
            World {
                store: StoreState {
                    index: replay_all(segs, segs.len() as int).index,
                    ..after_write(w, Record::Put(k, v)).store
                },
                disk: after_write(w, Record::Put(k, v)).disk,
            },
            k,
        ) == Ok::<Option<Seq<char>>, Fault>(Some(v)),
{
    let rec = Record::Put(k, v);
    let after = after_write(w, rec);
    law_write_recoverable(w, j, rec);
    law_write(w, rec);
    law_reopen(after, journal_written(w, j, rec), segs);
    assert(get_of(after, k) == Ok::<Option<Seq<char>>, Fault>(Some(v)));
}

/// A key that was removed is gone after reopening. After an `Rm` of a live
/// key, opening a store on the segments of the directory gives an index in
/// which the key is not live, and a `get` of the key gives nothing.
pub proof fn law_remove_survives_reopen(
    w: World,
    j: Journal,
    k: Seq<char>,
    segs: Seq<(u64, Seq<u8>)>,
)
    requires
        recoverable(w, j),
        w.store.index.contains_key(k),
        can_write(w, Record::Rm(k)),
        reads_back(Record::Rm(k)),
        lists(segs, after_write(w, Record::Rm(k)).disk),
    ensures
        replay_all(segs, segs.len() as int).intact,
        !replay_all(segs, segs.len() as int).index.contains_key(k),
        get_of(
            World {
                store: StoreState {
                    index: replay_all(segs, segs.len() as int).index,
                    ..after_write(w, Record::Rm(k)).store
                },
                disk: after_write(w, Record::Rm(k)).disk,
            },
            k,
        ) == Ok::<Option<Seq<char>>, Fault>(None),
{
    let rec = Record::Rm(k);
    let after = after_write(w, rec);
    law_write_recoverable(w, j, rec);
    law_write(w, rec);
    law_reopen(after, journal_written(w, j, rec), segs);
}

/// Opening an empty directory succeeds and gives a store without keys,
/// whose active segment is the first.
pub proof fn law_open_empty(threshold: u64, r: Result<KvStore, KvsError>)
    requires
        opened(Seq::empty(), threshold, r),
    ensures
        r matches Ok(store) && store@ == fresh_world(threshold).store,
{
    let segs = Seq::<(u64, Seq<u8>)>::empty();
    assert(replay_all(segs, 0).intact);
    assert(replay_all(segs, 0).index =~= Map::<Seq<char>, CommandPos>::empty());
}

} // verus!
