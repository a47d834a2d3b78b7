//! The store together with its files: a model of the data directory, and
//! what the operations of the engine keep true of it.
//!
//! The store does not touch files. Whoever holds it appends the bytes of a
//! record to the active segment and then calls `KvStore::write`; for a
//! compaction it copies the live records into a new segment and then calls
//! `KvStore::compaction`. Here the files are mappings from segment numbers
//! to bytes, these steps are functions on a `World`, and the laws of the
//! engine are proved of them.

use vstd::prelude::*;
use crate::codec::encoding;
use crate::common::Record;
use crate::index::lemma_listable_insert;
use crate::index::lemma_listable_remove;
use crate::index::lemma_listed;
use crate::index::lemma_offset_monotonic;
use crate::index::lemma_relocated;
use crate::index::lemma_slot;
use crate::index::listable;
use crate::index::map_of;
use crate::index::offset_of;
use crate::index::ordered;
use crate::index::relocated;
use crate::index::slot_of;
use crate::index::has_key;
use crate::index::CommandPos;
use crate::index::Entries;
use crate::store::compacted;
use crate::store::compaction_due;
use crate::store::rotated;
use crate::store::written;
use crate::store::StoreState;
use crate::writer::apply_record;

verus! {

/// The files of a data directory: the bytes of each segment.
pub type Disk = Map<u64, Seq<u8>>;

/// A store and the files it describes.
pub struct World {
    pub store: StoreState,
    pub disk: Disk,
}

/// Whether the bytes that `pos` speaks of are on the disk.
pub open spec fn holds(disk: Disk, pos: CommandPos) -> bool {
    disk.contains_key(pos.file_no) && pos.start + pos.len <= disk[pos.file_no].len()
}

/// The bytes that `pos` speaks of.
pub open spec fn bytes_at(disk: Disk, pos: CommandPos) -> Seq<u8> {
    disk[pos.file_no].subrange(pos.start as int, pos.start + pos.len)
}

/// The bytes of the record of the key `k`; `None` where the key is not
/// live. These are the bytes that a `get` of the key reads.
pub open spec fn record_of(w: World, k: Seq<char>) -> Option<Seq<u8>> {
    if w.store.index.contains_key(k) {
        Some(bytes_at(w.disk, w.store.index[k]))
    } else {
        None
    }
}

/// Whether the store and its files fit together: the index can be listed;
/// every entry points at bytes that are on the disk, in a segment that is
/// neither retired nor numbered above the active one; the active segment
/// exists, is no longer than an offset can tell, and no segment has a
/// larger number.
pub open spec fn sound(w: World) -> bool {
    let active = w.store.writer.current_file_no;
    &&& listable(w.store.index)
    &&& forall|k: Seq<char>| #[trigger]
        w.store.index.contains_key(k) ==> {
            &&& holds(w.disk, w.store.index[k])
            &&& w.store.safe_point <= w.store.index[k].file_no <= active
        }
    &&& w.disk.contains_key(active)
    &&& w.disk[active].len() <= u64::MAX
    &&& forall|f: u64| #[trigger] w.disk.contains_key(f) ==> f <= active
    &&& w.store.safe_point <= active
}

/// Whether the active segment has room for the record.
pub open spec fn has_room(w: World, rec: Record) -> bool {
    w.disk[w.store.writer.current_file_no].len() + encoding(rec).len() <= u64::MAX
}

/// The world after the bytes of `rec` were appended to the active segment
/// and the store was told so.
pub open spec fn appended(w: World, rec: Record) -> World {
    let active = w.store.writer.current_file_no;
    let pos = w.disk[active].len();
    World {
        store: written(w.store, rec, pos as u64, (pos + encoding(rec).len()) as u64),
        disk: w.disk.insert(active, w.disk[active] + encoding(rec)),
    }
}

/// The lengths of the live records, in the order of their keys.
pub open spec fn live_lens(s: Entries) -> Seq<u64> {
    s.map_values(|e: (Seq<char>, CommandPos)| e.1.len)
}

/// The bytes of the first `n` records of `s`, laid end to end.
pub open spec fn laid_out(disk: Disk, s: Entries, n: int) -> Seq<u8>
    decreases n,
{
    if n <= 0 {
        Seq::empty()
    } else {
        laid_out(disk, s, n - 1) + bytes_at(disk, s[n - 1].1)
    }
}

/// Whether a compaction can be carried out: two segment numbers are left,
/// and the live records together are no longer than an offset can tell.
pub open spec fn can_compact(w: World) -> bool {
    let lens = live_lens(ordered(w.store.index));
    &&& w.store.writer.current_file_no + 2 <= u64::MAX
    &&& offset_of(lens, lens.len() as int) <= u64::MAX
}

/// The world after a compaction: the live records lie end to end in the
/// segment behind the old active one, the segment after that is the new,
/// empty active segment, and the store points at the copies.
pub open spec fn compacted_world(w: World) -> World {
    let s = ordered(w.store.index);
    let compaction_no = (w.store.writer.current_file_no + 1) as u64;
    let active = (w.store.writer.current_file_no + 2) as u64;
    World {
        store: compacted(rotated(w.store), compaction_no, live_lens(s)),
        disk: w.disk.insert(compaction_no, laid_out(w.disk, s, s.len() as int)).insert(
            active,
            Seq::empty(),
        ),
    }
}

/// The world after the files below the safe point were removed, as every
/// reader does before it reads.
pub open spec fn swept(w: World) -> World {
    World { store: w.store, disk: w.disk.restrict(Set::new(|f: u64| f >= w.store.safe_point)) }
}

/// The world after a record was written: its bytes are appended, and the
/// log is compacted where that is due.
pub open spec fn after_write(w: World, rec: Record) -> World {
    let w1 = appended(w, rec);
    if compaction_due(w1.store) {
        compacted_world(w1)
    } else {
        w1
    }
}

/// Whether writing the record succeeds: the active segment has room for
/// it, and the compaction that it may set off can be carried out.
pub open spec fn can_write(w: World, rec: Record) -> bool {
    &&& has_room(w, rec)
    &&& compaction_due(appended(w, rec).store) ==> can_compact(appended(w, rec))
}

/// Appending a record keeps the world sound. The record of the key that
/// was set is the bytes appended; a key that was removed has no record; the
/// records of all other keys are what they were.
pub proof fn lemma_appended(w: World, rec: Record)
    requires
        sound(w),
        has_room(w, rec),
    ensures
        sound(appended(w, rec)),
        appended(w, rec).store.index == apply_record(
            w.store.index,
            rec,
            CommandPos {
                file_no: w.store.writer.current_file_no,
                start: w.disk[w.store.writer.current_file_no].len() as u64,
                len: encoding(rec).len() as u64,
            },
        ),
        rec matches Record::Put(k, _) ==> record_of(appended(w, rec), k) == Some(encoding(rec)),
        rec matches Record::Rm(k) ==> record_of(appended(w, rec), k) is None,
        forall|q: Seq<char>|
            (rec is Get || q != rec.key()) ==> #[trigger] record_of(appended(w, rec), q)
                == record_of(w, q),
{
    let a = appended(w, rec);
    let active = w.store.writer.current_file_no;
    let old_len = w.disk[active].len() as int;
    let bytes = encoding(rec);
    let at = CommandPos { file_no: active, start: old_len as u64, len: bytes.len() as u64 };
    assert(a.store.index == apply_record(w.store.index, rec, at));
    match rec {
        Record::Put(k, _) => {
            lemma_listable_insert(w.store.index, k, at);
        },
        Record::Rm(k) => {
            lemma_listable_remove(w.store.index, k);
        },
        Record::Get(_) => {},
    }
    assert forall|q: Seq<char>| #[trigger] a.store.index.contains_key(q) implies holds(
        a.disk,
        a.store.index[q],
    ) && a.store.safe_point <= a.store.index[q].file_no <= active by {
        if rec is Put && q == rec.key() {
        } else {
            assert(w.store.index.contains_key(q));
        }
    }
    assert forall|f: u64| #[trigger] a.disk.contains_key(f) implies f <= active by {
        if f != active {
            assert(w.disk.contains_key(f));
        }
    }
    assert forall|q: Seq<char>| (rec is Get || q != rec.key()) implies #[trigger] record_of(a, q)
        == record_of(w, q) by {
        if w.store.index.contains_key(q) {
            let p = w.store.index[q];
            assert(holds(w.disk, p));
            assert(a.store.index.contains_key(q) && a.store.index[q] == p);
            if p.file_no == active {
                assert(bytes_at(a.disk, p) =~= bytes_at(w.disk, p));
            }
        }
    }
    if rec is Put {
        assert(bytes_at(a.disk, at) =~= bytes);
    }
}

/// Records that are laid end to end are as long together as their lengths
/// add up to, and each is found at the offset of its place.
pub proof fn lemma_laid_out(disk: Disk, s: Entries, n: int, i: int)
    requires
        0 <= i < n <= s.len(),
        forall|j: int| 0 <= j < n ==> holds(disk, #[trigger] s[j].1),
    ensures
        laid_out(disk, s, n).len() == offset_of(live_lens(s), n),
        offset_of(live_lens(s), i) + s[i].1.len == offset_of(live_lens(s), i + 1),
        offset_of(live_lens(s), i + 1) <= offset_of(live_lens(s), n),
        laid_out(disk, s, n).subrange(
            offset_of(live_lens(s), i),
            offset_of(live_lens(s), i) + s[i].1.len,
        ) == bytes_at(disk, s[i].1),
    decreases n,
{
    let lens = live_lens(s);
    lemma_laid_out_len(disk, s, n);
    lemma_laid_out_len(disk, s, n - 1);
    lemma_offset_monotonic(lens, i + 1, n);
    assert(holds(disk, s[n - 1].1));
    let piece = bytes_at(disk, s[n - 1].1);
    assert(lens[i] == s[i].1.len);
    assert(offset_of(lens, i + 1) == offset_of(lens, i) + lens[i]);
    lemma_offset_monotonic(lens, 0, i);
    assert(laid_out(disk, s, n) == laid_out(disk, s, n - 1) + piece);
    if i == n - 1 {
        assert(laid_out(disk, s, n).subrange(offset_of(lens, i), offset_of(lens, i) + s[i].1.len)
            =~= piece);
    } else {
        lemma_laid_out(disk, s, n - 1, i);
        lemma_offset_monotonic(lens, i + 1, n - 1);
        assert(laid_out(disk, s, n).subrange(offset_of(lens, i), offset_of(lens, i) + s[i].1.len)
            =~= laid_out(disk, s, n - 1).subrange(
            offset_of(lens, i),
            offset_of(lens, i) + s[i].1.len,
        ));
    }
}

/// Records that are laid end to end are as long together as their lengths
/// add up to.
pub proof fn lemma_laid_out_len(disk: Disk, s: Entries, n: int)
    requires
        0 <= n <= s.len(),
        forall|j: int| 0 <= j < n ==> holds(disk, #[trigger] s[j].1),
    ensures
        laid_out(disk, s, n).len() == offset_of(live_lens(s), n),
    decreases n,
{
    if n > 0 {
        lemma_laid_out_len(disk, s, n - 1);
        assert(holds(disk, s[n - 1].1));
    }
}

/// A compaction keeps the world sound and keeps the record of every key.
/// After it no byte is counted as dead, the safe point is the compaction
/// segment, every entry of the index points into that segment, and the
/// segment is exactly as long as the live records together.
pub proof fn lemma_compacted(w: World)
    requires
        sound(w),
        can_compact(w),
    ensures
        sound(compacted_world(w)),
        forall|q: Seq<char>| #[trigger] record_of(compacted_world(w), q) == record_of(w, q),
        compacted_world(w).store.index.dom() == w.store.index.dom(),
        compacted_world(w).store.writer.uncompacted_bytes == 0,
        compacted_world(w).store.writer.current_file_no == w.store.writer.current_file_no + 2,
        compacted_world(w).store.safe_point == w.store.writer.current_file_no + 1,
        forall|q: Seq<char>| #[trigger]
            compacted_world(w).store.index.contains_key(q) ==> compacted_world(
                w,
            ).store.index[q].file_no == compacted_world(w).store.safe_point,
        compacted_world(w).disk[compacted_world(w).store.safe_point].len() == offset_of(
            live_lens(ordered(w.store.index)),
            ordered(w.store.index).len() as int,
        ),
{
    let cw = compacted_world(w);
    let s = ordered(w.store.index);
    let lens = live_lens(s);
    let n = s.len() as int;
    let c = (w.store.writer.current_file_no + 1) as u64;
    let active = (w.store.writer.current_file_no + 2) as u64;
    let t = relocated(s, c, lens);
    lemma_listed(w.store.index);
    lemma_relocated(s, c, lens);
    assert(cw.store.index == map_of(t));
    assert(listable(cw.store.index));
    assert forall|j: int| 0 <= j < n implies holds(w.disk, #[trigger] s[j].1) by {
        lemma_slot(s, j);
        assert(w.store.index.contains_key(s[j].0));
    }
    lemma_laid_out_len(w.disk, s, n);
    assert(!w.disk.contains_key(c));
    assert(!w.disk.contains_key(active));
    assert forall|q: Seq<char>| #[trigger] cw.store.index.contains_key(q) implies holds(
        cw.disk,
        cw.store.index[q],
    ) && cw.store.index[q].file_no == c && w.store.index.contains_key(q) && bytes_at(
        cw.disk,
        cw.store.index[q],
    ) == bytes_at(w.disk, w.store.index[q]) by {
        let i = slot_of(t, q);
        assert(has_key(t, q));
        lemma_slot(t, i);
        lemma_slot(s, i);
        lemma_laid_out(w.disk, s, n, i);
        lemma_offset_monotonic(lens, i, n);
    }
    assert forall|q: Seq<char>| #[trigger] record_of(cw, q) == record_of(w, q) by {
        assert(cw.store.index.contains_key(q) == w.store.index.contains_key(q));
        if cw.store.index.contains_key(q) {
        }
    }
    assert forall|f: u64| #[trigger] cw.disk.contains_key(f) implies f <= active by {
        if f != active && f != c {
            assert(w.disk.contains_key(f));
        }
    }
}

} // verus!
