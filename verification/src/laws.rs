//! What holds of the engine, whatever is written to it.

use vstd::prelude::*;
use crate::codec::encoding;
use crate::codec::reads_back;
use crate::codec::sole_record;
use crate::common::Record;
use crate::errors::Fault;
use crate::index::offset_of;
use crate::index::ordered;
use crate::model::after_write;
use crate::model::appended;
use crate::model::can_compact;
use crate::model::can_write;
use crate::model::compacted_world;
use crate::model::lemma_appended;
use crate::model::lemma_compacted;
use crate::model::live_lens;
use crate::model::record_of;
use crate::model::sound;
use crate::model::swept;
use crate::model::World;
use crate::store::compaction_due;

verus! {

/// What a `get` of the key `k` gives: nothing where the key is not live;
/// else what the bytes of its record hold, which is a value where they are
/// a `Set` record.
pub open spec fn get_of(w: World, k: Seq<char>) -> Result<Option<Seq<char>>, Fault> {
    match record_of(w, k) {
        None => Ok(None),
        Some(bytes) => match sole_record(bytes) {
            Some(Record::Put(_, v)) => Ok(Some(v)),
            Some(_) => Err(Fault::UnexpectedCommand),
            None => Err(Fault::SerDe),
        },
    }
}

/// One operation of the engine on the world: a `Set` is written; an `Rm`
/// is written where its key is live and is refused, with nothing changed,
/// where it is not; a `Get` changes nothing.
pub open spec fn perform(w: World, op: Record) -> World {
    match op {
        Record::Put(_, _) => after_write(w, op),
        Record::Rm(k) => if w.store.index.contains_key(k) {
            after_write(w, op)
        } else {
            w
        },
        Record::Get(_) => w,
    }
}

/// Whether the operation can be carried out: what it writes, if anything,
/// can be written.
pub open spec fn can_perform(w: World, op: Record) -> bool {
    match op {
        Record::Put(_, _) => can_write(w, op),
        Record::Rm(k) => w.store.index.contains_key(k) ==> can_write(w, op),
        Record::Get(_) => true,
    }
}

/// The world after the operations `ops`, one after the other.
pub open spec fn run(w: World, ops: Seq<Record>) -> World
    decreases ops.len(),
{
    if ops.len() == 0 {
        w
    } else {
        perform(run(w, ops.drop_last()), ops.last())
    }
}

/// Whether each of the operations `ops` can be carried out in its turn.
pub open spec fn runs(w: World, ops: Seq<Record>) -> bool
    decreases ops.len(),
{
    if ops.len() == 0 {
        true
    } else {
        runs(w, ops.drop_last()) && can_perform(run(w, ops.drop_last()), ops.last())
    }
}

/// The last of the operations `ops` that sets or removes the key `k`.
pub open spec fn last_write(ops: Seq<Record>, k: Seq<char>) -> Option<Record>
    decreases ops.len(),
{
    if ops.len() == 0 {
        None
    } else if !(ops.last() is Get) && ops.last().key() == k {
        Some(ops.last())
    } else {
        last_write(ops.drop_last(), k)
    }
}

/// Writing a record keeps the world sound, whether or not it sets off a
/// compaction. Afterwards the record of a key that was set is the bytes
/// written for it, a key that was removed has no record, and every other
/// key has the record it had.
pub proof fn law_write(w: World, rec: Record)
    requires
        sound(w),
        can_write(w, rec),
    ensures
        sound(after_write(w, rec)),
        rec matches Record::Put(k, _) ==> record_of(after_write(w, rec), k) == Some(encoding(rec)),
        rec matches Record::Rm(k) ==> record_of(after_write(w, rec), k) is None,
        forall|q: Seq<char>|
            (rec is Get || q != rec.key()) ==> #[trigger] record_of(after_write(w, rec), q)
                == record_of(w, q),
{
    lemma_appended(w, rec);
    let w1 = appended(w, rec);
    if compaction_due(w1.store) {
        lemma_compacted(w1);
        assert forall|q: Seq<char>| (rec is Get || q != rec.key()) implies #[trigger] record_of(
            after_write(w, rec),
            q,
        ) == record_of(w, q) by {
            assert(record_of(compacted_world(w1), q) == record_of(w1, q));
            assert(record_of(w1, q) == record_of(w, q));
        }
        match rec {
            Record::Put(k, _) => {
                assert(record_of(compacted_world(w1), k) == record_of(w1, k));
            },
            Record::Rm(k) => {
                assert(record_of(compacted_world(w1), k) == record_of(w1, k));
            },
            Record::Get(_) => {},
        }
    }
}

/// Last write wins. After any operations, the record of a key is the
/// bytes written by the last `Set` of the key, where no `Rm` of the key
/// came after it; the key has no record where an `Rm` was the last to
/// touch it; and it has the record it had where no operation touched it.
pub proof fn law_last_write_wins(w: World, ops: Seq<Record>, k: Seq<char>)
    requires
        sound(w),
        runs(w, ops),
    ensures
        sound(run(w, ops)),
        match last_write(ops, k) {
            None => record_of(run(w, ops), k) == record_of(w, k),
            Some(Record::Put(_, v)) => record_of(run(w, ops), k) == Some(
                encoding(Record::Put(k, v)),
            ),
            Some(_) => record_of(run(w, ops), k) is None,
        },
    decreases ops.len(),
{
    if ops.len() > 0 {
        let before = run(w, ops.drop_last());
        let op = ops.last();
        law_last_write_wins(w, ops.drop_last(), k);
        match op {
            Record::Put(_, _) => {
                law_write(before, op);
            },
            Record::Rm(q) => {
                if before.store.index.contains_key(q) {
                    law_write(before, op);
                }
            },
            Record::Get(_) => {},
        }
    }
}

/// What a `get` gives after any operations: the value of the last `Set`
/// of the key, where no `Rm` of the key came after it and the codec reads
/// the record back; nothing where an `Rm` was the last to touch the key;
/// and what it gave before where no operation touched the key.
pub proof fn law_get_after_operations(w: World, ops: Seq<Record>, k: Seq<char>)
    requires
        sound(w),
        runs(w, ops),
        last_write(ops, k) matches Some(Record::Put(_, v)) ==> reads_back(Record::Put(k, v)),
    ensures
        get_of(run(w, ops), k) == (match last_write(ops, k) {
            None => get_of(w, k),
            Some(Record::Put(_, v)) => Ok(Some(v)),
            Some(_) => Ok(None),
        }),
{
    law_last_write_wins(w, ops, k);
}

/// After a `Set` a `get` of the key gives the value that was set, for
/// every key and value that the codec reads back; the empty key and the
/// empty value are no exception.
pub proof fn law_get_after_set(w: World, k: Seq<char>, v: Seq<char>)
    requires
        sound(w),
        can_write(w, Record::Put(k, v)),
        reads_back(Record::Put(k, v)),
    ensures
        get_of(after_write(w, Record::Put(k, v)), k) == Ok::<Option<Seq<char>>, Fault>(Some(v)),
{
    law_write(w, Record::Put(k, v));
}

/// Setting a key to a value twice shows the same as setting it once: after
/// the second `Set` every key has the record it had after the first, but
/// for the key that was set, whose record holds the same bytes again.
pub proof fn law_set_twice(w: World, k: Seq<char>, v: Seq<char>)
    requires
        sound(w),
        can_write(w, Record::Put(k, v)),
        can_write(after_write(w, Record::Put(k, v)), Record::Put(k, v)),
    ensures
        forall|q: Seq<char>| #[trigger]
            record_of(after_write(after_write(w, Record::Put(k, v)), Record::Put(k, v)), q)
                == record_of(after_write(w, Record::Put(k, v)), q),
        forall|q: Seq<char>| #[trigger]
            get_of(after_write(after_write(w, Record::Put(k, v)), Record::Put(k, v)), q) == get_of(
                after_write(w, Record::Put(k, v)),
                q,
            ),
{
    let once = after_write(w, Record::Put(k, v));
    let twice = after_write(once, Record::Put(k, v));
    law_write(w, Record::Put(k, v));
    law_write(once, Record::Put(k, v));
    assert forall|q: Seq<char>| #[trigger] record_of(twice, q) == record_of(once, q) by {
        if q != k {
            assert(record_of(twice, q) == record_of(once, q));
        }
    }
    assert forall|q: Seq<char>| #[trigger] get_of(twice, q) == get_of(once, q) by {
        assert(record_of(twice, q) == record_of(once, q));
    }
}

/// After a key was removed it is not live: a second `remove` of it is
/// refused as not found, and a `get` of it gives nothing.
pub proof fn law_remove_twice(w: World, k: Seq<char>)
    requires
        sound(w),
        can_write(w, Record::Rm(k)),
    ensures
        !after_write(w, Record::Rm(k)).store.index.contains_key(k),
        perform(after_write(w, Record::Rm(k)), Record::Rm(k)) == after_write(w, Record::Rm(k)),
        get_of(after_write(w, Record::Rm(k)), k) == Ok::<Option<Seq<char>>, Fault>(None),
{
    law_write(w, Record::Rm(k));
}

/// After a compaction no byte is counted as dead, every live key has the
/// record it had, every entry of the index points into the compaction
/// segment, which is the safe point, and that segment holds the live
/// records and nothing else: it is as long as they are together.
pub proof fn law_compaction(w: World)
    requires
        sound(w),
        can_compact(w),
    ensures
        sound(compacted_world(w)),
        compacted_world(w).store.writer.uncompacted_bytes == 0,
        forall|q: Seq<char>| #[trigger] record_of(compacted_world(w), q) == record_of(w, q),
        forall|q: Seq<char>| #[trigger]
            compacted_world(w).store.index.contains_key(q) ==> compacted_world(
                w,
            ).store.index[q].file_no == compacted_world(w).store.safe_point,
        compacted_world(w).disk[compacted_world(w).store.safe_point].len() == offset_of(
            live_lens(ordered(w.store.index)),
            ordered(w.store.index).len() as int,
        ),
{
    lemma_compacted(w);
}

/// Removing the files below the safe point loses nothing: the world stays
/// sound and every key keeps its record. Right after a compaction only two
/// files are left then, the compaction segment and the active segment.
pub proof fn law_sweep(w: World)
    requires
        sound(w),
    ensures
        sound(swept(w)),
        forall|q: Seq<char>| #[trigger] record_of(swept(w), q) == record_of(w, q),
        forall|f: u64| #[trigger] swept(w).disk.contains_key(f) ==> f >= w.store.safe_point,
        can_compact(w) ==> swept(compacted_world(w)).disk.dom() == set![
            (w.store.writer.current_file_no + 1) as u64,
            (w.store.writer.current_file_no + 2) as u64,
        ],
{
    let sw = swept(w);
    assert forall|q: Seq<char>| #[trigger] record_of(sw, q) == record_of(w, q) by {
        if w.store.index.contains_key(q) {
            assert(sw.disk.contains_key(w.store.index[q].file_no));
        }
    }
    assert forall|q: Seq<char>| #[trigger] sw.store.index.contains_key(q) implies crate::model::holds(
        sw.disk,
        sw.store.index[q],
    ) by {
        assert(w.store.index.contains_key(q));
    }
    assert forall|f: u64| #[trigger] sw.disk.contains_key(f) implies f
        <= w.store.writer.current_file_no by {
        assert(w.disk.contains_key(f));
    }
    if can_compact(w) {
        lemma_compacted(w);
        let cw = compacted_world(w);
        let c = (w.store.writer.current_file_no + 1) as u64;
        let a = (w.store.writer.current_file_no + 2) as u64;
        assert forall|f: u64| swept(cw).disk.contains_key(f) <==> (f == c || f == a) by {
            if swept(cw).disk.contains_key(f) && f != c && f != a {
                assert(w.disk.contains_key(f));
            }
        }
        assert(swept(cw).disk.dom() =~= set![c, a]);
    }
}

/// The numbers of the segments that the index points into.
pub open spec fn referenced(w: World) -> Set<u64> {
    Set::new(
        |f: u64|
            exists|k: Seq<char>| #[trigger]
                w.store.index.contains_key(k) && w.store.index[k].file_no == f,
    )
}

/// After a compaction, once the files below the safe point are removed,
/// the directory holds two segments: the compaction segment, which the
/// whole index points into and which is as long as the live records
/// together, and the active segment, which is empty. Where a key is live
/// there is one segment more than the index points into.
pub proof fn law_segments_after_compaction(w: World)
    requires
        sound(w),
        can_compact(w),
    ensures
        swept(compacted_world(w)).disk.dom() == set![
            (w.store.writer.current_file_no + 1) as u64,
            (w.store.writer.current_file_no + 2) as u64,
        ],
        swept(compacted_world(w)).disk.dom().len() == 2,
        referenced(swept(compacted_world(w))).subset_of(
            set![(w.store.writer.current_file_no + 1) as u64],
        ),
        w.store.index.dom().len() > 0 ==> swept(compacted_world(w)).disk.dom().len() == referenced(
            swept(compacted_world(w)),
        ).len() + 1,
        swept(compacted_world(w)).disk[(w.store.writer.current_file_no + 2) as u64].len() == 0,
        swept(compacted_world(w)).disk[(w.store.writer.current_file_no + 1) as u64].len()
            == offset_of(live_lens(ordered(w.store.index)), ordered(w.store.index).len() as int),
{
    let cw = compacted_world(w);
    let sw = swept(cw);
    let c = (w.store.writer.current_file_no + 1) as u64;
    let a = (w.store.writer.current_file_no + 2) as u64;
    lemma_compacted(w);
    law_sweep(w);
    assert(sw.disk.dom() == set![c, a]);
    assert(set![c, a] =~= Set::<u64>::empty().insert(c).insert(a));
    assert(sw.disk.dom().len() == 2) by {
        assert(Set::<u64>::empty().insert(c).len() == 1);
        assert(!Set::<u64>::empty().insert(c).contains(a));
    }
    assert(sw.disk.contains_key(a));
    assert(sw.disk.contains_key(c));
    assert forall|f: u64| referenced(sw).contains(f) implies f == c by {
        let k = choose|k: Seq<char>| #[trigger]
            sw.store.index.contains_key(k) && sw.store.index[k].file_no == f;
        assert(cw.store.index.contains_key(k));
    }
    if w.store.index.dom().len() > 0 {
        assert(cw.store.index.dom() == w.store.index.dom());
        if cw.store.index.dom() =~= Set::<Seq<char>>::empty() {
            assert(false);
        }
        let k = choose|k: Seq<char>| cw.store.index.dom().contains(k);
        assert(cw.store.index.contains_key(k));
        assert(sw.store.index.contains_key(k) && sw.store.index[k].file_no == c);
        assert(referenced(sw).contains(c));
        assert(referenced(sw) =~= Set::<u64>::empty().insert(c));
    }
}

/// Writing keeps the segments few. Once the files below the safe point
/// are removed, a write that sets off a compaction leaves two segments, and
/// a write that sets off none leaves no more segments than there were.
pub proof fn law_few_segments(w: World, rec: Record)
    requires
        sound(w),
        can_write(w, rec),
        w.disk.dom().finite(),
    ensures
        swept(after_write(w, rec)).disk.dom().finite(),
        compaction_due(appended(w, rec).store) ==> swept(after_write(w, rec)).disk.dom().len()
            == 2,
        !compaction_due(appended(w, rec).store) ==> swept(after_write(w, rec)).disk.dom().len()
            <= w.disk.dom().len(),
{
    lemma_appended(w, rec);
    let w1 = appended(w, rec);
    if compaction_due(w1.store) {
        law_segments_after_compaction(w1);
    } else {
        let kept = swept(w1).disk.dom();
        assert(w.disk.contains_key(w.store.writer.current_file_no));
        assert(w1.disk.dom() =~= w.disk.dom());
        assert(kept.subset_of(w.disk.dom()));
        vstd::set_lib::lemma_len_subset(kept, w.disk.dom());
    }
}

} // verus!
