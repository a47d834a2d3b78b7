//! The store: the index, the writer's state and the safe point, rebuilt
//! from the segments of a data directory and kept in step with every
//! record that is appended.

use vstd::prelude::*;
use crate::codec::decode_command;
use crate::codec::decode_next;
use crate::codec::next_step;
use crate::codec::sole_record;
use crate::codec::Decoded;
use crate::codec::Step;
use crate::common::Command;
use crate::common::Record;
use crate::errors::Fault;
use crate::errors::KvsError;
use crate::index::CommandPos;
use crate::index::Index;
use crate::index::relocated;
use crate::index::ordered;
use crate::writer::apply_command;
use crate::writer::apply_record;
use crate::writer::compaction_fits;
use crate::writer::dead_bytes;
use crate::writer::sat_add;
use crate::writer::KvWriter;

verus! {

/// The count of dead bytes above which the log is compacted, where none is
/// given: 1 MiB.
pub const COMPACTION_THRESHOLD: u64 = 1048576;

/// What reading a part of the log gives: the index, the number of dead
/// bytes, and whether every byte belonged to a record.
pub struct Replayed {
    pub index: Map<Seq<char>, CommandPos>,
    pub dead: int,
    pub intact: bool,
}

/// What reading the segment `file_no` from `pos` on gives, starting with
/// `index` and `dead`: record after record is brought into the index, until
/// the bytes end or are found damaged.
pub open spec fn replay_from(
    bytes: Seq<u8>,
    file_no: u64,
    pos: int,
    index: Map<Seq<char>, CommandPos>,
    dead: int,
) -> Replayed
    decreases bytes.len() - pos,
{
    match next_step(bytes, pos) {
        Step::End => Replayed { index, dead, intact: true },
        Step::Malformed => Replayed { index, dead, intact: false },
        Step::Item(rec, end) => if 0 <= pos < end <= bytes.len() {
            let at = CommandPos { file_no, start: pos as u64, len: (end - pos) as u64 };
            replay_from(
                bytes,
                file_no,
                end,
                apply_record(index, rec, at),
                dead + dead_bytes(index, rec, end - pos),
            )
        } else {
            Replayed { index, dead, intact: false }
        },
    }
}

/// Reads the segment `file_no` into the index, record after record, and
/// counts the bytes that the records kill. Where the bytes are damaged,
/// the records before the damage stay in the index and the error is that
/// of the codec.
pub fn intialise_mem_map(file_no: u64, bytes: &[u8], mem_map: &mut Index) -> (r: Result<
    u64,
    KvsError,
>)
    requires
        old(mem_map).wf(),
    ensures
        final(mem_map).wf(),
        final(mem_map)@ == replay_from(bytes@, file_no, 0, old(mem_map)@, 0).index,
        replay_from(bytes@, file_no, 0, old(mem_map)@, 0).intact ==> r == Ok::<u64, KvsError>(
            sat_add(0, replay_from(bytes@, file_no, 0, old(mem_map)@, 0).dead),
        ),
        !replay_from(bytes@, file_no, 0, old(mem_map)@, 0).intact ==> r == Err::<u64, KvsError>(
            KvsError::SerDeError,
        ),
{
    let mut pos: usize = 0;
    let mut uncompacted_bytes: u64 = 0;
    let ghost mut dead: int = 0;
    loop
        invariant
            pos <= bytes.len(),
            mem_map.wf(),
            0 <= dead,
            uncompacted_bytes == sat_add(0, dead),
            replay_from(bytes@, file_no, 0, old(mem_map)@, 0) == replay_from(
                bytes@,
                file_no,
                pos as int,
                mem_map@,
                dead,
            ),
        decreases bytes.len() - pos,
    {
        match decode_next(bytes, pos) {
            Decoded::End => {
                return Ok(uncompacted_bytes);
            },
            Decoded::Malformed => {
                return Err(KvsError::SerDeError);
            },
            Decoded::Item(cmd, new_pos) => {
                let at = CommandPos::from((file_no, pos as u64, new_pos as u64));
                proof {
                    dead = dead + dead_bytes(mem_map@, cmd@, new_pos - pos);
                }
                let killed = apply_command(mem_map, cmd, at);
                uncompacted_bytes = uncompacted_bytes.saturating_add(killed);
                pos = new_pos;
            },
        }
    }
}

/// One segment of the log: its number and its bytes.
#[derive(Debug, Clone)]
pub struct Segment {
    pub file_no: u64,
    pub data: Vec<u8>,
}

impl View for Segment {
    type V = (u64, Seq<u8>);

    open spec fn view(&self) -> (u64, Seq<u8>) {
        (self.file_no, self.data@)
    }
}

/// The segments as contracts speak of them: number and bytes.
pub open spec fn segments_view(segments: Seq<Segment>) -> Seq<(u64, Seq<u8>)> {
    segments.map_values(|s: Segment| s@)
}

/// Whether the numbers of the segments ascend; equal numbers may follow
/// each other.
pub open spec fn in_order(segs: Seq<(u64, Seq<u8>)>) -> bool {
    forall|i: int, j: int| 0 <= i < j < segs.len() ==> segs[i].0 <= segs[j].0
}

/// What reading the first `n` of the segments `segs`, one after the other,
/// gives. Reading stops at the first segment that is damaged.
pub open spec fn replay_all(segs: Seq<(u64, Seq<u8>)>, n: int) -> Replayed
    decreases n,
{
    if n <= 0 {
        Replayed { index: Map::empty(), dead: 0, intact: true }
    } else {
        let before = replay_all(segs, n - 1);
        if before.intact {
            replay_from(segs[n - 1].1, segs[n - 1].0, 0, before.index, before.dead)
        } else {
            before
        }
    }
}

/// The largest of the first `n` segment numbers of `segs`; 0 where `n` is 0.
pub open spec fn max_file_no(segs: Seq<(u64, Seq<u8>)>, n: int) -> u64
    decreases n,
{
    if n <= 0 {
        0
    } else if segs[n - 1].0 > max_file_no(segs, n - 1) {
        segs[n - 1].0
    } else {
        max_file_no(segs, n - 1)
    }
}

/// Reading never lowers the number of dead bytes.
pub proof fn lemma_replay_from_dead(
    bytes: Seq<u8>,
    file_no: u64,
    pos: int,
    index: Map<Seq<char>, CommandPos>,
    dead: int,
)
    ensures
        dead <= replay_from(bytes, file_no, pos, index, dead).dead,
    decreases bytes.len() - pos,
{
    if let Step::Item(rec, end) = next_step(bytes, pos) {
        if 0 <= pos < end <= bytes.len() {
            let at = CommandPos { file_no, start: pos as u64, len: (end - pos) as u64 };
            lemma_replay_from_dead(
                bytes,
                file_no,
                end,
                apply_record(index, rec, at),
                dead + dead_bytes(index, rec, end - pos),
            );
        }
    }
}

/// The number of dead bytes that reading one segment adds does not depend
/// on the number that was counted before.
pub proof fn lemma_replay_from_shift(
    bytes: Seq<u8>,
    file_no: u64,
    pos: int,
    index: Map<Seq<char>, CommandPos>,
    dead: int,
)
    ensures
        replay_from(bytes, file_no, pos, index, dead).index == replay_from(
            bytes,
            file_no,
            pos,
            index,
            0,
        ).index,
        replay_from(bytes, file_no, pos, index, dead).intact == replay_from(
            bytes,
            file_no,
            pos,
            index,
            0,
        ).intact,
        replay_from(bytes, file_no, pos, index, dead).dead == dead + replay_from(
            bytes,
            file_no,
            pos,
            index,
            0,
        ).dead,
    decreases bytes.len() - pos,
{
    if let Step::Item(rec, end) = next_step(bytes, pos) {
        if 0 <= pos < end <= bytes.len() {
            let at = CommandPos { file_no, start: pos as u64, len: (end - pos) as u64 };
            let d = dead_bytes(index, rec, end - pos);
            lemma_replay_from_shift(bytes, file_no, end, apply_record(index, rec, at), dead + d);
            lemma_replay_from_shift(bytes, file_no, end, apply_record(index, rec, at), d);
        }
    }
}

/// The state of the store as contracts speak of it.
pub struct StoreState {
    /// The index: for each live key, where its record lies.
    pub index: Map<Seq<char>, CommandPos>,
    /// The writer's state.
    pub writer: KvWriter,
    /// The number below which every segment is retired.
    pub safe_point: u64,
}

/// The state after the record `rec` was appended to the active segment,
/// from the offset `pos` up to `new_pos`.
pub open spec fn written(s: StoreState, rec: Record, pos: u64, new_pos: u64) -> StoreState {
    let at = CommandPos {
        file_no: s.writer.current_file_no,
        start: pos,
        len: (new_pos - pos) as u64,
    };
    StoreState {
        index: apply_record(s.index, rec, at),
        writer: KvWriter {
            uncompacted_bytes: sat_add(
                s.writer.uncompacted_bytes,
                dead_bytes(s.index, rec, new_pos - pos),
            ),
            ..s.writer
        },
        safe_point: s.safe_point,
    }
}

/// Whether the log is to be compacted: more bytes are dead than the
/// threshold allows.
pub open spec fn compaction_due(s: StoreState) -> bool {
    s.writer.uncompacted_bytes > s.writer.threshold
}

/// The state after a compaction was started: its two segment numbers are
/// taken.
pub open spec fn rotated(s: StoreState) -> StoreState {
    StoreState {
        writer: KvWriter {
            current_file_no: (s.writer.current_file_no + 2) as u64,
            compacting: true,
            ..s.writer
        },
        ..s
    }
}

/// The state after a compaction into the segment `compaction_no`, in which
/// the live records were copied end to end in the order of their keys, the
/// `i`-th with `copied[i]` bytes.
pub open spec fn compacted(s: StoreState, compaction_no: u64, copied: Seq<u64>) -> StoreState {
    StoreState {
        index: crate::index::map_of(relocated(ordered(s.index), compaction_no, copied)),
        writer: KvWriter { uncompacted_bytes: 0, compacting: false, ..s.writer },
        safe_point: compaction_no,
    }
}

/// The store: the index, the writer's state and the safe point. The files
/// are not its own: whoever holds it appends the records, copies them and
/// hands over the offsets.
#[derive(Debug, Clone)]
pub struct KvStore {
    mem_map: Index,
    writer: KvWriter,
    safe_point: u64,
}

impl View for KvStore {
    type V = StoreState;

    closed spec fn view(&self) -> StoreState {
        StoreState { index: self.mem_map@, writer: self.writer, safe_point: self.safe_point }
    }
}

impl KvStore {
    /// Whether the store is well formed: the keys of its index ascend.
    pub closed spec fn wf(&self) -> bool {
        self.mem_map.wf()
    }

    /// Opens a store on the segments of a data directory, which are handed
    /// over, and read, in the ascending order of their numbers. The active
    /// segment gets the number behind the largest one, or 1 where there is
    /// no segment; the safe point is 0; the log is compacted above
    /// `COMPACTION_THRESHOLD` dead bytes.
    ///
    /// Fails with the codec's error where a segment is damaged, and with
    /// `PathError` where no number is left for the active segment.
    pub fn open(segments: &[Segment]) -> (r: Result<KvStore, KvsError>)
        requires
            in_order(segments_view(segments@)),
        ensures
            opened(segments_view(segments@), COMPACTION_THRESHOLD, r),
    {
        KvStore::open_with_threshold(segments, COMPACTION_THRESHOLD)
    }

    /// Opens a store as `open` does, with the given count of dead bytes
    /// above which the log is compacted.
    pub fn open_with_threshold(segments: &[Segment], threshold: u64) -> (r: Result<
        KvStore,
        KvsError,
    >)
        requires
            in_order(segments_view(segments@)),
        ensures
            opened(segments_view(segments@), threshold, r),
    {
        let ghost segs = segments_view(segments@);
        let mut mem_map = Index::new();
        let mut uncompacted_bytes: u64 = 0;
        let mut largest: u64 = 0;
        let mut i: usize = 0;
        while i < segments.len()
            invariant
                i <= segments.len(),
                segs == segments_view(segments@),
                mem_map.wf(),
                replay_all(segs, i as int).intact,
                mem_map@ == replay_all(segs, i as int).index,
                0 <= replay_all(segs, i as int).dead,
                uncompacted_bytes == sat_add(0, replay_all(segs, i as int).dead),
                largest == max_file_no(segs, i as int),
            decreases segments.len() - i,
        {
            let file_no = segments[i].file_no;
            proof {
                assert(segs[i as int] == segments@[i as int]@);
                let before = replay_all(segs, i as int);
                lemma_replay_from_shift(segs[i as int].1, file_no, 0, before.index, before.dead);
                lemma_replay_from_dead(segs[i as int].1, file_no, 0, before.index, 0);
            }
            match intialise_mem_map(file_no, segments[i].data.as_slice(), &mut mem_map) {
                Ok(dead) => {
                    uncompacted_bytes = uncompacted_bytes.saturating_add(dead);
                },
                Err(e) => {
                    proof {
                        lemma_replay_stops(segs, i as int + 1, segs.len() as int);
                    }
                    return Err(e);
                },
            }
            if file_no > largest {
                largest = file_no;
            }
            i += 1;
        }
        if largest == u64::MAX {
            return Err(KvsError::PathError);
        }
        let current_file_no = if segments.len() == 0 {
            1
        } else {
            largest + 1
        };
        Ok(
            KvStore {
                mem_map,
                writer: KvWriter {
                    current_file_no,
                    uncompacted_bytes,
                    threshold,
                    compacting: false,
                },
                safe_point: 0,
            },
        )
    }
}

impl KvStore {
    /// The number of the active segment.
    pub fn current_file_no(&self) -> (r: u64)
        ensures
            r == self@.writer.current_file_no,
    {
        self.writer.current_file_no
    }

    /// The number of dead bytes in the log.
    pub fn uncompacted_bytes(&self) -> (r: u64)
        ensures
            r == self@.writer.uncompacted_bytes,
    {
        self.writer.uncompacted_bytes
    }

    /// The number below which every segment is retired.
    pub fn safe_point(&self) -> (r: u64)
        ensures
            r == self@.safe_point,
    {
        self.safe_point
    }

    /// The number of live keys.
    pub fn len(&self) -> (r: usize)
        requires
            self.wf(),
        ensures
            r == ordered(self@.index).len(),
    {
        proof {
            self.mem_map.lemma_wf();
        }
        self.mem_map.len()
    }

    /// Where the record of `key` lies; `None` where the key is not live.
    pub fn get(&self, key: &str) -> (r: Option<CommandPos>)
        requires
            self.wf(),
        ensures
            r == (if self@.index.contains_key(key@) {
                Some(self@.index[key@])
            } else {
                None
            }),
    {
        self.mem_map.get(key)
    }

    /// The record to append for the removal of `key`: an `Rm` of the key
    /// where it is live, else the error that it was not found.
    pub fn remove(&self, key: String) -> (r: Result<Command, KvsError>)
        requires
            self.wf(),
        ensures
            self@.index.contains_key(key@) ==> (r matches Ok(cmd) && cmd@ == Record::Rm(key@)),
            !self@.index.contains_key(key@) ==> (r matches Err(e) && e@ == Fault::NotFound(key@)),
    {
        if self.mem_map.contains_key(key.as_str()) {
            Ok(Command::Rm(key))
        } else {
            Err(KvsError::NotFoundError(key))
        }
    }

    /// Records that `cmd` was appended to the active segment, from the
    /// offset `pos` up to `new_pos`, and tells whether compaction is due.
    pub fn write(&mut self, cmd: Command, pos: u64, new_pos: u64) -> (due: bool)
        requires
            old(self).wf(),
            pos <= new_pos,
        ensures
            final(self).wf(),
            final(self)@ == written(old(self)@, cmd@, pos, new_pos),
            due == compaction_due(final(self)@),
    {
        self.writer.write(&mut self.mem_map, cmd, pos, new_pos)
    }

    /// Starts a compaction: takes the two segment numbers that it needs,
    /// the next one for the compaction segment, which is returned, and the
    /// one after it for the new active segment. Fails with
    /// `CompactionError`, and changes nothing, where the numbers are used
    /// up.
    pub fn start_compaction(&mut self) -> (r: Result<u64, KvsError>)
        requires
            old(self).wf(),
        ensures
            final(self).wf(),
            old(self)@.writer.current_file_no <= u64::MAX - 2 ==> r == Ok::<u64, KvsError>(
                (old(self)@.writer.current_file_no + 1) as u64,
            ) && final(self)@ == rotated(old(self)@),
            old(self)@.writer.current_file_no > u64::MAX - 2 ==> r == Err::<u64, KvsError>(
                KvsError::CompactionError,
            ) && final(self)@ == old(self)@,
    {
        self.writer.start_compaction()
    }

    /// The positions of the live records, in the order of their keys: what
    /// a compaction copies, one after the other.
    pub fn sources(&self) -> (r: Vec<CommandPos>)
        requires
            self.wf(),
        ensures
            r@ == ordered(self@.index).map_values(|e: (Seq<char>, CommandPos)| e.1),
    {
        proof {
            self.mem_map.lemma_wf();
        }
        self.mem_map.positions()
    }

    /// Ends a compaction in which the live records were copied into the
    /// segment `compaction_no`, end to end in the order of their keys, the
    /// `i`-th with `copied[i]` bytes: every entry of the index points at its
    /// copy, no byte is dead, and the safe point is `compaction_no`. Fails
    /// with `CompactionError`, and changes nothing, where no compaction was
    /// started, where `compaction_no` is not the number that
    /// `start_compaction` gave, the segment before the active one, where
    /// `copied` has not one length for each live key, or where the lengths
    /// add up to more than a `u64` holds.
    pub fn compaction(&mut self, compaction_no: u64, copied: &[u64]) -> (r: Result<(), KvsError>)
        requires
            old(self).wf(),
        ensures
            final(self).wf(),
            compaction_fits(
                old(self)@.writer,
                compaction_no,
                ordered(old(self)@.index),
                copied@,
            ) ==> r == Ok::<(), KvsError>(()) && final(self)@ == compacted(
                old(self)@,
                compaction_no,
                copied@,
            ),
            !compaction_fits(
                old(self)@.writer,
                compaction_no,
                ordered(old(self)@.index),
                copied@,
            ) ==> r == Err::<(), KvsError>(KvsError::CompactionError) && final(self)@ == old(
                self,
            )@,
    {
        proof {
            self.mem_map.lemma_wf();
        }
        match self.writer.compaction(&mut self.mem_map, compaction_no, copied) {
            Ok(safe_point) => {
                self.safe_point = safe_point;
                Ok(())
            },
            Err(e) => Err(e),
        }
    }

    /// The value that the bytes of a record hold, where the record is a
    /// `Set`. Bytes that are no record give the codec's error; a record of
    /// another kind gives `UnexpectedCommandError`.
    pub fn read_value(bytes: &[u8]) -> (r: Result<String, KvsError>)
        ensures
            r matches Ok(v) ==> (sole_record(bytes@) matches Some(Record::Put(_, w)) && w == v@),
            r matches Err(e) ==> (match sole_record(bytes@) {
                None => e@ == Fault::SerDe,
                Some(Record::Put(_, _)) => false,
                Some(_) => e@ == Fault::UnexpectedCommand,
            }),
    {
        match decode_command(bytes) {
            Ok(Command::Put(_, value)) => Ok(value),
            Ok(_) => Err(KvsError::UnexpectedCommandError),
            Err(e) => Err(e),
        }
    }
}

/// Once a segment is found damaged, reading goes no further.
pub proof fn lemma_replay_stops(segs: Seq<(u64, Seq<u8>)>, n: int, m: int)
    requires
        0 <= n <= m,
        !replay_all(segs, n).intact,
    ensures
        replay_all(segs, m) == replay_all(segs, n),
    decreases m - n,
{
    if n < m {
        lemma_replay_stops(segs, n, m - 1);
    }
}

/// Whether the numbers of the segments ascend, as `open` asks.
pub fn segments_ascend(segments: &[Segment]) -> (r: bool)
    ensures
        r == in_order(segments_view(segments@)),
{
    let ghost segs = segments_view(segments@);
    let mut i: usize = 1;
    while i < segments.len()
        invariant
            1 <= i,
            segs == segments_view(segments@),
            forall|a: int, b: int| 0 <= a < b < i && b < segs.len() ==> segs[a].0 <= segs[b].0,
        decreases segments.len() - i,
    {
        assert(segs[i - 1] == segments@[i - 1]@);
        assert(segs[i as int] == segments@[i as int]@);
        if segments[i - 1].file_no > segments[i].file_no {
            return false;
        }
        assert forall|a: int, b: int| 0 <= a < b < i + 1 && b < segs.len() implies segs[a].0
            <= segs[b].0 by {
            if b == i && a < i - 1 {
                assert(segs[a].0 <= segs[i - 1].0);
            }
        }
        i += 1;
    }
    true
}

/// The number of the active segment of a store that is opened on `segs`.
pub open spec fn first_active(segs: Seq<(u64, Seq<u8>)>) -> int {
    if segs.len() == 0 {
        1
    } else {
        max_file_no(segs, segs.len() as int) + 1
    }
}

/// What `open` owes for the segments `segs`: where every segment is intact
/// and a number is left for the active segment, the store that reading
/// them gives; else the error.
pub open spec fn opened(segs: Seq<(u64, Seq<u8>)>, threshold: u64, r: Result<KvStore, KvsError>) -> bool {
    let all = replay_all(segs, segs.len() as int);
    if !all.intact {
        r matches Err(e) && e@ == Fault::SerDe
    } else if first_active(segs) > u64::MAX {
        r matches Err(e) && e@ == Fault::Path
    } else {
        r matches Ok(store) && {
            &&& store.wf()
            &&& store@.index == all.index
            &&& store@.writer == (KvWriter {
                current_file_no: first_active(segs) as u64,
                uncompacted_bytes: sat_add(0, all.dead),
                threshold,
                compacting: false,
            })
            &&& store@.safe_point == 0
        }
    }
}

} // verus!
