//! The writer's bookkeeping: what a record that was appended to the active
//! segment does to the index and to the count of dead bytes.

use vstd::prelude::*;
use crate::common::Command;
use crate::common::Record;
use crate::index::CommandPos;
use crate::index::Index;
use crate::index::offset_of;
use crate::index::relocated;
use crate::errors::KvsError;

verus! {

/// The sum of a counter and a number of bytes, held at the largest `u64`
/// where the sum would pass it.
pub open spec fn sat_add(a: u64, b: int) -> u64 {
    if a + b > u64::MAX {
        u64::MAX
    } else if a + b < 0 {
        0u64
    } else {
        (a + b) as u64
    }
}

/// The length of the record that the index holds for `k`; 0 where it holds
/// none.
pub open spec fn prior_len(index: Map<Seq<char>, CommandPos>, k: Seq<char>) -> int {
    if index.contains_key(k) {
        index[k].len as int
    } else {
        0
    }
}

/// The bytes that die when the record `rec`, `len` bytes long, is appended:
/// a `Set` kills the record that the key had; an `Rm` kills that record and
/// is dead itself.
pub open spec fn dead_bytes(index: Map<Seq<char>, CommandPos>, rec: Record, len: int) -> int {
    match rec {
        Record::Put(k, _) => prior_len(index, k),
        Record::Rm(k) => prior_len(index, k) + len,
        Record::Get(_) => 0,
    }
}

/// The index after the record `rec` was appended at `at`: a `Set` points
/// its key at the record, an `Rm` takes its key out.
pub open spec fn apply_record(index: Map<Seq<char>, CommandPos>, rec: Record, at: CommandPos) -> Map<
    Seq<char>,
    CommandPos,
> {
    match rec {
        Record::Put(k, _) => index.insert(k, at),
        Record::Rm(k) => index.remove(k),
        Record::Get(_) => index,
    }
}

/// Brings a record that lies at `at` into the index, and returns the bytes
/// that die by it.
pub fn apply_command(mem_map: &mut Index, cmd: Command, at: CommandPos) -> (dead: u64)
    requires
        old(mem_map).wf(),
    ensures
        final(mem_map).wf(),
        final(mem_map)@ == apply_record(old(mem_map)@, cmd@, at),
        dead == sat_add(0, dead_bytes(old(mem_map)@, cmd@, at.len as int)),
{
    match cmd {
        Command::Put(key, _) => {
            match mem_map.insert(key, at) {
                Some(old_cmd) => old_cmd.len,
                None => 0,
            }
        },
        Command::Rm(key) => {
            let prior = match mem_map.remove(key.as_str()) {
                Some(old_cmd) => old_cmd.len,
                None => 0,
            };
            prior.saturating_add(at.len)
        },
        Command::Get(_) => 0,
    }
}

/// Whether the writer can end a compaction into the segment
/// `compaction_no`: a compaction was started and has not ended; the
/// compaction segment is the one before the active segment, which is the
/// number that `start_compaction` gave; `copied` gives one length for each
/// of the entries `s`; and the lengths add up to no more than a `u64`
/// holds.
pub open spec fn compaction_fits(
    writer: KvWriter,
    compaction_no: u64,
    s: crate::index::Entries,
    copied: Seq<u64>,
) -> bool {
    &&& writer.compacting
    &&& compaction_no + 1 == writer.current_file_no
    &&& copied.len() == s.len()
    &&& offset_of(copied, copied.len() as int) <= u64::MAX
}

/// The state of the writer: the number of the active segment, the count of
/// dead bytes in the log, the count above which the log is compacted, and
/// whether a compaction was started that has not ended.
#[derive(Debug, Clone, Copy, PartialEq, Eq, Structural)]
pub struct KvWriter {
    pub current_file_no: u64,
    pub uncompacted_bytes: u64,
    pub threshold: u64,
    pub compacting: bool,
}

impl KvWriter {
    /// Records that `cmd` was appended to the active segment, from the
    /// offset `pos` up to `new_pos`: brings it into the index, counts the
    /// bytes that died, and tells whether compaction is due.
    pub fn write(&mut self, mem_map: &mut Index, cmd: Command, pos: u64, new_pos: u64) -> (due:
        bool)
        requires
            old(mem_map).wf(),
            pos <= new_pos,
        ensures
            final(mem_map).wf(),
            final(mem_map)@ == apply_record(
                old(mem_map)@,
                cmd@,
                CommandPos {
                    file_no: old(self).current_file_no,
                    start: pos,
                    len: (new_pos - pos) as u64,
                },
            ),
            final(self).uncompacted_bytes == sat_add(
                old(self).uncompacted_bytes,
                dead_bytes(old(mem_map)@, cmd@, new_pos - pos),
            ),
            final(self).current_file_no == old(self).current_file_no,
            final(self).threshold == old(self).threshold,
            final(self).compacting == old(self).compacting,
            due == (final(self).uncompacted_bytes > final(self).threshold),
    {
        let cmd_pos = CommandPos::from((self.current_file_no, pos, new_pos));
        let dead = apply_command(mem_map, cmd, cmd_pos);
        self.uncompacted_bytes = self.uncompacted_bytes.saturating_add(dead);
        self.uncompacted_bytes > self.threshold
    }

    /// Starts a compaction: takes the two segment numbers that it needs,
    /// the next one for the compaction segment, which is returned, and the
    /// one after it for the new active segment. Fails, and changes nothing,
    /// where the numbers are used up.
    pub fn start_compaction(&mut self) -> (r: Result<u64, KvsError>)
        ensures
            old(self).current_file_no <= u64::MAX - 2 ==> r == Ok::<u64, KvsError>(
                (old(self).current_file_no + 1) as u64,
            ) && *final(self) == (KvWriter {
                current_file_no: (old(self).current_file_no + 2) as u64,
                compacting: true,
                ..*old(self)
            }),
            old(self).current_file_no > u64::MAX - 2 ==> r == Err::<u64, KvsError>(
                KvsError::CompactionError,
            ) && *final(self) == *old(self),
    {
        if self.current_file_no > u64::MAX - 2 {
            return Err(KvsError::CompactionError);
        }
        let compaction_no = self.current_file_no + 1;
        self.current_file_no = self.current_file_no + 2;
        self.compacting = true;
        Ok(compaction_no)
    }

    /// Ends a compaction in which the live records were copied into the
    /// segment `compaction_no`, end to end in the order of their keys, the
    /// `i`-th with `copied[i]` bytes: every entry of the index is pointed at
    /// its copy, no byte is dead any more, and `compaction_no` is returned
    /// as the new safe point. Fails, and changes nothing, where no
    /// compaction was started, where `compaction_no` is not the number that
    /// `start_compaction` gave, the segment before the active one, where
    /// `copied` has not one length for each entry, or where the lengths add
    /// up to more than a `u64` holds.
    pub fn compaction(&mut self, mem_map: &mut Index, compaction_no: u64, copied: &[u64]) -> (r:
        Result<u64, KvsError>)
        requires
            old(mem_map).wf(),
        ensures
            final(mem_map).wf(),
            compaction_fits(*old(self), compaction_no, old(mem_map).entries(), copied@) ==> {
                &&& r == Ok::<u64, KvsError>(compaction_no)
                &&& final(mem_map).entries() == relocated(
                    old(mem_map).entries(),
                    compaction_no,
                    copied@,
                )
                &&& *final(self) == (KvWriter {
                    uncompacted_bytes: 0,
                    compacting: false,
                    ..*old(self)
                })
            },
            !compaction_fits(*old(self), compaction_no, old(mem_map).entries(), copied@) ==> {
                &&& r == Err::<u64, KvsError>(KvsError::CompactionError)
                &&& final(mem_map).entries() == old(mem_map).entries()
                &&& *final(self) == *old(self)
            },
    {
        if !self.compacting || self.current_file_no == 0 || compaction_no != self.current_file_no
            - 1 {
            return Err(KvsError::CompactionError);
        }
        if mem_map.relocate(compaction_no, copied) {
            self.uncompacted_bytes = 0;
            self.compacting = false;
            Ok(compaction_no)
        } else {
            Err(KvsError::CompactionError)
        }
    }
}

} // verus!
