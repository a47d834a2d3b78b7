//! A reader's cache: the segments for which it holds an open handle.

use vstd::prelude::*;

verus! {

/// What a reader has to do before it reads from a segment.
#[derive(Debug, Clone)]
pub struct Access {
    /// The segments below the safe point whose handles are closed and
    /// whose files are removed.
    pub stale: Vec<u64>,
    /// Whether a handle for the segment has to be opened.
    pub open: bool,
}

/// The numbers of the segments for which a reader holds an open handle.
/// Each clone of a store has its own.
#[derive(Debug)]
pub struct KvReader {
    readers: Vec<u64>,
}

impl View for KvReader {
    type V = Set<u64>;

    closed spec fn view(&self) -> Set<u64> {
        Set::new(|f: u64| self.readers@.contains(f))
    }
}

impl Clone for KvReader {
    /// A reader for a clone of the store. It starts without handles.
    fn clone(&self) -> (r: KvReader)
        ensures
            r.wf(),
            r@ == Set::<u64>::empty(),
    {
        KvReader::new()
    }
}

/// The numbers of `s` on the given side of the safe point, in their order:
/// those below it where `below` holds, the others where it does not.
pub open spec fn side(s: Seq<u64>, safe_point: u64, below: bool) -> Seq<u64>
    decreases s.len(),
{
    if s.len() == 0 {
        Seq::empty()
    } else if (s.last() < safe_point) == below {
        side(s.drop_last(), safe_point, below).push(s.last())
    } else {
        side(s.drop_last(), safe_point, below)
    }
}

/// One side of the safe point holds the numbers of that side, each as
/// often as it was there.
pub proof fn lemma_side(s: Seq<u64>, safe_point: u64, below: bool)
    ensures
        forall|f: u64|
            side(s, safe_point, below).contains(f) <==> (s.contains(f) && (f < safe_point)
                == below),
        s.no_duplicates() ==> side(s, safe_point, below).no_duplicates(),
    decreases s.len(),
{
    let t = side(s, safe_point, below);
    if s.len() == 0 {
    } else {
        let head = s.drop_last();
        let x = s.last();
        let th = side(head, safe_point, below);
        lemma_side(head, safe_point, below);
        assert(s =~= head.push(x));
        assert forall|f: u64| t.contains(f) <==> (s.contains(f) && (f < safe_point)
            == below) by {
            if s.contains(f) {
                let j = choose|j: int| 0 <= j < s.len() && s[j] == f;
                if j < head.len() {
                    assert(head[j] == f);
                    assert(head.contains(f));
                }
            }
            if head.contains(f) {
                let j = choose|j: int| 0 <= j < head.len() && head[j] == f;
                assert(s[j] == f);
            }
            assert(s[s.len() - 1] == x);
            if (x < safe_point) == below {
                assert(t == th.push(x));
                if th.contains(f) {
                    let j = choose|j: int| 0 <= j < th.len() && th[j] == f;
                    assert(t[j] == f);
                }
                if f == x {
                    assert(t[th.len() as int] == f);
                }
                if t.contains(f) {
                    let j = choose|j: int| 0 <= j < t.len() && t[j] == f;
                    if j < th.len() {
                        assert(th[j] == f);
                        assert(th.contains(f));
                    }
                }
            }
        }
        if s.no_duplicates() {
            assert(head.no_duplicates());
            if (x < safe_point) == below {
                assert(!head.contains(x)) by {
                    if head.contains(x) {
                        let j = choose|j: int| 0 <= j < head.len() && head[j] == x;
                        assert(s[j] == s[s.len() - 1]);
                    }
                }
                assert(!th.contains(x));
                assert forall|a: int, b: int| 0 <= a < t.len() && 0 <= b < t.len() && a
                    != b implies t[a] != t[b] by {
                    if a == th.len() {
                        assert(th.contains(th[b]));
                    } else if b == th.len() {
                        assert(th.contains(th[a]));
                    }
                }
            }
        }
    }
}

impl KvReader {
    /// Whether the cache is well formed: it holds no segment twice.
    pub closed spec fn wf(&self) -> bool {
        forall|i: int, j: int|
            0 <= i < j < self.readers@.len() ==> self.readers@[i] != self.readers@[j]
    }

    /// A reader without handles.
    pub fn new() -> (r: KvReader)
        ensures
            r.wf(),
            r@ == Set::<u64>::empty(),
    {
        let r = KvReader { readers: Vec::new() };
        assert(r@ =~= Set::<u64>::empty());
        r
    }

    /// Whether the reader holds a handle for the segment.
    pub fn contains_key(&self, file_no: u64) -> (r: bool)
        ensures
            r == self@.contains(file_no),
    {
        let mut i: usize = 0;
        while i < self.readers.len()
            invariant
                i <= self.readers@.len(),
                forall|j: int| 0 <= j < i ==> self.readers@[j] != file_no,
            decreases self.readers@.len() - i,
        {
            if self.readers[i] == file_no {
                return true;
            }
            i += 1;
        }
        false
    }

    /// Notes that a handle for the segment is held, and tells whether it
    /// was not held before.
    pub fn insert(&mut self, file_no: u64) -> (r: bool)
        requires
            old(self).wf(),
        ensures
            final(self).wf(),
            final(self)@ == old(self)@.insert(file_no),
            r == !old(self)@.contains(file_no),
    {
        if self.contains_key(file_no) {
            assert(self@ =~= old(self)@.insert(file_no));
            false
        } else {
            self.readers.push(file_no);
            proof {
                let before = old(self).readers@;
                assert forall|f: u64| self.readers@.contains(f) <==> (f == file_no
                    || before.contains(f)) by {
                    if before.contains(f) {
                        let i = choose|i: int| 0 <= i < before.len() && before[i] == f;
                        assert(self.readers@[i] == f);
                    }
                    if f == file_no {
                        assert(self.readers@[before.len() as int] == f);
                    }
                }
                assert(self@ =~= old(self)@.insert(file_no));
            }
            true
        }
    }

    /// Drops the handles of the segments below the safe point, and returns
    /// their numbers: these files are then removed from the directory.
    pub fn remove_stale_files(&mut self, safe_point: u64) -> (stale: Vec<u64>)
        requires
            old(self).wf(),
        ensures
            final(self).wf(),
            final(self)@ == old(self)@.filter(|f: u64| f >= safe_point),
            stale@.to_set() == old(self)@.filter(|f: u64| f < safe_point),
            stale@.no_duplicates(),
    {
        let ghost before = self.readers@;
        let mut keep: Vec<u64> = Vec::new();
        let mut gone: Vec<u64> = Vec::new();
        let mut cur: usize = 0;
        assert(before.subrange(0, 0) =~= Seq::<u64>::empty());
        while cur < self.readers.len()
            invariant
                cur <= self.readers@.len(),
                self.readers@ == before,
                keep@ == side(before.subrange(0, cur as int), safe_point, false),
                gone@ == side(before.subrange(0, cur as int), safe_point, true),
            decreases self.readers@.len() - cur,
        {
            let file_no = self.readers[cur];
            proof {
                assert(before.subrange(0, cur + 1).drop_last() =~= before.subrange(0, cur as int));
                assert(before.subrange(0, cur + 1).last() == file_no);
            }
            if file_no < safe_point {
                gone.push(file_no);
            } else {
                keep.push(file_no);
            }
            cur += 1;
        }
        proof {
            assert(before.subrange(0, cur as int) =~= before);
            assert(before.no_duplicates());
            lemma_side(before, safe_point, false);
            lemma_side(before, safe_point, true);
        }
        self.readers = keep;
        proof {
            assert(self@ =~= old(self)@.filter(|f: u64| f >= safe_point));
            assert(gone@.to_set() =~= old(self)@.filter(|f: u64| f < safe_point));
        }
        gone
    }

    /// Prepares reading the record at `cmd_pos`: the handles below the
    /// safe point are dropped, and a handle for the record's segment is
    /// noted as held from now on.
    pub fn read(&mut self, cmd_pos: &crate::index::CommandPos, safe_point: u64) -> (r: Access)
        requires
            old(self).wf(),
        ensures
            final(self).wf(),
            final(self)@ == old(self)@.filter(|f: u64| f >= safe_point).insert(cmd_pos.file_no),
            r.stale@.to_set() == old(self)@.filter(|f: u64| f < safe_point),
            r.stale@.no_duplicates(),
            r.open == !(old(self)@.contains(cmd_pos.file_no) && cmd_pos.file_no >= safe_point),
    {
        let stale = self.remove_stale_files(safe_point);
        let open = self.insert(cmd_pos.file_no);
        Access { stale, open }
    }
}

} // verus!
