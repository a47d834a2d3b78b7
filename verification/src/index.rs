//! The index: for each live key, where its latest record lies in the log.

use vstd::prelude::*;
use vstd::pervasive::VecAdditionalExecFns;
use crate::text::key_lt;
use crate::text::key_order;
use crate::text::lemma_key_order;
use crate::text::Order;

verus! {

/// Where a record lies: the number of its segment, the offset of its first
/// byte in that segment, and its length in bytes.
#[derive(Clone, Copy, Debug, PartialEq, Eq, Structural)]
pub struct CommandPos {
    pub file_no: u64,
    pub start: u64,
    pub len: u64,
}

impl CommandPos {
    /// The position of the bytes from `span.1` up to `span.2` in the
    /// segment `span.0`.
    pub fn from(span: (u64, u64, u64)) -> (r: CommandPos)
        requires
            span.1 <= span.2,
        ensures
            r == (CommandPos { file_no: span.0, start: span.1, len: (span.2 - span.1) as u64 }),
    {
        CommandPos { file_no: span.0, start: span.1, len: span.2 - span.1 }
    }

    /// The offset behind the record's last byte.
    pub open spec fn end(self) -> int {
        self.start + self.len
    }
}

/// The entries of an index as contracts speak of them: key and position.
pub type Entries = Seq<(Seq<char>, CommandPos)>;

/// Whether the keys of `s` ascend strictly in the order of texts.
pub open spec fn ascending(s: Entries) -> bool {
    forall|i: int, j: int| 0 <= i < j < s.len() ==> key_lt(#[trigger] s[i].0, #[trigger] s[j].0)
}

/// Whether `s` has an entry for the key `k`.
pub open spec fn has_key(s: Entries, k: Seq<char>) -> bool {
    exists|i: int| 0 <= i < s.len() && (#[trigger] s[i]).0 == k
}

/// The place in `s` of an entry for the key `k`.
pub open spec fn slot_of(s: Entries, k: Seq<char>) -> int {
    choose|i: int| 0 <= i < s.len() && (#[trigger] s[i]).0 == k
}

/// The mapping from keys to positions that the entries `s` stand for.
pub open spec fn map_of(s: Entries) -> Map<Seq<char>, CommandPos> {
    Map::new(|k: Seq<char>| has_key(s, k), |k: Seq<char>| s[slot_of(s, k)].1)
}

/// In ascending entries each key stands at one place only.
pub proof fn lemma_slot(s: Entries, i: int)
    requires
        ascending(s),
        0 <= i < s.len(),
    ensures
        has_key(s, s[i].0),
        slot_of(s, s[i].0) == i,
        map_of(s).contains_key(s[i].0),
        map_of(s)[s[i].0] == s[i].1,
{
    let k = s[i].0;
    let j = slot_of(s, k);
    assert(0 <= j < s.len() && s[j].0 == k);
    lemma_key_order(k, k, k);
    if j < i {
        assert(key_lt(s[j].0, s[i].0));
    }
    if i < j {
        assert(key_lt(s[i].0, s[j].0));
    }
}

/// Putting a new key at its place keeps the order and adds the key to the
/// mapping.
pub proof fn lemma_insert(s: Entries, p: int, k: Seq<char>, v: CommandPos)
    requires
        ascending(s),
        0 <= p <= s.len(),
        forall|i: int| 0 <= i < p ==> key_lt(#[trigger] s[i].0, k),
        forall|i: int| p <= i < s.len() ==> key_lt(k, #[trigger] s[i].0),
    ensures
        ascending(s.insert(p, (k, v))),
        map_of(s.insert(p, (k, v))) == map_of(s).insert(k, v),
        !has_key(s, k),
{
    let t = s.insert(p, (k, v));
    assert forall|i: int, j: int| 0 <= i < j < t.len() implies key_lt(
        #[trigger] t[i].0,
        #[trigger] t[j].0,
    ) by {
        let a = if i < p { i } else { i - 1 };
        let b = if j < p { j } else { j - 1 };
        if i == p {
            assert(t[j] == s[b]);
        } else if j == p {
            assert(t[i] == s[a]);
        } else {
            assert(t[i] == s[a]);
            assert(t[j] == s[b]);
            assert(key_lt(s[a].0, s[b].0));
        }
    }
    if has_key(s, k) {
        let i = slot_of(s, k);
        lemma_key_order(k, k, k);
    }
    assert forall|q: Seq<char>| has_key(t, q) <==> (q == k || has_key(s, q)) by {
        if has_key(t, q) {
            let i = slot_of(t, q);
            if i < p {
                assert(t[i] == s[i]);
            } else if i > p {
                assert(t[i] == s[i - 1]);
            }
        }
        if q == k {
            assert(t[p].0 == k);
        } else if has_key(s, q) {
            let i = slot_of(s, q);
            if i < p {
                assert(t[i] == s[i]);
            } else {
                assert(t[i + 1] == s[i]);
            }
        }
    }
    assert forall|q: Seq<char>| has_key(t, q) implies #[trigger] map_of(t)[q] == map_of(s).insert(
        k,
        v,
    )[q] by {
        let i = slot_of(t, q);
        lemma_slot(t, i);
        if i < p {
            assert(t[i] == s[i]);
            lemma_slot(s, i);
        } else if i > p {
            assert(t[i] == s[i - 1]);
            lemma_slot(s, i - 1);
        }
    }
    assert(map_of(t) =~= map_of(s).insert(k, v));
}

/// Giving the entry at `p` a new position keeps the order and changes the
/// mapping at its key only.
pub proof fn lemma_update(s: Entries, p: int, v: CommandPos)
    requires
        ascending(s),
        0 <= p < s.len(),
    ensures
        ascending(s.update(p, (s[p].0, v))),
        map_of(s.update(p, (s[p].0, v))) == map_of(s).insert(s[p].0, v),
{
    let k = s[p].0;
    let t = s.update(p, (k, v));
    assert forall|i: int, j: int| 0 <= i < j < t.len() implies key_lt(
        #[trigger] t[i].0,
        #[trigger] t[j].0,
    ) by {
        assert(t[i].0 == s[i].0);
        assert(t[j].0 == s[j].0);
        assert(key_lt(s[i].0, s[j].0));
    }
    assert forall|q: Seq<char>| has_key(t, q) <==> (q == k || has_key(s, q)) by {
        if has_key(t, q) {
            let i = slot_of(t, q);
            assert(t[i].0 == s[i].0);
        }
        if q == k {
            assert(t[p].0 == k);
        } else if has_key(s, q) {
            let i = slot_of(s, q);
            assert(t[i].0 == s[i].0);
        }
    }
    assert forall|q: Seq<char>| has_key(t, q) implies #[trigger] map_of(t)[q] == map_of(s).insert(
        k,
        v,
    )[q] by {
        let i = slot_of(t, q);
        lemma_slot(t, i);
        lemma_slot(s, i);
        lemma_slot(s, p);
        assert(t[i].0 == s[i].0);
    }
    assert(map_of(t) =~= map_of(s).insert(k, v));
}

/// Taking the entry at `p` out keeps the order and takes its key out of
/// the mapping.
pub proof fn lemma_remove(s: Entries, p: int)
    requires
        ascending(s),
        0 <= p < s.len(),
    ensures
        ascending(s.remove(p)),
        map_of(s.remove(p)) == map_of(s).remove(s[p].0),
{
    let k = s[p].0;
    let t = s.remove(p);
    assert forall|i: int, j: int| 0 <= i < j < t.len() implies key_lt(
        #[trigger] t[i].0,
        #[trigger] t[j].0,
    ) by {
        let a = if i < p { i } else { i + 1 };
        let b = if j < p { j } else { j + 1 };
        assert(t[i] == s[a]);
        assert(t[j] == s[b]);
        assert(key_lt(s[a].0, s[b].0));
    }
    assert forall|q: Seq<char>| has_key(t, q) <==> (q != k && has_key(s, q)) by {
        if has_key(t, q) {
            let i = slot_of(t, q);
            let a = if i < p { i } else { i + 1 };
            assert(t[i] == s[a]);
            lemma_slot(s, a);
            lemma_slot(s, p);
        }
        if q != k && has_key(s, q) {
            let i = slot_of(s, q);
            if i < p {
                assert(t[i] == s[i]);
            } else {
                assert(t[i - 1] == s[i]);
            }
        }
    }
    assert forall|q: Seq<char>| has_key(t, q) implies #[trigger] map_of(t)[q] == map_of(s).remove(
        k,
    )[q] by {
        let i = slot_of(t, q);
        lemma_slot(t, i);
        let a = if i < p { i } else { i + 1 };
        assert(t[i] == s[a]);
        lemma_slot(s, a);
        lemma_slot(s, p);
    }
    assert(map_of(t) =~= map_of(s).remove(k));
}

/// Ascending entries are determined by the mapping they stand for.
pub proof fn lemma_ascending_unique(s: Entries, t: Entries)
    requires
        ascending(s),
        ascending(t),
        map_of(s) == map_of(t),
    ensures
        s == t,
    decreases s.len(),
{
    if s.len() == 0 {
        if t.len() > 0 {
            lemma_slot(t, 0);
            assert(map_of(s).contains_key(t[0].0));
        }
        assert(s =~= t);
    } else {
        let n = s.len() - 1;
        let ks = s[n].0;
        lemma_slot(s, n);
        assert(map_of(t).contains_key(ks));
        let j = slot_of(t, ks);
        let m = t.len() - 1;
        let kt = t[m].0;
        lemma_slot(t, m);
        assert(map_of(s).contains_key(kt));
        let i = slot_of(s, kt);
        lemma_key_order(ks, kt, ks);
        if j < m {
            assert(key_lt(t[j].0, t[m].0));
            if i < n {
                assert(key_lt(s[i].0, s[n].0));
            }
        }
        lemma_slot(t, j);
        lemma_remove(s, n);
        lemma_remove(t, m);
        lemma_ascending_unique(s.remove(n), t.remove(m));
        assert(s =~= s.remove(n).push(s[n]));
        assert(t =~= t.remove(m).push(t[m]));
    }
}

/// The entries of the mapping `m` in the ascending order of their keys.
pub open spec fn ordered(m: Map<Seq<char>, CommandPos>) -> Entries {
    choose|s: Entries| ascending(s) && map_of(s) == m
}

/// Ascending entries are the ordered entries of their mapping.
pub proof fn lemma_ordered(s: Entries)
    requires
        ascending(s),
    ensures
        ordered(map_of(s)) == s,
{
    lemma_ascending_unique(ordered(map_of(s)), s);
}

/// The number of entries of `s` whose key comes before `k`, where `s`
/// ascends.
pub open spec fn rank(s: Entries, k: Seq<char>) -> int
    decreases s.len(),
{
    if s.len() == 0 {
        0
    } else if key_lt(s.last().0, k) {
        s.len() as int
    } else {
        rank(s.drop_last(), k)
    }
}

/// In ascending entries, the keys before `rank` come before `k` and the
/// others do not.
pub proof fn lemma_rank(s: Entries, k: Seq<char>)
    requires
        ascending(s),
    ensures
        0 <= rank(s, k) <= s.len(),
        forall|i: int| 0 <= i < rank(s, k) ==> key_lt(#[trigger] s[i].0, k),
        forall|i: int| rank(s, k) <= i < s.len() ==> !key_lt(#[trigger] s[i].0, k),
    decreases s.len(),
{
    if s.len() > 0 {
        let n = s.len() - 1;
        if key_lt(s[n].0, k) {
            assert forall|i: int| 0 <= i < s.len() implies key_lt(#[trigger] s[i].0, k) by {
                if i < n {
                    assert(key_lt(s[i].0, s[n].0));
                    lemma_key_order(s[i].0, s[n].0, k);
                }
            }
        } else {
            let h = s.drop_last();
            assert forall|i: int, j: int| 0 <= i < j < h.len() implies key_lt(
                #[trigger] h[i].0,
                #[trigger] h[j].0,
            ) by {
                assert(key_lt(s[i].0, s[j].0));
            }
            lemma_rank(h, k);
            assert forall|i: int| 0 <= i < rank(s, k) implies key_lt(#[trigger] s[i].0, k) by {
                assert(h[i] == s[i]);
            }
            assert forall|i: int| rank(s, k) <= i < s.len() implies !key_lt(
                #[trigger] s[i].0,
                k,
            ) by {
                if i < n {
                    assert(h[i] == s[i]);
                }
            }
        }
    }
}

/// Whether the mapping `m` can be listed: it is what some ascending
/// entries stand for. The mapping of every index is.
pub open spec fn listable(m: Map<Seq<char>, CommandPos>) -> bool {
    exists|s: Entries| ascending(s) && map_of(s) == m
}

/// The ordered entries of a listable mapping ascend and stand for it.
pub proof fn lemma_listed(m: Map<Seq<char>, CommandPos>)
    requires
        listable(m),
    ensures
        ascending(ordered(m)),
        map_of(ordered(m)) == m,
{
}

/// The empty mapping can be listed.
pub proof fn lemma_listable_empty()
    ensures
        listable(Map::<Seq<char>, CommandPos>::empty()),
        ordered(Map::<Seq<char>, CommandPos>::empty()) == Seq::<(Seq<char>, CommandPos)>::empty(),
{
    let s = Seq::<(Seq<char>, CommandPos)>::empty();
    assert(map_of(s) =~= Map::<Seq<char>, CommandPos>::empty());
    assert(ascending(s));
    lemma_ordered(s);
}

/// A listable mapping stays listable when a key is set.
pub proof fn lemma_listable_insert(m: Map<Seq<char>, CommandPos>, k: Seq<char>, v: CommandPos)
    requires
        listable(m),
    ensures
        listable(m.insert(k, v)),
{
    let s = ordered(m);
    if has_key(s, k) {
        let p = slot_of(s, k);
        lemma_update(s, p, v);
        assert(ascending(s.update(p, (k, v))) && map_of(s.update(p, (k, v))) == m.insert(k, v));
    } else {
        lemma_rank(s, k);
        let p = rank(s, k);
        assert forall|i: int| p <= i < s.len() implies key_lt(k, #[trigger] s[i].0) by {
            lemma_key_order(k, s[i].0, k);
            if s[i].0 == k {
                assert(has_key(s, k));
            }
        }
        lemma_insert(s, p, k, v);
        assert(ascending(s.insert(p, (k, v))) && map_of(s.insert(p, (k, v))) == m.insert(k, v));
    }
}

/// A listable mapping stays listable when a key is taken out.
pub proof fn lemma_listable_remove(m: Map<Seq<char>, CommandPos>, k: Seq<char>)
    requires
        listable(m),
    ensures
        listable(m.remove(k)),
{
    let s = ordered(m);
    if has_key(s, k) {
        let p = slot_of(s, k);
        lemma_remove(s, p);
        assert(ascending(s.remove(p)) && map_of(s.remove(p)) == m.remove(k));
    } else {
        assert(m.remove(k) =~= m);
    }
}

/// The sum of the first `i` lengths of `lens`: the offset at which the
/// `i`-th of a row of records starts that are laid end to end.
pub open spec fn offset_of(lens: Seq<u64>, i: int) -> int
    decreases i,
{
    if i <= 0 {
        0
    } else {
        offset_of(lens, i - 1) + lens[i - 1]
    }
}

/// Offsets never go back.
pub proof fn lemma_offset_monotonic(lens: Seq<u64>, i: int, j: int)
    requires
        0 <= i <= j,
    ensures
        0 <= offset_of(lens, i) <= offset_of(lens, j),
    decreases j,
{
    if i < j {
        lemma_offset_monotonic(lens, i, j - 1);
    } else if 0 < i {
        lemma_offset_monotonic(lens, i - 1, j - 1);
    }
}

/// The entries `s` after their records were laid end to end in the segment
/// `file_no`, the `i`-th with the length `lens[i]`.
pub open spec fn relocated(s: Entries, file_no: u64, lens: Seq<u64>) -> Entries {
    Seq::new(
        s.len(),
        |i: int|
            (s[i].0, CommandPos { file_no, start: offset_of(lens, i) as u64, len: lens[i] }),
    )
}

/// Moving records keeps the keys and their order.
pub proof fn lemma_relocated(s: Entries, file_no: u64, lens: Seq<u64>)
    requires
        ascending(s),
    ensures
        ascending(relocated(s, file_no, lens)),
        map_of(relocated(s, file_no, lens)).dom() == map_of(s).dom(),
{
    let t = relocated(s, file_no, lens);
    assert forall|i: int, j: int| 0 <= i < j < t.len() implies key_lt(
        #[trigger] t[i].0,
        #[trigger] t[j].0,
    ) by {
        assert(key_lt(s[i].0, s[j].0));
    }
    assert forall|q: Seq<char>| has_key(t, q) <==> has_key(s, q) by {
        if has_key(t, q) {
            let i = slot_of(t, q);
            assert(s[i].0 == q);
        }
        if has_key(s, q) {
            let i = slot_of(s, q);
            assert(t[i].0 == q);
        }
    }
    assert(map_of(t).dom() =~= map_of(s).dom());
}

/// The index of the store: an ordered mapping from keys to positions.
/// Its entries are kept in the ascending order of their keys, which is
/// the order in which compaction walks them. The order is kept here, in
/// two vectors, and not by an ordered map of the standard library: of such
/// a map with texts as keys Verus proves nothing, as vstd describes it only
/// for keys whose order it knows.
#[derive(Debug, Clone)]
pub struct Index {
    keys: Vec<String>,
    positions: Vec<CommandPos>,
}

impl View for Index {
    type V = Map<Seq<char>, CommandPos>;

    open spec fn view(&self) -> Map<Seq<char>, CommandPos> {
        map_of(self.entries())
    }
}

impl Index {
    /// The entries in the order of their keys.
    pub closed spec fn entries(&self) -> Entries {
        Seq::new(self.keys@.len(), |i: int| (self.keys@[i]@, self.positions@[i]))
    }

    /// Whether the index is well formed: its keys ascend strictly.
    pub closed spec fn wf(&self) -> bool {
        &&& self.keys@.len() == self.positions@.len()
        &&& ascending(self.entries())
    }

    /// The entries of a well-formed index are the ordered entries of its
    /// mapping.
    pub proof fn lemma_wf(&self)
        requires
            self.wf(),
        ensures
            ascending(self.entries()),
            self.entries() == ordered(self@),
            listable(self@),
    {
        lemma_ordered(self.entries());
    }

    /// An index without entries.
    pub fn new() -> (r: Index)
        ensures
            r.wf(),
            r.entries() == Seq::<(Seq<char>, CommandPos)>::empty(),
            r@ == Map::<Seq<char>, CommandPos>::empty(),
    {
        let r = Index { keys: Vec::new(), positions: Vec::new() };
        assert(r.entries() =~= Seq::<(Seq<char>, CommandPos)>::empty());
        assert(r@ =~= Map::<Seq<char>, CommandPos>::empty());
        r
    }

    /// The number of keys.
    pub fn len(&self) -> (r: usize)
        ensures
            r == self.entries().len(),
    {
        self.keys.len()
    }

    /// Finds the place of `key`: the number of entries whose key comes
    /// before it, and whether the entry at that place has this key.
    fn search(&self, key: &str) -> (r: (usize, bool))
        requires
            self.wf(),
        ensures
            r.0 <= self.entries().len(),
            forall|i: int| 0 <= i < r.0 ==> key_lt(#[trigger] self.entries()[i].0, key@),
            forall|i: int|
                r.0 <= i < self.entries().len() ==> !key_lt(#[trigger] self.entries()[i].0, key@),
            r.1 == (r.0 < self.entries().len() && self.entries()[r.0 as int].0 == key@),
            r.1 == has_key(self.entries(), key@),
            r.1 ==> slot_of(self.entries(), key@) == r.0,
    {
        let ghost s = self.entries();
        let mut lo: usize = 0;
        let mut hi: usize = self.keys.len();
        let mut found = false;
        while lo < hi
            invariant_except_break
                !found,
            invariant
                s == self.entries(),
                ascending(s),
                lo <= hi <= s.len(),
                s.len() == self.keys@.len(),
                forall|i: int| 0 <= i < lo ==> key_lt(#[trigger] s[i].0, key@),
                forall|i: int| hi <= i < s.len() ==> key_lt(key@, #[trigger] s[i].0),
            ensures
                lo <= s.len(),
                found ==> lo < s.len() && s[lo as int].0 == key@,
                !found ==> lo == hi,
            decreases hi - lo,
        {
            let mid = lo + (hi - lo) / 2;
            assert(s[mid as int].0 == self.keys@[mid as int]@);
            let ord = key_order(self.keys[mid].as_str(), key);
            match ord {
                Order::Before => {
                    assert forall|i: int| 0 <= i < mid + 1 implies key_lt(
                        #[trigger] s[i].0,
                        key@,
                    ) by {
                        if i < mid {
                            assert(key_lt(s[i].0, s[mid as int].0));
                            lemma_key_order(s[i].0, s[mid as int].0, key@);
                        }
                    }
                    lo = mid + 1;
                },
                Order::Same => {
                    assert forall|i: int| 0 <= i < mid implies key_lt(#[trigger] s[i].0, key@) by {
                        assert(key_lt(s[i].0, s[mid as int].0));
                    }
                    assert forall|i: int| mid + 1 <= i < s.len() implies key_lt(
                        key@,
                        #[trigger] s[i].0,
                    ) by {
                        assert(key_lt(s[mid as int].0, s[i].0));
                    }
                    lo = mid;
                    hi = mid + 1;
                    found = true;
                    break ;
                },
                Order::After => {
                    assert forall|i: int| mid <= i < s.len() implies key_lt(
                        key@,
                        #[trigger] s[i].0,
                    ) by {
                        if mid < i {
                            assert(key_lt(s[mid as int].0, s[i].0));
                            lemma_key_order(key@, s[mid as int].0, s[i].0);
                        }
                    }
                    hi = mid;
                },
            }
        }
        proof {
            assert forall|i: int| lo <= i < s.len() implies !key_lt(#[trigger] s[i].0, key@) by {
                lemma_key_order(key@, s[i].0, key@);
            }
            if found {
                lemma_slot(s, lo as int);
            } else {
                if lo < s.len() {
                    lemma_key_order(key@, s[lo as int].0, key@);
                }
                if has_key(s, key@) {
                    let i = slot_of(s, key@);
                    lemma_key_order(key@, key@, key@);
                    lemma_key_order(key@, s[i].0, key@);
                }
            }
        }
        (lo, found)
    }

    /// The position of `key`, where the index has one.
    pub fn get(&self, key: &str) -> (r: Option<CommandPos>)
        requires
            self.wf(),
        ensures
            r == (if self@.contains_key(key@) {
                Some(self@[key@])
            } else {
                None
            }),
    {
        let (p, found) = self.search(key);
        if found {
            Some(self.positions[p])
        } else {
            None
        }
    }

    /// Whether the index has the key.
    pub fn contains_key(&self, key: &str) -> (r: bool)
        requires
            self.wf(),
        ensures
            r == self@.contains_key(key@),
    {
        let (_, found) = self.search(key);
        found
    }

    /// Sets the position of `key`, and returns the position it had.
    pub fn insert(&mut self, key: String, pos: CommandPos) -> (r: Option<CommandPos>)
        requires
            old(self).wf(),
        ensures
            final(self).wf(),
            final(self)@ == old(self)@.insert(key@, pos),
            r == (if old(self)@.contains_key(key@) {
                Some(old(self)@[key@])
            } else {
                None
            }),
    {
        let ghost s = self.entries();
        let (p, found) = self.search(key.as_str());
        if found {
            let before = self.positions[p];
            self.positions.set(p, pos);
            proof {
                lemma_slot(s, p as int);
                lemma_update(s, p as int, pos);
                assert(self.entries() =~= s.update(p as int, (key@, pos)));
            }
            Some(before)
        } else {
            let ghost k = key@;
            self.keys.insert(p, key);
            self.positions.insert(p, pos);
            proof {
                assert forall|i: int| p <= i < s.len() implies key_lt(k, #[trigger] s[i].0) by {
                    lemma_key_order(k, s[i].0, k);
                    if s[i].0 == k {
                        assert(has_key(s, k));
                    }
                }
                lemma_insert(s, p as int, k, pos);
                assert(self.entries() =~= s.insert(p as int, (k, pos)));
            }
            None
        }
    }

    /// Takes `key` out of the index, and returns the position it had.
    pub fn remove(&mut self, key: &str) -> (r: Option<CommandPos>)
        requires
            old(self).wf(),
        ensures
            final(self).wf(),
            final(self)@ == old(self)@.remove(key@),
            r == (if old(self)@.contains_key(key@) {
                Some(old(self)@[key@])
            } else {
                None
            }),
    {
        let ghost s = self.entries();
        let (p, found) = self.search(key);
        if found {
            let _ = self.keys.remove(p);
            let pos = self.positions.remove(p);
            proof {
                lemma_slot(s, p as int);
                lemma_remove(s, p as int);
                assert(self.entries() =~= s.remove(p as int));
            }
            Some(pos)
        } else {
            assert(self@ =~= old(self)@.remove(key@));
            None
        }
    }

    /// The positions of the entries, in the order of their keys.
    pub fn positions(&self) -> (r: Vec<CommandPos>)
        requires
            self.wf(),
        ensures
            r@ == self.entries().map_values(|e: (Seq<char>, CommandPos)| e.1),
    {
        let r = self.positions.clone();
        assert(r@ =~= self.entries().map_values(|e: (Seq<char>, CommandPos)| e.1));
        r
    }

    /// Points every entry at its copy in the segment `file_no`, where the
    /// records were laid end to end in the order of their keys, the `i`-th
    /// with the length `copied[i]`. Nothing is changed, and `false` comes
    /// back, where `copied` has not one length for each entry or the
    /// lengths add up to more than a `u64` holds.
    pub fn relocate(&mut self, file_no: u64, copied: &[u64]) -> (done: bool)
        requires
            old(self).wf(),
        ensures
            final(self).wf(),
            done == (copied@.len() == old(self).entries().len() && offset_of(
                copied@,
                copied@.len() as int,
            ) <= u64::MAX),
            done ==> final(self).entries() == relocated(old(self).entries(), file_no, copied@),
            !done ==> final(self).entries() == old(self).entries(),
    {
        let n = self.positions.len();
        if copied.len() != n {
            return false;
        }
        let mut total: u64 = 0;
        let mut i: usize = 0;
        while i < n
            invariant
                i <= n,
                n == copied@.len(),
                total == offset_of(copied@, i as int),
                self.wf(),
                self.entries() == old(self).entries(),
            decreases n - i,
        {
            match total.checked_add(copied[i]) {
                Some(t) => {
                    total = t;
                },
                None => {
                    proof {
                        lemma_offset_monotonic(copied@, i as int + 1, n as int);
                    }
                    return false;
                },
            }
            i += 1;
        }
        let ghost s = self.entries();
        let mut off: u64 = 0;
        let mut j: usize = 0;
        while j < n
            invariant
                j <= n,
                n == copied@.len(),
                n == self.positions@.len(),
                n == self.keys@.len(),
                self.keys@ == old(self).keys@,
                s == old(self).entries(),
                offset_of(copied@, n as int) <= u64::MAX,
                off == offset_of(copied@, j as int),
                forall|k: int|
                    0 <= k < j ==> self.positions@[k] == (CommandPos {
                        file_no,
                        start: offset_of(copied@, k) as u64,
                        len: copied@[k],
                    }),
            decreases n - j,
        {
            proof {
                lemma_offset_monotonic(copied@, j as int + 1, n as int);
            }
            self.positions.set(j, CommandPos { file_no, start: off, len: copied[j] });
            off = off + copied[j];
            j += 1;
        }
        proof {
            assert(self.entries() =~= relocated(s, file_no, copied@));
            lemma_relocated(s, file_no, copied@);
        }
        true
    }
}

} // verus!
