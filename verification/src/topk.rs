//! The bounded top-K selector: an ascending list of at most K
//! (record index, distance) pairs, fed one candidate at a time.
use vstd::prelude::*;

verus! {

/// Entries are sorted by ascending distance.
pub open spec fn sorted_by_dist(s: Seq<(usize, u128)>) -> bool {
    forall|i: int, j: int|
        0 <= i < j < s.len() ==> (#[trigger] s[i]).1 <= (#[trigger] s[j]).1
}

/// Where a candidate with distance `d` is inserted: before the first
/// strictly greater entry, after any equal ones.
pub open spec fn ins_pos(s: Seq<(usize, u128)>, d: u128) -> int
    decreases s.len(),
{
    if s.len() == 0 {
        0
    } else if d < s[0].1 {
        0
    } else {
        1 + ins_pos(s.drop_first(), d)
    }
}

/// What one insertion does: place the candidate at its sorted position,
/// then drop the worst entry if the list has outgrown `k`.
pub open spec fn topk_insert(s: Seq<(usize, u128)>, k: int, item: usize, d: u128) -> Seq<
    (usize, u128),
> {
    let t = s.insert(ins_pos(s, d), (item, d));
    if t.len() > k {
        t.take(k)
    } else {
        t
    }
}

/// The insertion position is in range, everything before it is no greater
/// than the candidate, and the entry at it (if any) is strictly greater.
pub proof fn lemma_ins_pos_props(s: Seq<(usize, u128)>, d: u128)
    ensures
        0 <= ins_pos(s, d) <= s.len(),
        forall|i: int| 0 <= i < ins_pos(s, d) ==> (#[trigger] s[i]).1 <= d,
        ins_pos(s, d) < s.len() ==> d < s[ins_pos(s, d)].1,
    decreases s.len(),
{
    if s.len() > 0 && !(d < s[0].1) {
        lemma_ins_pos_props(s.drop_first(), d);
        assert forall|i: int| 0 <= i < ins_pos(s, d) implies (#[trigger] s[i]).1 <= d by {
            if i >= 1 {
                assert(s[i] == s.drop_first()[i - 1]);
            }
        }
        if ins_pos(s, d) < s.len() {
            assert(s[ins_pos(s, d)] == s.drop_first()[ins_pos(s.drop_first(), d)]);
        }
    }
}

/// If everything before `j` is no greater than the candidate and `j` is
/// strictly greater or the end, then `j` is the insertion position.
pub proof fn lemma_ins_pos_at(s: Seq<(usize, u128)>, d: u128, j: int)
    requires
        0 <= j <= s.len(),
        forall|i: int| 0 <= i < j ==> (#[trigger] s[i]).1 <= d,
        j < s.len() ==> d < s[j].1,
    ensures
        ins_pos(s, d) == j,
    decreases s.len(),
{
    if s.len() == 0 {
    } else if d < s[0].1 {
        assert(j == 0);
    } else {
        assert(j >= 1);
        assert(forall|i: int|
            0 <= i < s.len() - 1 ==> (#[trigger] s.drop_first()[i]) == s[i + 1]);
        lemma_ins_pos_at(s.drop_first(), d, j - 1);
    }
}

/// One insertion keeps the list sorted and brings its length to
/// `min(k, len + 1)`.
pub proof fn lemma_topk_insert_props(s: Seq<(usize, u128)>, k: int, item: usize, d: u128)
    requires
        sorted_by_dist(s),
        s.len() <= k,
        k >= 1,
    ensures
        sorted_by_dist(topk_insert(s, k, item, d)),
        topk_insert(s, k, item, d).len() == if s.len() + 1 <= k {
            s.len() + 1
        } else {
            k as nat
        },
{
    lemma_ins_pos_props(s, d);
    let pos = ins_pos(s, d);
    let t = s.insert(pos, (item, d));
    s.insert_ensures(pos, (item, d));
    assert forall|i: int, j: int| 0 <= i < j < t.len() implies (#[trigger] t[i]).1 <= (
    #[trigger] t[j]).1 by {
        if i < pos && j < pos {
        } else if i < pos && j == pos {
            assert(t[i] == s[i]);
        } else if i == pos && j > pos {
            assert(t[j] == s[j - 1]);
        } else if i < pos && j > pos {
            assert(t[i] == s[i] && t[j] == s[j - 1]);
            if pos < s.len() {
                assert(s[i].1 <= d);
            }
        } else {
            assert(t[i] == s[i - 1] && t[j] == s[j - 1]);
        }
    }
    if t.len() > k {
        assert(sorted_by_dist(t.take(k)));
    }
}

/// The bounded selector of the K nearest candidates seen so far.
pub struct TopK {
    entries: Vec<(usize, u128)>,
    k: usize,
}

impl View for TopK {
    type V = Seq<(usize, u128)>;

    closed spec fn view(&self) -> Seq<(usize, u128)> {
        self.entries@
    }
}

impl TopK {
    /// The bound K the selector was created with.
    pub closed spec fn cap(self) -> int {
        self.k as int
    }

    /// At most K entries, in ascending distance order.
    pub open spec fn wf(self) -> bool {
        &&& sorted_by_dist(self@)
        &&& self@.len() <= self.cap()
    }

    /// An empty selector for the `k` nearest candidates.
    pub fn new(k: usize) -> (s: Self)
        ensures
            s@ == Seq::<(usize, u128)>::empty(),
            s.cap() == k,
            s.wf(),
    {
        TopK { entries: Vec::new(), k }
    }

    /// Insert a candidate: it takes its place in ascending distance
    /// order, and the worst entry is dropped if the list now exceeds K.
    pub fn insert(&mut self, d: u128, item: usize)
        requires
            old(self).wf(),
            old(self).cap() >= 1,
        ensures
            final(self)@ == topk_insert(old(self)@, old(self).cap(), item, d),
            final(self).cap() == old(self).cap(),
            final(self).wf(),
            final(self)@.len() == if old(self)@.len() + 1 <= old(self).cap() {
                old(self)@.len() + 1int
            } else {
                old(self).cap()
            },
    {
        proof {
            lemma_topk_insert_props(self@, self.cap(), item, d);
            lemma_ins_pos_props(self@, d);
        }
        let ghost s0 = self@;
        let n = self.entries.len();
        let mut p: usize = 0;
        while p < n
            invariant
                0 <= p <= n,
                n == self.entries@.len(),
                self@ == s0,
                forall|i: int| 0 <= i < p ==> (#[trigger] self.entries@[i]).1 <= d,
            ensures
                0 <= p <= n,
                n == self.entries@.len(),
                self@ == s0,
                forall|i: int| 0 <= i < p ==> (#[trigger] self.entries@[i]).1 <= d,
                p < n ==> d < self.entries@[p as int].1,
            decreases n - p,
        {
            if d < self.entries[p].1 {
                break;
            }
            p = p + 1;
        }
        proof {
            if p < n {
                lemma_ins_pos_at(s0, d, p as int);
            } else {
                lemma_ins_pos_at(s0, d, n as int);
            }
        }
        self.entries.insert(p, (item, d));
        if self.entries.len() > self.k {
            self.entries.remove(self.k);
            proof {
                assert(self.entries@ =~= s0.insert(p as int, (item, d)).take(self.k as int));
            }
        }
    }

    /// The K-th best distance so far, used as the pruning threshold: none
    /// until K candidates are held.
    pub fn worst(&self) -> (r: Option<u128>)
        requires
            self.wf(),
            self.cap() >= 1,
        ensures
            r == if self@.len() < self.cap() {
                None::<u128>
            } else {
                Some(self@.last().1)
            },
    {
        if self.entries.len() < self.k {
            None
        } else {
            Some(self.entries[self.entries.len() - 1].1)
        }
    }

    /// The selected entries, ascending by distance.
    pub fn entries(&self) -> (r: &Vec<(usize, u128)>)
        ensures
            r@ == self@,
    {
        &self.entries
    }
}

} // verus!
