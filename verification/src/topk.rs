//! A bounded buffer that keeps the nearest candidates seen so far.

use crate::dist::Dist;
use crate::select::{copy_point, rows};
use vstd::prelude::*;

verus! {

/// A point together with its distance from the query point.  Candidates are
/// ordered by distance alone.
#[derive(Debug)]
pub struct Candidate {
    pub dist: Dist,
    pub point: Vec<i64>,
}

impl View for Candidate {
    type V = (nat, Seq<i64>);

    open spec fn view(&self) -> (nat, Seq<i64>) {
        (self.dist@, self.point@)
    }
}

/// Whether the distances never decrease along the sequence.
pub open spec fn ascending(s: Seq<(nat, Seq<i64>)>) -> bool {
    forall|i: int, j: int| 0 <= i <= j < s.len() ==> (#[trigger] s[i]).0 <= (#[trigger] s[j]).0
}

/// Where a candidate at distance `d` enters the sequence: behind every
/// candidate at the end that is farther, so behind those at the same
/// distance that came before it.
pub open spec fn slot_for(s: Seq<(nat, Seq<i64>)>, d: nat) -> int
    decreases s.len(),
{
    if s.len() == 0 || s.last().0 <= d {
        s.len() as int
    } else {
        slot_for(s.drop_last(), d)
    }
}

/// The sequence after candidate `c` was offered to a buffer of capacity
/// `cap`: `c` enters at its slot, and if that makes one too many, the last
/// and so the farthest candidate leaves.
pub open spec fn offered(s: Seq<(nat, Seq<i64>)>, c: (nat, Seq<i64>), cap: nat) -> Seq<
    (nat, Seq<i64>),
> {
    let grown = s.insert(slot_for(s, c.0), c);
    if grown.len() > cap {
        grown.subrange(0, cap as int)
    } else {
        grown
    }
}

/// The points of a sequence of candidates, in the same order.
pub open spec fn points_of(s: Seq<(nat, Seq<i64>)>) -> Seq<Seq<i64>> {
    Seq::new(s.len(), |i: int| s[i].1)
}

/// In an ascending sequence the slot for `d` parts the candidates that are
/// no farther than `d` from those that are farther.
pub proof fn lemma_slot_for(s: Seq<(nat, Seq<i64>)>, d: nat)
    requires
        ascending(s),
    ensures
        0 <= slot_for(s, d) <= s.len(),
        forall|i: int| 0 <= i < slot_for(s, d) ==> (#[trigger] s[i]).0 <= d,
        forall|i: int| slot_for(s, d) <= i < s.len() ==> (#[trigger] s[i]).0 > d,
    decreases s.len(),
{
    if s.len() == 0 || s.last().0 <= d {
    } else {
        let t = s.drop_last();
        assert(ascending(t)) by {
            assert forall|i: int, j: int| 0 <= i <= j < t.len() implies (#[trigger] t[i]).0 <= (
            #[trigger] t[j]).0 by {
                assert(t[i] == s[i] && t[j] == s[j]);
            }
        }
        lemma_slot_for(t, d);
        assert forall|i: int| 0 <= i < slot_for(s, d) implies (#[trigger] s[i]).0 <= d by {
            assert(t[i] == s[i]);
        }
        assert forall|i: int| slot_for(s, d) <= i < s.len() implies (#[trigger] s[i]).0 > d by {
            if i < t.len() {
                assert(t[i] == s[i]);
            }
        }
    }
}

/// Offering a candidate to an ascending sequence leaves it ascending and no
/// longer than the capacity allows.
pub proof fn lemma_offered_ascending(s: Seq<(nat, Seq<i64>)>, c: (nat, Seq<i64>), cap: nat)
    requires
        ascending(s),
        s.len() <= cap,
    ensures
        ascending(offered(s, c, cap)),
        offered(s, c, cap).len() == if s.len() < cap {
            s.len() + 1
        } else {
            cap
        },
{
    lemma_slot_for(s, c.0);
    let pos = slot_for(s, c.0);
    let grown = s.insert(pos, c);
    assert forall|i: int, j: int| 0 <= i <= j < grown.len() implies (#[trigger] grown[i]).0 <= (
    #[trigger] grown[j]).0 by {
        if i < pos {
            assert(grown[i] == s[i]);
        } else if i > pos {
            assert(grown[i] == s[i - 1]);
        }
        if j < pos {
            assert(grown[j] == s[j]);
        } else if j > pos {
            assert(grown[j] == s[j - 1]);
        }
    }
    let kept = offered(s, c, cap);
    assert forall|i: int, j: int| 0 <= i <= j < kept.len() implies (#[trigger] kept[i]).0 <= (
    #[trigger] kept[j]).0 by {
        assert(kept[i] == grown[i] && kept[j] == grown[j]);
    }
}

/// The nearest candidates offered so far, at most `capacity` of them, in
/// ascending order of distance.
#[derive(Debug)]
pub struct TopK {
    cap: usize,
    items: Vec<Candidate>,
}

impl View for TopK {
    type V = Seq<(nat, Seq<i64>)>;

    closed spec fn view(&self) -> Seq<(nat, Seq<i64>)> {
        Seq::new(self.items@.len(), |i: int| self.items@[i]@)
    }
}

impl TopK {
    /// How many candidates the buffer keeps at most.
    pub closed spec fn capacity(&self) -> nat {
        self.cap as nat
    }

    /// The buffer is never over its capacity and always in ascending order.
    pub open spec fn wf(&self) -> bool {
        &&& self@.len() <= self.capacity()
        &&& ascending(self@)
    }

    /// An empty buffer that keeps at most `cap` candidates.
    pub fn new(cap: usize) -> (t: TopK)
        ensures
            t.wf(),
            t@ == Seq::<(nat, Seq<i64>)>::empty(),
            t.capacity() == cap,
    {
        let t = TopK { cap, items: Vec::new() };
        assert(t@ =~= Seq::empty());
        t
    }

    /// The number of candidates kept.
    pub fn len(&self) -> (n: usize)
        ensures
            n == self@.len(),
    {
        self.items.len()
    }

    /// The distance of the farthest candidate kept, if there is any.
    pub fn worst(&self) -> (d: Option<Dist>)
        ensures
            match d {
                Some(d) => self@.len() > 0 && d@ == self@.last().0,
                None => self@.len() == 0,
            },
    {
        let n = self.items.len();
        if n == 0 {
            None
        } else {
            Some(self.items[n - 1].dist)
        }
    }

    /// Offers a candidate: it is kept at its place in the order, and if the
    /// buffer is then over its capacity the farthest candidate is dropped.
    pub fn push(&mut self, c: Candidate)
        requires
            old(self).wf(),
        ensures
            final(self).wf(),
            final(self).capacity() == old(self).capacity(),
            final(self)@ == offered(old(self)@, c@, old(self).capacity()),
    {
        let ghost before = self@;
        let ghost d = c@.0;
        let mut i: usize = self.items.len();
        assert(before.subrange(0, i as int) =~= before);
        while i > 0 && c.dist.lt(&self.items[i - 1].dist)
            invariant
                i <= self.items.len(),
                self@ == before,
                c@.0 == d,
                slot_for(before, d) == slot_for(before.subrange(0, i as int), d),
            decreases i,
        {
            proof {
                let s = before.subrange(0, i as int);
                assert(s.last() == before[i - 1]);
                assert(s.drop_last() =~= before.subrange(0, i - 1));
            }
            i -= 1;
        }
        proof {
            let s = before.subrange(0, i as int);
            if i > 0 {
                assert(s.last() == before[i - 1]);
            }
            assert(slot_for(before, d) == i);
            lemma_offered_ascending(before, c@, self.capacity());
        }
        self.items.insert(i, c);
        assert(self@ =~= before.insert(i as int, c@));
        if self.items.len() > self.cap {
            self.items.pop();
            assert(self@ =~= before.insert(i as int, c@).subrange(0, self.cap as int));
        }
    }

    /// The points kept, nearest first.
    pub fn into_points(self) -> (r: Vec<Vec<i64>>)
        ensures
            rows(r@) == points_of(self@),
    {
        let mut out: Vec<Vec<i64>> = Vec::new();
        let mut i: usize = 0;
        while i < self.items.len()
            invariant
                i <= self.items.len(),
                out.len() == i,
                forall|x: int| 0 <= x < i ==> (#[trigger] out@[x])@ == self.items@[x].point@,
            decreases self.items.len() - i,
        {
            out.push(copy_point(&self.items[i].point));
            i += 1;
        }
        assert(rows(out@) =~= points_of(self@));
        out
    }
}

} // verus!
