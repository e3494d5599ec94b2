use vstd::prelude::*;

verus! {

use crate::types::no_dup;

/// One cell of a generational map. The generation stamps the handle that may
/// address the cell; the value is present exactly while that handle is live.
pub struct Slot<V> {
    pub generation: u64,
    pub value: Option<V>,
}

/// A dense map addressed by `(index, generation)` handles. Handles stay
/// valid across unrelated inserts and removes, and a handle whose value was
/// removed is never honoured again: a freed cell is only reissued under a
/// strictly larger generation.
pub struct BigMap<V> {
    pub slots: Vec<Slot<V>>,
    pub live: usize,
}

/// Number of occupied cells.
pub open spec fn count_live<V>(s: Seq<Slot<V>>) -> nat
    decreases s.len(),
{
    if s.len() == 0 {
        0
    } else {
        count_live(s.drop_last()) + if s.last().value is Some {
            1nat
        } else {
            0nat
        }
    }
}

pub proof fn lemma_count_live_update<V>(s: Seq<Slot<V>>, i: int, slot: Slot<V>)
    requires
        0 <= i < s.len(),
    ensures
        count_live(s.update(i, slot)) == count_live(s) - (if s[i].value is Some {
            1int
        } else {
            0int
        }) + (if slot.value is Some {
            1int
        } else {
            0int
        }),
    decreases s.len(),
{
    let t = s.update(i, slot);
    if i == s.len() - 1 {
        assert(t.drop_last() =~= s.drop_last());
    } else {
        assert(t.drop_last() =~= s.drop_last().update(i, slot));
        lemma_count_live_update(s.drop_last(), i, slot);
        assert(t.last() == s.last());
    }
}

pub proof fn lemma_count_live_le<V>(s: Seq<Slot<V>>)
    ensures
        count_live(s) <= s.len(),
    decreases s.len(),
{
    if s.len() > 0 {
        lemma_count_live_le(s.drop_last());
    }
}

pub proof fn lemma_count_live_take<V>(s: Seq<Slot<V>>, i: int)
    requires
        0 <= i < s.len(),
    ensures
        count_live(s.take(i + 1)) == count_live(s.take(i)) + (if s[i].value is Some {
            1int
        } else {
            0int
        }),
{
    assert(s.take(i + 1).drop_last() =~= s.take(i));
    assert(s.take(i + 1).last() == s[i]);
}

impl<V> BigMap<V> {
    /// The stored live count matches the cells.
    pub open spec fn wf(self) -> bool {
        self.live == count_live(self.slots@)
    }

    pub open spec fn spec_contains(self, index: int, generation: u64) -> bool {
        &&& 0 <= index < self.slots@.len()
        &&& self.slots@[index].generation == generation
        &&& self.slots@[index].value is Some
    }

    pub open spec fn spec_at(self, index: int) -> V
        recommends
            0 <= index < self.slots@.len(),
    {
        self.slots@[index].value.unwrap()
    }

    pub open spec fn spec_len(self) -> nat {
        count_live(self.slots@)
    }

    pub fn new() -> (m: BigMap<V>)
        ensures
            m.wf(),
            m.slots@.len() == 0,
            m.spec_len() == 0,
            forall|i: int, g: u64| !m.spec_contains(i, g),
    {
        BigMap { slots: Vec::new(), live: 0 }
    }

    pub fn len(&self) -> (n: usize)
        requires
            self.wf(),
        ensures
            n == self.spec_len(),
    {
        self.live
    }

    pub fn contains_key(&self, index: usize, generation: u64) -> (r: bool)
        ensures
            r == self.spec_contains(index as int, generation),
    {
        if index < self.slots.len() {
            let slot = &self.slots[index];
            slot.generation == generation && slot.value.is_some()
        } else {
            false
        }
    }

    pub fn get(&self, index: usize, generation: u64) -> (r: Option<&V>)
        ensures
            match r {
                Some(v) => self.spec_contains(index as int, generation) && *v == self.spec_at(
                    index as int,
                ),
                None => !self.spec_contains(index as int, generation),
            },
    {
        if index < self.slots.len() {
            let slot = &self.slots[index];
            if slot.generation == generation {
                match &slot.value {
                    Some(v) => Some(v),
                    None => None,
                }
            } else {
                None
            }
        } else {
            None
        }
    }

    fn find_free(&self) -> (r: Option<usize>)
        ensures
            r matches Some(i) ==> i < self.slots@.len() && self.slots@[i as int].value is None
                && self.slots@[i as int].generation < u64::MAX,
    {
        let n: usize = self.slots.len();
        let mut i: usize = 0;
        while i < n
            invariant
                n == self.slots@.len(),
                i <= n,
            decreases n - i,
        {
            let reusable = self.slots[i].value.is_none() && self.slots[i].generation < u64::MAX;
            if reusable {
                return Some(i);
            }
            i = i + 1;
        }
        None
    }

    /// Stores a value and returns its fresh handle. The handle never aliases
    /// any handle that was live before, and every live entry survives.
    pub fn insert(&mut self, v: V) -> (k: (usize, u64))
        requires
            old(self).wf(),
            old(self).spec_len() < usize::MAX,
            old(self).slots@.len() < usize::MAX,
        ensures
            final(self).wf(),
            final(self).spec_contains(k.0 as int, k.1),
            final(self).spec_at(k.0 as int) == v,
            !old(self).spec_contains(k.0 as int, k.1),
            final(self).spec_len() == old(self).spec_len() + 1,
            forall|i: int, g: u64|
                old(self).spec_contains(i, g) ==> final(self).spec_contains(i, g)
                    && final(self).spec_at(i) == old(self).spec_at(i),
            forall|i: int, g: u64|
                final(self).spec_contains(i, g) && !(i == k.0 as int && g == k.1)
                    ==> old(self).spec_contains(i, g)
                    && final(self).spec_at(i) == old(self).spec_at(i),
            final(self).slots@.len() >= old(self).slots@.len(),
    {
        match self.find_free() {
            Some(i) => {
                let gen2: u64 = self.slots[i].generation + 1;
                proof {
                    lemma_count_live_update(
                        self.slots@,
                        i as int,
                        Slot { generation: gen2, value: Some(v) },
                    );
                }
                self.slots[i] = Slot { generation: gen2, value: Some(v) };
                self.live = self.live + 1;
                (i, gen2)
            },
            None => {
                let n: usize = self.slots.len();
                proof {
                    assert(self.slots@.push(Slot { generation: 0u64, value: Some(v) }).drop_last()
                        =~= self.slots@);
                }
                self.slots.push(Slot { generation: 0, value: Some(v) });
                self.live = self.live + 1;
                (n, 0)
            },
        }
    }

    /// Removes and returns the value addressed by a live handle; a dead
    /// handle leaves the map unchanged.
    pub fn remove(&mut self, index: usize, generation: u64) -> (r: Option<V>)
        requires
            old(self).wf(),
        ensures
            final(self).wf(),
            match r {
                Some(v) => {
                    &&& old(self).spec_contains(index as int, generation)
                    &&& v == old(self).spec_at(index as int)
                    &&& final(self).spec_len() == old(self).spec_len() - 1
                    &&& forall|g: u64| !final(self).spec_contains(index as int, g)
                    &&& final(self).slots@.len() == old(self).slots@.len()
                    &&& final(self).slots@[index as int].generation == generation
                    &&& final(self).slots@[index as int].value is None
                },
                None => {
                    &&& !old(self).spec_contains(index as int, generation)
                    &&& *final(self) == *old(self)
                },
            },
            forall|i: int, g: u64|
                i != index as int ==> final(self).spec_contains(i, g)
                    == old(self).spec_contains(i, g),
            forall|i: int, g: u64|
                i != index as int && old(self).spec_contains(i, g)
                    ==> final(self).spec_at(i) == old(self).spec_at(i),
            forall|i: int|
                0 <= i < old(self).slots@.len() && i != index as int ==> final(self).slots@[i]
                    == old(self).slots@[i],
            final(self).slots@.len() == old(self).slots@.len(),
    {
        if index < self.slots.len() {
            if self.slots[index].generation == generation {
                let has = self.slots[index].value.is_some();
                if has {
                    proof {
                        lemma_count_live_update(
                            self.slots@,
                            index as int,
                            Slot { generation, value: None },
                        );
                        lemma_count_live_update(
                            self.slots@,
                            index as int,
                            self.slots@[index as int],
                        );
                    }
                    let slot_ref = &mut self.slots[index];
                    let vopt = slot_ref.value.take();
                    self.live = self.live - 1;
                    proof {
                        assert(self.slots@ =~= old(self).slots@.update(
                            index as int,
                            Slot { generation, value: None },
                        ));
                    }
                    match vopt {
                        Some(v) => Some(v),
                        None => None,
                    }
                } else {
                    None
                }
            } else {
                None
            }
        } else {
            None
        }
    }

    /// Restores a value into the reserved cell it was taken from, under the
    /// same generation, so every handle that addressed it before addresses
    /// it again.
    pub fn put_at(&mut self, index: usize, generation: u64, v: V)
        requires
            old(self).wf(),
            index < old(self).slots@.len(),
            old(self).slots@[index as int].generation == generation,
            old(self).slots@[index as int].value is None,
        ensures
            final(self).wf(),
            final(self).spec_contains(index as int, generation),
            final(self).spec_at(index as int) == v,
            final(self).spec_len() == old(self).spec_len() + 1,
            final(self).slots@.len() == old(self).slots@.len(),
            forall|i: int, g: u64|
                i != index as int ==> final(self).spec_contains(i, g) == old(self).spec_contains(
                    i,
                    g,
                ),
            forall|i: int, g: u64|
                i != index as int && old(self).spec_contains(i, g) ==> final(self).spec_at(i)
                    == old(self).spec_at(i),
            forall|i: int|
                0 <= i < old(self).slots@.len() && i != index as int ==> final(self).slots@[i]
                    == old(self).slots@[i],
    {
        let _n: usize = self.slots.len();
        proof {
            lemma_count_live_update(
                self.slots@,
                index as int,
                Slot { generation, value: Some(v) },
            );
            lemma_count_live_le(self.slots@.update(index as int, Slot { generation, value: Some(v) }));
        }
        self.slots[index] = Slot { generation, value: Some(v) };
        self.live = self.live + 1;
    }

    /// All live handles, in index order.
    pub fn keys(&self) -> (r: Vec<(usize, u64)>)
        requires
            self.wf(),
        ensures
            r@.len() == self.spec_len(),
            no_dup(r@),
            forall|j: int|
                0 <= j < r@.len() ==> #[trigger] self.spec_contains(r@[j].0 as int, r@[j].1),
            forall|i: int, g: u64|
                self.spec_contains(i, g) ==> r@.contains((i as usize, g)),
    {
        let n: usize = self.slots.len();
        let mut r: Vec<(usize, u64)> = Vec::new();
        let mut i: usize = 0;
        while i < n
            invariant
                self.wf(),
                n == self.slots@.len(),
                i <= n,
                r@.len() == count_live(self.slots@.take(i as int)),
                forall|j: int|
                    0 <= j < r@.len() ==> (#[trigger] r@[j]).0 < i && self.spec_contains(
                        r@[j].0 as int,
                        r@[j].1,
                    ),
                forall|k: int, g: u64|
                    0 <= k < i && self.spec_contains(k, g) ==> r@.contains((k as usize, g)),
                no_dup(r@),
            decreases n - i,
        {
            proof {
                lemma_count_live_take(self.slots@, i as int);
            }
            let slot = &self.slots[i];
            if slot.value.is_some() {
                let ghost r_old = r@;
                r.push((i, slot.generation));
                proof {
                    assert(r@[r_old.len() as int] == (i as usize, slot.generation));
                    assert(r@.contains((i as usize, slot.generation)));
                    assert forall|k: int, g: u64|
                        0 <= k < i && self.spec_contains(k, g) implies r@.contains(
                        (k as usize, g),
                    ) by {
                        assert(r_old.contains((k as usize, g)));
                        let j = choose|j: int|
                            0 <= j < r_old.len() && r_old[j] == (k as usize, g);
                        assert(r@[j] == (k as usize, g));
                    }
                }
            }
            i = i + 1;
        }
        proof {
            assert(self.slots@.take(n as int) =~= self.slots@);
        }
        r
    }
}

} // verus!
