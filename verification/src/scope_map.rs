use vstd::prelude::*;

verus! {

use crate::types::{EntityId, UserKey};

/// One explicit visibility override: the user should (or should not) see
/// the entity, regardless of what else would be inferred.
#[derive(Clone, Copy, PartialEq, Eq, Structural, Debug)]
pub struct ScopeEntry {
    pub user: UserKey,
    pub entity: EntityId,
    pub included: bool,
}

/// Explicit per-(user, entity) visibility overrides. Absence of an entry
/// means the default: not in scope.
pub struct EntityScopeMap {
    pub entries: Vec<ScopeEntry>,
}

/// No (user, entity) pair occurs twice.
pub open spec fn unique_pairs(s: Seq<ScopeEntry>) -> bool {
    forall|i: int, j: int|
        0 <= i < j < s.len() ==> !(s[i].user == s[j].user && s[i].entity == s[j].entity)
}

/// Some entry records exactly this override.
pub open spec fn has_triple(s: Seq<ScopeEntry>, u: UserKey, e: EntityId, b: bool) -> bool {
    exists|j: int| 0 <= j < s.len() && s[j] == (ScopeEntry { user: u, entity: e, included: b })
}

/// Dropping the entry at `i` does not disturb overrides for other pairs.
pub proof fn lemma_triple_remove(s: Seq<ScopeEntry>, i: int)
    requires
        0 <= i < s.len(),
        unique_pairs(s),
    ensures
        unique_pairs(s.remove(i)),
        forall|u: UserKey, e: EntityId, b: bool|
            !(u == s[i].user && e == s[i].entity) ==> has_triple(s.remove(i), u, e, b)
                == has_triple(s, u, e, b),
{
    let t = s.remove(i);
    assert forall|a: int, c: int| 0 <= a < c < t.len() implies !(t[a].user == t[c].user
        && t[a].entity == t[c].entity) by {
        let sa: int = if a < i { a } else { a + 1 };
        let sc: int = if c < i { c } else { c + 1 };
        assert(t[a] == s[sa] && t[c] == s[sc] && sa < sc);
    }
    assert forall|u: UserKey, e: EntityId, b: bool|
        !(u == s[i].user && e == s[i].entity) && has_triple(s, u, e, b) implies has_triple(
        t,
        u,
        e,
        b,
    ) by {
        let j = choose|j: int|
            0 <= j < s.len() && s[j] == (ScopeEntry { user: u, entity: e, included: b });
        if j < i {
            assert(t[j] == s[j]);
        } else {
            assert(t[j - 1] == s[j]);
        }
    }
    assert forall|u: UserKey, e: EntityId, b: bool|
        !(u == s[i].user && e == s[i].entity) && has_triple(t, u, e, b) implies has_triple(
        s,
        u,
        e,
        b,
    ) by {
        let j = choose|j: int|
            0 <= j < t.len() && t[j] == (ScopeEntry { user: u, entity: e, included: b });
        if j < i {
            assert(s[j] == t[j]);
        } else {
            assert(s[j + 1] == t[j]);
        }
    }
}

impl EntityScopeMap {
    pub open spec fn wf(self) -> bool {
        unique_pairs(self.entries@)
    }

    /// The override recorded for a pair, if any.
    pub open spec fn spec_get(self, u: UserKey, e: EntityId) -> Option<bool> {
        if has_triple(self.entries@, u, e, true) {
            Some(true)
        } else if has_triple(self.entries@, u, e, false) {
            Some(false)
        } else {
            None
        }
    }

    pub fn new() -> (m: EntityScopeMap)
        ensures
            m.wf(),
            forall|u: UserKey, e: EntityId| m.spec_get(u, e) is None,
    {
        EntityScopeMap { entries: Vec::new() }
    }

    fn find(&self, u: UserKey, e: EntityId) -> (r: Option<usize>)
        ensures
            match r {
                Some(i) => i < self.entries@.len() && self.entries@[i as int].user == u
                    && self.entries@[i as int].entity == e,
                None => forall|j: int|
                    0 <= j < self.entries@.len() ==> !((#[trigger] self.entries@[j]).user == u
                        && self.entries@[j].entity == e),
            },
    {
        let n: usize = self.entries.len();
        let mut i: usize = 0;
        while i < n
            invariant
                n == self.entries@.len(),
                i <= n,
                forall|j: int|
                    0 <= j < i ==> !((#[trigger] self.entries@[j]).user == u
                        && self.entries@[j].entity == e),
            decreases n - i,
        {
            if self.entries[i].user == u && self.entries[i].entity == e {
                return Some(i);
            }
            i = i + 1;
        }
        None
    }

    pub fn get(&self, u: UserKey, e: EntityId) -> (r: Option<bool>)
        requires
            self.wf(),
        ensures
            r == self.spec_get(u, e),
    {
        match self.find(u, e) {
            Some(i) => {
                let b = self.entries[i].included;
                proof {
                    assert(self.entries@[i as int] == (ScopeEntry { user: u, entity: e, included: b }));
                    if has_triple(self.entries@, u, e, !b) {
                        let j = choose|j: int|
                            0 <= j < self.entries@.len() && self.entries@[j] == (ScopeEntry {
                                user: u,
                                entity: e,
                                included: !b,
                            });
                        assert(j != i as int);
                        assert(false);
                    }
                }
                Some(b)
            },
            None => {
                proof {
                    if has_triple(self.entries@, u, e, true) {
                        let j = choose|j: int|
                            0 <= j < self.entries@.len() && self.entries@[j] == (ScopeEntry {
                                user: u,
                                entity: e,
                                included: true,
                            });
                        assert(false);
                    }
                    if has_triple(self.entries@, u, e, false) {
                        let j = choose|j: int|
                            0 <= j < self.entries@.len() && self.entries@[j] == (ScopeEntry {
                                user: u,
                                entity: e,
                                included: false,
                            });
                        assert(false);
                    }
                }
                None
            },
        }
    }

    /// Records an override, replacing any previous override for the pair.
    pub fn insert(&mut self, u: UserKey, e: EntityId, included: bool)
        requires
            old(self).wf(),
        ensures
            final(self).wf(),
            final(self).spec_get(u, e) == Some(included),
            forall|u2: UserKey, e2: EntityId|
                !(u2 == u && e2 == e) ==> final(self).spec_get(u2, e2) == old(self).spec_get(
                    u2,
                    e2,
                ),
    {
        let entry = ScopeEntry { user: u, entity: e, included };
        match self.find(u, e) {
            Some(i) => {
                let ghost s0 = self.entries@;
                self.entries[i] = entry;
                proof {
                    let s1 = self.entries@;
                    assert(s1 == s0.update(i as int, entry));
                    assert(s1[i as int] == entry);
                    assert forall|j: int| 0 <= j < s1.len() implies (#[trigger] s1[j]).user
                        == s0[j].user && s1[j].entity == s0[j].entity by {
                        if j != i as int {
                            assert(s1[j] == s0[j]);
                        }
                    }
                    assert(unique_pairs(s1));
                    assert(has_triple(s1, u, e, included));
                    if has_triple(s1, u, e, !included) {
                        let j = choose|j: int|
                            0 <= j < s1.len() && s1[j] == (ScopeEntry {
                                user: u,
                                entity: e,
                                included: !included,
                            });
                        assert(j != i as int);
                        assert(false);
                    }
                    assert forall|u2: UserKey, e2: EntityId, b: bool|
                        !(u2 == u && e2 == e) implies has_triple(s1, u2, e2, b) == has_triple(
                        s0,
                        u2,
                        e2,
                        b,
                    ) by {
                        if has_triple(s1, u2, e2, b) {
                            let j = choose|j: int|
                                0 <= j < s1.len() && s1[j] == (ScopeEntry {
                                    user: u2,
                                    entity: e2,
                                    included: b,
                                });
                            assert(j != i as int);
                            assert(s0[j] == s1[j]);
                        }
                        if has_triple(s0, u2, e2, b) {
                            let j = choose|j: int|
                                0 <= j < s0.len() && s0[j] == (ScopeEntry {
                                    user: u2,
                                    entity: e2,
                                    included: b,
                                });
                            assert(j != i as int);
                            assert(s1[j] == s0[j]);
                        }
                    }
                }
            },
            None => {
                let ghost s0 = self.entries@;
                self.entries.push(entry);
                proof {
                    let s1 = self.entries@;
                    assert(s1[s0.len() as int] == entry);
                    assert forall|a: int, c: int| 0 <= a < c < s1.len() implies !(s1[a].user
                        == s1[c].user && s1[a].entity == s1[c].entity) by {
                        if c < s0.len() as int {
                            assert(s1[a] == s0[a] && s1[c] == s0[c]);
                        } else {
                            assert(s1[a] == s0[a]);
                        }
                    }
                    assert(unique_pairs(s1));
                    assert(has_triple(s1, u, e, included));
                    if has_triple(s1, u, e, !included) {
                        let j = choose|j: int|
                            0 <= j < s1.len() && s1[j] == (ScopeEntry {
                                user: u,
                                entity: e,
                                included: !included,
                            });
                        assert(j != s0.len() as int);
                        assert(s0[j] == s1[j]);
                        assert(false);
                    }
                    assert forall|u2: UserKey, e2: EntityId, b: bool|
                        !(u2 == u && e2 == e) implies has_triple(s1, u2, e2, b) == has_triple(
                        s0,
                        u2,
                        e2,
                        b,
                    ) by {
                        if has_triple(s1, u2, e2, b) {
                            let j = choose|j: int|
                                0 <= j < s1.len() && s1[j] == (ScopeEntry {
                                    user: u2,
                                    entity: e2,
                                    included: b,
                                });
                            assert(j != s0.len() as int);
                            assert(s0[j] == s1[j]);
                        }
                        if has_triple(s0, u2, e2, b) {
                            let j = choose|j: int|
                                0 <= j < s0.len() && s0[j] == (ScopeEntry {
                                    user: u2,
                                    entity: e2,
                                    included: b,
                                });
                            assert(s1[j] == s0[j]);
                        }
                    }
                }
            },
        }
    }

    /// Drops every override that concerns the user.
    pub fn remove_user(&mut self, u: UserKey)
        requires
            old(self).wf(),
        ensures
            final(self).wf(),
            forall|e: EntityId| final(self).spec_get(u, e) is None,
            forall|u2: UserKey, e2: EntityId|
                u2 != u ==> final(self).spec_get(u2, e2) == old(self).spec_get(u2, e2),
    {
        let mut i: usize = 0;
        while i < self.entries.len()
            invariant
                i <= self.entries@.len(),
                unique_pairs(self.entries@),
                forall|j: int| 0 <= j < i ==> (#[trigger] self.entries@[j]).user != u,
                forall|u2: UserKey, e2: EntityId, b: bool|
                    u2 != u ==> has_triple(self.entries@, u2, e2, b) == has_triple(
                        old(self).entries@,
                        u2,
                        e2,
                        b,
                    ),
            decreases self.entries@.len() - i,
        {
            if self.entries[i].user == u {
                proof {
                    lemma_triple_remove(self.entries@, i as int);
                }
                self.entries.remove(i);
            } else {
                i = i + 1;
            }
        }
        proof {
            assert forall|e: EntityId, b: bool| !has_triple(self.entries@, u, e, b) by {
                if has_triple(self.entries@, u, e, b) {
                    let j = choose|j: int|
                        0 <= j < self.entries@.len() && self.entries@[j] == (ScopeEntry {
                            user: u,
                            entity: e,
                            included: b,
                        });
                    assert(false);
                }
            }
        }
    }

    /// Drops every override that concerns the entity.
    pub fn remove_entity(&mut self, e: EntityId)
        requires
            old(self).wf(),
        ensures
            final(self).wf(),
            forall|u: UserKey| final(self).spec_get(u, e) is None,
            forall|u2: UserKey, e2: EntityId|
                e2 != e ==> final(self).spec_get(u2, e2) == old(self).spec_get(u2, e2),
    {
        let mut i: usize = 0;
        while i < self.entries.len()
            invariant
                i <= self.entries@.len(),
                unique_pairs(self.entries@),
                forall|j: int| 0 <= j < i ==> (#[trigger] self.entries@[j]).entity != e,
                forall|u2: UserKey, e2: EntityId, b: bool|
                    e2 != e ==> has_triple(self.entries@, u2, e2, b) == has_triple(
                        old(self).entries@,
                        u2,
                        e2,
                        b,
                    ),
            decreases self.entries@.len() - i,
        {
            if self.entries[i].entity == e {
                proof {
                    lemma_triple_remove(self.entries@, i as int);
                }
                self.entries.remove(i);
            } else {
                i = i + 1;
            }
        }
        proof {
            assert forall|u: UserKey, b: bool| !has_triple(self.entries@, u, e, b) by {
                if has_triple(self.entries@, u, e, b) {
                    let j = choose|j: int|
                        0 <= j < self.entries@.len() && self.entries@[j] == (ScopeEntry {
                            user: u,
                            entity: e,
                            included: b,
                        });
                    assert(false);
                }
            }
        }
    }
}

} // verus!
