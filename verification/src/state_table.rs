//! The table of positions. A position is a chain of placements back to the
//! start of the endgame; each chain is canonical and is stored once.

use crate::placement::{
    canonicalize, is_canonical, lemma_canonical_prefix, lemma_count_push,
    lemma_same_placements_transitive, same_placements, valid_placements, count_sel, PlacedTile,
    Selector,
};
use std::collections::HashMap;
use vstd::prelude::*;

verus! {

/// A position: the position `parent` with one more tile placed.
#[derive(Clone, Copy, Debug)]
pub struct State {
    pub parent: usize,
    pub placement: PlacedTile,
}

/// The key under which a state is found again: its parent and its placement, packed.
pub open spec fn spec_state_key(parent: usize, p: PlacedTile) -> u128 {
    (parent as int * 0x1_0000_0000 + p.tile as int * 0x100_0000 + p.whose as int * 0x1_0000 + (
    p.square as int + 0x8000)) as u128
}

/// The key under which a state is found again.
pub fn state_key(parent: usize, p: &PlacedTile) -> (r: u128)
    ensures
        r == spec_state_key(parent, *p),
{
    (parent as u128) * 0x1_0000_0000 + (p.tile as u128) * 0x100_0000 + (p.whose as u128) * 0x1_0000
        + ((p.square as i32 + 0x8000) as u128)
}

/// Different states have different keys.
pub proof fn lemma_state_key_injective(
    parent: usize,
    placement: PlacedTile,
    other_parent: usize,
    other_placement: PlacedTile,
)
    requires
        spec_state_key(parent, placement) == spec_state_key(other_parent, other_placement),
    ensures
        parent == other_parent,
        placement == other_placement,
{
}

/// The placements that lead from the start to state `id`, first placement first.
pub open spec fn chain_of(states: Seq<State>, id: int) -> Seq<PlacedTile>
    decreases id,
{
    if 0 < id < states.len() && states[id].parent < id {
        chain_of(states, states[id].parent as int).push(states[id].placement)
    } else {
        Seq::empty()
    }
}

/// A table that grows keeps the chains of the states it had.
pub(crate) proof fn lemma_chain_stable(old_states: Seq<State>, new_states: Seq<State>, id: int)
    requires
        old_states.len() <= new_states.len(),
        forall|i: int| 0 <= i < old_states.len() ==> old_states[i] == new_states[i],
        0 <= id < old_states.len(),
    ensures
        chain_of(new_states, id) == chain_of(old_states, id),
    decreases id,
{
    if 0 < id && old_states[id].parent < id {
        lemma_chain_stable(old_states, new_states, old_states[id].parent as int);
    }
}

/// `c` is the beginning of `whole`.
pub open spec fn is_prefix(c: Seq<PlacedTile>, whole: Seq<PlacedTile>) -> bool {
    c.len() <= whole.len() && c == whole.take(c.len() as int)
}

pub struct StateTable {
    /// The states by number. State 0 is the start and holds no placement.
    pub states: Vec<State>,
    /// The number of each state but 0, by its key.
    pub finder: HashMap<u128, usize>,
}

impl StateTable {
    /// The placements of state `id`, first placement first.
    pub open spec fn chain(&self, id: int) -> Seq<PlacedTile> {
        chain_of(self.states@, id)
    }

    /// The table's invariant: every state comes after its parent, no state is
    /// stored twice, and every chain is canonical.
    pub open spec fn wf(&self) -> bool {
        &&& self.states@.len() >= 1
        &&& forall|id: int| 0 < id < self.states@.len() ==> (#[trigger] self.states@[id]).parent < id
        &&& forall|id: int|
            0 < id < self.states@.len() ==> {
                let k = #[trigger] spec_state_key(
                    self.states@[id].parent,
                    self.states@[id].placement,
                );
                self.finder@.contains_key(k) && self.finder@[k] == id
            }
        &&& forall|k: u128| #[trigger]
            self.finder@.contains_key(k) ==> {
                let id = self.finder@[k];
                0 < id < self.states@.len() && spec_state_key(
                    self.states@[id as int].parent,
                    self.states@[id as int].placement,
                ) == k
            }
        &&& forall|id: int| 0 <= id < self.states@.len() ==> is_canonical(#[trigger] self.chain(id))
    }

    /// The table holds all that `old` held, under the same numbers.
    pub open spec fn extends(&self, old: &StateTable) -> bool {
        &&& old.states@.len() <= self.states@.len()
        &&& forall|i: int| 0 <= i < old.states@.len() ==> old.states@[i] == self.states@[i]
    }

    /// A table that has grown keeps the chains of the states it had.
    pub(crate) proof fn lemma_extends_chain(&self, old: &StateTable, id: int)
        requires
            self.extends(old),
            0 <= id < old.states@.len(),
        ensures
            self.chain(id) == old.chain(id),
    {
        lemma_chain_stable(old.states@, self.states@, id);
    }

    /// Two states with the same chain are the same state.
    pub proof fn lemma_chain_injective(&self, i: int, j: int)
        requires
            self.wf(),
            0 <= i < self.states@.len(),
            0 <= j < self.states@.len(),
            self.chain(i) == self.chain(j),
        ensures
            i == j,
        decreases i,
    {
        if i == 0 {
            if j != 0 {
                assert(self.states@[j].parent < j);
                assert(self.chain(j).len() > 0);
            }
        } else {
            assert(self.states@[i].parent < i);
            assert(self.chain(i).len() > 0);
            assert(j != 0);
            assert(self.states@[j].parent < j);
            let pi = self.states@[i].parent as int;
            let pj = self.states@[j].parent as int;
            assert(self.chain(i).last() == self.states@[i].placement);
            assert(self.chain(j).last() == self.states@[j].placement);
            assert(self.chain(i).drop_last() =~= self.chain(pi));
            assert(self.chain(j).drop_last() =~= self.chain(pj));
            self.lemma_chain_injective(pi, pj);
            let k = spec_state_key(self.states@[i].parent, self.states@[i].placement);
            assert(k == spec_state_key(self.states@[j].parent, self.states@[j].placement));
            assert(self.finder@[k] == i);
            assert(self.finder@[k] == j);
        }
    }

    /// One position, one state: two states whose chains hold the same
    /// placements, in whatever order they were made, are the same state.
    pub proof fn lemma_same_position_same_state(&self, i: int, j: int)
        requires
            self.wf(),
            0 <= i < self.states@.len(),
            0 <= j < self.states@.len(),
            same_placements(self.chain(i), self.chain(j)),
        ensures
            i == j,
    {
        crate::placement::lemma_canonical_unique(self.chain(i), self.chain(j));
        self.lemma_chain_injective(i, j);
    }

    /// A table that holds the start position alone.
    pub fn new() -> (r: StateTable)
        ensures
            r.wf(),
            r.states@.len() == 1,
    {
        let mut states: Vec<State> = Vec::new();
        states.push(
            State { parent: usize::MAX, placement: PlacedTile { tile: 255, whose: 255, square: -1 } },
        );
        let r = StateTable { states, finder: HashMap::new() };
        proof {
            assert(r.chain(0) =~= Seq::empty());
        }
        r
    }

    /// Number of states in the table.
    pub fn len(&self) -> (r: usize)
        ensures
            r == self.states@.len(),
    {
        self.states.len()
    }

    /// Empties the table but for the start position.
    pub fn reset(&mut self)
        ensures
            final(self).wf(),
            final(self).states@.len() == 1,
    {
        self.states.clear();
        self.states.push(
            State { parent: usize::MAX, placement: PlacedTile { tile: 255, whose: 255, square: -1 } },
        );
        self.finder.clear();
        proof {
            assert(self.chain(0) =~= Seq::empty());
        }
    }

    /// The state that follows `parent` by `placement`: the one in the table,
    /// or a new one at its end.
    pub fn intern(&mut self, parent: usize, placement: PlacedTile) -> (id: usize)
        requires
            old(self).wf(),
            parent < old(self).states@.len(),
            is_canonical(old(self).chain(parent as int).push(placement)),
        ensures
            final(self).wf(),
            final(self).extends(old(self)),
            final(self).states@.len() <= old(self).states@.len() + 1,
            0 < id < final(self).states@.len(),
            final(self).states@[id as int].parent == parent,
            final(self).states@[id as int].placement == placement,
            final(self).chain(id as int) == old(self).chain(parent as int).push(placement),
            (id as int) < old(self).states@.len() ==> final(self).states@ == old(self).states@,
    {
        let key = state_key(parent, &placement);
        let found = self.finder.get(&key);
        match found {
            Some(id) => {
                let id = *id;
                proof {
                    assert(self.finder@.contains_key(key));
                    lemma_state_key_injective(
                        self.states@[id as int].parent,
                        self.states@[id as int].placement,
                        parent,
                        placement,
                    );
                }
                id
            },
            None => {
                let id = self.states.len();
                let ghost before = *self;
                self.states.push(State { parent, placement });
                self.finder.insert(key, id);
                proof {
                    assert(!before.finder@.contains_key(key));
                    assert forall|i: int| 0 <= i < self.states@.len() implies #[trigger] self.chain(
                        i,
                    ) == if i < id {
                        before.chain(i)
                    } else {
                        before.chain(parent as int).push(placement)
                    } by {
                        if i < id {
                            lemma_chain_stable(before.states@, self.states@, i);
                        } else {
                            lemma_chain_stable(before.states@, self.states@, parent as int);
                        }
                    }
                    assert forall|i: int| 0 < i < self.states@.len() implies {
                        let k = #[trigger] spec_state_key(
                            self.states@[i].parent,
                            self.states@[i].placement,
                        );
                        self.finder@.contains_key(k) && self.finder@[k] == i
                    } by {
                        if i < id {
                            let k = spec_state_key(
                                before.states@[i].parent,
                                before.states@[i].placement,
                            );
                            assert(before.finder@.contains_key(k));
                        }
                    }
                    assert forall|k: u128| #[trigger] self.finder@.contains_key(k) implies {
                        let i = self.finder@[k];
                        0 < i < self.states@.len() && spec_state_key(
                            self.states@[i as int].parent,
                            self.states@[i as int].placement,
                        ) == k
                    } by {
                        if k != key {
                            assert(before.finder@.contains_key(k));
                        }
                    }
                }
                id
            },
        }
    }

    /// The placements of state `id`, last placement first.
    pub fn placements_reversed(&self, id: usize) -> (r: Vec<PlacedTile>)
        requires
            self.wf(),
            id < self.states@.len(),
        ensures
            r@ == self.chain(id as int).reverse(),
    {
        let mut out: Vec<PlacedTile> = Vec::new();
        let mut cur: usize = id;
        while cur != 0
            invariant
                self.wf(),
                cur < self.states@.len(),
                out@.len() + self.chain(cur as int).len() == self.chain(id as int).len(),
                forall|k: int|
                    0 <= k < out@.len() ==> #[trigger] out@[k] == self.chain(id as int)[
                        self.chain(id as int).len() - 1 - k],
                forall|k: int|
                    0 <= k < self.chain(cur as int).len() ==> #[trigger] self.chain(cur as int)[k]
                        == self.chain(id as int)[k],
            decreases cur,
        {
            let state = self.states[cur];
            proof {
                assert(self.states@[cur as int].parent < cur);
                let c = self.chain(cur as int);
                let p = self.chain(state.parent as int);
                assert(c == p.push(state.placement));
                assert forall|k: int| 0 <= k < p.len() implies #[trigger] p[k] == self.chain(
                    id as int,
                )[k] by {
                    assert(c[k] == p[k]);
                }
                assert(c[c.len() - 1] == state.placement);
            }
            out.push(state.placement);
            cur = state.parent;
        }
        proof {
            assert(self.chain(0) =~= Seq::empty());
            assert(out@ =~= self.chain(id as int).reverse());
        }
        out
    }

    /// The state reached from `id` by making the placements `extra`, in any
    /// order: the state of the canonical list of all its placements.
    pub fn successor(&mut self, id: usize, extra: &Vec<PlacedTile>) -> (r: usize)
        requires
            old(self).wf(),
            id < old(self).states@.len(),
            valid_placements(extra@),
        ensures
            final(self).wf(),
            final(self).extends(old(self)),
            r < final(self).states@.len(),
            same_placements(final(self).chain(r as int), old(self).chain(id as int) + extra@),
            forall|j: int|
                old(self).states@.len() <= j < final(self).states@.len() ==> is_prefix(
                    #[trigger] final(self).chain(j),
                    final(self).chain(r as int),
                ),
    {
        let ghost before = *self;
        let mut list = self.placements_reversed(id);
        let mut k: usize = 0;
        while k < extra.len()
            invariant
                k <= extra.len(),
                list@ == before.chain(id as int).reverse() + extra@.take(k as int),
            decreases extra.len() - k,
        {
            list.push(extra[k]);
            proof {
                assert(extra@.take(k + 1) =~= extra@.take(k as int).push(extra@[k as int]));
                assert(before.chain(id as int).reverse() + extra@.take(k + 1) =~= (before.chain(
                    id as int,
                ).reverse() + extra@.take(k as int)).push(extra@[k as int]));
            }
            k = k + 1;
        }
        let ghost gathered = list@;
        proof {
            assert(extra@.take(k as int) =~= extra@);
            let c = before.chain(id as int);
            assert(is_canonical(c));
            assert forall|i: int| 0 <= i < gathered.len() implies (#[trigger] gathered[i]).tile
                != 0 && gathered[i].whose <= 1 by {
                if i < c.len() {
                    assert(gathered[i] == c[c.len() - 1 - i]);
                } else {
                    assert(gathered[i] == extra@[i - c.len()]);
                }
            }
            lemma_same_placements_reverse(c);
            crate::placement::lemma_same_placements_extend(c.reverse(), c, extra@);
        }
        canonicalize(&mut list);
        proof {
            lemma_same_placements_transitive(list@, gathered, before.chain(id as int) + extra@);
        }
        let mut cur: usize = 0;
        let mut n: usize = 0;
        proof {
            assert(self.chain(0) =~= Seq::empty());
            assert(list@.take(0) =~= Seq::empty());
        }
        while n < list.len()
            invariant
                n <= list.len(),
                self.wf(),
                self.extends(&before),
                is_canonical(list@),
                cur < self.states@.len(),
                self.chain(cur as int) == list@.take(n as int),
                forall|j: int|
                    before.states@.len() <= j < self.states@.len() ==> is_prefix(
                        #[trigger] self.chain(j),
                        list@,
                    ),
            decreases list.len() - n,
        {
            let ghost prior = *self;
            proof {
                assert(list@.take(n + 1) =~= list@.take(n as int).push(list@[n as int]));
                lemma_canonical_prefix(list@, n + 1);
            }
            cur = self.intern(cur, list[n]);
            n = n + 1;
            proof {
                assert forall|j: int|
                    before.states@.len() <= j < self.states@.len() implies is_prefix(
                    #[trigger] self.chain(j),
                    list@,
                ) by {
                    if j < prior.states@.len() {
                        self.lemma_extends_chain(&prior, j);
                    } else {
                        assert(j == cur);
                        assert(list@.take(n as int).len() == n);
                    }
                }
            }
        }
        proof {
            assert(list@.take(n as int) =~= list@);
        }
        cur
    }
}

/// Reversing a list keeps its placements.
pub proof fn lemma_same_placements_reverse(c: Seq<PlacedTile>)
    ensures
        same_placements(c.reverse(), c),
    decreases c.len(),
{
    if c.len() == 0 {
        assert(c.reverse() =~= c);
    } else {
        let head = c.first();
        let tail = c.drop_first();
        lemma_same_placements_reverse(tail);
        assert(c.reverse() =~= tail.reverse().push(head));
        assert(c =~= seq![head] + tail);
        assert forall|sel: Selector| #[trigger] count_sel(c.reverse(), sel) == count_sel(c, sel) by {
            lemma_count_push(tail.reverse(), head, sel);
            crate::placement::lemma_count_concat(seq![head], tail, sel);
            assert(count_sel(tail.reverse(), sel) == count_sel(tail, sel));
            assert(seq![head] =~= Seq::<PlacedTile>::empty().push(head));
            lemma_count_push(Seq::<PlacedTile>::empty(), head, sel);
        }
    }
}

} // verus!
