//! The table of plays. Each distinct placement is stored once and is known
//! by its number from then on; number 0 is the pass.

use crate::play::{spec_pass, Play, PlayView};
use std::collections::HashMap;
use vstd::prelude::*;

verus! {

/// A number made of the bytes of a word.
pub open spec fn spec_word_hash(word: Seq<u8>) -> int
    decreases word.len(),
{
    if word.len() == 0 {
        0
    } else {
        (spec_word_hash(word.drop_last()) * 31 + word.last()) % 0x1_0000_0000
    }
}

/// The key under which a play is looked for. Plays with different keys are
/// different plays; different plays may share a key.
pub open spec fn spec_play_key(play: PlayView) -> u128 {
    match play {
        PlayView::Exchange { .. } => 0,
        PlayView::Place { down, lane, idx, word, score } => ((if down {
            1int
        } else {
            0int
        }) + 2 * ((lane as int + 128) + 256 * ((idx as int + 128) + 256 * ((score as int + 32768)
            + 65536 * spec_word_hash(word))))) as u128,
    }
}

/// The key under which a play is looked for.
pub fn play_key(play: &Play) -> (r: u128)
    ensures
        r == spec_play_key(play@),
{
    match play {
        Play::Exchange { .. } => 0,
        Play::Place { down, lane, idx, word, score } => {
            let mut h: u64 = 0;
            let mut k: usize = 0;
            while k < word.len()
                invariant
                    k <= word.len(),
                    h == spec_word_hash(word@.take(k as int)),
                    h < 0x1_0000_0000,
                decreases word.len() - k,
            {
                proof {
                    assert(word@.take(k + 1).drop_last() =~= word@.take(k as int));
                }
                h = (h * 31 + word[k] as u64) % 0x1_0000_0000;
                k = k + 1;
            }
            proof {
                assert(word@.take(k as int) =~= word@);
            }
            let low: u128 = if *down {
                1
            } else {
                0
            };
            let lane_part = (*lane as i32 + 128) as u128;
            let idx_part = (*idx as i32 + 128) as u128;
            let score_part = (*score as i32 + 32768) as u128;
            low + 2 * (lane_part + 256 * (idx_part + 256 * (score_part + 65536 * (h as u128))))
        },
    }
}

pub struct MoveCache {
    /// The plays by number: the pass first, then the placements.
    pub plays: Vec<Play>,
    /// For each key, the number of the last play stored under it.
    pub finder: HashMap<u128, usize>,
    /// For each play, the number of the play stored before it under the
    /// same key, or 0 if it was the first.
    pub link: Vec<usize>,
}

impl MoveCache {
    /// The table's invariant: play 0 is the pass, every other play is a
    /// placement, and no placement is stored twice.
    pub open spec fn wf(&self) -> bool {
        &&& self.plays@.len() >= 1
        &&& self.plays@[0]@ == spec_pass()
        &&& forall|i: int| 1 <= i < self.plays@.len() ==> (#[trigger] self.plays@[i])@ is Place
        &&& forall|i: int, j: int|
            1 <= i < j < self.plays@.len() ==> (#[trigger] self.plays@[i])@ != (
            #[trigger] self.plays@[j])@
        &&& self.index_ok()
    }

    /// The keys lead to the plays: the plays stored under one key form a
    /// chain from the last to the first.
    #[verifier::opaque]
    pub open spec fn index_ok(&self) -> bool {
        &&& self.link@.len() == self.plays@.len()
        &&& forall|i: int|
            1 <= i < self.plays@.len() ==> {
                &&& (#[trigger] self.link@[i]) < i
                &&& self.link@[i] != 0 ==> spec_play_key(self.plays@[self.link@[i] as int]@)
                    == spec_play_key(self.plays@[i]@)
                &&& self.finder@.contains_key(spec_play_key(self.plays@[i]@))
            }
        &&& forall|i: int, j: int|
            #![trigger self.link@[i], self.plays@[j]]
            1 <= i < self.plays@.len() && self.link@[i] < j < i ==> spec_play_key(self.plays@[j]@)
                != spec_play_key(self.plays@[i]@)
        &&& forall|k: u128| #[trigger]
            self.finder@.contains_key(k) ==> 1 <= self.finder@[k] < self.plays@.len()
                && spec_play_key(self.plays@[self.finder@[k] as int]@) == k
        &&& forall|k: u128, j: int|
            #![trigger self.finder@.contains_key(k), self.plays@[j]]
            self.finder@.contains_key(k) && self.finder@[k] < j < self.plays@.len()
                ==> spec_play_key(self.plays@[j]@) != k
    }

    /// The table holds all that `old` held, under the same numbers.
    pub open spec fn extends(&self, old: &MoveCache) -> bool {
        &&& old.plays@.len() <= self.plays@.len()
        &&& forall|i: int| 0 <= i < old.plays@.len() ==> old.plays@[i]@ == (#[trigger] self.plays@[i])@
    }

    /// The number of `play` in the table, if the table holds it.
    pub open spec fn spec_find(&self, play: PlayView) -> Option<int> {
        if play is Exchange {
            Some(0int)
        } else if exists|i: int| 1 <= i < self.plays@.len() && (#[trigger] self.plays@[i])@ == play {
            Some(choose|i: int| 1 <= i < self.plays@.len() && (#[trigger] self.plays@[i])@ == play)
        } else {
            None
        }
    }

    /// A placement that the table holds is found under its number.
    pub proof fn lemma_find(&self, play: PlayView, i: int)
        requires
            self.wf(),
            1 <= i < self.plays@.len(),
            self.plays@[i]@ == play,
        ensures
            self.spec_find(play) == Some(i),
    {
        let c = choose|c: int| 1 <= c < self.plays@.len() && (#[trigger] self.plays@[c])@ == play;
        if c < i {
            assert(self.plays@[c]@ != self.plays@[i]@);
        } else if i < c {
            assert(self.plays@[i]@ != self.plays@[c]@);
        }
    }

    /// A table that holds the pass alone.
    pub fn new() -> (r: MoveCache)
        ensures
            r.wf(),
            r.plays@.len() == 1,
    {
        let mut plays: Vec<Play> = Vec::new();
        plays.push(Play::pass());
        let mut link: Vec<usize> = Vec::new();
        link.push(0);
        proof {
            reveal(MoveCache::index_ok);
        }
        MoveCache { plays, finder: HashMap::new(), link }
    }

    /// Number of plays in the table.
    pub fn len(&self) -> (r: usize)
        ensures
            r == self.plays@.len(),
    {
        self.plays.len()
    }

    /// Empties the table but for the pass.
    pub fn reset(&mut self)
        ensures
            final(self).wf(),
            final(self).plays@.len() == 1,
    {
        self.plays.clear();
        self.plays.push(Play::pass());
        self.finder.clear();
        self.link.clear();
        self.link.push(0);
        proof {
            reveal(MoveCache::index_ok);
        }
    }

    /// The play of a number.
    pub fn get(&self, id: usize) -> (r: &Play)
        requires
            id < self.plays@.len(),
        ensures
            *r == self.plays@[id as int],
    {
        &self.plays[id]
    }

    /// The number under which the table holds the placement, or 0 if it
    /// does not hold it.
    pub fn find(&self, play: &Play) -> (id: usize)
        requires
            self.wf(),
            play@ is Place,
        ensures
            id < self.plays@.len(),
            id != 0 ==> self.plays@[id as int]@ == play@,
            id == 0 ==> forall|j: int| 1 <= j < self.plays@.len() ==> (#[trigger] self.plays@[j])@
                != play@,
    {
        proof {
            reveal(MoveCache::index_ok);
        }
        let key = play_key(play);
        let head = self.finder.get(&key);
        match head {
            None => {
                proof {
                    assert forall|j: int| 1 <= j < self.plays@.len() implies (
                    #[trigger] self.plays@[j])@ != play@ by {
                        assert(self.link@[j] < j);
                    }
                }
                0
            },
            Some(head) => {
                let mut cur: usize = *head;
                proof {
                    assert(self.finder@.contains_key(key));
                }
                while cur != 0
                    invariant
                        self.wf(),
                        key == spec_play_key(play@),
                        cur < self.plays@.len(),
                        cur != 0 ==> spec_play_key(self.plays@[cur as int]@) == key,
                        forall|j: int|
                            cur < j < self.plays@.len() ==> (#[trigger] self.plays@[j])@ != play@,
                    decreases cur,
                {
                    proof {
                        reveal(MoveCache::index_ok);
                    }
                    if self.plays[cur].same(play) {
                        return cur;
                    }
                    let next = self.link[cur];
                    proof {
                        assert(self.link@[cur as int] < cur);
                        assert forall|j: int| next < j < self.plays@.len() implies (
                        #[trigger] self.plays@[j])@ != play@ by {
                            if j < cur {
                                assert(spec_play_key(self.plays@[j]@) != spec_play_key(
                                    self.plays@[cur as int]@,
                                ));
                            }
                        }
                    }
                    cur = next;
                }
                0
            },
        }
    }

    /// The number of `play`: 0 for an exchange; for a placement the number
    /// under which the table holds it, or a new number at the table's end.
    pub fn intern(&mut self, play: &Play) -> (id: usize)
        requires
            old(self).wf(),
        ensures
            final(self).wf(),
            final(self).extends(old(self)),
            id < final(self).plays@.len(),
            play@ is Exchange ==> id == 0 && final(self).plays@ == old(self).plays@,
            play@ is Place ==> final(self).plays@[id as int]@ == play@,
            old(self).spec_find(play@) is Some ==> id == old(self).spec_find(play@).unwrap()
                && final(self).plays@ == old(self).plays@,
            old(self).spec_find(play@) is None ==> id == old(self).plays@.len()
                && final(self).plays@.len() == old(self).plays@.len() + 1,
    {
        if play.is_exchange() {
            return 0;
        }
        let found = self.find(play);
        if found != 0 {
            proof {
                let c = choose|c: int|
                    1 <= c < self.plays@.len() && (#[trigger] self.plays@[c])@ == play@;
                if c < found {
                    assert(self.plays@[c]@ != self.plays@[found as int]@);
                } else if c > found {
                    assert(self.plays@[found as int]@ != self.plays@[c]@);
                }
            }
            return found;
        }
        proof {
            reveal(MoveCache::index_ok);
        }
        let ghost before = *self;
        let key = play_key(play);
        let id = self.plays.len();
        let previous = match self.finder.get(&key) {
            Some(head) => *head,
            None => 0,
        };
        self.plays.push(play.duplicate());
        self.link.push(previous);
        self.finder.insert(key, id);
        proof {
            assert forall|a: int, b: int| 1 <= a < b < self.plays@.len() implies (
            #[trigger] self.plays@[a])@ != (#[trigger] self.plays@[b])@ by {
                if b < id {
                    assert(before.plays@[a]@ != before.plays@[b]@);
                } else {
                    assert(before.plays@[a]@ != play@);
                }
            }
            assert forall|i: int| 1 <= i < self.plays@.len() implies {
                &&& (#[trigger] self.link@[i]) < i
                &&& self.link@[i] != 0 ==> spec_play_key(self.plays@[self.link@[i] as int]@)
                    == spec_play_key(self.plays@[i]@)
                &&& self.finder@.contains_key(spec_play_key(self.plays@[i]@))
            } by {
                if i < id {
                    assert(before.link@[i] < i);
                    assert(self.plays@[i] == before.plays@[i]);
                } else {
                    if before.finder@.contains_key(key) {
                        assert(1 <= before.finder@[key] < before.plays@.len());
                    }
                }
            }
            assert forall|i: int, j: int|
                #![trigger self.link@[i], self.plays@[j]]
                1 <= i < self.plays@.len() && self.link@[i] < j < i implies spec_play_key(
                self.plays@[j]@,
            ) != spec_play_key(self.plays@[i]@) by {
                if i < id {
                    assert(before.link@[i] < i);
                    assert(spec_play_key(before.plays@[j]@) != spec_play_key(before.plays@[i]@));
                } else {
                    if before.finder@.contains_key(key) {
                        assert(spec_play_key(before.plays@[j]@) != key);
                    } else {
                        assert(before.link@[j] < j);
                    }
                }
            }
            assert forall|k: u128| #[trigger] self.finder@.contains_key(k) implies 1
                <= self.finder@[k] < self.plays@.len() && spec_play_key(
                self.plays@[self.finder@[k] as int]@,
            ) == k by {
                if k != key {
                    assert(before.finder@.contains_key(k));
                }
            }
            assert forall|k: u128, j: int|
                #![trigger self.finder@.contains_key(k), self.plays@[j]]
                self.finder@.contains_key(k) && self.finder@[k] < j
                    < self.plays@.len() implies spec_play_key(self.plays@[j]@) != k by {
                if k != key {
                    assert(before.finder@.contains_key(k));
                    if j < id {
                        assert(spec_play_key(before.plays@[j]@) != k);
                    }
                }
            }
        }
        id
    }
}

} // verus!
