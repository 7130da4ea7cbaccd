//! A gentle quest chain that gives the cat cosy goals: gather flowers, pick
//! berries, chop wood, build a little home, light it with lanterns. Each quest
//! tracks progress toward a target and hands out a small reward on completion,
//! then the next begins.

use crate::block::blocks;
use crate::block::BlockId;
use crate::crafting::copy_pairs;
use vstd::prelude::*;

verus! {

/// What a quest asks the player to do.
#[derive(Clone, Debug)]
pub enum Objective {
    /// Collect (mine or harvest) any of these block types.
    Collect(Vec<BlockId>),
    /// Place any of these block types.
    Place(Vec<BlockId>),
}

#[derive(Clone, Debug)]
pub struct Quest {
    pub title: &'static str,
    pub objective: Objective,
    pub target: u32,
    /// Items granted to the player on completion.
    pub reward: Vec<(BlockId, u32)>,
}

/// Whether collecting `id` counts toward quest `q`.
pub open spec fn collects(q: Quest, id: BlockId) -> bool {
    match q.objective {
        Objective::Collect(set) => set@.contains(id),
        Objective::Place(_) => false,
    }
}

/// Whether placing `id` counts toward quest `q`.
pub open spec fn places(q: Quest, id: BlockId) -> bool {
    match q.objective {
        Objective::Place(set) => set@.contains(id),
        Objective::Collect(_) => false,
    }
}

fn includes(set: &Vec<BlockId>, id: BlockId) -> (r: bool)
    ensures
        r == set@.contains(id),
{
    let mut k: usize = 0;
    while k < set.len()
        invariant
            k <= set@.len(),
            forall|q: int| 0 <= q < k ==> set@[q] != id,
        decreases set@.len() - k,
    {
        if set[k] == id {
            assert(set@[k as int] == id);
            return true;
        }
        k += 1;
    }
    false
}

impl Quest {
    fn matches_collect(&self, id: BlockId) -> (r: bool)
        ensures
            r == collects(*self, id),
    {
        match &self.objective {
            Objective::Collect(set) => includes(set, id),
            Objective::Place(_) => false,
        }
    }

    fn matches_place(&self, id: BlockId) -> (r: bool)
        ensures
            r == places(*self, id),
    {
        match &self.objective {
            Objective::Place(set) => includes(set, id),
            Objective::Collect(_) => false,
        }
    }
}

/// Tracks the active quest and progress through the chain.
pub struct QuestLog {
    quests: Vec<Quest>,
    current: usize,
    progress: u32,
}

/// How a reported event moves the log: `(current, progress)` after the
/// event and the reward it hands out, for a report that counts `by` toward
/// the active quest when `matched`.
pub open spec fn report_step(
    quests: Seq<Quest>,
    current: int,
    progress: int,
    matched: bool,
    by: int,
) -> (int, int, Seq<(BlockId, u32)>) {
    if current < quests.len() && matched {
        if progress + by >= quests[current].target {
            (current + 1, 0, quests[current].reward@)
        } else {
            (current, progress + by, Seq::empty())
        }
    } else {
        (current, progress, Seq::empty())
    }
}

impl QuestLog {
    pub closed spec fn quests_spec(&self) -> Seq<Quest> {
        self.quests@
    }

    pub closed spec fn current_spec(&self) -> int {
        self.current as int
    }

    pub closed spec fn progress_spec(&self) -> int {
        self.progress as int
    }

    /// The quest in progress, if any remain.
    pub open spec fn active(&self) -> Option<Quest> {
        if self.current_spec() < self.quests_spec().len() {
            Some(self.quests_spec()[self.current_spec()])
        } else {
            None
        }
    }

    pub fn new(quests: Vec<Quest>) -> (r: Self)
        ensures
            r.quests_spec() == quests@,
            r.current_spec() == 0,
            r.progress_spec() == 0,
    {
        QuestLog { quests, current: 0, progress: 0 }
    }

    /// The cosy starter chain.
    pub fn cosy_chain() -> (r: Self)
        ensures
            r.quests_spec().len() == 5,
            forall|i: int| 0 <= i < 5 ==> #[trigger] chain_entry(r.quests_spec()[i], i),
            r.current_spec() == 0,
            r.progress_spec() == 0,
            // Gather five wildflowers (pink or blue) for sixteen planks.
            r.quests_spec()[0].title@ == "GATHER WILDFLOWERS"@ && r.quests_spec()[0].target == 5
                && r.quests_spec()[0].reward@ == seq![(BlockId(11), 16u32)],
            r.quests_spec()[0].objective matches Objective::Collect(set) && set@ == seq![BlockId(9), BlockId(10)],
            // Pick six berry bushes for two lanterns.
            r.quests_spec()[1].title@ == "PICK SWEET BERRIES"@ && r.quests_spec()[1].target == 6
                && r.quests_spec()[1].reward@ == seq![(BlockId(12), 2u32)],
            r.quests_spec()[1].objective matches Objective::Collect(set) && set@ == seq![BlockId(20)],
            // Chop eight trunks for twenty-four planks.
            r.quests_spec()[2].title@ == "CHOP COSY TIMBER"@ && r.quests_spec()[2].target == 8
                && r.quests_spec()[2].reward@ == seq![(BlockId(11), 24u32)],
            r.quests_spec()[2].objective matches Objective::Collect(set) && set@ == seq![BlockId(6)],
            // Place twenty planks for eight glass and two lanterns.
            r.quests_spec()[3].title@ == "BUILD A LITTLE HOME"@ && r.quests_spec()[3].target == 20
                && r.quests_spec()[3].reward@ == seq![(BlockId(15), 8u32), (BlockId(12), 2u32)],
            r.quests_spec()[3].objective matches Objective::Place(set) && set@ == seq![BlockId(11)],
            // Place four lanterns for four crystals.
            r.quests_spec()[4].title@ == "LIGHT UP THE NIGHT"@ && r.quests_spec()[4].target == 4
                && r.quests_spec()[4].reward@ == seq![(BlockId(18), 4u32)],
            r.quests_spec()[4].objective matches Objective::Place(set) && set@ == seq![BlockId(12)],
    {
        let mut qs: Vec<Quest> = Vec::new();
        qs.push(
            Quest {
                title: "GATHER WILDFLOWERS",
                objective: Objective::Collect(vec![blocks::FLOWER_PINK(), blocks::FLOWER_BLUE()]),
                target: 5,
                reward: vec![(blocks::PLANK(), 16)],
            },
        );
        qs.push(
            Quest {
                title: "PICK SWEET BERRIES",
                objective: Objective::Collect(vec![blocks::BERRY_BUSH()]),
                target: 6,
                reward: vec![(blocks::LANTERN(), 2)],
            },
        );
        qs.push(
            Quest {
                title: "CHOP COSY TIMBER",
                objective: Objective::Collect(vec![blocks::TRUNK()]),
                target: 8,
                reward: vec![(blocks::PLANK(), 24)],
            },
        );
        qs.push(
            Quest {
                title: "BUILD A LITTLE HOME",
                objective: Objective::Place(vec![blocks::PLANK()]),
                target: 20,
                reward: vec![(blocks::GLASS(), 8), (blocks::LANTERN(), 2)],
            },
        );
        qs.push(
            Quest {
                title: "LIGHT UP THE NIGHT",
                objective: Objective::Place(vec![blocks::LANTERN()]),
                target: 4,
                reward: vec![(blocks::CRYSTAL(), 4)],
            },
        );
        let log = Self::new(qs);
        proof {
            assert forall|i: int| 0 <= i < 5 implies #[trigger] chain_entry(log.quests_spec()[i], i) by {
                let q = log.quests_spec()[i];
                match q.objective {
                    Objective::Collect(set) => {
                        if i == 0 {
                            assert(set@ =~= seq![BlockId(9), BlockId(10)]);
                        } else if i == 1 {
                            assert(set@ =~= seq![BlockId(20)]);
                        } else {
                            assert(set@ =~= seq![BlockId(6)]);
                        }
                    },
                    Objective::Place(set) => {
                        if i == 3 {
                            assert(set@ =~= seq![BlockId(11)]);
                        } else {
                            assert(set@ =~= seq![BlockId(12)]);
                        }
                    },
                }
                if i == 0 {
                    assert(q.reward@ =~= seq![(BlockId(11), 16u32)]);
                } else if i == 1 {
                    assert(q.reward@ =~= seq![(BlockId(12), 2u32)]);
                } else if i == 2 {
                    assert(q.reward@ =~= seq![(BlockId(11), 24u32)]);
                } else if i == 3 {
                    assert(q.reward@ =~= seq![(BlockId(15), 8u32), (BlockId(12), 2u32)]);
                } else {
                    assert(q.reward@ =~= seq![(BlockId(18), 4u32)]);
                }
            }
        }
        log
    }

    /// The quest currently in progress, if any remain.
    pub fn current(&self) -> (r: Option<&Quest>)
        ensures
            r matches Some(q) ==> self.active() == Some(*q),
            r is None <==> self.active() is None,
    {
        if self.current < self.quests.len() {
            Some(&self.quests[self.current])
        } else {
            None
        }
    }

    pub fn is_complete(&self) -> (r: bool)
        ensures
            r == (self.current_spec() >= self.quests_spec().len()),
    {
        self.current >= self.quests.len()
    }

    pub fn completed_count(&self) -> (r: usize)
        ensures
            r == self.current_spec(),
    {
        self.current
    }

    /// Progress toward the active quest.
    pub fn progress(&self) -> (r: u32)
        ensures
            r == self.progress_spec(),
    {
        self.progress
    }

    /// Resume a saved chain position: `completed` quests done and `progress`
    /// toward the next one.
    pub fn restore(&mut self, completed: usize, progress: u32)
        ensures
            final(self).quests_spec() == old(self).quests_spec(),
            final(self).current_spec() == completed,
            final(self).progress_spec() == progress,
    {
        self.current = completed;
        self.progress = progress;
    }

    /// Objective text and `(done, total)` for the HUD.
    pub fn hud(&self) -> (r: Option<(String, (u32, u32))>)
        ensures
            r is Some <==> self.active() is Some,
            r matches Some(h) ==> h.0@ == self.active()->0.title@ && h.1.1 == self.active()->0.target
                && h.1.0 == (if self.progress_spec() < self.active()->0.target {
                self.progress_spec()
            } else {
                self.active()->0.target as int
            }),
    {
        match self.current() {
            Some(q) => {
                let done = if self.progress < q.target {
                    self.progress
                } else {
                    q.target
                };
                Some((q.title.to_owned(), (done, q.target)))
            },
            None => None,
        }
    }

    /// Report a collected block. Returns the reward to grant if this
    /// completed the active quest.
    pub fn on_collect(&mut self, id: BlockId, count: u32) -> (r: Vec<(BlockId, u32)>)
        requires
            old(self).active() matches Some(q) && collects(q, id) ==> old(self).progress_spec()
                + count <= u32::MAX,
        ensures
            ({
                let s = report_step(
                    old(self).quests_spec(),
                    old(self).current_spec(),
                    old(self).progress_spec(),
                    old(self).active() matches Some(q) && collects(q, id),
                    count as int,
                );
                &&& final(self).current_spec() == s.0
                &&& final(self).progress_spec() == s.1
                &&& r@ == s.2
            }),
            final(self).quests_spec() == old(self).quests_spec(),
    {
        let matched = match self.current() {
            Some(q) => q.matches_collect(id),
            None => false,
        };
        if matched {
            self.advance_progress(count)
        } else {
            Vec::new()
        }
    }

    /// Report a placed block. Returns the reward to grant if this completed
    /// the active quest.
    pub fn on_place(&mut self, id: BlockId) -> (r: Vec<(BlockId, u32)>)
        requires
            old(self).active() matches Some(q) && places(q, id) ==> old(self).progress_spec() + 1
                <= u32::MAX,
        ensures
            ({
                let s = report_step(
                    old(self).quests_spec(),
                    old(self).current_spec(),
                    old(self).progress_spec(),
                    old(self).active() matches Some(q) && places(q, id),
                    1,
                );
                &&& final(self).current_spec() == s.0
                &&& final(self).progress_spec() == s.1
                &&& r@ == s.2
            }),
            final(self).quests_spec() == old(self).quests_spec(),
    {
        let matched = match self.current() {
            Some(q) => q.matches_place(id),
            None => false,
        };
        if matched {
            self.advance_progress(1)
        } else {
            Vec::new()
        }
    }

    fn advance_progress(&mut self, by: u32) -> (r: Vec<(BlockId, u32)>)
        requires
            old(self).current_spec() < old(self).quests_spec().len(),
            old(self).progress_spec() + by <= u32::MAX,
        ensures
            ({
                let s = report_step(
                    old(self).quests_spec(),
                    old(self).current_spec(),
                    old(self).progress_spec(),
                    true,
                    by as int,
                );
                &&& final(self).current_spec() == s.0
                &&& final(self).progress_spec() == s.1
                &&& r@ == s.2
            }),
            final(self).quests_spec() == old(self).quests_spec(),
    {
        let cur = self.current;
        let n = self.quests.len();
        self.progress = self.progress + by;
        if self.progress >= self.quests[cur].target {
            let reward = copy_pairs(&self.quests[cur].reward);
            self.current = cur + 1;
            self.progress = 0;
            reward
        } else {
            Vec::new()
        }
    }
}

/// Entry `i` of the cosy chain: its title, objective, target and reward.
pub open spec fn chain_entry(q: Quest, i: int) -> bool {
    if i == 0 {
        &&& q.title@ == "GATHER WILDFLOWERS"@
        &&& q.objective matches Objective::Collect(set) && set@ == seq![BlockId(9), BlockId(10)]
        &&& q.target == 5
        &&& q.reward@ == seq![(BlockId(11), 16u32)]
    } else if i == 1 {
        &&& q.title@ == "PICK SWEET BERRIES"@
        &&& q.objective matches Objective::Collect(set) && set@ == seq![BlockId(20)]
        &&& q.target == 6
        &&& q.reward@ == seq![(BlockId(12), 2u32)]
    } else if i == 2 {
        &&& q.title@ == "CHOP COSY TIMBER"@
        &&& q.objective matches Objective::Collect(set) && set@ == seq![BlockId(6)]
        &&& q.target == 8
        &&& q.reward@ == seq![(BlockId(11), 24u32)]
    } else if i == 3 {
        &&& q.title@ == "BUILD A LITTLE HOME"@
        &&& q.objective matches Objective::Place(set) && set@ == seq![BlockId(11)]
        &&& q.target == 20
        &&& q.reward@ == seq![(BlockId(15), 8u32), (BlockId(12), 2u32)]
    } else {
        &&& q.title@ == "LIGHT UP THE NIGHT"@
        &&& q.objective matches Objective::Place(set) && set@ == seq![BlockId(12)]
        &&& q.target == 4
        &&& q.reward@ == seq![(BlockId(18), 4u32)]
    }
}

/// The log never runs past the end of its chain, advances at most one quest
/// per report, and (for quests with a positive target) progress toward the
/// active quest stays below its target.
pub proof fn lemma_report_keeps_progress_below_target(
    quests: Seq<Quest>,
    current: int,
    progress: int,
    matched: bool,
    by: int,
)
    requires
        0 <= current <= quests.len(),
        0 <= progress,
        0 <= by,
        forall|i: int| 0 <= i < quests.len() ==> #[trigger] quests[i].target > 0,
        current < quests.len() ==> progress < quests[current].target,
    ensures
        ({
            let s = report_step(quests, current, progress, matched, by);
            &&& 0 <= s.0 <= quests.len()
            &&& s.0 < quests.len() ==> s.1 < quests[s.0].target
            &&& s.0 == current || s.0 == current + 1
        }),
{
}

/// Once the chain is complete, reports change nothing and hand out nothing.
pub proof fn lemma_complete_log_is_inert(
    quests: Seq<Quest>,
    current: int,
    progress: int,
    matched: bool,
    by: int,
)
    requires
        current >= quests.len(),
    ensures
        report_step(quests, current, progress, matched, by) == (current, progress, Seq::<
            (BlockId, u32),
        >::empty()),
{
}

} // verus!
