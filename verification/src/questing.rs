//! Quest data model: identifiers, quest records and the quest registry.

use vstd::prelude::*;

use crate::assoc::alookup;
use crate::rng::rng_range_u32;
use crate::screen::QuestScreen;
use crate::text::spec_decimal;
use crate::text::string_push_str;
use crate::text::u32_to_string;
use crate::assoc::keys_unique;
use crate::assoc::lemma_alookup_absent;
use crate::assoc::lemma_alookup_index;
use crate::assoc::lemma_alookup_push;
use crate::assoc::lemma_alookup_remove;
use crate::assoc::lemma_alookup_update;
use crate::assoc::lemma_keys_unique_remove;
use crate::assoc::lemma_keys_unique_update;

verus! {

/// Globally unique 128-bit quest identifier, generated at creation time and
/// never reused.
#[derive(Clone, Copy, PartialEq, Eq, Hash, Debug, Structural)]
pub struct QuestId(pub u128);

impl QuestId {
    /// Relies on `uuid::Uuid::new_v4` (and `Uuid::as_u128`): a freshly
    /// generated random 128-bit identifier. Nothing can be promised of a
    /// random value, so this has no `ensures`.
    #[verifier::external_body]
    pub fn new() -> QuestId {
        QuestId(uuid::Uuid::new_v4().as_u128())
    }
}

/// Quest type discriminant: a fetch quest has no parameter, a kill quest
/// carries its required kill count.
#[derive(Clone, Copy, PartialEq, Eq, Debug, Structural)]
pub enum QuestType {
    Fetch,
    Kill(u32),
}

impl QuestType {
    /// The progress value at which a quest of this type is done: 1 for a
    /// fetch quest, the required kill count for a kill quest.
    pub open spec fn spec_max_progress(self) -> u32 {
        match self {
            QuestType::Fetch => 1u32,
            QuestType::Kill(amount) => amount,
        }
    }

    pub fn max_progress(&self) -> (r: u32)
        ensures
            r == self.spec_max_progress(),
    {
        match self {
            QuestType::Fetch => 1u32,
            QuestType::Kill(amount) => *amount,
        }
    }

    /// The valid progress range of this quest type, as (low, high).
    pub fn progress_range(&self) -> (r: (u32, u32))
        ensures
            r == (0u32, self.spec_max_progress()),
    {
        (0u32, self.max_progress())
    }
}

/// One quest record, owned exclusively by the registry.
#[derive(Clone, Debug)]
pub struct Quest {
    pub id: QuestId,
    pub quest_type: QuestType,
    pub name: String,
    pub description: String,
    pub completed: bool,
    /// Progress counter shown by the quest screen, in the range
    /// `0 ..= quest_type.max_progress()`.
    pub progress: u32,
}

impl Quest {
    /// Well-formedness: a kill quest requires at least one kill, and the
    /// progress counter stays within the type's valid range.
    pub open spec fn wf(self) -> bool {
        &&& self.quest_type.spec_max_progress() >= 1
        &&& self.progress <= self.quest_type.spec_max_progress()
    }
}

/// The quest registry: the single source of truth mapping quest identifiers
/// to quest records.
pub struct Quests {
    entries: Vec<(QuestId, Quest)>,
}

impl Quests {
    /// The registry's invariant: no two entries share an identifier.
    pub closed spec fn wf(self) -> bool {
        keys_unique(self.entries@)
    }

    /// The record stored under `id`, if any.
    pub closed spec fn spec_get(self, id: QuestId) -> Option<Quest> {
        alookup(self.entries@, id)
    }

    /// Whether a record is stored under `id`.
    pub open spec fn contains_quest(self, id: QuestId) -> bool {
        self.spec_get(id) is Some
    }

    pub fn new() -> (r: Quests)
        ensures
            r.wf(),
            forall|id: QuestId| r.spec_get(id) is None,
    {
        Quests { entries: Vec::new() }
    }

    /// Stores `quest` under its own identifier, replacing any record already
    /// stored there.
    #[verifier::loop_isolation(false)]
    pub fn insert(&mut self, quest: Quest)
        requires
            old(self).wf(),
        ensures
            final(self).wf(),
            final(self).spec_get(quest.id) == Some(quest),
            forall|k: QuestId| k != quest.id ==> final(self).spec_get(k) == old(self).spec_get(k),
    {
        let id = quest.id;
        let n = self.entries.len();
        let mut i: usize = 0;
        while i < n
            invariant
                n == self.entries@.len(),
                i <= n,
                keys_unique(self.entries@),
                *self == *old(self),
                forall|j: int| 0 <= j < i ==> self.entries@[j].0 != id,
            decreases n - i,
        {
            if self.entries[i].0 == id {
                let ghost s = self.entries@;
                self.entries[i] = (id, quest);
                proof {
                    assert(s[i as int].0 == id);
                    assert(self.entries@ == s.update(i as int, (s[i as int].0, quest)));
                    lemma_keys_unique_update(s, i as int, quest);
                    lemma_alookup_update(s, i as int, quest, id);
                    assert forall|k: QuestId| k != id implies self.spec_get(k) == old(
                        self,
                    ).spec_get(k) by {
                        lemma_alookup_update(s, i as int, quest, k);
                    }
                }
                return ;
            }
            i += 1;
        }
        let ghost s = self.entries@;
        self.entries.push((id, quest));
        proof {
            assert forall|p: int, q: int|
                0 <= p < q < self.entries@.len() implies self.entries@[p].0
                != self.entries@[q].0 by {
                if q < s.len() {
                    assert(self.entries@[p] == s[p]);
                    assert(self.entries@[q] == s[q]);
                } else {
                    assert(self.entries@[p] == s[p]);
                    assert(self.entries@[q].0 == id);
                }
            }
            lemma_alookup_push(s, (id, quest), id);
            assert forall|k: QuestId| k != id implies self.spec_get(k) == old(self).spec_get(
                k,
            ) by {
                lemma_alookup_push(s, (id, quest), k);
            }
        }
    }

    /// Looks a quest up by identifier.
    #[verifier::loop_isolation(false)]
    pub fn get(&self, id: QuestId) -> (r: Option<&Quest>)
        requires
            self.wf(),
        ensures
            match r {
                Some(q) => self.spec_get(id) == Some(*q),
                None => self.spec_get(id) is None,
            },
    {
        let n = self.entries.len();
        let mut i: usize = 0;
        while i < n
            invariant
                n == self.entries@.len(),
                i <= n,
                self.wf(),
                keys_unique(self.entries@),
                forall|j: int| 0 <= j < i ==> self.entries@[j].0 != id,
            decreases n - i,
        {
            if self.entries[i].0 == id {
                proof {
                    lemma_alookup_index(self.entries@, i as int);
                }
                return Some(&self.entries[i].1);
            }
            i += 1;
        }
        proof {
            lemma_alookup_absent(self.entries@, id);
        }
        None
    }

    /// Removes and returns the quest stored under `id`, if any.
    #[verifier::loop_isolation(false)]
    pub fn remove(&mut self, id: QuestId) -> (r: Option<Quest>)
        requires
            old(self).wf(),
        ensures
            final(self).wf(),
            final(self).spec_get(id) is None,
            forall|k: QuestId| k != id ==> final(self).spec_get(k) == old(self).spec_get(k),
            r == old(self).spec_get(id),
    {
        let n = self.entries.len();
        let mut i: usize = 0;
        while i < n
            invariant
                n == self.entries@.len(),
                i <= n,
                keys_unique(self.entries@),
                *self == *old(self),
                forall|j: int| 0 <= j < i ==> self.entries@[j].0 != id,
            decreases n - i,
        {
            if self.entries[i].0 == id {
                let ghost s = self.entries@;
                proof {
                    lemma_alookup_index(s, i as int);
                    lemma_keys_unique_remove(s, i as int);
                    lemma_alookup_remove(s, i as int, id);
                    assert forall|k: QuestId| k != id implies alookup(s.remove(i as int), k)
                        == old(self).spec_get(k) by {
                        lemma_alookup_remove(s, i as int, k);
                    }
                }
                let entry = self.entries.remove(i);
                return Some(entry.1);
            }
            i += 1;
        }
        proof {
            lemma_alookup_absent(self.entries@, id);
        }
        None
    }
}

/// The description text of a kill quest that requires `amount` kills.
pub open spec fn kill_quest_description(amount: u32) -> Seq<char> {
    "imps killed my grandma... pwease go take revenge on those darn imps for me... kill "@
        + spec_decimal(amount as nat) + "!!"@
}

/// Generates a random quest: a fetch or a kill quest with even odds, a kill
/// quest's required count drawn uniformly from 1 through 5, a fresh random
/// identifier, the type's fixed name and description, no progress and not
/// completed. Which type, count and identifier come out depends on the
/// generators, so only their ranges are promised.
pub fn generate_random_quest(rng: &mut rand::rngs::StdRng) -> (q: Quest)
    ensures
        q.wf(),
        !q.completed,
        q.progress == 0,
        match q.quest_type {
            QuestType::Fetch => q.name@ == "Awesome Fetch Quest"@ && q.description@
                == "imps stole my orange cube... pwease go get it back!!"@,
            QuestType::Kill(amount) => 1 <= amount <= 5 && q.name@ == "Awesome Kill Quest"@
                && q.description@ == kill_quest_description(amount),
        },
{
    let variant = rng_range_u32(rng, 0, 1);
    if variant == 0 {
        Quest {
            id: QuestId::new(),
            quest_type: QuestType::Fetch,
            name: "Awesome Fetch Quest".to_owned(),
            description: "imps stole my orange cube... pwease go get it back!!".to_owned(),
            completed: false,
            progress: 0,
        }
    } else {
        let amount = rng_range_u32(rng, 1, 5);
        let mut description =
            "imps killed my grandma... pwease go take revenge on those darn imps for me... kill ".to_owned();
        let amount_text = u32_to_string(amount);
        string_push_str(&mut description, amount_text.as_str());
        string_push_str(&mut description, "!!");
        proof {
            assert(description@ =~= kill_quest_description(amount));
        }
        Quest {
            id: QuestId::new(),
            quest_type: QuestType::Kill(amount),
            name: "Awesome Kill Quest".to_owned(),
            description,
            completed: false,
            progress: 0,
        }
    }
}

/// Per-NPC quest giver state: at most one outstanding given quest.
#[derive(Clone, Copy, Debug, Default)]
pub struct QuestGiver {
    pub given_quest: Option<QuestId>,
}

/// A transient proposal wrapping the one quest offered for accept/decline.
#[derive(Clone, Copy, Debug)]
pub struct QuestProposal {
    pub quest_id: QuestId,
}

/// The two inputs a proposal's modal context can resolve.
#[derive(Clone, Copy, PartialEq, Eq, Structural, Hash, Debug)]
pub enum QuestProposalAction {
    Accept,
    Decline,
}

/// Handles a player interaction that the physics layer resolved (via its ray
/// query along the look direction) to at most one quest giver, given by index
/// into the giver arena. With no giver hit, or a giver whose slot is already
/// occupied, the whole pipeline short-circuits with no side effects and no
/// new proposal. With an idle giver, a quest is generated, registered,
/// tracked on the quest screen, the giver's slot is set to it, and the
/// proposal to present is returned.
pub fn propose_quest(
    quests: &mut Quests,
    quest_screen: &mut QuestScreen,
    quest_givers: &mut Vec<QuestGiver>,
    quest_giver: Option<usize>,
    rng: &mut rand::rngs::StdRng,
) -> (proposal: Option<QuestProposal>)
    requires
        old(quests).wf(),
        old(quest_screen).wf(),
        quest_giver matches Some(g) ==> g < old(quest_givers)@.len(),
    ensures
        final(quests).wf(),
        final(quest_screen).wf(),
        quest_giver is None ==> *final(quests) == *old(quests) && *final(quest_screen) == *old(
            quest_screen,
        ) && final(quest_givers)@ == old(quest_givers)@ && proposal is None,
        quest_giver matches Some(g) ==> (old(quest_givers)@[g as int].given_quest is Some
            ==> *final(quests) == *old(quests) && *final(quest_screen) == *old(quest_screen)
            && final(quest_givers)@ == old(quest_givers)@ && proposal is None),
        quest_giver matches Some(g) ==> (old(quest_givers)@[g as int].given_quest is None ==> {
            let id = proposal->Some_0.quest_id;
            let q = final(quests).spec_get(id)->Some_0;
            &&& proposal is Some
            &&& final(quests).contains_quest(id)
            &&& q.wf()
            &&& q.id == id
            &&& !q.completed
            &&& q.progress == 0
            &&& (q.quest_type matches QuestType::Kill(amount) ==> 1 <= amount <= 5)
            &&& forall|k: QuestId| k != id ==> final(quests).spec_get(k) == old(quests).spec_get(k)
            &&& final(quest_screen).tracks(id)
            &&& forall|k: QuestId|
                k != id ==> final(quest_screen).tracks(k) == old(quest_screen).tracks(k)
            &&& final(quest_screen).nodes() == old(quest_screen).nodes()
            &&& final(quest_screen).spec_displayed() == old(quest_screen).spec_displayed()
            &&& final(quest_givers)@ == old(quest_givers)@.update(
                g as int,
                (QuestGiver { given_quest: Some(id) }),
            )
        }),
{
    let g = match quest_giver {
        Some(g) => g,
        None => {
            return None;
        },
    };
    if quest_givers[g].given_quest.is_some() {
        return None;
    }
    let quest = generate_random_quest(rng);
    let quest_id = quest.id;
    quests.insert(quest);
    quest_screen.track(quest_id);
    quest_givers[g] = QuestGiver { given_quest: Some(quest_id) };
    Some(QuestProposal { quest_id })
}

/// The quest a routed input's proposal refers to, if that input still carries
/// a proposal.
pub fn get_proposed_quest(proposal: Option<&QuestProposal>) -> (r: Option<QuestId>)
    ensures
        r == match proposal {
            Some(p) => Some(p.quest_id),
            None => None::<QuestId>,
        },
{
    match proposal {
        Some(p) => Some(p.quest_id),
        None => None,
    }
}

/// Accepting a proposal destroys only the proposal: the quest remains in the
/// registry and in the tracked set, and the giver's given-quest slot stays
/// set. The accepted quest's identifier is returned.
pub fn accept_proposal(
    quests: &mut Quests,
    quest_screen: &mut QuestScreen,
    quest_givers: &mut Vec<QuestGiver>,
    proposal: QuestProposal,
) -> (accepted: QuestId)
    ensures
        *final(quests) == *old(quests),
        *final(quest_screen) == *old(quest_screen),
        final(quest_givers)@ == old(quest_givers)@,
        accepted == proposal.quest_id,
{
    proposal.quest_id
}

/// Resolves a declined proposal's quest: removes it from the registry,
/// untracks it from the quest screen, and clears the slot of the first giver
/// whose given-quest equals it — such a giver must exist (a missing one would
/// be a prior logic bug, which `requires` rules out). A call without a quest
/// identifier is a no-op.
#[verifier::loop_isolation(false)]
pub fn finish_quest(
    quests: &mut Quests,
    quest_screen: &mut QuestScreen,
    quest_givers: &mut Vec<QuestGiver>,
    quest_id: Option<QuestId>,
)
    requires
        old(quests).wf(),
        old(quest_screen).wf(),
        quest_id matches Some(id) ==> exists|j: int|
            0 <= j < old(quest_givers)@.len() && old(quest_givers)@[j].given_quest == Some(id),
    ensures
        final(quests).wf(),
        final(quest_screen).wf(),
        quest_id is None ==> *final(quests) == *old(quests) && *final(quest_screen) == *old(
            quest_screen,
        ) && final(quest_givers)@ == old(quest_givers)@,
        quest_id matches Some(id) ==> ({
            &&& !final(quests).contains_quest(id)
            &&& forall|k: QuestId| k != id ==> final(quests).spec_get(k) == old(quests).spec_get(k)
            &&& !final(quest_screen).tracks(id)
            &&& forall|k: QuestId|
                k != id ==> final(quest_screen).tracks(k) == old(quest_screen).tracks(k)
            &&& final(quest_screen).nodes() == old(quest_screen).nodes()
            &&& final(quest_screen).spec_displayed() == old(quest_screen).spec_displayed()
            &&& exists|j: int|
                0 <= j < old(quest_givers)@.len() && old(quest_givers)@[j].given_quest == Some(id)
                    && (forall|jj: int|
                    0 <= jj < j ==> old(quest_givers)@[jj].given_quest != Some(id))
                    && final(quest_givers)@ == old(quest_givers)@.update(
                    j,
                    (QuestGiver { given_quest: None }),
                )
        }),
{
    let id = match quest_id {
        Some(id) => id,
        None => {
            return ;
        },
    };
    quests.remove(id);
    quest_screen.untrack(id);
    let n = quest_givers.len();
    let mut j: usize = 0;
    while j < n
        invariant
            j <= n,
            n == quest_givers@.len(),
            quest_givers@ == old(quest_givers)@,
            forall|jj: int| 0 <= jj < j ==> quest_givers@[jj].given_quest != Some(id),
        decreases n - j,
    {
        let matches_id = match quest_givers[j].given_quest {
            Some(given) => given == id,
            None => false,
        };
        if matches_id {
            quest_givers[j] = QuestGiver { given_quest: None };
            return ;
        }
        j += 1;
    }
    proof {
        assert(false);
    }
}

} // verus!
