//! The quest screen: the set of quest identifiers tracked for display, the
//! mapping from quest identifier to its display nodes, and the synchronizer
//! that reconciles the mapping against the tracked set each tick.
//!
//! The screen does not draw anything itself: display nodes are integer
//! handles allocated here, and every operation returns the list of
//! [`UiCommand`]s the external UI layer must carry out.

use vstd::prelude::*;

use crate::assoc::alookup;
use crate::assoc::distinct_seq;
use crate::assoc::keys_unique;
use crate::assoc::lemma_alookup_absent;
use crate::assoc::lemma_alookup_index;
use crate::assoc::lemma_alookup_push;
use crate::assoc::lemma_alookup_remove;
use crate::assoc::lemma_distinct_remove;
use crate::assoc::lemma_keys_unique_remove;
use crate::assoc::lemma_push_contains;
use crate::questing::Quest;
use crate::questing::QuestId;
use crate::questing::Quests;
use crate::text::fill_percent;
use crate::text::progress_text;
use crate::text::spec_progress_text;

verus! {

/// The display nodes of one tracked quest: the list entry button, the detail
/// panel, and the panel's progress caption and progress bar.
#[derive(Clone, Copy, PartialEq, Eq, Structural, Debug)]
pub struct QuestScreenNode {
    pub quest_id: QuestId,
    pub node: u64,
    pub display: u64,
    pub progress_text: u64,
    pub progress_bar: u64,
}

/// One instruction to the external UI layer.
#[derive(Clone, Debug)]
pub enum UiCommand {
    /// Create the list entry and detail panel for one quest: the handles in
    /// `node`, the name label, the description text, the progress caption and
    /// the progress bar fill.
    SpawnNode {
        node: QuestScreenNode,
        name: String,
        description: String,
        progress_text: String,
        fill_percent: u32,
    },
    /// Destroy a node and, recursively, its children.
    DespawnNode { node: u64 },
    /// Replace a text node's content.
    SetText { node: u64, text: String },
    /// Set a progress bar's fill percentage.
    SetFill { node: u64, percent: u32 },
    /// Show or hide a node.
    SetVisible { node: u64, visible: bool },
}

/// The quest screen's state.
pub struct QuestScreen {
    quests: Vec<QuestId>,
    quest_nodes: Vec<(QuestId, QuestScreenNode)>,
    displayed: Option<u64>,
    next_node: u64,
}

impl QuestScreen {
    /// The quest identifiers tracked for display.
    pub closed spec fn tracked_ids(self) -> Seq<QuestId> {
        self.quests@
    }

    /// Whether `id` is tracked for display.
    pub open spec fn tracks(self, id: QuestId) -> bool {
        self.tracked_ids().contains(id)
    }

    /// The node mapping's entries.
    pub closed spec fn nodes(self) -> Seq<(QuestId, QuestScreenNode)> {
        self.quest_nodes@
    }

    /// The display nodes mapped to `id`, if any.
    pub open spec fn node_of(self, id: QuestId) -> Option<QuestScreenNode> {
        alookup(self.nodes(), id)
    }

    /// Whether a node mapping entry exists for `id`.
    pub open spec fn has_node(self, id: QuestId) -> bool {
        self.node_of(id) is Some
    }

    /// The detail panel currently shown, if any.
    pub closed spec fn spec_displayed(self) -> Option<u64> {
        self.displayed
    }

    /// All node handles allocated so far are below this bound.
    pub closed spec fn handle_bound(self) -> u64 {
        self.next_node
    }

    /// The screen's invariant: no tracked identifier or mapping key occurs
    /// twice, every mapped node record carries the identifier it is mapped
    /// under, and every allocated handle is below the allocation bound.
    pub closed spec fn wf(self) -> bool {
        &&& distinct_seq(self.quests@)
        &&& keys_unique(self.quest_nodes@)
        &&& forall|i: int|
            0 <= i < self.quest_nodes@.len() ==> {
                let e = #[trigger] self.quest_nodes@[i];
                &&& e.1.quest_id == e.0
                &&& e.1.node < self.next_node
                &&& e.1.display < self.next_node
                &&& e.1.progress_text < self.next_node
                &&& e.1.progress_bar < self.next_node
            }
    }

    /// An empty quest screen: nothing tracked, nothing mapped, no detail
    /// panel shown.
    pub fn new() -> (r: QuestScreen)
        ensures
            r.wf(),
            r.tracked_ids() == Seq::<QuestId>::empty(),
            r.nodes() == Seq::<(QuestId, QuestScreenNode)>::empty(),
            r.spec_displayed() is None,
    {
        QuestScreen { quests: Vec::new(), quest_nodes: Vec::new(), displayed: None, next_node: 0 }
    }

    /// Whether `id` is tracked for display.
    #[verifier::loop_isolation(false)]
    pub fn is_tracked(&self, id: QuestId) -> (r: bool)
        ensures
            r == self.tracks(id),
    {
        let n = self.quests.len();
        let mut i: usize = 0;
        while i < n
            invariant
                i <= n,
                n == self.quests@.len(),
                forall|j: int| 0 <= j < i ==> self.quests@[j] != id,
            decreases n - i,
        {
            if self.quests[i] == id {
                return true;
            }
            i += 1;
        }
        false
    }

    /// The display nodes mapped to `id`, if any.
    #[verifier::loop_isolation(false)]
    pub fn get_node(&self, id: QuestId) -> (r: Option<&QuestScreenNode>)
        requires
            self.wf(),
        ensures
            match r {
                Some(n) => self.node_of(id) == Some(*n),
                None => self.node_of(id) is None,
            },
    {
        let n = self.quest_nodes.len();
        let mut i: usize = 0;
        while i < n
            invariant
                i <= n,
                n == self.quest_nodes@.len(),
                forall|j: int| 0 <= j < i ==> self.quest_nodes@[j].0 != id,
            decreases n - i,
        {
            if self.quest_nodes[i].0 == id {
                proof {
                    lemma_alookup_index(self.quest_nodes@, i as int);
                }
                return Some(&self.quest_nodes[i].1);
            }
            i += 1;
        }
        proof {
            lemma_alookup_absent(self.quest_nodes@, id);
        }
        None
    }

    /// The tracked identifiers, for the embedding layer to inspect.
    #[verifier::loop_isolation(false)]
    pub fn tracked_now(&self) -> (r: Vec<QuestId>)
        ensures
            r@ == self.tracked_ids(),
    {
        let mut r: Vec<QuestId> = Vec::new();
        let n = self.quests.len();
        let mut i: usize = 0;
        while i < n
            invariant
                i <= n,
                n == self.quests@.len(),
                r@ == self.quests@.take(i as int),
            decreases n - i,
        {
            r.push(self.quests[i]);
            proof {
                assert(r@ =~= self.quests@.take(i as int + 1));
            }
            i += 1;
        }
        proof {
            assert(self.quests@.take(n as int) =~= self.quests@);
        }
        r
    }

    /// The detail panel currently shown, if any.
    pub fn current_displayed(&self) -> (r: Option<u64>)
        ensures
            r == self.spec_displayed(),
    {
        self.displayed
    }

    /// The node handle allocation bound, for the embedding layer to check
    /// headroom before a synchronization pass.
    pub fn handle_bound_now(&self) -> (r: u64)
        ensures
            r == self.handle_bound(),
    {
        self.next_node
    }

    /// Starts tracking `id` for display; tracking an already-tracked
    /// identifier changes nothing.
    pub fn track(&mut self, id: QuestId)
        requires
            old(self).wf(),
        ensures
            final(self).wf(),
            final(self).tracks(id),
            forall|k: QuestId| k != id ==> final(self).tracks(k) == old(self).tracks(k),
            final(self).nodes() == old(self).nodes(),
            final(self).spec_displayed() == old(self).spec_displayed(),
            final(self).handle_bound() == old(self).handle_bound(),
            final(self).tracked_ids() == if old(self).tracks(id) {
                old(self).tracked_ids()
            } else {
                old(self).tracked_ids().push(id)
            },
    {
        if !self.is_tracked(id) {
            let ghost s = self.quests@;
            self.quests.push(id);
            proof {
                lemma_push_contains(s, id);
                assert forall|p: int, q: int|
                    0 <= p < q < self.quests@.len() implies self.quests@[p] != self.quests@[q] by {
                    if q < s.len() {
                        assert(self.quests@[p] == s[p]);
                        assert(self.quests@[q] == s[q]);
                    } else {
                        assert(self.quests@[p] == s[p]);
                        assert(s.contains(s[p]));
                    }
                }
            }
        }
    }

    /// Stops tracking `id`; untracking an identifier not tracked changes
    /// nothing.
    #[verifier::loop_isolation(false)]
    pub fn untrack(&mut self, id: QuestId)
        requires
            old(self).wf(),
        ensures
            final(self).wf(),
            !final(self).tracks(id),
            forall|k: QuestId| k != id ==> final(self).tracks(k) == old(self).tracks(k),
            final(self).nodes() == old(self).nodes(),
            final(self).spec_displayed() == old(self).spec_displayed(),
            final(self).handle_bound() == old(self).handle_bound(),
    {
        let n = self.quests.len();
        let mut i: usize = 0;
        while i < n
            invariant
                i <= n,
                n == self.quests@.len(),
                *self == *old(self),
                forall|j: int| 0 <= j < i ==> self.quests@[j] != id,
            decreases n - i,
        {
            if self.quests[i] == id {
                let ghost s = self.quests@;
                proof {
                    lemma_distinct_remove(s, i as int);
                }
                self.quests.remove(i);
                return ;
            }
            i += 1;
        }
    }

    /// One command describing the creation of `n`'s display nodes for quest
    /// `q`, with the rendered name, description, progress caption and bar
    /// fill.
    pub open spec fn spawn_cmd_for(cmd: UiCommand, q: Quest, n: QuestScreenNode) -> bool {
        &&& cmd matches UiCommand::SpawnNode {
            node,
            name,
            description,
            progress_text: caption,
            fill_percent: fill,
        }
        &&& node == n
        &&& name@ == q.name@
        &&& description@ == q.description@
        &&& caption@ == spec_progress_text(q.progress, q.quest_type.spec_max_progress())
        &&& fill == (q.progress as int) * 100 / (q.quest_type.spec_max_progress() as int)
    }

    /// Constructs display nodes for `quest_id`, records the mapping, and
    /// returns the single command that creates them; if `quest_id` already
    /// has nodes, nothing happens.
    pub fn add_quest_nodes(&mut self, quests: &Quests, quest_id: QuestId) -> (cmds: Vec<UiCommand>)
        requires
            old(self).wf(),
            quests.wf(),
            quests.contains_quest(quest_id),
            quests.spec_get(quest_id)->Some_0.wf(),
            old(self).handle_bound() + 4 <= u64::MAX,
        ensures
            final(self).wf(),
            final(self).tracked_ids() == old(self).tracked_ids(),
            final(self).spec_displayed() == old(self).spec_displayed(),
            old(self).has_node(quest_id) ==> *final(self) == *old(self) && cmds@.len() == 0,
            !old(self).has_node(quest_id) ==> {
                let q = quests.spec_get(quest_id)->Some_0;
                let n = final(self).node_of(quest_id)->Some_0;
                &&& final(self).has_node(quest_id)
                &&& n.quest_id == quest_id
                &&& n.node >= old(self).handle_bound()
                &&& final(self).handle_bound() == old(self).handle_bound() + 4
                &&& forall|k: QuestId| k != quest_id ==> final(self).node_of(k) == old(
                    self,
                ).node_of(k)
                &&& cmds@.len() == 1
                &&& Self::spawn_cmd_for(cmds@[0], q, n)
            },
    {
        if self.get_node(quest_id).is_some() {
            return Vec::new();
        }
        let quest = match quests.get(quest_id) {
            Some(q) => q,
            None => {
                proof {
                    assert(false);
                }
                return Vec::new();
            },
        };
        let base = self.next_node;
        let node = QuestScreenNode {
            quest_id,
            node: base,
            display: base + 1,
            progress_text: base + 2,
            progress_bar: base + 3,
        };
        let max = quest.quest_type.max_progress();
        let caption = progress_text(quest.progress, max);
        let fill = fill_percent(quest.progress, max);
        let cmd = UiCommand::SpawnNode {
            node,
            name: quest.name.clone(),
            description: quest.description.clone(),
            progress_text: caption,
            fill_percent: fill,
        };
        let ghost s = self.quest_nodes@;
        self.quest_nodes.push((quest_id, node));
        self.next_node = base + 4;
        proof {
            assert forall|p: int, q: int|
                0 <= p < q < self.quest_nodes@.len() implies self.quest_nodes@[p].0
                != self.quest_nodes@[q].0 by {
                if q < s.len() {
                    assert(self.quest_nodes@[p] == s[p]);
                    assert(self.quest_nodes@[q] == s[q]);
                } else {
                    assert(self.quest_nodes@[p] == s[p]);
                    lemma_alookup_index(s, p);
                }
            }
            lemma_alookup_push(s, (quest_id, node), quest_id);
            assert forall|k: QuestId| k != quest_id implies self.node_of(k) == old(self).node_of(
                k,
            ) by {
                lemma_alookup_push(s, (quest_id, node), k);
            }
        }
        let mut cmds: Vec<UiCommand> = Vec::new();
        cmds.push(cmd);
        cmds
    }

    /// Destroys the display nodes mapped to `quest_id` and removes the
    /// mapping entry, returning the two commands that despawn the list entry
    /// and the detail panel (each recursively); without a mapping entry,
    /// nothing happens.
    #[verifier::loop_isolation(false)]
    pub fn remove_quest_nodes(&mut self, quest_id: QuestId) -> (cmds: Vec<UiCommand>)
        requires
            old(self).wf(),
        ensures
            final(self).wf(),
            final(self).tracked_ids() == old(self).tracked_ids(),
            final(self).spec_displayed() == old(self).spec_displayed(),
            final(self).handle_bound() == old(self).handle_bound(),
            !final(self).has_node(quest_id),
            forall|k: QuestId| k != quest_id ==> final(self).node_of(k) == old(self).node_of(k),
            !old(self).has_node(quest_id) ==> *final(self) == *old(self) && cmds@.len() == 0,
            old(self).has_node(quest_id) ==> {
                let n = old(self).node_of(quest_id)->Some_0;
                cmds@ =~= seq![
                    UiCommand::DespawnNode { node: n.node },
                    UiCommand::DespawnNode { node: n.display },
                ]
            },
    {
        let n = self.quest_nodes.len();
        let mut i: usize = 0;
        while i < n
            invariant
                i <= n,
                n == self.quest_nodes@.len(),
                *self == *old(self),
                forall|j: int| 0 <= j < i ==> self.quest_nodes@[j].0 != quest_id,
            decreases n - i,
        {
            if self.quest_nodes[i].0 == quest_id {
                let ghost s = self.quest_nodes@;
                proof {
                    lemma_alookup_index(s, i as int);
                    lemma_keys_unique_remove(s, i as int);
                    assert forall|k: QuestId| true implies alookup(s.remove(i as int), k) == (if k
                        == quest_id {
                        None::<QuestScreenNode>
                    } else {
                        alookup(s, k)
                    }) by {
                        lemma_alookup_remove(s, i as int, k);
                    }
                }
                let entry = self.quest_nodes.remove(i);
                let mut cmds: Vec<UiCommand> = Vec::new();
                cmds.push(UiCommand::DespawnNode { node: entry.1.node });
                cmds.push(UiCommand::DespawnNode { node: entry.1.display });
                return cmds;
            }
            i += 1;
        }
        proof {
            lemma_alookup_absent(self.quest_nodes@, quest_id);
        }
        Vec::new()
    }

    /// Selects the quest whose list entry was pressed: hides the detail panel
    /// currently shown (if any), shows the selected quest's panel, and
    /// records it as displayed. Selecting a quest without a mapping entry
    /// changes nothing.
    pub fn change_displayed_node(&mut self, quest_id: QuestId) -> (cmds: Vec<UiCommand>)
        requires
            old(self).wf(),
        ensures
            final(self).wf(),
            final(self).tracked_ids() == old(self).tracked_ids(),
            final(self).nodes() == old(self).nodes(),
            final(self).handle_bound() == old(self).handle_bound(),
            !old(self).has_node(quest_id) ==> *final(self) == *old(self) && cmds@.len() == 0,
            old(self).has_node(quest_id) ==> {
                let sel = old(self).node_of(quest_id)->Some_0;
                &&& final(self).spec_displayed() == Some(sel.display)
                &&& cmds@ =~= (match old(self).spec_displayed() {
                    Some(d) => seq![UiCommand::SetVisible { node: d, visible: false }],
                    None => Seq::<UiCommand>::empty(),
                }) + seq![UiCommand::SetVisible { node: sel.display, visible: true }]
            },
    {
        let sel = match self.get_node(quest_id) {
            Some(n) => *n,
            None => {
                return Vec::new();
            },
        };
        let mut cmds: Vec<UiCommand> = Vec::new();
        match self.displayed {
            Some(d) => {
                cmds.push(UiCommand::SetVisible { node: d, visible: false });
            },
            None => {},
        }
        cmds.push(UiCommand::SetVisible { node: sel.display, visible: true });
        self.displayed = Some(sel.display);
        cmds
    }

    /// The node record a creation command carries, if the command is one.
    pub open spec fn spawn_node_of(cmd: UiCommand) -> Option<QuestScreenNode> {
        match cmd {
            UiCommand::SpawnNode { node, .. } => Some(node),
            _ => None,
        }
    }

    /// One synchronization pass, run once per update tick: reconciles the
    /// node mapping against the tracked set. Display nodes are constructed
    /// for each tracked quest that has none (looking the quest up in the
    /// registry, which must hold every tracked quest), and the nodes of each
    /// mapped quest no longer tracked are destroyed. The returned commands
    /// list every creation before every destruction; both sides work on
    /// disjoint identifier sets, so the pass converges to mapping keys equal
    /// to the tracked set whichever order the UI applies them in.
    #[verifier::loop_isolation(false)]
    #[verifier::rlimit(60)]
    pub fn update_quest_screen_nodes(&mut self, quests: &Quests) -> (cmds: Vec<UiCommand>)
        requires
            old(self).wf(),
            quests.wf(),
            forall|id: QuestId|
                old(self).tracks(id) ==> quests.contains_quest(id) && quests.spec_get(
                    id,
                )->Some_0.wf(),
            old(self).handle_bound() + 4 * old(self).tracked_ids().len() <= u64::MAX,
        ensures
            final(self).wf(),
            final(self).tracked_ids() == old(self).tracked_ids(),
            final(self).spec_displayed() == old(self).spec_displayed(),
            forall|id: QuestId| final(self).has_node(id) <==> final(self).tracks(id),
            forall|id: QuestId|
                old(self).tracks(id) && old(self).has_node(id) ==> final(self).node_of(id) == old(
                    self,
                ).node_of(id),
            forall|c: int| 0 <= c < cmds@.len() ==> cmds@[c] is SpawnNode || cmds@[c] is DespawnNode,
            forall|c1: int, c2: int|
                0 <= c1 < c2 < cmds@.len() && cmds@[c1] is DespawnNode ==> cmds@[c2] is DespawnNode,
            forall|c: int|
                0 <= c < cmds@.len() && Self::spawn_node_of(#[trigger] cmds@[c]) is Some ==> {
                    let node = Self::spawn_node_of(cmds@[c])->Some_0;
                    &&& old(self).tracks(node.quest_id)
                    &&& !old(self).has_node(node.quest_id)
                    &&& final(self).node_of(node.quest_id) == Some(node)
                    &&& Self::spawn_cmd_for(
                        cmds@[c],
                        quests.spec_get(node.quest_id)->Some_0,
                        node,
                    )
                },
            forall|id: QuestId|
                old(self).tracks(id) && !old(self).has_node(id) ==> exists|c: int|
                    0 <= c < cmds@.len() && Self::spawn_cmd_for(
                        #[trigger] cmds@[c],
                        quests.spec_get(id)->Some_0,
                        final(self).node_of(id)->Some_0,
                    ),
            forall|id: QuestId|
                old(self).has_node(id) && !old(self).tracks(id) ==> {
                    let n = old(self).node_of(id)->Some_0;
                    &&& cmds@.contains(UiCommand::DespawnNode { node: n.node })
                    &&& cmds@.contains(UiCommand::DespawnNode { node: n.display })
                },
    {
        let ghost pre = *old(self);
        let mut cmds: Vec<UiCommand> = Vec::new();

        // Add display nodes for tracked quests that have none yet.
        let n = self.quests.len();
        let mut i: usize = 0;
        let ghost mut done: Seq<QuestId> = Seq::empty();
        while i < n
            invariant
                i <= n,
                n == pre.tracked_ids().len(),
                self.wf(),
                self.tracked_ids() == pre.tracked_ids(),
                self.spec_displayed() == pre.spec_displayed(),
                self.handle_bound() <= pre.handle_bound() + 4 * i,
                done == pre.tracked_ids().take(i as int),
                forall|id: QuestId| pre.has_node(id) ==> self.node_of(id) == pre.node_of(id),
                forall|id: QuestId| self.has_node(id) <==> pre.has_node(id) || done.contains(id),
                forall|c: int| 0 <= c < cmds@.len() ==> cmds@[c] is SpawnNode,
                forall|c: int|
                    0 <= c < cmds@.len() && Self::spawn_node_of(#[trigger] cmds@[c]) is Some ==> {
                        let node = Self::spawn_node_of(cmds@[c])->Some_0;
                        &&& pre.tracks(node.quest_id)
                        &&& !pre.has_node(node.quest_id)
                        &&& self.node_of(node.quest_id) == Some(node)
                        &&& Self::spawn_cmd_for(
                            cmds@[c],
                            quests.spec_get(node.quest_id)->Some_0,
                            node,
                        )
                    },
                forall|id: QuestId|
                    done.contains(id) && !pre.has_node(id) ==> exists|c: int|
                        0 <= c < cmds@.len() && Self::spawn_cmd_for(
                            #[trigger] cmds@[c],
                            quests.spec_get(id)->Some_0,
                            self.node_of(id)->Some_0,
                        ),
            decreases n - i,
        {
            let id = self.quests[i];
            proof {
                assert(pre.tracked_ids()[i as int] == id);
                assert(pre.tracks(id));
                assert(old(self).tracks(id));
                assert(quests.contains_quest(id));
                assert(quests.spec_get(id)->Some_0.wf());
            }
            let ghost before = *self;
            let ghost cmds_before = cmds@;
            let ghost done0 = done;
            let mut fresh = self.add_quest_nodes(quests, id);
            match fresh.pop() {
                Some(cmd) => {
                    cmds.push(cmd);
                },
                None => {},
            }
            proof {
                done = done0.push(id);
                assert(done =~= pre.tracked_ids().take(i as int + 1));
                lemma_push_contains(done0, id);
                assert forall|id2: QuestId|
                    self.has_node(id2) <==> (pre.has_node(id2) || done.contains(id2)) by {
                    if id2 == id {
                        assert(done.contains(id));
                        if !before.has_node(id) {
                            assert(self.has_node(id));
                        }
                    } else {
                        assert(self.node_of(id2) == before.node_of(id2));
                        assert(done.contains(id2) == done0.contains(id2));
                        assert(before.has_node(id2) <==> pre.has_node(id2) || done0.contains(id2));
                    }
                }
                assert forall|c: int|
                    0 <= c < cmds@.len() && Self::spawn_node_of(#[trigger] cmds@[c]) is Some implies {
                    let node = Self::spawn_node_of(cmds@[c])->Some_0;
                    &&& pre.tracks(node.quest_id)
                    &&& !pre.has_node(node.quest_id)
                    &&& self.node_of(node.quest_id) == Some(node)
                    &&& Self::spawn_cmd_for(cmds@[c], quests.spec_get(node.quest_id)->Some_0, node)
                } by {
                    if c < cmds_before.len() {
                        assert(cmds@[c] == cmds_before[c]);
                        let node = Self::spawn_node_of(cmds_before[c])->Some_0;
                        assert(before.node_of(node.quest_id) == Some(node));
                        assert(node.quest_id != id || before.has_node(id));
                    }
                }
                assert forall|id2: QuestId|
                    done.contains(id2) && !pre.has_node(id2) implies exists|c: int|
                    0 <= c < cmds@.len() && Self::spawn_cmd_for(
                        #[trigger] cmds@[c],
                        quests.spec_get(id2)->Some_0,
                        self.node_of(id2)->Some_0,
                    ) by {
                    if id2 == id && !before.has_node(id) {
                        assert(Self::spawn_cmd_for(
                            cmds@[cmds@.len() - 1],
                            quests.spec_get(id)->Some_0,
                            self.node_of(id)->Some_0,
                        ));
                    } else if done0.contains(id2) && !pre.has_node(id2) {
                        let c = choose|c: int|
                            0 <= c < cmds_before.len() && Self::spawn_cmd_for(
                                #[trigger] cmds_before[c],
                                quests.spec_get(id2)->Some_0,
                                before.node_of(id2)->Some_0,
                            );
                        assert(cmds@[c] == cmds_before[c]);
                        assert(id2 != id);
                        assert(self.node_of(id2) == before.node_of(id2));
                    } else {
                        assert(done0.contains(id2));
                    }
                }
            }
            i += 1;
        }
        proof {
            assert(done =~= pre.tracked_ids());
        }

        // Collect the mapped identifiers that are no longer tracked.
        let ghost mid = *self;
        let ghost mid_cmds = cmds@;
        let ghost spawn_count = cmds@.len() as int;
        let mut stale: Vec<QuestId> = Vec::new();
        let m = self.quest_nodes.len();
        let mut j: usize = 0;
        while j < m
            invariant
                j <= m,
                m == self.nodes().len(),
                *self == mid,
                distinct_seq(stale@),
                forall|c: int|
                    0 <= c < stale@.len() ==> exists|jj: int|
                        0 <= jj < j && #[trigger] stale@[c] == self.nodes()[jj].0,
                forall|c: int|
                    0 <= c < stale@.len() ==> self.has_node(#[trigger] stale@[c]) && !self.tracks(
                        stale@[c],
                    ),
                forall|jj: int|
                    0 <= jj < j && !self.tracks(#[trigger] self.nodes()[jj].0) ==> stale@.contains(
                        self.nodes()[jj].0,
                    ),
            decreases m - j,
        {
            let id = self.quest_nodes[j].0;
            if !self.is_tracked(id) {
                let ghost st = stale@;
                proof {
                    lemma_alookup_index(self.quest_nodes@, j as int);
                    assert forall|c: int| 0 <= c < st.len() implies st[c] != id by {
                        let jj = choose|jj: int| 0 <= jj < j && st[c] == self.nodes()[jj].0;
                        assert(self.nodes()[jj].0 != self.nodes()[j as int].0);
                    }
                }
                stale.push(id);
                proof {
                    lemma_push_contains(st, id);
                    assert forall|p: int, q: int|
                        0 <= p < q < stale@.len() implies stale@[p] != stale@[q] by {
                        if q < st.len() {
                            assert(stale@[p] == st[p]);
                            assert(stale@[q] == st[q]);
                        } else {
                            assert(stale@[p] == st[p]);
                            assert(stale@[q] == id);
                        }
                    }
                    assert forall|c: int|
                        0 <= c < stale@.len() implies exists|jj: int|
                        0 <= jj < j + 1 && #[trigger] stale@[c] == self.nodes()[jj].0 by {
                        if c < st.len() {
                            assert(stale@[c] == st[c]);
                            let jj = choose|jj: int| 0 <= jj < j && st[c] == self.nodes()[jj].0;
                            assert(stale@[c] == self.nodes()[jj].0);
                        } else {
                            assert(stale@[c] == self.nodes()[j as int].0);
                        }
                    }
                }
            }
            j += 1;
        }
        proof {
            assert forall|id: QuestId| mid.has_node(id) && !mid.tracks(id) implies stale@.contains(
                id,
            ) by {
                crate::assoc::lemma_alookup_some_exists(mid.nodes(), id);
            }
        }

        // Destroy the display nodes of every stale identifier.
        let k = stale.len();
        let mut t: usize = 0;
        let ghost mut removed: Seq<QuestId> = Seq::empty();
        while t < k
            invariant
                t <= k,
                k == stale@.len(),
                self.wf(),
                self.tracked_ids() == mid.tracked_ids(),
                self.spec_displayed() == mid.spec_displayed(),
                self.handle_bound() == mid.handle_bound(),
                removed == stale@.take(t as int),
                forall|id: QuestId| !removed.contains(id) ==> self.node_of(id) == mid.node_of(id),
                forall|id: QuestId| removed.contains(id) ==> !self.has_node(id),
                cmds@.len() == spawn_count + 2 * t,
                forall|c: int| 0 <= c < spawn_count ==> cmds@[c] == mid_cmds[c],
                forall|idx: int|
                    0 <= idx < t ==> {
                        let nd = mid.node_of(#[trigger] stale@[idx])->Some_0;
                        &&& cmds@[spawn_count + 2 * idx] == (UiCommand::DespawnNode {
                            node: nd.node,
                        })
                        &&& cmds@[spawn_count + 2 * idx + 1] == (UiCommand::DespawnNode {
                            node: nd.display,
                        })
                    },
            decreases k - t,
        {
            let id = stale[t];
            proof {
                assert(!removed.contains(id)) by {
                    if removed.contains(id) {
                        let c = choose|c: int| 0 <= c < t && stale@.take(t as int)[c] == id;
                        assert(stale@[c] == stale@[t as int]);
                    }
                }
                assert(self.node_of(id) == mid.node_of(id));
                assert(self.has_node(id));
            }
            let ghost before_rm = *self;
            let ghost cmds_rm = cmds@;
            let ghost removed0 = removed;
            let mut dc = self.remove_quest_nodes(id);
            let ghost dcv = dc@;
            let second = dc.pop();
            let first = dc.pop();
            match (first, second) {
                (Some(a), Some(b)) => {
                    cmds.push(a);
                    cmds.push(b);
                },
                _ => {
                    proof {
                        assert(false);
                    }
                },
            }
            proof {
                removed = removed0.push(id);
                assert(removed =~= stale@.take(t as int + 1));
                lemma_push_contains(removed0, id);
                assert forall|id2: QuestId|
                    !removed.contains(id2) implies self.node_of(id2) == mid.node_of(id2) by {
                    assert(id2 != id);
                    assert(!removed0.contains(id2));
                    assert(self.node_of(id2) == before_rm.node_of(id2));
                }
                assert forall|id2: QuestId| removed.contains(id2) implies !self.has_node(id2) by {
                    if id2 != id {
                        assert(removed0.contains(id2));
                        assert(!before_rm.has_node(id2));
                        assert(self.node_of(id2) == before_rm.node_of(id2));
                    }
                }
                assert forall|c: int| 0 <= c < spawn_count implies cmds@[c] == mid_cmds[c] by {
                    assert(cmds@[c] == cmds_rm[c]);
                }
                assert forall|idx: int| 0 <= idx <= t implies {
                    let nd = mid.node_of(#[trigger] stale@[idx])->Some_0;
                    &&& cmds@[spawn_count + 2 * idx] == (UiCommand::DespawnNode { node: nd.node })
                    &&& cmds@[spawn_count + 2 * idx + 1] == (UiCommand::DespawnNode {
                        node: nd.display,
                    })
                } by {
                    if idx < t {
                        assert(cmds@[spawn_count + 2 * idx] == cmds_rm[spawn_count + 2 * idx]);
                        assert(cmds@[spawn_count + 2 * idx + 1] == cmds_rm[spawn_count + 2 * idx
                            + 1]);
                    } else {
                        assert(cmds@[spawn_count + 2 * idx] == dcv[0]);
                        assert(cmds@[spawn_count + 2 * idx + 1] == dcv[1]);
                    }
                }
            }
            t += 1;
        }
        proof {
            assert(removed =~= stale@);
            assert forall|id: QuestId| stale@.contains(id) implies self.has_node(id)
                == false && !mid.tracks(id) && mid.has_node(id) by {
                let c = choose|c: int| 0 <= c < stale@.len() && stale@[c] == id;
                assert(stale@[c] == id);
                assert(removed.contains(id));
            }
            assert forall|id: QuestId| self.has_node(id) <==> self.tracks(id) by {
                if self.tracks(id) {
                    assert(done.contains(id));
                    assert(mid.has_node(id));
                    assert(!stale@.contains(id));
                    assert(!removed.contains(id));
                    assert(self.node_of(id) == mid.node_of(id));
                } else {
                    if mid.has_node(id) {
                        assert(stale@.contains(id));
                    } else {
                        assert(!stale@.contains(id));
                        assert(!removed.contains(id));
                        assert(self.node_of(id) == mid.node_of(id));
                    }
                }
            }
            assert forall|c: int| spawn_count <= c < cmds@.len() implies cmds@[c] is DespawnNode by {
                let d = c - spawn_count;
                let idx = d / 2;
                assert(d == 2 * idx + d % 2);
                assert(0 <= idx < k);
                let nd = mid.node_of(stale@[idx])->Some_0;
                if d % 2 == 0 {
                    assert(c == spawn_count + 2 * idx);
                    assert(cmds@[c] == (UiCommand::DespawnNode { node: nd.node }));
                } else {
                    assert(c == spawn_count + 2 * idx + 1);
                    assert(cmds@[c] == (UiCommand::DespawnNode { node: nd.display }));
                }
            }
            assert forall|c: int|
                0 <= c < cmds@.len() implies (cmds@[c] is SpawnNode || cmds@[c] is DespawnNode) by {
                if c < spawn_count {
                    assert(cmds@[c] == mid_cmds[c]);
                }
            }
            assert forall|c1: int, c2: int|
                0 <= c1 < c2 < cmds@.len() && cmds@[c1] is DespawnNode implies cmds@[c2]
                is DespawnNode by {
                if c1 < spawn_count {
                    assert(cmds@[c1] == mid_cmds[c1]);
                    assert(cmds@[c1] is SpawnNode);
                }
            }
            assert forall|c: int|
                0 <= c < cmds@.len() && Self::spawn_node_of(#[trigger] cmds@[c]) is Some implies {
                let node = Self::spawn_node_of(cmds@[c])->Some_0;
                &&& pre.tracks(node.quest_id)
                &&& !pre.has_node(node.quest_id)
                &&& self.node_of(node.quest_id) == Some(node)
                &&& Self::spawn_cmd_for(cmds@[c], quests.spec_get(node.quest_id)->Some_0, node)
            } by {
                assert(c < spawn_count);
                assert(cmds@[c] == mid_cmds[c]);
                let node = Self::spawn_node_of(mid_cmds[c])->Some_0;
                assert(mid.node_of(node.quest_id) == Some(node));
                assert(!stale@.contains(node.quest_id));
                assert(!removed.contains(node.quest_id));
                assert(self.node_of(node.quest_id) == mid.node_of(node.quest_id));
            }
            assert forall|id: QuestId|
                pre.tracks(id) && !pre.has_node(id) implies exists|c: int|
                0 <= c < cmds@.len() && Self::spawn_cmd_for(
                    #[trigger] cmds@[c],
                    quests.spec_get(id)->Some_0,
                    self.node_of(id)->Some_0,
                ) by {
                let c = choose|c: int|
                    0 <= c < mid_cmds.len() && Self::spawn_cmd_for(
                        #[trigger] mid_cmds[c],
                        quests.spec_get(id)->Some_0,
                        mid.node_of(id)->Some_0,
                    );
                assert(cmds@[c] == mid_cmds[c]);
                assert(!stale@.contains(id));
                assert(!removed.contains(id));
                assert(self.node_of(id) == mid.node_of(id));
            }
            assert forall|id: QuestId| pre.has_node(id) && !pre.tracks(id) implies {
                let nd = pre.node_of(id)->Some_0;
                &&& cmds@.contains(UiCommand::DespawnNode { node: nd.node })
                &&& cmds@.contains(UiCommand::DespawnNode { node: nd.display })
            } by {
                assert(mid.node_of(id) == pre.node_of(id));
                assert(stale@.contains(id));
                let idx = choose|idx: int| 0 <= idx < stale@.len() && stale@[idx] == id;
                let nd = mid.node_of(id)->Some_0;
                assert(cmds@[spawn_count + 2 * idx] == (UiCommand::DespawnNode { node: nd.node }));
                assert(cmds@[spawn_count + 2 * idx + 1] == (UiCommand::DespawnNode {
                    node: nd.display,
                }));
            }
        }
        cmds
    }

    /// The two refresh commands for one mapped quest: its progress caption
    /// re-rendered and its bar fill recomputed from the quest's current
    /// progress.
    pub open spec fn refresh_cmds_for(cmd_text: UiCommand, cmd_fill: UiCommand, q: Quest, n: QuestScreenNode) -> bool {
        &&& cmd_text matches UiCommand::SetText { node, text }
        &&& node == n.progress_text
        &&& text@ == spec_progress_text(q.progress, q.quest_type.spec_max_progress())
        &&& cmd_fill matches UiCommand::SetFill { node, percent }
        &&& node == n.progress_bar
        &&& percent == (q.progress as int) * 100 / (q.quest_type.spec_max_progress() as int)
    }

    /// Re-renders every mapped quest's progress caption and bar fill from the
    /// registry's current state: two commands per mapping entry, in mapping
    /// order. The refresh is idempotent — it writes the same values however
    /// often it runs.
    #[verifier::loop_isolation(false)]
    pub fn update_quest_node_progress(&self, quests: &Quests) -> (cmds: Vec<UiCommand>)
        requires
            self.wf(),
            quests.wf(),
            forall|i: int|
                0 <= i < self.nodes().len() ==> quests.contains_quest(
                    #[trigger] self.nodes()[i].0,
                ) && quests.spec_get(self.nodes()[i].0)->Some_0.wf(),
        ensures
            cmds@.len() == 2 * self.nodes().len(),
            forall|j: int|
                0 <= j < self.nodes().len() ==> {
                    let entry = #[trigger] self.nodes()[j];
                    let q = quests.spec_get(entry.0)->Some_0;
                    Self::refresh_cmds_for(cmds@[2 * j], cmds@[2 * j + 1], q, entry.1)
                },
    {
        let mut cmds: Vec<UiCommand> = Vec::new();
        let n = self.quest_nodes.len();
        let mut i: usize = 0;
        while i < n
            invariant
                i <= n,
                n == self.nodes().len(),
                cmds@.len() == 2 * i,
                forall|j: int|
                    0 <= j < i ==> {
                        let entry = #[trigger] self.nodes()[j];
                        let q = quests.spec_get(entry.0)->Some_0;
                        Self::refresh_cmds_for(cmds@[2 * j], cmds@[2 * j + 1], q, entry.1)
                    },
            decreases n - i,
        {
            let entry = &self.quest_nodes[i];
            let quest = match quests.get(entry.0) {
                Some(q) => q,
                None => {
                    proof {
                        assert(false);
                    }
                    return cmds;
                },
            };
            let max = quest.quest_type.max_progress();
            let caption = progress_text(quest.progress, max);
            let fill = fill_percent(quest.progress, max);
            cmds.push(UiCommand::SetText { node: entry.1.progress_text, text: caption });
            cmds.push(UiCommand::SetFill { node: entry.1.progress_bar, percent: fill });
            i += 1;
        }
        cmds
    }
}

/// Whether a hotkey sample is a discrete press edge: the key is down now and
/// was not down at the previous sample.
pub open spec fn press_edge(prev_down: bool, down: bool) -> bool {
    down && !prev_down
}

/// The openness that results from feeding a run of raw hotkey samples into a
/// toggle that starts `open` with previous key state `prev_down`.
pub open spec fn run_toggle(open: bool, prev_down: bool, keys: Seq<bool>) -> bool
    decreases keys.len(),
{
    if keys.len() == 0 {
        open
    } else {
        run_toggle(
            if press_edge(prev_down, keys[0]) {
                !open
            } else {
                open
            },
            keys[0],
            keys.skip(1),
        )
    }
}

/// How many press edges a run of raw hotkey samples contains, starting from
/// previous key state `prev_down`.
pub open spec fn count_edges(prev_down: bool, keys: Seq<bool>) -> nat
    decreases keys.len(),
{
    if keys.len() == 0 {
        0nat
    } else {
        (if press_edge(prev_down, keys[0]) {
            1nat
        } else {
            0nat
        }) + count_edges(keys[0], keys.skip(1))
    }
}

/// The quest screen hotkey's debounced open/closed state: the screen opens
/// or closes exactly once per discrete key-press edge, however coarsely or
/// finely the ticks sample the key. A key held across several ticks toggles
/// once, and one press cannot open and immediately close the screen.
pub struct ScreenToggle {
    open: bool,
    key_down: bool,
}

impl ScreenToggle {
    /// Whether the quest screen is open.
    pub closed spec fn is_open(self) -> bool {
        self.open
    }

    /// The key state at the latest sample.
    pub closed spec fn spec_key_down(self) -> bool {
        self.key_down
    }

    /// A closed screen whose hotkey is not held.
    pub fn new() -> (r: ScreenToggle)
        ensures
            !r.is_open(),
            !r.spec_key_down(),
    {
        ScreenToggle { open: false, key_down: false }
    }

    /// Whether the quest screen is open.
    pub fn open_now(&self) -> (r: bool)
        ensures
            r == self.is_open(),
    {
        self.open
    }

    /// Feeds one raw sample of the hotkey: the screen toggles exactly when
    /// the sample is a press edge against the previous sample.
    pub fn sample(&mut self, down: bool)
        ensures
            final(self).is_open() == if press_edge(old(self).spec_key_down(), down) {
                !old(self).is_open()
            } else {
                old(self).is_open()
            },
            final(self).spec_key_down() == down,
    {
        if down && !self.key_down {
            self.open = !self.open;
        }
        self.key_down = down;
    }
}

/// Law: over any run of raw hotkey samples, the screen toggles exactly once
/// per press edge — it ends open exactly when it started open and the run
/// holds an even number of edges, or started closed and holds an odd number.
pub proof fn lemma_one_toggle_per_edge(open: bool, prev_down: bool, keys: Seq<bool>)
    ensures
        run_toggle(open, prev_down, keys) == (open == (count_edges(prev_down, keys) % 2 == 0)),
    decreases keys.len(),
{
    if keys.len() > 0 {
        let open1 = if press_edge(prev_down, keys[0]) {
            !open
        } else {
            open
        };
        lemma_one_toggle_per_edge(open1, keys[0], keys.skip(1));
    }
}

} // verus!
