use vstd::prelude::*;
use crate::common::{ControllerId, Key};
use crate::endpoint::{Msg, MsgView, SetupMsg};
use indexmap::IndexSet;

verus! {

/// Where a controller is in building the sink tree of its connector.
#[derive(Debug, Copy, Clone, PartialEq, Eq, Structural)]
pub enum TreePhase {
    /// Electing the leader (the sink) by echoes.
    Echo,
    /// The leader is known; awaiting one answer from every neighbour but the parent.
    Gather,
    /// The parent and the children are known.
    Done,
}

/// What a controller sets out to do while building the sink tree.
#[derive(Debug, Clone)]
pub enum TreeAction {
    /// Send the message to the neighbour behind the key.
    Send(Key, SetupMsg),
    /// Keep a message received for later (it belongs to a later stage).
    Delay(Key, Msg),
}

/// A [`TreeAction`] as mathematics sees it.
pub enum TreeActionView {
    Send(Key, SetupMsg),
    Delay(Key, MsgView),
}

impl View for TreeAction {
    type V = TreeActionView;

    open spec fn view(&self) -> TreeActionView {
        match self {
            TreeAction::Send(k, m) => TreeActionView::Send(*k, *m),
            TreeAction::Delay(k, m) => TreeActionView::Delay(*k, m@),
        }
    }
}

/// The views of a sequence of actions.
pub open spec fn action_views(s: Seq<TreeAction>) -> Seq<TreeActionView> {
    s.map_values(|a: TreeAction| a@)
}

/// The state of a controller building the sink tree, as mathematics sees it.
pub struct TreeView {
    pub major: ControllerId,
    pub neighbors: Seq<Key>,
    pub parent: Option<Key>,
    pub leader: ControllerId,
    pub awaiting: Set<Key>,
    pub children: Seq<Key>,
    pub phase: TreePhase,
}

/// The state of a controller building the sink tree of its connector: it elects the
/// controller of highest id as leader by echoes over the tree of neighbours, learns its
/// parent (towards the leader) and then its children.
pub struct SinkTree {
    major: ControllerId,
    neighbors: Vec<Key>,
    parent: Option<Key>,
    leader: ControllerId,
    /// The neighbours still to answer, by raw key.
    awaiting: IndexSet<u64>,
    children: Vec<Key>,
    phase: TreePhase,
}

impl View for SinkTree {
    type V = TreeView;

    closed spec fn view(&self) -> TreeView {
        TreeView {
            major: self.major,
            neighbors: self.neighbors@,
            parent: self.parent,
            leader: self.leader,
            awaiting: key_set(index_set_items(self.awaiting)),
            children: self.children@,
            phase: self.phase,
        }
    }
}

/// Sending `m` to every neighbour in `ns` but `skip`, in order.
pub open spec fn send_all(ns: Seq<Key>, skip: Option<Key>, m: SetupMsg) -> Seq<TreeActionView>
    decreases ns.len(),
{
    if ns.len() == 0 {
        Seq::empty()
    } else {
        send_all(ns.drop_last(), skip, m) + if skip == Some(ns.last()) {
            Seq::empty()
        } else {
            seq![TreeActionView::Send(ns.last(), m)]
        }
    }
}

/// The announcements once the leader is known: `YouAreMyParent` to the parent, the leader
/// to every other neighbour, in order.
pub open spec fn announcements(ns: Seq<Key>, parent: Option<Key>, leader: ControllerId) -> Seq<TreeActionView>
    decreases ns.len(),
{
    if ns.len() == 0 {
        Seq::empty()
    } else {
        announcements(ns.drop_last(), parent, leader) + seq![
            if parent == Some(ns.last()) {
                TreeActionView::Send(ns.last(), SetupMsg::YouAreMyParent)
            } else {
                TreeActionView::Send(ns.last(), SetupMsg::LeaderAnnounce { leader })
            },
        ]
    }
}

/// The neighbours in `ns` but `skip`.
pub open spec fn others(ns: Seq<Key>, skip: Option<Key>) -> Set<Key> {
    Set::new(|k: Key| ns.contains(k) && skip != Some(k))
}

/// Ends the election in `t`: announces the leader and awaits every neighbour but the parent.
pub open spec fn finish_echo(t: TreeView) -> (TreeView, Seq<TreeActionView>) {
    let awaiting = others(t.neighbors, t.parent);
    (
        TreeView {
            awaiting,
            phase: if awaiting.is_empty() { TreePhase::Done } else { TreePhase::Gather },
            ..t
        },
        announcements(t.neighbors, t.parent, t.leader),
    )
}

/// The start of the election by controller `major` with neighbours `ns`: it sends its own
/// id as an echo to every neighbour and awaits them all; with no neighbours it is the
/// leader at once.
pub open spec fn tree_start_spec(major: ControllerId, ns: Seq<Key>) -> (TreeView, Seq<TreeActionView>) {
    let t = TreeView {
        major,
        neighbors: ns,
        parent: None,
        leader: major,
        awaiting: others(ns, None),
        children: Seq::empty(),
        phase: TreePhase::Echo,
    };
    let sends = send_all(ns, None, SetupMsg::LeaderEcho { maybe_leader: major });
    if ns.len() == 0 {
        let (t1, more) = finish_echo(t);
        (t1, sends + more)
    } else {
        (t, sends)
    }
}

/// Whether `t` may take the message `m` from `from`: a controller that has finished takes
/// none; an announced leader must not be the controller itself while electing; while
/// gathering, an answer must come from a neighbour awaited, and an announcement must name
/// the leader and not come from the parent.
pub open spec fn tree_accepts(t: TreeView, from: Key, m: MsgView) -> bool {
    match t.phase {
        TreePhase::Echo => match m {
            MsgView::Setup(SetupMsg::LeaderAnnounce { leader }) => leader != t.major,
            _ => true,
        },
        TreePhase::Gather => match m {
            MsgView::Setup(SetupMsg::YouAreMyParent) => t.awaiting.contains(from),
            MsgView::Setup(SetupMsg::LeaderAnnounce { leader }) => t.awaiting.contains(from)
                && leader == t.leader && t.parent != Some(from),
            _ => true,
        },
        TreePhase::Done => false,
    }
}

/// One step of building the sink tree: how `t` changes, and what it sends, when `m`
/// arrives from `from`.
pub open spec fn tree_step_spec(t: TreeView, from: Key, m: MsgView) -> (TreeView, Seq<TreeActionView>) {
    match t.phase {
        TreePhase::Echo => match m {
            MsgView::Setup(SetupMsg::LeaderAnnounce { leader }) => finish_echo(
                TreeView { parent: Some(from), leader, awaiting: Set::empty(), ..t },
            ),
            MsgView::Setup(SetupMsg::LeaderEcho { maybe_leader }) => if maybe_leader < t.leader {
                (t, Seq::empty())
            } else if maybe_leader == t.leader {
                let t1 = TreeView { awaiting: t.awaiting.remove(from), ..t };
                if !t1.awaiting.is_empty() {
                    (t1, Seq::empty())
                } else {
                    match t.parent {
                        Some(p) => (t1, seq![TreeActionView::Send(p, SetupMsg::LeaderEcho { maybe_leader })]),
                        None => finish_echo(t1),
                    }
                }
            } else {
                let echo = SetupMsg::LeaderEcho { maybe_leader };
                if t.neighbors.len() == 1 {
                    (
                        TreeView { parent: Some(from), leader: maybe_leader, awaiting: Set::empty(), ..t },
                        seq![TreeActionView::Send(from, echo)],
                    )
                } else {
                    (
                        TreeView {
                            parent: Some(from),
                            leader: maybe_leader,
                            awaiting: others(t.neighbors, Some(from)),
                            ..t
                        },
                        send_all(t.neighbors, Some(from), echo),
                    )
                }
            },
            _ => (t, seq![TreeActionView::Delay(from, m)]),
        },
        TreePhase::Gather => match m {
            MsgView::Setup(SetupMsg::YouAreMyParent) => {
                let awaiting = t.awaiting.remove(from);
                (
                    TreeView {
                        awaiting,
                        children: t.children.push(from),
                        phase: if awaiting.is_empty() { TreePhase::Done } else { TreePhase::Gather },
                        ..t
                    },
                    Seq::empty(),
                )
            },
            MsgView::Setup(SetupMsg::LeaderAnnounce { .. }) => {
                let awaiting = t.awaiting.remove(from);
                (
                    TreeView {
                        awaiting,
                        phase: if awaiting.is_empty() { TreePhase::Done } else { TreePhase::Gather },
                        ..t
                    },
                    Seq::empty(),
                )
            },
            _ => (t, seq![TreeActionView::Delay(from, m)]),
        },
        TreePhase::Done => (t, Seq::empty()),
    }
}

/// What the election keeps in every state: while electing, the controller is its own
/// leader exactly when it has no parent, and the leader is never below the controller; the
/// awaited neighbours are neighbours.
pub open spec fn tree_inv(t: TreeView) -> bool {
    &&& t.phase == TreePhase::Echo ==> (t.parent is None <==> t.leader == t.major) && t.leader >= t.major
    &&& t.phase != TreePhase::Echo ==> (t.parent is None <==> t.leader == t.major)
    &&& forall|k: Key| #[trigger] t.awaiting.contains(k) ==> t.neighbors.contains(k)
    &&& t.phase == TreePhase::Done ==> t.awaiting.is_empty()
}

#[verifier::external_type_specification]
#[verifier::external_body]
#[verifier::reject_recursive_types(T)]
#[verifier::reject_recursive_types(S)]
pub struct ExIndexSet<T, S>(IndexSet<T, S>);

/// The items of an insertion-ordered hash set of raw keys.
pub uninterp spec fn index_set_items(s: IndexSet<u64>) -> Set<u64>;

/// The keys whose raw values are in `s`.
pub open spec fn key_set(s: Set<u64>) -> Set<Key> {
    Set::new(|k: Key| s.contains(k.raw()))
}

/// `IndexSet::with_capacity`: an empty set (the capacity only reserves room).
#[verifier::external_body]
fn set_with_capacity(n: usize) -> (r: IndexSet<u64>)
    ensures
        index_set_items(r) == Set::<u64>::empty(),
{
    IndexSet::with_capacity(n)
}

/// `IndexSet::insert`: the set holds `x` afterwards; true when it did not before.
#[verifier::external_body]
fn set_insert(s: &mut IndexSet<u64>, x: u64) -> (r: bool)
    ensures
        index_set_items(*final(s)) == index_set_items(*old(s)).insert(x),
        r == !index_set_items(*old(s)).contains(x),
{
    s.insert(x)
}

/// `IndexSet::remove`: the set no longer holds `x`; true when it did before.
#[verifier::external_body]
fn set_remove(s: &mut IndexSet<u64>, x: u64) -> (r: bool)
    ensures
        index_set_items(*final(s)) == index_set_items(*old(s)).remove(x),
        r == index_set_items(*old(s)).contains(x),
{
    s.remove(&x)
}

/// `IndexSet::contains`: whether the set holds `x`.
#[verifier::external_body]
fn set_contains(s: &IndexSet<u64>, x: u64) -> (r: bool)
    ensures
        r == index_set_items(*s).contains(x),
{
    s.contains(&x)
}

/// `IndexSet::clear`: the set holds nothing afterwards.
#[verifier::external_body]
fn set_clear(s: &mut IndexSet<u64>)
    ensures
        index_set_items(*final(s)) == Set::<u64>::empty(),
{
    s.clear()
}

/// `IndexSet::is_empty`: whether the set holds nothing.
#[verifier::external_body]
fn set_is_empty(s: &IndexSet<u64>) -> (r: bool)
    ensures
        r == (index_set_items(*s) == Set::<u64>::empty()),
{
    s.is_empty()
}

proof fn lemma_key_set_empty(s: Set<u64>)
    ensures
        (key_set(s) == Set::<Key>::empty()) == (s == Set::<u64>::empty()),
{
    if s == Set::<u64>::empty() {
        assert(key_set(s) =~= Set::<Key>::empty());
    } else {
        assert(!(s =~= Set::<u64>::empty()));
        let x = choose|x: u64| s.contains(x);
        Key::law_raw_inverse(x, Key::of(x));
        assert(key_set(s).contains(Key::of(x)));
    }
}

proof fn lemma_key_set_remove(s: Set<u64>, k: Key)
    ensures
        key_set(s.remove(k.raw())) == key_set(s).remove(k),
{
    assert forall|j: Key| key_set(s.remove(k.raw())).contains(j) == key_set(s).remove(k).contains(j) by {
        Key::law_raw_inverse(j.raw(), j);
        Key::law_raw_inverse(k.raw(), k);
    }
    assert(key_set(s.remove(k.raw())) =~= key_set(s).remove(k));
}

/// The set of the neighbours in `ns` but `skip`, by raw key.
fn awaiting_of(ns: &Vec<Key>, skip: Option<Key>) -> (r: IndexSet<u64>)
    ensures
        key_set(index_set_items(r)) == others(ns@, skip),
{
    let mut out = set_with_capacity(ns.len());
    let mut i: usize = 0;
    assert(key_set(index_set_items(out)) =~= others(ns@.take(0), skip));
    while i < ns.len()
        invariant
            i <= ns@.len(),
            key_set(index_set_items(out)) == others(ns@.take(i as int), skip),
        decreases ns@.len() - i,
    {
        let x = ns[i];
        let keep = match skip {
            Some(k) => k != x,
            None => true,
        };
        let ghost before = index_set_items(out);
        if keep {
            set_insert(&mut out, x.to_raw());
        }
        proof {
            let t0 = ns@.take(i as int);
            let t1 = ns@.take(i + 1);
            assert(t1 =~= t0.push(x));
            assert forall|k: Key| key_set(index_set_items(out)).contains(k) == others(t1, skip).contains(k) by {
                Key::law_raw_inverse(k.raw(), k);
                Key::law_raw_inverse(x.raw(), x);
                assert(key_set(before).contains(k) == others(t0, skip).contains(k));
                assert(index_set_items(out) == if keep { before.insert(x.raw()) } else { before });
                if t1.contains(k) && !t0.contains(k) {
                    let j = choose|j: int| 0 <= j < t1.len() && t1[j] == k;
                    if j < t0.len() {
                        assert(t0[j] == k);
                    } else {
                        assert(t1[j] == x);
                    }
                }
                if t0.contains(k) {
                    let j = choose|j: int| 0 <= j < t0.len() && t0[j] == k;
                    assert(t1[j] == k);
                }
                if k == x {
                    assert(t1[i as int] == k);
                }
            }
            assert(key_set(index_set_items(out)) =~= others(t1, skip));
        }
        i = i + 1;
    }
    assert(ns@.take(ns@.len() as int) =~= ns@);
    out
}

/// Appends to `acts` the sending of `m` to every neighbour in `ns` but `skip`.
fn push_send_all(acts: &mut Vec<TreeAction>, ns: &Vec<Key>, skip: Option<Key>, m: SetupMsg)
    ensures
        action_views(final(acts)@) == action_views(old(acts)@) + send_all(ns@, skip, m),
{
    let mut i: usize = 0;
    while i < ns.len()
        invariant
            i <= ns@.len(),
            action_views(acts@) == action_views(old(acts)@) + send_all(ns@.take(i as int), skip, m),
        decreases ns@.len() - i,
    {
        let x = ns[i];
        let ghost before = acts@;
        let send = match skip {
            Some(k) => k != x,
            None => true,
        };
        if send {
            acts.push(TreeAction::Send(x, m));
        }
        proof {
            assert(ns@.take(i + 1).drop_last() =~= ns@.take(i as int));
            assert(action_views(acts@) =~= action_views(before) + if send { seq![TreeActionView::Send(x, m)] } else { Seq::empty() });
        }
        i = i + 1;
    }
    assert(ns@.take(ns@.len() as int) =~= ns@);
}

/// Appends to `acts` the announcements once `leader` is known, with parent `parent`.
fn push_announcements(acts: &mut Vec<TreeAction>, ns: &Vec<Key>, parent: Option<Key>, leader: ControllerId)
    ensures
        action_views(final(acts)@) == action_views(old(acts)@) + announcements(ns@, parent, leader),
{
    let mut i: usize = 0;
    while i < ns.len()
        invariant
            i <= ns@.len(),
            action_views(acts@) == action_views(old(acts)@) + announcements(ns@.take(i as int), parent, leader),
        decreases ns@.len() - i,
    {
        let x = ns[i];
        let ghost before = acts@;
        let is_parent = match parent {
            Some(p) => p == x,
            None => false,
        };
        if is_parent {
            acts.push(TreeAction::Send(x, SetupMsg::YouAreMyParent));
        } else {
            acts.push(TreeAction::Send(x, SetupMsg::LeaderAnnounce { leader }));
        }
        proof {
            assert(ns@.take(i + 1).drop_last() =~= ns@.take(i as int));
            assert(action_views(acts@) =~= action_views(before).push(acts@.last()@));
        }
        i = i + 1;
    }
    assert(ns@.take(ns@.len() as int) =~= ns@);
}

impl SinkTree {
    /// Stops awaiting `from`.
    fn forget(&mut self, from: Key)
        ensures
            final(self)@ == (TreeView { awaiting: old(self)@.awaiting.remove(from), ..old(self)@ }),
            (final(self)@.awaiting == Set::<Key>::empty()) == (index_set_items(final(self).awaiting) == Set::<u64>::empty()),
    {
        let ghost before = index_set_items(self.awaiting);
        set_remove(&mut self.awaiting, from.to_raw());
        proof {
            lemma_key_set_remove(before, from);
            lemma_key_set_empty(index_set_items(self.awaiting));
        }
    }

    /// Ends the election: announces the leader and awaits every neighbour but the parent.
    fn finish_echo(&mut self, acts: &mut Vec<TreeAction>)
        ensures
            final(self)@ == finish_echo(old(self)@).0,
            action_views(final(acts)@) == action_views(old(acts)@) + finish_echo(old(self)@).1,
    {
        push_announcements(acts, &self.neighbors, self.parent, self.leader);
        self.awaiting = awaiting_of(&self.neighbors, self.parent);
        proof {
            lemma_key_set_empty(index_set_items(self.awaiting));
        }
        if set_is_empty(&self.awaiting) {
            self.phase = TreePhase::Done;
        } else {
            self.phase = TreePhase::Gather;
        }
    }

    /// Starts building the sink tree for controller `major` with the given neighbours:
    /// sends the controller's id as an echo to every neighbour.
    pub fn start(major: ControllerId, neighbors: Vec<Key>) -> (r: (SinkTree, Vec<TreeAction>))
        ensures
            (r.0@, action_views(r.1@)) == tree_start_spec(major, neighbors@),
    {
        let mut acts: Vec<TreeAction> = Vec::new();
        push_send_all(&mut acts, &neighbors, None, SetupMsg::LeaderEcho { maybe_leader: major });
        let awaiting = awaiting_of(&neighbors, None);
        let n = neighbors.len();
        let mut t = SinkTree {
            major,
            neighbors,
            parent: None,
            leader: major,
            awaiting,
            children: Vec::new(),
            phase: TreePhase::Echo,
        };
        assert(action_views(Seq::<TreeAction>::empty()) =~= Seq::<TreeActionView>::empty());
        if n == 0 {
            t.finish_echo(&mut acts);
        }
        (t, acts)
    }

    /// Whether the tree may take `msg` from `from` (see [`tree_accepts`]).
    pub fn accepts(&self, from: Key, msg: &Msg) -> (r: bool)
        ensures
            r == tree_accepts(self@, from, msg@),
    {
        match self.phase {
            TreePhase::Echo => match msg {
                Msg::SetupMsg(SetupMsg::LeaderAnnounce { leader }) => *leader != self.major,
                _ => true,
            },
            TreePhase::Gather => match msg {
                Msg::SetupMsg(SetupMsg::YouAreMyParent) => set_contains(&self.awaiting, from.to_raw()),
                Msg::SetupMsg(SetupMsg::LeaderAnnounce { leader }) => {
                    let not_parent = match self.parent {
                        Some(p) => p != from,
                        None => true,
                    };
                    set_contains(&self.awaiting, from.to_raw()) && *leader == self.leader && not_parent
                },
                _ => true,
            },
            TreePhase::Done => false,
        }
    }

    /// Takes the message `msg` from neighbour `from`, and says what to send or keep.
    pub fn step(&mut self, from: Key, msg: Msg) -> (r: Vec<TreeAction>)
        requires
            tree_accepts(old(self)@, from, msg@),
        ensures
            (final(self)@, action_views(r@)) == tree_step_spec(old(self)@, from, msg@),
    {
        let mut acts: Vec<TreeAction> = Vec::new();
        assert(action_views(acts@) =~= Seq::<TreeActionView>::empty());
        let ghost t0 = self@;
        match self.phase {
            TreePhase::Echo => match msg {
                Msg::SetupMsg(SetupMsg::LeaderAnnounce { leader }) => {
                    self.parent = Some(from);
                    self.leader = leader;
                    set_clear(&mut self.awaiting);
                    assert(self@.awaiting =~= Set::<Key>::empty());
                    assert(self@ == TreeView { parent: Some(from), leader, awaiting: Set::empty(), ..t0 });
                    self.finish_echo(&mut acts);
                },
                Msg::SetupMsg(SetupMsg::LeaderEcho { maybe_leader }) => {
                    if maybe_leader < self.leader {
                    } else if maybe_leader == self.leader {
                        self.forget(from);
                        if set_is_empty(&self.awaiting) {
                            match self.parent {
                                Some(p) => {
                                    acts.push(TreeAction::Send(p, SetupMsg::LeaderEcho { maybe_leader }));
                                    assert(action_views(acts@) =~= seq![TreeActionView::Send(p, SetupMsg::LeaderEcho { maybe_leader })]);
                                },
                                None => {
                                    self.finish_echo(&mut acts);
                                },
                            }
                        }
                    } else {
                        let echo = SetupMsg::LeaderEcho { maybe_leader };
                        self.parent = Some(from);
                        self.leader = maybe_leader;
                        if self.neighbors.len() == 1 {
                            set_clear(&mut self.awaiting);
                            acts.push(TreeAction::Send(from, echo));
                            assert(action_views(acts@) =~= seq![TreeActionView::Send(from, echo)]);
                            assert(self@.awaiting =~= Set::<Key>::empty());
                        } else {
                            push_send_all(&mut acts, &self.neighbors, Some(from), echo);
                            self.awaiting = awaiting_of(&self.neighbors, Some(from));
                        }
                    }
                },
                other => {
                    acts.push(TreeAction::Delay(from, other));
                    assert(action_views(acts@) =~= seq![TreeActionView::Delay(from, msg@)]);
                },
            },
            TreePhase::Gather => match msg {
                Msg::SetupMsg(SetupMsg::YouAreMyParent) => {
                    self.forget(from);
                    self.children.push(from);
                    if set_is_empty(&self.awaiting) {
                        self.phase = TreePhase::Done;
                    }
                },
                Msg::SetupMsg(SetupMsg::LeaderAnnounce { .. }) => {
                    self.forget(from);
                    if set_is_empty(&self.awaiting) {
                        self.phase = TreePhase::Done;
                    }
                },
                other => {
                    acts.push(TreeAction::Delay(from, other));
                    assert(action_views(acts@) =~= seq![TreeActionView::Delay(from, msg@)]);
                },
            },
            TreePhase::Done => {},
        }
        acts
    }

    /// The stage the controller is at.
    pub fn phase(&self) -> (r: TreePhase)
        ensures
            r == self@.phase,
    {
        self.phase
    }

    /// The neighbour towards the leader, if the controller is not the leader.
    pub fn parent(&self) -> (r: Option<Key>)
        ensures
            r == self@.parent,
    {
        self.parent
    }

    /// The controller taken as leader.
    pub fn leader(&self) -> (r: ControllerId)
        ensures
            r == self@.leader,
    {
        self.leader
    }

    /// The neighbours that took this controller as their parent, in the order they said so.
    pub fn children(&self) -> (r: &Vec<Key>)
        ensures
            r@ == self@.children,
    {
        &self.children
    }
}

/// Building the sink tree starts in a state that keeps [`tree_inv`]: a controller with no
/// parent takes itself as leader, one with a parent takes another, and it awaits only
/// neighbours.
pub proof fn law_tree_start_inv(major: ControllerId, ns: Seq<Key>)
    ensures
        tree_inv(tree_start_spec(major, ns).0),
{
    if ns.len() == 0 {
        assert(others(ns, None) =~= Set::<Key>::empty());
    }
}

/// Every step on a message the tree accepts keeps [`tree_inv`]; in particular, when the
/// election ends, the controller is the leader exactly when it has no parent.
pub proof fn law_tree_step_inv(t: TreeView, from: Key, m: MsgView)
    requires
        tree_inv(t),
        tree_accepts(t, from, m),
    ensures
        tree_inv(tree_step_spec(t, from, m).0),
{
}

/// A controller records a neighbour as its child exactly when, while gathering, the
/// neighbour says it took the controller as its parent; no other message (an announcement
/// of the leader among them) changes the children.
pub proof fn law_children_from_parent_claims(t: TreeView, from: Key, m: MsgView)
    ensures
        tree_step_spec(t, from, m).0.children == if t.phase == TreePhase::Gather && m == MsgView::Setup(SetupMsg::YouAreMyParent) {
            t.children.push(from)
        } else {
            t.children
        },
{
}

} // verus!
