//! Depth-first and breadth-first traversals of a trie, alone or along an
//! automaton, as sequences of events.

use vstd::prelude::*;

use crate::bfs::bfs_events;
use crate::dfs::dfs_events;
use crate::sam::{sam_step, share, GeneralSamState, SAM_NIL_NODE_ID};
use crate::symbols::{check_same_kind, SymbolError};
use crate::trie::{trie_walk, Trie, TrieView, TRIE_NIL_NODE_ID, TRIE_ROOT_NODE_ID};

verus! {

/// One step of a traversal.
#[derive(Clone, Copy, Debug, PartialEq, Eq, Structural)]
pub enum TravelEvent {
    /// Entering a node, with the symbol of the edge taken to it; the first
    /// event of a traversal enters its root and has no symbol.
    Push(usize, Option<u32>),
    /// Leaving a node.
    Pop(usize),
}

pub open spec fn event_node(e: TravelEvent) -> usize {
    match e {
        TravelEvent::Push(n, _) => n,
        TravelEvent::Pop(n) => n,
    }
}

/// The nodes entered, in order.
pub open spec fn pushed(ev: Seq<TravelEvent>) -> Seq<usize>
    decreases ev.len(),
{
    if ev.len() == 0 {
        Seq::empty()
    } else {
        match ev.last() {
            TravelEvent::Push(n, _) => pushed(ev.drop_last()).push(n),
            TravelEvent::Pop(_) => pushed(ev.drop_last()),
        }
    }
}

/// The nodes left, in order.
pub open spec fn popped(ev: Seq<TravelEvent>) -> Seq<usize>
    decreases ev.len(),
{
    if ev.len() == 0 {
        Seq::empty()
    } else {
        match ev.last() {
            TravelEvent::Push(_, _) => popped(ev.drop_last()),
            TravelEvent::Pop(n) => popped(ev.drop_last()).push(n),
        }
    }
}

/// The nodes entered and not yet left, innermost last, where every event
/// that leaves a node leaves the innermost one; `None` where one does not.
pub open spec fn stack_after(ev: Seq<TravelEvent>) -> Option<Seq<usize>>
    decreases ev.len(),
{
    if ev.len() == 0 {
        Some(Seq::empty())
    } else {
        match stack_after(ev.drop_last()) {
            None => None,
            Some(st) => match ev.last() {
                TravelEvent::Push(n, _) => Some(st.push(n)),
                TravelEvent::Pop(n) => if st.len() > 0 && st.last() == n {
                    Some(st.drop_last())
                } else {
                    None
                },
            },
        }
    }
}

/// The first event enters the root without a symbol; every later entry
/// carries one.
pub open spec fn starts_at(ev: Seq<TravelEvent>, root: usize) -> bool {
    &&& ev.len() > 0
    &&& ev[0] == TravelEvent::Push(root, None)
    &&& forall|i: int|
        1 <= i < ev.len() ==> match #[trigger] ev[i] {
            TravelEvent::Push(_, key) => key is Some,
            TravelEvent::Pop(_) => true,
        }
}

/// Every node reachable from the root is entered and left exactly once, and
/// no other node is.
pub open spec fn visits_reachable_once(tv: TrieView, root: usize, ev: Seq<TravelEvent>) -> bool {
    &&& pushed(ev).no_duplicates()
    &&& popped(ev).no_duplicates()
    &&& forall|n: usize| pushed(ev).contains(n) <==> popped(ev).contains(n)
    &&& forall|w: Seq<u32>|
        #[trigger] trie_walk(tv.trans, root, w) is Some ==> pushed(ev).contains(
            trie_walk(tv.trans, root, w)->0,
        )
    &&& forall|n: usize| pushed(ev).contains(n) ==> exists|w: Seq<u32>| trie_walk(tv.trans, root, w) == Some(n)
}

/// The symbol of the edge into `n` from its parent.
pub open spec fn edge_key(tv: TrieView, n: usize) -> u32 {
    choose|k: u32|
        tv.trans[tv.parents[n as int] as int].contains_key(k) && tv.trans[tv.parents[n as int] as int][k]
            == n
}

/// The automaton state reached from `start` by replaying the trie path from
/// `root` down to `n`.
pub open spec fn replayed(
    tv: TrieView,
    sam: Seq<Map<u32, usize>>,
    root: usize,
    start: usize,
    n: usize,
) -> usize
    decreases n,
{
    if n == root {
        start
    } else if root < n < tv.len() && tv.parents[n as int] < n {
        sam_step(sam, replayed(tv, sam, root, start, tv.parents[n as int]), edge_key(tv, n))
    } else {
        SAM_NIL_NODE_ID
    }
}

/// The entry at `i`, if it carries a symbol, enters the child that the symbol
/// keys from the innermost node open just before it.
pub open spec fn dfs_entry_ok(tv: TrieView, ev: Seq<TravelEvent>, i: int) -> bool {
    match ev[i] {
        TravelEvent::Push(c, Some(k)) => match stack_after(ev.take(i)) {
            Some(st) => {
                &&& st.len() > 0
                &&& st.last() < tv.len()
                &&& tv.trans[st.last() as int].contains_key(k)
                &&& tv.trans[st.last() as int][k] == c
            },
            None => false,
        },
        _ => true,
    }
}

/// Every entry after the first enters a child of the innermost open node,
/// by the symbol it carries.
pub open spec fn entries_under_open(tv: TrieView, ev: Seq<TravelEvent>) -> bool {
    forall|i: int| 1 <= i < ev.len() ==> #[trigger] dfs_entry_ok(tv, ev, i)
}

/// The entry at `i`, if it carries a symbol, enters the child that the symbol
/// keys from the node's parent, and that parent has already been left.
pub open spec fn bfs_entry_ok(tv: TrieView, ev: Seq<TravelEvent>, i: int) -> bool {
    match ev[i] {
        TravelEvent::Push(c, Some(k)) => {
            &&& c < tv.len()
            &&& tv.parents[c as int] < tv.len()
            &&& tv.trans[tv.parents[c as int] as int].contains_key(k)
            &&& tv.trans[tv.parents[c as int] as int][k] == c
            &&& popped(ev.take(i)).contains(tv.parents[c as int])
        },
        _ => true,
    }
}

/// Every entry after the first enters a child of a node already left, by
/// the symbol it carries.
pub open spec fn entries_from_left(tv: TrieView, ev: Seq<TravelEvent>) -> bool {
    forall|i: int| 1 <= i < ev.len() ==> #[trigger] bfs_entry_ok(tv, ev, i)
}

/// The number of edges from `root` down to `n`.
pub open spec fn depth_from(tv: TrieView, root: usize, n: usize) -> nat
    decreases n,
{
    if n == root {
        0
    } else if root < n < tv.len() && tv.parents[n as int] < n {
        depth_from(tv, root, tv.parents[n as int]) + 1
    } else {
        0
    }
}

/// Nodes are entered level by level: the depth of entered nodes never
/// decreases.
pub open spec fn level_order(tv: TrieView, root: usize, ev: Seq<TravelEvent>) -> bool {
    forall|i: int, j: int|
        0 <= i < j < pushed(ev).len() ==> depth_from(tv, root, #[trigger] pushed(ev)[i])
            <= depth_from(tv, root, #[trigger] pushed(ev)[j])
}

/// What a depth-first traversal from `root` gives: the root entered first,
/// each later entry a child of the innermost open node, entries and exits
/// nested as on a stack, and every node reachable from the root entered and
/// left exactly once.
pub open spec fn dfs_travel_ok(tv: TrieView, root: usize, ev: Seq<TravelEvent>) -> bool {
    &&& starts_at(ev, root)
    &&& entries_under_open(tv, ev)
    &&& stack_after(ev) == Some(Seq::<usize>::empty())
    &&& visits_reachable_once(tv, root, ev)
}

/// What a breadth-first traversal from `root` gives: the root entered
/// first, each later entry a child of a node already left, nodes entered
/// level by level, nodes left in
/// the order they were entered, and every node reachable from the root
/// entered and left exactly once.
pub open spec fn bfs_travel_ok(tv: TrieView, root: usize, ev: Seq<TravelEvent>) -> bool {
    &&& starts_at(ev, root)
    &&& entries_from_left(tv, ev)
    &&& level_order(tv, root, ev)
    &&& popped(ev) == pushed(ev)
    &&& visits_reachable_once(tv, root, ev)
}

/// The node a traversal starts from: the given one, or the root.
pub open spec fn start_node(root_node_id: Option<usize>) -> usize {
    match root_node_id {
        Some(n) => n,
        None => TRIE_ROOT_NODE_ID,
    }
}

/// The node a traversal along an automaton starts from: as above, with an
/// id that names no node taken as nil.
pub open spec fn along_start_node(tv: TrieView, root_node_id: Option<usize>) -> usize {
    if start_node(root_node_id) < tv.len() {
        start_node(root_node_id)
    } else {
        TRIE_NIL_NODE_ID
    }
}

/// The events of a traversal along an automaton, without their states.
pub open spec fn along_events(r: Seq<(GeneralSamState, TravelEvent)>) -> Seq<TravelEvent> {
    r.map_values(|p: (GeneralSamState, TravelEvent)| p.1)
}

/// A traversal that starts by entering `root` has `root` as its first
/// entered node.
proof fn lemma_pushed_first(ev: Seq<TravelEvent>, root: usize)
    requires
        ev.len() > 0,
        ev[0] == TravelEvent::Push(root, None),
    ensures
        pushed(ev).len() > 0,
        pushed(ev)[0] == root,
    decreases ev.len(),
{
    if ev.len() > 1 {
        lemma_pushed_first(ev.drop_last(), root);
    } else {
        assert(ev.drop_last() =~= Seq::<TravelEvent>::empty());
        assert(pushed(Seq::<TravelEvent>::empty()) == Seq::<usize>::empty());
    }
}

/// The nodes entered, in order.
fn pushed_nodes(ev: &Vec<TravelEvent>) -> (r: Vec<usize>)
    ensures
        r@ == pushed(ev@),
{
    let mut r: Vec<usize> = Vec::new();
    let mut i: usize = 0;
    proof {
        assert(ev@.take(0) =~= Seq::<TravelEvent>::empty());
    }
    while i < ev.len()
        invariant
            i <= ev@.len(),
            r@ == pushed(ev@.take(i as int)),
        decreases ev@.len() - i,
    {
        proof {
            assert(ev@.take(i as int + 1).drop_last() =~= ev@.take(i as int));
            assert(ev@.take(i as int + 1).last() == ev@[i as int]);
        }
        match ev[i] {
            TravelEvent::Push(n, _) => r.push(n),
            TravelEvent::Pop(_) => {},
        }
        i = i + 1;
    }
    proof {
        assert(ev@.take(ev@.len() as int) =~= ev@);
    }
    r
}

/// Pairs each event with a cursor, on the automaton of `at`, on its state.
fn zip_states(at: &GeneralSamState, ev: Vec<TravelEvent>, states: Vec<usize>) -> (r: Vec<
    (GeneralSamState, TravelEvent),
>)
    requires
        ev@.len() == states@.len(),
    ensures
        r@.len() == ev@.len(),
        along_events(r@) == ev@,
        forall|i: int|
            0 <= i < r@.len() ==> {
                &&& (#[trigger] r@[i]).0.spec_node_id() == states@[i]
                &&& r@[i].0@ == at@
                &&& r@[i].0.spec_kind() == at.spec_kind()
            },
{
    let mut r: Vec<(GeneralSamState, TravelEvent)> = Vec::new();
    let mut i: usize = 0;
    while i < ev.len()
        invariant
            i <= ev@.len(),
            ev@.len() == states@.len(),
            r@.len() == i,
            forall|j: int|
                0 <= j < i ==> {
                    &&& (#[trigger] r@[j]).1 == ev@[j]
                    &&& r@[j].0.spec_node_id() == states@[j]
                    &&& r@[j].0@ == at@
                    &&& r@[j].0.spec_kind() == at.spec_kind()
                },
        decreases ev@.len() - i,
    {
        let st = GeneralSamState { kind: at.kind, sam: share(&at.sam), node_id: states[i] };
        r.push((st, ev[i]));
        i = i + 1;
    }
    proof {
        assert(along_events(r@) =~= ev@);
    }
    r
}

impl Trie {
    /// The depth-first traversal from the given node, or from the root; none
    /// where the node is nil or does not exist.
    pub fn dfs_travel(&self, root_node_id: Option<usize>) -> (r: Vec<TravelEvent>)
        requires
            self.wf(),
        ensures
            ({
                let root = start_node(root_node_id);
                &&& (root == TRIE_NIL_NODE_ID || root >= self@.len()) ==> r@.len() == 0
                &&& (root != TRIE_NIL_NODE_ID && root < self@.len()) ==> dfs_travel_ok(self@, root, r@)
            }),
    {
        let root = match root_node_id {
            Some(n) => n,
            None => TRIE_ROOT_NODE_ID,
        };
        if root == TRIE_NIL_NODE_ID || root >= self.num_of_nodes() {
            return Vec::new();
        }
        let (ev, _) = dfs_events(self, root, None, SAM_NIL_NODE_ID);
        ev
    }

    /// The breadth-first traversal from the given node, or from the root;
    /// none where the node is nil or does not exist.
    pub fn bfs_travel(&self, root_node_id: Option<usize>) -> (r: Vec<TravelEvent>)
        requires
            self.wf(),
        ensures
            ({
                let root = start_node(root_node_id);
                &&& (root == TRIE_NIL_NODE_ID || root >= self@.len()) ==> r@.len() == 0
                &&& (root != TRIE_NIL_NODE_ID && root < self@.len()) ==> bfs_travel_ok(self@, root, r@)
            }),
    {
        let root = match root_node_id {
            Some(n) => n,
            None => TRIE_ROOT_NODE_ID,
        };
        if root == TRIE_NIL_NODE_ID || root >= self.num_of_nodes() {
            return Vec::new();
        }
        let (ev, _) = bfs_events(self, root, None, SAM_NIL_NODE_ID);
        ev
    }

    /// The nodes in the order a breadth-first traversal from the root enters
    /// them.
    /// The nodes other than the root, in the order a breadth-first traversal
    /// from the root enters them.
    pub fn get_bfs_order(&self) -> (r: Vec<usize>)
        requires
            self.wf(),
        ensures
            exists|ev: Seq<TravelEvent>|
                bfs_travel_ok(self@, TRIE_ROOT_NODE_ID, ev) && r@ == pushed(ev).drop_first(),
            !r@.contains(TRIE_ROOT_NODE_ID),
            r@.no_duplicates(),
            forall|w: Seq<u32>|
                #[trigger] trie_walk(self@.trans, TRIE_ROOT_NODE_ID, w) is Some && trie_walk(
                    self@.trans,
                    TRIE_ROOT_NODE_ID,
                    w,
                )->0 != TRIE_ROOT_NODE_ID ==> r@.contains(
                    trie_walk(self@.trans, TRIE_ROOT_NODE_ID, w)->0,
                ),
    {
        let (ev, _) = bfs_events(self, TRIE_ROOT_NODE_ID, None, SAM_NIL_NODE_ID);
        let all = pushed_nodes(&ev);
        proof {
            lemma_pushed_first(ev@, TRIE_ROOT_NODE_ID);
        }
        let mut r: Vec<usize> = Vec::new();
        let mut i: usize = 1;
        while i < all.len()
            invariant
                1 <= i <= all@.len(),
                r@ == all@.subrange(1, i as int),
            decreases all@.len() - i,
        {
            proof {
                assert(all@.subrange(1, i as int + 1) == all@.subrange(1, i as int).push(all@[i as int]));
            }
            r.push(all[i]);
            i = i + 1;
        }
        proof {
            let p = pushed(ev@);
            assert(r@ =~= p.drop_first());
            assert(bfs_travel_ok(self@, TRIE_ROOT_NODE_ID, ev@) && r@ == pushed(ev@).drop_first());
            assert(p[0] == TRIE_ROOT_NODE_ID);
            assert forall|a: int, b: int| 0 <= a < b < r@.len() implies r@[a] != r@[b] by {
                assert(r@[a] == p[a + 1] && r@[b] == p[b + 1]);
            }
            assert(!r@.contains(TRIE_ROOT_NODE_ID)) by {
                if r@.contains(TRIE_ROOT_NODE_ID) {
                    let a = choose|a: int| 0 <= a < r@.len() && r@[a] == TRIE_ROOT_NODE_ID;
                    assert(p[a + 1] == p[0]);
                }
            }
            assert forall|w: Seq<u32>|
                #[trigger] trie_walk(self@.trans, TRIE_ROOT_NODE_ID, w) is Some && trie_walk(
                    self@.trans,
                    TRIE_ROOT_NODE_ID,
                    w,
                )->0 != TRIE_ROOT_NODE_ID implies r@.contains(
                    trie_walk(self@.trans, TRIE_ROOT_NODE_ID, w)->0,
                ) by {
                let n = trie_walk(self@.trans, TRIE_ROOT_NODE_ID, w)->0;
                assert(p.contains(n));
                let a = choose|a: int| 0 <= a < p.len() && p[a] == n;
                assert(a != 0);
                assert(r@[a - 1] == n);
            }
        }
        r
    }
}

impl GeneralSamState {
    /// The depth-first traversal of a trie from the given node, or from its
    /// root, with the automaton state reached from this one by replaying the
    /// path to each node; the trie must share the automaton's alphabet.
    pub fn dfs_along(&self, trie: &Trie, trie_node_id: Option<usize>) -> (r: Result<
        Vec<(GeneralSamState, TravelEvent)>,
        SymbolError,
    >)
        requires
            trie.wf(),
        ensures
            self.spec_kind() != trie.spec_kind() ==> r == Err::<Vec<(GeneralSamState, TravelEvent)>, SymbolError>(
                SymbolError::Inconsistent { left: self.spec_kind(), right: trie.spec_kind() },
            ),
            self.spec_kind() == trie.spec_kind() ==> r is Ok && ({
                let root = along_start_node(trie@, trie_node_id);
                let out = r->Ok_0@;
                &&& dfs_travel_ok(trie@, root, along_events(out))
                &&& forall|i: int|
                    0 <= i < out.len() ==> {
                        &&& (#[trigger] out[i]).0.spec_node_id() == replayed(
                            trie@,
                            self@.trans,
                            root,
                            self.spec_node_id(),
                            event_node(out[i].1),
                        )
                        &&& out[i].0@ == self@
                        &&& out[i].0.spec_kind() == self.spec_kind()
                    }
            }),
    {
        match check_same_kind(self.kind, trie.kind) {
            Err(e) => Err(e),
            Ok(_) => {
                let root = match trie_node_id {
                    Some(n) => n,
                    None => TRIE_ROOT_NODE_ID,
                };
                let root = if root < trie.num_of_nodes() {
                    root
                } else {
                    TRIE_NIL_NODE_ID
                };
                let (ev, states) = dfs_events(trie, root, Some(&self.sam), self.node_id);
                Ok(zip_states(self, ev, states))
            },
        }
    }

    /// The breadth-first traversal of a trie from the given node, or from its
    /// root, with the automaton state reached from this one by replaying the
    /// path to each node; the trie must share the automaton's alphabet.
    pub fn bfs_along(&self, trie: &Trie, trie_node_id: Option<usize>) -> (r: Result<
        Vec<(GeneralSamState, TravelEvent)>,
        SymbolError,
    >)
        requires
            trie.wf(),
        ensures
            self.spec_kind() != trie.spec_kind() ==> r == Err::<Vec<(GeneralSamState, TravelEvent)>, SymbolError>(
                SymbolError::Inconsistent { left: self.spec_kind(), right: trie.spec_kind() },
            ),
            self.spec_kind() == trie.spec_kind() ==> r is Ok && ({
                let root = along_start_node(trie@, trie_node_id);
                let out = r->Ok_0@;
                &&& bfs_travel_ok(trie@, root, along_events(out))
                &&& forall|i: int|
                    0 <= i < out.len() ==> {
                        &&& (#[trigger] out[i]).0.spec_node_id() == replayed(
                            trie@,
                            self@.trans,
                            root,
                            self.spec_node_id(),
                            event_node(out[i].1),
                        )
                        &&& out[i].0@ == self@
                        &&& out[i].0.spec_kind() == self.spec_kind()
                    }
            }),
    {
        match check_same_kind(self.kind, trie.kind) {
            Err(e) => Err(e),
            Ok(_) => {
                let root = match trie_node_id {
                    Some(n) => n,
                    None => TRIE_ROOT_NODE_ID,
                };
                let root = if root < trie.num_of_nodes() {
                    root
                } else {
                    TRIE_NIL_NODE_ID
                };
                let (ev, states) = bfs_events(trie, root, Some(&self.sam), self.node_id);
                Ok(zip_states(self, ev, states))
            },
        }
    }
}

} // verus!
