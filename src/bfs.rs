//! Breadth-first traversal of a trie, with its proof.
use vstd::prelude::*;

use crate::sam::{raw_sam_goto, sam_step, sam_trans, RawSam};
use crate::travel::{
    depth_from, level_order, entries_from_left, edge_key, event_node, popped, pushed, replayed, starts_at, visits_reachable_once,
    TravelEvent,
};
use crate::trie::{sorted_entries, trie_walk, Trie, TrieView};
use crate::walk::{
    inv_shape, inv_visit, lemma_append_event, lemma_entries_bfs_append, lemma_entries_single, lemma_closed_walk, lemma_enter_pushed,
    lemma_events_push, node_children,
};

verus! {

/// The queue of the breadth-first traversal holds the entered nodes in the
/// order they were entered, with their states; the first `head` of them have
/// been left.
#[verifier::opaque]
spec fn inv_queue(
    tv: TrieView,
    st: Seq<Map<u32, usize>>,
    has_sam: bool,
    root: usize,
    start: usize,
    events: Seq<TravelEvent>,
    queue: Seq<usize>,
    qstates: Seq<usize>,
    head: int,
) -> bool {
    &&& queue == pushed(events)
    &&& 0 <= head <= queue.len()
    &&& popped(events) == queue.take(head)
    &&& qstates.len() == queue.len()
    &&& has_sam ==> forall|i: int|
        0 <= i < queue.len() ==> #[trigger] qstates[i] == replayed(tv, st, root, start, queue[i])
}

/// The first `done` nodes of the queue have had all their children entered.
#[verifier::opaque]
spec fn inv_expanded(tv: TrieView, visited: Seq<bool>, queue: Seq<usize>, done: int) -> bool {
    forall|i: int, k: u32|
        #![trigger queue[i], tv.trans[queue[i] as int].contains_key(k)]
        0 <= i < done && tv.trans[queue[i] as int].contains_key(k) ==> visited[tv.trans[queue[i] as int][k] as int]
}

/// Each entry after the first is a child of a node already left.
#[verifier::opaque]
spec fn inv_bentries(tv: TrieView, events: Seq<TravelEvent>) -> bool {
    entries_from_left(tv, events)
}

proof fn lemma_bentries_init(tv: TrieView, root: usize)
    ensures
        inv_bentries(tv, seq![TravelEvent::Push(root, None)]),
{
    reveal(inv_bentries);
    lemma_entries_single(tv, root);
}

proof fn lemma_bentries_pop(tv: TrieView, events: Seq<TravelEvent>, n: usize)
    requires
        inv_bentries(tv, events),
    ensures
        inv_bentries(tv, events.push(TravelEvent::Pop(n))),
{
    reveal(inv_bentries);
    lemma_entries_bfs_append(tv, events, TravelEvent::Pop(n));
}

proof fn lemma_bentries_push(
    tv: TrieView,
    st: Seq<Map<u32, usize>>,
    has_sam: bool,
    root: usize,
    start: usize,
    events: Seq<TravelEvent>,
    queue: Seq<usize>,
    qstates: Seq<usize>,
    head: int,
    k: u32,
    c: usize,
)
    requires
        tv.wf(),
        0 < head <= queue.len(),
        queue[head - 1] < tv.len(),
        tv.trans[queue[head - 1] as int].contains_key(k),
        tv.trans[queue[head - 1] as int][k] == c,
        inv_queue(tv, st, has_sam, root, start, events, queue, qstates, head),
        inv_bentries(tv, events),
    ensures
        inv_bentries(tv, events.push(TravelEvent::Push(c, Some(k)))),
{
    reveal(inv_bentries);
    reveal(inv_queue);
    let p = queue[head - 1];
    assert(tv.parents[c as int] == p);
    assert(queue.take(head)[head - 1] == p);
    assert(popped(events).contains(p));
    lemma_entries_bfs_append(tv, events, TravelEvent::Push(c, Some(k)));
}

proof fn lemma_bentries_done(tv: TrieView, events: Seq<TravelEvent>)
    requires
        inv_bentries(tv, events),
    ensures
        entries_from_left(tv, events),
{
    reveal(inv_bentries);
}

/// The queue is sorted by depth, and no node in it is more than one level
/// below the node at `h`.
#[verifier::opaque]
spec fn inv_levels(tv: TrieView, root: usize, queue: Seq<usize>, h: int) -> bool {
    &&& forall|i: int, j: int|
        0 <= i < j < queue.len() ==> depth_from(tv, root, #[trigger] queue[i]) <= depth_from(
            tv,
            root,
            #[trigger] queue[j],
        )
    &&& 0 <= h < queue.len() ==> forall|i: int|
        0 <= i < queue.len() ==> depth_from(tv, root, #[trigger] queue[i]) <= depth_from(
            tv,
            root,
            queue[h],
        ) + 1
}

proof fn lemma_levels_init(tv: TrieView, root: usize)
    ensures
        inv_levels(tv, root, seq![root], 0),
{
    reveal(inv_levels);
}

proof fn lemma_levels_push(
    tv: TrieView,
    st: Seq<Map<u32, usize>>,
    has_sam: bool,
    root: usize,
    start: usize,
    visited: Seq<bool>,
    events: Seq<TravelEvent>,
    queue: Seq<usize>,
    qstates: Seq<usize>,
    head: int,
    k: u32,
    c: usize,
)
    requires
        tv.wf(),
        0 < head <= queue.len(),
        queue[head - 1] < tv.len(),
        tv.trans[queue[head - 1] as int].contains_key(k),
        tv.trans[queue[head - 1] as int][k] == c,
        inv_visit(tv, root, visited, events),
        inv_queue(tv, st, has_sam, root, start, events, queue, qstates, head),
        inv_levels(tv, root, queue, head - 1),
    ensures
        inv_levels(tv, root, queue.push(c), head - 1),
{
    reveal(inv_levels);
    reveal(inv_visit);
    reveal(inv_queue);
    let p = queue[head - 1];
    assert(pushed(events).contains(p)) by {
        assert(pushed(events)[head - 1] == p);
    }
    assert(root <= p);
    assert(tv.parents[c as int] == p && p < c < tv.len());
    assert(depth_from(tv, root, c) == depth_from(tv, root, p) + 1);
    let q2 = queue.push(c);
    assert forall|i: int, j: int| 0 <= i < j < q2.len() implies depth_from(tv, root, #[trigger] q2[i])
        <= depth_from(tv, root, #[trigger] q2[j]) by {
        assert(q2[i] == queue[i]);
        if j < queue.len() {
            assert(q2[j] == queue[j]);
        }
    }
    assert forall|i: int| 0 <= i < q2.len() implies depth_from(tv, root, #[trigger] q2[i]) <= depth_from(
        tv,
        root,
        q2[head - 1],
    ) + 1 by {
        assert(q2[head - 1] == p);
        if i < queue.len() {
            assert(q2[i] == queue[i]);
        }
    }
}

proof fn lemma_levels_advance(tv: TrieView, root: usize, queue: Seq<usize>, head: int)
    requires
        0 < head,
        inv_levels(tv, root, queue, head - 1),
    ensures
        inv_levels(tv, root, queue, head),
{
    reveal(inv_levels);
    if head < queue.len() {
        assert(depth_from(tv, root, queue[head - 1]) <= depth_from(tv, root, queue[head]));
    }
}

proof fn lemma_levels_done(
    tv: TrieView,
    st: Seq<Map<u32, usize>>,
    has_sam: bool,
    root: usize,
    start: usize,
    events: Seq<TravelEvent>,
    queue: Seq<usize>,
    qstates: Seq<usize>,
    head: int,
)
    requires
        inv_queue(tv, st, has_sam, root, start, events, queue, qstates, head),
        inv_levels(tv, root, queue, head),
    ensures
        level_order(tv, root, events),
{
    reveal(inv_levels);
    reveal(inv_queue);
}

proof fn lemma_bfs_init(
    tv: TrieView,
    st: Seq<Map<u32, usize>>,
    has_sam: bool,
    root: usize,
    start: usize,
    visited: Seq<bool>,
)
    requires
        tv.wf(),
        root < tv.len(),
        visited.len() == tv.len(),
        forall|i: int| 0 <= i < visited.len() ==> !visited[i],
    ensures
        ({
            let ev = seq![TravelEvent::Push(root, None)];
            let v = visited.update(root as int, true);
            &&& inv_visit(tv, root, v, ev)
            &&& inv_shape(tv, st, has_sam, root, start, ev, seq![start])
            &&& inv_queue(tv, st, has_sam, root, start, ev, seq![root], seq![start], 0)
            &&& inv_expanded(tv, v, seq![root], 0)
        }),
{
    reveal(inv_visit);
    reveal(inv_shape);
    reveal(inv_queue);
    reveal(inv_expanded);
    let ev = seq![TravelEvent::Push(root, None)];
    let v = visited.update(root as int, true);
    lemma_events_push(Seq::empty(), TravelEvent::Push(root, None));
    assert(Seq::<TravelEvent>::empty().push(TravelEvent::Push(root, None)) == ev);
    assert(pushed(Seq::<TravelEvent>::empty()) == Seq::<usize>::empty());
    assert(popped(Seq::<TravelEvent>::empty()) == Seq::<usize>::empty());
    assert(pushed(ev) =~= seq![root]);
    assert(popped(ev) =~= Seq::<usize>::empty());
    assert(seq![root].take(0) =~= Seq::<usize>::empty());
    assert(seq![root].contains(root)) by {
        assert(seq![root][0] == root);
    }
    assert forall|n: usize| n < tv.len() implies (v[n as int] <==> pushed(ev).contains(n)) by {
        if pushed(ev).contains(n) {
            let i = choose|i: int| 0 <= i < pushed(ev).len() && pushed(ev)[i] == n;
        }
    }
    assert forall|n: usize| pushed(ev).contains(n) implies root <= n < tv.len() && exists|w: Seq<u32>|
        trie_walk(tv.trans, root, w) == Some(n) by {
        let i = choose|i: int| 0 <= i < pushed(ev).len() && pushed(ev)[i] == n;
        assert(trie_walk(tv.trans, root, Seq::empty()) == Some(n));
    }
    assert(replayed(tv, st, root, start, root) == start);
    assert(event_node(ev[0]) == root);
}

/// Leaving the node at the head of the queue.
proof fn lemma_bfs_leave(
    tv: TrieView,
    st: Seq<Map<u32, usize>>,
    has_sam: bool,
    root: usize,
    start: usize,
    visited: Seq<bool>,
    events: Seq<TravelEvent>,
    states: Seq<usize>,
    queue: Seq<usize>,
    qstates: Seq<usize>,
    head: int,
)
    requires
        tv.wf(),
        head < queue.len(),
        inv_visit(tv, root, visited, events),
        inv_shape(tv, st, has_sam, root, start, events, states),
        inv_queue(tv, st, has_sam, root, start, events, queue, qstates, head),
        inv_expanded(tv, visited, queue, head),
    ensures
        ({
            let ev = events.push(TravelEvent::Pop(queue[head]));
            &&& inv_visit(tv, root, visited, ev)
            &&& inv_shape(tv, st, has_sam, root, start, ev, states.push(qstates[head]))
            &&& inv_queue(tv, st, has_sam, root, start, ev, queue, qstates, head + 1)
            &&& inv_expanded(tv, visited, queue, head)
            &&& queue[head] < tv.len()
            &&& head + 1 <= queue.len() <= tv.len()
        }),
{
    reveal(inv_visit);
    reveal(inv_shape);
    reveal(inv_queue);
    let n = queue[head];
    let ev = events.push(TravelEvent::Pop(n));
    lemma_events_push(events, TravelEvent::Pop(n));
    assert(queue.take(head).push(n) =~= queue.take(head + 1));
    assert(pushed(events).contains(n));
    if has_sam {
        assert(qstates[head] == replayed(tv, st, root, start, n));
    }
    lemma_append_event(tv, st, has_sam, root, start, events, states, TravelEvent::Pop(n), qstates[head]);
}

/// A child that was entered before is passed over.
proof fn lemma_bfs_child_seen(
    tv: TrieView,
    visited: Seq<bool>,
    queue: Seq<usize>,
    head: int,
    children: Seq<(u32, usize)>,
    j: int,
)
    requires
        0 <= j < children.len(),
        0 < head <= queue.len(),
        sorted_entries(children, tv.trans[queue[head - 1] as int]),
        forall|m: int| 0 <= m < j ==> visited[children[m].1 as int],
        visited[children[j].1 as int],
    ensures
        forall|m: int| 0 <= m < j + 1 ==> visited[children[m].1 as int],
{
}

/// Entering a child of the node being expanded.
proof fn lemma_bfs_child_enter(
    tv: TrieView,
    st: Seq<Map<u32, usize>>,
    has_sam: bool,
    root: usize,
    start: usize,
    visited: Seq<bool>,
    events: Seq<TravelEvent>,
    states: Seq<usize>,
    queue: Seq<usize>,
    qstates: Seq<usize>,
    head: int,
    children: Seq<(u32, usize)>,
    j: int,
    cs: usize,
    n_nodes: usize,
)
    requires
        tv.wf(),
        n_nodes == tv.len(),
        0 <= j < children.len(),
        0 < head <= queue.len(),
        sorted_entries(children, tv.trans[queue[head - 1] as int]),
        forall|m: int| 0 <= m < j ==> visited[children[m].1 as int],
        !visited[children[j].1 as int],
        inv_visit(tv, root, visited, events),
        inv_shape(tv, st, has_sam, root, start, events, states),
        inv_queue(tv, st, has_sam, root, start, events, queue, qstates, head),
        inv_expanded(tv, visited, queue, head - 1),
        has_sam ==> cs == sam_step(st, qstates[head - 1], children[j].0),
    ensures
        ({
            let (k, c) = children[j];
            let ev = events.push(TravelEvent::Push(c, Some(k)));
            let v = visited.update(c as int, true);
            &&& inv_visit(tv, root, v, ev)
            &&& inv_shape(tv, st, has_sam, root, start, ev, states.push(cs))
            &&& inv_queue(tv, st, has_sam, root, start, ev, queue.push(c), qstates.push(cs), head)
            &&& inv_expanded(tv, v, queue.push(c), head - 1)
            &&& forall|m: int| 0 <= m < j + 1 ==> v[children[m].1 as int]
            &&& c < tv.len()
            &&& queue.push(c).len() <= tv.len()
        }),
{
    let (k, c) = children[j];
    assert(children[j] == (k, c));
    let p = queue[head - 1];
    assert(tv.trans[p as int].contains_key(k) && tv.trans[p as int][k] == c);
    let ev = events.push(TravelEvent::Push(c, Some(k)));
    let v = visited.update(c as int, true);
    reveal(inv_queue);
    assert(pushed(events).contains(p)) by {
        assert(queue[head - 1] == p);
    }
    reveal(inv_visit);
    lemma_enter_pushed(tv, root, visited, events, p, k, c, n_nodes);
    assert(v[root as int]);
    assert forall|m: int| 0 <= m < j + 1 implies v[children[m].1 as int] by {
        if m < j {
            let (km, cm) = children[m];
            assert(children[m] == (km, cm));
            assert(tv.trans[p as int].contains_key(km));
        }
    }
    reveal(inv_expanded);
    assert forall|i: int, kk: u32|
        #![trigger queue.push(c)[i], tv.trans[queue.push(c)[i] as int].contains_key(kk)]
        0 <= i < head - 1 && tv.trans[queue.push(c)[i] as int].contains_key(kk) implies v[tv.trans[queue.push(c)[i] as int][kk] as int] by {
        assert(queue.push(c)[i] == queue[i]);
        let m = queue[i];
        assert(pushed(events).contains(m)) by {
            assert(pushed(events)[i] == m);
        }
        let t = tv.trans[m as int][kk] as int;
        assert(visited[t]);
    }
    lemma_events_push(events, TravelEvent::Push(c, Some(k)));
    assert(popped(ev) == queue.take(head));
    assert(queue.push(c).take(head) =~= queue.take(head));
    if has_sam {
        assert(edge_key(tv, c) == k);
        assert(qstates[head - 1] == replayed(tv, st, root, start, p));
        assert(replayed(tv, st, root, start, c) == sam_step(st, replayed(tv, st, root, start, p), k));
        assert forall|i: int| 0 <= i < queue.push(c).len() implies #[trigger] qstates.push(cs)[i] == replayed(
            tv,
            st,
            root,
            start,
            queue.push(c)[i],
        ) by {
            if i < queue.len() {
                assert(queue.push(c)[i] == queue[i]);
            }
        }
    }
    reveal(inv_shape);
    lemma_append_event(tv, st, has_sam, root, start, events, states, TravelEvent::Push(c, Some(k)), cs);
}

proof fn lemma_bfs_expanded(
    tv: TrieView,
    visited: Seq<bool>,
    queue: Seq<usize>,
    head: int,
    children: Seq<(u32, usize)>,
)
    requires
        0 < head <= queue.len(),
        sorted_entries(children, tv.trans[queue[head - 1] as int]),
        forall|m: int| 0 <= m < children.len() ==> visited[children[m].1 as int],
        inv_expanded(tv, visited, queue, head - 1),
    ensures
        inv_expanded(tv, visited, queue, head),
{
    reveal(inv_expanded);
    assert forall|i: int, k: u32|
        #![trigger queue[i], tv.trans[queue[i] as int].contains_key(k)]
        0 <= i < head && tv.trans[queue[i] as int].contains_key(k) implies visited[tv.trans[queue[i] as int][k] as int] by {
        if i == head - 1 {
            let m = choose|m: int| 0 <= m < children.len() && children[m].0 == k;
        }
    }
}

proof fn lemma_bfs_done(
    tv: TrieView,
    st: Seq<Map<u32, usize>>,
    has_sam: bool,
    root: usize,
    start: usize,
    visited: Seq<bool>,
    events: Seq<TravelEvent>,
    states: Seq<usize>,
    queue: Seq<usize>,
    qstates: Seq<usize>,
    head: int,
)
    requires
        tv.wf(),
        head == queue.len(),
        inv_visit(tv, root, visited, events),
        inv_shape(tv, st, has_sam, root, start, events, states),
        inv_queue(tv, st, has_sam, root, start, events, queue, qstates, head),
        inv_expanded(tv, visited, queue, head),
    ensures
        starts_at(events, root),
        popped(events) == pushed(events),
        visits_reachable_once(tv, root, events),
        states.len() == events.len(),
        has_sam ==> forall|i: int|
            0 <= i < events.len() ==> #[trigger] states[i] == replayed(tv, st, root, start, event_node(events[i])),
{
    reveal(inv_visit);
    reveal(inv_shape);
    reveal(inv_queue);
    reveal(inv_expanded);
    assert(queue.take(head) =~= queue);
    assert(pushed(events).contains(root));
    assert forall|m: usize, k: u32|
        #![trigger pushed(events).contains(m), tv.trans[m as int].contains_key(k)]
        pushed(events).contains(m) && m < tv.len() && tv.trans[m as int].contains_key(k) implies pushed(events).contains(
            tv.trans[m as int][k],
        ) by {
        let i = choose|i: int| 0 <= i < queue.len() && queue[i] == m;
        assert(visited[tv.trans[queue[i] as int][k] as int]);
    }
    assert forall|w: Seq<u32>| #[trigger] trie_walk(tv.trans, root, w) is Some implies pushed(events).contains(
        trie_walk(tv.trans, root, w)->0,
    ) by {
        lemma_closed_walk(tv, pushed(events), root, w);
    }
}

/// Breadth-first traversal from `root`: the root is entered; then, node by
/// node in the order they were entered, a node is left and each of its
/// children is entered in increasing order of symbol; a node entered before
/// is passed over, which in a trie never happens. With an automaton,
/// each event comes with the state reached by replaying the path from `root`
/// from `start`.
pub(crate) fn bfs_events(trie: &Trie, root: usize, sam: Option<&RawSam>, start: usize) -> (r: (
    Vec<TravelEvent>,
    Vec<usize>,
))
    requires
        trie.wf(),
        root < trie@.len(),
    ensures
        starts_at(r.0@, root),
        popped(r.0@) == pushed(r.0@),
        visits_reachable_once(trie@, root, r.0@),
        entries_from_left(trie@, r.0@),
        level_order(trie@, root, r.0@),
        r.1@.len() == r.0@.len(),
        sam is Some ==> forall|i: int|
            0 <= i < r.0@.len() ==> #[trigger] r.1@[i] == replayed(
                trie@,
                sam_trans(*sam->0),
                root,
                start,
                event_node(r.0@[i]),
            ),
{
    let ghost tv = trie@;
    let ghost has_sam = sam is Some;
    let ghost st = match sam {
        Some(s) => sam_trans(*s),
        None => Seq::empty(),
    };
    let n_nodes = trie.num_of_nodes();
    let mut visited: Vec<bool> = Vec::new();
    while visited.len() < n_nodes
        invariant
            visited@.len() <= n_nodes,
            forall|i: int| 0 <= i < visited@.len() ==> !visited@[i],
        decreases n_nodes - visited@.len(),
    {
        visited.push(false);
    }
    proof {
        lemma_bfs_init(tv, st, has_sam, root, start, visited@);
        lemma_bentries_init(tv, root);
        lemma_levels_init(tv, root);
    }
    visited.set(root, true);
    let mut events: Vec<TravelEvent> = Vec::new();
    let mut states: Vec<usize> = Vec::new();
    let mut queue: Vec<usize> = Vec::new();
    let mut qstates: Vec<usize> = Vec::new();
    events.push(TravelEvent::Push(root, None));
    states.push(start);
    queue.push(root);
    qstates.push(start);
    let mut head: usize = 0;
    proof {
        assert(events@ == seq![TravelEvent::Push(root, None)]);
        assert(states@ == seq![start]);
        assert(queue@ == seq![root]);
        assert(qstates@ == seq![start]);
    }
    while head < queue.len()
        invariant
            tv == trie@,
            tv.wf(),
            n_nodes == tv.len(),
            has_sam == sam is Some,
            sam is Some ==> st == sam_trans(*sam->0),
            visited@.len() == tv.len(),
            queue@.len() <= tv.len(),
            head <= queue@.len(),
            qstates@.len() == queue@.len(),
            inv_visit(tv, root, visited@, events@),
            inv_shape(tv, st, has_sam, root, start, events@, states@),
            inv_queue(tv, st, has_sam, root, start, events@, queue@, qstates@, head as int),
            inv_expanded(tv, visited@, queue@, head as int),
            inv_bentries(tv, events@),
            inv_levels(tv, root, queue@, head as int),
        decreases tv.len() - head,
    {
        let node = queue[head];
        let nstate = qstates[head];
        proof {
            lemma_bfs_leave(tv, st, has_sam, root, start, visited@, events@, states@, queue@, qstates@, head as int);
            lemma_bentries_pop(tv, events@, node);
        }
        events.push(TravelEvent::Pop(node));
        states.push(nstate);
        head = head + 1;
        let children = node_children(trie, node);
        let mut j: usize = 0;
        while j < children.len()
            invariant
                tv == trie@,
                tv.wf(),
                n_nodes == tv.len(),
                has_sam == sam is Some,
                sam is Some ==> st == sam_trans(*sam->0),
                0 < head <= queue@.len(),
                node == queue@[head - 1],
                node < tv.len(),
                nstate == qstates@[head - 1],
                visited@.len() == tv.len(),
                queue@.len() <= tv.len(),
                qstates@.len() == queue@.len(),
                j <= children@.len(),
                sorted_entries(children@, tv.trans[node as int]),
                forall|m: int| 0 <= m < j ==> visited@[children@[m].1 as int],
                inv_visit(tv, root, visited@, events@),
                inv_shape(tv, st, has_sam, root, start, events@, states@),
                inv_queue(tv, st, has_sam, root, start, events@, queue@, qstates@, head as int),
                inv_expanded(tv, visited@, queue@, head - 1),
                inv_bentries(tv, events@),
                inv_levels(tv, root, queue@, head - 1),
            decreases children@.len() - j,
        {
            let (k, c) = children[j];
            proof {
                assert(children@[j as int] == (k, c));
                assert(tv.trans[node as int].contains_key(k));
                assert(c < tv.len());
            }
            if visited[c] {
                proof {
                    lemma_bfs_child_seen(tv, visited@, queue@, head as int, children@, j as int);
                }
            } else {
                let cs = match sam {
                    Some(s) => raw_sam_goto(s, nstate, k),
                    None => start,
                };
                proof {
                    lemma_bfs_child_enter(
                        tv,
                        st,
                        has_sam,
                        root,
                        start,
                        visited@,
                        events@,
                        states@,
                        queue@,
                        qstates@,
                        head as int,
                        children@,
                        j as int,
                        cs,
                        n_nodes,
                    );
                    lemma_bentries_push(tv, st, has_sam, root, start, events@, queue@, qstates@, head as int, k, c);
                    lemma_levels_push(tv, st, has_sam, root, start, visited@, events@, queue@, qstates@, head as int, k, c);
                }
                visited.set(c, true);
                events.push(TravelEvent::Push(c, Some(k)));
                states.push(cs);
                queue.push(c);
                qstates.push(cs);
            }
            j = j + 1;
        }
        proof {
            lemma_bfs_expanded(tv, visited@, queue@, head as int, children@);
            lemma_levels_advance(tv, root, queue@, head as int);
        }
    }
    proof {
        lemma_bfs_done(tv, st, has_sam, root, start, visited@, events@, states@, queue@, qstates@, head as int);
        lemma_bentries_done(tv, events@);
        lemma_levels_done(tv, st, has_sam, root, start, events@, queue@, qstates@, head as int);
    }
    (events, states)
}

} // verus!
