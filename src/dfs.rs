//! Depth-first traversal of a trie, with its proof.
use vstd::prelude::*;

use crate::sam::{raw_sam_goto, sam_step, sam_trans, RawSam};
use crate::travel::{
    entries_under_open, edge_key, event_node, popped, pushed, replayed, stack_after, starts_at,
    visits_reachable_once, TravelEvent,
};
use crate::trie::{sorted_entries, trie_walk, Trie, TrieView};
use crate::walk::{
    inv_shape, inv_visit, lemma_append_event, lemma_entries_dfs_append, lemma_entries_single, lemma_closed_walk, lemma_contains_push,
    lemma_enter_pushed, lemma_events_push, lemma_push_unique, node_children,
};

verus! {

/// A node entered and not yet fully expanded: its transitions and how many
/// of them have been taken.
struct Frame {
    node: usize,
    state: usize,
    children: Vec<(u32, usize)>,
    next: usize,
}

spec fn frames_weight(fs: Seq<Frame>) -> nat
    decreases fs.len(),
{
    if fs.len() == 0 {
        0
    } else {
        frames_weight(fs.drop_last()) + (fs.last().children@.len() - fs.last().next) as nat + 1
    }
}

spec fn frame_nodes(fs: Seq<Frame>) -> Seq<usize> {
    fs.map_values(|f: Frame| f.node)
}

/// The frames are the nodes entered and not left, innermost last.
#[verifier::opaque]
spec fn inv_stack(events: Seq<TravelEvent>, frames: Seq<Frame>) -> bool {
    &&& popped(events).no_duplicates()
    &&& frame_nodes(frames).no_duplicates()
    &&& forall|n: usize|
        pushed(events).contains(n) <==> (popped(events).contains(n) || frame_nodes(frames).contains(n))
    &&& forall|n: usize| !(popped(events).contains(n) && frame_nodes(frames).contains(n))
    &&& stack_after(events) == Some(frame_nodes(frames))
}

#[verifier::opaque]
spec fn inv_frames(
    tv: TrieView,
    st: Seq<Map<u32, usize>>,
    has_sam: bool,
    root: usize,
    start: usize,
    visited: Seq<bool>,
    frames: Seq<Frame>,
) -> bool {
    forall|j: int| 0 <= j < frames.len() ==> frame_ok(tv, st, has_sam, root, start, visited, #[trigger] frames[j])
}

/// Every child of a node that has been left has been entered.
#[verifier::opaque]
spec fn inv_closed(tv: TrieView, visited: Seq<bool>, events: Seq<TravelEvent>) -> bool {
    forall|m: usize, k: u32|
        #![trigger popped(events).contains(m), tv.trans[m as int].contains_key(k)]
        popped(events).contains(m) && m < tv.len() && tv.trans[m as int].contains_key(k) ==> visited[tv.trans[m as int][k] as int]
}

/// Each entry after the first is a child of the innermost open node.
#[verifier::opaque]
spec fn inv_entries(tv: TrieView, events: Seq<TravelEvent>) -> bool {
    entries_under_open(tv, events)
}

/// What holds between steps of the depth-first traversal.
spec fn dfs_inv(
    tv: TrieView,
    st: Seq<Map<u32, usize>>,
    has_sam: bool,
    root: usize,
    start: usize,
    visited: Seq<bool>,
    events: Seq<TravelEvent>,
    states: Seq<usize>,
    frames: Seq<Frame>,
) -> bool {
    &&& inv_visit(tv, root, visited, events)
    &&& inv_stack(events, frames)
    &&& inv_frames(tv, st, has_sam, root, start, visited, frames)
    &&& inv_closed(tv, visited, events)
    &&& inv_shape(tv, st, has_sam, root, start, events, states)
    &&& inv_entries(tv, events)
}

spec fn frame_ok(
    tv: TrieView,
    st: Seq<Map<u32, usize>>,
    has_sam: bool,
    root: usize,
    start: usize,
    visited: Seq<bool>,
    f: Frame,
) -> bool {
    &&& f.node < tv.len()
    &&& sorted_entries(f.children@, tv.trans[f.node as int])
    &&& f.next <= f.children@.len()
    &&& forall|m: int| 0 <= m < f.next ==> visited[f.children@[m].1 as int]
    &&& (has_sam ==> f.state == replayed(tv, st, root, start, f.node))
}

proof fn lemma_frame_ok_more_visited(
    tv: TrieView,
    st: Seq<Map<u32, usize>>,
    has_sam: bool,
    root: usize,
    start: usize,
    visited: Seq<bool>,
    c: usize,
    f: Frame,
)
    requires
        tv.wf(),
        visited.len() == tv.len(),
        frame_ok(tv, st, has_sam, root, start, visited, f),
        c < visited.len(),
    ensures
        frame_ok(tv, st, has_sam, root, start, visited.update(c as int, true), f),
{
    assert forall|m: int| 0 <= m < f.next implies visited.update(c as int, true)[f.children@[m].1 as int] by {
        let (k, t) = f.children@[m];
        assert(f.children@[m] == (k, t));
        assert(tv.trans[f.node as int].contains_key(k));
    }
}

proof fn lemma_frames_pop(fr0: Seq<Frame>)
    requires
        fr0.len() > 0,
        frame_nodes(fr0).no_duplicates(),
    ensures
        frame_nodes(fr0) == frame_nodes(fr0.drop_last()).push(fr0.last().node),
        frame_nodes(fr0.drop_last()).no_duplicates(),
        !frame_nodes(fr0.drop_last()).contains(fr0.last().node),
        frame_nodes(fr0).contains(fr0.last().node),
        frames_weight(fr0) == frames_weight(fr0.drop_last()) + (fr0.last().children@.len()
            - fr0.last().next) as nat + 1,
{
    let fa = frame_nodes(fr0.drop_last());
    assert(frame_nodes(fr0) =~= fa.push(fr0.last().node));
    assert forall|i: int, j: int| 0 <= i < fa.len() && 0 <= j < fa.len() && i != j implies fa[i] != fa[j] by {
        assert(frame_nodes(fr0)[i] == fa[i]);
        assert(frame_nodes(fr0)[j] == fa[j]);
    }
    assert(!fa.contains(fr0.last().node)) by {
        if fa.contains(fr0.last().node) {
            let i = choose|i: int| 0 <= i < fa.len() && fa[i] == fr0.last().node;
            assert(frame_nodes(fr0)[i] == fr0.last().node);
            assert(frame_nodes(fr0)[fa.len() as int] == fr0.last().node);
        }
    }
    assert(frame_nodes(fr0)[fa.len() as int] == fr0.last().node);
}

proof fn lemma_dfs_top(
    tv: TrieView,
    st: Seq<Map<u32, usize>>,
    has_sam: bool,
    root: usize,
    start: usize,
    visited: Seq<bool>,
    events: Seq<TravelEvent>,
    states: Seq<usize>,
    frames: Seq<Frame>,
)
    requires
        tv.wf(),
        frames.len() > 0,
        dfs_inv(tv, st, has_sam, root, start, visited, events, states, frames),
    ensures
        frame_ok(tv, st, has_sam, root, start, visited, frames.last()),
        frames.last().next < frames.last().children@.len() ==> {
            let (k, c) = frames.last().children@[frames.last().next as int];
            &&& tv.trans[frames.last().node as int].contains_key(k)
            &&& tv.trans[frames.last().node as int][k] == c
            &&& frames.last().node < c < tv.len()
        },
        visited.len() == tv.len(),
{
    reveal(inv_frames);
    reveal(inv_visit);
    assert(frame_ok(tv, st, has_sam, root, start, visited, frames[frames.len() - 1]));
    let f = frames.last();
    if f.next < f.children@.len() {
        let (k, c) = f.children@[f.next as int];
        assert(f.children@[f.next as int] == (k, c));
    }
}

proof fn lemma_dfs_init(
    tv: TrieView,
    st: Seq<Map<u32, usize>>,
    has_sam: bool,
    root: usize,
    start: usize,
    visited: Seq<bool>,
    f: Frame,
)
    requires
        tv.wf(),
        root < tv.len(),
        visited.len() == tv.len(),
        forall|i: int| 0 <= i < visited.len() ==> !visited[i],
        f.node == root,
        f.state == start,
        f.next == 0,
        sorted_entries(f.children@, tv.trans[root as int]),
    ensures
        dfs_inv(
            tv,
            st,
            has_sam,
            root,
            start,
            visited.update(root as int, true),
            seq![TravelEvent::Push(root, None)],
            seq![start],
            seq![f],
        ),
        pushed(seq![TravelEvent::Push(root, None)]).len() == 1,
{
    reveal(inv_visit);
    reveal(inv_stack);
    reveal(inv_frames);
    reveal(inv_closed);
    reveal(inv_shape);
    reveal(inv_entries);
    lemma_entries_single(tv, root);
    let ev = seq![TravelEvent::Push(root, None)];
    let v = visited.update(root as int, true);
    lemma_events_push(Seq::empty(), TravelEvent::Push(root, None));
    assert(Seq::<TravelEvent>::empty().push(TravelEvent::Push(root, None)) == ev);
    assert(frame_nodes(seq![f]) =~= seq![root]);
    assert(trie_walk(tv.trans, root, Seq::empty()) == Some(root));
    assert(pushed(Seq::<TravelEvent>::empty()) == Seq::<usize>::empty());
    assert(popped(Seq::<TravelEvent>::empty()) == Seq::<usize>::empty());
    assert(stack_after(Seq::<TravelEvent>::empty()) == Some(Seq::<usize>::empty()));
    assert(pushed(ev) =~= seq![root]);
    assert(popped(ev) =~= Seq::<usize>::empty());
    lemma_contains_push(Seq::empty(), root);
    assert(Seq::<usize>::empty().push(root) =~= seq![root]);
    assert(stack_after(ev) == Some(seq![root]));
    assert(seq![root].contains(root)) by {
        assert(seq![root][0] == root);
    }
    assert forall|n: usize| n < tv.len() implies (v[n as int] <==> pushed(ev).contains(n)) by {
        if pushed(ev).contains(n) {
            let i = choose|i: int| 0 <= i < pushed(ev).len() && pushed(ev)[i] == n;
        }
    }
    assert forall|n: usize| pushed(ev).contains(n) implies root <= n < tv.len() && exists|w: Seq<u32>|
        trie_walk(tv.trans, root, w) == Some(n) by {
        let i = choose|i: int| 0 <= i < pushed(ev).len() && pushed(ev)[i] == n;
        assert(trie_walk(tv.trans, root, Seq::empty()) == Some(n));
    }
    assert forall|n: usize| pushed(ev).contains(n) <==> (popped(ev).contains(n) || frame_nodes(seq![f]).contains(n)) by {
        if pushed(ev).contains(n) {
            let i = choose|i: int| 0 <= i < pushed(ev).len() && pushed(ev)[i] == n;
            assert(frame_nodes(seq![f])[0] == n);
        }
        if frame_nodes(seq![f]).contains(n) {
            let i = choose|i: int| 0 <= i < frame_nodes(seq![f]).len() && frame_nodes(seq![f])[i] == n;
            assert(pushed(ev)[0] == n);
        }
    }
    assert(replayed(tv, st, root, start, root) == start);
    assert(event_node(ev[0]) == root);
    assert(frame_ok(tv, st, has_sam, root, start, v, seq![f][0]));
}

proof fn lemma_dfs_skip(
    tv: TrieView,
    st: Seq<Map<u32, usize>>,
    has_sam: bool,
    root: usize,
    start: usize,
    visited: Seq<bool>,
    events: Seq<TravelEvent>,
    states: Seq<usize>,
    frames: Seq<Frame>,
    f: Frame,
)
    requires
        tv.wf(),
        frames.len() > 0,
        dfs_inv(tv, st, has_sam, root, start, visited, events, states, frames),
        frames.last().next < frames.last().children@.len(),
        visited[frames.last().children@[frames.last().next as int].1 as int],
        f.node == frames.last().node,
        f.state == frames.last().state,
        f.children == frames.last().children,
        f.next == frames.last().next + 1,
    ensures
        dfs_inv(tv, st, has_sam, root, start, visited, events, states, frames.drop_last().push(f)),
        frames_weight(frames.drop_last().push(f)) < frames_weight(frames),
{
    reveal(inv_stack);
    reveal(inv_frames);
    let fr = frames.drop_last().push(f);
    lemma_frames_pop(frames);
    assert(fr.drop_last() == frames.drop_last());
    assert(fr.last() == f);
    assert(frames_weight(fr) == frames_weight(frames.drop_last()) + (f.children@.len() - f.next) as nat + 1);
    assert(frame_nodes(fr) =~= frame_nodes(frames));
    assert(frame_ok(tv, st, has_sam, root, start, visited, frames[frames.len() - 1]));
    assert forall|j: int| 0 <= j < fr.len() implies frame_ok(tv, st, has_sam, root, start, visited, #[trigger] fr[j]) by {
        if j < fr.len() - 1 {
            assert(fr[j] == frames.drop_last()[j]);
            assert(fr[j] == frames[j]);
        }
    }
}

proof fn lemma_enter_frames(
    tv: TrieView,
    st: Seq<Map<u32, usize>>,
    has_sam: bool,
    root: usize,
    start: usize,
    visited: Seq<bool>,
    frames: Seq<Frame>,
    f: Frame,
    g: Frame,
    c: usize,
)
    requires
        tv.wf(),
        frames.len() > 0,
        visited.len() == tv.len(),
        c < tv.len(),
        forall|j: int| 0 <= j < frames.len() ==> frame_ok(tv, st, has_sam, root, start, visited, #[trigger] frames[j]),
        frame_ok(tv, st, has_sam, root, start, visited.update(c as int, true), f),
        frame_ok(tv, st, has_sam, root, start, visited.update(c as int, true), g),
    ensures
        forall|j: int|
            0 <= j < frames.drop_last().push(f).push(g).len() ==> frame_ok(
                tv,
                st,
                has_sam,
                root,
                start,
                visited.update(c as int, true),
                #[trigger] frames.drop_last().push(f).push(g)[j],
            ),
{
    let fr1 = frames.drop_last().push(f);
    let fr = fr1.push(g);
    assert forall|j: int| 0 <= j < fr.len() implies frame_ok(tv, st, has_sam, root, start, visited.update(c as int, true), #[trigger] fr[j]) by {
        if j < fr.len() - 2 {
            assert(fr[j] == fr1[j]);
            assert(fr1[j] == frames.drop_last()[j]);
            assert(fr[j] == frames[j]);
            lemma_frame_ok_more_visited(tv, st, has_sam, root, start, visited, c, frames[j]);
        } else if j == fr.len() - 2 {
            assert(fr[j] == f);
        } else {
            assert(fr[j] == g);
        }
    }
}

proof fn lemma_dfs_enter(
    tv: TrieView,
    st: Seq<Map<u32, usize>>,
    has_sam: bool,
    root: usize,
    start: usize,
    visited: Seq<bool>,
    events: Seq<TravelEvent>,
    states: Seq<usize>,
    frames: Seq<Frame>,
    f: Frame,
    g: Frame,
    k: u32,
    c: usize,
    n_nodes: usize,
)
    requires
        tv.wf(),
        n_nodes == tv.len(),
        frames.len() > 0,
        dfs_inv(tv, st, has_sam, root, start, visited, events, states, frames),
        frames.last().next < frames.last().children@.len(),
        frames.last().children@[frames.last().next as int] == (k, c),
        !visited[c as int],
        f.node == frames.last().node,
        f.state == frames.last().state,
        f.children == frames.last().children,
        f.next == frames.last().next + 1,
        g.node == c,
        g.next == 0,
        sorted_entries(g.children@, tv.trans[c as int]),
        has_sam ==> g.state == sam_step(st, f.state, k),
    ensures
        dfs_inv(
            tv,
            st,
            has_sam,
            root,
            start,
            visited.update(c as int, true),
            events.push(TravelEvent::Push(c, Some(k))),
            states.push(g.state),
            frames.drop_last().push(f).push(g),
        ),
        pushed(events.push(TravelEvent::Push(c, Some(k)))).len() <= tv.len(),
        pushed(events.push(TravelEvent::Push(c, Some(k)))).len() == pushed(events).len() + 1,
{
    lemma_dfs_top(tv, st, has_sam, root, start, visited, events, states, frames);
    lemma_enter_visit_stack(tv, root, visited, events, frames, f, g, k, c, n_nodes);
    lemma_enter_frames_inv(tv, st, has_sam, root, start, visited, frames, f, g, k, c);
    lemma_enter_closed(tv, visited, events, k, c);
    lemma_enter_shape(tv, st, has_sam, root, start, events, states, frames, f, g, k, c);
    lemma_enter_entries(tv, events, frames, f, k, c);
}

proof fn lemma_enter_entries(
    tv: TrieView,
    events: Seq<TravelEvent>,
    frames: Seq<Frame>,
    f: Frame,
    k: u32,
    c: usize,
)
    requires
        frames.len() > 0,
        inv_stack(events, frames),
        inv_entries(tv, events),
        f.node == frames.last().node,
        f.node < tv.len(),
        tv.trans[f.node as int].contains_key(k),
        tv.trans[f.node as int][k] == c,
    ensures
        inv_entries(tv, events.push(TravelEvent::Push(c, Some(k)))),
{
    reveal(inv_stack);
    reveal(inv_entries);
    lemma_frames_pop(frames);
    assert(frame_nodes(frames).last() == f.node);
    lemma_entries_dfs_append(tv, events, TravelEvent::Push(c, Some(k)));
}

proof fn lemma_enter_visit_stack(
    tv: TrieView,
    root: usize,
    visited: Seq<bool>,
    events: Seq<TravelEvent>,
    frames: Seq<Frame>,
    f: Frame,
    g: Frame,
    k: u32,
    c: usize,
    n_nodes: usize,
)
    requires
        tv.wf(),
        n_nodes == tv.len(),
        frames.len() > 0,
        inv_visit(tv, root, visited, events),
        inv_stack(events, frames),
        f.node == frames.last().node,
        tv.trans[f.node as int].contains_key(k),
        tv.trans[f.node as int][k] == c,
        !visited[c as int],
        g.node == c,
    ensures
        inv_visit(tv, root, visited.update(c as int, true), events.push(TravelEvent::Push(c, Some(k)))),
        inv_stack(events.push(TravelEvent::Push(c, Some(k))), frames.drop_last().push(f).push(g)),
        pushed(events.push(TravelEvent::Push(c, Some(k)))).len() == pushed(events).len() + 1,
        pushed(events.push(TravelEvent::Push(c, Some(k)))).len() <= tv.len(),
        f.node < c < tv.len(),
        root < c,
{
    reveal(inv_visit);
    reveal(inv_stack);
    let fnode = f.node;
    let fr1 = frames.drop_last().push(f);
    let fr = fr1.push(g);
    lemma_frames_pop(frames);
    assert(pushed(events).contains(fnode));
    lemma_enter_pushed(tv, root, visited, events, fnode, k, c, n_nodes);
    lemma_events_push(events, TravelEvent::Push(c, Some(k)));
    lemma_contains_push(pushed(events), c);
    assert(fr1.drop_last() == frames.drop_last());
    assert(frame_nodes(fr1) =~= frame_nodes(frames));
    assert(fr.drop_last() == fr1);
    assert(frame_nodes(fr) =~= frame_nodes(fr1).push(c));
    assert(!frame_nodes(fr1).contains(c));
    lemma_push_unique(frame_nodes(fr1), c);
    lemma_contains_push(frame_nodes(fr1), c);
    assert(visited.update(c as int, true)[root as int]);
}

proof fn lemma_enter_frames_inv(
    tv: TrieView,
    st: Seq<Map<u32, usize>>,
    has_sam: bool,
    root: usize,
    start: usize,
    visited: Seq<bool>,
    frames: Seq<Frame>,
    f: Frame,
    g: Frame,
    k: u32,
    c: usize,
)
    requires
        tv.wf(),
        frames.len() > 0,
        visited.len() == tv.len(),
        inv_frames(tv, st, has_sam, root, start, visited, frames),
        frame_ok(tv, st, has_sam, root, start, visited, frames.last()),
        frames.last().next < frames.last().children@.len(),
        frames.last().children@[frames.last().next as int] == (k, c),
        f.node == frames.last().node,
        f.state == frames.last().state,
        f.children == frames.last().children,
        f.next == frames.last().next + 1,
        f.node < c < tv.len(),
        root < c,
        tv.trans[f.node as int].contains_key(k),
        tv.trans[f.node as int][k] == c,
        g.node == c,
        g.next == 0,
        sorted_entries(g.children@, tv.trans[c as int]),
        has_sam ==> g.state == sam_step(st, f.state, k),
    ensures
        inv_frames(tv, st, has_sam, root, start, visited.update(c as int, true), frames.drop_last().push(f).push(g)),
{
    reveal(inv_frames);
    let v = visited.update(c as int, true);
    if has_sam {
        assert(edge_key(tv, c) == k);
        assert(replayed(tv, st, root, start, c) == sam_step(st, replayed(tv, st, root, start, f.node), k));
    }
    lemma_frame_ok_more_visited(tv, st, has_sam, root, start, visited, c, frames.last());
    assert(frame_ok(tv, st, has_sam, root, start, v, f));
    assert(frame_ok(tv, st, has_sam, root, start, v, g));
    lemma_enter_frames(tv, st, has_sam, root, start, visited, frames, f, g, c);
}

proof fn lemma_enter_closed(tv: TrieView, visited: Seq<bool>, events: Seq<TravelEvent>, k: u32, c: usize)
    requires
        tv.wf(),
        visited.len() == tv.len(),
        inv_closed(tv, visited, events),
        c < visited.len(),
    ensures
        inv_closed(tv, visited.update(c as int, true), events.push(TravelEvent::Push(c, Some(k)))),
{
    reveal(inv_closed);
    let ev = events.push(TravelEvent::Push(c, Some(k)));
    let v = visited.update(c as int, true);
    lemma_events_push(events, TravelEvent::Push(c, Some(k)));
    assert forall|m: usize, kk: u32|
        #![trigger popped(ev).contains(m), tv.trans[m as int].contains_key(kk)]
        popped(ev).contains(m) && m < tv.len() && tv.trans[m as int].contains_key(kk) implies v[tv.trans[m as int][kk] as int] by {
        assert(popped(events).contains(m));
        let t = tv.trans[m as int][kk] as int;
        assert(visited[t]);
        if t != c as int && 0 <= t < visited.len() {
            assert(v[t] == visited[t]);
        }
    }
}

proof fn lemma_enter_shape(
    tv: TrieView,
    st: Seq<Map<u32, usize>>,
    has_sam: bool,
    root: usize,
    start: usize,
    events: Seq<TravelEvent>,
    states: Seq<usize>,
    frames: Seq<Frame>,
    f: Frame,
    g: Frame,
    k: u32,
    c: usize,
)
    requires
        tv.wf(),
        inv_shape(tv, st, has_sam, root, start, events, states),
        frames.len() > 0,
        has_sam ==> f.state == replayed(tv, st, root, start, f.node),
        f.node < c < tv.len(),
        root < c,
        tv.trans[f.node as int].contains_key(k),
        tv.trans[f.node as int][k] == c,
        g.node == c,
        has_sam ==> g.state == sam_step(st, f.state, k),
    ensures
        inv_shape(tv, st, has_sam, root, start, events.push(TravelEvent::Push(c, Some(k))), states.push(g.state)),
{
    reveal(inv_shape);
    if has_sam {
        assert(edge_key(tv, c) == k);
        assert(replayed(tv, st, root, start, c) == sam_step(st, replayed(tv, st, root, start, f.node), k));
    }
    lemma_append_event(tv, st, has_sam, root, start, events, states, TravelEvent::Push(c, Some(k)), g.state);
}

proof fn lemma_dfs_leave(
    tv: TrieView,
    st: Seq<Map<u32, usize>>,
    has_sam: bool,
    root: usize,
    start: usize,
    visited: Seq<bool>,
    events: Seq<TravelEvent>,
    states: Seq<usize>,
    frames: Seq<Frame>,
)
    requires
        tv.wf(),
        frames.len() > 0,
        dfs_inv(tv, st, has_sam, root, start, visited, events, states, frames),
        frames.last().next >= frames.last().children@.len(),
    ensures
        dfs_inv(
            tv,
            st,
            has_sam,
            root,
            start,
            visited,
            events.push(TravelEvent::Pop(frames.last().node)),
            states.push(frames.last().state),
            frames.drop_last(),
        ),
        frames_weight(frames.drop_last()) < frames_weight(frames),
        pushed(events.push(TravelEvent::Pop(frames.last().node))) == pushed(events),
{
    reveal(inv_visit);
    reveal(inv_stack);
    reveal(inv_frames);
    reveal(inv_closed);
    reveal(inv_shape);
    reveal(inv_entries);
    lemma_entries_dfs_append(tv, events, TravelEvent::Pop(frames.last().node));
    let f = frames.last();
    let ev = events.push(TravelEvent::Pop(f.node));
    lemma_frames_pop(frames);
    lemma_events_push(events, TravelEvent::Pop(f.node));
    lemma_push_unique(popped(events), f.node);
    lemma_contains_push(popped(events), f.node);
    lemma_contains_push(frame_nodes(frames.drop_last()), f.node);
    assert(frame_nodes(frames.drop_last()).push(f.node).drop_last() == frame_nodes(frames.drop_last()));
    assert(frame_nodes(frames).last() == f.node);
    assert(stack_after(ev) == Some(frame_nodes(frames.drop_last())));
    assert(frame_ok(tv, st, has_sam, root, start, visited, frames[frames.len() - 1]));
    assert forall|kk: u32| tv.trans[f.node as int].contains_key(kk) implies visited[tv.trans[f.node as int][kk] as int] by {
        let m = choose|m: int| 0 <= m < f.children@.len() && f.children@[m].0 == kk;
    }
    assert forall|j: int| 0 <= j < frames.drop_last().len() implies frame_ok(tv, st, has_sam, root, start, visited, #[trigger] frames.drop_last()[j]) by {
        assert(frames.drop_last()[j] == frames[j]);
    }
    lemma_append_event(tv, st, has_sam, root, start, events, states, TravelEvent::Pop(f.node), f.state);
    let fr = frames.drop_last();
    let v = visited;
    assert(forall|n: usize| n < tv.len() ==> (v[n as int] <==> pushed(ev).contains(n)));
    assert(forall|n: usize| pushed(ev).contains(n) ==> root <= n < tv.len());
    assert(pushed(ev).no_duplicates());
    assert(popped(ev).no_duplicates());
    assert(frame_nodes(fr).no_duplicates());
    assert(forall|n: usize| pushed(ev).contains(n) <==> (popped(ev).contains(n) || frame_nodes(fr).contains(n)));
    assert(forall|n: usize| !(popped(ev).contains(n) && frame_nodes(fr).contains(n)));
    assert(forall|m: usize, k: u32|
        #![trigger popped(ev).contains(m), tv.trans[m as int].contains_key(k)]
        popped(ev).contains(m) && m < tv.len() && tv.trans[m as int].contains_key(k) ==> v[tv.trans[m as int][k] as int]);
}

proof fn lemma_dfs_done(
    tv: TrieView,
    st: Seq<Map<u32, usize>>,
    has_sam: bool,
    root: usize,
    start: usize,
    visited: Seq<bool>,
    events: Seq<TravelEvent>,
    states: Seq<usize>,
    frames: Seq<Frame>,
)
    requires
        tv.wf(),
        frames.len() == 0,
        dfs_inv(tv, st, has_sam, root, start, visited, events, states, frames),
    ensures
        starts_at(events, root),
        stack_after(events) == Some(Seq::<usize>::empty()),
        visits_reachable_once(tv, root, events),
        entries_under_open(tv, events),
        states.len() == events.len(),
        has_sam ==> forall|i: int|
            0 <= i < events.len() ==> #[trigger] states[i] == replayed(tv, st, root, start, event_node(events[i])),
{
    reveal(inv_visit);
    reveal(inv_stack);
    reveal(inv_frames);
    reveal(inv_closed);
    reveal(inv_shape);
    reveal(inv_entries);
    assert(frame_nodes(frames) =~= Seq::<usize>::empty());
    assert(pushed(events).contains(root));
    assert forall|n: usize| pushed(events).contains(n) <==> popped(events).contains(n) by {
        if pushed(events).contains(n) {
            assert(!frame_nodes(frames).contains(n));
        }
    }
    assert forall|m: usize, k: u32|
        #![trigger pushed(events).contains(m), tv.trans[m as int].contains_key(k)]
        pushed(events).contains(m) && m < tv.len() && tv.trans[m as int].contains_key(k) implies pushed(events).contains(
            tv.trans[m as int][k],
        ) by {
        assert(popped(events).contains(m));
        assert(visited[tv.trans[m as int][k] as int]);
    }
    assert forall|w: Seq<u32>| #[trigger] trie_walk(tv.trans, root, w) is Some implies pushed(events).contains(
        trie_walk(tv.trans, root, w)->0,
    ) by {
        lemma_closed_walk(tv, pushed(events), root, w);
    }
}

/// Depth-first traversal from `root`: a node is entered, then each subtree
/// of its children in increasing order of symbol, then the node is left. A
/// node entered before is passed over, which in a trie never happens.
/// With an automaton, each event comes with the state reached by replaying
/// the path from `root` from `start`.
pub(crate) fn dfs_events(trie: &Trie, root: usize, sam: Option<&RawSam>, start: usize) -> (r: (
    Vec<TravelEvent>,
    Vec<usize>,
))
    requires
        trie.wf(),
        root < trie@.len(),
    ensures
        starts_at(r.0@, root),
        stack_after(r.0@) == Some(Seq::<usize>::empty()),
        visits_reachable_once(trie@, root, r.0@),
        entries_under_open(trie@, r.0@),
        r.1@.len() == r.0@.len(),
        sam is Some ==> forall|i: int|
            0 <= i < r.0@.len() ==> #[trigger] r.1@[i] == replayed(
                trie@,
                sam_trans(*sam->0),
                root,
                start,
                event_node(r.0@[i]),
            ),
{
    let ghost tv = trie@;
    let ghost has_sam = sam is Some;
    let ghost st = match sam {
        Some(s) => sam_trans(*s),
        None => Seq::empty(),
    };
    let n_nodes = trie.num_of_nodes();
    let mut visited: Vec<bool> = Vec::new();
    while visited.len() < n_nodes
        invariant
            visited@.len() <= n_nodes,
            forall|i: int| 0 <= i < visited@.len() ==> !visited@[i],
        decreases n_nodes - visited@.len(),
    {
        visited.push(false);
    }
    let first = Frame { node: root, state: start, children: node_children(trie, root), next: 0 };
    proof {
        lemma_dfs_init(tv, st, has_sam, root, start, visited@, first);
    }
    visited.set(root, true);
    let mut events: Vec<TravelEvent> = Vec::new();
    let mut states: Vec<usize> = Vec::new();
    let mut frames: Vec<Frame> = Vec::new();
    events.push(TravelEvent::Push(root, None));
    states.push(start);
    frames.push(first);
    proof {
        assert(events@ == seq![TravelEvent::Push(root, None)]);
        assert(states@ == seq![start]);
        assert(frames@ == seq![first]);

    }
    while frames.len() > 0
        invariant
            tv == trie@,
            tv.wf(),
            n_nodes == tv.len(),
            has_sam == sam is Some,
            sam is Some ==> st == sam_trans(*sam->0),
            visited@.len() == tv.len(),
            pushed(events@).len() <= tv.len(),
            dfs_inv(tv, st, has_sam, root, start, visited@, events@, states@, frames@),
        decreases tv.len() - pushed(events@).len(), frames_weight(frames@),
    {
        proof {
            lemma_dfs_top(tv, st, has_sam, root, start, visited@, events@, states@, frames@);
        }
        let ghost fr0 = frames@;
        let mut f = frames.pop().unwrap();
        proof {
            assert(f == fr0.last());
            assert(frames@ == fr0.drop_last());
        }
        if f.next < f.children.len() {
            let (k, c) = f.children[f.next];
            f.next = f.next + 1;
            let fstate = f.state;
            if visited[c] {
                proof {
                    lemma_dfs_skip(tv, st, has_sam, root, start, visited@, events@, states@, fr0, f);
                }
                frames.push(f);
            } else {
                let cs = match sam {
                    Some(s) => raw_sam_goto(s, fstate, k),
                    None => start,
                };
                let g = Frame { node: c, state: cs, children: node_children(trie, c), next: 0 };
                proof {
                    lemma_dfs_enter(
                        tv,
                        st,
                        has_sam,
                        root,
                        start,
                        visited@,
                        events@,
                        states@,
                        fr0,
                        f,
                        g,
                        k,
                        c,
                        n_nodes,
                    );
                }
                visited.set(c, true);
                events.push(TravelEvent::Push(c, Some(k)));
                states.push(cs);
                frames.push(f);
                frames.push(g);
            }
        } else {
            proof {
                lemma_dfs_leave(tv, st, has_sam, root, start, visited@, events@, states@, fr0);
            }
            events.push(TravelEvent::Pop(f.node));
            states.push(f.state);
        }
    }
    proof {
        lemma_dfs_done(tv, st, has_sam, root, start, visited@, events@, states@, frames@);
    }
    (events, states)
}

} // verus!
