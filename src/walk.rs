//! Facts about event sequences and trie walks shared by both traversals.
use vstd::prelude::*;
use vstd::set_lib::range_set_properties;

use crate::travel::{
    bfs_entry_ok, dfs_entry_ok, entries_from_left, entries_under_open, event_node, popped,
    pushed, replayed, stack_after, starts_at, TravelEvent,
};
use crate::trie::{sorted_entries, trie_walk, Trie, TrieView};

verus! {

pub(crate) proof fn lemma_events_push(ev: Seq<TravelEvent>, e: TravelEvent)
    ensures
        pushed(ev.push(e)) == (match e {
            TravelEvent::Push(n, _) => pushed(ev).push(n),
            TravelEvent::Pop(_) => pushed(ev),
        }),
        popped(ev.push(e)) == (match e {
            TravelEvent::Push(_, _) => popped(ev),
            TravelEvent::Pop(n) => popped(ev).push(n),
        }),
        stack_after(ev.push(e)) == (match stack_after(ev) {
            None => None,
            Some(st) => match e {
                TravelEvent::Push(n, _) => Some(st.push(n)),
                TravelEvent::Pop(n) => if st.len() > 0 && st.last() == n {
                    Some(st.drop_last())
                } else {
                    None
                },
            },
        }),
{
    assert(ev.push(e).drop_last() == ev);
}

pub(crate) proof fn lemma_unique_bounded(p: Seq<usize>, n: usize)
    requires
        p.no_duplicates(),
        forall|i: int| 0 <= i < p.len() ==> p[i] < n,
    ensures
        p.len() <= n,
{
    p.unique_seq_to_set();
    range_set_properties::<usize>(0, n);
    assert(p.to_set().subset_of(Set::<usize>::range(0, n)));
    vstd::set_lib::lemma_len_subset(p.to_set(), Set::<usize>::range(0, n));
}

/// From every node of a set closed under transitions, every walk ends in the set.
pub(crate) proof fn lemma_closed_walk(tv: TrieView, p: Seq<usize>, n: usize, w: Seq<u32>)
    requires
        tv.wf(),
        p.contains(n),
        forall|m: usize, k: u32|
            #![trigger p.contains(m), tv.trans[m as int].contains_key(k)]
            p.contains(m) && m < tv.len() && tv.trans[m as int].contains_key(k) ==> p.contains(
                tv.trans[m as int][k],
            ),
        forall|m: usize| p.contains(m) ==> m < tv.len(),
    ensures
        trie_walk(tv.trans, n, w) is Some ==> p.contains(trie_walk(tv.trans, n, w)->0),
    decreases w.len(),
{
    if w.len() > 0 && n < tv.trans.len() && tv.trans[n as int].contains_key(w[0]) {
        lemma_closed_walk(tv, p, tv.trans[n as int][w[0]], w.drop_first());
    }
}

pub(crate) proof fn lemma_push_unique(s: Seq<usize>, x: usize)
    requires
        s.no_duplicates(),
        !s.contains(x),
    ensures
        s.push(x).no_duplicates(),
{
    assert forall|i: int, j: int| 0 <= i < s.push(x).len() && 0 <= j < s.push(x).len() && i != j implies s.push(x)[i] != s.push(x)[j] by {
        if i < s.len() && j < s.len() {
        } else if i < s.len() {
            assert(s.contains(s[i]));
        } else if j < s.len() {
            assert(s.contains(s[j]));
        }
    }
}

/// The transitions of a node, in increasing order of symbol.
pub(crate) fn node_children(trie: &Trie, n: usize) -> (r: Vec<(u32, usize)>)
    requires
        n < trie@.len(),
    ensures
        sorted_entries(r@, trie@.trans[n as int]),
{
    match trie.get_node(n) {
        Some(node) => node.trans,
        None => Vec::new(),
    }
}

/// Walking one more symbol takes one more transition from where the walk
/// ended.
pub(crate) proof fn lemma_walk_push(trans: Seq<Map<u32, usize>>, cur: usize, w: Seq<u32>, k: u32)
    ensures
        trie_walk(trans, cur, w.push(k)) == (match trie_walk(trans, cur, w) {
            Some(m) => if m < trans.len() && trans[m as int].contains_key(k) {
                Some(trans[m as int][k])
            } else {
                None
            },
            None => None,
        }),
    decreases w.len(),
{
    if w.len() > 0 {
        assert(w.push(k).drop_first() == w.drop_first().push(k));
        assert(w.push(k)[0] == w[0]);
        if cur < trans.len() && trans[cur as int].contains_key(w[0]) {
            lemma_walk_push(trans, trans[cur as int][w[0]], w.drop_first(), k);
        }
    } else {
        assert(w.push(k).drop_first() == Seq::<u32>::empty());
        assert(w.push(k)[0] == k);
        if cur < trans.len() && trans[cur as int].contains_key(k) {
            assert(trie_walk(trans, trans[cur as int][k], Seq::<u32>::empty()) == Some(
                trans[cur as int][k],
            ));
        }
    }
}

/// Which nodes have been entered: those marked visited, each once, each
/// reachable from the root.
#[verifier::opaque]
pub(crate) open spec fn inv_visit(tv: TrieView, root: usize, visited: Seq<bool>, events: Seq<TravelEvent>) -> bool {
    &&& root < tv.len()
    &&& visited.len() == tv.len()
    &&& visited[root as int]
    &&& forall|n: usize| n < tv.len() ==> (visited[n as int] <==> pushed(events).contains(n))
    &&& forall|n: usize| pushed(events).contains(n) ==> root <= n < tv.len()
    &&& forall|n: usize|
        pushed(events).contains(n) ==> exists|w: Seq<u32>| trie_walk(tv.trans, root, w) == Some(n)
    &&& pushed(events).no_duplicates()
    &&& pushed(events).len() <= tv.len()
}

#[verifier::opaque]
pub(crate) open spec fn inv_shape(
    tv: TrieView,
    st: Seq<Map<u32, usize>>,
    has_sam: bool,
    root: usize,
    start: usize,
    events: Seq<TravelEvent>,
    states: Seq<usize>,
) -> bool {
    &&& starts_at(events, root)
    &&& states.len() == events.len()
    &&& has_sam ==> forall|i: int|
        0 <= i < events.len() ==> #[trigger] states[i] == replayed(tv, st, root, start, event_node(events[i]))
}

pub(crate) proof fn lemma_contains_push(s: Seq<usize>, x: usize)
    ensures
        forall|n: usize| s.push(x).contains(n) <==> (s.contains(n) || n == x),
{
    assert forall|n: usize| s.push(x).contains(n) <==> (s.contains(n) || n == x) by {
        if s.contains(n) {
            let i = choose|i: int| 0 <= i < s.len() && s[i] == n;
            assert(s.push(x)[i] == n);
        }
        if n == x {
            assert(s.push(x)[s.len() as int] == x);
        }
        if s.push(x).contains(n) {
            let i = choose|i: int| 0 <= i < s.push(x).len() && s.push(x)[i] == n;
            if i < s.len() {
                assert(s[i] == n);
            }
        }
    }
}

pub(crate) proof fn lemma_enter_pushed(
    tv: TrieView,
    root: usize,
    visited: Seq<bool>,
    events: Seq<TravelEvent>,
    fnode: usize,
    k: u32,
    c: usize,
    n_nodes: usize,
)
    requires
        tv.wf(),
        n_nodes == tv.len(),
        visited.len() == tv.len(),
        forall|n: usize| n < tv.len() ==> (visited[n as int] <==> pushed(events).contains(n)),
        forall|n: usize| pushed(events).contains(n) ==> root <= n < tv.len(),
        forall|n: usize|
            pushed(events).contains(n) ==> exists|w: Seq<u32>| trie_walk(tv.trans, root, w) == Some(n),
        pushed(events).no_duplicates(),
        pushed(events).contains(fnode),
        tv.trans[fnode as int].contains_key(k),
        tv.trans[fnode as int][k] == c,
        !visited[c as int],
    ensures
        ({
            let ev = events.push(TravelEvent::Push(c, Some(k)));
            let v = visited.update(c as int, true);
            &&& pushed(ev) == pushed(events).push(c)
            &&& popped(ev) == popped(events)
            &&& forall|n: usize| n < tv.len() ==> (v[n as int] <==> pushed(ev).contains(n))
            &&& forall|n: usize| pushed(ev).contains(n) ==> root <= n < tv.len()
            &&& forall|n: usize|
                pushed(ev).contains(n) ==> exists|w: Seq<u32>| trie_walk(tv.trans, root, w) == Some(n)
            &&& pushed(ev).no_duplicates()
            &&& pushed(ev).len() <= tv.len()
            &&& fnode < c < tv.len()
            &&& root < c
            &&& !pushed(events).contains(c)
        }),
{
    let ev = events.push(TravelEvent::Push(c, Some(k)));
    lemma_events_push(events, TravelEvent::Push(c, Some(k)));
    lemma_contains_push(pushed(events), c);
    assert(!pushed(events).contains(c));
    lemma_push_unique(pushed(events), c);
    let w = choose|w: Seq<u32>| trie_walk(tv.trans, root, w) == Some(fnode);
    lemma_walk_push(tv.trans, root, w, k);
    assert(trie_walk(tv.trans, root, w.push(k)) == Some(c));
    assert forall|n: usize| pushed(ev).contains(n) implies root <= n < tv.len() && exists|w: Seq<u32>|
        trie_walk(tv.trans, root, w) == Some(n) by {
        if n == c {
            assert(trie_walk(tv.trans, root, w.push(k)) == Some(n));
        } else {
            assert(pushed(events).contains(n));
        }
    }
    assert forall|i: int| 0 <= i < pushed(ev).len() implies pushed(ev)[i] < n_nodes by {
        assert(pushed(ev).contains(pushed(ev)[i]));
    }
    lemma_unique_bounded(pushed(ev), n_nodes);
}

/// Appending an event that is not a root entry, with its state, keeps the
/// shape of the event sequence and the replayed states.
pub(crate) proof fn lemma_append_event(
    tv: TrieView,
    st: Seq<Map<u32, usize>>,
    has_sam: bool,
    root: usize,
    start: usize,
    events: Seq<TravelEvent>,
    states: Seq<usize>,
    e: TravelEvent,
    s: usize,
)
    requires
        starts_at(events, root),
        states.len() == events.len(),
        has_sam ==> forall|i: int|
            0 <= i < events.len() ==> #[trigger] states[i] == replayed(tv, st, root, start, event_node(events[i])),
        match e {
            TravelEvent::Push(_, key) => key is Some,
            TravelEvent::Pop(_) => true,
        },
        has_sam ==> s == replayed(tv, st, root, start, event_node(e)),
    ensures
        starts_at(events.push(e), root),
        states.push(s).len() == events.push(e).len(),
        has_sam ==> forall|i: int|
            0 <= i < events.push(e).len() ==> #[trigger] states.push(s)[i] == replayed(tv, st, root, start, event_node(events.push(e)[i])),
{
    let ev = events.push(e);
    assert forall|i: int| 1 <= i < ev.len() implies match #[trigger] ev[i] {
        TravelEvent::Push(_, key) => key is Some,
        TravelEvent::Pop(_) => true,
    } by {
        if i < events.len() {
            assert(ev[i] == events[i]);
        }
    }
    if has_sam {
        assert forall|i: int| 0 <= i < ev.len() implies #[trigger] states.push(s)[i] == replayed(
            tv,
            st,
            root,
            start,
            event_node(ev[i]),
        ) by {
            if i < events.len() {
                assert(ev[i] == events[i]);
            }
        }
    }
}

pub(crate) proof fn lemma_entries_dfs_append(tv: TrieView, ev: Seq<TravelEvent>, e: TravelEvent)
    requires
        entries_under_open(tv, ev),
        match e {
            TravelEvent::Push(c, Some(k)) => match stack_after(ev) {
                Some(st) => {
                    &&& st.len() > 0
                    &&& st.last() < tv.len()
                    &&& tv.trans[st.last() as int].contains_key(k)
                    &&& tv.trans[st.last() as int][k] == c
                },
                None => false,
            },
            TravelEvent::Push(_, None) => false,
            TravelEvent::Pop(_) => true,
        },
    ensures
        entries_under_open(tv, ev.push(e)),
{
    let ev2 = ev.push(e);
    assert forall|i: int| 1 <= i < ev2.len() implies #[trigger] dfs_entry_ok(tv, ev2, i) by {
        if i < ev.len() {
            assert(ev2.take(i) == ev.take(i));
            assert(ev2[i] == ev[i]);
            assert(dfs_entry_ok(tv, ev, i));
        } else {
            assert(ev2.take(i) == ev);
        }
    }
}

pub(crate) proof fn lemma_entries_bfs_append(tv: TrieView, ev: Seq<TravelEvent>, e: TravelEvent)
    requires
        entries_from_left(tv, ev),
        match e {
            TravelEvent::Push(c, Some(k)) => {
                &&& c < tv.len()
                &&& tv.parents[c as int] < tv.len()
                &&& tv.trans[tv.parents[c as int] as int].contains_key(k)
                &&& tv.trans[tv.parents[c as int] as int][k] == c
                &&& popped(ev).contains(tv.parents[c as int])
            },
            TravelEvent::Push(_, None) => false,
            TravelEvent::Pop(_) => true,
        },
    ensures
        entries_from_left(tv, ev.push(e)),
{
    let ev2 = ev.push(e);
    assert forall|i: int| 1 <= i < ev2.len() implies #[trigger] bfs_entry_ok(tv, ev2, i) by {
        if i < ev.len() {
            assert(ev2.take(i) == ev.take(i));
            assert(ev2[i] == ev[i]);
            assert(bfs_entry_ok(tv, ev, i));
        } else {
            assert(ev2.take(i) == ev);
        }
    }
}

pub(crate) proof fn lemma_entries_single(tv: TrieView, root: usize)
    ensures
        entries_under_open(tv, seq![TravelEvent::Push(root, None)]),
        entries_from_left(tv, seq![TravelEvent::Push(root, None)]),
{
}

} // verus!
