//! The generalized suffix automaton, held by general_sam and seen here as
//! a sequence of states with lengths, suffix links, accepting marks and
//! transitions; and the cursor that moves on it.

use std::collections::BTreeMap;
use std::sync::Arc;

use vstd::prelude::*;

use crate::symbols::{
    byte_codes, byte_codes_of, bytes_symbols, bytes_symbols_of, char_codes, char_codes_of,
    text_symbols, text_symbols_of, SymbolError, SymbolKind,
};
use crate::trie::{raw_trie_view, sorted_entries, trie_walk, RawTrie, Trie, TrieView, TRIE_ROOT_NODE_ID};

verus! {

/// The id that stands for "no state": where a missing transition leads.
pub const SAM_NIL_NODE_ID: usize = 0;

/// The id of the root state, which stands for the empty sequence.
pub const SAM_ROOT_NODE_ID: usize = 1;

/// The suffix automaton of general_sam, keyed by symbol codes. Verus sees it
/// only through the names below.
#[verifier::external_body]
pub struct RawSam {
    pub(crate) inner: Arc<general_sam::GeneralSam<BTreeMap<u32, usize>>>,
}

/// The length of the longest sequence of each state, by state id.
pub uninterp spec fn sam_lens(s: RawSam) -> Seq<usize>;

/// The suffix link of each state, by state id.
pub uninterp spec fn sam_links(s: RawSam) -> Seq<usize>;

/// Whether each state is accepting, by state id.
pub uninterp spec fn sam_accepts(s: RawSam) -> Seq<bool>;

/// The outgoing transitions of each state, by state id.
pub uninterp spec fn sam_trans(s: RawSam) -> Seq<Map<u32, usize>>;

/// The states in topological order, sorted by length.
pub uninterp spec fn sam_order(s: RawSam) -> Seq<usize>;

/// An automaton as plain values: one entry per state in each of the first
/// four sequences.
pub ghost struct SamView {
    pub lens: Seq<usize>,
    pub links: Seq<usize>,
    pub accepts: Seq<bool>,
    pub trans: Seq<Map<u32, usize>>,
    pub order: Seq<usize>,
}

pub open spec fn raw_sam_view(s: RawSam) -> SamView {
    SamView {
        lens: sam_lens(s),
        links: sam_links(s),
        accepts: sam_accepts(s),
        trans: sam_trans(s),
        order: sam_order(s),
    }
}

impl SamView {
    pub open spec fn len(self) -> nat {
        self.lens.len()
    }

    /// The nil state has no transitions; the root stands for the empty
    /// sequence; every other state has a suffix link to a state of smaller
    /// length; transitions and the order stay among the states, and the
    /// order is topological and sorted by length.
    pub open spec fn wf(self) -> bool {
        &&& self.len() >= 2
        &&& self.links.len() == self.len()
        &&& self.accepts.len() == self.len()
        &&& self.trans.len() == self.len()
        &&& self.trans[SAM_NIL_NODE_ID as int] == Map::<u32, usize>::empty()
        &&& !self.accepts[SAM_NIL_NODE_ID as int]
        &&& self.lens[SAM_ROOT_NODE_ID as int] == 0
        &&& self.links[SAM_ROOT_NODE_ID as int] == SAM_NIL_NODE_ID
        &&& self.links[SAM_NIL_NODE_ID as int] == SAM_NIL_NODE_ID
        &&& forall|v: int|
            #![trigger self.links[v]]
            2 <= v < self.len() ==> {
                &&& 1 <= self.links[v] < self.len()
                &&& self.lens[self.links[v] as int] < self.lens[v]
            }
        &&& forall|n: int, k: u32|
            #![trigger self.trans[n].contains_key(k)]
            0 <= n < self.len() && self.trans[n].contains_key(k) ==> 2 <= self.trans[n][k] < self.len()
        &&& forall|i: int| 0 <= i < self.order.len() ==> #[trigger] self.order[i] < self.len()
        &&& self.topo_and_len_sorted()
    }

    /// The order starts at the root, holds each state but nil exactly once,
    /// puts every transition's target after its source, and never decreases
    /// in length.
    pub open spec fn topo_and_len_sorted(self) -> bool {
        &&& self.order.len() > 0
        &&& self.order[0] == SAM_ROOT_NODE_ID
        &&& self.order.no_duplicates()
        &&& forall|i: int| 0 <= i < self.order.len() ==> #[trigger] self.order[i] != SAM_NIL_NODE_ID
        &&& forall|v: usize| 1 <= v < self.len() ==> #[trigger] self.order.contains(v)
        &&& forall|i: int, k: u32|
            #![trigger self.trans[self.order[i] as int].contains_key(k)]
            0 <= i < self.order.len() && self.trans[self.order[i] as int].contains_key(k) ==> exists|j: int|
                i < j < self.order.len() && self.order[j] == self.trans[self.order[i] as int][k]
        &&& forall|i: int, j: int|
            0 <= i < j < self.order.len() ==> self.lens[self.order[i] as int] <= self.lens[self.order[j] as int]
    }
}

/// One transition: where `x` leads from `cur`, or nil.
pub open spec fn sam_step(trans: Seq<Map<u32, usize>>, cur: usize, x: u32) -> usize {
    if cur < trans.len() && trans[cur as int].contains_key(x) {
        trans[cur as int][x]
    } else {
        SAM_NIL_NODE_ID
    }
}

/// The state reached from `cur` by one transition per symbol of `s`.
pub open spec fn sam_walk(trans: Seq<Map<u32, usize>>, cur: usize, s: Seq<u32>) -> usize
    decreases s.len(),
{
    if s.len() == 0 {
        cur
    } else {
        sam_step(trans, sam_walk(trans, cur, s.drop_last()), s.last())
    }
}

/// `q` occurs in `w` as a contiguous run.
pub open spec fn is_substring(q: Seq<u32>, w: Seq<u32>) -> bool {
    exists|i: int, j: int| 0 <= i <= j <= w.len() && w.subrange(i, j) == q
}

/// `q` occurs in some sequence of the corpus.
pub open spec fn in_corpus(corpus: Set<Seq<u32>>, q: Seq<u32>) -> bool {
    exists|w: Seq<u32>| corpus.contains(w) && is_substring(q, w)
}

/// From the root, a sequence avoids nil exactly when it occurs in the corpus.
pub open spec fn recognizes_substrings(v: SamView, corpus: Set<Seq<u32>>) -> bool {
    forall|q: Seq<u32>|
        (#[trigger] sam_walk(v.trans, SAM_ROOT_NODE_ID, q) != SAM_NIL_NODE_ID) <==> in_corpus(
            corpus,
            q,
        )
}

/// `q` ends `w`.
pub open spec fn is_suffix(q: Seq<u32>, w: Seq<u32>) -> bool {
    q.len() <= w.len() && w.subrange(w.len() - q.len(), w.len() as int) == q
}

/// From the root, a sequence ends on an accepting state exactly when it ends
/// one of the accepted sequences; the empty sequence only where the empty
/// sequence itself is accepted.
pub open spec fn accepts_suffixes(v: SamView, accepted: Set<Seq<u32>>) -> bool {
    forall|q: Seq<u32>|
        #![trigger sam_walk(v.trans, SAM_ROOT_NODE_ID, q)]
        ({
            let n = sam_walk(v.trans, SAM_ROOT_NODE_ID, q);
            n < v.len() && v.accepts[n as int]
        }) <==> exists|w: Seq<u32>|
            accepted.contains(w) && is_suffix(q, w) && (q.len() > 0 || w.len() == 0)
}

/// The sequences that lead from the root of a trie to an accepting node.
pub open spec fn trie_words(t: TrieView) -> Set<Seq<u32>> {
    Set::new(
        |w: Seq<u32>|
            trie_walk(t.trans, TRIE_ROOT_NODE_ID, w) is Some && t.accepts[trie_walk(
                t.trans,
                TRIE_ROOT_NODE_ID,
                w,
            )->0 as int],
    )
}

/// A nonempty sequence that leads from the root to a state other than nil is
/// no longer than the state's longest sequence and longer than that of its
/// suffix link.
pub open spec fn walk_lengths(v: SamView) -> bool {
    forall|q: Seq<u32>|
        #![trigger sam_walk(v.trans, SAM_ROOT_NODE_ID, q)]
        q.len() > 0 && sam_walk(v.trans, SAM_ROOT_NODE_ID, q) != SAM_NIL_NODE_ID ==> {
            let n = sam_walk(v.trans, SAM_ROOT_NODE_ID, q) as int;
            &&& n < v.len()
            &&& v.lens[v.links[n] as int] < q.len() <= v.lens[n]
        }
}

/// The sequences that lead from the root of a trie to some node.
pub open spec fn trie_paths(t: TrieView) -> Set<Seq<u32>> {
    Set::new(|w: Seq<u32>| trie_walk(t.trans, TRIE_ROOT_NODE_ID, w) is Some)
}

/// Relies on general_sam::GeneralSam::from_utf32: the suffix automaton of
/// one sequence, whose accepting states are those of its suffixes, with the
/// state order that get_topo_and_suf_len_sorted_node_ids documents; each
/// symbol's extend step adds a state and at most one clone.
#[verifier::external_body]
fn raw_sam_from_codes(s: &Vec<u32>) -> (r: RawSam)
    ensures
        raw_sam_view(r).wf(),
        recognizes_substrings(raw_sam_view(r), set![s@]),
        accepts_suffixes(raw_sam_view(r), set![s@]),
        walk_lengths(raw_sam_view(r)),
        raw_sam_view(r).len() <= 2 * s@.len() + 2,
{
    RawSam { inner: Arc::new(general_sam::GeneralSam::from_utf32(s)) }
}

/// Relies on general_sam::GeneralSam::from_trie: the suffix automaton of
/// every path of the trie, built breadth first, whose accepting states are
/// those of the suffixes of the trie's accepted sequences, with the state
/// order that get_topo_and_suf_len_sorted_node_ids documents; each trie
/// edge's extend step adds a state and at most one clone.
#[verifier::external_body]
fn raw_sam_from_trie(t: &RawTrie) -> (r: RawSam)
    requires
        raw_trie_view(*t).wf(),
    ensures
        raw_sam_view(r).wf(),
        recognizes_substrings(raw_sam_view(r), trie_paths(raw_trie_view(*t))),
        accepts_suffixes(raw_sam_view(r), trie_words(raw_trie_view(*t))),
        walk_lengths(raw_sam_view(r)),
        raw_sam_view(r).len() <= 2 * raw_trie_view(*t).len(),
{
    RawSam { inner: Arc::new(general_sam::GeneralSam::from_trie(t.inner.get_root_state())) }
}

/// Relies on general_sam::GeneralSam::num_of_nodes: the number of states.
#[verifier::external_body]
fn raw_sam_num_of_nodes(s: &RawSam) -> (r: usize)
    ensures
        r == sam_lens(*s).len(),
{
    s.inner.num_of_nodes()
}

/// Relies on general_sam::GeneralSamState::goto: the target of the
/// transition, nil where the state or the transition does not exist.
#[verifier::external_body]
pub(crate) fn raw_sam_goto(s: &RawSam, id: usize, x: u32) -> (r: usize)
    ensures
        r == sam_step(sam_trans(*s), id, x),
{
    let mut state = general_sam::GeneralSamState::new(&*s.inner, id);
    state.goto(&x);
    state.node_id
}

/// Relies on general_sam::GeneralSam::get_node: a state exists for each id
/// below the number of states; its transitions come out of a BTreeMap in
/// key order.
#[verifier::external_body]
fn raw_sam_node(s: &RawSam, id: usize) -> (r: Option<(bool, usize, Vec<(u32, usize)>)>)
    ensures
        r is Some <==> id < sam_lens(*s).len(),
        r is Some ==> {
            let (accept, link, trans) = r->0;
            &&& accept == sam_accepts(*s)[id as int]
            &&& link == sam_links(*s)[id as int]
            &&& sorted_entries(trans@, sam_trans(*s)[id as int])
        },
{
    s.inner.get_node(id).map(|n| {
        (
            n.is_accepting(),
            n.get_suffix_parent_id(),
            n.get_trans().iter().map(|(k, v)| (*k, *v)).collect(),
        )
    })
}

/// Relies on general_sam::GeneralSam::get_topo_and_suf_len_sorted_node_ids:
/// the order computed at construction, documented there as topologically
/// sorted and sorted by maximum suffix length.
#[verifier::external_body]
fn raw_sam_order(s: &RawSam) -> (r: Vec<usize>)
    ensures
        r@ == sam_order(*s),
{
    s.inner.get_topo_and_suf_len_sorted_node_ids().clone()
}

/// Relies on std::sync::Arc::clone: a second handle on the same automaton.
#[verifier::external_body]
pub(crate) fn share(s: &RawSam) -> (r: RawSam)
    ensures
        raw_sam_view(r) == raw_sam_view(*s),
{
    RawSam { inner: Arc::clone(&s.inner) }
}

/// A walk that is nil after a prefix is nil at the end.
pub proof fn lemma_walk_stays_nil(v: SamView, cur: usize, s: Seq<u32>, i: int)
    requires
        v.wf(),
        0 <= i <= s.len(),
        sam_walk(v.trans, cur, s.take(i)) == SAM_NIL_NODE_ID,
    ensures
        sam_walk(v.trans, cur, s) == SAM_NIL_NODE_ID,
    decreases s.len() - i,
{
    if i < s.len() {
        assert(s.take(i + 1).drop_last() == s.take(i));
        assert(!v.trans[SAM_NIL_NODE_ID as int].contains_key(s.take(i + 1).last()));
        lemma_walk_stays_nil(v, cur, s, i + 1);
    } else {
        assert(s.take(i) == s);
    }
}

/// The state reached by following suffix links `k` times from `v`.
pub open spec fn suffix_ancestor(sv: SamView, v: usize, k: nat) -> usize
    decreases k,
{
    if k == 0 {
        v
    } else {
        let u = suffix_ancestor(sv, v, (k - 1) as nat);
        if u < sv.len() {
            sv.links[u as int]
        } else {
            SAM_NIL_NODE_ID
        }
    }
}

/// Every non-root state has a suffix link to a state of smaller length, and
/// following suffix links from any state reaches the root in at most as many
/// steps as the state's length.
pub proof fn lemma_suffix_links_reach_root(sv: SamView, v: usize)
    requires
        sv.wf(),
        1 <= v < sv.len(),
    ensures
        v != SAM_ROOT_NODE_ID ==> sv.lens[sv.links[v as int] as int] < sv.lens[v as int],
        exists|k: nat| k <= sv.lens[v as int] && suffix_ancestor(sv, v, k) == SAM_ROOT_NODE_ID,
    decreases sv.lens[v as int],
{
    if v == SAM_ROOT_NODE_ID {
        assert(suffix_ancestor(sv, v, 0) == SAM_ROOT_NODE_ID);
    } else {
        let u = sv.links[v as int];
        lemma_suffix_links_reach_root(sv, u);
        let k = choose|k: nat| k <= sv.lens[u as int] && suffix_ancestor(sv, u, k) == SAM_ROOT_NODE_ID;
        lemma_suffix_ancestor_shift(sv, v, k);
        assert(suffix_ancestor(sv, v, k + 1) == SAM_ROOT_NODE_ID);
    }
}

/// Taking one suffix link first and then `k` more is taking `k + 1`.
pub proof fn lemma_suffix_ancestor_shift(sv: SamView, v: usize, k: nat)
    requires
        sv.wf(),
        v < sv.len(),
    ensures
        suffix_ancestor(sv, v, k + 1) == suffix_ancestor(sv, sv.links[v as int], k),
    decreases k,
{
    let w = sv.links[v as int];
    if k > 0 {
        lemma_suffix_ancestor_shift(sv, v, (k - 1) as nat);
        let u = suffix_ancestor(sv, w, (k - 1) as nat);
        assert(suffix_ancestor(sv, v, k) == u);
        assert(suffix_ancestor(sv, w, k) == if u < sv.len() {
            sv.links[u as int]
        } else {
            SAM_NIL_NODE_ID
        });
        assert(suffix_ancestor(sv, v, k + 1) == if u < sv.len() {
            sv.links[u as int]
        } else {
            SAM_NIL_NODE_ID
        });
    } else {
        assert(suffix_ancestor(sv, v, 0) == v);
        assert(suffix_ancestor(sv, v, 1) == w);
    }
}

/// A suffix automaton over one alphabet, shared by the states taken from it.
pub struct GeneralSam {
    pub(crate) kind: SymbolKind,
    pub(crate) raw: RawSam,
    pub(crate) corpus: Ghost<Set<Seq<u32>>>,
    pub(crate) accepted: Ghost<Set<Seq<u32>>>,
}

impl View for GeneralSam {
    type V = SamView;

    open(crate) spec fn view(&self) -> SamView {
        raw_sam_view(self.raw)
    }
}

/// A cursor on one state of an automaton.
pub struct GeneralSamState {
    pub(crate) kind: SymbolKind,
    pub(crate) sam: RawSam,
    pub(crate) node_id: usize,
}

impl View for GeneralSamState {
    type V = SamView;

    /// The automaton that the cursor moves on.
    open(crate) spec fn view(&self) -> SamView {
        raw_sam_view(self.sam)
    }
}

/// Substring correctness: feeding a sequence from the root of an automaton
/// avoids nil exactly when the sequence occurs in the automaton's corpus.
pub proof fn lemma_substring_correctness(sam: &GeneralSam, q: Seq<u32>)
    requires
        sam.wf(),
    ensures
        (sam_walk(sam@.trans, SAM_ROOT_NODE_ID, q) != SAM_NIL_NODE_ID) <==> in_corpus(
            sam.spec_corpus(),
            q,
        ),
{
}

/// Suffix-link monotonicity: every state but the root links to a state of
/// smaller length, and suffix links lead from every state to the root in at
/// most as many steps as its length.
pub proof fn lemma_suffix_link_monotonicity(sam: &GeneralSam, v: usize)
    requires
        sam.wf(),
        1 <= v < sam@.len(),
    ensures
        v != SAM_ROOT_NODE_ID ==> sam@.lens[sam@.links[v as int] as int] < sam@.lens[v as int],
        exists|k: nat|
            k <= sam@.lens[v as int] && suffix_ancestor(sam@, v, k) == SAM_ROOT_NODE_ID,
{
    lemma_suffix_links_reach_root(sam@, v);
}

/// In the state order, the suffix link of every state but the root comes
/// before the state.
pub proof fn lemma_link_before_state(sam: &GeneralSam, i: int)
    requires
        sam.wf(),
        0 <= i < sam@.order.len(),
        sam@.order[i] != SAM_ROOT_NODE_ID,
    ensures
        exists|j: int| 0 <= j < i && sam@.order[j] == sam@.links[sam@.order[i] as int],
{
    let sv = sam@;
    let v = sv.order[i];
    assert(v != SAM_NIL_NODE_ID);
    let u = sv.links[v as int];
    assert(1 <= u < sv.len() && sv.lens[u as int] < sv.lens[v as int]);
    assert(sv.order.contains(u));
    let j = choose|j: int| 0 <= j < sv.order.len() && sv.order[j] == u;
    if j >= i {
        assert(sv.lens[sv.order[i] as int] <= sv.lens[sv.order[j] as int]);
    }
}

impl GeneralSam {
    pub open(crate) spec fn spec_kind(&self) -> SymbolKind {
        self.kind
    }

    /// The sequences whose substrings the automaton recognizes.
    pub open(crate) spec fn spec_corpus(&self) -> Set<Seq<u32>> {
        self.corpus@
    }

    /// The sequences whose suffixes the automaton accepts.
    pub open(crate) spec fn spec_accepted(&self) -> Set<Seq<u32>> {
        self.accepted@
    }

    pub open spec fn wf(&self) -> bool {
        &&& self@.wf()
        &&& recognizes_substrings(self@, self.spec_corpus())
        &&& accepts_suffixes(self@, self.spec_accepted())
        &&& walk_lengths(self@)
    }

    /// A second handle on the same automaton.
    pub fn share(&self) -> (r: Self)
        ensures
            r@ == self@,
            r.spec_kind() == self.spec_kind(),
            r.spec_corpus() == self.spec_corpus(),
            r.spec_accepted() == self.spec_accepted(),
    {
        GeneralSam {
            kind: self.kind,
            raw: share(&self.raw),
            corpus: Ghost(self.corpus@),
            accepted: Ghost(self.accepted@),
        }
    }

    /// The automaton of the characters of a text.
    pub fn from_chars(s: &str) -> (r: Self)
        ensures
            r.wf(),
            r.spec_kind() == SymbolKind::Chars,
            r.spec_corpus() == set![char_codes(s@)],
            r.spec_accepted() == set![char_codes(s@)],
            r@.len() <= 2 * s@.len() + 2,
    {
        let codes = char_codes_of(s);
        let ghost corpus = set![codes@];
        GeneralSam {
            kind: SymbolKind::Chars,
            raw: raw_sam_from_codes(&codes),
            corpus: Ghost(corpus),
            accepted: Ghost(corpus),
        }
    }

    /// The automaton of a run of bytes.
    pub fn from_bytes(b: &[u8]) -> (r: Self)
        ensures
            r.wf(),
            r.spec_kind() == SymbolKind::Bytes,
            r.spec_corpus() == set![byte_codes(b@)],
            r.spec_accepted() == set![byte_codes(b@)],
            r@.len() <= 2 * b@.len() + 2,
    {
        let codes = byte_codes_of(b);
        let ghost corpus = set![codes@];
        GeneralSam {
            kind: SymbolKind::Bytes,
            raw: raw_sam_from_codes(&codes),
            corpus: Ghost(corpus),
            accepted: Ghost(corpus),
        }
    }

    /// The automaton of every path of a trie, over the trie's alphabet.
    pub fn from_trie(trie: &Trie) -> (r: Self)
        requires
            trie.wf(),
        ensures
            r.wf(),
            r.spec_kind() == trie.spec_kind(),
            r.spec_corpus() == trie_paths(trie@),
            r.spec_accepted() == trie_words(trie@),
            r@.len() <= 2 * trie@.len(),
    {
        let ghost corpus = trie_paths(trie@);
        let ghost accepted = trie_words(trie@);
        GeneralSam {
            kind: trie.kind,
            raw: raw_sam_from_trie(&trie.raw),
            corpus: Ghost(corpus),
            accepted: Ghost(accepted),
        }
    }

    pub fn is_in_chars(&self) -> (r: bool)
        ensures
            r == (self.spec_kind() == SymbolKind::Chars),
    {
        self.kind == SymbolKind::Chars
    }

    pub fn is_in_bytes(&self) -> (r: bool)
        ensures
            r == (self.spec_kind() == SymbolKind::Bytes),
    {
        self.kind == SymbolKind::Bytes
    }

    pub fn num_of_nodes(&self) -> (r: usize)
        ensures
            r == self@.len(),
    {
        raw_sam_num_of_nodes(&self.raw)
    }

    /// A cursor on the state with the given id; an id without a state gives a
    /// cursor on which every move leads to nil.
    pub fn get_state(&self, node_id: usize) -> (r: GeneralSamState)
        ensures
            r@ == self@,
            r.spec_kind() == self.spec_kind(),
            r.spec_node_id() == node_id,
    {
        GeneralSamState { kind: self.kind, sam: share(&self.raw), node_id }
    }

    /// A cursor on the root.
    pub fn get_root_state(&self) -> (r: GeneralSamState)
        ensures
            r@ == self@,
            r.spec_kind() == self.spec_kind(),
            r.spec_node_id() == SAM_ROOT_NODE_ID,
    {
        self.get_state(SAM_ROOT_NODE_ID)
    }

    /// Cursors on all states in topological order, sorted by length.
    pub fn get_topo_and_suf_len_sorted_states(&self) -> (r: Vec<GeneralSamState>)
        ensures
            r@.len() == self@.order.len(),
            forall|i: int|
                0 <= i < r@.len() ==> {
                    &&& (#[trigger] r@[i])@ == self@
                    &&& r@[i].spec_kind() == self.spec_kind()
                    &&& r@[i].spec_node_id() == self@.order[i]
                },
    {
        let order = raw_sam_order(&self.raw);
        let mut r: Vec<GeneralSamState> = Vec::new();
        let mut i: usize = 0;
        while i < order.len()
            invariant
                i <= order@.len(),
                order@ == self@.order,
                r@.len() == i,
                forall|j: int|
                    0 <= j < i ==> {
                        &&& (#[trigger] r@[j])@ == self@
                        &&& r@[j].spec_kind() == self.spec_kind()
                        &&& r@[j].spec_node_id() == self@.order[j]
                    },
            decreases order@.len() - i,
        {
            r.push(self.get_state(order[i]));
            i = i + 1;
        }
        r
    }
}

impl GeneralSamState {
    pub open(crate) spec fn spec_kind(&self) -> SymbolKind {
        self.kind
    }

    pub open(crate) spec fn spec_node_id(&self) -> usize {
        self.node_id
    }

    pub fn is_in_chars(&self) -> (r: bool)
        ensures
            r == (self.spec_kind() == SymbolKind::Chars),
    {
        self.kind == SymbolKind::Chars
    }

    pub fn is_in_bytes(&self) -> (r: bool)
        ensures
            r == (self.spec_kind() == SymbolKind::Bytes),
    {
        self.kind == SymbolKind::Bytes
    }

    pub fn get_node_id(&self) -> (r: usize)
        ensures
            r == self.spec_node_id(),
    {
        self.node_id
    }

    pub fn is_nil(&self) -> (r: bool)
        ensures
            r == (self.spec_node_id() == SAM_NIL_NODE_ID),
    {
        self.node_id == SAM_NIL_NODE_ID
    }

    pub fn is_root(&self) -> (r: bool)
        ensures
            r == (self.spec_node_id() == SAM_ROOT_NODE_ID),
    {
        self.node_id == SAM_ROOT_NODE_ID
    }

    /// Whether the state exists and is accepting.
    pub fn is_accepting(&self) -> (r: bool)
        ensures
            r == (self.spec_node_id() < self@.len() && self@.accepts[self.spec_node_id() as int]),
    {
        match raw_sam_node(&self.sam, self.node_id) {
            Some((accept, _, _)) => accept,
            None => false,
        }
    }

    /// The transitions of the state by symbol code, in increasing order; none
    /// where the state does not exist.
    pub fn get_trans(&self) -> (r: Vec<(u32, usize)>)
        ensures
            self.spec_node_id() < self@.len() ==> sorted_entries(
                r@,
                self@.trans[self.spec_node_id() as int],
            ),
            self.spec_node_id() >= self@.len() ==> r@.len() == 0,
    {
        match raw_sam_node(&self.sam, self.node_id) {
            Some((_, _, trans)) => trans,
            None => Vec::new(),
        }
    }

    /// The suffix link of the state; nil at the root, at nil and where the
    /// state does not exist.
    pub fn get_suffix_parent_id(&self) -> (r: usize)
        ensures
            r == (if self.spec_node_id() < self@.len() {
                self@.links[self.spec_node_id() as int]
            } else {
                SAM_NIL_NODE_ID
            }),
            self@.wf() && (self.spec_node_id() == SAM_NIL_NODE_ID || self.spec_node_id()
                == SAM_ROOT_NODE_ID) ==> r == SAM_NIL_NODE_ID,
    {
        match raw_sam_node(&self.sam, self.node_id) {
            Some((_, link, _)) => link,
            None => SAM_NIL_NODE_ID,
        }
    }

    /// A second cursor on the same state.
    pub fn copy(&self) -> (r: Self)
        ensures
            r@ == self@,
            r.spec_kind() == self.spec_kind(),
            r.spec_node_id() == self.spec_node_id(),
    {
        GeneralSamState { kind: self.kind, sam: share(&self.sam), node_id: self.node_id }
    }

    /// Moves along the suffix link: a nil cursor stays nil, the root moves
    /// to nil, and so does a cursor whose state does not exist.
    pub fn goto_suffix_parent(&mut self)
        ensures
            old(self)@.wf() && (old(self).spec_node_id() == SAM_NIL_NODE_ID
                || old(self).spec_node_id() == SAM_ROOT_NODE_ID) ==> final(self).spec_node_id()
                == SAM_NIL_NODE_ID,
            final(self)@ == old(self)@,
            final(self).spec_kind() == old(self).spec_kind(),
            final(self).spec_node_id() == (if old(self).spec_node_id() < old(self)@.len() {
                old(self)@.links[old(self).spec_node_id() as int]
            } else {
                SAM_NIL_NODE_ID
            }),
    {
        self.node_id = self.get_suffix_parent_id();
    }

    /// Follows one transition by symbol code, to nil where it is missing.
    pub fn goto_symbol(&mut self, x: u32)
        ensures
            final(self)@ == old(self)@,
            final(self).spec_kind() == old(self).spec_kind(),
            final(self).spec_node_id() == sam_step(old(self)@.trans, old(self).spec_node_id(), x),
    {
        self.node_id = raw_sam_goto(&self.sam, self.node_id, x);
    }

    /// Follows the transition of a character; the cursor must be on a
    /// character automaton.
    pub fn goto_char(&mut self, t: char)
        requires
            old(self).spec_kind() == SymbolKind::Chars,
        ensures
            final(self)@ == old(self)@,
            final(self).spec_kind() == old(self).spec_kind(),
            final(self).spec_node_id() == sam_step(
                old(self)@.trans,
                old(self).spec_node_id(),
                t as u32,
            ),
    {
        self.goto_symbol(t as u32);
    }

    /// Follows the transition of a byte; the cursor must be on a byte
    /// automaton.
    pub fn goto_byte(&mut self, t: u8)
        requires
            old(self).spec_kind() == SymbolKind::Bytes,
        ensures
            final(self)@ == old(self)@,
            final(self).spec_kind() == old(self).spec_kind(),
            final(self).spec_node_id() == sam_step(
                old(self)@.trans,
                old(self).spec_node_id(),
                t as u32,
            ),
    {
        self.goto_symbol(t as u32);
    }

    /// Follows one transition per symbol code, stopping at nil.
    pub fn feed_symbols(&mut self, s: &Vec<u32>)
        requires
            old(self)@.wf(),
        ensures
            final(self)@ == old(self)@,
            final(self).spec_kind() == old(self).spec_kind(),
            final(self).spec_node_id() == sam_walk(old(self)@.trans, old(self).spec_node_id(), s@),
    {
        let ghost start = self.node_id;
        let mut i: usize = 0;
        while i < s.len()
            invariant
                i <= s@.len(),
                self@ == old(self)@,
                self@.wf(),
                start == old(self).spec_node_id(),
                self.spec_kind() == old(self).spec_kind(),
                self.node_id == sam_walk(self@.trans, start, s@.take(i as int)),
            decreases s@.len() - i,
        {
            if self.node_id == SAM_NIL_NODE_ID {
                proof {
                    lemma_walk_stays_nil(self@, start, s@, i as int);
                }
                return;
            }
            proof {
                assert(s@.take(i as int + 1).drop_last() == s@.take(i as int));
            }
            self.goto_symbol(s[i]);
            i = i + 1;
        }
        proof {
            assert(s@.take(s@.len() as int) == s@);
        }
    }

    /// Feeds a text: its characters to a character automaton, the bytes of
    /// its UTF-8 encoding to a byte automaton.
    pub fn feed_chars(&mut self, s: &str)
        requires
            old(self)@.wf(),
        ensures
            final(self)@ == old(self)@,
            final(self).spec_kind() == old(self).spec_kind(),
            final(self).spec_node_id() == sam_walk(
                old(self)@.trans,
                old(self).spec_node_id(),
                text_symbols(old(self).spec_kind(), s@),
            ),
    {
        let codes = text_symbols_of(self.kind, s);
        self.feed_symbols(&codes);
    }

    /// Feeds bytes: the characters they decode to to a character automaton,
    /// the bytes themselves to a byte automaton. A character automaton
    /// refuses bytes that are not valid UTF-8, and the cursor does not move.
    pub fn feed_bytes(&mut self, b: &[u8]) -> (r: Result<(), SymbolError>)
        requires
            old(self)@.wf(),
        ensures
            final(self)@ == old(self)@,
            final(self).spec_kind() == old(self).spec_kind(),
            bytes_symbols(old(self).spec_kind(), b@) is None ==> {
                &&& r == Err::<(), SymbolError>(SymbolError::InvalidUtf8)
                &&& final(self).spec_node_id() == old(self).spec_node_id()
            },
            bytes_symbols(old(self).spec_kind(), b@) is Some ==> {
                &&& r is Ok
                &&& final(self).spec_node_id() == sam_walk(
                    old(self)@.trans,
                    old(self).spec_node_id(),
                    bytes_symbols(old(self).spec_kind(), b@)->0,
                )
            },
    {
        match bytes_symbols_of(self.kind, b) {
            Ok(codes) => {
                self.feed_symbols(&codes);
                Ok(())
            },
            Err(e) => Err(e),
        }
    }
}

} // verus!
