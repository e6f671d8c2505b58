//! The trie: a prefix tree of inserted sequences, held by general_sam and
//! seen here as a sequence of nodes with parents, accepting marks and
//! transitions.

use std::collections::BTreeMap;

use vstd::prelude::*;

use crate::symbols::{
    bytes_symbols, bytes_symbols_of, text_symbols, text_symbols_of, SymbolError, SymbolKind,
};

verus! {

/// The id that stands for "no node".
pub const TRIE_NIL_NODE_ID: usize = 0;

/// The id of the root of every trie.
pub const TRIE_ROOT_NODE_ID: usize = 1;

/// The trie of general_sam that holds the nodes, keyed by symbol codes.
/// Verus sees it only through the names below.
#[verifier::external_body]
pub struct RawTrie {
    pub(crate) inner: general_sam::Trie<BTreeMap<u32, usize>>,
}

/// The parent of each node of a trie, by node id.
pub uninterp spec fn trie_parents(t: RawTrie) -> Seq<usize>;

/// Whether each node of a trie ends an inserted sequence, by node id.
pub uninterp spec fn trie_accepts(t: RawTrie) -> Seq<bool>;

/// The outgoing transitions of each node of a trie, by node id.
pub uninterp spec fn trie_trans(t: RawTrie) -> Seq<Map<u32, usize>>;

/// A trie as plain values: one entry per node in each sequence.
pub ghost struct TrieView {
    pub parents: Seq<usize>,
    pub accepts: Seq<bool>,
    pub trans: Seq<Map<u32, usize>>,
}

pub open spec fn raw_trie_view(t: RawTrie) -> TrieView {
    TrieView { parents: trie_parents(t), accepts: trie_accepts(t), trans: trie_trans(t) }
}

/// The trie that holds nothing: the nil node and the root.
pub open spec fn empty_trie_view() -> TrieView {
    TrieView {
        parents: seq![TRIE_NIL_NODE_ID, TRIE_NIL_NODE_ID],
        accepts: seq![false, false],
        trans: seq![Map::empty(), Map::empty()],
    }
}

impl TrieView {
    pub open spec fn len(self) -> nat {
        self.parents.len()
    }

    /// Every transition leads from a node to a younger child of it, and the
    /// nil node has neither a parent nor transitions.
    pub open spec fn wf(self) -> bool {
        &&& self.len() >= 2
        &&& self.accepts.len() == self.len()
        &&& self.trans.len() == self.len()
        &&& self.parents[0] == TRIE_NIL_NODE_ID
        &&& self.parents[1] == TRIE_NIL_NODE_ID
        &&& !self.accepts[0]
        &&& self.trans[0] == Map::<u32, usize>::empty()
        &&& forall|n: int, k: u32|
            #![trigger self.trans[n].contains_key(k)]
            0 <= n < self.len() && self.trans[n].contains_key(k) ==> {
                let c = self.trans[n][k] as int;
                &&& n < c < self.len()
                &&& self.parents[c] == n
            }
        &&& forall|c: int|
            #![trigger self.parents[c]]
            2 <= c < self.len() ==> 1 <= self.parents[c] < c
        &&& forall|n: int, k1: u32, k2: u32|
            #![trigger self.trans[n].contains_key(k1), self.trans[n].contains_key(k2)]
            0 <= n < self.len() && self.trans[n].contains_key(k1) && self.trans[n].contains_key(k2)
                && self.trans[n][k1] == self.trans[n][k2] ==> k1 == k2
    }
}

/// The node reached from `cur` by following the transitions of `s`, if every
/// one of them exists.
pub open spec fn trie_walk(trans: Seq<Map<u32, usize>>, cur: usize, s: Seq<u32>) -> Option<usize>
    decreases s.len(),
{
    if s.len() == 0 {
        Some(cur)
    } else if cur < trans.len() && trans[cur as int].contains_key(s[0]) {
        trie_walk(trans, trans[cur as int][s[0]], s.drop_first())
    } else {
        None
    }
}

/// Insertion of `s` below `cur`: follow the existing transitions, add a new
/// node for each symbol that has none, and mark the last node as accepting.
/// Gives the new trie and the id of that last node.
pub open spec fn insert_from(v: TrieView, cur: usize, s: Seq<u32>) -> (TrieView, usize)
    decreases s.len(),
{
    if s.len() == 0 {
        (TrieView { accepts: v.accepts.update(cur as int, true), ..v }, cur)
    } else if v.trans[cur as int].contains_key(s[0]) {
        insert_from(v, v.trans[cur as int][s[0]], s.drop_first())
    } else {
        let id = v.parents.len() as usize;
        let grown = TrieView {
            parents: v.parents.push(cur),
            accepts: v.accepts.push(false),
            trans: v.trans.update(cur as int, v.trans[cur as int].insert(s[0], id)).push(
                Map::empty(),
            ),
        };
        insert_from(grown, id, s.drop_first())
    }
}

/// Insertion of `s` from the root.
pub open spec fn trie_insert(v: TrieView, s: Seq<u32>) -> (TrieView, usize) {
    insert_from(v, TRIE_ROOT_NODE_ID, s)
}

/// The entries of a map listed once each, in increasing order of key.
pub open spec fn sorted_entries(es: Seq<(u32, usize)>, m: Map<u32, usize>) -> bool {
    &&& forall|i: int, j: int| 0 <= i < j < es.len() ==> es[i].0 < es[j].0
    &&& forall|i: int|
        #![trigger es[i]]
        0 <= i < es.len() ==> m.contains_key(es[i].0) && m[es[i].0] == es[i].1
    &&& forall|k: u32| #[trigger] m.contains_key(k) ==> exists|i: int| 0 <= i < es.len() && es[i].0 == k
}

/// Relies on general_sam::Trie::default: the nil node and the root, with no
/// transitions and neither accepting.
#[verifier::external_body]
fn raw_trie_new() -> (r: RawTrie)
    ensures
        raw_trie_view(r) == empty_trie_view(),
{
    RawTrie { inner: general_sam::Trie::default() }
}

/// Relies on general_sam::Trie::num_of_nodes: the number of nodes.
#[verifier::external_body]
fn raw_trie_num_of_nodes(t: &RawTrie) -> (r: usize)
    ensures
        r == trie_parents(*t).len(),
{
    t.inner.num_of_nodes()
}

/// Relies on general_sam::Trie::insert: walks from the root, allocates a node
/// for each symbol without a transition, marks the last node as accepting and
/// returns its id.
#[verifier::external_body]
fn raw_trie_insert(t: &mut RawTrie, s: &Vec<u32>) -> (r: usize)
    requires
        raw_trie_view(*old(t)).wf(),
    ensures
        (raw_trie_view(*final(t)), r) == trie_insert(raw_trie_view(*old(t)), s@),
{
    t.inner.insert(s.iter().copied())
}

/// Relies on general_sam::Trie::get_node: a node exists for each id below the
/// number of nodes; its transitions come out of a BTreeMap in key order.
#[verifier::external_body]
fn raw_trie_node(t: &RawTrie, id: usize) -> (r: Option<(bool, usize, Vec<(u32, usize)>)>)
    ensures
        r is Some <==> id < trie_parents(*t).len(),
        r is Some ==> {
            let (accept, parent, trans) = r->0;
            &&& accept == trie_accepts(*t)[id as int]
            &&& parent == trie_parents(*t)[id as int]
            &&& sorted_entries(trans@, trie_trans(*t)[id as int])
        },
{
    t.inner.get_node(id).map(|n| {
        (n.accept, n.get_parent(), n.get_trans().iter().map(|(k, v)| (*k, *v)).collect())
    })
}

/// `w` keeps every node, parent and transition of `v`.
pub open spec fn trie_extends(v: TrieView, w: TrieView) -> bool {
    &&& v.len() <= w.len()
    &&& forall|i: int| 0 <= i < v.len() ==> #[trigger] w.parents[i] == v.parents[i]
    &&& forall|n: int, k: u32|
        #![trigger w.trans[n].contains_key(k)]
        0 <= n < v.len() && v.trans[n].contains_key(k) ==> w.trans[n].contains_key(k)
            && w.trans[n][k] == v.trans[n][k]
}

/// Insertion keeps a trie well formed, keeps what was there, and the
/// sequence then leads from `cur` to an accepting node, the one returned.
pub proof fn lemma_insert_from(v: TrieView, cur: usize, s: Seq<u32>)
    requires
        v.wf(),
        1 <= cur < v.len(),
        v.len() + s.len() <= usize::MAX,
    ensures
        ({
            let (w, n) = insert_from(v, cur, s);
            &&& w.wf()
            &&& trie_extends(v, w)
            &&& 1 <= n < w.len()
            &&& w.len() <= v.len() + s.len()
            &&& trie_walk(w.trans, cur, s) == Some(n)
            &&& w.accepts[n as int]
        }),
    decreases s.len(),
{
    if s.len() == 0 {
    } else if v.trans[cur as int].contains_key(s[0]) {
        let c = v.trans[cur as int][s[0]];
        lemma_insert_from(v, c, s.drop_first());
    } else {
        let id = v.parents.len() as usize;
        let grown = TrieView {
            parents: v.parents.push(cur),
            accepts: v.accepts.push(false),
            trans: v.trans.update(cur as int, v.trans[cur as int].insert(s[0], id)).push(
                Map::empty(),
            ),
        };
        assert forall|n: int, k: u32|
            0 <= n < grown.len() && #[trigger] grown.trans[n].contains_key(k) implies {
                let c = grown.trans[n][k] as int;
                &&& n < c < grown.len()
                &&& grown.parents[c] == n
            } by {
            if n == cur as int && k == s[0] {
                assert(grown.trans[n][k] == id);
            } else if n < v.len() {
                assert(v.trans[n].contains_key(k));
                let c = v.trans[n][k] as int;
                assert(grown.trans[n][k] == c);
                assert(grown.parents[c] == v.parents[c]);
            } else {
                assert(grown.trans[n] == Map::<u32, usize>::empty());
            }
        }
        assert forall|n: int, k1: u32, k2: u32|
            0 <= n < grown.len() && #[trigger] grown.trans[n].contains_key(k1)
                && #[trigger] grown.trans[n].contains_key(k2) && grown.trans[n][k1]
                == grown.trans[n][k2] implies k1 == k2 by {
            if n == cur as int {
                if k1 != s[0] {
                    assert(v.trans[n].contains_key(k1));
                }
                if k2 != s[0] {
                    assert(v.trans[n].contains_key(k2));
                }
            } else if n < v.len() {
                assert(v.trans[n].contains_key(k1));
                assert(v.trans[n].contains_key(k2));
            }
        }
        assert(grown.wf());
        lemma_insert_from(grown, id, s.drop_first());
    }
}

/// Inserting a sequence that already leads to an accepting node changes
/// nothing and returns that node.
pub proof fn lemma_insert_present(v: TrieView, cur: usize, s: Seq<u32>)
    requires
        v.wf(),
        1 <= cur < v.len(),
        trie_walk(v.trans, cur, s) is Some,
        v.accepts[trie_walk(v.trans, cur, s)->0 as int],
    ensures
        insert_from(v, cur, s) == (v, trie_walk(v.trans, cur, s)->0),
    decreases s.len(),
{
    if s.len() == 0 {
        assert(v.accepts.update(cur as int, true) =~= v.accepts);
    } else {
        lemma_insert_present(v, v.trans[cur as int][s[0]], s.drop_first());
    }
}

/// Inserting the same sequence twice returns the node of the first insertion
/// and leaves the trie, its number of nodes included, as the first left it.
pub proof fn lemma_insert_idempotent(v: TrieView, s: Seq<u32>)
    requires
        v.wf(),
        v.len() + s.len() <= usize::MAX,
    ensures
        trie_insert(trie_insert(v, s).0, s) == trie_insert(v, s),
{
    lemma_insert_from(v, TRIE_ROOT_NODE_ID, s);
    let (w, n) = trie_insert(v, s);
    lemma_insert_present(w, TRIE_ROOT_NODE_ID, s);
}

/// A multi-sequence prefix tree over one alphabet.
pub struct Trie {
    pub(crate) kind: SymbolKind,
    pub(crate) raw: RawTrie,
}

impl View for Trie {
    type V = TrieView;

    open(crate) spec fn view(&self) -> TrieView {
        raw_trie_view(self.raw)
    }
}

/// A snapshot of one node of a trie. Transitions are listed by symbol code,
/// in increasing order.
pub struct TrieNode {
    pub node_id: usize,
    pub kind: SymbolKind,
    pub accept: bool,
    pub parent: usize,
    pub trans: Vec<(u32, usize)>,
}

impl TrieNode {
    pub fn is_in_chars(&self) -> (r: bool)
        ensures
            r == (self.kind == SymbolKind::Chars),
    {
        self.kind == SymbolKind::Chars
    }

    pub fn is_in_bytes(&self) -> (r: bool)
        ensures
            r == (self.kind == SymbolKind::Bytes),
    {
        self.kind == SymbolKind::Bytes
    }

    pub fn get_node_id(&self) -> (r: usize)
        ensures
            r == self.node_id,
    {
        self.node_id
    }

    pub fn is_accepting(&self) -> (r: bool)
        ensures
            r == self.accept,
    {
        self.accept
    }

    pub fn get_trans(&self) -> (r: Vec<(u32, usize)>)
        ensures
            r@ == self.trans@,
    {
        let mut r: Vec<(u32, usize)> = Vec::new();
        let mut i: usize = 0;
        while i < self.trans.len()
            invariant
                i <= self.trans@.len(),
                r@ == self.trans@.take(i as int),
            decreases self.trans@.len() - i,
        {
            proof {
                assert(self.trans@.take(i as int + 1) == self.trans@.take(i as int).push(
                    self.trans@[i as int],
                ));
            }
            r.push(self.trans[i]);
            i = i + 1;
        }
        proof {
            assert(self.trans@.take(self.trans@.len() as int) == self.trans@);
        }
        r
    }

    pub fn get_parent(&self) -> (r: usize)
        ensures
            r == self.parent,
    {
        self.parent
    }
}

impl Trie {
    pub open(crate) spec fn spec_kind(&self) -> SymbolKind {
        self.kind
    }

    pub open spec fn wf(&self) -> bool {
        self@.wf()
    }

    fn new(kind: SymbolKind) -> (r: Self)
        ensures
            r.wf(),
            r.spec_kind() == kind,
            r@ == empty_trie_view(),
    {
        let r = Trie { kind, raw: raw_trie_new() };
        assert(r@.wf()) by {
            assert(r@.parents[1] == TRIE_NIL_NODE_ID);
        }
        r
    }

    /// An empty trie over characters.
    pub fn in_chars() -> (r: Self)
        ensures
            r.wf(),
            r.spec_kind() == SymbolKind::Chars,
            r@ == empty_trie_view(),
    {
        Self::new(SymbolKind::Chars)
    }

    /// An empty trie over bytes.
    pub fn in_bytes() -> (r: Self)
        ensures
            r.wf(),
            r.spec_kind() == SymbolKind::Bytes,
            r@ == empty_trie_view(),
    {
        Self::new(SymbolKind::Bytes)
    }

    pub fn is_in_chars(&self) -> (r: bool)
        ensures
            r == (self.spec_kind() == SymbolKind::Chars),
    {
        self.kind == SymbolKind::Chars
    }

    pub fn is_in_bytes(&self) -> (r: bool)
        ensures
            r == (self.spec_kind() == SymbolKind::Bytes),
    {
        self.kind == SymbolKind::Bytes
    }

    pub fn num_of_nodes(&self) -> (r: usize)
        ensures
            r == self@.len(),
    {
        raw_trie_num_of_nodes(&self.raw)
    }

    /// Inserts a sequence of symbol codes and returns the id of its last node.
    pub fn insert_symbols(&mut self, s: &Vec<u32>) -> (r: usize)
        requires
            old(self).wf(),
            old(self)@.len() + s@.len() <= usize::MAX,
        ensures
            final(self).wf(),
            final(self).spec_kind() == old(self).spec_kind(),
            (final(self)@, r) == trie_insert(old(self)@, s@),
            trie_walk(final(self)@.trans, TRIE_ROOT_NODE_ID, s@) == Some(r),
            final(self)@.accepts[r as int],
    {
        proof {
            lemma_insert_from(self@, TRIE_ROOT_NODE_ID, s@);
        }
        raw_trie_insert(&mut self.raw, s)
    }

    /// Inserts a text: its characters in a character trie, the bytes of its
    /// UTF-8 encoding in a byte trie.
    pub fn insert_chars(&mut self, s: &str) -> (r: usize)
        requires
            old(self).wf(),
            old(self)@.len() + text_symbols(old(self).spec_kind(), s@).len() <= usize::MAX,
        ensures
            final(self).wf(),
            final(self).spec_kind() == old(self).spec_kind(),
            (final(self)@, r) == trie_insert(old(self)@, text_symbols(old(self).spec_kind(), s@)),
    {
        let codes = text_symbols_of(self.kind, s);
        self.insert_symbols(&codes)
    }

    /// Inserts bytes: in a character trie the characters they decode to, in a
    /// byte trie the bytes themselves. A character trie refuses bytes that are
    /// not valid UTF-8 and is then left unchanged.
    pub fn insert_bytes(&mut self, b: &[u8]) -> (r: Result<usize, SymbolError>)
        requires
            old(self).wf(),
            bytes_symbols(old(self).spec_kind(), b@) is Some ==> old(self)@.len() + bytes_symbols(
                old(self).spec_kind(),
                b@,
            )->0.len() <= usize::MAX,
        ensures
            final(self).wf(),
            final(self).spec_kind() == old(self).spec_kind(),
            bytes_symbols(old(self).spec_kind(), b@) is None ==> {
                &&& r == Err::<usize, SymbolError>(SymbolError::InvalidUtf8)
                &&& final(self)@ == old(self)@
            },
            bytes_symbols(old(self).spec_kind(), b@) is Some ==> {
                &&& r is Ok
                &&& (final(self)@, r->Ok_0) == trie_insert(
                    old(self)@,
                    bytes_symbols(old(self).spec_kind(), b@)->0,
                )
            },
    {
        match bytes_symbols_of(self.kind, b) {
            Ok(codes) => Ok(self.insert_symbols(&codes)),
            Err(e) => Err(e),
        }
    }

    /// A snapshot of the node with the given id, if there is one.
    pub fn get_node(&self, node_id: usize) -> (r: Option<TrieNode>)
        ensures
            r is Some <==> node_id < self@.len(),
            r is Some ==> {
                let n = r->0;
                &&& n.node_id == node_id
                &&& n.kind == self.spec_kind()
                &&& n.accept == self@.accepts[node_id as int]
                &&& n.parent == self@.parents[node_id as int]
                &&& sorted_entries(n.trans@, self@.trans[node_id as int])
            },
    {
        match raw_trie_node(&self.raw, node_id) {
            Some((accept, parent, trans)) => Some(
                TrieNode { node_id, kind: self.kind, accept, parent, trans },
            ),
            None => None,
        }
    }

    /// A snapshot of the root.
    pub fn get_root(&self) -> (r: TrieNode)
        requires
            self.wf(),
        ensures
            r.node_id == TRIE_ROOT_NODE_ID,
            r.kind == self.spec_kind(),
            r.accept == self@.accepts[TRIE_ROOT_NODE_ID as int],
            r.parent == TRIE_NIL_NODE_ID,
            sorted_entries(r.trans@, self@.trans[TRIE_ROOT_NODE_ID as int]),
    {
        match self.get_node(TRIE_ROOT_NODE_ID) {
            Some(n) => n,
            None => {
                assert(false);
                TrieNode {
                    node_id: TRIE_ROOT_NODE_ID,
                    kind: self.kind,
                    accept: false,
                    parent: TRIE_NIL_NODE_ID,
                    trans: Vec::new(),
                }
            },
        }
    }
}

} // verus!
