use general_sam_core::sam::{GeneralSam, SAM_NIL_NODE_ID, SAM_ROOT_NODE_ID};
use general_sam_core::symbols::{
    check_same_kind, get_char_or_byte_variant_name, InconsistentCharOrByte, SymbolError,
    SymbolKind,
};
use general_sam_core::tokenizer::GreedyTokenizer;
use general_sam_core::travel::TravelEvent;
use general_sam_core::trie::{Trie, TRIE_NIL_NODE_ID, TRIE_ROOT_NODE_ID};

fn feed_is_nil(sam: &GeneralSam, s: &str) -> bool {
    let mut st = sam.get_root_state();
    st.feed_chars(s);
    st.is_nil()
}

fn vocab_trie() -> (Trie, usize, usize, usize, usize) {
    let mut trie = Trie::in_chars();
    let a = trie.insert_chars("a");
    let ab = trie.insert_chars("ab");
    let b = trie.insert_chars("b");
    let bc = trie.insert_chars("bc");
    (trie, a, ab, b, bc)
}

#[test]
fn tokenize_abc_with_vocabulary() {
    let (trie, _a, ab, _b, _bc) = vocab_trie();
    let sam = GeneralSam::from_chars("abc");
    let tok = GreedyTokenizer::from_sam_and_trie(&sam, &trie).unwrap();
    assert_eq!(tok.tokenize_str("abc", TRIE_NIL_NODE_ID), vec![(ab, 2), (TRIE_NIL_NODE_ID, 1)]);
}

#[test]
fn tokenize_abcb_with_vocabulary() {
    let (trie, _a, ab, b, _bc) = vocab_trie();
    let sam = GeneralSam::from_chars("abc");
    let tok = GreedyTokenizer::from_sam_and_trie(&sam, &trie).unwrap();
    assert_eq!(
        tok.tokenize_str("abcb", TRIE_NIL_NODE_ID),
        vec![(ab, 2), (TRIE_NIL_NODE_ID, 1), (b, 1)]
    );
}

#[test]
fn automaton_of_cat_and_car() {
    let mut trie = Trie::in_chars();
    trie.insert_chars("cat");
    trie.insert_chars("car");
    let sam = GeneralSam::from_trie(&trie);
    for s in ["ca", "at", "ar", "t", "r", "cat", "car", ""] {
        assert!(!feed_is_nil(&sam, s), "{} should be a substring", s);
    }
    for s in ["ct", "ra", "cart", "x"] {
        assert!(feed_is_nil(&sam, s), "{} should not be a substring", s);
    }
}

#[test]
fn substrings_of_a_flat_sequence() {
    let corpus = "abcbc";
    let sam = GeneralSam::from_chars(corpus);
    let chars: Vec<char> = corpus.chars().collect();
    for i in 0..=chars.len() {
        for j in i..=chars.len() {
            let s: String = chars[i..j].iter().collect();
            assert!(!feed_is_nil(&sam, &s), "{} occurs in {}", s, corpus);
        }
    }
    for s in ["bcb c", "ca", "bb", "abcbca", "cc", "d"] {
        assert!(feed_is_nil(&sam, s), "{} does not occur in {}", s, corpus);
    }
}

#[test]
fn substrings_of_bytes() {
    let sam = GeneralSam::from_bytes(b"hello");
    let mut st = sam.get_root_state();
    assert!(st.feed_bytes(b"ell").is_ok());
    assert!(!st.is_nil());
    let mut st = sam.get_root_state();
    assert!(st.feed_bytes(b"leh").is_ok());
    assert!(st.is_nil());
    assert!(sam.is_in_bytes());
    assert!(!sam.is_in_chars());
}

#[test]
fn suffix_links_reach_root() {
    let sam = GeneralSam::from_chars("abracadabra");
    let n = sam.num_of_nodes();
    for id in 1..n {
        let mut st = sam.get_state(id);
        let mut steps = 0;
        while !st.is_root() {
            assert!(!st.is_nil());
            st.goto_suffix_parent();
            steps += 1;
            assert!(steps <= n);
        }
    }
    let root = sam.get_root_state();
    assert_eq!(root.get_suffix_parent_id(), SAM_NIL_NODE_ID);
}

#[test]
fn suffix_link_of_missing_state_is_nil() {
    let sam = GeneralSam::from_chars("ab");
    let st = sam.get_state(sam.num_of_nodes() + 5);
    assert_eq!(st.get_suffix_parent_id(), SAM_NIL_NODE_ID);
    assert!(!st.is_accepting());
    assert!(st.get_trans().is_empty());
    let mut st = st.copy();
    st.goto_suffix_parent();
    assert!(st.is_nil());
}

#[test]
fn insert_twice_is_idempotent() {
    let mut trie = Trie::in_chars();
    let first = trie.insert_chars("hello");
    let n = trie.num_of_nodes();
    let second = trie.insert_chars("hello");
    assert_eq!(first, second);
    assert_eq!(trie.num_of_nodes(), n);
    assert_eq!(n, 2 + 5);
}

#[test]
fn insert_shares_prefixes() {
    let mut trie = Trie::in_chars();
    let cat = trie.insert_chars("cat");
    let car = trie.insert_chars("car");
    assert_ne!(cat, car);
    assert_eq!(trie.num_of_nodes(), 2 + 4);
    let node = trie.get_node(cat).unwrap();
    assert!(node.is_accepting());
    assert_eq!(node.get_node_id(), cat);
    let parent = trie.get_node(node.get_parent()).unwrap();
    assert!(!parent.is_accepting());
    assert_eq!(parent.get_trans(), vec![('r' as u32, car), ('t' as u32, cat)]);
    assert!(trie.get_node(trie.num_of_nodes()).is_none());
}

#[test]
fn empty_trie_has_nil_and_root() {
    let trie = Trie::in_bytes();
    assert_eq!(trie.num_of_nodes(), 2);
    let root = trie.get_root();
    assert_eq!(root.get_node_id(), TRIE_ROOT_NODE_ID);
    assert_eq!(root.get_parent(), TRIE_NIL_NODE_ID);
    assert!(root.get_trans().is_empty());
    assert!(root.is_in_bytes());
    assert!(!root.is_in_chars());
    assert!(trie.is_in_bytes());
}

#[test]
fn char_and_byte_tries_differ_on_multibyte_text() {
    let mut chars = Trie::in_chars();
    chars.insert_chars("é");
    assert_eq!(chars.num_of_nodes(), 3);
    assert_eq!(chars.get_root().get_trans(), vec![('é' as u32, 2)]);
    let mut bytes = Trie::in_bytes();
    bytes.insert_chars("é");
    assert_eq!(bytes.num_of_nodes(), 4);
    assert_eq!(bytes.get_root().get_trans(), vec![(0xc3, 2)]);
}

#[test]
fn insert_bytes_decodes_for_char_trie() {
    let mut trie = Trie::in_chars();
    let id = trie.insert_bytes("hé".as_bytes()).unwrap();
    assert_eq!(trie.num_of_nodes(), 4);
    assert_eq!(trie.insert_chars("hé"), id);
    assert_eq!(trie.insert_bytes(&[0xff, 0xfe]), Err(SymbolError::InvalidUtf8));
    assert_eq!(trie.num_of_nodes(), 4);
    let mut bytes = Trie::in_bytes();
    assert_eq!(bytes.insert_bytes(&[0xff, 0xfe]), Ok(3));
}

fn sample_trie() -> Trie {
    let mut trie = Trie::in_chars();
    for w in ["abc", "abd", "b", "bcd", "e"] {
        trie.insert_chars(w);
    }
    trie
}

fn check_once_each(ev: &[TravelEvent], n: usize) {
    let mut pushes = vec![0; n];
    let mut pops = vec![0; n];
    for e in ev {
        match e {
            TravelEvent::Push(x, _) => pushes[*x] += 1,
            TravelEvent::Pop(x) => pops[*x] += 1,
        }
    }
    for id in 1..n {
        assert_eq!(pushes[id], 1, "node {} entered once", id);
        assert_eq!(pops[id], 1, "node {} left once", id);
    }
    assert_eq!(pushes[0], 0);
}

#[test]
fn dfs_visits_every_node_once_nested() {
    let trie = sample_trie();
    let ev = trie.dfs_travel(None);
    check_once_each(&ev, trie.num_of_nodes());
    assert_eq!(ev[0], TravelEvent::Push(TRIE_ROOT_NODE_ID, None));
    let mut stack = Vec::new();
    for (i, e) in ev.iter().enumerate() {
        match e {
            TravelEvent::Push(x, key) => {
                assert_eq!(key.is_none(), i == 0);
                stack.push(*x);
            }
            TravelEvent::Pop(x) => assert_eq!(stack.pop(), Some(*x)),
        }
    }
    assert!(stack.is_empty());
    assert_eq!(ev.len(), 2 * (trie.num_of_nodes() - 1));
}

#[test]
fn dfs_enters_children_in_symbol_order() {
    let mut trie = Trie::in_chars();
    let b = trie.insert_chars("b");
    let a = trie.insert_chars("a");
    let ev = trie.dfs_travel(None);
    assert_eq!(
        ev,
        vec![
            TravelEvent::Push(TRIE_ROOT_NODE_ID, None),
            TravelEvent::Push(a, Some('a' as u32)),
            TravelEvent::Pop(a),
            TravelEvent::Push(b, Some('b' as u32)),
            TravelEvent::Pop(b),
            TravelEvent::Pop(TRIE_ROOT_NODE_ID),
        ]
    );
}

#[test]
fn bfs_visits_every_node_once_in_queue_order() {
    let trie = sample_trie();
    let ev = trie.bfs_travel(None);
    check_once_each(&ev, trie.num_of_nodes());
    let pushes: Vec<usize> = ev
        .iter()
        .filter_map(|e| if let TravelEvent::Push(x, _) = e { Some(*x) } else { None })
        .collect();
    let pops: Vec<usize> = ev
        .iter()
        .filter_map(|e| if let TravelEvent::Pop(x) = e { Some(*x) } else { None })
        .collect();
    assert_eq!(pushes, pops);
    assert_eq!(trie.get_bfs_order(), pushes[1..].to_vec());
}

#[test]
fn bfs_order_of_small_trie() {
    let mut trie = Trie::in_chars();
    let ab = trie.insert_chars("ab");
    let c = trie.insert_chars("c");
    let a = trie.get_node(ab).unwrap().get_parent();
    assert_eq!(trie.get_bfs_order(), vec![a, c, ab]);
    assert_eq!(
        trie.bfs_travel(None),
        vec![
            TravelEvent::Push(TRIE_ROOT_NODE_ID, None),
            TravelEvent::Pop(TRIE_ROOT_NODE_ID),
            TravelEvent::Push(a, Some('a' as u32)),
            TravelEvent::Push(c, Some('c' as u32)),
            TravelEvent::Pop(a),
            TravelEvent::Push(ab, Some('b' as u32)),
            TravelEvent::Pop(c),
            TravelEvent::Pop(ab),
        ]
    );
}

#[test]
fn travel_from_a_subtree_or_a_missing_node() {
    let mut trie = Trie::in_chars();
    let ab = trie.insert_chars("ab");
    let a = trie.get_node(ab).unwrap().get_parent();
    assert_eq!(
        trie.dfs_travel(Some(a)),
        vec![TravelEvent::Push(a, None), TravelEvent::Push(ab, Some('b' as u32)), TravelEvent::Pop(ab), TravelEvent::Pop(a)]
    );
    assert!(trie.dfs_travel(Some(100)).is_empty());
    assert!(trie.bfs_travel(Some(TRIE_NIL_NODE_ID)).is_empty());
}

#[test]
fn dfs_along_replays_paths() {
    let mut trie = Trie::in_chars();
    let cat = trie.insert_chars("cat");
    let cx = trie.insert_chars("cx");
    let sam = GeneralSam::from_chars("concat");
    let root = sam.get_root_state();
    let out = root.dfs_along(&trie, None).unwrap();
    assert_eq!(out.len(), 2 * (trie.num_of_nodes() - 1));
    for (state, e) in &out {
        let node = match e {
            TravelEvent::Push(n, _) => *n,
            TravelEvent::Pop(n) => *n,
        };
        let mut expect = sam.get_root_state();
        if node == cat {
            expect.feed_chars("cat");
            assert!(!expect.is_nil());
        } else if node == cx {
            expect.feed_chars("cx");
            assert!(expect.is_nil());
        } else if node == TRIE_ROOT_NODE_ID {
        } else {
            continue;
        }
        assert_eq!(state.get_node_id(), expect.get_node_id());
    }
    let bfs = root.bfs_along(&trie, None).unwrap();
    assert_eq!(bfs.len(), out.len());
    assert_eq!(bfs[0].0.get_node_id(), SAM_ROOT_NODE_ID);
    assert_eq!(bfs[0].1, TravelEvent::Push(TRIE_ROOT_NODE_ID, None));
    assert!(bfs[0].0.is_in_chars());
}

#[test]
fn along_from_missing_node_starts_at_nil() {
    let trie = sample_trie();
    let sam = GeneralSam::from_chars("abc");
    let out = sam.get_root_state().dfs_along(&trie, Some(1000)).unwrap();
    let ids: Vec<(usize, TravelEvent)> = out.iter().map(|(s, e)| (s.get_node_id(), *e)).collect();
    assert_eq!(
        ids,
        vec![
            (SAM_ROOT_NODE_ID, TravelEvent::Push(TRIE_NIL_NODE_ID, None)),
            (SAM_ROOT_NODE_ID, TravelEvent::Pop(TRIE_NIL_NODE_ID)),
        ]
    );
}

#[test]
fn along_rejects_mixed_alphabets() {
    let trie = Trie::in_bytes();
    let sam = GeneralSam::from_chars("abc");
    let expected = SymbolError::Inconsistent { left: SymbolKind::Chars, right: SymbolKind::Bytes };
    assert_eq!(sam.get_root_state().dfs_along(&trie, None).err(), Some(expected));
    assert_eq!(sam.get_root_state().bfs_along(&trie, None).err(), Some(expected));
}

#[test]
fn tokenizer_rejects_mixed_alphabets() {
    let trie = Trie::in_chars();
    let sam = GeneralSam::from_bytes(b"abc");
    match GreedyTokenizer::from_sam_and_trie(&sam, &trie) {
        Err(e) => assert_eq!(
            e,
            SymbolError::Inconsistent { left: SymbolKind::Bytes, right: SymbolKind::Chars }
        ),
        Ok(_) => panic!("mixed alphabets accepted"),
    }
}

#[test]
fn tokens_cover_the_input() {
    let mut trie = Trie::in_chars();
    for w in ["the", "he", "cat", "ca", "t", "at"] {
        trie.insert_chars(w);
    }
    let sam = GeneralSam::from_trie(&trie);
    let tok = GreedyTokenizer::from_sam_and_trie(&sam, &trie).unwrap();
    for input in ["", "thecat", "xyz", "catthe", "hat", "tttt", "the cat sat"] {
        let out = tok.tokenize_str(input, TRIE_NIL_NODE_ID);
        let total: usize = out.iter().map(|(_, l)| *l).sum();
        assert_eq!(total, input.chars().count(), "input {:?}", input);
        assert!(out.iter().all(|(_, l)| *l >= 1));
    }
}

#[test]
fn tokenize_thecat_exact() {
    let mut trie = Trie::in_chars();
    let the = trie.insert_chars("the");
    let cat = trie.insert_chars("cat");
    let sam = GeneralSam::from_trie(&trie);
    let tok = GreedyTokenizer::from_sam_and_trie(&sam, &trie).unwrap();
    assert_eq!(tok.tokenize_str("thecat", 0), vec![(the, 3), (cat, 3)]);
    assert_eq!(tok.tokenize_str("thexcat", 0), vec![(the, 3), (0, 1), (cat, 3)]);
    assert_eq!(tok.tokenize_symbols(&"cat".chars().map(|c| c as u32).collect(), 0), vec![(cat, 3)]);
}

#[test]
fn tokenize_bytes_in_both_alphabets() {
    let mut trie = Trie::in_bytes();
    let he = trie.insert_chars("hé");
    let sam = GeneralSam::from_trie(&trie);
    let tok = GreedyTokenizer::from_sam_and_trie(&sam, &trie).unwrap();
    assert!(tok.is_in_bytes());
    assert!(!tok.is_in_chars());
    assert_eq!(tok.tokenize_bytes("hé".as_bytes(), 0), Ok(vec![(he, 3)]));
    assert_eq!(tok.tokenize_str("hé", 0), vec![(he, 3)]);
    assert_eq!(tok.tokenize_bytes(&[0xff], 0), Ok(vec![(0, 1)]));

    let mut ctrie = Trie::in_chars();
    let che = ctrie.insert_chars("hé");
    let csam = GeneralSam::from_trie(&ctrie);
    let ctok = GreedyTokenizer::from_sam_and_trie(&csam, &ctrie).unwrap();
    assert_eq!(ctok.tokenize_bytes("hé".as_bytes(), 0), Ok(vec![(che, 2)]));
    assert_eq!(ctok.tokenize_bytes(&[0xff], 0), Err(SymbolError::InvalidUtf8));
    assert!(ctok.get_sam().is_in_chars());
    assert_eq!(ctok.get_sam().num_of_nodes(), csam.num_of_nodes());
}

#[test]
fn feed_bytes_decodes_for_char_automaton() {
    let sam = GeneralSam::from_chars("héllo");
    let mut st = sam.get_root_state();
    assert_eq!(st.feed_bytes("él".as_bytes()), Ok(()));
    assert!(!st.is_nil());
    let before = st.get_node_id();
    assert_eq!(st.feed_bytes(&[0xc3]), Err(SymbolError::InvalidUtf8));
    assert_eq!(st.get_node_id(), before);
}

#[test]
fn goto_follows_single_transitions() {
    let sam = GeneralSam::from_chars("ab");
    let mut st = sam.get_root_state();
    st.goto_char('a');
    assert!(!st.is_nil() && !st.is_root());
    st.goto_char('b');
    assert!(st.is_accepting());
    st.goto_char('b');
    assert!(st.is_nil());
    st.goto_char('a');
    assert!(st.is_nil());

    let bsam = GeneralSam::from_bytes(b"ab");
    let mut bst = bsam.get_root_state();
    bst.goto_byte(b'b');
    assert!(bst.is_accepting());
    assert!(bst.is_in_bytes() && !bst.is_in_chars());
}

#[test]
fn accepting_states_are_suffixes() {
    let sam = GeneralSam::from_chars("abcbc");
    for (s, acc) in [("cbc", true), ("bc", true), ("bcb", false), ("b", false), ("abcbc", true)] {
        let mut st = sam.get_root_state();
        st.feed_chars(s);
        assert_eq!(st.is_accepting(), acc, "{}", s);
    }
}

#[test]
fn transitions_of_root_in_symbol_order() {
    let sam = GeneralSam::from_chars("cab");
    let keys: Vec<u32> = sam.get_root_state().get_trans().iter().map(|(k, _)| *k).collect();
    assert_eq!(keys, vec!['a' as u32, 'b' as u32, 'c' as u32]);
}

#[test]
fn topological_order_covers_reachable_states() {
    let sam = GeneralSam::from_chars("abcbc");
    let states = sam.get_topo_and_suf_len_sorted_states();
    assert_eq!(states[0].get_node_id(), SAM_ROOT_NODE_ID);
    let mut ids: Vec<usize> = states.iter().map(|s| s.get_node_id()).collect();
    ids.sort();
    ids.dedup();
    assert_eq!(ids.len(), states.len());
    assert_eq!(states.len(), sam.num_of_nodes() - 1);
}

#[test]
fn names_and_messages() {
    assert_eq!(get_char_or_byte_variant_name(SymbolKind::Chars), "char");
    assert_eq!(get_char_or_byte_variant_name(SymbolKind::Bytes), "byte");
    assert_eq!(
        InconsistentCharOrByte.message(),
        "inconsistent char or byte as the backends of the types"
    );
    assert_eq!(check_same_kind(SymbolKind::Bytes, SymbolKind::Bytes), Ok(SymbolKind::Bytes));
    assert_eq!(
        check_same_kind(SymbolKind::Bytes, SymbolKind::Chars),
        Err(SymbolError::Inconsistent { left: SymbolKind::Bytes, right: SymbolKind::Chars })
    );
}

#[test]
fn trie_automaton_accepts_suffixes_of_words() {
    let mut trie = Trie::in_chars();
    trie.insert_chars("hello");
    trie.insert_chars("Chielo");
    let sam = GeneralSam::from_trie(&trie);
    for (s, acc, nil) in [
        ("lo", true, false),
        ("ello", true, false),
        ("elo", true, false),
        ("el", false, false),
        ("bye", false, true),
    ] {
        let mut st = sam.get_root_state();
        st.feed_chars(s);
        assert_eq!(st.is_accepting(), acc, "{}", s);
        assert_eq!(st.is_nil(), nil, "{}", s);
    }
}

#[test]
fn root_accepts_only_an_empty_corpus() {
    assert!(GeneralSam::from_chars("").get_root_state().is_accepting());
    assert!(!GeneralSam::from_chars("ab").get_root_state().is_accepting());
    let mut trie = Trie::in_chars();
    trie.insert_chars("ab");
    assert!(!GeneralSam::from_trie(&trie).get_root_state().is_accepting());
    trie.insert_chars("");
    assert!(GeneralSam::from_trie(&trie).get_root_state().is_accepting());
}

#[test]
fn topological_order_puts_targets_after_sources() {
    let mut trie = Trie::in_chars();
    for w in ["banana", "bandana", "ananas"] {
        trie.insert_chars(w);
    }
    let sam = GeneralSam::from_trie(&trie);
    let ids: Vec<usize> = sam
        .get_topo_and_suf_len_sorted_states()
        .iter()
        .map(|s| s.get_node_id())
        .collect();
    for (i, id) in ids.iter().enumerate() {
        for (_, target) in sam.get_state(*id).get_trans() {
            let j = ids.iter().position(|x| *x == target).unwrap();
            assert!(j > i);
        }
    }
}

#[test]
fn automaton_size_is_bounded_by_input() {
    let text = "abracadabra";
    assert!(GeneralSam::from_chars(text).num_of_nodes() <= 2 * text.len() + 2);
    let trie = sample_trie();
    assert!(GeneralSam::from_trie(&trie).num_of_nodes() <= 2 * trie.num_of_nodes());
}

#[test]
fn nil_cursor_stays_nil_on_suffix_link() {
    let sam = GeneralSam::from_chars("abc");
    let mut st = sam.get_state(SAM_NIL_NODE_ID);
    assert_eq!(st.get_suffix_parent_id(), SAM_NIL_NODE_ID);
    st.goto_suffix_parent();
    assert!(st.is_nil());
    let mut root = sam.get_root_state();
    root.goto_suffix_parent();
    assert!(root.is_nil());
}

#[test]
fn tokens_spell_vocabulary_entries() {
    let mut trie = Trie::in_chars();
    for w in ["the", "he", "cat", "ca", "t", "at"] {
        trie.insert_chars(w);
    }
    let sam = GeneralSam::from_trie(&trie);
    let tok = GreedyTokenizer::from_sam_and_trie(&sam, &trie).unwrap();
    let input: Vec<char> = "thecatxxhat".chars().collect();
    let text: String = input.iter().collect();
    let mut pos = 0;
    for (id, len) in tok.tokenize_str(&text, TRIE_NIL_NODE_ID) {
        if id != TRIE_NIL_NODE_ID {
            let mut node = TRIE_ROOT_NODE_ID;
            for c in &input[pos..pos + len] {
                let trans = trie.get_node(node).unwrap().get_trans();
                node = trans.iter().find(|(k, _)| *k == *c as u32).unwrap().1;
            }
            assert_eq!(node, id);
            assert!(trie.get_node(id).unwrap().is_accepting());
        }
        pos += len;
    }
    assert_eq!(pos, input.len());
}

#[test]
fn unknown_runs_are_merged() {
    let (trie, _a, ab, _b, _bc) = vocab_trie();
    let sam = GeneralSam::from_chars("abc");
    let tok = GreedyTokenizer::from_sam_and_trie(&sam, &trie).unwrap();
    assert_eq!(tok.tokenize_str("xyab", TRIE_NIL_NODE_ID), vec![(TRIE_NIL_NODE_ID, 2), (ab, 2)]);
}

#[test]
fn dfs_enters_children_of_the_open_node() {
    let trie = sample_trie();
    let mut stack: Vec<usize> = Vec::new();
    for e in trie.dfs_travel(None) {
        match e {
            TravelEvent::Push(c, Some(k)) => {
                let top = *stack.last().unwrap();
                let trans = trie.get_node(top).unwrap().get_trans();
                assert!(trans.contains(&(k, c)));
                stack.push(c);
            }
            TravelEvent::Push(c, None) => stack.push(c),
            TravelEvent::Pop(c) => assert_eq!(stack.pop(), Some(c)),
        }
    }
}

#[test]
fn bfs_enters_level_by_level() {
    let trie = sample_trie();
    let depth = |mut n: usize| {
        let mut d = 0;
        while n != TRIE_ROOT_NODE_ID {
            n = trie.get_node(n).unwrap().get_parent();
            d += 1;
        }
        d
    };
    let order = trie.get_bfs_order();
    for w in order.windows(2) {
        assert!(depth(w[0]) <= depth(w[1]));
    }
}
