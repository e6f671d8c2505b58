//! Greedy longest-match tokenization against a vocabulary trie.

use std::collections::BTreeMap;
use std::sync::Arc;

use vstd::prelude::*;

use crate::sam::{raw_sam_view, GeneralSam, RawSam, SamView};
use crate::symbols::{
    bytes_symbols, bytes_symbols_of, check_same_kind, text_symbols, text_symbols_of, SymbolError,
    SymbolKind,
};
use crate::trie::{raw_trie_view, trie_walk, RawTrie, Trie, TrieView, TRIE_ROOT_NODE_ID};

verus! {

/// The greedy tokenizer of general_sam: an automaton and, for each of its
/// states, the longest vocabulary entries that end there. Verus sees it only
/// through the names below.
#[verifier::external_body]
pub struct RawTokenizer {
    inner: general_sam::GreedyTokenizer<
        BTreeMap<u32, usize>,
        usize,
        Arc<general_sam::GeneralSam<BTreeMap<u32, usize>>>,
    >,
}

/// The tokens that the tokenizer of a vocabulary trie over an automaton gives
/// for an input: pairs of a vocabulary node id, or the unknown id, and a
/// length.
pub uninterp spec fn greedy_tokens(
    sam: SamView,
    vocab: TrieView,
    input: Seq<u32>,
    unk: usize,
) -> Seq<(usize, usize)>;

/// The tokenizer was built from the automaton and the vocabulary trie with
/// these contents.
pub uninterp spec fn tokenizer_built_from(t: RawTokenizer, sam: SamView, vocab: TrieView) -> bool;

/// The total length of a run of tokens.
pub open spec fn token_lens_sum(r: Seq<(usize, usize)>) -> nat
    decreases r.len(),
{
    if r.len() == 0 {
        0
    } else {
        token_lens_sum(r.drop_last()) + r.last().1 as nat
    }
}

/// Where the token at `i` starts in the input: the total length before it.
pub open spec fn token_start(r: Seq<(usize, usize)>, i: int) -> nat {
    token_lens_sum(r.take(i))
}

/// The tokens cover an input of length `n`: none is empty, the first starts
/// at the start, each starts where the one before ends, and the last ends at
/// the end.
pub open spec fn covers(r: Seq<(usize, usize)>, n: nat) -> bool {
    &&& token_lens_sum(r) == n
    &&& token_start(r, 0) == 0
    &&& token_start(r, r.len() as int) == n
    &&& forall|i: int|
        0 <= i < r.len() ==> #[trigger] r[i].1 >= 1 && token_start(r, i + 1) == token_start(r, i)
            + r[i].1
}

/// Every token other than the unknown id is an accepting vocabulary node
/// whose path from the root spells the input under the token, provided the
/// unknown id is no accepting node.
pub open spec fn tokens_from_vocab(
    vocab: TrieView,
    input: Seq<u32>,
    unk: usize,
    r: Seq<(usize, usize)>,
) -> bool {
    !(unk < vocab.len() && vocab.accepts[unk as int]) ==> forall|i: int|
        0 <= i < r.len() && (#[trigger] r[i]).0 != unk ==> {
            &&& r[i].0 < vocab.len()
            &&& vocab.accepts[r[i].0 as int]
            &&& token_start(r, i) + r[i].1 <= input.len()
            &&& trie_walk(
                vocab.trans,
                TRIE_ROOT_NODE_ID,
                input.subrange(token_start(r, i) as int, token_start(r, i) + r[i].1),
            ) == Some(r[i].0)
        }
}

/// Relies on general_sam's GreedyTokenizer::build_from_trie: the tokenizer of
/// the trie's accepting nodes over the automaton, sharing the automaton.
#[verifier::external_body]
fn raw_tokenizer_build(sam: &RawSam, trie: &RawTrie) -> (r: RawTokenizer)
    ensures
        tokenizer_built_from(r, raw_sam_view(*sam), raw_trie_view(*trie)),
{
    RawTokenizer {
        inner: general_sam::GreedyTokenizer::build_from_trie(
            Arc::clone(&sam.inner),
            trie.inner.get_root_state(),
        ),
    }
}

/// Relies on general_sam's GreedyTokenizer::tokenize: each input symbol
/// either extends the current match or becomes unknown, a run of unknown
/// symbols becomes one token, and each token taken from the match is a
/// vocabulary entry that starts it and shortens it by its length; so the
/// lengths, none of them zero, add up to the input's length.
#[verifier::external_body]
fn raw_tokenize(t: &GreedyTokenizer, input: &Vec<u32>, unk: usize) -> (r: Vec<(usize, usize)>)
    requires
        tokenizer_built_from(t.raw, t.sam@, t.vocab@),
    ensures
        r@ == greedy_tokens(t.sam@, t.vocab@, input@, unk),
        token_lens_sum(r@) == input@.len(),
        forall|i: int| 0 <= i < r@.len() ==> #[trigger] r@[i].1 >= 1,
        tokens_from_vocab(t.vocab@, input@, unk, r@),
{
    t.raw.inner.tokenize(input.iter().copied(), &unk)
}

/// Tokens start one after another from the start of the input, each where
/// the one before ends, and the last ends at the end of the input.
pub proof fn lemma_token_spans(r: Seq<(usize, usize)>, n: nat)
    requires
        token_lens_sum(r) == n,
        forall|i: int| 0 <= i < r.len() ==> #[trigger] r[i].1 >= 1,
    ensures
        covers(r, n),
{
    assert(r.take(0) =~= Seq::<(usize, usize)>::empty());
    assert(r.take(r.len() as int) =~= r);
    assert forall|i: int| 0 <= i < r.len() implies #[trigger] token_start(r, i + 1) == token_start(
        r,
        i,
    ) + r[i].1 by {
        assert(r.take(i + 1).drop_last() =~= r.take(i));
    }
}

/// A greedy longest-match tokenizer over a vocabulary trie and an automaton
/// of one alphabet.
pub struct GreedyTokenizer {
    pub(crate) kind: SymbolKind,
    pub(crate) sam: GeneralSam,
    pub(crate) vocab: Ghost<TrieView>,
    pub(crate) raw: RawTokenizer,
}

impl GreedyTokenizer {
    pub open(crate) spec fn spec_kind(&self) -> SymbolKind {
        self.kind
    }

    /// The tokens of an input given as symbol codes.
    pub open(crate) spec fn spec_tokens(&self, input: Seq<u32>, unk: usize) -> Seq<(usize, usize)> {
        greedy_tokens(self.sam@, self.vocab@, input, unk)
    }

    /// The vocabulary trie the tokenizer was built from.
    pub open(crate) spec fn spec_vocab(&self) -> TrieView {
        self.vocab@
    }

    pub open(crate) spec fn wf(&self) -> bool {
        tokenizer_built_from(self.raw, self.sam@, self.vocab@)
    }

    /// The automaton the tokenizer matches with.
    pub open(crate) spec fn spec_sam(&self) -> GeneralSam {
        self.sam
    }

    /// The tokenizer of the accepting nodes of a trie over an automaton; both
    /// must share one alphabet.
    pub fn from_sam_and_trie(sam: &GeneralSam, trie: &Trie) -> (r: Result<Self, SymbolError>)
        requires
            sam.wf(),
            trie.wf(),
        ensures
            sam.spec_kind() != trie.spec_kind() ==> r == Err::<Self, SymbolError>(
                SymbolError::Inconsistent { left: sam.spec_kind(), right: trie.spec_kind() },
            ),
            sam.spec_kind() == trie.spec_kind() ==> {
                &&& r is Ok
                &&& r->Ok_0.spec_kind() == sam.spec_kind()
                &&& r->Ok_0.spec_sam()@ == sam@
                &&& r->Ok_0.spec_sam().spec_kind() == sam.spec_kind()
                &&& r->Ok_0.spec_sam().spec_corpus() == sam.spec_corpus()
                &&& r->Ok_0.spec_sam().spec_accepted() == sam.spec_accepted()
                &&& r->Ok_0.spec_sam().wf()
                &&& r->Ok_0.spec_vocab() == trie@
                &&& r->Ok_0.wf()
            },
    {
        match check_same_kind(sam.kind, trie.kind) {
            Ok(kind) => {
                let ghost vocab = trie@;
                Ok(
                    GreedyTokenizer {
                        kind,
                        sam: sam.share(),
                        vocab: Ghost(vocab),
                        raw: raw_tokenizer_build(&sam.raw, &trie.raw),
                    },
                )
            },
            Err(e) => Err(e),
        }
    }

    /// The automaton the tokenizer matches with.
    pub fn get_sam(&self) -> (r: GeneralSam)
        ensures
            r@ == self.spec_sam()@,
            r.spec_kind() == self.spec_sam().spec_kind(),
            r.spec_corpus() == self.spec_sam().spec_corpus(),
            r.spec_accepted() == self.spec_sam().spec_accepted(),
            self.spec_sam().wf() ==> r.wf(),
    {
        self.sam.share()
    }

    pub fn is_in_chars(&self) -> (r: bool)
        ensures
            r == (self.spec_kind() == SymbolKind::Chars),
    {
        self.kind == SymbolKind::Chars
    }

    pub fn is_in_bytes(&self) -> (r: bool)
        ensures
            r == (self.spec_kind() == SymbolKind::Bytes),
    {
        self.kind == SymbolKind::Bytes
    }

    /// Splits symbol codes into greedy longest matches; a run of symbols that
    /// start no match becomes one `unk_token_id` token as long as the run.
    pub fn tokenize_symbols(&self, s: &Vec<u32>, unk_token_id: usize) -> (r: Vec<(usize, usize)>)
        requires
            self.wf(),
        ensures
            r@ == self.spec_tokens(s@, unk_token_id),
            covers(r@, s@.len()),
            tokens_from_vocab(self.spec_vocab(), s@, unk_token_id, r@),
    {
        let r = raw_tokenize(self, s, unk_token_id);
        proof {
            lemma_token_spans(r@, s@.len());
        }
        r
    }

    /// Tokenizes a text: its characters with a character tokenizer, the
    /// bytes of its UTF-8 encoding with a byte tokenizer.
    pub fn tokenize_str(&self, s: &str, unk_token_id: usize) -> (r: Vec<(usize, usize)>)
        requires
            self.wf(),
        ensures
            r@ == self.spec_tokens(text_symbols(self.spec_kind(), s@), unk_token_id),
            covers(r@, text_symbols(self.spec_kind(), s@).len()),
            tokens_from_vocab(
                self.spec_vocab(),
                text_symbols(self.spec_kind(), s@),
                unk_token_id,
                r@,
            ),
    {
        let codes = text_symbols_of(self.kind, s);
        self.tokenize_symbols(&codes, unk_token_id)
    }

    /// Tokenizes bytes: the characters they decode to with a character
    /// tokenizer, the bytes themselves with a byte tokenizer. A character
    /// tokenizer refuses bytes that are not valid UTF-8.
    pub fn tokenize_bytes(&self, b: &[u8], unk_token_id: usize) -> (r: Result<
        Vec<(usize, usize)>,
        SymbolError,
    >)
        requires
            self.wf(),
        ensures
            bytes_symbols(self.spec_kind(), b@) is None ==> r == Err::<
                Vec<(usize, usize)>,
                SymbolError,
            >(SymbolError::InvalidUtf8),
            bytes_symbols(self.spec_kind(), b@) is Some ==> {
                let input = bytes_symbols(self.spec_kind(), b@)->0;
                &&& r is Ok
                &&& r->Ok_0@ == self.spec_tokens(input, unk_token_id)
                &&& covers(r->Ok_0@, input.len())
                &&& tokens_from_vocab(self.spec_vocab(), input, unk_token_id, r->Ok_0@)
            },
    {
        match bytes_symbols_of(self.kind, b) {
            Ok(codes) => Ok(self.tokenize_symbols(&codes, unk_token_id)),
            Err(e) => Err(e),
        }
    }
}

} // verus!
