//! Greedy token-budgeted prompt assembly.
//!
//! Ranked passages are packed into the prompt in order; each candidate
//! prompt is tokenized whole, and packing stops at the first passage whose
//! block would push the prompt past the budget. The packed passages are
//! therefore a prefix of the ranked list, never a reordering.

use vstd::prelude::*;
use vstd::string::StrSliceExecFns;
use vstd::string::StringSliceAdditionalSpecFns;

use crate::bytes::append_bytes;
use crate::bytes::copy_bytes;
use crate::rank::rank_indices;
use crate::rank::rank_spec;
use crate::rank::select_texts;
use crate::store::Store;

verus! {

#[verifier::external_type_specification]
#[verifier::external_body]
pub struct ExCoreBPE(tiktoken_rs::CoreBPE);

/// The number of cl100k_base tokens of a byte string. The tokenizer is a
/// fixed vocabulary and a fixed procedure, so the count is a function of
/// the bytes alone; bytes that are not valid UTF-8 are counted as the text
/// their lossy conversion gives, and a text the tokenizer's regex engine
/// gives up on counts as the largest possible value.
pub uninterp spec fn token_count_of(s: Seq<u8>) -> nat;

/// The cl100k_base tokenizer, the vocabulary of the observed embedding and
/// completion models. Every value of this type carries that one vocabulary:
/// the only constructor builds it.
pub struct Tokenizer {
    bpe: tiktoken_rs::CoreBPE,
}

impl Tokenizer {
    /// Relies on tiktoken_rs::cl100k_base: builds the cl100k_base
    /// tokenizer from its embedded vocabulary; a malformed vocabulary is
    /// the one failure mode, reported here as None.
    #[verifier::external_body]
    pub fn new() -> (r: Option<Tokenizer>) {
        match tiktoken_rs::cl100k_base() {
            Ok(bpe) => Some(Tokenizer { bpe }),
            Err(_) => None,
        }
    }

    /// Relies on tiktoken_rs::CoreBPE::encode, called as
    /// encode_with_special_tokens calls it (all special tokens allowed):
    /// for one vocabulary the token count is a deterministic function of
    /// the text, and the text here is a deterministic function of the
    /// bytes. An unencodable text — possible only if the regex engine's
    /// backtracking limit is hit — is mapped to the largest count rather
    /// than a panic.
    #[verifier::external_body]
    pub(crate) fn count_tokens(&self, s: &Vec<u8>) -> (n: usize)
        ensures
            n == token_count_of(s@),
    {
        let text = String::from_utf8_lossy(s.as_slice());
        let allowed = self.bpe.special_tokens();
        match self.bpe.encode(&text, &allowed) {
            Ok((tokens, _)) => tokens.len(),
            Err(_) => usize::MAX,
        }
    }
}

/// The fixed instruction that opens every prompt.
pub open spec fn preamble_text() -> Seq<u8> {
    "Use the below Forthright documents to answer the subsequent question. If the answer cannot be found in the documents, write \"I could not find an answer.\"".spec_bytes()
}

/// The bytes before a packed passage in its document block.
pub open spec fn doc_prefix() -> Seq<u8> {
    "\\n\\nForthright document part:\\n\"\"\"\\n".spec_bytes()
}

/// The bytes after a packed passage in its document block.
pub open spec fn doc_suffix() -> Seq<u8> {
    "\\n\"\"\"".spec_bytes()
}

/// The tag before the question's own text.
pub open spec fn question_prefix() -> Seq<u8> {
    "Question: ".spec_bytes()
}

/// The blank line between the packed documents and the question.
pub open spec fn joiner() -> Seq<u8> {
    "\n\n".spec_bytes()
}

/// A passage formatted as one document block.
pub open spec fn block_of(t: Seq<u8>) -> Seq<u8> {
    doc_prefix() + t + doc_suffix()
}

/// The question line: the tag followed by the raw question.
pub open spec fn question_line(raw: Seq<u8>) -> Seq<u8> {
    question_prefix() + raw
}

/// A message with the question appended after a blank line — the form in
/// which every candidate prompt is tokenized and the final prompt is
/// emitted.
pub open spec fn with_question(msg: Seq<u8>, q: Seq<u8>) -> Seq<u8> {
    msg + joiner() + q
}

/// How many leading passages fit: the greedy count, stopping at the first
/// passage whose block pushes the tokenized prompt past the budget.
pub open spec fn packed_count(msg: Seq<u8>, ts: Seq<Seq<u8>>, q: Seq<u8>, budget: nat) -> nat
    decreases ts.len(),
{
    if ts.len() == 0 {
        0
    } else {
        let c = msg + block_of(ts[0]);
        if token_count_of(with_question(c, q)) <= budget {
            1 + packed_count(c, ts.skip(1), q, budget)
        } else {
            0
        }
    }
}

/// The message after greedy packing: the accumulated message once the
/// first passage that does not fit — or the end of the list — is reached.
pub open spec fn assembled_message(msg: Seq<u8>, ts: Seq<Seq<u8>>, q: Seq<u8>, budget: nat) -> Seq<
    u8,
>
    decreases ts.len(),
{
    if ts.len() == 0 {
        msg
    } else {
        let c = msg + block_of(ts[0]);
        if token_count_of(with_question(c, q)) <= budget {
            assembled_message(c, ts.skip(1), q, budget)
        } else {
            msg
        }
    }
}

/// The document blocks of consecutive passages, concatenated.
pub open spec fn blocks_concat(ts: Seq<Seq<u8>>) -> Seq<u8>
    decreases ts.len(),
{
    if ts.len() == 0 {
        Seq::empty()
    } else {
        block_of(ts[0]) + blocks_concat(ts.skip(1))
    }
}

/// What greedy packing emits: the starting message followed by the blocks
/// of exactly the packed prefix of the ranked passages, in ranked order.
pub proof fn lemma_assembled_shape(msg: Seq<u8>, ts: Seq<Seq<u8>>, q: Seq<u8>, budget: nat)
    ensures
        packed_count(msg, ts, q, budget) <= ts.len(),
        assembled_message(msg, ts, q, budget) == msg + blocks_concat(
            ts.take(packed_count(msg, ts, q, budget) as int),
        ),
    decreases ts.len(),
{
    let pc = packed_count(msg, ts, q, budget);
    if ts.len() == 0 {
        assert(ts.take(0) =~= ts);
        assert(msg + blocks_concat(ts.take(0)) =~= msg);
    } else {
        let c = msg + block_of(ts[0]);
        if token_count_of(with_question(c, q)) <= budget {
            lemma_assembled_shape(c, ts.skip(1), q, budget);
            let pc1 = packed_count(c, ts.skip(1), q, budget);
            assert(ts.take(pc as int).skip(1) =~= ts.skip(1).take(pc1 as int));
            assert(ts.take(pc as int)[0] == ts[0]);
            assert(blocks_concat(ts.take(pc as int)) == block_of(ts[0]) + blocks_concat(
                ts.skip(1).take(pc1 as int),
            ));
            assert(msg + (block_of(ts[0]) + blocks_concat(ts.skip(1).take(pc1 as int))) =~= (msg
                + block_of(ts[0])) + blocks_concat(ts.skip(1).take(pc1 as int)));
        } else {
            assert(ts.take(0) =~= Seq::<Seq<u8>>::empty());
            assert(msg + blocks_concat(ts.take(0)) =~= msg);
        }
    }
}

/// The packed prompt respects the budget: when at least one passage is
/// packed, the assembled message tokenized together with the question stays
/// within the budget; when none is, the assembled message is the starting
/// message itself.
pub proof fn lemma_assembled_fits(msg: Seq<u8>, ts: Seq<Seq<u8>>, q: Seq<u8>, budget: nat)
    ensures
        packed_count(msg, ts, q, budget) == 0 ==> assembled_message(msg, ts, q, budget) == msg,
        packed_count(msg, ts, q, budget) > 0 ==> token_count_of(
            with_question(assembled_message(msg, ts, q, budget), q),
        ) <= budget,
        token_count_of(with_question(msg, q)) <= budget ==> token_count_of(
            with_question(assembled_message(msg, ts, q, budget), q),
        ) <= budget,
    decreases ts.len(),
{
    if ts.len() == 0 {
    } else {
        let c = msg + block_of(ts[0]);
        if token_count_of(with_question(c, q)) <= budget {
            lemma_assembled_fits(c, ts.skip(1), q, budget);
        }
    }
}

/// Shrinking the budget never packs more passages: the greedy count is
/// monotone in the budget.
pub proof fn lemma_packing_monotone(
    msg: Seq<u8>,
    ts: Seq<Seq<u8>>,
    q: Seq<u8>,
    b1: nat,
    b2: nat,
)
    requires
        b1 <= b2,
    ensures
        packed_count(msg, ts, q, b1) <= packed_count(msg, ts, q, b2),
    decreases ts.len(),
{
    if ts.len() == 0 {
    } else {
        let c = msg + block_of(ts[0]);
        if token_count_of(with_question(c, q)) <= b1 {
            lemma_packing_monotone(c, ts.skip(1), q, b1, b2);
        }
    }
}

fn question_line_bytes(question_raw: &Vec<u8>) -> (r: Vec<u8>)
    ensures
        r@ == question_line(question_raw@),
{
    let mut r = ("Question: ").as_bytes_vec();
    append_bytes(&mut r, question_raw);
    r
}

fn preamble_bytes() -> (r: Vec<u8>)
    ensures
        r@ == preamble_text(),
{
    ("Use the below Forthright documents to answer the subsequent question. If the answer cannot be found in the documents, write \"I could not find an answer.\"").as_bytes_vec()
}

fn block_bytes(t: &Vec<u8>) -> (r: Vec<u8>)
    ensures
        r@ == block_of(t@),
{
    let mut r = ("\\n\\nForthright document part:\\n\"\"\"\\n").as_bytes_vec();
    append_bytes(&mut r, t);
    let suffix = ("\\n\"\"\"").as_bytes_vec();
    append_bytes(&mut r, &suffix);
    r
}

fn with_question_bytes(msg: &Vec<u8>, q: &Vec<u8>) -> (r: Vec<u8>)
    ensures
        r@ == with_question(msg@, q@),
{
    let mut r = copy_bytes(msg);
    let sep = ("\n\n").as_bytes_vec();
    append_bytes(&mut r, &sep);
    append_bytes(&mut r, q);
    r
}

/// Packs ranked passages greedily under the token budget and emits the
/// final prompt: the fixed preamble, the blocks of the longest prefix of
/// passages that fits, and the tagged question after a blank line.
pub fn assemble_context(
    tok: &Tokenizer,
    texts: &Vec<Vec<u8>>,
    question_raw: &Vec<u8>,
    budget: usize,
) -> (r: Vec<u8>)
    ensures
        r@ == with_question(
            assembled_message(
                preamble_text(),
                texts.deep_view(),
                question_line(question_raw@),
                budget as nat,
            ),
            question_line(question_raw@),
        ),
{
    let q = question_line_bytes(question_raw);
    let mut msg = preamble_bytes();
    let ghost dv = texts.deep_view();
    let ghost qv = question_line(question_raw@);
    let mut i: usize = 0;
    let mut done = false;
    proof {
        assert(dv.skip(0) =~= dv);
    }
    while i < texts.len() && !done
        invariant
            i <= texts@.len(),
            dv == texts.deep_view(),
            qv == question_line(question_raw@),
            q@ == qv,
            !done ==> assembled_message(msg@, dv.skip(i as int), qv, budget as nat)
                == assembled_message(preamble_text(), dv, qv, budget as nat),
            done ==> msg@ == assembled_message(preamble_text(), dv, qv, budget as nat),
        decreases texts@.len() - i, (if done { 0int } else { 1int }),
    {
        let block = block_bytes(&texts[i]);
        let mut cand = copy_bytes(&msg);
        append_bytes(&mut cand, &block);
        let cand_q = with_question_bytes(&cand, &q);
        proof {
            assert(dv.skip(i as int)[0] == texts@[i as int]@);
            assert(dv.skip(i as int).skip(1) =~= dv.skip(i + 1));
        }
        let n = tok.count_tokens(&cand_q);
        if n > budget {
            done = true;
        } else {
            msg = cand;
            i = i + 1;
        }
    }
    proof {
        if !done {
            assert(dv.skip(i as int) =~= Seq::<Seq<u8>>::empty());
            assert(assembled_message(msg@, dv.skip(i as int), qv, budget as nat) == msg@);
        }
    }
    let r = with_question_bytes(&msg, &q);
    r
}

/// The store's passage texts in ranked order for the given scores.
pub open spec fn ranked_texts_spec(store: Store, scores: Seq<u64>) -> Seq<Seq<u8>> {
    let order = rank_spec(scores);
    Seq::new(order.len(), |k: int| store.entries@[order[k] as int].text@)
}

/// The ranked passage list holds exactly the store's passages: its entry
/// `k` is the passage at ranked position `k`, and the ranked positions are
/// a permutation of the store's positions — none added, none left out,
/// none repeated.
pub proof fn lemma_ranked_texts_permutation(store: Store, scores: Seq<u64>)
    requires
        scores.len() == store.entries@.len(),
        scores.len() <= usize::MAX,
    ensures
        ranked_texts_spec(store, scores).len() == store.entries@.len(),
        forall|k: int|
            0 <= k < ranked_texts_spec(store, scores).len() ==> #[trigger] ranked_texts_spec(
                store,
                scores,
            )[k] == store.entries@[rank_spec(scores)[k] as int].text@,
        rank_spec(scores).len() == store.entries@.len(),
        rank_spec(scores).no_duplicates(),
        forall|y: usize| #[trigger] rank_spec(scores).contains(y) <==> (y as int) < scores.len(),
{
    crate::rank::lemma_rank_permutation(scores);
}

/// Builds the full query prompt: ranks the store's passages by the given
/// scores, then packs them greedily under the budget around the fixed
/// preamble and the tagged question.
pub fn build_query_message(
    tok: &Tokenizer,
    store: &Store,
    scores: &Vec<u64>,
    question_raw: &Vec<u8>,
    budget: usize,
) -> (r: Vec<u8>)
    requires
        scores@.len() == store.entries@.len(),
    ensures
        r@ == with_question(
            assembled_message(
                preamble_text(),
                ranked_texts_spec(*store, scores@),
                question_line(question_raw@),
                budget as nat,
            ),
            question_line(question_raw@),
        ),
{
    let order = rank_indices(scores);
    let texts = store.texts();
    let ranked = select_texts(&texts, &order);
    proof {
        assert(ranked.deep_view() =~~= ranked_texts_spec(*store, scores@));
    }
    assemble_context(tok, &ranked, question_raw, budget)
}

} // verus!
