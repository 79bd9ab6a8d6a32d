use forthright_qa::assemble::assemble_context;
use forthright_qa::assemble::build_query_message;
use forthright_qa::assemble::Tokenizer;
use forthright_qa::store::build_store;

const PREAMBLE: &str = "Use the below Forthright documents to answer the subsequent question. If the answer cannot be found in the documents, write \"I could not find an answer.\"";

fn block(text: &str) -> String {
    format!(r#"\n\nForthright document part:\n"""\n{text}\n""""#)
}

fn reference_token_count(text: &str) -> usize {
    let bpe = tiktoken_rs::cl100k_base().expect("reference tokenizer");
    bpe.encode_with_special_tokens(text).len()
}

#[test]
fn tokenizer_is_available() {
    assert!(Tokenizer::new().is_some());
}

#[test]
fn budget_of_bare_prompt_packs_no_passage() {
    let tok = Tokenizer::new().expect("tokenizer");
    let question = "Question: what do the documents say?";
    let bare = format!("{PREAMBLE}\n\n{question}");
    let budget = reference_token_count(&bare);
    let texts = vec![
        "The first document passage, long enough to cost several tokens."
            .as_bytes()
            .to_vec(),
    ];
    let raw_question = "what do the documents say?".as_bytes().to_vec();
    let out = assemble_context(&tok, &texts, &raw_question, budget);
    assert_eq!(out, bare.into_bytes());
}

#[test]
fn budget_for_one_block_packs_exactly_one() {
    let tok = Tokenizer::new().expect("tokenizer");
    let question = "Question: which colour is named?";
    let a = "Passage alpha speaks of the colour crimson at considerable length.";
    let b = "Passage beta speaks of the colour viridian at considerable length.";
    let budget = reference_token_count(&format!("{PREAMBLE}{}\n\n{question}", block(a)));
    let texts = vec![a.as_bytes().to_vec(), b.as_bytes().to_vec()];
    let raw_question = "which colour is named?".as_bytes().to_vec();
    let out = assemble_context(&tok, &texts, &raw_question, budget);
    let expected = format!("{PREAMBLE}{}\n\n{question}", block(a));
    assert_eq!(out, expected.into_bytes());
}

#[test]
fn ranked_packing_keeps_first_two_and_stops() {
    let tok = Tokenizer::new().expect("tokenizer");
    let a = "Document alpha holds the answer and is ranked most related of all.";
    let b = "Document beta holds supporting detail and is ranked in the middle.";
    let c = "Document gamma holds an unrelated remark and is ranked at the end.";
    let texts: Vec<Vec<u8>> = [a, b, c].iter().map(|s| s.as_bytes().to_vec()).collect();
    let vectors: Vec<Vec<u64>> = vec![vec![1], vec![2], vec![3]];
    let store = build_store(&texts, &vectors, 1).expect("valid build");
    let scores: Vec<u64> = vec![90, 50, 50];

    let question = "Question: what does alpha hold?";
    let budget =
        reference_token_count(&format!("{PREAMBLE}{}{}\n\n{question}", block(a), block(b)));
    let raw_question = "what does alpha hold?".as_bytes().to_vec();
    let out = build_query_message(&tok, &store, &scores, &raw_question, budget);
    let expected = format!("{PREAMBLE}{}{}\n\n{question}", block(a), block(b));
    assert_eq!(out, expected.into_bytes());
}

#[test]
fn equal_scores_pack_in_store_order() {
    let tok = Tokenizer::new().expect("tokenizer");
    let a = "Entry one of the store is as related as its twin further along it.";
    let b = "Entry two of the store is as related as its twin earlier along it.";
    let texts: Vec<Vec<u8>> = [a, b].iter().map(|s| s.as_bytes().to_vec()).collect();
    let vectors: Vec<Vec<u64>> = vec![vec![7], vec![8]];
    let store = build_store(&texts, &vectors, 1).expect("valid build");
    let scores: Vec<u64> = vec![60, 60];

    let question = "Question: which entry comes first?";
    let budget = reference_token_count(&format!(
        "{PREAMBLE}{}{}\n\n{question}",
        block(a),
        block(b)
    ));
    let raw_question = "which entry comes first?".as_bytes().to_vec();
    let out = build_query_message(&tok, &store, &scores, &raw_question, budget);
    let expected = format!("{PREAMBLE}{}{}\n\n{question}", block(a), block(b));
    assert_eq!(out, expected.into_bytes());
}

#[test]
fn reducing_budget_never_packs_more() {
    let tok = Tokenizer::new().expect("tokenizer");
    let a = "Passage one is long enough to cost a good number of model tokens.";
    let b = "Passage two is long enough to cost a good number of model tokens.";
    let texts: Vec<Vec<u8>> = [a, b].iter().map(|s| s.as_bytes().to_vec()).collect();
    let raw_question = "how many passages fit?".as_bytes().to_vec();
    let question = "Question: how many passages fit?";

    let small = reference_token_count(&format!("{PREAMBLE}\n\n{question}"));
    let large = reference_token_count(&format!(
        "{PREAMBLE}{}{}\n\n{question}",
        block(a),
        block(b)
    ));
    let out_small = assemble_context(&tok, &texts, &raw_question, small);
    let out_large = assemble_context(&tok, &texts, &raw_question, large);

    let marker = "Forthright document part";
    let count = |out: &[u8]| {
        String::from_utf8(out.to_vec())
            .unwrap()
            .matches(marker)
            .count()
    };
    assert_eq!(count(&out_small), 0);
    assert_eq!(count(&out_large), 2);
    assert!(count(&out_small) <= count(&out_large));
}
