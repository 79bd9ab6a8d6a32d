use forthright_qa::answer::first_choice_content;
use forthright_qa::codec::decode_vector;
use forthright_qa::codec::encode_vector;
use forthright_qa::errors::Error;
use forthright_qa::rank::rank_indices;
use forthright_qa::rank::select_texts;
use forthright_qa::segment::segment_document;
use forthright_qa::store::build_store;
use forthright_qa::store::chunk_passages;
use forthright_qa::store::flatten_batches;

const MIN_LEN: usize = 64;

fn bytes(s: &str) -> Vec<u8> {
    s.as_bytes().to_vec()
}

#[test]
fn segment_one_block_joins_long_lines() {
    let line1 = "a".repeat(70);
    let line2 = "b".repeat(70);
    let doc = bytes(&format!("{line1}\nhdr\n{line2}"));
    let passages = segment_document(&doc, MIN_LEN);
    assert_eq!(passages.len(), 1);
    assert_eq!(passages[0], bytes(&format!("{line1} {line2}")));
}

#[test]
fn segment_two_blocks_in_order() {
    let line1 = "a".repeat(70);
    let line2 = "c".repeat(65);
    let doc = bytes(&format!("{line1}\n\n\n{line2}"));
    let passages = segment_document(&doc, MIN_LEN);
    assert_eq!(passages.len(), 2);
    assert_eq!(passages[0], bytes(&line1));
    assert_eq!(passages[1], bytes(&line2));
}

#[test]
fn segment_normalizes_non_breaking_space() {
    let left = "d".repeat(40);
    let right = "e".repeat(40);
    let doc = bytes(&format!("{left}\u{a0}{right}"));
    let passages = segment_document(&doc, MIN_LEN);
    assert_eq!(passages.len(), 1);
    assert_eq!(passages[0], bytes(&format!("{left} {right}")));
}

#[test]
fn segment_splits_on_double_space() {
    let left = "f".repeat(70);
    let right = "g".repeat(70);
    let doc = bytes(&format!("{left}  {right}"));
    let passages = segment_document(&doc, MIN_LEN);
    assert_eq!(passages.len(), 2);
    assert_eq!(passages[0], bytes(&left));
    assert_eq!(passages[1], bytes(&right));
}

#[test]
fn segment_drops_short_pieces_after_double_space_split() {
    let left = "f".repeat(70);
    let right = "g".repeat(30);
    let doc = bytes(&format!("{left}  {right}"));
    let passages = segment_document(&doc, MIN_LEN);
    assert_eq!(passages.len(), 1);
    assert_eq!(passages[0], bytes(&left));
}

#[test]
fn segment_long_line_of_short_pieces_yields_nothing() {
    // The line itself is longer than the minimum, but every double-space
    // piece is short, so nothing survives.
    let doc = bytes(&format!("{}  {}", "h".repeat(33), "i".repeat(33)));
    let passages = segment_document(&doc, MIN_LEN);
    assert_eq!(passages.len(), 0);
}

#[test]
fn segment_messy_document_with_one_clean_block_keeps_it() {
    // The first and last blocks dissolve entirely; the clean middle block
    // survives as a passage.
    let clean = "j".repeat(70);
    let doc = bytes(&format!("short
lines
only


{clean}


{}  {}", "k".repeat(33), "l".repeat(33)));
    let passages = segment_document(&doc, MIN_LEN);
    assert_eq!(passages.len(), 1);
    assert_eq!(passages[0], bytes(&clean));
}

#[test]
fn segment_empty_document_yields_nothing() {
    let passages = segment_document(&Vec::new(), MIN_LEN);
    assert_eq!(passages.len(), 0);
}

#[test]
fn segment_every_passage_longer_than_minimum() {
    let doc = bytes(&format!(
        "{}\nshort\n{}\n\n\n{}  {}",
        "a".repeat(70),
        "b".repeat(65),
        "c".repeat(80),
        "d".repeat(10)
    ));
    for p in segment_document(&doc, MIN_LEN) {
        assert!(p.len() > MIN_LEN);
    }
}

#[test]
fn rank_orders_by_descending_score() {
    let scores: Vec<u64> = vec![50, 90, 70];
    let order = rank_indices(&scores);
    assert_eq!(order, vec![1, 2, 0]);
}

#[test]
fn rank_breaks_ties_by_position() {
    let scores: Vec<u64> = vec![50, 90, 50];
    let order = rank_indices(&scores);
    assert_eq!(order, vec![1, 0, 2]);
}

#[test]
fn rank_is_permutation_of_positions() {
    let scores: Vec<u64> = vec![5, 5, 5, 1, 9];
    let mut order = rank_indices(&scores);
    assert_eq!(order.len(), scores.len());
    order.sort();
    assert_eq!(order, vec![0, 1, 2, 3, 4]);
}

#[test]
fn select_texts_follows_order() {
    let texts = vec![bytes("alpha"), bytes("beta"), bytes("gamma")];
    let order: Vec<usize> = vec![2, 0, 1];
    let picked = select_texts(&texts, &order);
    assert_eq!(picked, vec![bytes("gamma"), bytes("alpha"), bytes("beta")]);
}

#[test]
fn encode_uses_sixteen_digits_per_component() {
    let v: Vec<u64> = vec![1, 0xdeadbeef];
    let encoded = encode_vector(&v);
    assert_eq!(encoded, bytes("000000000000000100000000deadbeef"));
}

#[test]
fn codec_round_trips_float_bit_patterns() {
    let floats = [0.5f64, -1.25, 0.0, 3.141592653589793, f64::MAX];
    let v: Vec<u64> = floats.iter().map(|f| f.to_bits()).collect();
    let encoded = encode_vector(&v);
    let decoded = decode_vector(&encoded).expect("well-formed encoding");
    assert_eq!(decoded, v);
    let back: Vec<f64> = decoded.iter().map(|b| f64::from_bits(*b)).collect();
    assert_eq!(back.to_vec(), floats.to_vec());
}

#[test]
fn decode_rejects_bad_digit() {
    let r = decode_vector(&bytes("00000000000000zz"));
    assert_eq!(r, Err(Error::MalformedEncoding));
}

#[test]
fn decode_rejects_ragged_length() {
    let r = decode_vector(&bytes("0123"));
    assert_eq!(r, Err(Error::MalformedEncoding));
}

#[test]
fn decode_accepts_empty_encoding() {
    let r = decode_vector(&Vec::new());
    assert_eq!(r, Ok(Vec::new()));
}

#[test]
fn build_store_pairs_in_order() {
    let texts = vec![bytes("first passage"), bytes("second passage")];
    let vectors: Vec<Vec<u64>> = vec![vec![1, 2, 3], vec![4, 5, 6]];
    let store = build_store(&texts, &vectors, 3).expect("valid build");
    assert_eq!(store.dim, 3);
    assert_eq!(store.entries.len(), 2);
    assert_eq!(store.entries[0].text, bytes("first passage"));
    assert_eq!(store.entries[0].vector, vec![1, 2, 3]);
    assert_eq!(store.entries[1].text, bytes("second passage"));
    assert_eq!(store.entries[1].vector, vec![4, 5, 6]);
}

#[test]
fn build_store_rejects_wrong_dimensionality() {
    let texts = vec![bytes("first passage"), bytes("second passage")];
    let vectors: Vec<Vec<u64>> = vec![vec![1, 2, 3], vec![4, 5]];
    let r = build_store(&texts, &vectors, 3);
    assert!(matches!(r, Err(Error::WrongDimension)));
}

#[test]
fn build_store_rejects_count_mismatch() {
    let texts = vec![bytes("first passage")];
    let vectors: Vec<Vec<u64>> = vec![vec![1], vec![2]];
    let r = build_store(&texts, &vectors, 1);
    assert!(matches!(r, Err(Error::LengthMismatch)));
}

#[test]
fn build_store_rejects_empty_passage() {
    let texts = vec![Vec::new()];
    let vectors: Vec<Vec<u64>> = vec![vec![1]];
    let r = build_store(&texts, &vectors, 1);
    assert!(matches!(r, Err(Error::EmptyPassage)));
}

#[test]
fn chunks_respect_batch_size_and_order() {
    let texts: Vec<Vec<u8>> = (0..5).map(|i| bytes(&format!("passage {i}"))).collect();
    let batches = chunk_passages(&texts, 2);
    assert_eq!(batches.len(), 3);
    assert_eq!(batches[0].len(), 2);
    assert_eq!(batches[1].len(), 2);
    assert_eq!(batches[2].len(), 1);
    let joined: Vec<Vec<u8>> = batches.into_iter().flatten().collect();
    assert_eq!(joined, texts);
}

#[test]
fn flatten_keeps_batch_and_item_order() {
    let batches: Vec<Vec<Vec<u64>>> = vec![vec![vec![1], vec![2]], vec![vec![3]]];
    let flat = flatten_batches(&batches);
    assert_eq!(flat, vec![vec![1], vec![2], vec![3]]);
}

#[test]
fn answer_without_choices_is_no_completion() {
    let r = first_choice_content(Vec::new());
    assert_eq!(r, Err(Error::NoCompletion));
    assert_eq!(
        Error::NoCompletion.describe(),
        "No completion returned"
    );
}

#[test]
fn every_failure_reads_differently() {
    assert_eq!(Error::MalformedEncoding.describe(), "malformed stored vector encoding");
    assert_eq!(
        Error::LengthMismatch.describe(),
        "embedding count does not match passage count"
    );
    assert_eq!(Error::WrongDimension.describe(), "embedding vector of wrong dimensionality");
    assert_eq!(Error::EmptyPassage.describe(), "empty passage text");
    assert_eq!(Error::NoCompletion.describe(), "No completion returned");
    assert_eq!(Error::NoCompletionMessage.describe(), "No completion message!");
    let texts = [
        Error::MalformedEncoding.describe(),
        Error::LengthMismatch.describe(),
        Error::WrongDimension.describe(),
        Error::EmptyPassage.describe(),
        Error::NoCompletion.describe(),
        Error::NoCompletionMessage.describe(),
    ];
    for i in 0..texts.len() {
        for j in 0..texts.len() {
            if i != j {
                assert_ne!(texts[i], texts[j]);
            }
        }
    }
}

#[test]
fn answer_without_content_is_no_completion_message() {
    let r = first_choice_content(vec![None, Some(bytes("ignored"))]);
    assert_eq!(r, Err(Error::NoCompletionMessage));
    assert_ne!(Error::NoCompletion, Error::NoCompletionMessage);
}

#[test]
fn answer_takes_first_choice_content() {
    let r = first_choice_content(vec![Some(bytes("the answer")), Some(bytes("other"))]);
    assert_eq!(r, Ok(bytes("the answer")));
}

#[test]
fn store_append_keeps_invariant_and_order() {
    let texts = vec![bytes("the opening passage of the corpus")];
    let vectors: Vec<Vec<u64>> = vec![vec![1, 2]];
    let mut store = build_store(&texts, &vectors, 2).expect("valid build");

    assert!(store.push_entry(bytes("the closing passage of the corpus"), vec![3, 4]).is_ok());
    assert_eq!(store.entries.len(), 2);
    assert_eq!(store.entries[1].text, bytes("the closing passage of the corpus"));
    assert_eq!(store.entries[1].vector, vec![3, 4]);

    assert_eq!(
        store.push_entry(bytes("a vector of the wrong size"), vec![5]),
        Err(Error::WrongDimension)
    );
    assert_eq!(store.push_entry(Vec::new(), vec![5, 6]), Err(Error::EmptyPassage));
    assert_eq!(store.entries.len(), 2);
}

#[test]
fn store_full_scan_lists_texts_in_order() {
    let texts = vec![bytes("first passage of the scan"), bytes("second passage of the scan")];
    let vectors: Vec<Vec<u64>> = vec![vec![1], vec![2]];
    let store = build_store(&texts, &vectors, 1).expect("valid build");
    assert_eq!(store.texts(), texts);
    assert_eq!(store.len(), 2);
}
