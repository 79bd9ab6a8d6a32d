//! Splits raw documents into candidate passages.
//!
//! A document is cut into blocks at triple-newline boundaries; within each
//! block, lines above a minimum length are kept and rejoined with single
//! spaces, non-breaking spaces are normalized to plain spaces, the result is
//! re-split on double spaces, and only pieces above the minimum length
//! survive as passages.

use vstd::prelude::*;

use crate::bytes::copy_bytes;
use crate::bytes::starts_with;
use crate::bytes::tail_from;

verus! {

/// Splitting `s` at each non-overlapping occurrence of `p`, scanning left to
/// right; the result always has at least one piece, and consecutive
/// occurrences of `p` yield empty pieces.
pub open spec fn split_spec(s: Seq<u8>, p: Seq<u8>) -> Seq<Seq<u8>>
    recommends
        p.len() > 0,
    decreases s.len(),
{
    if p.len() == 0 {
        seq![s]
    } else if p.len() <= s.len() && s.take(p.len() as int) == p {
        seq![Seq::<u8>::empty()] + split_spec(s.skip(p.len() as int), p)
    } else if s.len() == 0 {
        seq![s]
    } else {
        let rest = split_spec(s.skip(1), p);
        seq![seq![s[0]] + rest[0]] + rest.skip(1)
    }
}

/// Splits `s` at each occurrence of the pattern `p`.
pub fn split_on(s: &Vec<u8>, p: &Vec<u8>) -> (r: Vec<Vec<u8>>)
    requires
        p@.len() > 0,
    ensures
        r.deep_view() == split_spec(s@, p@),
        r@.len() >= 1,
    decreases s@.len(),
{
    if starts_with(s, p) {
        let t = tail_from(s, p.len());
        let mut rest = split_on(&t, p);
        rest.insert(0, Vec::new());
        proof {
            assert(rest.deep_view() =~~= split_spec(s@, p@));
        }
        rest
    } else if s.len() == 0 {
        let mut r: Vec<Vec<u8>> = Vec::new();
        r.push(Vec::new());
        proof {
            assert(r.deep_view() =~~= split_spec(s@, p@));
        }
        r
    } else {
        let t = tail_from(s, 1);
        let mut rest = split_on(&t, p);
        let mut first = rest.remove(0);
        first.insert(0, s[0]);
        rest.insert(0, first);
        proof {
            assert(rest.deep_view() =~~= split_spec(s@, p@));
        }
        rest
    }
}

/// Concatenation of the pieces with `sep` between consecutive pieces.
pub open spec fn join_spec(ps: Seq<Seq<u8>>, sep: Seq<u8>) -> Seq<u8>
    decreases ps.len(),
{
    if ps.len() == 0 {
        Seq::empty()
    } else if ps.len() == 1 {
        ps[0]
    } else {
        ps[0] + sep + join_spec(ps.skip(1), sep)
    }
}

fn join_from(ps: &Vec<Vec<u8>>, i: usize, sep: &Vec<u8>) -> (r: Vec<u8>)
    requires
        i <= ps@.len(),
    ensures
        r@ == join_spec(ps.deep_view().skip(i as int), sep@),
    decreases ps@.len() - i,
{
    if i == ps.len() {
        let r: Vec<u8> = Vec::new();
        proof {
            assert(r@ =~= join_spec(ps.deep_view().skip(i as int), sep@));
        }
        r
    } else if i + 1 == ps.len() {
        let r = copy_bytes(&ps[i]);
        proof {
            let dv = ps.deep_view().skip(i as int);
            assert(dv.len() == 1);
            assert(r@ =~= dv[0]);
        }
        r
    } else {
        let mut r = copy_bytes(&ps[i]);
        crate::bytes::append_bytes(&mut r, sep);
        let t = join_from(ps, i + 1, sep);
        crate::bytes::append_bytes(&mut r, &t);
        proof {
            assert(ps.deep_view().skip(i as int)[0] == ps@[i as int]@);
            assert(ps.deep_view().skip(i as int).skip(1) =~= ps.deep_view().skip(i + 1));
            assert(r@ =~= join_spec(ps.deep_view().skip(i as int), sep@));
        }
        r
    }
}

/// Joins the pieces with `sep` between consecutive pieces.
pub fn join_with(ps: &Vec<Vec<u8>>, sep: &Vec<u8>) -> (r: Vec<u8>)
    ensures
        r@ == join_spec(ps.deep_view(), sep@),
{
    let r = join_from(ps, 0, sep);
    proof {
        assert(ps.deep_view().skip(0) =~= ps.deep_view());
    }
    r
}

/// The pieces whose length exceeds `min`, in their original order.
pub open spec fn keep_long_spec(ps: Seq<Seq<u8>>, min: nat) -> Seq<Seq<u8>>
    decreases ps.len(),
{
    if ps.len() == 0 {
        Seq::empty()
    } else {
        let rest = keep_long_spec(ps.skip(1), min);
        if ps[0].len() > min {
            seq![ps[0]] + rest
        } else {
            rest
        }
    }
}

/// Every piece that the length filter keeps is longer than `min`.
pub proof fn lemma_keep_long_all(ps: Seq<Seq<u8>>, min: nat)
    ensures
        forall|k: int|
            0 <= k < keep_long_spec(ps, min).len() ==> #[trigger] keep_long_spec(ps, min)[k].len()
                > min,
    decreases ps.len(),
{
    if ps.len() == 0 {
    } else {
        lemma_keep_long_all(ps.skip(1), min);
        let rest = keep_long_spec(ps.skip(1), min);
        if ps[0].len() > min {
            assert forall|k: int| 0 <= k < keep_long_spec(ps, min).len() implies #[trigger] keep_long_spec(
                ps,
                min,
            )[k].len() > min by {
                if k > 0 {
                    assert(keep_long_spec(ps, min)[k] == rest[k - 1]);
                }
            }
        } else {
            assert(keep_long_spec(ps, min) == rest);
        }
    }
}

fn keep_long_from(ps: &Vec<Vec<u8>>, i: usize, min: usize) -> (r: Vec<Vec<u8>>)
    requires
        i <= ps@.len(),
    ensures
        r.deep_view() == keep_long_spec(ps.deep_view().skip(i as int), min as nat),
    decreases ps@.len() - i,
{
    if i == ps.len() {
        let r: Vec<Vec<u8>> = Vec::new();
        proof {
            assert(r.deep_view() =~~= keep_long_spec(ps.deep_view().skip(i as int), min as nat));
        }
        r
    } else {
        let mut rest = keep_long_from(ps, i + 1, min);
        if ps[i].len() > min {
            rest.insert(0, copy_bytes(&ps[i]));
        }
        proof {
            assert(ps.deep_view().skip(i as int)[0] == ps@[i as int]@);
            assert(ps.deep_view().skip(i as int).skip(1) =~= ps.deep_view().skip(i + 1));
            assert(rest.deep_view() =~~= keep_long_spec(ps.deep_view().skip(i as int), min as nat));
        }
        rest
    }
}

/// Keeps the pieces whose byte length exceeds `min`.
pub fn keep_long(ps: &Vec<Vec<u8>>, min: usize) -> (r: Vec<Vec<u8>>)
    ensures
        r.deep_view() == keep_long_spec(ps.deep_view(), min as nat),
{
    let r = keep_long_from(ps, 0, min);
    proof {
        assert(ps.deep_view().skip(0) =~= ps.deep_view());
    }
    r
}

/// The line separator: a single newline byte.
pub open spec fn newline_pat() -> Seq<u8> {
    seq![10u8]
}

/// The block separator: three consecutive newline bytes.
pub open spec fn block_pat() -> Seq<u8> {
    seq![10u8, 10u8, 10u8]
}

/// A UTF-8 encoded non-breaking space.
pub open spec fn nbsp_pat() -> Seq<u8> {
    seq![194u8, 160u8]
}

/// A run of two ordinary spaces.
pub open spec fn double_space_pat() -> Seq<u8> {
    seq![32u8, 32u8]
}

/// A single ordinary space.
pub open spec fn space_sep() -> Seq<u8> {
    seq![32u8]
}

/// One block's contribution to the passage list: keep its lines longer than
/// `min`, rejoin them with single spaces, normalize non-breaking spaces to
/// plain spaces, re-split on double spaces, and keep the pieces longer than
/// `min`.
pub open spec fn process_block_spec(b: Seq<u8>, min: nat) -> Seq<Seq<u8>> {
    let kept_lines = keep_long_spec(split_spec(b, newline_pat()), min);
    let joined = join_spec(kept_lines, space_sep());
    let normalized = join_spec(split_spec(joined, nbsp_pat()), space_sep());
    keep_long_spec(split_spec(normalized, double_space_pat()), min)
}

fn newline_vec() -> (r: Vec<u8>)
    ensures
        r@ == newline_pat(),
{
    let mut r: Vec<u8> = Vec::new();
    r.push(10u8);
    proof {
        assert(r@ =~= newline_pat());
    }
    r
}

fn block_vec() -> (r: Vec<u8>)
    ensures
        r@ == block_pat(),
{
    let mut r: Vec<u8> = Vec::new();
    r.push(10u8);
    r.push(10u8);
    r.push(10u8);
    proof {
        assert(r@ =~= block_pat());
    }
    r
}

fn nbsp_vec() -> (r: Vec<u8>)
    ensures
        r@ == nbsp_pat(),
{
    let mut r: Vec<u8> = Vec::new();
    r.push(194u8);
    r.push(160u8);
    proof {
        assert(r@ =~= nbsp_pat());
    }
    r
}

fn double_space_vec() -> (r: Vec<u8>)
    ensures
        r@ == double_space_pat(),
{
    let mut r: Vec<u8> = Vec::new();
    r.push(32u8);
    r.push(32u8);
    proof {
        assert(r@ =~= double_space_pat());
    }
    r
}

fn space_vec() -> (r: Vec<u8>)
    ensures
        r@ == space_sep(),
{
    let mut r: Vec<u8> = Vec::new();
    r.push(32u8);
    proof {
        assert(r@ =~= space_sep());
    }
    r
}

/// Turns one block into its surviving passages.
pub fn process_block(b: &Vec<u8>, min: usize) -> (r: Vec<Vec<u8>>)
    ensures
        r.deep_view() == process_block_spec(b@, min as nat),
{
    let lines = split_on(b, &newline_vec());
    let kept_lines = keep_long(&lines, min);
    let joined = join_with(&kept_lines, &space_vec());
    let split_nbsp = split_on(&joined, &nbsp_vec());
    let normalized = join_with(&split_nbsp, &space_vec());
    let pieces = split_on(&normalized, &double_space_vec());
    keep_long(&pieces, min)
}

/// All blocks' passages, block by block, in order.
pub open spec fn segment_blocks_spec(bs: Seq<Seq<u8>>, min: nat) -> Seq<Seq<u8>>
    decreases bs.len(),
{
    if bs.len() == 0 {
        Seq::empty()
    } else {
        process_block_spec(bs[0], min) + segment_blocks_spec(bs.skip(1), min)
    }
}

/// The passages that one raw document contributes: its triple-newline-separated
/// blocks, each processed in order.
pub open spec fn segment_spec(doc: Seq<u8>, min: nat) -> Seq<Seq<u8>> {
    segment_blocks_spec(split_spec(doc, block_pat()), min)
}

fn segment_blocks_from(bs: &Vec<Vec<u8>>, i: usize, min: usize) -> (r: Vec<Vec<u8>>)
    requires
        i <= bs@.len(),
    ensures
        r.deep_view() == segment_blocks_spec(bs.deep_view().skip(i as int), min as nat),
    decreases bs@.len() - i,
{
    if i == bs.len() {
        let r: Vec<Vec<u8>> = Vec::new();
        proof {
            assert(r.deep_view() =~~= segment_blocks_spec(
                bs.deep_view().skip(i as int),
                min as nat,
            ));
        }
        r
    } else {
        let mut r = process_block(&bs[i], min);
        let mut rest = segment_blocks_from(bs, i + 1, min);
        r.append(&mut rest);
        proof {
            assert(bs.deep_view().skip(i as int)[0] == bs@[i as int]@);
            assert(bs.deep_view().skip(i as int).skip(1) =~= bs.deep_view().skip(i + 1));
            assert(r.deep_view() =~~= segment_blocks_spec(
                bs.deep_view().skip(i as int),
                min as nat,
            ));
        }
        r
    }
}

/// Splits one raw document into candidate passages, each longer than `min`
/// bytes.
pub fn segment_document(doc: &Vec<u8>, min: usize) -> (r: Vec<Vec<u8>>)
    ensures
        r.deep_view() == segment_spec(doc@, min as nat),
        forall|k: int| 0 <= k < r@.len() ==> #[trigger] r@[k]@.len() > min,
{
    let blocks = split_on(doc, &block_vec());
    let r = segment_blocks_from(&blocks, 0, min);
    proof {
        assert(blocks.deep_view().skip(0) =~= blocks.deep_view());
        lemma_segment_min_len(doc@, min as nat);
        assert(forall|k: int|
            0 <= k < r@.len() ==> r.deep_view()[k] == #[trigger] r@[k]@);
    }
    r
}

/// Every passage that segmentation of a block list yields is longer than
/// `min` bytes.
pub proof fn lemma_segment_blocks_min_len(bs: Seq<Seq<u8>>, min: nat)
    ensures
        forall|k: int|
            0 <= k < segment_blocks_spec(bs, min).len() ==> #[trigger] segment_blocks_spec(
                bs,
                min,
            )[k].len() > min,
    decreases bs.len(),
{
    if bs.len() == 0 {
    } else {
        let kept = process_block_spec(bs[0], min);
        let normalized = join_spec(
            split_spec(
                join_spec(keep_long_spec(split_spec(bs[0], newline_pat()), min), space_sep()),
                nbsp_pat(),
            ),
            space_sep(),
        );
        lemma_keep_long_all(split_spec(normalized, double_space_pat()), min);
        lemma_segment_blocks_min_len(bs.skip(1), min);
        assert(forall|k: int|
            0 <= k < segment_blocks_spec(bs, min).len() ==> #[trigger] segment_blocks_spec(
                bs,
                min,
            )[k].len() > min) by {
            assert forall|k: int| 0 <= k < segment_blocks_spec(bs, min).len() implies #[trigger] segment_blocks_spec(
                bs,
                min,
            )[k].len() > min by {
                if k < kept.len() {
                    assert(segment_blocks_spec(bs, min)[k] == kept[k]);
                } else {
                    assert(segment_blocks_spec(bs, min)[k] == segment_blocks_spec(
                        bs.skip(1),
                        min,
                    )[k - kept.len()]);
                }
            }
        }
    }
}

/// A pattern that occurs nowhere in `s` splits it into the single piece `s`.
pub proof fn lemma_split_no_match(s: Seq<u8>, p: Seq<u8>)
    requires
        p.len() > 0,
        forall|i: int| 0 <= i <= s.len() - p.len() ==> #[trigger] s.subrange(i, i + p.len() as int) != p,
    ensures
        split_spec(s, p) == seq![s],
    decreases s.len(),
{
    if p.len() <= s.len() && s.take(p.len() as int) == p {
        assert(s.subrange(0, p.len() as int) =~= s.take(p.len() as int));
        assert(s.subrange(0, 0 + p.len() as int) != p);
        assert(false);
    } else if s.len() == 0 {
    } else {
        assert forall|i: int| 0 <= i <= s.skip(1).len() - p.len() implies #[trigger] s.skip(1).subrange(
            i,
            i + p.len() as int,
        ) != p by {
            assert(s.skip(1).subrange(i, i + p.len() as int) =~= s.subrange(
                i + 1,
                i + 1 + p.len() as int,
            ));
        }
        lemma_split_no_match(s.skip(1), p);
        let rest = split_spec(s.skip(1), p);
        assert(rest == seq![s.skip(1)]);
        assert(seq![s[0]] + rest[0] =~= s);
        assert(split_spec(s, p) =~= seq![s]);
    }
}

/// A block is a clean line when it is longer than `min` bytes and holds no
/// newline, no double space and no non-breaking space — nothing that any
/// stage of block processing would cut at or drop.
pub open spec fn clean_line(b: Seq<u8>, min: nat) -> bool {
    b.len() > min && (forall|i: int| 0 <= i < b.len() ==> #[trigger] b[i] != 10u8) && (forall|
        i: int,
    |
        0 <= i < b.len() - 1 ==> !(#[trigger] b[i] == 32u8 && b[i + 1] == 32u8)) && (forall|i: int|
        0 <= i < b.len() - 1 ==> !(#[trigger] b[i] == 194u8 && b[i + 1] == 160u8))
}

/// A block that is one clean line longer than `min` bytes survives block
/// processing whole, as its one passage.
pub proof fn lemma_process_block_clean(b: Seq<u8>, min: nat)
    requires
        clean_line(b, min),
    ensures
        process_block_spec(b, min) == seq![b],
{
    assert forall|i: int| 0 <= i <= b.len() - newline_pat().len() implies #[trigger] b.subrange(
        i,
        i + newline_pat().len() as int,
    ) != newline_pat() by {
        assert(b.subrange(i, i + 1)[0] == b[i]);
    }
    lemma_split_no_match(b, newline_pat());
    let lines = split_spec(b, newline_pat());
    assert(lines == seq![b]);
    let kept = keep_long_spec(lines, min);
    assert(lines.skip(1) =~= Seq::<Seq<u8>>::empty());
    assert(keep_long_spec(lines.skip(1), min) =~= Seq::<Seq<u8>>::empty());
    assert(lines[0] == b);
    assert(kept =~= seq![b]);
    let joined = join_spec(kept, space_sep());
    assert(joined == b);

    assert forall|i: int| 0 <= i <= b.len() - nbsp_pat().len() implies #[trigger] b.subrange(
        i,
        i + nbsp_pat().len() as int,
    ) != nbsp_pat() by {
        if b[i] == 194u8 && b[i + 1] == 160u8 {
            assert(false);
        }
        assert(b.subrange(i, i + 2)[0] == b[i]);
        assert(b.subrange(i, i + 2)[1] == b[i + 1]);
    }
    lemma_split_no_match(b, nbsp_pat());
    let normalized = join_spec(split_spec(b, nbsp_pat()), space_sep());
    assert(normalized == b);

    assert forall|i: int| 0 <= i <= b.len() - double_space_pat().len() implies #[trigger] b.subrange(
        i,
        i + double_space_pat().len() as int,
    ) != double_space_pat() by {
        if b[i] == 32u8 && b[i + 1] == 32u8 {
            assert(false);
        }
        assert(b.subrange(i, i + 2)[0] == b[i]);
        assert(b.subrange(i, i + 2)[1] == b[i + 1]);
    }
    lemma_split_no_match(b, double_space_pat());
    let pieces = split_spec(b, double_space_pat());
    assert(pieces == seq![b]);
    assert(pieces.skip(1) =~= Seq::<Seq<u8>>::empty());
    assert(process_block_spec(b, min) =~= seq![b]);
}

/// Every block contributes all of its passages: segmentation of a block
/// list yields at least as many passages as any one block alone.
pub proof fn lemma_segment_blocks_some(bs: Seq<Seq<u8>>, min: nat, k: int)
    requires
        0 <= k < bs.len(),
    ensures
        segment_blocks_spec(bs, min).len() >= process_block_spec(bs[k], min).len(),
    decreases bs.len(),
{
    if k == 0 {
    } else {
        lemma_segment_blocks_some(bs.skip(1), min, k - 1);
        assert(bs.skip(1)[k - 1] == bs[k]);
    }
}

/// A document one of whose blocks is a clean line longer than `min` bytes
/// yields at least one passage.
pub proof fn lemma_segment_clean_block(doc: Seq<u8>, min: nat, k: int)
    requires
        0 <= k < split_spec(doc, block_pat()).len(),
        clean_line(split_spec(doc, block_pat())[k], min),
    ensures
        segment_spec(doc, min).len() >= 1,
{
    let bs = split_spec(doc, block_pat());
    lemma_process_block_clean(bs[k], min);
    lemma_segment_blocks_some(bs, min, k);
}

/// A document that is a single clean line longer than `min` bytes yields
/// exactly itself as its one passage.
pub proof fn lemma_segment_single_line(doc: Seq<u8>, min: nat)
    requires
        clean_line(doc, min),
    ensures
        segment_spec(doc, min) == seq![doc],
        segment_spec(doc, min).len() >= 1,
{
    assert forall|i: int| 0 <= i <= doc.len() - block_pat().len() implies #[trigger] doc.subrange(
        i,
        i + block_pat().len() as int,
    ) != block_pat() by {
        assert(doc.subrange(i, i + 3)[0] == doc[i]);
    }
    lemma_split_no_match(doc, block_pat());
    let bs = split_spec(doc, block_pat());
    assert(bs == seq![doc]);
    lemma_process_block_clean(doc, min);
    assert(bs.skip(1) =~= Seq::<Seq<u8>>::empty());
    assert(segment_blocks_spec(bs.skip(1), min) =~= Seq::<Seq<u8>>::empty());
    assert(segment_spec(doc, min) =~= seq![doc]);
}

/// Every passage that segmentation yields is longer than `min` bytes.
pub proof fn lemma_segment_min_len(doc: Seq<u8>, min: nat)
    ensures
        forall|k: int|
            0 <= k < segment_spec(doc, min).len() ==> #[trigger] segment_spec(doc, min)[k].len()
                > min,
{
    lemma_segment_blocks_min_len(split_spec(doc, block_pat()), min);
}

} // verus!
