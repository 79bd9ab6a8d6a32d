//! The in-memory store of passages and their embedding vectors, and the
//! build-phase logic that pairs service responses back to passages.

use vstd::prelude::*;

use crate::bytes::copy_bytes;
use crate::errors::Error;

verus! {

/// One store entry: a passage's text and its embedding vector, the vector's
/// components carried as 64-bit patterns.
pub struct Entry {
    pub text: Vec<u8>,
    pub vector: Vec<u64>,
}

/// The store: entries in insertion order.
pub struct Store {
    pub entries: Vec<Entry>,
    pub dim: usize,
}

impl Store {
    /// Every entry holds a non-empty passage and a vector of the expected
    /// dimensionality.
    pub open spec fn wf(&self) -> bool {
        forall|i: int|
            0 <= i < self.entries@.len() ==> (#[trigger] self.entries@[i].text@.len() > 0
                && self.entries@[i].vector@.len() == self.dim as int)
    }

    /// The number of entries.
    pub fn len(&self) -> (n: usize)
        ensures
            n == self.entries@.len(),
    {
        self.entries.len()
    }

    /// Appends one passage with its vector; an append that would break the
    /// store's invariant is refused and leaves the store unchanged, a
    /// wrong-sized vector before an empty passage is looked at.
    pub fn push_entry(&mut self, text: Vec<u8>, vector: Vec<u64>) -> (r: Result<(), Error>)
        ensures
            r is Ok <==> (vector@.len() == old(self).dim && text@.len() > 0),
            (r == Err::<(), Error>(Error::WrongDimension)) <==> vector@.len() != old(self).dim,
            (r == Err::<(), Error>(Error::EmptyPassage)) <==> (vector@.len() == old(self).dim
                && text@.len() == 0),
            r is Ok ==> final(self).entries@.len() == old(self).entries@.len() + 1
                && final(self).entries@.last().text@ == text@
                && final(self).entries@.last().vector@ == vector@
                && (forall|i: int|
                    0 <= i < old(self).entries@.len() ==> final(self).entries@[i]
                        == old(self).entries@[i]),
            r is Err ==> final(self).entries@ == old(self).entries@,
            final(self).dim == old(self).dim,
            old(self).wf() && r is Ok ==> final(self).wf(),
    {
        if vector.len() != self.dim {
            return Err(Error::WrongDimension);
        }
        if text.len() == 0 {
            return Err(Error::EmptyPassage);
        }
        self.entries.push(Entry { text, vector });
        Ok(())
    }

    /// All passage texts, in insertion order: the store's full scan.
    pub fn texts(&self) -> (r: Vec<Vec<u8>>)
        ensures
            r@.len() == self.entries@.len(),
            forall|i: int| 0 <= i < r@.len() ==> #[trigger] r@[i]@ == self.entries@[i].text@,
    {
        let mut r: Vec<Vec<u8>> = Vec::new();
        let mut i: usize = 0;
        while i < self.entries.len()
            invariant
                i <= self.entries@.len(),
                r@.len() == i,
                forall|k: int| 0 <= k < i ==> #[trigger] r@[k]@ == self.entries@[k].text@,
            decreases self.entries@.len() - i,
        {
            r.push(copy_bytes(&self.entries[i].text));
            i = i + 1;
        }
        r
    }
}

/// Pairs passages with the vectors the embedding service returned for them,
/// in order, and builds the store. The whole build fails on the first
/// service-contract violation: a response count that does not match the
/// passage count, any vector of the wrong dimensionality, or any empty
/// passage; vectors are checked for dimensionality before passages are
/// checked for emptiness.
pub fn build_store(texts: &Vec<Vec<u8>>, vectors: &Vec<Vec<u64>>, dim: usize) -> (r: Result<
    Store,
    Error,
>)
    ensures
        (r == Err::<Store, Error>(Error::LengthMismatch)) <==> texts@.len() != vectors@.len(),
        texts@.len() == vectors@.len() ==> ((r == Err::<Store, Error>(Error::WrongDimension))
            <==> exists|i: int|
            0 <= i < vectors@.len() && (#[trigger] vectors@[i]@.len()) != dim),
        (texts@.len() == vectors@.len() && (forall|i: int|
            0 <= i < vectors@.len() ==> (#[trigger] vectors@[i]@.len()) == dim)) ==> ((r
            == Err::<Store, Error>(Error::EmptyPassage)) <==> exists|i: int|
            0 <= i < texts@.len() && (#[trigger] texts@[i]@.len()) == 0),
        r is Ok <==> (texts@.len() == vectors@.len() && (forall|i: int|
            0 <= i < vectors@.len() ==> (#[trigger] vectors@[i]@.len()) == dim) && (forall|i: int|
            0 <= i < texts@.len() ==> (#[trigger] texts@[i]@.len()) > 0)),
        r matches Ok(s) ==> s.dim == dim && s.entries@.len() == texts@.len() && (forall|i: int|
            0 <= i < texts@.len() ==> (#[trigger] s.entries@[i].text@) == texts@[i]@
                && s.entries@[i].vector@ == vectors@[i]@) && s.wf(),
{
    if texts.len() != vectors.len() {
        return Err(Error::LengthMismatch);
    }
    let mut i: usize = 0;
    while i < vectors.len()
        invariant
            i <= vectors@.len(),
            texts@.len() == vectors@.len(),
            forall|k: int| 0 <= k < i ==> (#[trigger] vectors@[k]@.len()) == dim,
        decreases vectors@.len() - i,
    {
        if vectors[i].len() != dim {
            return Err(Error::WrongDimension);
        }
        i = i + 1;
    }
    let mut j: usize = 0;
    while j < texts.len()
        invariant
            j <= texts@.len(),
            texts@.len() == vectors@.len(),
            forall|k: int| 0 <= k < vectors@.len() ==> (#[trigger] vectors@[k]@.len()) == dim,
            forall|k: int| 0 <= k < j ==> (#[trigger] texts@[k]@.len()) > 0,
        decreases texts@.len() - j,
    {
        if texts[j].len() == 0 {
            return Err(Error::EmptyPassage);
        }
        j = j + 1;
    }
    let mut entries: Vec<Entry> = Vec::new();
    let mut k: usize = 0;
    while k < texts.len()
        invariant
            k <= texts@.len(),
            texts@.len() == vectors@.len(),
            forall|m: int| 0 <= m < vectors@.len() ==> (#[trigger] vectors@[m]@.len()) == dim,
            forall|m: int| 0 <= m < texts@.len() ==> (#[trigger] texts@[m]@.len()) > 0,
            entries@.len() == k,
            forall|m: int|
                0 <= m < k ==> (#[trigger] entries@[m].text@) == texts@[m]@
                    && entries@[m].vector@ == vectors@[m]@,
        decreases texts@.len() - k,
    {
        let text = copy_bytes(&texts[k]);
        let vector = copy_words(&vectors[k]);
        entries.push(Entry { text, vector });
        k = k + 1;
    }
    Ok(Store { entries, dim })
}

/// Copy of a vector's components.
pub fn copy_words(v: &Vec<u64>) -> (r: Vec<u64>)
    ensures
        r@ == v@,
{
    let mut r: Vec<u64> = Vec::new();
    let mut i: usize = 0;
    while i < v.len()
        invariant
            i <= v@.len(),
            r@ == v@.take(i as int),
        decreases v@.len() - i,
    {
        r.push(v[i]);
        proof {
            assert(r@ =~= v@.take(i + 1));
        }
        i = i + 1;
    }
    proof {
        assert(r@ =~= v@);
    }
    r
}

/// The items of consecutive batches, in order.
pub open spec fn concat_all<T>(bs: Seq<Seq<T>>) -> Seq<T>
    decreases bs.len(),
{
    if bs.len() == 0 {
        Seq::empty()
    } else {
        bs[0] + concat_all(bs.skip(1))
    }
}

/// The items cut into consecutive batches of `k`, the last batch possibly
/// shorter.
pub open spec fn chunks_spec<T>(ts: Seq<T>, k: nat) -> Seq<Seq<T>>
    recommends
        k > 0,
    decreases ts.len(),
{
    if k == 0 || ts.len() == 0 {
        Seq::empty()
    } else if ts.len() <= k {
        seq![ts]
    } else {
        seq![ts.take(k as int)] + chunks_spec(ts.skip(k as int), k)
    }
}

/// Batching loses nothing and reorders nothing: the batches concatenate
/// back to the original items, and no batch exceeds the batch size.
pub proof fn lemma_chunks_flatten<T>(ts: Seq<T>, k: nat)
    requires
        k > 0,
    ensures
        concat_all(chunks_spec(ts, k)) == ts,
        forall|b: int|
            0 <= b < chunks_spec(ts, k).len() ==> 0 < (#[trigger] chunks_spec(ts, k)[b].len())
                <= k,
    decreases ts.len(),
{
    if ts.len() == 0 {
        assert(concat_all(chunks_spec(ts, k)) =~= ts);
    } else if ts.len() <= k {
        let cs = chunks_spec(ts, k);
        assert(cs == seq![ts]);
        assert(cs.skip(1) =~= Seq::<Seq<T>>::empty());
        assert(concat_all(cs.skip(1)) =~= Seq::<T>::empty());
        assert(cs[0] == ts);
        assert(concat_all(cs) == cs[0] + concat_all(cs.skip(1)));
        assert(concat_all(cs) =~= ts);
    } else {
        lemma_chunks_flatten(ts.skip(k as int), k);
        let cs = chunks_spec(ts, k);
        assert(cs.skip(1) =~= chunks_spec(ts.skip(k as int), k));
        assert(concat_all(cs) =~= ts);
        assert forall|b: int| 0 <= b < cs.len() implies 0 < (#[trigger] cs[b].len()) <= k by {
            if b > 0 {
                assert(cs[b] == chunks_spec(ts.skip(k as int), k)[b - 1]);
            }
        }
    }
}

#[verifier::loop_isolation(false)]
fn copy_text_range(texts: &Vec<Vec<u8>>, a: usize, b: usize) -> (r: Vec<Vec<u8>>)
    requires
        a <= b <= texts@.len(),
    ensures
        r.deep_view() == texts.deep_view().subrange(a as int, b as int),
{
    let mut r: Vec<Vec<u8>> = Vec::new();
    let mut i: usize = a;
    while i < b
        invariant
            a <= i <= b <= texts@.len(),
            r.deep_view() == texts.deep_view().subrange(a as int, i as int),
        decreases b - i,
    {
        r.push(copy_bytes(&texts[i]));
        proof {
            assert(r.deep_view() =~~= texts.deep_view().subrange(a as int, i + 1));
        }
        i = i + 1;
    }
    r
}

fn chunks_from(texts: &Vec<Vec<u8>>, i: usize, size: usize) -> (r: Vec<Vec<Vec<u8>>>)
    requires
        size > 0,
        i <= texts@.len(),
    ensures
        r.deep_view() == chunks_spec(texts.deep_view().skip(i as int), size as nat),
    decreases texts@.len() - i,
{
    if i == texts.len() {
        let r: Vec<Vec<Vec<u8>>> = Vec::new();
        proof {
            assert(r.deep_view() =~~= chunks_spec(
                texts.deep_view().skip(i as int),
                size as nat,
            ));
        }
        r
    } else if texts.len() - i <= size {
        let batch = copy_text_range(texts, i, texts.len());
        let mut r: Vec<Vec<Vec<u8>>> = Vec::new();
        r.push(batch);
        proof {
            assert(texts.deep_view().subrange(i as int, texts@.len() as int) =~= texts.deep_view()
                .skip(i as int));
            assert(r.deep_view() =~~= chunks_spec(
                texts.deep_view().skip(i as int),
                size as nat,
            ));
        }
        r
    } else {
        let batch = copy_text_range(texts, i, i + size);
        let mut r = chunks_from(texts, i + size, size);
        r.insert(0, batch);
        proof {
            assert(texts.deep_view().subrange(i as int, i + size) =~= texts.deep_view().skip(
                i as int,
            ).take(size as int));
            assert(texts.deep_view().skip(i as int).skip(size as int) =~= texts.deep_view().skip(
                i + size,
            ));
            assert(r.deep_view() =~~= chunks_spec(
                texts.deep_view().skip(i as int),
                size as nat,
            ));
        }
        r
    }
}

/// Cuts the passages into consecutive batches of at most `size`, in order,
/// for batched embedding requests.
pub fn chunk_passages(texts: &Vec<Vec<u8>>, size: usize) -> (r: Vec<Vec<Vec<u8>>>)
    requires
        size > 0,
    ensures
        r.deep_view() == chunks_spec(texts.deep_view(), size as nat),
        concat_all(r.deep_view()) == texts.deep_view(),
        forall|b: int| 0 <= b < r.deep_view().len() ==> (#[trigger] r.deep_view()[b].len()) <= size,
{
    let r = chunks_from(texts, 0, size);
    proof {
        assert(texts.deep_view().skip(0) =~= texts.deep_view());
        lemma_chunks_flatten(texts.deep_view(), size as nat);
    }
    r
}

/// Rejoins the per-batch responses of the embedding service into one vector
/// list, batch order and in-batch order both kept.
pub fn flatten_batches(batches: &Vec<Vec<Vec<u64>>>) -> (r: Vec<Vec<u64>>)
    ensures
        r.deep_view() == concat_all(batches.deep_view()),
{
    let r = flatten_from(batches, 0);
    proof {
        assert(batches.deep_view().skip(0) =~= batches.deep_view());
    }
    r
}

#[verifier::loop_isolation(false)]
fn flatten_from(batches: &Vec<Vec<Vec<u64>>>, i: usize) -> (r: Vec<Vec<u64>>)
    requires
        i <= batches@.len(),
    ensures
        r.deep_view() == concat_all(batches.deep_view().skip(i as int)),
    decreases batches@.len() - i,
{
    if i == batches.len() {
        let r: Vec<Vec<u64>> = Vec::new();
        proof {
            if i == 0 {
                assert(batches.deep_view().skip(0) =~= batches.deep_view());
            }
            assert(r.deep_view() =~~= concat_all(batches.deep_view().skip(i as int)));
        }
        r
    } else {
        let mut r: Vec<Vec<u64>> = Vec::new();
        let batch = &batches[i];
        let mut j: usize = 0;
        while j < batch.len()
            invariant
                j <= batch@.len(),
                batch == &batches[i as int],
                i < batches@.len(),
                r.deep_view() == batches.deep_view()[i as int].take(j as int),
            decreases batch@.len() - j,
        {
            r.push(copy_words(&batch[j]));
            proof {
                assert(r.deep_view() =~~= batches.deep_view()[i as int].take(j + 1));
            }
            j = j + 1;
        }
        let mut rest = flatten_from(batches, i + 1);
        r.append(&mut rest);
        proof {
            assert(batches.deep_view()[i as int].take(batch@.len() as int) =~= batches.deep_view()[i as int]);
            assert(batches.deep_view().skip(i as int)[0] == batches.deep_view()[i as int]);
            assert(batches.deep_view().skip(i as int).skip(1) =~= batches.deep_view().skip(i + 1));
            assert(r.deep_view() =~~= concat_all(batches.deep_view().skip(i as int)));
        }
        r
    }
}

} // verus!
