//! What is written to a file is read back from it.
use vstd::prelude::*;

use crate::formats::{
    announced, byte_of, bytes_of, distances_of, holds_ids, results_file, word, words,
};

verus! {

/// A list of 32-bit numbers is read back from its bytes, wherever in a file they stand.
pub proof fn law_words_read_back(before: Seq<u8>, values: Seq<u32>, after: Seq<u8>)
    ensures
        words(before + bytes_of(values) + after, before.len() as int, values.len() as int)
            == values,
{
    reveal(bytes_of);
    let file = before + bytes_of(values) + after;
    let at = before.len() as int;
    assert forall|i: int| 0 <= i < values.len() implies word(file, at + 4 * i) == values[i] by {
        assert(file[at + 4 * i] == byte_of(values[i], 0));
        assert(file[at + 4 * i + 1] == byte_of(values[i], 1));
        assert(file[at + 4 * i + 2] == byte_of(values[i], 2));
        assert(file[at + 4 * i + 3] == byte_of(values[i], 3));
    }
    assert(words(file, at, values.len() as int) =~= values);
}

/// A result file is a ground truth file without distances: what was written is what is read.
/// Only where there is nothing to write are the (no) distances taken to be there.
pub proof fn law_results_read_back(ids: Seq<u32>, num_queries: usize, k: usize)
    requires
        num_queries <= u32::MAX,
        k <= u32::MAX,
        ids.len() == num_queries * k,
    ensures
        ({
            let file = results_file(ids, num_queries, k);
            &&& holds_ids(file)
            &&& word(file, 0) == num_queries
            &&& word(file, 4) == k
            &&& words(file, 8, announced(file)) == ids
            &&& distances_of(file) is Some <==> ids.len() == 0
        }),
{
    let header = bytes_of(seq![num_queries as u32, k as u32]);
    let file = results_file(ids, num_queries, k);
    let n = ids.len() as int;
    lemma_len(ids);
    lemma_len(seq![num_queries as u32, k as u32]);
    assert(word(file, 0) == num_queries && word(file, 4) == k) by {
        lemma_header(file, num_queries, k, bytes_of(ids));
    }
    assert(announced(file) == n);
    assert(words(file, 8, n) == ids) by {
        lemma_joined(header, bytes_of(ids), Seq::empty());
        law_words_read_back(header, ids, Seq::empty());
    }
}

/// A result file with a distance for each id behind it is a ground truth file with
/// distances.
pub proof fn law_results_with_distances_read_back(
    ids: Seq<u32>,
    distances: Seq<u32>,
    num_queries: usize,
    k: usize,
)
    requires
        num_queries <= u32::MAX,
        k <= u32::MAX,
        ids.len() == num_queries * k,
        distances.len() == ids.len(),
    ensures
        ({
            let file = results_file(ids, num_queries, k) + bytes_of(distances);
            &&& holds_ids(file)
            &&& word(file, 0) == num_queries
            &&& word(file, 4) == k
            &&& words(file, 8, announced(file)) == ids
            &&& distances_of(file) == Some(distances)
        }),
{
    let header = bytes_of(seq![num_queries as u32, k as u32]);
    let results = results_file(ids, num_queries, k);
    let file = results + bytes_of(distances);
    let n = ids.len() as int;
    lemma_len(ids);
    lemma_len(distances);
    lemma_len(seq![num_queries as u32, k as u32]);
    assert(word(file, 0) == num_queries && word(file, 4) == k) by {
        lemma_joined(header, bytes_of(ids), bytes_of(distances));
        lemma_header(file, num_queries, k, bytes_of(ids) + bytes_of(distances));
    }
    assert(announced(file) == n);
    assert(words(file, 8, n) == ids) by {
        law_words_read_back(header, ids, bytes_of(distances));
    }
    assert(words(file, 8 + 4 * n, n) == distances) by {
        lemma_joined(results, bytes_of(distances), Seq::empty());
        law_words_read_back(results, distances, Seq::empty());
    }
}

proof fn lemma_len(values: Seq<u32>)
    ensures
        bytes_of(values).len() == 4 * values.len(),
{
    reveal(bytes_of);
}

proof fn lemma_joined(a: Seq<u8>, b: Seq<u8>, c: Seq<u8>)
    ensures
        a + b + c == a + (b + c),
        a + b + Seq::<u8>::empty() == a + b,
{
    assert(a + b + c =~= a + (b + c));
    assert(a + b + Seq::<u8>::empty() =~= a + b);
}

proof fn lemma_header(file: Seq<u8>, num_queries: usize, k: usize, rest: Seq<u8>)
    requires
        num_queries <= u32::MAX,
        k <= u32::MAX,
        file == bytes_of(seq![num_queries as u32, k as u32]) + rest,
    ensures
        word(file, 0) == num_queries,
        word(file, 4) == k,
{
    let header = seq![num_queries as u32, k as u32];
    law_words_read_back(Seq::empty(), header, rest);
    assert(file =~= Seq::<u8>::empty() + bytes_of(header) + rest);
    let read = words(file, 0, 2);
    assert(read == header);
    assert(read[0] == word(file, 0));
    assert(read[1] == word(file, 4));
}

} // verus!
