//! What stands where in a file, byte by byte.
use vstd::prelude::*;

use crate::formats::{
    announced, byte_of, bytes_of, encode_results, get_graph_max_observed_degree,
    get_graph_num_frozen_points, little_endian, machine_word, parse_groundtruth, words,
    FormatError, GroundTruth,
};

verus! {

/// Bytes are read the least significant first: what stands behind counts 256 times as much.
pub proof fn law_lower_bytes_come_first(byte: u8, rest: Seq<u8>)
    ensures
        little_endian(Seq::<u8>::empty()) == 0,
        little_endian(seq![byte] + rest) == byte + 256 * little_endian(rest),
{
    assert((seq![byte] + rest).drop_first() =~= rest);
    assert((seq![byte] + rest).first() == byte);
}

/// A machine word has 8 bytes where it has 64 bits, and 4 where it has 32.
pub proof fn law_bytes_of_a_machine_word()
    ensures
        machine_word() == 8 || machine_word() == 4,
        machine_word() * 8 == usize::BITS,
        machine_word() == 8 <==> usize::MAX == 0xffff_ffff_ffff_ffff,
{
}

/// A ground truth file is read exactly where it is long enough for its header, of which the
/// first four bytes are the number of queries and the next four that of neighbours of each,
/// and for one id of four bytes for each neighbour of each query.
pub proof fn law_which_ground_truth_is_read(
    bytes: &[u8],
    parsed: Result<GroundTruth, FormatError>,
)
    requires
        call_ensures(parse_groundtruth, (bytes,), parsed),
    ensures
        parsed is Err ==> parsed == Err::<GroundTruth, FormatError>(FormatError::Truncated),
        bytes@.len() < 8 ==> parsed is Err,
        bytes@.len() >= 8 ==> ({
            let queries = bytes@[0] + 256 * bytes@[1] + 65536 * bytes@[2] + 16777216 * bytes@[3];
            let dim = bytes@[4] + 256 * bytes@[5] + 65536 * bytes@[6] + 16777216 * bytes@[7];
            &&& parsed is Ok <==> bytes@.len() >= 8 + 4 * (queries * dim)
            &&& parsed matches Ok(gt) ==> {
                &&& gt.num_queries == queries
                &&& gt.dim == dim
                &&& gt.ids@.len() == queries * dim
                &&& gt.distances is Some <==> bytes@.len() == 8 + 8 * (queries * dim)
                &&& gt.distances matches Some(distances) ==> distances@.len() == queries * dim
            }
        }),
{
    if bytes@.len() >= 8 {
        let queries = bytes@[0] + 256 * bytes@[1] + 65536 * bytes@[2] + 16777216 * bytes@[3];
        let dim = bytes@[4] + 256 * bytes@[5] + 65536 * bytes@[6] + 16777216 * bytes@[7];
        assert(announced(bytes@) == queries * dim);
        assert(queries * dim >= 0) by (nonlinear_arith)
            requires
                queries >= 0,
                dim >= 0,
        ;
    }
}

/// Each id stands in four bytes behind the header, the lowest first, and behind the ids each
/// distance.
pub proof fn law_where_ids_and_distances_stand(bytes: &[u8], gt: GroundTruth, i: int)
    requires
        call_ensures(parse_groundtruth, (bytes,), Ok(gt)),
        0 <= i < gt.ids@.len(),
    ensures
        ({
            let at = 8 + 4 * i;
            gt.ids@[i] == bytes@[at] + 256 * bytes@[at + 1] + 65536 * bytes@[at + 2] + 16777216
                * bytes@[at + 3]
        }),
        gt.distances matches Some(distances) ==> ({
            let at = 8 + 4 * gt.ids@.len() + 4 * i;
            distances@[i] == bytes@[at] + 256 * bytes@[at + 1] + 65536 * bytes@[at + 2] + 16777216
                * bytes@[at + 3]
        }),
{
    let n = announced(bytes@);
    assert(gt.ids@ == words(bytes@, 8, n));
    assert(gt.ids@.len() == n);
    if let Some(distances) = gt.distances {
        assert(distances@ == words(bytes@, 8 + 4 * n, n));
    }
}

/// A result file has eight bytes of header and four for each id, in their order, the lowest
/// byte first.
pub proof fn law_where_results_stand(
    ids: &[u32],
    num_queries: usize,
    k: usize,
    bytes: Vec<u8>,
    i: int,
)
    requires
        call_ensures(encode_results, (ids, num_queries, k), bytes),
        0 <= i < ids@.len(),
    ensures
        bytes@.len() == 8 + 4 * ids@.len(),
        bytes@[8 + 4 * i] == ids@[i] % 256,
        bytes@[8 + 4 * i + 1] == ids@[i] / 256 % 256,
        bytes@[8 + 4 * i + 2] == ids@[i] / 65536 % 256,
        bytes@[8 + 4 * i + 3] == ids@[i] / 16777216,
{
    reveal(bytes_of);
    assert(bytes@[8 + 4 * i] == byte_of(ids@[i], 0));
    assert(bytes@[8 + 4 * i + 1] == byte_of(ids@[i], 1));
    assert(bytes@[8 + 4 * i + 2] == byte_of(ids@[i], 2));
    assert(bytes@[8 + 4 * i + 3] == byte_of(ids@[i], 3));
}

/// The header of a result file is the number of queries and that of ids of each, as far as 32
/// bits hold them.
pub proof fn law_header_of_results(ids: &[u32], num_queries: usize, k: usize, bytes: Vec<u8>)
    requires
        call_ensures(encode_results, (ids, num_queries, k), bytes),
    ensures
        bytes@.len() == 8 + 4 * ids@.len(),
        num_queries <= 0xffff_ffff ==> bytes@[0] + 256 * bytes@[1] + 65536 * bytes@[2] + 16777216
            * bytes@[3] == num_queries,
        k <= 0xffff_ffff ==> bytes@[4] + 256 * bytes@[5] + 65536 * bytes@[6] + 16777216 * bytes@[7]
            == k,
{
    reveal(bytes_of);
    let header = seq![num_queries as u32, k as u32];
    assert(bytes@[0] == byte_of(header[0], 0) && bytes@[1] == byte_of(header[0], 1));
    assert(bytes@[2] == byte_of(header[0], 2) && bytes@[3] == byte_of(header[0], 3));
    assert(bytes@[4] == byte_of(header[1], 0) && bytes@[5] == byte_of(header[1], 1));
    assert(bytes@[6] == byte_of(header[1], 2) && bytes@[7] == byte_of(header[1], 3));
}

/// The number of frozen points is the machine word that stands in the header of a graph behind
/// a machine word and eight bytes. It is read exactly where it is there and not 0, and nothing
/// behind it matters.
pub proof fn law_frozen_points_of_a_graph(
    bytes: &[u8],
    count: Result<usize, FormatError>,
    width: int,
)
    requires
        call_ensures(get_graph_num_frozen_points, (bytes,), count),
        width * 8 == usize::BITS,
    ensures
        count == Err::<usize, FormatError>(FormatError::Truncated) <==> bytes@.len() < 2 * width + 8,
        bytes@.len() >= 2 * width + 8 ==> ({
            let n = little_endian(bytes@.subrange(width + 8, width + 8 + width));
            &&& n == 0 ==> count == Err::<usize, FormatError>(FormatError::NoFrozenPoints)
            &&& n > 0 ==> (count matches Ok(found) && found == n)
        }),
{
    assert(width == machine_word());
}

/// The greatest degree is the four bytes behind the first machine word, the lowest first.
pub proof fn law_greatest_degree_of_a_graph(
    bytes: &[u8],
    degree: Result<u32, FormatError>,
    width: int,
)
    requires
        call_ensures(get_graph_max_observed_degree, (bytes,), degree),
        width * 8 == usize::BITS,
    ensures
        degree is Err <==> bytes@.len() < width + 4,
        degree is Err ==> degree == Err::<u32, FormatError>(FormatError::Truncated),
        degree matches Ok(n) ==> n == bytes@[width] + 256 * bytes@[width + 1] + 65536
            * bytes@[width + 2] + 16777216 * bytes@[width + 3],
{
    assert(width == machine_word());
}

} // verus!
