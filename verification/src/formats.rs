//! The binary files: the header of a saved graph, ground truth, and search results. All
//! numbers are little-endian.
use vstd::prelude::*;

verus! {

/// Why a file could not be read.
#[derive(Debug, Clone, Copy, PartialEq, Eq, Structural)]
pub enum FormatError {
    /// The file ends before what it announces.
    Truncated,
    /// The graph was saved without a frozen point.
    NoFrozenPoints,
}

/// The number that the bytes write, the least significant byte first.
pub open spec fn little_endian(bytes: Seq<u8>) -> nat
    decreases bytes.len(),
{
    if bytes.len() == 0 {
        0
    } else {
        bytes.first() as nat + 0x100 * little_endian(bytes.drop_first())
    }
}

/// The 32-bit number at a place.
pub open spec fn word(bytes: Seq<u8>, at: int) -> u32 {
    (bytes[at] + 0x100 * bytes[at + 1] + 0x1_0000 * bytes[at + 2] + 0x100_0000 * bytes[at
        + 3]) as u32
}

/// The `n` 32-bit numbers from a place on.
pub open spec fn words(bytes: Seq<u8>, at: int, n: int) -> Seq<u32> {
    Seq::new(n as nat, |i: int| word(bytes, at + 4 * i))
}

/// Byte `i` of a 32-bit number.
pub open spec fn byte_of(value: u32, i: int) -> u8 {
    if i == 0 {
        (value % 0x100) as u8
    } else if i == 1 {
        (value / 0x100 % 0x100) as u8
    } else if i == 2 {
        (value / 0x1_0000 % 0x100) as u8
    } else {
        (value / 0x100_0000) as u8
    }
}

/// The bytes of a list of 32-bit numbers.
#[verifier::opaque]
pub open spec fn bytes_of(values: Seq<u32>) -> Seq<u8> {
    Seq::new(4 * values.len(), |j: int| byte_of(values[j / 4], j % 4))
}

/// The number of bytes of a machine word.
pub open spec fn machine_word() -> int {
    usize::BITS as int / 8
}

/// Ground truth: for each query the ids of its true neighbours, nearest first, and the
/// bit patterns of their distances where the file holds them.
pub struct GroundTruth {
    pub ids: Vec<u32>,
    pub distances: Option<Vec<u32>>,
    pub num_queries: usize,
    pub dim: usize,
}

/// How many neighbours a ground truth file announces: queries times neighbours of each.
pub open spec fn announced(bytes: Seq<u8>) -> int {
    word(bytes, 0) * word(bytes, 4)
}

/// The file holds its header and every id that the header announces.
pub open spec fn holds_ids(bytes: Seq<u8>) -> bool {
    bytes.len() >= 8 && bytes.len() >= 8 + 4 * announced(bytes)
}

/// The distances that a ground truth file holds. They are there if and only if the file is
/// exactly as long as header, ids and distances.
pub open spec fn distances_of(bytes: Seq<u8>) -> Option<Seq<u32>> {
    let n = announced(bytes);
    if bytes.len() == 8 + 8 * n {
        Some(words(bytes, 8 + 4 * n, n))
    } else {
        None
    }
}

/// What a result file holds: the number of queries, the number of neighbours of each, and
/// the ids. Both numbers are cut to 32 bits.
pub open spec fn results_file(ids: Seq<u32>, num_queries: usize, k: usize) -> Seq<u8> {
    bytes_of(seq![num_queries as u32, k as u32]) + bytes_of(ids)
}

/// Reads a 32-bit number.
fn read_word(bytes: &[u8], at: usize) -> (value: u32)
    requires
        at + 4 <= bytes@.len(),
    ensures
        value == word(bytes@, at as int),
{
    bytes[at] as u32 + 0x100 * bytes[at + 1] as u32 + 0x1_0000 * bytes[at + 2] as u32 + 0x100_0000
        * bytes[at + 3] as u32
}

/// Reads `n` 32-bit numbers.
fn read_words(bytes: &[u8], at: usize, n: usize) -> (values: Vec<u32>)
    requires
        at + 4 * n <= bytes@.len(),
    ensures
        values@ == words(bytes@, at as int, n as int),
{
    assert(bytes.len() <= usize::MAX);
    let mut values: Vec<u32> = Vec::with_capacity(n);
    for i in 0..n
        invariant
            at + 4 * n <= bytes@.len() <= usize::MAX,
            values@ == words(bytes@, at as int, i as int),
    {
        values.push(read_word(bytes, at + 4 * i));
        assert(values@ =~= words(bytes@, at as int, i + 1));
    }
    values
}

/// Appends a 32-bit number.
fn write_word(bytes: &mut Vec<u8>, value: u32)
    ensures
        final(bytes)@ == old(bytes)@ + bytes_of(seq![value]),
{
    bytes.push((value % 0x100) as u8);
    bytes.push((value / 0x100 % 0x100) as u8);
    bytes.push((value / 0x1_0000 % 0x100) as u8);
    bytes.push((value / 0x100_0000) as u8);
    proof {
        reveal(bytes_of);
        assert(bytes@ =~= old(bytes)@ + bytes_of(seq![value]));
    }
}

/// Reads a ground truth file: the number of queries, the number of neighbours of each, the
/// ids, and, where the length of the file says so, the distances.
pub fn parse_groundtruth(bytes: &[u8]) -> (parsed: Result<GroundTruth, FormatError>)
    ensures
        match parsed {
            Ok(gt) => {
                &&& holds_ids(bytes@)
                &&& gt.num_queries == word(bytes@, 0)
                &&& gt.dim == word(bytes@, 4)
                &&& gt.ids@ == words(bytes@, 8, announced(bytes@))
                &&& match gt.distances {
                    Some(distances) => distances_of(bytes@) == Some(distances@),
                    None => distances_of(bytes@) is None,
                }
            },
            Err(error) => !holds_ids(bytes@) && error == FormatError::Truncated,
        },
{
    let len: usize = bytes.len();
    if len < 8 {
        return Err(FormatError::Truncated);
    }
    let num_queries: u32 = read_word(bytes, 0);
    let dim: u32 = read_word(bytes, 4);
    let ghost n = announced(bytes@);
    assert(num_queries * dim <= 0xffff_ffff * 0xffff_ffff) by (nonlinear_arith)
        requires
            0 <= num_queries <= 0xffff_ffff,
            0 <= dim <= 0xffff_ffff,
    ;
    assert(num_queries * dim >= 0) by (nonlinear_arith)
        requires
            0 <= num_queries,
            0 <= dim,
    ;
    let total: u128 = num_queries as u128 * dim as u128;
    if (len as u128) < 8 + 4 * total {
        return Err(FormatError::Truncated);
    }
    let count: usize = total as usize;
    let ids: Vec<u32> = read_words(bytes, 8, count);
    let distances: Option<Vec<u32>> = if len as u128 == 8 + 8 * total {
        Some(read_words(bytes, 8 + 4 * count, count))
    } else {
        None
    };
    Ok(GroundTruth { ids, distances, num_queries: num_queries as usize, dim: dim as usize })
}

/// Writes a result file.
pub fn encode_results(ids: &[u32], num_queries: usize, k: usize) -> (bytes: Vec<u8>)
    ensures
        bytes@ == results_file(ids@, num_queries, k),
{
    let mut bytes: Vec<u8> = Vec::new();
    write_word(&mut bytes, num_queries as u32);
    write_word(&mut bytes, k as u32);
    let ghost header = bytes_of(seq![num_queries as u32, k as u32]);
    proof {
        reveal(bytes_of);
        assert(bytes@ =~= header);
        assert(bytes@ =~= header + bytes_of(ids@.take(0)));
    }
    let n: usize = ids.len();
    for i in 0..n
        invariant
            n == ids@.len(),
            bytes@ == header + bytes_of(ids@.take(i as int)),
    {
        write_word(&mut bytes, ids[i]);
        proof {
            reveal(bytes_of);
            assert(bytes@ =~= header + bytes_of(ids@.take(i + 1)));
        }
    }
    assert(ids@.take(n as int) =~= ids@);
    bytes
}

/// Reads a machine word.
fn read_machine_word(bytes: &[u8], at: usize) -> (value: usize)
    requires
        at + machine_word() <= bytes@.len(),
    ensures
        value == little_endian(bytes@.subrange(at as int, at + machine_word())),
{
    assert(bytes.len() <= usize::MAX);
    let width: usize = (usize::BITS / 8) as usize;
    let mut value: u128 = 0;
    let mut left: usize = width;
    let ghost field = bytes@.subrange(at as int, at + machine_word());
    assert(field.skip(width as int) =~= Seq::<u8>::empty());
    while left > 0
        invariant
            left <= width,
            width == machine_word(),
            width == 4 || width == 8,
            at + width <= bytes@.len(),
            bytes@.len() <= usize::MAX,
            field == bytes@.subrange(at as int, at + machine_word()),
            value == little_endian(field.skip(left as int)),
            value < power((width - left) as nat),
            width - left <= 8,
        decreases left,
    {
        left = left - 1;
        proof {
            assert(field.skip(left as int).drop_first() =~= field.skip(left + 1));
            lemma_power();
        }
        value = bytes[at + left] as u128 + 0x100 * value;
    }
    proof {
        assert(field.skip(0) =~= field);
        lemma_power();
    }
    value as usize
}

/// The number of frozen points of a saved graph. The header holds a machine word, two
/// 32-bit numbers, and this number as a machine word; the rest is not read.
pub fn get_graph_num_frozen_points(bytes: &[u8]) -> (count: Result<usize, FormatError>)
    ensures
        match count {
            Ok(n) => {
                &&& bytes@.len() >= 2 * machine_word() + 8
                &&& n > 0
                &&& n == little_endian(
                    bytes@.subrange(machine_word() + 8, 2 * machine_word() + 8),
                )
            },
            Err(FormatError::Truncated) => bytes@.len() < 2 * machine_word() + 8,
            Err(FormatError::NoFrozenPoints) => {
                &&& bytes@.len() >= 2 * machine_word() + 8
                &&& little_endian(bytes@.subrange(machine_word() + 8, 2 * machine_word() + 8)) == 0
            },
        },
{
    let width: usize = (usize::BITS / 8) as usize;
    if bytes.len() < 2 * width + 8 {
        return Err(FormatError::Truncated);
    }
    let count: usize = read_machine_word(bytes, width + 8);
    if count == 0 {
        Err(FormatError::NoFrozenPoints)
    } else {
        Ok(count)
    }
}

/// The greatest degree seen in a saved graph: the 32-bit number behind the first machine
/// word of the header.
pub fn get_graph_max_observed_degree(bytes: &[u8]) -> (degree: Result<u32, FormatError>)
    ensures
        match degree {
            Ok(n) => bytes@.len() >= machine_word() + 4 && n == word(bytes@, machine_word()),
            Err(error) => bytes@.len() < machine_word() + 4 && error == FormatError::Truncated,
        },
{
    let width: usize = (usize::BITS / 8) as usize;
    if bytes.len() < width + 4 {
        return Err(FormatError::Truncated);
    }
    Ok(read_word(bytes, width))
}

/// How many numbers can be written in so many bytes.
spec fn power(n: nat) -> nat
    decreases n,
{
    if n == 0 {
        1
    } else {
        0x100 * power((n - 1) as nat)
    }
}

proof fn lemma_power()
    ensures
        power(0) == 1,
        power(1) == 0x100,
        power(2) == 0x1_0000,
        power(3) == 0x100_0000,
        power(4) == 0x1_0000_0000,
        power(5) == 0x100_0000_0000,
        power(6) == 0x1_0000_0000_0000,
        power(7) == 0x100_0000_0000_0000,
        power(8) == 0x1_0000_0000_0000_0000,
{
    reveal_with_fuel(power, 9);
}

} // verus!
