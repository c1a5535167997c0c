use label_filter::formats::{
    encode_results, get_graph_max_observed_degree, get_graph_num_frozen_points, parse_groundtruth,
    FormatError,
};

fn header(size: usize, degree: u32, start: u32, frozen: usize) -> Vec<u8> {
    let mut bytes = size.to_le_bytes().to_vec();
    bytes.extend(degree.to_le_bytes());
    bytes.extend(start.to_le_bytes());
    bytes.extend(frozen.to_le_bytes());
    bytes
}

#[test]
fn results_are_written() {
    assert_eq!(
        encode_results(&[1, 0x0403_0201, u32::MAX], 3, 1),
        vec![3, 0, 0, 0, 1, 0, 0, 0, 1, 0, 0, 0, 1, 2, 3, 4, 255, 255, 255, 255]
    );
    assert_eq!(encode_results(&[], 0, 10), vec![0, 0, 0, 0, 10, 0, 0, 0]);
}

#[test]
fn results_are_read_back() {
    let ids = [7, 8, 9, 300, 70_000, 0];
    let gt = parse_groundtruth(&encode_results(&ids, 2, 3)).ok().unwrap();
    assert_eq!(gt.num_queries, 2);
    assert_eq!(gt.dim, 3);
    assert_eq!(gt.ids, ids.to_vec());
    assert_eq!(gt.distances, None);
}

#[test]
fn distances_behind_the_ids_are_read() {
    let mut bytes = encode_results(&[5, 6], 1, 2);
    bytes.extend(1.5f32.to_le_bytes());
    bytes.extend((-2.0f32).to_le_bytes());
    let gt = parse_groundtruth(&bytes).ok().unwrap();
    assert_eq!(gt.ids, vec![5, 6]);
    assert_eq!(gt.distances, Some(vec![1.5f32.to_bits(), (-2.0f32).to_bits()]));
}

#[test]
fn other_bytes_behind_the_ids_are_passed_over() {
    let mut bytes = encode_results(&[5, 6], 1, 2);
    bytes.push(1);
    let gt = parse_groundtruth(&bytes).ok().unwrap();
    assert_eq!(gt.ids, vec![5, 6]);
    assert_eq!(gt.distances, None);
    bytes.extend([0; 8]);
    assert_eq!(parse_groundtruth(&bytes).ok().unwrap().distances, None);
}

#[test]
fn nothing_announced_has_no_distances_to_miss() {
    let gt = parse_groundtruth(&encode_results(&[], 0, 10)).ok().unwrap();
    assert_eq!(gt.ids, Vec::<u32>::new());
    assert_eq!(gt.distances, Some(Vec::new()));
}

#[test]
fn short_ground_truth_is_refused() {
    let bytes = encode_results(&[5, 6], 1, 2);
    for n in 0..bytes.len() {
        assert_eq!(parse_groundtruth(&bytes[..n]).err(), Some(FormatError::Truncated));
    }
    let huge = [255u8; 8];
    assert_eq!(parse_groundtruth(&huge).err(), Some(FormatError::Truncated));
}

#[test]
fn frozen_points_are_read() {
    let bytes = header(123_456, 48, 7, 1);
    assert_eq!(get_graph_num_frozen_points(&bytes), Ok(1));
    let bytes = header(usize::MAX, u32::MAX, u32::MAX, 0x0102_0304);
    assert_eq!(get_graph_num_frozen_points(&bytes), Ok(0x0102_0304));
    let bytes = header(0, 0, 0, usize::MAX);
    assert_eq!(get_graph_num_frozen_points(&bytes), Ok(usize::MAX));
    let mut longer = header(1, 2, 3, 4);
    longer.extend([9; 100]);
    assert_eq!(get_graph_num_frozen_points(&longer), Ok(4));
}

#[test]
fn a_graph_without_frozen_points_is_refused() {
    assert_eq!(
        get_graph_num_frozen_points(&header(1, 2, 3, 0)),
        Err(FormatError::NoFrozenPoints)
    );
}

#[test]
fn a_short_graph_header_is_refused() {
    let bytes = header(1, 48, 3, 4);
    for n in 0..bytes.len() {
        assert_eq!(get_graph_num_frozen_points(&bytes[..n]), Err(FormatError::Truncated));
    }
    let prefix = std::mem::size_of::<usize>() + 4;
    assert_eq!(get_graph_max_observed_degree(&bytes[..prefix - 1]), Err(FormatError::Truncated));
    assert_eq!(get_graph_max_observed_degree(&bytes[..prefix]), Ok(48));
}

#[test]
fn the_observed_degree_is_read() {
    assert_eq!(get_graph_max_observed_degree(&header(5, 0x0a0b_0c0d, 6, 7)), Ok(0x0a0b_0c0d));
}
