use libsearchlight::search::Match;
use libsearchlight::utils::fragments_index::FragmentsIndex;
use libsearchlight::searchlight::config::MatchString;
use libsearchlight::utils::str_parse::{parse_graphemes, parse_match_str};
use libsearchlight::utils::subrange::IntoSubrangesExact;
use libsearchlight::utils::{estimate_cluster_size, generate_fragmentations, next_multiple_of, prev_multiple_of, simplify_ranges};

fn simple_match(start_idx: u64) -> Match {
    Match { start_idx, end_idx: start_idx + 2, id: 0 }
}

#[test]
fn test_cluster_size_estimates() {
    let headers = [simple_match(1024), simple_match(3), simple_match(7), simple_match(8192)];

    let est_cs = estimate_cluster_size(&headers);

    assert_eq!(est_cs, Some(1024))
}

#[test]
fn cluster_size_estimate_none_when_mostly_unaligned() {
    let headers = [simple_match(3), simple_match(7), simple_match(9), simple_match(8192)];
    assert_eq!(estimate_cluster_size(&headers), None);
    assert_eq!(estimate_cluster_size(&[]), None);
}

#[test]
fn test_generate_fragmentations() {
    let cluster_size = 2;

    let fragmentation_range = 10..20;

    let num_file_clusters = 3;

    let expected = vec![vec![14..20], vec![10..12, 16..20], vec![10..14, 18..20], vec![10..16]];

    let calc_fragmentations = generate_fragmentations(cluster_size, fragmentation_range, num_file_clusters);

    assert_eq!(calc_fragmentations, expected);
}

#[test]
fn test_simplify_ranges() {
    let mut test_data = vec![0..5, 5..10, 11..15, 14..20, 20..30, 30..40];

    let expected = vec![0..10, 11..15, 14..40];

    simplify_ranges(&mut test_data);

    assert_eq!(test_data, expected);
}

#[test]
fn simplify_ranges_leaves_gapped_ranges_alone() {
    let mut data = vec![0..1, 2..3, 4..5];
    simplify_ranges(&mut data);
    assert_eq!(data, vec![0..1, 2..3, 4..5]);
    let mut empty: Vec<std::ops::Range<u64>> = vec![];
    simplify_ranges(&mut empty);
    assert!(empty.is_empty());
}

#[test]
fn multiples_round_up_and_down() {
    assert_eq!(next_multiple_of(10, 4), 12);
    assert_eq!(next_multiple_of(12, 4), 16);
    assert_eq!(next_multiple_of(7, 3), 9);
    assert_eq!(next_multiple_of(9, 3), 12);
    assert_eq!(prev_multiple_of(7, 3), 6);
    assert_eq!(prev_multiple_of(10, 4), 8);
    assert_eq!(prev_multiple_of(12, 4), 12);
}

#[test]
fn test_fragments_index() {
    let file_data: Vec<u8> = (20..40).collect();

    let frags = [4..7, 10..15];

    let expected = [24, 25, 26, 30, 31, 32, 33, 34];

    let frags_index = FragmentsIndex::new(&file_data, &frags);

    assert_eq!(frags_index.len(), expected.len());

    let mut collector = Vec::with_capacity(frags_index.len());

    let mut i = 0;
    while i < frags_index.len() {
        collector.push(*frags_index.index(i));

        i += 1;
    }

    assert_eq!(collector, expected);
}

#[test]
fn test_fragments_sliced_index() {
    let file_data: Vec<u8> = (20..40).collect();

    let frags = [4..7, 10..15];

    let expected = [25, 26, 30, 31, 32];

    let frags_index = FragmentsIndex::new_sliced(&file_data, &frags, 1, 2);

    assert_eq!(frags_index.len(), expected.len());

    let mut collector = Vec::with_capacity(frags_index.len());

    let mut i = 0;
    while i < frags_index.len() {
        collector.push(*frags_index.index(i));

        i += 1;
    }

    assert_eq!(collector, expected);
}

#[test]
fn test_parse_match_str() {
    let test_str = "\\x7f\\0\\r\\t\\s\\n\\xy1\\x9aPK..🤩\\.";

    let expected: &'static [u16] = &[
        0x007f, 0x0000, b'\r' as u16, b'\t' as u16, b'\n' as u16, 0x009a, b'P' as u16, b'K' as u16, 0x8000, 0x8000, 0xf0, 0x9f,
        0xa4, 0xa9, b'.' as u16,
    ];

    let computed = parse_match_str(test_str);

    assert_eq!(expected, computed);
}

#[test]
fn parse_match_str_plain_and_escaped_backslash() {
    assert_eq!(parse_match_str("PK"), vec![b'P' as u16, b'K' as u16]);
    assert_eq!(parse_match_str("\\\\"), vec![b'\\' as u16]);
    assert_eq!(parse_match_str(""), Vec::<u16>::new());
}

#[test]
fn test_into_subranges_exact() {
    let test_range = 0..20;

    let expected = vec![0..5, 5..10, 10..15, 15..20];

    let res = test_range.into_subranges_exact(5);

    assert_eq!(*res, expected);
}

#[test]
fn test_ord_subranges_exact() {
    let test_range = 0..20;

    let expected = vec![0..5, 5..10, 10..15, 15..20];

    let res = {
        let chunk_size = 5;
        let mut stored = None;
        let num_chunks = (test_range.end - test_range.start) / chunk_size;
        let mut res = Vec::with_capacity(num_chunks);

        let mut i = test_range.start;
        while i <= test_range.end {
            let start = stored.replace(i);

            if let Some(start) = start {
                res.push(start..i);
            }

            i += chunk_size;
        }

        res
    };

    assert_eq!(expected, res);
}

#[test]
fn subranges_exact_keeps_the_remainder() {
    let res = (0..22usize).into_subranges_exact(5);
    assert_eq!(*res, vec![0..5, 5..10, 10..15, 15..20]);
    assert_eq!(res.remainder(), &Some(20..22));
}

#[test]
fn parse_graphemes_takes_clusters_as_given() {
    // an escaped hex byte, a wildcard, and a cluster of several bytes kept whole
    let clusters = ["\\", "x", "4", "1", ".", "é", "\\", "n"];
    assert_eq!(
        parse_graphemes(&clusters),
        vec![0x41, 0x8000, 0xc3, 0xa9, 0x0a]
    );
    // an invalid escape is dropped, a trailing backslash gives nothing
    assert_eq!(parse_graphemes(&["\\", "q", "a", "\\"]), vec![b'a' as u16]);
}

#[test]
fn a_written_pattern_parses_back_character_by_character() {
    let values = vec![0xff, 0x8000, 0x00, 0x2e, 0x5c];
    let text = MatchString::from_values(values.clone()).to_string();
    let chars: Vec<String> = text.chars().map(|c| c.to_string()).collect();
    let clusters: Vec<&str> = chars.iter().map(|c| c.as_str()).collect();
    assert_eq!(parse_graphemes(&clusters), values);
}

#[test]
fn size_one_subranges_are_single_steps() {
    let res = (3usize..7).into_subranges_exact(1);
    assert_eq!(*res, vec![3..4, 4..5, 5..6, 6..7]);
    assert_eq!(res.remainder(), &None);
}

#[test]
fn unaligned_fragmentations_use_single_byte_clusters() {
    let res = generate_fragmentations(1, 0..4, 2);
    assert_eq!(res, vec![vec![2..4], vec![0..1, 3..4], vec![0..2]]);
}
