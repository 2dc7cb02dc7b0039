use libsearchlight::search::pairing::{pair, preprocess_config, MatchPair, MatchPart};
use libsearchlight::search::{match_id_hash_slice, Match};
use libsearchlight::searchlight::config::{FileType, MatchString, PairingStrategy, SearchlightConfig};

fn ft(name: &str, pairing: PairingStrategy, max_len: u64, requires_footer: bool) -> FileType {
    FileType {
        headers: vec![MatchString::from(format!("{name}_header").as_str())],
        footers: vec![MatchString::from(format!("{name}_footer").as_str())],
        extension: Some(name.to_string()),
        pairing,
        max_len: Some(max_len),
        requires_footer,
        ..Default::default()
    }
}

fn m(id: u64, start_idx: u64, end_idx: u64) -> Match {
    Match { id, start_idx, end_idx }
}

#[test]
fn test_pairing() {
    let match_ids: Vec<u64> = [
        "ft0_header", "ft0_footer", "ft1_header", "ft1_footer", "ft2_header", "ft2_footer", "ft3_header", "ft3_footer",
        "ft4_header", "ft4_footer", "ft5_header", "ft5_footer",
    ]
    .iter()
    .map(|s| match_id_hash_slice(s.as_bytes()))
    .collect();

    let mut match_lists = vec![
        vec![
            // Case - Simple PairNext
            m(match_ids[0], 0, 3),
            m(match_ids[1], 6, 7),
            // Case - Interleaved PairNext matches of different file types
            m(match_ids[0], 10, 15),
            m(match_ids[2], 13, 16),
            m(match_ids[1], 18, 20),
            m(match_ids[3], 19, 23),
            // Case - Interleaved PairNext matches of the same file type
            m(match_ids[0], 27, 29),
            m(match_ids[0], 30, 32),
            m(match_ids[1], 33, 34),
            m(match_ids[1], 35, 37),
            // Case - Simple PairLast
            m(match_ids[4], 45, 47),
            m(match_ids[5], 49, 52),
            // Case - Interleaved PairLast matches of different file types
            m(match_ids[4], 57, 59),
            m(match_ids[6], 60, 62),
            m(match_ids[5], 64, 66),
            m(match_ids[7], 67, 69),
            // Case - Interleaved PairLast matches of the same file type
            m(match_ids[6], 70, 72),
            m(match_ids[6], 73, 76),
            m(match_ids[7], 77, 78),
            m(match_ids[7], 79, 81),
            // Case - Simple PairNext (out of bounds)
            m(match_ids[0], 83, 85),
            m(match_ids[1], 91, 94),
            // Case - Simple PairLast (out of bounds)
            m(match_ids[6], 95, 99),
            m(match_ids[7], 108, 112),
            // Case - PairNext with two candidates
            m(match_ids[0], 115, 117),
            m(match_ids[1], 119, 120),
            m(match_ids[1], 122, 124),
            // Case - PairLast with two candidates
            m(match_ids[4], 125, 128),
            m(match_ids[5], 129, 131),
            m(match_ids[5], 132, 134),
        ],
        vec![
            // Case - Single PairNext that doesn't require a footer
            m(match_ids[8], 140, 144),
            // Case - Single PairLast that doesn't require a footer
            m(match_ids[10], 148, 152),
        ],
    ];

    let config = SearchlightConfig {
        file_types: vec![
            ft("ft0", PairingStrategy::PairNext, 10, true),
            ft("ft1", PairingStrategy::PairNext, 10, true),
            ft("ft2", PairingStrategy::PairLast, 10, true),
            ft("ft3", PairingStrategy::PairLast, 11, true),
            ft("ft4", PairingStrategy::PairNext, 10, false),
            ft("ft5", PairingStrategy::PairLast, 10, false),
        ],
        ..Default::default()
    };

    config.validate().unwrap();

    let expected_pairs = [
        MatchPair { file_type: &config.file_types[0], start_idx: 0, end_idx: 7 },
        MatchPair { file_type: &config.file_types[0], start_idx: 10, end_idx: 20 },
        MatchPair { file_type: &config.file_types[1], start_idx: 13, end_idx: 23 },
        MatchPair { file_type: &config.file_types[0], start_idx: 27, end_idx: 37 },
        MatchPair { file_type: &config.file_types[0], start_idx: 30, end_idx: 34 },
        MatchPair { file_type: &config.file_types[2], start_idx: 45, end_idx: 52 },
        MatchPair { file_type: &config.file_types[2], start_idx: 57, end_idx: 66 },
        MatchPair { file_type: &config.file_types[3], start_idx: 60, end_idx: 69 },
        MatchPair { file_type: &config.file_types[3], start_idx: 70, end_idx: 81 },
        MatchPair { file_type: &config.file_types[3], start_idx: 73, end_idx: 78 },
        MatchPair { file_type: &config.file_types[0], start_idx: 115, end_idx: 120 },
        MatchPair { file_type: &config.file_types[2], start_idx: 125, end_idx: 134 },
        MatchPair { file_type: &config.file_types[4], start_idx: 140, end_idx: 150 },
        MatchPair { file_type: &config.file_types[5], start_idx: 148, end_idx: 158 },
    ];

    let id_ftype_map = preprocess_config(&config);

    println!("matches (before): {:?}\n", match_lists);

    let mut match_list = match_lists[0].clone();

    let mut match_pairs = pair(&mut match_list, &id_ftype_map, false);

    match_list.append(&mut match_lists[1]);

    match_pairs.append(&mut pair(&mut match_list, &id_ftype_map, true));

    match_pairs.sort_by_key(|e| e.start_idx);

    println!("matches (after): {:?}\n", match_list);
    println!("match pairs: {:?}", match_pairs);

    assert_eq!(match_pairs, expected_pairs);
    assert!(match_list.is_empty());
}

#[test]
fn preprocess_config_tags_headers_and_footers() {
    let config = SearchlightConfig {
        file_types: vec![ft("a", PairingStrategy::PairNext, 10, true), ft("b", PairingStrategy::PairLast, 10, true)],
        ..Default::default()
    };
    let map = preprocess_config(&config);
    assert_eq!(map.len(), 4);
    let (i, t, part) = map[&match_id_hash_slice(b"b_footer")];
    assert_eq!(i, 1);
    assert_eq!(t, &config.file_types[1]);
    assert_eq!(part, MatchPart::Footer);
    assert_eq!(map[&match_id_hash_slice(b"a_header")].2, MatchPart::Header);
}

#[test]
fn unpaired_pair_last_header_waits_for_more_matches() {
    let config = SearchlightConfig { file_types: vec![ft("a", PairingStrategy::PairLast, 10, true)], ..Default::default() };
    let map = preprocess_config(&config);
    let h = match_id_hash_slice(b"a_header");
    let mut ms = vec![m(h, 5, 7)];
    // No later match of its type is out of range, so the header stays for a later call.
    let pairs = pair(&mut ms, &map, false);
    assert!(pairs.is_empty());
    assert_eq!(ms, vec![m(h, 5, 7)]);
    let pairs = pair(&mut ms, &map, true);
    assert!(pairs.is_empty());
    assert_eq!(ms, vec![m(h, 5, 7)]);
}

#[test]
fn unpaired_pair_next_header_is_dropped() {
    let config = SearchlightConfig { file_types: vec![ft("a", PairingStrategy::PairNext, 10, true)], ..Default::default() };
    let map = preprocess_config(&config);
    let h = match_id_hash_slice(b"a_header");
    let mut ms = vec![m(h, 5, 7)];
    let pairs = pair(&mut ms, &map, false);
    assert!(pairs.is_empty());
    assert!(ms.is_empty());
}

#[test]
fn pair_next_out_of_range_is_dropped_without_pair() {
    let config = SearchlightConfig { file_types: vec![ft("a", PairingStrategy::PairNext, 10, true)], ..Default::default() };
    let map = preprocess_config(&config);
    let mut ms = vec![m(match_id_hash_slice(b"a_header"), 0, 2), m(match_id_hash_slice(b"a_footer"), 20, 22)];
    let pairs = pair(&mut ms, &map, true);
    assert!(pairs.is_empty());
    assert!(ms.is_empty());
}

#[test]
fn header_of_type_without_footers_is_sized() {
    let config = SearchlightConfig {
        file_types: vec![FileType {
            headers: vec![MatchString::from("hd")],
            max_len: Some(100),
            ..Default::default()
        }],
        ..Default::default()
    };
    let map = preprocess_config(&config);
    let mut ms = vec![m(match_id_hash_slice(b"hd"), 40, 41)];
    let pairs = pair(&mut ms, &map, false);
    assert_eq!(pairs, vec![MatchPair { file_type: &config.file_types[0], start_idx: 40, end_idx: 140 }]);
    assert!(ms.is_empty());
}

#[test]
fn pairs_start_at_headers_and_stay_within_max_len() {
    let config = SearchlightConfig {
        file_types: vec![
            ft("ft0", PairingStrategy::PairNext, 10, true),
            ft("ft2", PairingStrategy::PairLast, 10, false),
        ],
        ..Default::default()
    };
    let map = preprocess_config(&config);
    let h0 = match_id_hash_slice(b"ft0_header");
    let f0 = match_id_hash_slice(b"ft0_footer");
    let h2 = match_id_hash_slice(b"ft2_header");
    let f2 = match_id_hash_slice(b"ft2_footer");
    let ms = vec![
        m(h0, 0, 3),
        m(f0, 6, 7),
        m(h2, 10, 12),
        m(f2, 14, 15),
        m(f2, 17, 19),
        m(h0, 30, 31),
        m(f0, 50, 51),
        m(h2, 60, 62),
    ];
    let mut consumable = ms.clone();
    let pairs = pair(&mut consumable, &map, true);
    assert!(!pairs.is_empty());
    for p in &pairs {
        assert!(ms.iter().any(|x| map[&x.id].2 == MatchPart::Header && x.start_idx == p.start_idx));
        assert!(p.start_idx <= p.end_idx);
        assert!(p.end_idx - p.start_idx <= p.file_type.max_len.unwrap());
    }
    assert_eq!(
        pairs,
        vec![
            MatchPair { file_type: &config.file_types[0], start_idx: 0, end_idx: 7 },
            MatchPair { file_type: &config.file_types[1], start_idx: 10, end_idx: 19 },
            MatchPair { file_type: &config.file_types[1], start_idx: 60, end_idx: 70 },
        ]
    );
}
