use libsearchlight::search::ac_cpu::AcCpu;
use libsearchlight::search::pairing::{preprocess_config, MatchPair};
use libsearchlight::search::search_common::AcTableBuilder;
use libsearchlight::search::{match_id_hash_slice_u16, Match};
use libsearchlight::searchlight::carving::{carve_plan, carved_file_name, choose_cluster_size, header_matches, ids_all_mapped, plan_carving, search_image};
use libsearchlight::utils::estimate_cluster_size;
use libsearchlight::searchlight::config::{FileType, FileTypeId, MatchString, SearchlightConfig};
use libsearchlight::validation::{DelegatingValidator, FileValidationInfo, FileValidationType};

fn config() -> SearchlightConfig {
    SearchlightConfig {
        max_reconstruction_search_len: None,
        file_types: vec![FileType {
            headers: vec![MatchString::from("\\x01\\x02\\x03")],
            footers: vec![MatchString::from("\\x07\\x08")],
            extension: Some("jpg".to_string()),
            type_id: FileTypeId::Jpeg,
            ..Default::default()
        }],
    }
}

#[test]
fn search_image_finds_matches_across_block_boundaries() {
    let data = [0u8, 1, 2, 3, 0, 7, 8, 0, 1, 2, 3, 9];
    let table = AcTableBuilder::from_config(&config()).build();
    assert_eq!(table.max_pat_len, 3);
    let header = match_id_hash_slice_u16(&[1, 2, 3]);
    let footer = match_id_hash_slice_u16(&[7, 8]);
    let expected = vec![
        Match { id: header, start_idx: 1, end_idx: 3 },
        Match { id: footer, start_idx: 5, end_idx: 6 },
        Match { id: header, start_idx: 8, end_idx: 10 },
    ];
    assert_eq!(search_image(table.clone(), &data, 5), expected);
    assert_eq!(search_image(table, &data, 64), expected);
}

#[test]
fn header_matches_keeps_headers_in_order() {
    let cfg = config();
    let map = preprocess_config(&cfg);
    let header = match_id_hash_slice_u16(&[1, 2, 3]);
    let footer = match_id_hash_slice_u16(&[7, 8]);
    let matches = vec![
        Match { id: header, start_idx: 1, end_idx: 3 },
        Match { id: footer, start_idx: 5, end_idx: 6 },
        Match { id: header, start_idx: 8, end_idx: 10 },
    ];
    assert!(ids_all_mapped(&matches, &map));
    assert_eq!(header_matches(&matches, &map), vec![matches[0], matches[2]]);
    let stray = vec![Match { id: 42, start_idx: 0, end_idx: 1 }];
    assert!(!ids_all_mapped(&stray, &map));
}

#[test]
fn carve_plan_spans_the_fragments() {
    let ft = FileType { type_id: FileTypeId::Zip, ..Default::default() };
    let pot = MatchPair { file_type: &ft, start_idx: 10, end_idx: 20 };
    let unrecognised = FileValidationInfo { validation_type: FileValidationType::Unrecognised, fragments: vec![0..4] };
    assert!(carve_plan(&pot, unrecognised).is_none());

    let whole = FileValidationInfo { validation_type: FileValidationType::Partial, fragments: vec![] };
    let plan = carve_plan(&pot, whole).unwrap();
    assert_eq!(plan.validation_type, FileValidationType::Partial);
    assert_eq!(plan.fragments, vec![10..21]);
    assert_eq!((plan.start_idx, plan.end_idx), (10, 21));

    let split = FileValidationInfo { validation_type: FileValidationType::Correct, fragments: vec![30..40, 5..8] };
    let plan = carve_plan(&pot, split).unwrap();
    assert_eq!(plan.fragments, vec![30..40, 5..8]);
    assert_eq!((plan.start_idx, plan.end_idx), (5, 40));
}

#[test]
fn search_image_in_blocks_equals_one_search_of_the_whole() {
    let data: Vec<u8> = [0u8, 1, 2, 3, 7, 8, 9, 1, 2].iter().cycle().take(200).copied().collect();
    let table = AcTableBuilder::from_config(&config()).build();
    let mut whole = AcCpu::new(table.clone()).search(&data, 0, 0);
    whole.sort_by_key(|m| m.start_idx);
    assert!(!whole.is_empty());
    for block_size in [4usize, 5, 7, 16, 64, 300] {
        assert_eq!(search_image(table.clone(), &data, block_size), whole);
    }
}

#[test]
fn search_image_orders_matches_by_start() {
    let cfg = SearchlightConfig {
        max_reconstruction_search_len: None,
        file_types: vec![FileType {
            headers: vec![MatchString::from("\\x01\\x02\\x03\\x04")],
            footers: vec![MatchString::from("\\x02\\x03")],
            type_id: FileTypeId::Png,
            ..Default::default()
        }],
    };
    let table = AcTableBuilder::from_config(&cfg).build();
    let data = [1u8, 2, 3, 4];
    let long = match_id_hash_slice_u16(&[1, 2, 3, 4]);
    let short = match_id_hash_slice_u16(&[2, 3]);
    // The short pattern is found first (it ends first), but starts later.
    assert_eq!(
        AcCpu::new(table.clone()).search(&data, 0, 0),
        vec![Match { id: short, start_idx: 1, end_idx: 2 }, Match { id: long, start_idx: 0, end_idx: 3 }]
    );
    assert_eq!(
        search_image(table, &data, 64),
        vec![Match { id: long, start_idx: 0, end_idx: 3 }, Match { id: short, start_idx: 1, end_idx: 2 }]
    );
}

#[test]
fn carved_files_are_named_by_their_span_and_extension() {
    assert_eq!(carved_file_name(0, 7, &Some("png".to_string())), "0-7.png");
    assert_eq!(carved_file_name(1234567890, 18446744073709551615, &None), "1234567890-18446744073709551615.dat");
    assert_eq!(carved_file_name(10, 100, &Some(String::new())), "10-100.");
}

#[test]
fn the_given_cluster_size_wins_over_the_estimate() {
    let headers: Vec<Match> = (0..8).map(|i| Match::new(0, i * 4096, i * 4096 + 3)).collect();
    assert_eq!(choose_cluster_size(Some(512), &headers), 512);
    assert_eq!(choose_cluster_size(None, &headers), estimate_cluster_size(&headers).unwrap());
    assert_eq!(choose_cluster_size(None, &[]), 1);
}

#[test]
fn carving_plans_each_potential_file_in_order() {
    let unknown = FileType { type_id: FileTypeId::Unknown, extension: Some("bin".to_string()), ..Default::default() };
    let plain = FileType { type_id: FileTypeId::Unknown, extension: None, ..Default::default() };
    let pairs = vec![
        MatchPair { file_type: &unknown, start_idx: 10, end_idx: 19 },
        MatchPair { file_type: &plain, start_idx: 0, end_idx: 3 },
    ];
    let image = vec![0u8; 32];
    let config = SearchlightConfig::default();
    let validator = DelegatingValidator::new(|_: &[u8]| true);
    let outcomes = plan_carving(&validator, &image, &pairs, &[], 512, &config);
    assert_eq!(outcomes.len(), 2);
    assert_eq!(outcomes[0].validation_type, FileValidationType::Unanalysed);
    let (name, carved) = outcomes[0].carved.as_ref().unwrap();
    assert_eq!(name, "10-20.bin");
    assert_eq!(carved.fragments, vec![10..20]);
    let (name, _) = outcomes[1].carved.as_ref().unwrap();
    assert_eq!(name, "0-4.dat");
}
