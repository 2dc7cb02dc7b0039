use libsearchlight::search::pfac_common::PfacTableBuilder;
use libsearchlight::search::pfac_cpu::{walk_from, PfacCpu, PfacWalk};
use libsearchlight::search::{match_id_hash_init, match_id_hash_slice, Match};

#[test]
fn test_pfac_cpu_single() {
    let buffer = [1, 2, 3, 8, 4, 1, 2, 3, 1, 1, 2, 1, 2, 3, 0, 5, 9, 1, 2];

    let pattern = &[1, 2, 3];
    let pattern_id = match_id_hash_slice(pattern);

    let pfac_table = PfacTableBuilder::new(true).with_pattern(pattern).build();
    let mut pfac = PfacCpu::new(pfac_table);
    let matches = pfac.search_next(&buffer, 0);

    let expected = vec![
        Match { id: pattern_id, start_idx: 0, end_idx: 2 },
        Match { id: pattern_id, start_idx: 5, end_idx: 7 },
        Match { id: pattern_id, start_idx: 11, end_idx: 13 },
    ];

    assert_eq!(matches, expected);
}

#[test]
fn test_pfac_cpu_multi() {
    let buffer = [1, 2, 3, 4, 5, 8, 4, 1, 2, 3, 4, 5, 1, 1, 2, 1, 2, 3, 4, 5, 0, 5, 9, 1, 2];

    let pattern = &[1, 2, 3, 4, 5];
    let pattern_id = match_id_hash_slice(pattern);

    let pfac_table = PfacTableBuilder::new(true).with_pattern(pattern).build();
    let mut pfac = PfacCpu::new(pfac_table);
    let mut matches = pfac.search_next(&buffer[..8], 0);
    matches.append(&mut pfac.search_next(&buffer[8..10], 8));
    matches.append(&mut pfac.search_next(&buffer[10..], 10));

    let expected = vec![
        Match { id: pattern_id, start_idx: 0, end_idx: 4 },
        Match { id: pattern_id, start_idx: 7, end_idx: 11 },
        Match { id: pattern_id, start_idx: 15, end_idx: 19 },
    ];

    assert_eq!(matches, expected);
}

#[test]
fn pfac_walk_ends_in_each_way() {
    let table = PfacTableBuilder::new(true).with_pattern(&[1, 2, 3]).build();
    let data = [1u8, 2, 3, 9, 1, 2];
    match walk_from(&table, &data, 0, match_id_hash_init(), 0) {
        PfacWalk::Found { id, end } => {
            assert_eq!(id, match_id_hash_slice(&[1, 2, 3]));
            assert_eq!(end, 3);
        }
        _ => panic!("expected a match"),
    }
    assert!(matches!(walk_from(&table, &data, 0, match_id_hash_init(), 1), PfacWalk::Dead));
    assert!(matches!(walk_from(&table, &data, 0, match_id_hash_init(), 4), PfacWalk::Pending { .. }));
}

#[test]
fn pfac_discard_progress_forgets_pending_walks() {
    let table = PfacTableBuilder::new(true).with_pattern(&[1, 2, 3]).build();
    let mut pfac = PfacCpu::new(table);
    assert!(pfac.search_next(&[0, 1, 2], 0).is_empty());
    pfac.discard_progress();
    assert!(pfac.search_next(&[3, 0], 3).is_empty());
    let table = PfacTableBuilder::new(true).with_pattern(&[1, 2, 3]).build();
    let mut pfac = PfacCpu::new(table);
    assert!(pfac.search_next(&[0, 1, 2], 0).is_empty());
    let m = pfac.search_next(&[3, 0], 3);
    assert_eq!(m, vec![Match { id: match_id_hash_slice(&[1, 2, 3]), start_idx: 1, end_idx: 3 }]);
}
