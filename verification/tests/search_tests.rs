use libsearchlight::search::ac_cpu::AcCpu;
use libsearchlight::search::search_common::{AcTableBuilder, ConnectionIR, NodeIR};
use libsearchlight::search::{clmul, match_id_hash_slice, match_id_hash_slice_u16, Match, FNV_OFFSET_BASIS, FNV_PRIME};
use libsearchlight::searchlight::config::MatchString;

#[test]
fn search_test_clmul() {
    assert_eq!(clmul(FNV_OFFSET_BASIS, FNV_PRIME), (FNV_OFFSET_BASIS as u128 * FNV_PRIME as u128) as u64);
}

#[test]
fn clmul_small_and_wrapping_products() {
    assert_eq!(clmul(0, 12345), 0);
    assert_eq!(clmul(7, 6), 42);
    assert_eq!(clmul(u64::MAX, 2), u64::MAX.wrapping_mul(2));
    assert_eq!(clmul(1 << 63, 3), 1 << 63);
}

#[test]
fn hash_of_bytes_equals_hash_of_widened_values() {
    let bytes = b"ft0_header";
    let widened: Vec<u16> = bytes.iter().map(|&b| b as u16).collect();
    assert_eq!(match_id_hash_slice(bytes), match_id_hash_slice_u16(&widened));
    assert_eq!(match_id_hash_slice(&[]), FNV_OFFSET_BASIS);
}

#[test]
fn search_common_test_encode_indexable() {
    let patterns = [&[1u16, 2, 3]];

    let mut tb = AcTableBuilder::new(true);

    for p in patterns {
        tb.add_pattern(p);
    }

    let encoded = tb.build().encode_indexable();

    println!("encoded len: {}", encoded.len());

    let arr2d: Vec<&[u32]> = encoded.chunks(257).collect();

    for (row_idx, row) in arr2d.iter().enumerate() {
        for (elem_idx, elem) in row.iter().enumerate() {
            if *elem != 0 {
                println!("elem at row {row_idx}, column {elem_idx} is {elem}");
            }
        }
    }
}

#[test]
fn encode_indexable_places_each_edge_at_its_value() {
    let table = AcTableBuilder::new(true).with_pattern(&[1u16, 2, 3]).build();
    let encoded = table.encode_indexable();
    // rows: 0 (start), 1 (end), 2, 3
    assert_eq!(encoded.len(), 4 * 257);
    assert_eq!(encoded[0 * 257 + 1], 2);
    assert_eq!(encoded[2 * 257 + 2], 3);
    assert_eq!(encoded[3 * 257 + 3], 1);
    // The end node has no edges: its whole row is filled with u32::MAX.
    assert!(encoded[257..2 * 257].iter().all(|&e| e == u32::MAX));
    assert_eq!(encoded.iter().filter(|&&e| e != 0).count(), 3 + 257);
}

fn expected_ir() -> Vec<NodeIR> {
    vec![
        NodeIR {
            next_paths: vec![
                ConnectionIR { connecting_to_uuid: 2, value: 45 },
                ConnectionIR { connecting_to_uuid: 5, value: 87 },
                ConnectionIR { connecting_to_uuid: 7, value: 29 },
            ],
        },
        NodeIR { next_paths: vec![] },
        NodeIR { next_paths: vec![ConnectionIR { connecting_to_uuid: 3, value: 32 }] },
        NodeIR { next_paths: vec![ConnectionIR { connecting_to_uuid: 4, value: 23 }] },
        NodeIR { next_paths: vec![ConnectionIR { connecting_to_uuid: 1, value: 97 }] },
        NodeIR {
            next_paths: vec![
                ConnectionIR { connecting_to_uuid: 6, value: 34 },
                ConnectionIR { connecting_to_uuid: 6, value: 45 },
            ],
        },
        NodeIR { next_paths: vec![ConnectionIR { connecting_to_uuid: 1, value: 12 }] },
        NodeIR { next_paths: vec![ConnectionIR { connecting_to_uuid: 2, value: 45 }] },
    ]
}

#[test]
fn search_common_test_ir_gen() {
    let patterns: [&[u16]; 4] = [&[45, 32, 23, 97], &[87, 34, 12], &[87, 45, 12], &[29, 45, 32, 23, 97]];

    let mut pb = AcTableBuilder::new(true);

    for p in patterns {
        pb.add_pattern(p);
    }

    assert_eq!(pb.pat_ir(), &expected_ir())
}

#[test]
fn ir_gen_without_suffix_sharing_makes_new_nodes() {
    let mut pb = AcTableBuilder::new(false);
    pb.add_pattern(&[1, 2, 3]);
    pb.add_pattern(&[4, 2, 3]);
    // Without sharing, the suffix [2, 3] of the second pattern gets its own node.
    assert_eq!(pb.pat_ir().len(), 6);
    let mut shared = AcTableBuilder::new(true);
    shared.add_pattern(&[1, 2, 3]);
    shared.add_pattern(&[4, 2, 3]);
    assert_eq!(shared.pat_ir().len(), 4);
}

#[test]
fn test_ac_cpu_single() {
    let buffer = [1, 2, 3, 8, 4, 1, 2, 3, 1, 1, 2, 1, 2, 3, 0, 5, 9, 1, 2, 3];

    let pattern = &[1u16, 2, 3];
    let pattern_id = match_id_hash_slice_u16(pattern);

    let pfac_table = AcTableBuilder::new(true).with_pattern(pattern).build();
    let mut ac = AcCpu::new(pfac_table);
    let matches = ac.search(&buffer, 0, 0);

    let expected = vec![
        Match { id: pattern_id, start_idx: 0, end_idx: 2 },
        Match { id: pattern_id, start_idx: 5, end_idx: 7 },
        Match { id: pattern_id, start_idx: 11, end_idx: 13 },
        Match { id: pattern_id, start_idx: 17, end_idx: 19 },
    ];

    assert_eq!(matches, expected);
}

#[test]
fn test_ac_cpu_single_match() {
    let buffer = [1, 2, 3, 8, 4, 1, 2, 3, 1, 1, 2, 1, 2, 3, 0, 5, 9, 1, 2];

    let pattern = &MatchString::from("\\x01\\x02\\x03.");
    let pattern_id = match_id_hash_slice_u16(pattern.as_slice());

    let pfac_table = AcTableBuilder::new(true).with_pattern(pattern.as_slice()).build();
    let mut ac = AcCpu::new(pfac_table);
    let matches = ac.search(&buffer, 0, 0);

    let expected = vec![
        Match { id: pattern_id, start_idx: 0, end_idx: 3 },
        Match { id: pattern_id, start_idx: 5, end_idx: 8 },
        Match { id: pattern_id, start_idx: 11, end_idx: 14 },
    ];

    assert_eq!(matches, expected);
}

#[test]
fn test_ac_cpu_multi() {
    let buffer = [1, 2, 3, 4, 5, 8, 4, 1, 2, 3, 4, 5, 1, 1, 2, 1, 2, 3, 4, 5, 0, 5, 9, 1, 2];

    let pattern = &[1u16, 2, 3, 4, 5];
    let pattern_id = match_id_hash_slice_u16(pattern);

    let pfac_table = AcTableBuilder::new(true).with_pattern(pattern).build();
    let mut ac = AcCpu::new(pfac_table);
    let mut matches = ac.search(&buffer[..8], 0, 0);
    let overlap = ac.table().max_pat_len as usize;
    matches.append(&mut ac.search(&buffer[3..10], 3, overlap));
    matches.append(&mut ac.search(&buffer[5..], 5, overlap));

    let expected = vec![
        Match { id: pattern_id, start_idx: 0, end_idx: 4 },
        Match { id: pattern_id, start_idx: 7, end_idx: 11 },
        Match { id: pattern_id, start_idx: 15, end_idx: 19 },
    ];

    assert_eq!(matches, expected);
}

#[test]
fn table_lookup_follows_wildcards_and_exact_values() {
    let table = AcTableBuilder::new(true).with_pattern(MatchString::from("\\x01.").as_slice()).build();
    assert_eq!(table.lookup(0, 1).map(|e| e.next_state), Some(2));
    assert!(table.lookup(0, 2).is_none());
    assert_eq!(table.lookup(2, 0xab).map(|e| e.next_state), Some(1));
    assert!(table.lookup(99, 1).is_none());
    assert_eq!(table.num_rows(), 3);
    assert_eq!(table.indexable_columns(), 257);
}

fn walk(table: &libsearchlight::search::search_common::AcTable, values: &[u16]) -> Option<u32> {
    let mut state = 0u32;
    for &v in values {
        state = table.lookup(state, v as u8)?.next_state;
    }
    Some(state)
}

#[test]
fn shared_suffix_nodes_are_copied_before_they_are_extended() {
    let patterns: [&[u16]; 4] = [&[1, 2, 3], &[4, 3], &[1, 2, 5, 6], &[4, 5]];
    let mut b = AcTableBuilder::new(true);
    for p in patterns {
        b.add_pattern(p);
    }
    let table = b.build();
    assert!(table.table[1].is_empty());
    for p in patterns {
        assert_eq!(walk(&table, p), Some(1), "pattern {:?} is not recognised", p);
    }
    // Paths that mix two patterns are not recognised.
    assert_ne!(walk(&table, &[4, 5, 6]), Some(1));
    assert_ne!(walk(&table, &[1, 2]), Some(1));
}

#[test]
fn every_added_pattern_reaches_the_end_state() {
    let patterns: [&[u16]; 7] = [&[9, 8, 7], &[1, 8, 7], &[1, 8, 6], &[2, 7], &[3, 8, 7], &[3, 8, 5, 5], &[2, 6, 6]];
    for opt in [true, false] {
        let mut b = AcTableBuilder::new(opt);
        for p in patterns {
            b.add_pattern(p);
        }
        let table = b.build();
        assert!(table.table[1].is_empty());
        for p in patterns {
            assert_eq!(walk(&table, p), Some(1), "pattern {:?} (sharing {})", p, opt);
        }
        assert_eq!(table.max_pat_len, 4);
    }
}

fn edges(b: &AcTableBuilder) -> Vec<Vec<(u32, u16)>> {
    b.pat_ir()
        .iter()
        .map(|n| n.next_paths.iter().map(|c| (c.connecting_to_uuid, c.value)).collect())
        .collect()
}

#[test]
fn a_remembered_suffix_is_shared_only_where_it_spells_the_rest() {
    // The same suffix hashes: [4, 2, 3] reuses the chain spelling [2, 3].
    let mut b = AcTableBuilder::new(true);
    b.add_pattern_hashed(&[1, 2, 3], &[10, 20, 30]);
    b.add_pattern_hashed(&[4, 2, 3], &[10, 20, 30]);
    assert_eq!(
        edges(&b),
        vec![vec![(2, 1), (2, 4)], vec![], vec![(3, 2)], vec![(1, 3)]]
    );
    // Different hashes: nothing is shared.
    let mut b = AcTableBuilder::new(true);
    b.add_pattern_hashed(&[1, 2, 3], &[10, 20, 30]);
    b.add_pattern_hashed(&[4, 2, 3], &[11, 21, 31]);
    assert_eq!(edges(&b).len(), 6);
    // A hash that collides with a different suffix: the node is not reused.
    let mut b = AcTableBuilder::new(true);
    b.add_pattern_hashed(&[1, 2, 3], &[10, 20, 30]);
    b.add_pattern_hashed(&[4, 5, 6], &[10, 20, 30]);
    let t = edges(&b);
    assert_eq!(t.len(), 6);
    assert_eq!(t[0], vec![(2, 1), (4, 4)]);
    // Without sharing, nothing is remembered.
    let mut b = AcTableBuilder::new(false);
    b.add_pattern_hashed(&[1, 2, 3], &[10, 20, 30]);
    b.add_pattern_hashed(&[4, 2, 3], &[10, 20, 30]);
    assert_eq!(edges(&b).len(), 6);
}

#[test]
fn a_pattern_is_written_back_as_escapes() {
    let m = MatchString::from_values(vec![0x50, 0x4b, 0x8000, 0x03, 0x100, 0x1abc]);
    assert_eq!(m.to_string(), "\\x50\\x4b.\\x03\\x100\\x1abc");
    // Written back and parsed again, a pattern is unchanged.
    let m = MatchString::from("\\x89PNG..");
    assert_eq!(MatchString::from(m.to_string().as_str()), m);
    assert_eq!(MatchString::from_values(Vec::new()).to_string(), "");
}

#[test]
fn adding_a_pattern_again_adds_nothing() {
    let mut b = AcTableBuilder::new(true);
    b.add_pattern_hashed(&[1, 2, 3], &[10, 20, 30]);
    b.add_pattern_hashed(&[4, 2, 3], &[10, 20, 30]);
    let before = edges(&b);
    // node 2 is shared, but the rest of the pattern is there already: nothing is copied
    b.add_pattern_hashed(&[1, 2, 3], &[10, 20, 30]);
    b.add_pattern_hashed(&[4, 2, 3], &[10, 20, 30]);
    assert_eq!(edges(&b), before);
    // extending through the shared node still copies it
    b.add_pattern_hashed(&[1, 2, 5], &[11, 21, 31]);
    let t = edges(&b);
    assert_eq!(t[0], vec![(4, 1), (2, 4)]);
    assert_eq!(t[4], vec![(5, 2)]);
    assert_eq!(t[5], vec![(1, 3), (1, 5)]);
    assert_eq!(t[2], vec![(3, 2)]);
}
