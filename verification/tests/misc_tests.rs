use libsearchlight::args::ClusterSizeArg;
use libsearchlight::error::Error;
use libsearchlight::search::pfac_common::PfacTableBuilder;
use libsearchlight::search::search_common::{ConnectionIR, NodeIR};
use libsearchlight::searchlight::carve_log::CarveLog;
use libsearchlight::searchlight::config::{FileTypeId, SearchlightConfig};
use libsearchlight::searchlight::{CarveOperationInfo, Searchlight};
use libsearchlight::utils::iter::{ToChunksExact, ToGappedWindows};
use libsearchlight::utils::multi_reader::MultiReader;
use libsearchlight::validation::FileValidationType;

#[test]
fn test_gapped_windows() {
    let array = [1, 2, 3, 4, 5, 6, 7, 8, 9, 10, 11, 12, 13];

    let result: Vec<&[i32]> = array.to_gapped_windows(7, 5).collect();

    let expected: &[&[i32]] = &[&[1, 2, 3, 4, 5, 6, 7], &[6, 7, 8, 9, 10, 11, 12], &[11, 12, 13]];

    assert_eq!(&result, expected);
}

#[test]
fn gapped_windows_end_with_an_empty_window_when_the_gap_lands_on_the_end() {
    let array = [1, 2, 3, 4];
    let result: Vec<&[i32]> = array.to_gapped_windows(2, 2).collect();
    let expected: &[&[i32]] = &[&[1, 2], &[3, 4], &[]];
    assert_eq!(&result, expected);
}

#[test]
fn chunks_exact_drop_the_short_tail() {
    let chunks = vec![1, 2, 3, 4, 5, 6, 7].to_chunks_exact(3).collect();
    assert_eq!(chunks, vec![vec![1, 2, 3], vec![4, 5, 6]]);
    let mut it = vec![1, 2].to_chunks_exact(3);
    assert_eq!(it.next(), None);
}

#[test]
fn test_multi_reader() {
    let test_data: &[&[u8]] = &[&[0, 1, 2, 3, 4, 5], &[6, 7], &[], &[8, 9, 10, 11, 12], &[13]];

    let test_reads = &[2, 5, 4];

    let expected = &[0, 1, 2, 3, 4, 5, 6, 7, 8, 9, 10];

    let mut buf = vec![0; expected.len()];

    let mut curr_len = 0;

    let mut reader = MultiReader::new(test_data);

    for read in test_reads {
        let read_into_slice = &mut buf[curr_len..(curr_len + read)];
        curr_len += read;
        reader.read(read_into_slice);
    }

    assert_eq!(expected.as_ref(), &buf);
}

#[test]
fn multi_reader_stops_at_the_end() {
    let data: &[&[u8]] = &[&[1, 2], &[3]];
    let mut reader = MultiReader::new(data);
    let mut buf = [0u8; 8];
    assert_eq!(reader.read(&mut buf), 3);
    assert_eq!(&buf[..3], &[1, 2, 3]);
    assert_eq!(reader.read(&mut buf), 0);
}

#[test]
fn pfac_common_test_ir_gen() {
    let patterns: [&[u8]; 4] = [&[45, 32, 23, 97], &[87, 34, 12], &[87, 45, 12], &[29, 45, 32, 23, 97]];

    let mut pb = PfacTableBuilder::new(true);

    for p in patterns {
        pb.add_pattern(p);
    }

    let expected_ir = [
        NodeIR {
            next_paths: vec![
                ConnectionIR { connecting_to_uuid: 2, value: 45 },
                ConnectionIR { connecting_to_uuid: 5, value: 87 },
                ConnectionIR { connecting_to_uuid: 7, value: 29 },
            ],
        },
        NodeIR { next_paths: vec![] },
        NodeIR { next_paths: vec![ConnectionIR { connecting_to_uuid: 3, value: 32 }] },
        NodeIR { next_paths: vec![ConnectionIR { connecting_to_uuid: 4, value: 23 }] },
        NodeIR { next_paths: vec![ConnectionIR { connecting_to_uuid: 1, value: 97 }] },
        NodeIR {
            next_paths: vec![
                ConnectionIR { connecting_to_uuid: 6, value: 34 },
                ConnectionIR { connecting_to_uuid: 6, value: 45 },
            ],
        },
        NodeIR { next_paths: vec![ConnectionIR { connecting_to_uuid: 1, value: 12 }] },
        NodeIR { next_paths: vec![ConnectionIR { connecting_to_uuid: 2, value: 45 }] },
    ];

    assert_eq!(pb.pat_ir(), &expected_ir)
}

#[test]
fn pfac_table_lookup_exact_bytes() {
    let table = PfacTableBuilder::new(true).with_pattern(&[7, 8]).build();
    assert_eq!(table.table.len(), 3);
    assert_eq!(table.lookup(0, 7).map(|e| e.next_state), Some(2));
    assert!(table.lookup(0, 8).is_none());
    assert_eq!(table.lookup(2, 8).map(|e| e.next_state), Some(1));
    assert!(table.lookup(5, 7).is_none());
}

#[test]
fn cluster_size_arg_as_option() {
    assert_eq!(ClusterSizeArg::Unknown.as_option(), None);
    assert_eq!(ClusterSizeArg::Unaligned.as_option(), Some(1));
    assert_eq!(ClusterSizeArg::Known(4096).as_option(), Some(4096));
}

#[test]
fn carve_log_collects_entries() {
    let mut log = CarveLog::new("image.raw");
    log.add_entry(FileTypeId::Png, "0-10.png".to_string(), FileValidationType::Correct, vec![0..10]);
    assert_eq!(log.image_path, "image.raw");
    assert_eq!(log.files.len(), 1);
    assert_eq!(log.files[0].filename, "0-10.png");
    assert_eq!(log.files[0].fragments, vec![0..10]);
}

#[test]
fn searchlight_processes_operations_in_order() {
    let mut sl = Searchlight::new()
        .with_operation(CarveOperationInfo::FromLog { path: "a.json".to_string() })
        .with_operation(CarveOperationInfo::Image {
            path: "b.raw".to_string(),
            config: SearchlightConfig::default(),
            cluster_size: None,
            skip_carving: true,
        });
    let (info, res) = sl.process_file("out", |_, _| Ok(()));
    assert_eq!(info.unwrap().path(), "a.json");
    assert_eq!(res, Ok(true));
    let (info, res) = sl.process_file("out", |_, _| Err(Error::ConfigValidationError));
    assert_eq!(info.unwrap().path(), "b.raw");
    assert_eq!(res, Err(Error::ConfigValidationError));
    let (info, res) = sl.process_file("out", |_, _| Ok(()));
    assert!(info.is_none());
    assert_eq!(res, Ok(false));
}
