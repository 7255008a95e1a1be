use solhat::processing::{partition_chunks, select_frame_records, FrameRecord, ProcessError, ProcessReport};

fn record(file: &str, id: usize, q: u32) -> FrameRecord {
    FrameRecord { source_file: file.to_string(), frame_id: id, quality_value: q }
}

fn keys(records: &[FrameRecord]) -> Vec<u32> {
    records.iter().map(|r| r.quality_value).collect()
}

#[test]
fn top_quarter_of_distinct_scores() {
    let forward: Vec<FrameRecord> = (0..100).map(|i| record("a.ser", i, 1 + ((i as u32 * 37) % 100))).collect();
    let backward: Vec<FrameRecord> = (0..100).rev().map(|i| record("a.ser", i, 1 + ((i as u32 * 37) % 100))).collect();
    let (kept_f, report_f) = select_frame_records(&forward, 100, 0, u32::MAX, 25).unwrap();
    let (kept_b, _) = select_frame_records(&backward, 100, 0, u32::MAX, 25).unwrap();
    let expected: Vec<u32> = (76..=100).rev().collect();
    assert_eq!(keys(&kept_f), expected);
    assert_eq!(keys(&kept_b), expected);
    let ids_f: Vec<usize> = kept_f.iter().map(|r| r.frame_id).collect();
    let ids_b: Vec<usize> = kept_b.iter().map(|r| r.frame_id).collect();
    assert_eq!(ids_f, ids_b);
    assert_eq!(report_f.num_frames_used, 25);
    assert_eq!(report_f.num_frames_discarded_top_percentage, 75);
    assert_eq!(report_f.num_frames_discarded, 75);
}

#[test]
fn two_containers_with_outliers() {
    let mut records = Vec::new();
    for (f, file) in ["first.ser", "second.ser"].iter().enumerate() {
        for i in 0..50 {
            let q = if f == 0 && i % 5 == 0 { 100 } else { 1000 };
            records.push(record(file, i, q));
        }
    }
    let (kept, report) = select_frame_records(&records, 100, 500, 5000, 50).unwrap();
    assert_eq!(report.total_frames, 100);
    assert_eq!(report.num_frames_discarded_min_sigma, 10);
    assert_eq!(report.num_frames_discarded_max_sigma, 0);
    assert_eq!(report.num_frames_used, 45);
    assert_eq!(report.num_frames_discarded_top_percentage, 45);
    assert_eq!(report.num_frames_discarded, 55);
    assert_eq!(kept.len(), 45);
    assert!(kept.iter().all(|r| r.quality_value == 1000));
    assert_eq!(report.min_sigma, 100);
    assert_eq!(report.max_sigma, 1000);
    assert_eq!(report.quality_values.len(), 100);
}

#[test]
fn equal_scores_keep_input_order() {
    let records = vec![record("a", 0, 5), record("a", 1, 9), record("a", 2, 5), record("a", 3, 9)];
    let (kept, _) = select_frame_records(&records, 4, 0, 100, 100).unwrap();
    let ids: Vec<usize> = kept.iter().map(|r| r.frame_id).collect();
    assert_eq!(ids, vec![1, 3, 0, 2]);
}

#[test]
fn high_sigma_frames_are_discarded() {
    let records = vec![record("a", 0, 5), record("a", 1, 90), record("a", 2, 50), record("a", 3, 1)];
    let (kept, report) = select_frame_records(&records, 4, 2, 60, 100).unwrap();
    assert_eq!(keys(&kept), vec![50, 5]);
    assert_eq!(report.num_frames_discarded_min_sigma, 1);
    assert_eq!(report.num_frames_discarded_max_sigma, 1);
    assert_eq!(report.min_sigma, 1);
    assert_eq!(report.max_sigma, 90);
}

#[test]
fn rounding_of_the_top_count() {
    let records: Vec<FrameRecord> = (0..50).map(|i| record("a", i, i as u32)).collect();
    let (kept, _) = select_frame_records(&records, 50, 0, 100, 29).unwrap();
    assert_eq!(kept.len(), 15);
    let (kept, _) = select_frame_records(&records[..3].to_vec(), 3, 0, 100, 50).unwrap();
    assert_eq!(kept.len(), 2);
}

#[test]
fn invalid_percentages() {
    let records = vec![record("a", 0, 5)];
    assert!(matches!(select_frame_records(&records, 1, 0, 9, 0), Err(ProcessError::InvalidPercentage)));
    assert!(matches!(select_frame_records(&records, 1, 0, 9, 101), Err(ProcessError::InvalidPercentage)));
    assert!(select_frame_records(&records, 1, 0, 9, 100).is_ok());
}

#[test]
fn chunks_for_workers() {
    assert_eq!(partition_chunks(10, 4), vec![(0, 3), (3, 6), (6, 9), (9, 10)]);
    assert_eq!(partition_chunks(3, 8), vec![(0, 1), (1, 2), (2, 3)]);
    assert_eq!(partition_chunks(8, 2), vec![(0, 4), (4, 8)]);
    assert_eq!(partition_chunks(0, 3), vec![]);
    assert_eq!(partition_chunks(5, 1), vec![(0, 5)]);
}

#[test]
fn report_bookkeeping() {
    let mut report = ProcessReport::new();
    report.push_sigma(7);
    report.push_sigma(3);
    report.push_sigma(9);
    assert_eq!(report.min_sigma, 3);
    assert_eq!(report.max_sigma, 9);
    assert_eq!(report.quality_values, vec![7, 3, 9]);
    report.num_frames_discarded_min_sigma = 2;
    report.num_frames_discarded_max_sigma = 3;
    report.num_frames_discarded_top_percentage = 4;
    report.check_total_discarded();
    assert_eq!(report.num_frames_discarded, 9);
}

#[test]
fn duplicate_keeps_fields() {
    let r = record("x.ser", 4, 77);
    let d = r.duplicate();
    assert_eq!(d.source_file, "x.ser");
    assert_eq!(d.frame_id, 4);
    assert_eq!(d.quality_value, 77);
}
