use pathsweep::memory_profiler::{AllocationData, ProfileLog};

#[test]
fn three_samples_dump_four_lines() {
    let mut log = ProfileLog::new();
    for _ in 0..3 {
        AllocationData::collect_data(&mut log).unwrap();
    }
    let text = AllocationData::dump_data(&log);
    let lines: Vec<&str> = text.lines().collect();
    assert_eq!(lines.len(), 4);
    assert_eq!(lines[0], "id\tallocated\tresident\tcorrection");
    for (k, line) in lines[1..].iter().enumerate() {
        let fields: Vec<&str> = line.split('\t').collect();
        assert_eq!(fields.len(), 4);
        assert_eq!(fields[0], k.to_string());
        for f in fields {
            f.parse::<usize>().unwrap();
        }
    }
    assert!(text.ends_with('\n'));
}

#[test]
fn dump_of_recorded_samples() {
    let mut log = ProfileLog::new();
    log.record(1024, 4096, 0);
    log.record(20, 7, 96);
    let text = AllocationData::dump_data(&log);
    assert_eq!(text, "id\tallocated\tresident\tcorrection\n0\t1024\t4096\t0\n1\t20\t7\t96\n");
    assert_eq!(log.get(1).unwrap().id, 1);
    assert!(log.get(2).is_none());
}

#[test]
fn empty_log_dumps_header_only() {
    let log = ProfileLog::new();
    assert_eq!(AllocationData::dump_data(&log), "id\tallocated\tresident\tcorrection\n");
}

#[test]
fn dump_can_be_repeated() {
    let mut log = ProfileLog::new();
    AllocationData::collect_data(&mut log).unwrap();
    let first = AllocationData::dump_data(&log);
    assert_eq!(first, AllocationData::dump_data(&log));
    AllocationData::collect_data(&mut log).unwrap();
    let second = AllocationData::dump_data(&log);
    assert!(second.starts_with(&first));
    assert_eq!(second.lines().count(), 3);
}

#[test]
fn correction_counts_log_storage() {
    let size = std::mem::size_of::<AllocationData>();
    assert_eq!(AllocationData::correction_for(0), 0);
    assert_eq!(AllocationData::correction_for(3), 3 * size);
    assert_eq!(AllocationData::correction_for(usize::MAX), usize::MAX);
    let mut log = ProfileLog::new();
    AllocationData::collect_data(&mut log).unwrap();
    AllocationData::collect_data(&mut log).unwrap();
    let second = log.get(1).unwrap();
    assert!(second.correction >= size);
    assert_eq!(log.len(), 2);
}
