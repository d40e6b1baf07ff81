use mrc_sim::trace::{is_header_line, is_synthetic_header, load_trace, trace_from_records, TraceBuilder, TraceError};

fn row(fields: &[&str]) -> Vec<String> {
    fields.iter().map(|s| s.to_string()).collect()
}

#[test]
fn header_lines_are_recognised() {
    assert!(is_header_line("t,op,key,key_size,value_size,workload"));
    assert!(is_header_line("ts_us,seq,db_id,cmd,key"));
    assert!(is_header_line("workload,key"));
    assert!(is_header_line("  t,op,key\n"));
    assert!(is_header_line("key"));
    assert!(is_header_line(""));
    assert!(!is_header_line("1,100"));
    assert!(!is_header_line("tx,1"));
    assert!(is_header_line("key,op,value_size,workload_label"));
    // Only the synthetic header among lines that start with `key,`.
    assert!(!is_header_line("key,a,b,c,d,e,f,g,h,i"));
    assert!(!is_synthetic_header("key,op,value_size,workload_label,extra"));
}

#[test]
fn readme_synthetic_layout_is_detected_by_its_header() {
    let header = "key,op,value_size,workload_label\n";
    assert!(is_header_line(header));
    assert!(is_synthetic_header(header));
    assert!(!is_synthetic_header("t,op,key,key_size,value_size,workload"));
    let mut b = TraceBuilder::new(is_header_line(header), is_synthetic_header(header));
    assert_eq!(b.push_record(&row(&["key", "op", "value_size", "workload_label"])), Ok(()));
    assert_eq!(b.push_record(&row(&["7", "get", "100", "zipf"])), Ok(()));
    assert_eq!(b.push_record(&row(&["7", "get", "100", "zipf"])), Ok(()));
    assert_eq!(b.push_record(&row(&["user:9", "set", "30", "zipf"])), Ok(()));
    assert_eq!(b.push_record(&row(&["8", "get", "big", "zipf"])), Err(TraceError::BadValueSize));
    let t = b.finish("syn".to_string(), 0).unwrap();
    assert_eq!(t.keys, vec![7, 7, 0]);
    assert_eq!(t.key_sizes, vec![0, 0, 0]);
    assert_eq!(t.value_sizes, vec![100, 100, 30]);
    assert_eq!(t.total_value_bytes, 130);
    assert_eq!(t.n_unique, 2);
}

#[test]
fn synthetic_rows_with_a_skipped_header() {
    let mut b = TraceBuilder::new(true, false);
    assert_eq!(b.push_record(&row(&["t", "op", "key", "key_size", "value_size", "workload"])), Ok(()));
    assert_eq!(b.push_record(&row(&["1", "get", "5", "2", "10", "w"])), Ok(()));
    assert_eq!(b.push_record(&row(&["2", "get", "6", "3", "20", "w"])), Ok(()));
    assert_eq!(b.push_record(&row(&["3", "set", "5", "4", "30", "w"])), Ok(()));
    assert_eq!(b.records_read(), 4);
    let t = b.finish("wl".to_string(), 40).unwrap();
    assert_eq!(t.workload, "wl");
    assert_eq!(t.keys, vec![5, 6, 5]);
    assert_eq!(t.key_sizes, vec![42, 43, 44]);
    assert_eq!(t.value_sizes, vec![10, 20, 30]);
    assert_eq!(t.total_key_bytes, 85);
    assert_eq!(t.total_value_bytes, 30);
    assert_eq!(t.total_bytes, 115);
    assert_eq!(t.n_unique, 2);
}

#[test]
fn named_keys_are_interned_in_order_of_appearance() {
    let mut b = TraceBuilder::new(false, false);
    assert_eq!(b.push_record(&row(&["a", "5"])), Ok(()));
    assert_eq!(b.push_record(&row(&["b", "6"])), Ok(()));
    assert_eq!(b.push_record(&row(&["a", "7"])), Ok(()));
    assert_eq!(b.push_record(&row(&["9", "8"])), Ok(()));
    assert_eq!(b.push_record(&row(&["100", "get", "b", "11"])), Ok(()));
    assert_eq!(
        b.push_record(&row(&["1", "2", "0", "GET", "a", "r", "1", "string", "xx", "34"])),
        Ok(())
    );
    assert_eq!(
        b.push_record(&row(&["1", "2", "0", "GET", "c", "r", "1", "string", "12", "40"])),
        Ok(())
    );
    let t = b.finish("n".to_string(), 0).unwrap();
    assert_eq!(t.keys, vec![0, 1, 0, 9, 1, 0, 2]);
    assert_eq!(t.key_sizes, vec![0, 0, 0, 0, 0, 0, 12]);
    assert_eq!(t.value_sizes, vec![5, 6, 7, 8, 11, 34, 40]);
    assert_eq!(t.total_key_bytes, 12);
    assert_eq!(t.total_value_bytes, 5 + 6 + 8 + 40);
    assert_eq!(t.total_bytes, 12 + 59);
    assert_eq!(t.n_unique, 4);
}

#[test]
fn twitter_rows_with_unreadable_sizes_count_zero() {
    let mut b = TraceBuilder::new(false, false);
    assert_eq!(b.push_record(&row(&["100", "get", "k", "big"])), Ok(()));
    let t = b.finish("tw".to_string(), 0).unwrap();
    assert_eq!(t.value_sizes, vec![0]);
    assert_eq!(t.key_sizes, vec![0]);
}

#[test]
fn bad_rows_are_reported_and_skipped() {
    let mut b = TraceBuilder::new(false, false);
    assert_eq!(b.push_record(&row(&["1", "get", "x", "2", "10", "w"])), Err(TraceError::BadKey));
    assert_eq!(b.push_record(&row(&["1", "get", "3", "y", "10", "w"])), Err(TraceError::BadKeySize));
    assert_eq!(b.push_record(&row(&["1", "get", "3", "2", "-1", "w"])), Err(TraceError::BadValueSize));
    assert_eq!(b.push_record(&row(&["5", "x"])), Err(TraceError::BadSize));
    assert_eq!(b.push_record(&row(&["5"])), Err(TraceError::MissingField));
    assert_eq!(b.push_record(&row(&[])), Err(TraceError::MissingField));
    assert_eq!(b.push_record(&row(&["5", "+10"])), Ok(()));
    assert_eq!(b.records_read(), 7);
    let t = b.finish("e".to_string(), 0).unwrap();
    assert_eq!(t.keys, vec![5]);
    assert_eq!(t.value_sizes, vec![10]);
}

#[test]
fn overflowing_sizes_are_refused() {
    let mut b = TraceBuilder::new(false, false);
    b.push_record(&row(&["1", "get", "3", "18446744073709551615", "1", "w"])).unwrap();
    assert_eq!(b.finish("o".to_string(), 1).err(), Some(TraceError::KeySizeOverflow));

    let mut b = TraceBuilder::new(false, false);
    b.push_record(&row(&["1", "18446744073709551615"])).unwrap();
    b.push_record(&row(&["2", "1"])).unwrap();
    assert_eq!(b.finish("o".to_string(), 0).err(), Some(TraceError::TotalOverflow));

    let mut b = TraceBuilder::new(false, false);
    b.push_record(&row(&["1", "18446744073709551615"])).unwrap();
    b.push_record(&row(&["1", "1"])).unwrap();
    let t = b.finish("o".to_string(), 0).unwrap();
    assert_eq!(t.total_bytes, 18446744073709551615);
}

#[test]
fn a_file_with_a_synthetic_header() {
    let bytes = b"t,op,key,key_size,value_size,workload\n1,get,5,2,10,w\n2,get,6,3,20,w\n3,set,5,4,30,w\n";
    let t = load_trace("wl".to_string(), bytes, 40).unwrap();
    assert_eq!(t.workload, "wl");
    assert_eq!(t.keys, vec![5, 6, 5]);
    assert_eq!(t.key_sizes, vec![42, 43, 44]);
    assert_eq!(t.value_sizes, vec![10, 20, 30]);
    assert_eq!((t.total_key_bytes, t.total_value_bytes, t.total_bytes, t.n_unique), (85, 30, 115, 2));
}

#[test]
fn a_file_in_the_readme_layout() {
    let bytes = b"key,op,value_size,workload_label\n7,get,100,zipf\n7,get,100,zipf\nuser:9,set,30,zipf\n";
    let t = load_trace("syn".to_string(), bytes, 0).unwrap();
    assert_eq!(t.keys, vec![7, 7, 0]);
    assert_eq!(t.value_sizes, vec![100, 100, 30]);
    assert_eq!((t.total_value_bytes, t.n_unique), (130, 2));
}

#[test]
fn quoted_fields_and_no_header() {
    let bytes = b"\"a,b\",7\nc,3\n\"a,b\",2\n";
    let t = load_trace("q".to_string(), bytes, 0).unwrap();
    assert_eq!(t.keys, vec![0, 1, 0]);
    assert_eq!(t.key_sizes, vec![0, 0, 0]);
    assert_eq!(t.value_sizes, vec![7, 3, 2]);
    assert_eq!((t.total_value_bytes, t.n_unique), (10, 2));
}

#[test]
fn a_key_prefixed_first_line_is_a_record() {
    let bytes = b"key,a,b,c,d,e,f,g,h,i\n1,2,3,4,k,6,7,8,9,10\n";
    let t = load_trace("v".to_string(), bytes, 0).unwrap();
    assert_eq!(t.keys, vec![0, 1]);
    assert_eq!(t.key_sizes, vec![0, 9]);
    assert_eq!(t.value_sizes, vec![0, 10]);
}

#[test]
fn file_errors() {
    assert_eq!(load_trace("x".to_string(), b"\xff,1\n1,2\n", 0).err(), Some(TraceError::NotText));
    assert_eq!(load_trace("x".to_string(), b"1,2\n\xff,3\n", 0).err(), Some(TraceError::BadCsv));
    assert_eq!(load_trace("x".to_string(), b"1,2\n3,x\n", 0).err(), Some(TraceError::BadSize));
    assert_eq!(load_trace("x".to_string(), b"1,2\n3\n", 0).err(), Some(TraceError::MissingField));
    let empty = load_trace("e".to_string(), b"", 0).unwrap();
    assert_eq!((empty.keys.len(), empty.total_bytes, empty.n_unique), (0, 0, 0));
}

#[test]
fn records_given_the_first_line() {
    let rows = vec![row(&["ts_us", "seq"]), row(&["9", "1"]), row(&["q", "4"]), row(&["9", "5"])];
    let t = trace_from_records("r".to_string(), "ts_us,seq", &rows, 1).unwrap();
    assert_eq!(t.keys, vec![9, 0, 9]);
    assert_eq!(t.key_sizes, vec![1, 1, 1]);
    assert_eq!(t.value_sizes, vec![1, 4, 5]);
    assert_eq!((t.total_key_bytes, t.total_value_bytes, t.n_unique), (2, 5, 2));
    assert_eq!(
        trace_from_records("r".to_string(), "1,2", &vec![row(&["1", "x"])], 0).err(),
        Some(TraceError::BadSize)
    );
}
