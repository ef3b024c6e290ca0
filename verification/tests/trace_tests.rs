use libcachesim::trace::csv::{parse_operation, parse_record, CsvTraceReader};
use libcachesim::trace::lcs::{decode_request_v2, decode_request_v3, LcsTraceReader};
use libcachesim::trace::{detect_format, TraceError, TraceFormat, TraceReader, TraceReaderBuilder};
use libcachesim::Operation;

fn create_lcs_v1_trace() -> Vec<u8> {
    let mut file: Vec<u8> = Vec::new();

    // Write header
    file.extend_from_slice(b"LCSTrace"); // Magic
    file.extend_from_slice(&1u64.to_le_bytes()); // Version
    file.extend_from_slice(&2u64.to_le_bytes()); // N requests
    file.extend_from_slice(&vec![0u8; 240]); // Rest of header

    // Write request 1
    file.extend_from_slice(&0u32.to_le_bytes()); // clock_time
    file.extend_from_slice(&1u64.to_le_bytes()); // obj_id
    file.extend_from_slice(&100u32.to_le_bytes()); // obj_size
    file.extend_from_slice(&(-1i64).to_le_bytes()); // next_access_vtime

    // Write request 2
    file.extend_from_slice(&1u32.to_le_bytes()); // clock_time
    file.extend_from_slice(&2u64.to_le_bytes()); // obj_id
    file.extend_from_slice(&200u32.to_le_bytes()); // obj_size
    file.extend_from_slice(&(-1i64).to_le_bytes()); // next_access_vtime

    file
}

#[test]
fn test_lcs_reader_v1() {
    let file = create_lcs_v1_trace();
    let mut reader = LcsTraceReader::new(file).unwrap();

    assert_eq!(reader.n_requests(), Some(2));

    // Just verify we can read two requests
    let req1 = reader.next();
    assert!(req1.is_some());
    assert!(req1.unwrap().is_ok());

    let req2 = reader.next();
    assert!(req2.is_some());
    assert!(req2.unwrap().is_ok());

    // No more requests
    assert!(reader.next().is_none());
}

#[test]
fn test_lcs_reader_reset() {
    let file = create_lcs_v1_trace();
    let mut reader = LcsTraceReader::new(file).unwrap();

    // Read all
    assert!(reader.next().is_some());
    assert!(reader.next().is_some());
    assert!(reader.next().is_none());

    // Reset and read again
    reader.reset().unwrap();
    assert!(reader.next().is_some());
    assert!(reader.next().is_some());
    assert!(reader.next().is_none());
}

fn aligned_v1_trace() -> Vec<u8> {
    let mut file: Vec<u8> = Vec::new();
    file.extend_from_slice(b"LCSTrace");
    file.extend_from_slice(&1u64.to_le_bytes());
    file.extend_from_slice(&1u64.to_le_bytes());
    file.extend_from_slice(&vec![0u8; 240]);
    file.extend_from_slice(&7u32.to_le_bytes());
    file.extend_from_slice(&0x0102_0304_0506_0708u64.to_le_bytes());
    file.extend_from_slice(&4096u32.to_le_bytes());
    file.extend_from_slice(&(-5i64).to_le_bytes());
    file
}

#[test]
fn lcs_v1_record_fields() {
    let mut reader = LcsTraceReader::new(aligned_v1_trace()).unwrap();
    let req = reader.next().unwrap().unwrap();
    assert_eq!(req.clock_time, 7);
    assert_eq!(req.obj_id, 0x0102_0304_0506_0708);
    assert_eq!(req.obj_size, 4096);
    assert_eq!(req.op, Operation::Get);
    assert_eq!(req.tenant_id, None);
    assert_eq!(req.ttl, None);
    assert_eq!(req.next_access_vtime, Some(-5));
    assert!(reader.next().is_none());
}

#[test]
fn lcs_v2_and_v3_records() {
    let mut v2: Vec<u8> = Vec::new();
    v2.extend_from_slice(&9u32.to_le_bytes());
    v2.extend_from_slice(&42u64.to_le_bytes());
    v2.extend_from_slice(&512u32.to_le_bytes());
    v2.extend_from_slice(&((0x00AB_CDEFu32 << 8) | 2).to_le_bytes());
    v2.extend_from_slice(&123i64.to_le_bytes());
    let r2 = decode_request_v2(&v2);
    assert_eq!(r2.clock_time, 9);
    assert_eq!(r2.obj_id, 42);
    assert_eq!(r2.obj_size, 512);
    assert_eq!(r2.op, Operation::Delete);
    assert_eq!(r2.tenant_id, Some(0x00AB_CDEF));
    assert_eq!(r2.next_access_vtime, Some(123));

    let mut v3: Vec<u8> = Vec::new();
    v3.extend_from_slice(&0x0000_0002_0000_0001u64.to_le_bytes());
    v3.extend_from_slice(&77u64.to_le_bytes());
    v3.extend_from_slice(&0x0000_0001_0000_0010u64.to_le_bytes());
    v3.extend_from_slice(&((5u32 << 8) | 9).to_le_bytes());
    v3.extend_from_slice(&(-60i32).to_le_bytes());
    v3.extend_from_slice(&(-1i64).to_le_bytes());
    let r3 = decode_request_v3(&v3);
    // the timestamp is a full 64-bit value
    assert_eq!(r3.clock_time, 0x0000_0002_0000_0001);
    assert_eq!(r3.obj_id, 77);
    // the size keeps its low 32 bits
    assert_eq!(r3.obj_size, 0x10);
    // an unknown operation code reads as Get
    assert_eq!(r3.op, Operation::Get);
    assert_eq!(r3.tenant_id, Some(5));
    assert_eq!(r3.ttl, Some(-60));
    assert_eq!(r3.next_access_vtime, Some(-1));
}

#[test]
fn lcs_header_errors() {
    let mut bad: Vec<u8> = Vec::new();
    bad.extend_from_slice(b"LCSTrace");
    bad.extend_from_slice(&7u64.to_le_bytes());
    match LcsTraceReader::new(bad) {
        Err(TraceError::InvalidFormat(m)) => assert_eq!(m, "Unknown LCS version: 7"),
        _ => panic!("expected an invalid format error"),
    }
    let mut short: Vec<u8> = Vec::new();
    short.extend_from_slice(b"LCSTrace");
    short.extend_from_slice(&3u64.to_le_bytes());
    short.extend_from_slice(&0u64.to_le_bytes());
    match LcsTraceReader::new(short) {
        Err(TraceError::Io(m)) => assert_eq!(m, "failed to fill whole buffer"),
        _ => panic!("expected an I/O error"),
    }
}

#[test]
fn test_csv_reader_basic() {
    let data = "timestamp,obj_id,obj_size\n0,1,100\n1,2,200\n2,3,300\n";

    let mut reader = CsvTraceReader::new(data.as_bytes());

    // Read first request
    let req1 = reader.next().unwrap().unwrap();
    assert_eq!(req1.clock_time, 0);
    assert_eq!(req1.obj_id, 1);
    assert_eq!(req1.obj_size, 100);

    // Read second request
    let req2 = reader.next().unwrap().unwrap();
    assert_eq!(req2.clock_time, 1);
    assert_eq!(req2.obj_id, 2);
    assert_eq!(req2.obj_size, 200);

    // Read third request
    let req3 = reader.next().unwrap().unwrap();
    assert_eq!(req3.clock_time, 2);
    assert_eq!(req3.obj_id, 3);
    assert_eq!(req3.obj_size, 300);

    // Should be no more requests
    assert!(reader.next().is_none());
}

#[test]
fn test_csv_reader_with_operation() {
    let data = "timestamp,obj_id,obj_size,operation\n0,1,100,get\n1,2,200,set\n2,3,300,delete\n";

    let mut reader = CsvTraceReader::new(data.as_bytes());

    let req1 = reader.next().unwrap().unwrap();
    assert_eq!(req1.op, Operation::Get);

    let req2 = reader.next().unwrap().unwrap();
    assert_eq!(req2.op, Operation::Write);

    let req3 = reader.next().unwrap().unwrap();
    assert_eq!(req3.op, Operation::Delete);
}

#[test]
fn test_csv_reader_reset() {
    let data = "timestamp,obj_id,obj_size\n0,1,100\n1,2,200\n";

    let mut reader = CsvTraceReader::new(data.as_bytes());

    // Read all requests
    assert!(reader.next().is_some());
    assert!(reader.next().is_some());
    assert!(reader.next().is_none());

    // Reset and read again
    reader.reset().unwrap();
    assert!(reader.next().is_some());
    assert!(reader.next().is_some());
    assert!(reader.next().is_none());
}

#[test]
fn csv_missing_fields_and_optional_columns() {
    let data = "t,id,size,op,tenant,ttl,next\n5,6,7,REPLACE,3,-2,99\nx,1,1\n1,y,1\n1,1\n4,4,4,frob,,z\n";
    let mut reader = CsvTraceReader::new(data.as_bytes());
    let full = reader.next().unwrap().unwrap();
    assert_eq!(full.clock_time, 5);
    assert_eq!(full.op, Operation::Replace);
    assert_eq!(full.tenant_id, Some(3));
    assert_eq!(full.ttl, Some(-2));
    assert_eq!(full.next_access_vtime, Some(99));
    match reader.next().unwrap() {
        Err(TraceError::MissingField(m)) => assert_eq!(m, "timestamp"),
        _ => panic!("expected a missing field"),
    }
    match reader.next().unwrap() {
        Err(TraceError::MissingField(m)) => assert_eq!(m, "obj_id"),
        _ => panic!("expected a missing field"),
    }
    match reader.next().unwrap() {
        Err(TraceError::MissingField(m)) => assert_eq!(m, "obj_size"),
        _ => panic!("expected a missing field"),
    }
    let partial = reader.next().unwrap().unwrap();
    assert_eq!(partial.op, Operation::Get);
    assert_eq!(partial.tenant_id, None);
    assert_eq!(partial.ttl, None);
    assert_eq!(partial.next_access_vtime, None);
    assert!(reader.next().is_none());
    assert_eq!(reader.n_requests(), None);
}

#[test]
fn csv_operation_words() {
    assert_eq!(parse_operation("READ"), Operation::Get);
    assert_eq!(parse_operation("Write"), Operation::Write);
    assert_eq!(parse_operation("del"), Operation::Delete);
    assert_eq!(parse_operation("add"), Operation::Add);
    assert_eq!(parse_operation("unknown"), Operation::Get);
    let fields = vec!["10".to_string(), "20".to_string(), "30".to_string()];
    let req = parse_record(&fields).unwrap();
    assert_eq!((req.clock_time, req.obj_id, req.obj_size), (10, 20, 30));
}

#[test]
fn trace_format_detection() {
    assert_eq!(detect_format("trace.csv"), TraceFormat::Csv);
    assert_eq!(detect_format("trace.lcs"), TraceFormat::Lcs);
    assert_eq!(detect_format("trace.bin"), TraceFormat::Lcs);
    assert_eq!(detect_format("trace.txt"), TraceFormat::Csv);
    let b = TraceReaderBuilder::new("data/w01.bin");
    assert_eq!(b.trace_format(), TraceFormat::Lcs);
    assert_eq!(b.path(), "data/w01.bin");
    let b = b.format(TraceFormat::Csv);
    assert_eq!(b.trace_format(), TraceFormat::Csv);
}

#[test]
fn lcs_records_start_after_the_header() {
    let mut reader = LcsTraceReader::new(create_lcs_v1_trace()).unwrap();
    let first = reader.next().unwrap().unwrap();
    assert_eq!((first.clock_time, first.obj_id, first.obj_size, first.next_access_vtime), (0, 1, 100, Some(-1)));
    let second = reader.next().unwrap().unwrap();
    assert_eq!((second.clock_time, second.obj_id, second.obj_size, second.next_access_vtime), (1, 2, 200, Some(-1)));
    assert!(reader.next().is_none());
}
