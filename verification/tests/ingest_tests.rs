use zen_engine::ingest::{serialize_rows, IngestCmd, IngestState, INGEST_FLUSH_ROWS};

#[test]
fn rows_become_lines() {
    let rows = vec!["a,b".to_string(), "".to_string(), "é".to_string()];
    assert_eq!(serialize_rows(&rows), b"a,b\n\n\xc3\xa9\n".to_vec());
    assert!(serialize_rows(&[]).is_empty());
}

#[test]
fn small_batches_wait_until_commit() {
    let mut st = IngestState::new();
    let a = st.step(IngestCmd::AppendBatch(vec!["1".to_string(), "2".to_string()]));
    assert!(a.flush.is_none());
    assert!(!a.stop);
    let a = st.step(IngestCmd::AppendBatch(vec!["3".to_string()]));
    assert!(a.flush.is_none());
    assert_eq!(st.pending_rows(), 3);
    let a = st.step(IngestCmd::Commit);
    assert_eq!(a.flush, Some(b"1\n2\n3\n".to_vec()));
    assert!(!a.stop);
    assert_eq!(st.pending_rows(), 0);
    assert_eq!(st.rows_ingested(), 3);
    assert_eq!(st.bytes_written(), 6);
    assert_eq!(st.batches_processed(), 1);
}

#[test]
fn commit_with_nothing_waiting_writes_nothing() {
    let mut st = IngestState::new();
    let a = st.step(IngestCmd::Commit);
    assert!(a.flush.is_none());
    assert_eq!(st.batches_processed(), 0);
}

#[test]
fn full_buffer_flushes_on_append() {
    let mut st = IngestState::new();
    let rows: Vec<String> = (0..INGEST_FLUSH_ROWS - 1).map(|_| "x".to_string()).collect();
    assert!(st.step(IngestCmd::AppendBatch(rows)).flush.is_none());
    let a = st.step(IngestCmd::AppendBatch(vec!["y".to_string()]));
    let bytes = a.flush.expect("flush at the threshold");
    assert_eq!(bytes.len(), 2 * INGEST_FLUSH_ROWS);
    assert!(bytes.ends_with(b"x\ny\n"));
    assert_eq!(st.rows_ingested(), INGEST_FLUSH_ROWS as u64);
    assert_eq!(st.pending_rows(), 0);
}

#[test]
fn shutdown_flushes_and_stops() {
    let mut st = IngestState::new();
    st.step(IngestCmd::AppendBatch(vec!["last".to_string()]));
    let a = st.step(IngestCmd::Shutdown);
    assert_eq!(a.flush, Some(b"last\n".to_vec()));
    assert!(a.stop);
    assert_eq!(st.pending_rows(), 0);
}
