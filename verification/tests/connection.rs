use resp_store::config::StorageConfig;
use resp_store::connection::{Connection, Step};
use resp_store::protocol::RespValue;
use resp_store::storage::Storage;

fn store(max_memory: usize, persistence_enabled: bool) -> Storage {
    Storage::new(StorageConfig { max_memory, persistence_enabled })
}

fn reply_text(step: Step) -> String {
    match step {
        Step::Reply(value) => value.to_string(),
        other => panic!("unexpected {:?}", other),
    }
}

#[test]
fn set_then_get_over_a_connection() {
    let mut db = store(1024, false);
    let mut connection = Connection::new();
    let step = connection.receive(b"*3\r\n$3\r\nSET\r\n$4\r\nkey1\r\n$6\r\nvalue1\r\n", &mut db);
    assert_eq!(reply_text(step), "+OK\r\n");
    let step = connection.receive(b"*2\r\n$3\r\nGET\r\n$4\r\nkey1\r\n", &mut db);
    assert_eq!(reply_text(step), "$6\r\nvalue1\r\n");
    let step = connection.receive(b"*2\r\n$3\r\nGET\r\n$11\r\nnonexistent\r\n", &mut db);
    assert_eq!(reply_text(step), "$-1\r\n");
    assert_eq!(connection.pending_len(), 0);
}

#[test]
fn info_over_a_connection_reports_the_byte_count() {
    let mut db = store(1024, false);
    let mut connection = Connection::new();
    connection.receive(b"*3\r\n$3\r\nSET\r\n$4\r\nkey1\r\n$6\r\nvalue1\r\n", &mut db);
    match connection.receive(b"*1\r\n$4\r\nINFO\r\n", &mut db) {
        Step::Reply(RespValue::BulkString(Some(text))) => {
            assert!(text.contains("used_memory:10\r\n"));
        }
        other => panic!("unexpected {:?}", other),
    }
}

#[test]
fn over_the_ceiling_is_an_error_and_nothing_is_stored() {
    let mut db = store(10, false);
    let mut connection = Connection::new();
    let step = connection.receive(b"*3\r\n$3\r\nSET\r\n$1\r\nk\r\n$11\r\n12345678901\r\n", &mut db);
    assert_eq!(reply_text(step), "-ERR max memory limit exceeded\r\n");
    assert_eq!(db.memory_usage(), 0);
}

#[test]
fn a_read_of_nothing_closes() {
    let mut db = store(10, false);
    let mut connection = Connection::new();
    assert_eq!(connection.receive(b"", &mut db), Step::Close);
    assert_eq!(connection.receive(b"*1\r\n", &mut db), Step::Continue);
    assert_eq!(connection.receive(b"", &mut db), Step::Close);
    assert_eq!(connection.pending_len(), 4);
}

#[test]
fn a_frame_in_pieces_is_answered_once_it_is_whole() {
    let request: &[u8] = b"*3\r\n$3\r\nSET\r\n$4\r\nkey1\r\n$6\r\nvalue1\r\n";
    for cut in 1..request.len() {
        let mut db = store(1024, false);
        let mut connection = Connection::new();
        assert_eq!(connection.receive(&request[..cut], &mut db), Step::Continue);
        assert_eq!(connection.pending_len(), cut);
        assert_eq!(db.memory_usage(), 0);
        let step = connection.receive(&request[cut..], &mut db);
        assert_eq!(reply_text(step), "+OK\r\n");
        assert_eq!(connection.pending_len(), 0);
        assert_eq!(db.get("key1"), Some(&"value1".to_string()));
    }
}

#[test]
fn bytes_that_start_no_frame_are_answered_and_dropped() {
    let mut db = store(1024, false);
    let mut connection = Connection::new();
    let step = connection.receive(b"hello\r\n", &mut db);
    assert_eq!(reply_text(step), "-invalid RESP format\r\n");
    assert_eq!(connection.pending_len(), 0);
    let step = connection.receive(b"*-3\r\n", &mut db);
    assert_eq!(reply_text(step), "-invalid RESP format\r\n");
    assert_eq!(connection.pending_len(), 0);
    let step = connection.receive(b"*1\r\n$4\r\nINFO\r\n", &mut db);
    assert!(matches!(step, Step::Reply(RespValue::BulkString(Some(_)))));
}

#[test]
fn a_frame_that_is_no_request_is_answered_with_an_error() {
    let mut db = store(1024, false);
    let mut connection = Connection::new();
    let step = connection.receive(b"+OK\r\n", &mut db);
    assert_eq!(reply_text(step), "-invalid command format\r\n");
    let step = connection.receive(b"*1\r\n$4\r\nPING\r\n", &mut db);
    assert_eq!(reply_text(step), "-unknown command: PING\r\n");
}

#[test]
fn save_over_a_connection() {
    let mut db = store(1024, true);
    let mut connection = Connection::new();
    connection.receive(b"*3\r\n$3\r\nSET\r\n$1\r\nk\r\n$1\r\nv\r\n", &mut db);
    assert_eq!(
        connection.receive(b"*1\r\n$4\r\nSAVE\r\n", &mut db),
        Step::WriteSnapshot("{\"k\":\"v\"}".to_string())
    );
}
