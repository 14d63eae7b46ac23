use tiny_redis::command::{ArgumentError, Command, Error};
use tiny_redis::store::Store;
use tiny_redis::worker::{Reply, Request, Worker};

fn exchange(worker: &mut Worker, store: &mut Store, bytes: &[u8], now: u64) -> Reply {
    worker.receive(bytes);
    worker.process_message(store, now)
}

#[test]
fn ping_gets_pong() {
    let mut store = Store::new();
    let mut worker = Worker::new();
    let reply = exchange(&mut worker, &mut store, b"*1\r\n$4\r\nPING\r\n", 0);
    assert_eq!(reply, Reply::Send(14, b"$4\r\nPONG\r\n".to_vec()));
}

#[test]
fn set_then_get() {
    let mut store = Store::new();
    let mut worker = Worker::new();
    let first = exchange(&mut worker, &mut store, b"*3\r\n$3\r\nSET\r\n$3\r\nfoo\r\n$3\r\nbar\r\n", 0);
    assert_eq!(first, Reply::Send(31, b"$2\r\nOK\r\n".to_vec()));
    let second = exchange(&mut worker, &mut store, b"*2\r\n$3\r\nGET\r\n$3\r\nfoo\r\n", 0);
    assert_eq!(second, Reply::Send(22, b"$3\r\nbar\r\n".to_vec()));
}

#[test]
fn get_missing_is_nil() {
    let mut store = Store::new();
    let mut worker = Worker::new();
    let reply = exchange(&mut worker, &mut store, b"*2\r\n$3\r\nGET\r\n$7\r\nmissing\r\n", 0);
    assert_eq!(reply, Reply::Send(26, b"$-1\r\n".to_vec()));
}

#[test]
fn echo_replies_with_its_argument() {
    let mut store = Store::new();
    let mut worker = Worker::new();
    let reply = exchange(&mut worker, &mut store, b"*2\r\n$4\r\nECHO\r\n$2\r\nhi\r\n", 0);
    assert_eq!(reply, Reply::Send(22, b"$2\r\nhi\r\n".to_vec()));
}

#[test]
fn set_px_expires_on_read() {
    let mut store = Store::new();
    let mut worker = Worker::new();
    let set = b"*5\r\n$3\r\nSET\r\n$1\r\nk\r\n$1\r\nv\r\n$2\r\nPX\r\n$1\r\n1\r\n";
    assert_eq!(exchange(&mut worker, &mut store, set, 100), Reply::Send(set.len(), b"$2\r\nOK\r\n".to_vec()));
    let get = b"*2\r\n$3\r\nGET\r\n$1\r\nk\r\n";
    assert_eq!(exchange(&mut worker, &mut store, get, 100), Reply::Send(get.len(), b"$1\r\nv\r\n".to_vec()));
    assert_eq!(exchange(&mut worker, &mut store, get, 102), Reply::Send(get.len(), b"$-1\r\n".to_vec()));
    store.sweep(102);
    assert!(!store.contains_key(&b"k".to_vec()));
}

#[test]
fn partial_request_waits_for_more_bytes() {
    let mut store = Store::new();
    let mut worker = Worker::new();
    assert_eq!(exchange(&mut worker, &mut store, b"*1\r\n$4\r\nPI", 0), Reply::NeedMore);
    assert_eq!(exchange(&mut worker, &mut store, b"NG\r\n", 0), Reply::Send(14, b"$4\r\nPONG\r\n".to_vec()));
}

#[test]
fn two_requests_in_one_read() {
    let mut store = Store::new();
    let mut worker = Worker::new();
    worker.receive(b"*1\r\n$4\r\nPING\r\n*2\r\n$4\r\nECHO\r\n$1\r\nx\r\n");
    assert_eq!(worker.process_message(&mut store, 0), Reply::Send(14, b"$4\r\nPONG\r\n".to_vec()));
    assert_eq!(worker.process_message(&mut store, 0), Reply::Send(21, b"$1\r\nx\r\n".to_vec()));
    assert_eq!(worker.process_message(&mut store, 0), Reply::NeedMore);
}

#[test]
fn bad_request_is_dropped_without_reply() {
    let mut store = Store::new();
    let mut worker = Worker::new();
    let reply = exchange(&mut worker, &mut store, b"*1\r\n$3\r\nDEL\r\n", 0);
    assert_eq!(reply, Reply::Drop(13, Error::Argument(ArgumentError::NotImplemented(b"DEL".to_vec()))));
    let next = exchange(&mut worker, &mut store, b"*1\r\n$4\r\nPING\r\n", 0);
    assert_eq!(next, Reply::Send(14, b"$4\r\nPONG\r\n".to_vec()));
}

#[test]
fn malformed_frame_is_dropped() {
    let mut store = Store::new();
    let mut worker = Worker::new();
    let reply = exchange(&mut worker, &mut store, b"*z\r\n", 0);
    assert_eq!(reply, Reply::Drop(4, Error::Protocol));
}

#[test]
fn take_request_interprets_without_the_store() {
    let mut worker = Worker::new();
    worker.receive(b"*2\r\n$3\r\nGET\r\n$1\r\nk\r\n*1\r\n$3\r\nDEL\r\n*1");
    assert_eq!(worker.take_request(0), Request::Run(20, Command::Get(b"k".to_vec())));
    assert_eq!(
        worker.take_request(0),
        Request::Drop(13, Error::Argument(ArgumentError::NotImplemented(b"DEL".to_vec())))
    );
    assert_eq!(worker.take_request(0), Request::NeedMore);
}
