use std::sync::Arc;
use tokio::sync::Mutex;
use vdb::protocol::handle_line;
use vdb::store::KvStore;

#[test]
fn concurrent_sets_then_gets_lose_no_updates() {
    let rt = tokio::runtime::Builder::new_multi_thread()
        .worker_threads(4)
        .build()
        .unwrap();
    rt.block_on(async {
        let store = Arc::new(Mutex::new(KvStore::new()));
        let n = 16;

        let mut writers = Vec::new();
        for i in 0..n {
            let store = store.clone();
            writers.push(tokio::spawn(async move {
                let mut guard = store.lock().await;
                let (resp, closed) = handle_line(&mut guard, &format!("SET key{} value{}", i, i));
                assert_eq!(resp, "+OK\r\n");
                assert!(!closed);
            }));
        }
        for w in writers {
            w.await.unwrap();
        }

        let mut readers = Vec::new();
        for i in 0..n {
            let store = store.clone();
            readers.push(tokio::spawn(async move {
                let mut guard = store.lock().await;
                let (resp, closed) = handle_line(&mut guard, &format!("GET key{}", i));
                assert_eq!(resp, format!("+value{}\r\n", i));
                assert!(!closed);
            }));
        }
        for r in readers {
            r.await.unwrap();
        }
    });
}
