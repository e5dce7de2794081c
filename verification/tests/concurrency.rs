use map8x32::codec::{Command, GetResponse, Reply, STATUS_OK};
use map8x32::store::Store;
use tokio::sync::{mpsc, oneshot};

type Envelope = (Command, oneshot::Sender<Reply>);

async fn actor(mut receiver: mpsc::UnboundedReceiver<Envelope>, mut store: Store) {
    while let Some((command, respond_to)) = receiver.recv().await {
        let _ = respond_to.send(store.apply(command));
    }
}

async fn ask(sender: &mpsc::UnboundedSender<Envelope>, command: Command) -> Reply {
    let (tx, rx) = oneshot::channel();
    assert!(sender.send((command, tx)).is_ok());
    rx.await.expect("the store answers every command")
}

async fn set_from_many_connections(connections: u32) {
    let (sender, receiver) = mpsc::unbounded_channel();
    let store_task = tokio::spawn(actor(receiver, Store::new()));

    let mut handles = Vec::new();
    for id in 0..connections {
        let sender = sender.clone();
        handles.push(tokio::spawn(async move {
            ask(&sender, Command::SetValue { key: id as u8, value: id * 1000 + 7 }).await
        }));
    }
    for handle in handles {
        assert_eq!(handle.await.expect("the task ends"), Reply::Status(STATUS_OK));
    }
    for id in 0..connections {
        assert_eq!(
            ask(&sender, Command::Get { key: id as u8 }).await,
            Reply::Get(GetResponse::Found(vec![id * 1000 + 7]))
        );
    }
    drop(sender);
    store_task.await.expect("the store task ends");
}

#[test]
fn concurrent_sets_on_distinct_keys_are_all_kept() {
    let runtime = tokio::runtime::Builder::new_multi_thread()
        .worker_threads(4)
        .build()
        .expect("a runtime");
    runtime.block_on(set_from_many_connections(200));
}

#[test]
fn concurrent_sets_are_kept_on_one_thread_too() {
    let runtime = tokio::runtime::Builder::new_current_thread().build().expect("a runtime");
    runtime.block_on(set_from_many_connections(64));
}

#[test]
fn a_dropped_reply_conduit_does_not_stop_the_store() {
    let runtime = tokio::runtime::Builder::new_current_thread().build().expect("a runtime");
    runtime.block_on(async {
        let (sender, receiver) = mpsc::unbounded_channel();
        let store_task = tokio::spawn(actor(receiver, Store::new()));
        let (tx, rx) = oneshot::channel();
        drop(rx);
        assert!(sender.send((Command::SetValue { key: 3, value: 30 }, tx)).is_ok());
        assert_eq!(
            ask(&sender, Command::Get { key: 3 }).await,
            Reply::Get(GetResponse::Found(vec![30]))
        );
        drop(sender);
        store_task.await.expect("the store task ends");
    });
}
