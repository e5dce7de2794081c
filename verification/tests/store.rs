use map8x32::codec::{
    Command, GetResponse, ListAllResponse, Reply, STATUS_NOT_FOUND, STATUS_OK,
};
use map8x32::store::Store;

fn sorted(mut response: ListAllResponse) -> Vec<(u8, Vec<u32>)> {
    response.entries.sort();
    response.entries
}

#[test]
fn new_store_is_empty() {
    let store = Store::new();
    assert_eq!(store.list_all().entries, Vec::new());
    for key in 0u8..=255 {
        assert_eq!(store.get(key), GetResponse::NotFound);
    }
}

#[test]
fn set_appends_and_keeps_order() {
    let mut store = Store::new();
    assert_eq!(store.set(5, 100), STATUS_OK);
    assert_eq!(store.get(5), GetResponse::Found(vec![100]));
    assert_eq!(store.set(5, 200), STATUS_OK);
    assert_eq!(store.set(5, 100), STATUS_OK);
    assert_eq!(store.get(5), GetResponse::Found(vec![100, 200, 100]));
    assert_eq!(store.get(6), GetResponse::NotFound);
}

#[test]
fn set_grows_the_sequence_by_one() {
    let mut store = Store::new();
    for round in 0u32..50 {
        let before = match store.get(9) {
            GetResponse::Found(values) => values.len(),
            GetResponse::NotFound => 0,
        };
        assert_eq!(store.set(9, round * 3), STATUS_OK);
        match store.get(9) {
            GetResponse::Found(values) => {
                assert_eq!(values.len(), before + 1);
                assert_eq!(values[values.len() - 1], round * 3);
            }
            GetResponse::NotFound => panic!("key 9 was set"),
        }
    }
}

#[test]
fn set_leaves_other_keys_alone() {
    let mut store = Store::new();
    store.set(0, 1);
    store.set(255, 2);
    store.set(0, 3);
    assert_eq!(store.get(0), GetResponse::Found(vec![1, 3]));
    assert_eq!(store.get(255), GetResponse::Found(vec![2]));
    assert_eq!(store.get(1), GetResponse::NotFound);
}

#[test]
fn get_does_not_change_the_store() {
    let mut store = Store::new();
    store.set(1, 10);
    assert_eq!(store.get(1), GetResponse::Found(vec![10]));
    assert_eq!(store.get(1), GetResponse::Found(vec![10]));
    assert_eq!(store.get(2), GetResponse::NotFound);
    assert_eq!(sorted(store.list_all()), vec![(1, vec![10])]);
}

#[test]
fn delete_by_key_removes_the_whole_sequence() {
    let mut store = Store::new();
    store.set(5, 100);
    store.set(5, 200);
    store.set(6, 300);
    assert_eq!(store.delete_by_key(5), STATUS_OK);
    assert_eq!(store.get(5), GetResponse::NotFound);
    assert_eq!(store.get(6), GetResponse::Found(vec![300]));
    assert_eq!(sorted(store.list_all()), vec![(6, vec![300])]);
    assert_eq!(store.set(5, 7), STATUS_OK);
    assert_eq!(store.get(5), GetResponse::Found(vec![7]));
}

#[test]
fn delete_by_key_of_an_absent_key_changes_nothing() {
    let mut store = Store::new();
    assert_eq!(store.delete_by_key(5), STATUS_NOT_FOUND);
    store.set(1, 10);
    store.set(2, 20);
    assert_eq!(store.delete_by_key(5), STATUS_NOT_FOUND);
    assert_eq!(sorted(store.list_all()), vec![(1, vec![10]), (2, vec![20])]);
    assert_eq!(store.delete_by_key(1), STATUS_OK);
    assert_eq!(store.delete_by_key(1), STATUS_NOT_FOUND);
    assert_eq!(sorted(store.list_all()), vec![(2, vec![20])]);
}

#[test]
fn delete_all_is_idempotent() {
    let mut store = Store::new();
    assert_eq!(store.delete_all(), STATUS_OK);
    assert_eq!(store.list_all().entries, Vec::new());
    store.set(1, 10);
    store.set(2, 20);
    assert_eq!(store.delete_all(), STATUS_OK);
    assert_eq!(store.list_all().entries, Vec::new());
    assert_eq!(store.get(1), GetResponse::NotFound);
    assert_eq!(store.get(2), GetResponse::NotFound);
    assert_eq!(store.delete_all(), STATUS_OK);
    assert_eq!(store.list_all().entries, Vec::new());
}

#[test]
fn list_all_has_each_key_once_with_its_sequence() {
    let mut store = Store::new();
    store.set(1, 10);
    store.set(2, 20);
    store.set(2, 21);
    let response = store.list_all();
    assert_eq!(response.entries.len(), 2);
    assert_eq!(sorted(response), vec![(1, vec![10]), (2, vec![20, 21])]);
}

#[test]
fn list_all_covers_all_256_keys() {
    let mut store = Store::new();
    for key in 0u8..=255 {
        store.set(key, key as u32 + 1000);
        store.set(key, key as u32);
    }
    let entries = sorted(store.list_all());
    assert_eq!(entries.len(), 256);
    for (index, entry) in entries.iter().enumerate() {
        assert_eq!(entry.0 as usize, index);
        assert_eq!(entry.1, vec![index as u32 + 1000, index as u32]);
    }
}

#[test]
fn list_all_total_is_sets_minus_removed() {
    let mut store = Store::new();
    let mut sets: usize = 0;
    let mut removed: usize = 0;
    for round in 0u32..40 {
        let key = (round % 7) as u8;
        store.set(key, round);
        sets += 1;
        if round % 5 == 4 {
            let victim = (round % 3) as u8;
            if let GetResponse::Found(values) = store.get(victim) {
                removed += values.len();
            }
            store.delete_by_key(victim);
        }
        let total: usize = store.list_all().entries.iter().map(|entry| entry.1.len()).sum();
        assert_eq!(total, sets - removed);
    }
    let before: usize = store.list_all().entries.iter().map(|entry| entry.1.len()).sum();
    store.delete_all();
    removed += before;
    let total: usize = store.list_all().entries.iter().map(|entry| entry.1.len()).sum();
    assert_eq!(total, 0);
    assert_eq!(sets - removed, 0);
}

#[test]
fn apply_answers_each_command() {
    let mut store = Store::new();
    assert_eq!(store.apply(Command::Get { key: 1 }), Reply::Get(GetResponse::NotFound));
    assert_eq!(
        store.apply(Command::DeleteByKey { key: 1 }),
        Reply::Status(STATUS_NOT_FOUND)
    );
    assert_eq!(
        store.apply(Command::ListAll),
        Reply::ListAll(ListAllResponse { entries: Vec::new() })
    );
    assert_eq!(store.apply(Command::SetValue { key: 1, value: 10 }), Reply::Status(STATUS_OK));
    assert_eq!(store.apply(Command::SetValue { key: 1, value: 11 }), Reply::Status(STATUS_OK));
    assert_eq!(
        store.apply(Command::Get { key: 1 }),
        Reply::Get(GetResponse::Found(vec![10, 11]))
    );
    assert_eq!(
        store.apply(Command::ListAll),
        Reply::ListAll(ListAllResponse { entries: vec![(1, vec![10, 11])] })
    );
    assert_eq!(store.apply(Command::DeleteByKey { key: 1 }), Reply::Status(STATUS_OK));
    assert_eq!(store.apply(Command::Get { key: 1 }), Reply::Get(GetResponse::NotFound));
    assert_eq!(store.apply(Command::SetValue { key: 2, value: 20 }), Reply::Status(STATUS_OK));
    assert_eq!(store.apply(Command::DeleteAll), Reply::Status(STATUS_OK));
    assert_eq!(store.apply(Command::DeleteAll), Reply::Status(STATUS_OK));
    assert_eq!(
        store.apply(Command::ListAll),
        Reply::ListAll(ListAllResponse { entries: Vec::new() })
    );
}

#[test]
fn sets_on_distinct_keys_in_any_order_are_all_kept() {
    let orders: [[u8; 4]; 4] = [[1, 2, 3, 4], [4, 3, 2, 1], [2, 4, 1, 3], [3, 1, 4, 2]];
    for order in orders {
        let mut store = Store::new();
        for key in order {
            assert_eq!(store.set(key, key as u32 * 1000), STATUS_OK);
        }
        for key in 1u8..=4 {
            assert_eq!(store.get(key), GetResponse::Found(vec![key as u32 * 1000]));
        }
    }
}
