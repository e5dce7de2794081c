use map8x32::codec::{decode_request, encode_reply, encode_status, Request, STATUS_BAD_REQUEST};
use map8x32::store::Store;

fn frame(opcode: u8, key: u8, value: u32) -> [u8; 6] {
    let v = value.to_le_bytes();
    [opcode, key, v[0], v[1], v[2], v[3]]
}

fn serve(store: &mut Store, request: [u8; 6]) -> Vec<u8> {
    match decode_request(&request) {
        Request::Command(command) => encode_reply(&store.apply(command)),
        Request::Unrecognized { .. } => encode_status(STATUS_BAD_REQUEST),
    }
}

#[test]
fn set_then_get_returns_the_value() {
    let mut store = Store::new();
    assert_eq!(serve(&mut store, frame(1, 5, 100)), vec![1]);
    assert_eq!(serve(&mut store, frame(2, 5, 0)), vec![1, 1, 0, 0, 0, 100, 0, 0, 0]);
}

#[test]
fn two_sets_are_kept_in_order() {
    let mut store = Store::new();
    assert_eq!(serve(&mut store, frame(1, 5, 100)), vec![1]);
    assert_eq!(serve(&mut store, frame(1, 5, 200)), vec![1]);
    assert_eq!(
        serve(&mut store, frame(2, 5, 0)),
        vec![1, 2, 0, 0, 0, 100, 0, 0, 0, 200, 0, 0, 0]
    );
}

#[test]
fn get_on_a_fresh_store_is_not_found() {
    let mut store = Store::new();
    assert_eq!(serve(&mut store, frame(2, 99, 0)), vec![0]);
}

#[test]
fn get_after_delete_by_key_is_not_found() {
    let mut store = Store::new();
    assert_eq!(serve(&mut store, frame(1, 5, 100)), vec![1]);
    assert_eq!(serve(&mut store, frame(3, 5, 0)), vec![1]);
    assert_eq!(serve(&mut store, frame(2, 5, 0)), vec![0]);
}

#[test]
fn unknown_opcode_is_a_bad_request() {
    let mut store = Store::new();
    assert_eq!(serve(&mut store, frame(9, 0, 0)), vec![2]);
    assert_eq!(serve(&mut store, frame(0, 7, 7)), vec![2]);
    assert_eq!(serve(&mut store, frame(6, 7, 7)), vec![2]);
    assert_eq!(serve(&mut store, frame(255, 7, 7)), vec![2]);
    assert_eq!(serve(&mut store, frame(5, 0, 0)), vec![1, 0, 0, 0, 0]);
}

#[test]
fn list_all_reports_every_key_once() {
    let mut store = Store::new();
    assert_eq!(serve(&mut store, frame(1, 1, 10)), vec![1]);
    assert_eq!(serve(&mut store, frame(1, 2, 20)), vec![1]);
    assert_eq!(serve(&mut store, frame(1, 2, 21)), vec![1]);
    let response = serve(&mut store, frame(5, 0, 0));
    let first: Vec<u8> = vec![1, 1, 0, 0, 0, 10, 0, 0, 0];
    let second: Vec<u8> = vec![2, 2, 0, 0, 0, 20, 0, 0, 0, 21, 0, 0, 0];
    let mut one_then_two: Vec<u8> = vec![1, 2, 0, 0, 0];
    one_then_two.extend_from_slice(&first);
    one_then_two.extend_from_slice(&second);
    let mut two_then_one: Vec<u8> = vec![1, 2, 0, 0, 0];
    two_then_one.extend_from_slice(&second);
    two_then_one.extend_from_slice(&first);
    assert!(response == one_then_two || response == two_then_one);
}

#[test]
fn delete_all_answers_ok_and_empties_the_listing() {
    let mut store = Store::new();
    assert_eq!(serve(&mut store, frame(1, 1, 10)), vec![1]);
    assert_eq!(serve(&mut store, frame(1, 200, 20)), vec![1]);
    assert_eq!(serve(&mut store, frame(4, 0, 0)), vec![1]);
    assert_eq!(serve(&mut store, frame(5, 0, 0)), vec![1, 0, 0, 0, 0]);
    assert_eq!(serve(&mut store, frame(2, 1, 0)), vec![0]);
    assert_eq!(serve(&mut store, frame(1, 1, 11)), vec![1]);
    assert_eq!(
        serve(&mut store, frame(5, 0, 0)),
        vec![1, 1, 0, 0, 0, 1, 1, 0, 0, 0, 11, 0, 0, 0]
    );
}

#[test]
fn delete_by_key_on_an_absent_key_is_not_found() {
    let mut store = Store::new();
    assert_eq!(serve(&mut store, frame(3, 5, 0)), vec![0]);
    assert_eq!(serve(&mut store, frame(1, 6, 1)), vec![1]);
    assert_eq!(serve(&mut store, frame(3, 5, 0)), vec![0]);
    assert_eq!(serve(&mut store, frame(2, 6, 0)), vec![1, 1, 0, 0, 0, 1, 0, 0, 0]);
}

#[test]
fn ignored_value_bytes_do_not_matter() {
    let mut store = Store::new();
    assert_eq!(serve(&mut store, frame(1, 5, 0xDEADBEEF)), vec![1]);
    assert_eq!(
        serve(&mut store, frame(2, 5, 0xFFFFFFFF)),
        vec![1, 1, 0, 0, 0, 0xEF, 0xBE, 0xAD, 0xDE]
    );
    assert_eq!(serve(&mut store, frame(3, 5, 12345)), vec![1]);
    assert_eq!(serve(&mut store, frame(4, 77, 54321)), vec![1]);
}
