use fizap::item::ItemState;
use fizap::fetch::{FetchError, ServerFault};
use fizap::store::{
    complete_batch, fail_batch, load_item, resolve_batch, set_row_size, set_total_count, unmount,
    Store,
};

fn names(from: u32, to: u32) -> Vec<(String, String)> {
    (from..to).map(|i| (format!("file{}.txt", i), String::from("txt"))).collect()
}

#[test]
fn fresh_store_is_empty() {
    let store = Store::new();
    assert_eq!(store.total_count(), 0);
    assert_eq!(store.row_size(), 1);
    assert_eq!(store.in_flight_count(), 0);
    assert_eq!(store.state_of(0), ItemState::Unrequested);
    assert!(store.item(0).is_none());
}

#[test]
fn visible_cell_pulls_in_its_row() {
    let mut store = Store::new();
    set_total_count(50, &mut store);
    set_row_size(10, &mut store);
    let batch = load_item(23, &mut store).expect("a batch goes out");
    assert_eq!(batch.request.indices, (20..30).collect::<Vec<u32>>());
    assert_eq!(batch.request.count, 50);
    for i in 20..30 {
        assert_eq!(store.state_of(i), ItemState::Pending);
        assert!(store.is_in_flight(i));
    }
    assert_eq!(store.state_of(19), ItemState::Unrequested);
    assert_eq!(store.state_of(30), ItemState::Unrequested);
    assert_eq!(store.in_flight_count(), 10);
    assert!(store.is_outstanding(batch.ticket));
}

#[test]
fn second_cell_of_a_row_in_flight_sends_nothing() {
    let mut store = Store::new();
    set_total_count(50, &mut store);
    set_row_size(10, &mut store);
    let batch = load_item(23, &mut store).expect("a batch goes out");
    assert!(load_item(25, &mut store).is_none());
    assert_eq!(store.in_flight_count(), 10);
    let changed = resolve_batch(batch.ticket, &names(20, 30), &mut store);
    assert_eq!(changed, (20..30).collect::<Vec<u32>>());
    for i in 20..30 {
        assert_eq!(store.state_of(i), ItemState::Loaded);
        let item = store.item(i).expect("the cell exists");
        assert_eq!(item.index, i);
        assert_eq!(item.name, format!("file{}.txt", i));
        assert_eq!(item.kind, "txt");
        assert!(!store.is_in_flight(i));
    }
    assert_eq!(store.in_flight_count(), 0);
    assert!(!store.is_outstanding(batch.ticket));
}

#[test]
fn failed_batch_is_asked_again() {
    let mut store = Store::new();
    set_total_count(50, &mut store);
    set_row_size(10, &mut store);
    let first = load_item(5, &mut store).expect("a batch goes out");
    assert_eq!(first.request.indices, (0..10).collect::<Vec<u32>>());
    let changed = fail_batch(first.ticket, &mut store);
    assert_eq!(changed, (0..10).collect::<Vec<u32>>());
    for i in 0..10 {
        assert_eq!(store.state_of(i), ItemState::Failed);
        assert!(!store.is_in_flight(i));
        let item = store.item(i).expect("the cell exists");
        assert_eq!(item.name, "");
        assert_eq!(item.kind, "");
    }
    let second = load_item(5, &mut store).expect("the retry goes out");
    assert_eq!(second.request.indices, (0..10).collect::<Vec<u32>>());
    assert_ne!(second.ticket, first.ticket);
    for i in 0..10 {
        assert_eq!(store.state_of(i), ItemState::Pending);
    }
}

#[test]
fn loaded_cell_sends_nothing() {
    let mut store = Store::new();
    set_total_count(4, &mut store);
    set_row_size(2, &mut store);
    let batch = load_item(1, &mut store).expect("a batch goes out");
    resolve_batch(batch.ticket, &names(0, 2), &mut store);
    assert!(load_item(1, &mut store).is_none());
    assert!(load_item(0, &mut store).is_none());
    assert_eq!(store.in_flight_count(), 0);
    assert_eq!(store.state_of(1), ItemState::Loaded);
}

#[test]
fn resize_keeps_loaded_cells() {
    let mut store = Store::new();
    set_total_count(20, &mut store);
    set_row_size(10, &mut store);
    let batch = load_item(3, &mut store).expect("a batch goes out");
    resolve_batch(batch.ticket, &names(0, 10), &mut store);
    set_row_size(4, &mut store);
    assert_eq!(store.row_size(), 4);
    for i in 0..10 {
        assert_eq!(store.state_of(i), ItemState::Loaded);
        assert_eq!(store.item(i).expect("the cell exists").name, format!("file{}.txt", i));
    }
    let next = load_item(13, &mut store).expect("a batch goes out");
    assert_eq!(next.request.indices, vec![12, 13, 14, 15]);
}

#[test]
fn row_size_zero_counts_as_one() {
    let mut store = Store::new();
    set_total_count(3, &mut store);
    set_row_size(0, &mut store);
    assert_eq!(store.row_size(), 1);
    let batch = load_item(2, &mut store).expect("a batch goes out");
    assert_eq!(batch.request.indices, vec![2]);
}

#[test]
fn last_row_is_cut_off_at_the_count() {
    let mut store = Store::new();
    set_total_count(25, &mut store);
    set_row_size(10, &mut store);
    let batch = load_item(24, &mut store).expect("a batch goes out");
    assert_eq!(batch.request.indices, vec![20, 21, 22, 23, 24]);
}

#[test]
fn cell_beyond_the_count_sends_nothing() {
    let mut store = Store::new();
    set_total_count(5, &mut store);
    set_row_size(10, &mut store);
    assert!(load_item(5, &mut store).is_none());
    assert!(load_item(u32::MAX, &mut store).is_none());
    assert_eq!(store.in_flight_count(), 0);
}

#[test]
fn answer_for_unknown_ticket_is_ignored() {
    let mut store = Store::new();
    set_total_count(5, &mut store);
    set_row_size(5, &mut store);
    let batch = load_item(0, &mut store).expect("a batch goes out");
    assert!(resolve_batch(batch.ticket + 1, &names(0, 5), &mut store).is_empty());
    assert!(fail_batch(batch.ticket + 7, &mut store).is_empty());
    assert_eq!(store.state_of(0), ItemState::Pending);
    resolve_batch(batch.ticket, &names(0, 5), &mut store);
    assert!(resolve_batch(batch.ticket, &names(5, 10), &mut store).is_empty());
    assert!(fail_batch(batch.ticket, &mut store).is_empty());
    assert_eq!(store.item(0).expect("the cell exists").name, "file0.txt");
}

#[test]
fn answer_with_wrong_number_of_pairs_fails_the_batch() {
    let mut store = Store::new();
    set_total_count(5, &mut store);
    set_row_size(5, &mut store);
    let batch = load_item(0, &mut store).expect("a batch goes out");
    let changed = resolve_batch(batch.ticket, &names(0, 4), &mut store);
    assert_eq!(changed, vec![0, 1, 2, 3, 4]);
    for i in 0..5 {
        assert_eq!(store.state_of(i), ItemState::Failed);
    }
}

#[test]
fn batches_never_share_an_index() {
    let mut store = Store::new();
    set_total_count(30, &mut store);
    set_row_size(10, &mut store);
    let a = load_item(12, &mut store).expect("a batch goes out");
    set_row_size(4, &mut store);
    let b = load_item(9, &mut store).expect("a batch goes out");
    assert_eq!(a.request.indices, (10..20).collect::<Vec<u32>>());
    assert_eq!(b.request.indices, vec![8, 9]);
    let c = load_item(21, &mut store).expect("a batch goes out");
    assert_eq!(c.request.indices, vec![20, 21, 22, 23]);
    for i in &a.request.indices {
        assert!(!b.request.indices.contains(i));
        assert!(!c.request.indices.contains(i));
    }
    assert_eq!(store.in_flight_count(), 16);
}

#[test]
fn half_loaded_row_asks_only_for_the_rest() {
    let mut store = Store::new();
    set_total_count(10, &mut store);
    set_row_size(5, &mut store);
    let first = load_item(0, &mut store).expect("a batch goes out");
    resolve_batch(first.ticket, &names(0, 5), &mut store);
    set_row_size(10, &mut store);
    let second = load_item(7, &mut store).expect("a batch goes out");
    assert_eq!(second.request.indices, vec![5, 6, 7, 8, 9]);
}

#[test]
fn outcome_of_a_fetch_settles_the_batch() {
    let mut store = Store::new();
    set_total_count(6, &mut store);
    set_row_size(3, &mut store);
    let first = load_item(0, &mut store).expect("a batch goes out");
    let second = load_item(4, &mut store).expect("a batch goes out");
    let third = load_item(4, &mut store);
    assert!(third.is_none());
    assert_eq!(complete_batch(first.ticket, &Ok(names(0, 3)), &mut store), vec![0, 1, 2]);
    let lost = Err(FetchError::NetworkError);
    assert_eq!(complete_batch(second.ticket, &lost, &mut store), vec![3, 4, 5]);
    for i in 0..3 {
        assert_eq!(store.state_of(i), ItemState::Loaded);
    }
    for i in 3..6 {
        assert_eq!(store.state_of(i), ItemState::Failed);
    }
    let again = load_item(3, &mut store).expect("the retry goes out");
    let refused = Err(FetchError::ServerError(ServerFault::OutOfRange));
    assert_eq!(complete_batch(again.ticket, &refused, &mut store), vec![3, 4, 5]);
    let garbled = Err(FetchError::DecodeError);
    assert!(complete_batch(again.ticket, &garbled, &mut store).is_empty());
    assert_eq!(store.state_of(4), ItemState::Failed);
    assert_eq!(store.in_flight_count(), 0);
}

#[test]
fn unmounted_grid_does_nothing_more() {
    let mut store = Store::new();
    set_total_count(10, &mut store);
    set_row_size(5, &mut store);
    let batch = load_item(1, &mut store).expect("a batch goes out");
    assert!(store.is_mounted());
    unmount(&mut store);
    assert!(!store.is_mounted());
    assert!(load_item(7, &mut store).is_none());
    assert!(resolve_batch(batch.ticket, &names(0, 5), &mut store).is_empty());
    assert!(fail_batch(batch.ticket, &mut store).is_empty());
    set_row_size(2, &mut store);
    set_total_count(99, &mut store);
    assert_eq!(store.row_size(), 5);
    assert_eq!(store.total_count(), 10);
    assert_eq!(store.state_of(1), ItemState::Pending);
    assert_eq!(store.state_of(7), ItemState::Unrequested);
}
