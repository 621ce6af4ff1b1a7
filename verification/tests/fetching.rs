use fizap::fetch::{
    demux_items, fault_of_status, judge_answer, read_count, read_reply, FetchError, Reply,
    ServerFault,
};
use fizap::indices::{is_ascending, sorted_unique};
use fizap::item::ItemState;
use fizap::request::GetFiles;

fn pair(name: &str, kind: &str) -> (String, String) {
    (name.to_string(), kind.to_string())
}

#[test]
fn indices_are_sorted_and_repeats_dropped() {
    assert_eq!(sorted_unique(&vec![5, 1, 3, 1, 5, 2]), vec![1, 2, 3, 5]);
    assert_eq!(sorted_unique(&vec![]), Vec::<u32>::new());
    assert_eq!(sorted_unique(&vec![7]), vec![7]);
    assert_eq!(sorted_unique(&vec![u32::MAX, 0, u32::MAX]), vec![0, u32::MAX]);
    assert_eq!(sorted_unique(&vec![9, 8, 7, 6]), vec![6, 7, 8, 9]);
}

#[test]
fn sorting_twice_changes_nothing() {
    let once = sorted_unique(&vec![4, 4, 2, 9, 0]);
    assert_eq!(sorted_unique(&once), once);
}

#[test]
fn ascending_is_recognised() {
    assert!(is_ascending(&vec![]));
    assert!(is_ascending(&vec![3]));
    assert!(is_ascending(&vec![1, 2, 9]));
    assert!(!is_ascending(&vec![1, 1]));
    assert!(!is_ascending(&vec![2, 1]));
    assert!(!is_ascending(&vec![1, 5, 4, 6]));
}

#[test]
fn request_is_brought_into_wire_form() {
    let request = GetFiles::new(&vec![29, 20, 25, 20], 50);
    assert_eq!(request.indices, vec![20, 25, 29]);
    assert_eq!(request.count, 50);
    assert!(request.is_in_range());
}

#[test]
fn request_range_is_checked() {
    assert!(!GetFiles::new(&vec![0], 0).is_in_range());
    assert!(!GetFiles::new(&vec![], 0).is_in_range());
    assert!(GetFiles::new(&vec![], 1).is_in_range());
    assert!(GetFiles::new(&vec![0], 1).is_in_range());
    assert!(!GetFiles::new(&vec![1], 1).is_in_range());
    assert!(!GetFiles::new(&vec![0, 3, 7], 7).is_in_range());
    assert!(GetFiles::new(&vec![0, 3, 7], 8).is_in_range());
}

#[test]
fn statuses_are_told_apart() {
    assert_eq!(fault_of_status(200), None);
    assert_eq!(fault_of_status(204), None);
    assert_eq!(fault_of_status(299), None);
    assert_eq!(fault_of_status(199), Some(ServerFault::Other));
    assert_eq!(fault_of_status(300), Some(ServerFault::Other));
    assert_eq!(fault_of_status(400), Some(ServerFault::Other));
    assert_eq!(fault_of_status(401), Some(ServerFault::Unauthorized));
    assert_eq!(fault_of_status(404), Some(ServerFault::NotFound));
    assert_eq!(fault_of_status(416), Some(ServerFault::OutOfRange));
    assert_eq!(fault_of_status(500), Some(ServerFault::Other));
}

#[test]
fn unreachable_service_is_a_network_error() {
    let request = GetFiles::new(&vec![0, 1], 2);
    assert_eq!(read_reply(&request, &Reply::Unreachable), Err(FetchError::NetworkError));
}

#[test]
fn error_status_is_a_server_error() {
    let request = GetFiles::new(&vec![0, 1], 2);
    let reply = Reply::Answer { status: 416, body: String::from("Index out of range") };
    assert_eq!(
        read_reply(&request, &reply),
        Err(FetchError::ServerError(ServerFault::OutOfRange))
    );
    let reply = Reply::Answer { status: 401, body: String::from("[[\"a\",\"b\"],[\"c\",\"d\"]]") };
    assert_eq!(
        read_reply(&request, &reply),
        Err(FetchError::ServerError(ServerFault::Unauthorized))
    );
}

#[test]
fn body_is_read_as_pairs() {
    let request = GetFiles::new(&vec![3, 1], 5);
    let reply = Reply::Answer {
        status: 200,
        body: String::from("[[\"notes.txt\",\"txt\"],[\"Makefile\",\"\"]]"),
    };
    assert_eq!(
        read_reply(&request, &reply),
        Ok(vec![pair("notes.txt", "txt"), pair("Makefile", "")])
    );
}

#[test]
fn malformed_body_is_a_decode_error() {
    let request = GetFiles::new(&vec![0], 1);
    for body in ["", "nonsense", "[[\"a\"]]", "{\"a\":1}", "[[\"a\",\"b\"]] trailing", "[[1,2]]"] {
        let reply = Reply::Answer { status: 200, body: body.to_string() };
        assert_eq!(read_reply(&request, &reply), Err(FetchError::DecodeError));
    }
}

#[test]
fn wrong_number_of_pairs_is_a_decode_error() {
    let request = GetFiles::new(&vec![0, 1], 2);
    let reply = Reply::Answer { status: 200, body: String::from("[[\"a\",\"b\"]]") };
    assert_eq!(read_reply(&request, &reply), Err(FetchError::DecodeError));
    let reply = Reply::Answer { status: 200, body: String::from("[]") };
    assert_eq!(read_reply(&request, &reply), Err(FetchError::DecodeError));
    let empty = GetFiles::new(&vec![], 2);
    assert_eq!(read_reply(&empty, &reply), Ok(vec![]));
}

#[test]
fn answer_is_judged_by_status_then_body() {
    let indices = vec![4, 6];
    let two = vec![pair("a", "x"), pair("b", "y")];
    assert_eq!(judge_answer(&indices, 200, Some(two.clone())), Ok(two.clone()));
    assert_eq!(judge_answer(&indices, 200, None), Err(FetchError::DecodeError));
    assert_eq!(
        judge_answer(&indices, 200, Some(vec![pair("a", "x")])),
        Err(FetchError::DecodeError)
    );
    assert_eq!(
        judge_answer(&indices, 404, Some(two)),
        Err(FetchError::ServerError(ServerFault::NotFound))
    );
}

#[test]
fn pairs_are_matched_back_by_position() {
    let wanted = vec![29, 20, 25, 20];
    let request = GetFiles::new(&wanted, 50);
    let pairs = vec![pair("a.png", "png"), pair("b", ""), pair("c.tar.gz", "gz")];
    let items = demux_items(&request.indices, &pairs).expect("one pair per index");
    assert_eq!(items.len(), 3);
    let of = |index: u32| items.iter().filter(|item| item.index == index).collect::<Vec<_>>();
    for index in &wanted {
        assert_eq!(of(*index).len(), 1);
        assert_eq!(of(*index)[0].state, ItemState::Loaded);
    }
    assert_eq!(of(20)[0].name, "a.png");
    assert_eq!(of(25)[0].name, "b");
    assert_eq!(of(25)[0].kind, "");
    assert_eq!(of(29)[0].name, "c.tar.gz");
    assert_eq!(of(29)[0].kind, "gz");
    assert!(demux_items(&request.indices, &pairs[..2].to_vec()).is_none());
}

#[test]
fn count_reply_is_read() {
    let answer = |status: u16, body: &str| Reply::Answer { status, body: body.to_string() };
    assert_eq!(read_count(&answer(200, "50")), Ok(50));
    assert_eq!(read_count(&answer(200, "0")), Ok(0));
    assert_eq!(read_count(&answer(200, "fifty")), Err(FetchError::DecodeError));
    assert_eq!(read_count(&answer(200, "")), Err(FetchError::DecodeError));
    assert_eq!(
        read_count(&answer(404, "Path not found")),
        Err(FetchError::ServerError(ServerFault::NotFound))
    );
    assert_eq!(
        read_count(&answer(401, "7")),
        Err(FetchError::ServerError(ServerFault::Unauthorized))
    );
    assert_eq!(read_count(&Reply::Unreachable), Err(FetchError::NetworkError));
}
