use ngram::message::{Request, Response};
use ngram::server::{process_message, Accept, HandlerSetup, Phase, Server, ServerState};

fn exchange(server: &mut Server, request: Request) -> Option<Response> {
    let output = server.handle(&request.to_bytes());
    Response::from_bytes(&output)
}

#[test]
fn publish_search_retrieve_end_to_end() {
    let mut server = Server::new();
    assert_eq!(
        exchange(&mut server, Request::Publish { doc: "hello world".to_string() }),
        Some(Response::PublishSuccess(0))
    );
    assert_eq!(
        exchange(&mut server, Request::Search { word: "hello".to_string() }),
        Some(Response::SearchSuccess(vec![0]))
    );
    assert_eq!(
        exchange(&mut server, Request::Retrieve { id: 0 }),
        Some(Response::RetrieveSuccess("hello world".to_string()))
    );
    assert_eq!(exchange(&mut server, Request::Retrieve { id: 5 }), Some(Response::Failure));
}

#[test]
fn bytes_that_hold_no_request_get_a_failure() {
    let mut server = Server::new();
    assert_eq!(server.handle(&[]), vec![4u8]);
    assert_eq!(server.handle(&[9, 9, 9]), vec![4u8]);
    assert_eq!(server.handle(&[1, 0, 0, 0, 0, 0, 0, 0, 5, b'a']), vec![4u8]);
    assert_eq!(server.handle(&[2, 0, 0, 0, 0, 0, 0, 0, 1, 0xff]), vec![4u8]);
    // Nothing was published on the way.
    assert_eq!(exchange(&mut server, Request::Retrieve { id: 0 }), Some(Response::Failure));
}

#[test]
fn handle_gives_the_bytes_of_the_response() {
    let mut server = Server::new();
    let output = server.handle(&[1, 0, 0, 0, 0, 0, 0, 0, 2, b'h', b'i']);
    assert_eq!(output, vec![1u8, 0, 0, 0, 0, 0, 0, 0, 0]);
    let output = server.handle(&[2, 0, 0, 0, 0, 0, 0, 0, 2, b'H', b'I']);
    assert_eq!(output, vec![2u8, 0, 0, 0, 0, 0, 0, 0, 1, 0, 0, 0, 0, 0, 0, 0, 0]);
    let output = server.handle(&[3, 0, 0, 0, 0, 0, 0, 0, 0]);
    assert_eq!(output, vec![3u8, 0, 0, 0, 0, 0, 0, 0, 2, b'h', b'i']);
}

#[test]
fn process_message_serves_each_kind_of_request() {
    let mut state = ServerState::new();
    assert_eq!(
        process_message(&mut state, Request::Publish { doc: "a b".to_string() }),
        Response::PublishSuccess(0)
    );
    assert_eq!(
        process_message(&mut state, Request::Publish { doc: "b c".to_string() }),
        Response::PublishSuccess(1)
    );
    assert_eq!(
        process_message(&mut state, Request::Search { word: "B".to_string() }),
        Response::SearchSuccess(vec![0, 1])
    );
    assert_eq!(
        process_message(&mut state, Request::Search { word: "d".to_string() }),
        Response::SearchSuccess(Vec::new())
    );
    assert_eq!(
        process_message(&mut state, Request::Retrieve { id: 1 }),
        Response::RetrieveSuccess("b c".to_string())
    );
    assert_eq!(process_message(&mut state, Request::Retrieve { id: 2 }), Response::Failure);
}

#[test]
fn a_server_goes_from_created_to_stopped() {
    let mut server = Server::new();
    assert_eq!(server.phase(), Phase::Created);
    assert!(!server.is_stopped());
    server.listening();
    assert_eq!(server.phase(), Phase::Listening);
    assert_eq!(server.on_connection(true), Accept::Submit);
    assert_eq!(server.on_connection(false), Accept::Report);
    assert_eq!(server.phase(), Phase::Listening);
    server.stop();
    assert!(server.is_stopped());
    assert_eq!(server.phase(), Phase::Stopping);
    assert_eq!(server.on_connection(true), Accept::Exit);
    assert_eq!(server.phase(), Phase::Stopped);
}

#[test]
fn stop_is_idempotent() {
    let mut server = Server::new();
    server.listening();
    server.stop();
    server.stop();
    assert!(server.is_stopped());
    assert_eq!(server.phase(), Phase::Stopping);
}

#[test]
fn a_server_stopped_before_it_listens_is_stopped() {
    let mut server = Server::new();
    server.stop();
    assert_eq!(server.phase(), Phase::Stopped);
    server.listening();
    assert_eq!(server.phase(), Phase::Stopping);
    assert_eq!(server.on_connection(false), Accept::Exit);
    assert_eq!(server.phase(), Phase::Stopped);
}

#[test]
fn no_connection_is_submitted_after_stop() {
    let mut server = Server::new();
    server.listening();
    server.stop();
    for connected in [true, false, true] {
        assert_eq!(server.on_connection(connected), Accept::Exit);
        assert!(server.is_stopped());
    }
}

#[test]
fn a_submitted_connection_is_served_after_stop() {
    let mut server = Server::new();
    server.listening();
    assert_eq!(server.on_connection(true), Accept::Submit);
    server.stop();
    assert_eq!(
        exchange(&mut server, Request::Publish { doc: "late".to_string() }),
        Some(Response::PublishSuccess(0))
    );
    assert_eq!(
        exchange(&mut server, Request::Search { word: "late".to_string() }),
        Some(Response::SearchSuccess(vec![0]))
    );
    assert!(server.is_stopped());
}

#[test]
fn a_handler_in_place_is_good_enough_to_run() {
    assert!(Server::can_run(HandlerSetup::Installed));
    assert!(Server::can_run(HandlerSetup::AlreadyInstalled));
    assert!(!Server::can_run(HandlerSetup::Failed));
}
