use ngram::message::{Request, Response};

fn requests() -> Vec<Request> {
    vec![
        Request::Publish { doc: String::new() },
        Request::Publish { doc: "hello world".to_string() },
        Request::Publish { doc: "na\u{ef}ve caf\u{e9} \u{4e16}\u{754c} \u{1f600}".to_string() },
        Request::Search { word: String::new() },
        Request::Search { word: "fox".to_string() },
        Request::Retrieve { id: 0 },
        Request::Retrieve { id: 5 },
        Request::Retrieve { id: usize::MAX },
    ]
}

fn responses() -> Vec<Response> {
    vec![
        Response::PublishSuccess(0),
        Response::PublishSuccess(usize::MAX),
        Response::SearchSuccess(Vec::new()),
        Response::SearchSuccess(vec![0]),
        Response::SearchSuccess(vec![3, 1, 4, 1, 5, usize::MAX]),
        Response::RetrieveSuccess(String::new()),
        Response::RetrieveSuccess("hello world".to_string()),
        Response::RetrieveSuccess("\u{1f600} \u{e9}".to_string()),
        Response::Failure,
    ]
}

#[test]
fn request_publish_bytes() {
    let bytes = Request::Publish { doc: "hi!".to_string() }.to_bytes();
    assert_eq!(bytes, vec![1u8, 0, 0, 0, 0, 0, 0, 0, 3, b'h', b'i', b'!']);
}

#[test]
fn request_search_bytes() {
    let bytes = Request::Search { word: "\u{e9}".to_string() }.to_bytes();
    assert_eq!(bytes, vec![2u8, 0, 0, 0, 0, 0, 0, 0, 2, 0xc3, 0xa9]);
}

#[test]
fn request_retrieve_bytes() {
    let bytes = Request::Retrieve { id: 5 }.to_bytes();
    assert_eq!(bytes, vec![3u8, 0, 0, 0, 0, 0, 0, 0, 5]);
    assert_eq!(Request::from_bytes(&bytes), Some(Request::Retrieve { id: 5 }));
}

#[test]
fn response_publish_success_bytes() {
    let bytes = Response::PublishSuccess(258).to_bytes();
    assert_eq!(bytes, vec![1u8, 0, 0, 0, 0, 0, 0, 1, 2]);
}

#[test]
fn response_search_success_bytes() {
    let bytes = Response::SearchSuccess(vec![7, 256]).to_bytes();
    assert_eq!(
        bytes,
        vec![2u8, 0, 0, 0, 0, 0, 0, 0, 2, 0, 0, 0, 0, 0, 0, 0, 7, 0, 0, 0, 0, 0, 0, 1, 0]
    );
}

#[test]
fn response_search_success_without_ids_bytes() {
    let bytes = Response::SearchSuccess(Vec::new()).to_bytes();
    assert_eq!(bytes, vec![2u8, 0, 0, 0, 0, 0, 0, 0, 0]);
}

#[test]
fn response_retrieve_success_bytes() {
    let bytes = Response::RetrieveSuccess("ab".to_string()).to_bytes();
    assert_eq!(bytes, vec![3u8, 0, 0, 0, 0, 0, 0, 0, 2, b'a', b'b']);
}

#[test]
fn response_failure_bytes() {
    let bytes = Response::Failure.to_bytes();
    assert_eq!(bytes, vec![4u8]);
    assert_eq!(Response::from_bytes(&bytes), Some(Response::Failure));
}

#[test]
fn requests_round_trip() {
    for request in requests() {
        let bytes = request.to_bytes();
        assert_eq!(Request::from_bytes(&bytes), Some(request));
    }
}

#[test]
fn responses_round_trip() {
    for response in responses() {
        let bytes = response.to_bytes();
        assert_eq!(Response::from_bytes(&bytes), Some(response));
    }
}

#[test]
fn truncated_requests_decode_to_nothing() {
    for request in requests() {
        let bytes = request.to_bytes();
        for cut in 0..bytes.len() {
            assert_eq!(Request::from_bytes(&bytes[..cut]), None);
        }
    }
}

#[test]
fn truncated_responses_decode_to_nothing() {
    for response in responses() {
        let bytes = response.to_bytes();
        for cut in 0..bytes.len() {
            assert_eq!(Response::from_bytes(&bytes[..cut]), None);
        }
    }
}

#[test]
fn what_follows_a_message_is_ignored() {
    let mut bytes = Request::Search { word: "fox".to_string() }.to_bytes();
    bytes.extend_from_slice(&[1, 2, 3]);
    assert_eq!(Request::from_bytes(&bytes), Some(Request::Search { word: "fox".to_string() }));
    let mut bytes = Response::SearchSuccess(vec![9]).to_bytes();
    bytes.extend_from_slice(&[0xff; 20]);
    assert_eq!(Response::from_bytes(&bytes), Some(Response::SearchSuccess(vec![9])));
    assert_eq!(Response::from_bytes(&[4, 4, 4]), Some(Response::Failure));
}

#[test]
fn empty_input_decodes_to_nothing() {
    assert_eq!(Request::from_bytes(&[]), None);
    assert_eq!(Response::from_bytes(&[]), None);
}

#[test]
fn unknown_tags_decode_to_nothing() {
    for tag in [0u8, 4, 5, 77, 255] {
        let bytes = [tag, 0, 0, 0, 0, 0, 0, 0, 0, 0];
        assert_eq!(Request::from_bytes(&bytes), None);
    }
    for tag in [0u8, 5, 6, 77, 255] {
        let bytes = [tag, 0, 0, 0, 0, 0, 0, 0, 0, 0];
        assert_eq!(Response::from_bytes(&bytes), None);
    }
}

#[test]
fn text_that_is_not_utf8_decodes_to_nothing() {
    // A lone continuation byte, an overlong encoding, a surrogate, a cut
    // sequence.
    let bad: [&[u8]; 4] = [&[0x80], &[0xc0, 0xaf], &[0xed, 0xa0, 0x80], &[0xe4, 0xb8]];
    for body in bad {
        for tag in [1u8, 2] {
            let mut bytes = vec![tag];
            bytes.extend_from_slice(&(body.len() as u64).to_be_bytes());
            bytes.extend_from_slice(body);
            assert_eq!(Request::from_bytes(&bytes), None);
        }
        let mut bytes = vec![3u8];
        bytes.extend_from_slice(&(body.len() as u64).to_be_bytes());
        bytes.extend_from_slice(body);
        assert_eq!(Response::from_bytes(&bytes), None);
    }
}

#[test]
fn text_is_decoded_from_its_utf8() {
    let bytes = [1u8, 0, 0, 0, 0, 0, 0, 0, 5, 0xe4, 0xb8, 0x96, 0xc3, 0xa9];
    assert_eq!(
        Request::from_bytes(&bytes),
        Some(Request::Publish { doc: "\u{4e16}\u{e9}".to_string() })
    );
}

#[test]
fn a_length_beyond_the_input_decodes_to_nothing() {
    let mut bytes = vec![1u8];
    bytes.extend_from_slice(&u64::MAX.to_be_bytes());
    bytes.extend_from_slice(b"abc");
    assert_eq!(Request::from_bytes(&bytes), None);
    let mut bytes = vec![2u8];
    bytes.extend_from_slice(&4u64.to_be_bytes());
    bytes.extend_from_slice(b"abc");
    assert_eq!(Request::from_bytes(&bytes), None);
    let mut bytes = vec![3u8];
    bytes.extend_from_slice(&(1u64 << 60).to_be_bytes());
    assert_eq!(Response::from_bytes(&bytes), None);
}

#[test]
fn a_count_beyond_the_input_decodes_to_nothing() {
    let mut bytes = vec![2u8];
    bytes.extend_from_slice(&u64::MAX.to_be_bytes());
    bytes.extend_from_slice(&[0; 16]);
    assert_eq!(Response::from_bytes(&bytes), None);
    let mut bytes = vec![2u8];
    bytes.extend_from_slice(&(1u64 << 61).to_be_bytes());
    bytes.extend_from_slice(&[0; 16]);
    assert_eq!(Response::from_bytes(&bytes), None);
    let mut bytes = vec![2u8];
    bytes.extend_from_slice(&3u64.to_be_bytes());
    bytes.extend_from_slice(&[0; 23]);
    assert_eq!(Response::from_bytes(&bytes), None);
}

#[test]
fn a_reader_that_follows_the_needs_reads_a_request_exactly() {
    for request in requests() {
        let mut stream = request.to_bytes();
        let whole = stream.len();
        stream.extend_from_slice(&[0xab; 7]);
        let mut received = Vec::new();
        loop {
            let needed = Request::bytes_needed(&received);
            if needed == 0 {
                break;
            }
            assert!(received.len() + needed <= whole);
            let upto = received.len() + needed.min(3);
            received = stream[..upto].to_vec();
        }
        assert_eq!(received.len(), whole);
        assert_eq!(Request::from_bytes(&received), Some(request));
    }
}

#[test]
fn a_reader_that_follows_the_needs_reads_a_response_exactly() {
    for response in responses() {
        let mut stream = response.to_bytes();
        let whole = stream.len();
        stream.extend_from_slice(&[0xab; 7]);
        let mut received = Vec::new();
        loop {
            let needed = Response::bytes_needed(&received);
            if needed == 0 {
                break;
            }
            assert!(received.len() + needed <= whole);
            let upto = received.len() + needed;
            received = stream[..upto].to_vec();
        }
        assert_eq!(received.len(), whole);
        assert_eq!(Response::from_bytes(&received), Some(response));
    }
}

#[test]
fn bytes_needed_step_by_step() {
    assert_eq!(Request::bytes_needed(&[]), 1);
    assert_eq!(Request::bytes_needed(&[1]), 8);
    assert_eq!(Request::bytes_needed(&[2, 0, 0, 0]), 5);
    assert_eq!(Request::bytes_needed(&[1, 0, 0, 0, 0, 0, 0, 0, 4]), 4);
    assert_eq!(Request::bytes_needed(&[1, 0, 0, 0, 0, 0, 0, 0, 4, b'a']), 3);
    assert_eq!(Request::bytes_needed(&[1, 0, 0, 0, 0, 0, 0, 0, 4, b'a', b'b', b'c', b'd']), 0);
    assert_eq!(Request::bytes_needed(&[3]), 8);
    assert_eq!(Request::bytes_needed(&[3, 0, 0, 0, 0, 0, 0, 0, 1]), 0);
    assert_eq!(Request::bytes_needed(&[9]), 0);
    assert_eq!(Response::bytes_needed(&[]), 1);
    assert_eq!(Response::bytes_needed(&[4]), 0);
    assert_eq!(Response::bytes_needed(&[1, 0]), 7);
    assert_eq!(Response::bytes_needed(&[2, 0, 0, 0, 0, 0, 0, 0, 3]), 24);
    assert_eq!(Response::bytes_needed(&[2, 0, 0, 0, 0, 0, 0, 0, 3, 1, 1, 1, 1, 1]), 19);
    assert_eq!(Response::bytes_needed(&[3, 0, 0, 0, 0, 0, 0, 0, 0]), 0);
    assert_eq!(Response::bytes_needed(&[0]), 0);
}

#[test]
fn bytes_needed_is_capped() {
    let mut received = vec![1u8];
    received.extend_from_slice(&u64::MAX.to_be_bytes());
    assert_eq!(Request::bytes_needed(&received), usize::MAX);
    let mut received = vec![2u8];
    received.extend_from_slice(&u64::MAX.to_be_bytes());
    assert_eq!(Response::bytes_needed(&received), usize::MAX);
}
