use jjs_commons::rpc::client::{Call, CallError, CallEvent, Client};
use jjs_commons::rpc::server::{Routed, Router, RouterBuilder};
use jjs_commons::rpc::streaming::{
    Batch, BatchRx, BatchTx, Item, RecvError, Round, SendError, StreamingRx, StreamingTx,
};
use jjs_commons::rpc::unary::{
    RecvError as UnaryRecvError, SendError as UnarySendError, UnaryRx, UnaryTx,
};
use serde_json::Value;
use std::sync::atomic::{AtomicU64, Ordering};
use std::sync::Arc;

type Handler = Box<dyn Fn(Vec<u8>) -> Vec<u8>>;

fn object(entries: Vec<(&str, Value)>) -> Value {
    Value::Object(entries.into_iter().map(|(k, v)| (k.to_string(), v)).collect())
}

fn item_to_value(item: Item<Value, Value>) -> Value {
    match item {
        Item::Event(event) => object(vec![("Event", event)]),
        Item::Finish(finish) => object(vec![("Finish", finish)]),
    }
}

fn value_to_item(text: String) -> Result<Item<Value, Value>, serde_json::Error> {
    let value: Value = serde_json::from_str(&text)?;
    if let Some(event) = value.get("Event") {
        return Ok(Item::Event(event.clone()));
    }
    if let Some(finish) = value.get("Finish") {
        return Ok(Item::Finish(finish.clone()));
    }
    serde_json::from_str::<Value>("").map(Item::Event)
}

fn json_error() -> serde_json::Error {
    serde_json::from_str::<Value>("{").unwrap_err()
}

fn hyper_error() -> hyper::Error {
    let (mut sender, body) = hyper::Body::channel();
    drop(body);
    let mut runtime = tokio::runtime::Runtime::new().unwrap();
    runtime.block_on(async move { sender.send_data("x".into()).await }).unwrap_err()
}

/// Reads the only message of a request or response.
fn unary_recv(body: Vec<u8>) -> Value {
    let rx = UnaryRx::<Value>::new();
    let data = UnaryRx::<Value>::body(Ok(body)).unwrap();
    rx.recv(serde_json::from_slice(&data)).unwrap()
}

/// The bytes that pass an item.
fn frame(item: Item<Value, Value>) -> Vec<u8> {
    let serialized = serde_json::to_vec(&item_to_value(item));
    StreamingTx::<Value, Value>::priv_send(serialized).unwrap()
}

/// Calculates the sum of two numbers and an internal counter.
fn add_handler(counter: Arc<AtomicU64>) -> Handler {
    Box::new(move |body| {
        let request = unary_recv(body);
        let count = counter.fetch_add(1, Ordering::SeqCst);
        let sum = request["a"].as_u64().unwrap() + request["b"].as_u64().unwrap() + count;
        let response = object(vec![("sum", Value::from(sum))]);
        UnaryTx::<Value>::new().send(serde_json::to_vec(&response)).unwrap()
    })
}

/// Gets "Pi" number, with growing precision
fn pi_handler() -> Handler {
    Box::new(|body| {
        unary_recv(body);
        let mut tx = StreamingTx::<Value, Value>::new();
        let mut response = Vec::new();
        for chunk in ["3.", "14", "159", "26"] {
            let item = tx.send_event(object(vec![("digits_chunk", Value::from(chunk))]));
            response.extend(frame(item));
        }
        response.extend(frame(tx.finish(Value::Null)));
        response
    })
}

fn make_server() -> Router<Handler> {
    let mut builder = RouterBuilder::new();
    builder.add_route("/add", add_handler(Arc::new(AtomicU64::new(0))));
    builder.add_route("/pi", pi_handler());
    builder.build()
}

/// Calls an endpoint whose requests are unary, and hands the response to `receive`.
fn call<D>(
    client: &Client<Router<Handler>>,
    endpoint: &str,
    request: Value,
    receive: impl Fn(Vec<u8>) -> Result<D, RecvError>,
) -> Result<D, CallError<String, RecvError, UnarySendError>> {
    let head = client.start(endpoint);
    let state = Call::Starting;
    let (state, handler) = match client.engine.call_inner(head.method, &head.uri) {
        Routed::Accepted(handler) => (state.step(CallEvent::Started(Ok(()))), Some(handler)),
        Routed::Refused { body, .. } => {
            (state.step(CallEvent::Started(Err(body.to_string()))), None)
        }
    };
    if let Call::Finished(outcome) = state {
        return outcome;
    }
    let mut response = Vec::new();
    let sent = match UnaryTx::<Value>::new().send(serde_json::to_vec(&request)) {
        Ok(data) => {
            response = handler.unwrap()(data);
            UnaryTx::<Value>::sent(Ok(()))
        }
        Err(err) => Err(err),
    };
    let state = state.step(CallEvent::Sent(sent));
    if let Call::Finished(outcome) = state {
        return outcome;
    }
    match state.step(CallEvent::Received(receive(response))) {
        Call::Finished(outcome) => outcome,
        _ => panic!("the call is over"),
    }
}

fn recv_batch(response: Vec<u8>, chunk: usize) -> Result<(Vec<Value>, Value), RecvError> {
    let mut rx = StreamingRx::<Value, Value>::new();
    let mut chunks = response.chunks(chunk);
    let mut batch = BatchRx::new();
    loop {
        match rx.recv_batch(batch, value_to_item) {
            Round::NeedsMore(same) => {
                batch = same;
                match chunks.next() {
                    Some(chunk) => rx.feed(chunk),
                    None => rx.close(),
                }
            }
            Round::Received(received) => match received? {
                Batch::More(more) => batch = more,
                Batch::Done(events, finish) => return Ok((events, finish)),
            },
        }
    }
}

#[test]
fn calc_test_simple() {
    let server = make_server();
    let client = Client::new(server, "".to_string());
    let data = object(vec![("a", Value::from(2)), ("b", Value::from(3))]);
    let resp1 = call(&client, "/add", data.clone(), |body| Ok(unary_recv(body))).unwrap();
    assert_eq!(resp1["sum"], Value::from(5));
    let resp2 = call(&client, "/add", data, |body| Ok(unary_recv(body))).unwrap();
    assert_eq!(resp2["sum"], Value::from(6));

    let pi_batch =
        call(&client, "/pi", object(vec![]), |body| recv_batch(body, usize::MAX)).unwrap();
    let mut pi = String::new();
    for item in pi_batch.0 {
        pi.push_str(item["digits_chunk"].as_str().unwrap());
    }
    assert_eq!(pi, "3.1415926")
}

#[test]
fn chunks_do_not_matter() {
    let response = pi_handler()(b"{}".to_vec());
    for chunk in 1..response.len() + 1 {
        let (events, finish) = recv_batch(response.clone(), chunk).unwrap();
        assert_eq!(events.len(), 4);
        assert_eq!(finish, Value::Null);
    }
}

#[test]
fn uri_is_base_and_endpoint() {
    let client = Client::new((), "http://127.0.0.1:8000".to_string());
    let head = client.start("/echo");
    assert_eq!(head.method, "POST");
    assert_eq!(head.uri, "http://127.0.0.1:8000/echo");
}

#[test]
fn only_known_endpoints_are_served() {
    let router = make_server();
    for (method, path, expected_status, expected_body) in [
        ("GET", "/add", 405, "only POST is allowed"),
        ("post", "/nowhere", 405, "only POST is allowed"),
        ("POST", "/nowhere", 404, "Unknown endpoint"),
        ("POST", "/ad", 404, "Unknown endpoint"),
        ("POST", "/add/", 404, "Unknown endpoint"),
        ("POST", "", 404, "Unknown endpoint"),
    ] {
        match router.call_inner(method, path) {
            Routed::Refused { status, body } => {
                assert_eq!(status, expected_status);
                assert_eq!(body, expected_body);
            }
            Routed::Accepted(_) => panic!("{} {} was accepted", method, path),
        }
    }
}

#[test]
fn routes_can_be_added_in_any_order() {
    let endpoints = ["/m", "/a", "/z", "/ab", "/", "/b"];
    for rotation in 0..endpoints.len() {
        let mut builder = RouterBuilder::default();
        for k in 0..endpoints.len() {
            let endpoint = endpoints[(k + rotation) % endpoints.len()];
            assert!(!builder.has_route(endpoint));
            builder.add_route(endpoint, endpoint);
            assert!(builder.has_route(endpoint));
        }
        let router = builder.build().as_make_service().call();
        for endpoint in endpoints {
            match router.call_inner("POST", endpoint) {
                Routed::Accepted(handler) => assert_eq!(*handler, endpoint),
                Routed::Refused { .. } => panic!("{} was refused", endpoint),
            }
        }
    }
}

#[test]
fn first_failure_ends_a_call() {
    let started = Call::<u8, u8, u8, u8>::Starting.step(CallEvent::Started(Err(1)));
    match started {
        Call::Finished(Err(err)) => {
            assert!(matches!(err, CallError::Transport(1)));
            assert_eq!(err.description(), "transport error");
        }
        _ => panic!("the call failed"),
    }
    match Call::<u8, u8, u8, u8>::Sending.step(CallEvent::Sent(Err(2))) {
        Call::Finished(Err(err)) => {
            assert!(matches!(err, CallError::Send(2)));
            assert_eq!(err.description(), "failed to send batch");
        }
        _ => panic!("the call failed"),
    }
    match Call::<u8, u8, u8, u8>::Receiving.step(CallEvent::Received(Err(3))) {
        Call::Finished(Err(err)) => {
            assert!(matches!(err, CallError::Recv(3)));
            assert_eq!(err.description(), "failed to receive batch");
        }
        _ => panic!("the call failed"),
    }
    match Call::<u8, u8, u8, u8>::Receiving.step(CallEvent::Received(Ok(4))) {
        Call::Finished(Ok(data)) => assert_eq!(data, 4),
        _ => panic!("the call succeeded"),
    }
}

#[test]
fn unary_errors_are_told_apart() {
    let err = UnaryTx::<Value>::new().send(Err(json_error())).unwrap_err();
    assert!(matches!(err, UnarySendError::Serialize(_)));
    assert_eq!(err.description(), "serialization failed");
    let err = UnaryTx::<Value>::sent(Err(hyper_error())).unwrap_err();
    assert!(matches!(err, UnarySendError::Network(_)));
    assert_eq!(err.description(), "data not sent to client");
    let err = UnaryRx::<Value>::body(Err(hyper_error())).unwrap_err();
    assert!(matches!(err, UnaryRecvError::Network(_)));
    assert_eq!(err.description(), "unable to read response");
    let err = UnaryRx::<Value>::new().recv(Err(json_error())).unwrap_err();
    assert!(matches!(err, UnaryRecvError::Deserialize(_)));
    assert_eq!(err.description(), "parsing failed");
}

#[test]
fn streaming_errors_are_told_apart() {
    let err = StreamingTx::<u8, u8>::priv_send(Err(json_error())).unwrap_err();
    assert!(matches!(err, SendError::Serialize(_)));
    assert_eq!(err.description(), "serialization failed");
    let err = StreamingTx::<u8, u8>::sent(Err(hyper_error())).unwrap_err();
    assert!(matches!(err, SendError::Network(_)));
    assert_eq!(err.description(), "data not sent to client");
    assert!(StreamingTx::<u8, u8>::sent(Ok(())).is_ok());
    let err = StreamingRx::<u8, u8>::text_of_line(vec![0xff, b'\n']).unwrap_err();
    match &err {
        RecvError::Io(io) => {
            assert_eq!(io.kind(), std::io::ErrorKind::InvalidData);
            assert_eq!(io.to_string(), "stream did not contain valid UTF-8");
        }
        _ => panic!("{:?}", err),
    }
    assert_eq!(err.description(), "io error");
    assert_eq!(RecvError::Network(hyper_error()).description(), "unable to read response");
    assert_eq!(RecvError::UnexpectedEof.description(), "unexpected EOF");
}

#[test]
fn stream_that_ends_early_cannot_be_parsed() {
    let mut response = pi_handler()(b"{}".to_vec());
    let err = recv_batch(Vec::new(), 1).unwrap_err();
    assert!(matches!(err, RecvError::Deserialize(_)));
    assert_eq!(err.description(), "parsing failed");
    // the end of the last line may be missing
    assert_eq!(response.pop(), Some(b'\n'));
    assert!(recv_batch(response.clone(), 7).is_ok());
    response.pop();
    assert!(recv_batch(response, 7).is_err());
}

#[test]
fn frame_is_the_message_and_a_line_end() {
    assert_eq!(StreamingTx::<u8, u8>::priv_send(Ok(b"{}".to_vec())).unwrap(), b"{}\n");
    assert_eq!(StreamingTx::<u8, u8>::priv_send(Ok(vec![])).unwrap(), b"\n");
}

#[test]
fn lines_are_read_back() {
    let mut rx = StreamingRx::<u8, u8>::new();
    assert_eq!(rx.next_line(), None);
    rx.feed(b"ab");
    assert_eq!(rx.next_line(), None);
    rx.feed(b"c\nde\n\nf");
    assert_eq!(rx.next_line().unwrap(), b"abc\n");
    assert_eq!(rx.next_line().unwrap(), b"de\n");
    assert_eq!(rx.next_line().unwrap(), b"\n");
    assert_eq!(rx.next_line(), None);
    rx.close();
    assert_eq!(rx.next_line().unwrap(), b"f");
    assert_eq!(rx.next_line().unwrap(), b"");
    let text = StreamingRx::<u8, u8>::text_of_line(" \u{e9}t\u{e9} \r\n".into()).unwrap();
    assert_eq!(text, "\u{e9}t\u{e9}");
}

#[test]
fn events_end_with_the_final_message() {
    let mut rx = StreamingRx::<u8, char>::new();
    assert_eq!(rx.next_event(Ok(Item::Event(1))).unwrap(), Some(1));
    assert!(!rx.is_finished());
    assert!(rx.next_event(Err(RecvError::UnexpectedEof)).is_err());
    assert_eq!(rx.next_event(Ok(Item::Finish('z'))).unwrap(), None);
    assert!(rx.is_finished());
    assert_eq!(rx.next_event(Ok(Item::Event(2))).unwrap(), None);
    assert_eq!(rx.next_event(Ok(Item::Finish('y'))).unwrap(), None);
    assert_eq!(rx.finish(), Some('z'));
    assert_eq!(StreamingRx::<u8, char>::new().finish(), None);
}

#[test]
fn batch_is_received_as_it_was_sent() {
    let mut sending = BatchTx::new(StreamingTx::<u8, char>::new(), 'f');
    let mut receiving = BatchRx::new();
    let mut events = vec![1, 2, 3].into_iter();
    let received = loop {
        match receiving.push(sending.next_item(events.next()).unwrap()) {
            Batch::More(more) => receiving = more,
            Batch::Done(events, finish) => break (events, finish),
        }
    };
    assert_eq!(received, (vec![1, 2, 3], 'f'));
    assert!(sending.next_item(None).is_none());
    assert!(sending.next_item(Some(4)).is_none());
}

#[test]
fn items_are_received_line_by_line() {
    let mut rx = StreamingRx::<Value, Value>::new();
    assert!(rx.recv_next_item(value_to_item).is_none());
    rx.feed(b" {\"Event\": 1} \r\n{\"Finish\": 2}");
    match rx.recv_next_item(value_to_item) {
        Some(Ok(Item::Event(event))) => assert_eq!(event, Value::from(1)),
        _ => panic!("an event was expected"),
    }
    assert!(rx.recv_next_item(value_to_item).is_none());
    rx.feed(b"\n\xff\n");
    match rx.recv_next_item(value_to_item) {
        Some(Ok(Item::Finish(finish))) => assert_eq!(finish, Value::from(2)),
        _ => panic!("the final message was expected"),
    }
    assert!(matches!(rx.recv_next_item(value_to_item), Some(Err(RecvError::Io(_)))));
    rx.close();
    assert!(matches!(rx.recv_next_item(value_to_item), Some(Err(RecvError::Deserialize(_)))));
}
