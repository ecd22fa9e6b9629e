//! Calling remote endpoints.
use vstd::prelude::*;
use vstd::string::*;

verus! {

/// RPC Client. `Engine` is something that can actually send requests to the
/// RPC server.
#[derive(Clone)]
pub struct Client<Engine> {
    /// What sends the requests.
    pub engine: Engine,
    /// Where the server is.
    pub base: String,
}

/// What a request says before its body.
pub struct RequestHead {
    /// HTTP method.
    pub method: &'static str,
    /// Where the request goes.
    pub uri: String,
}

impl<E> Client<E> {
    /// Constructs new client from the given engine and base url.
    /// Base usually should not end with '/'.
    /// All requests will be sent to the base followed by the route's endpoint.
    pub fn new(engine: E, base: String) -> (client: Self)
        ensures
            client.engine == engine,
            client.base == base,
    {
        Client { engine, base }
    }

    /// Starts new RPC call: says what request it takes.
    pub fn start(&self, endpoint: &str) -> (head: RequestHead)
        ensures
            head.method@ == "POST"@,
            head.uri@ == self.base@ + endpoint@,
    {
        let mut uri: String = self.base.clone();
        uri.append(endpoint);
        RequestHead { method: "POST", uri }
    }
}

/// Why a call failed.
#[derive(Debug)]
pub enum CallError<TransportError, RecvBatchError, SendBatchError> {
    Transport(TransportError),
    Recv(RecvBatchError),
    Send(SendBatchError),
}

impl<TE, RE, SE> CallError<TE, RE, SE> {
    /// What failed, in words.
    pub fn description(&self) -> (text: &'static str)
        ensures
            text@ == match self {
                CallError::Transport(_) => "transport error"@,
                CallError::Send(_) => "failed to send batch"@,
                CallError::Recv(_) => "failed to receive batch"@,
            },
    {
        match self {
            CallError::Transport(_) => "transport error",
            CallError::Send(_) => "failed to send batch",
            CallError::Recv(_) => "failed to receive batch",
        }
    }
}

/// How far a call has come that writes all request messages upfront and then
/// reads the response.
pub enum Call<D, TE, RE, SE> {
    /// The request is to be sent.
    Starting,
    /// The messages are to be written.
    Sending,
    /// The response is to be read.
    Receiving,
    /// The call is over.
    Finished(Result<D, CallError<TE, RE, SE>>),
}

/// What happened to a call.
pub enum CallEvent<D, TE, RE, SE> {
    /// The engine answered.
    Started(Result<(), TE>),
    /// The messages were written, or not.
    Sent(Result<(), SE>),
    /// The response was read, or not.
    Received(Result<D, RE>),
}

impl<D, TE, RE, SE> Call<D, TE, RE, SE> {
    /// Whether the event can happen at this point.
    pub open spec fn expects(self, event: CallEvent<D, TE, RE, SE>) -> bool {
        match event {
            CallEvent::Started(_) => self is Starting,
            CallEvent::Sent(_) => self is Sending,
            CallEvent::Received(_) => self is Receiving,
        }
    }

    /// Where the call stands after an event.
    pub open spec fn after(event: CallEvent<D, TE, RE, SE>) -> Self {
        match event {
            CallEvent::Started(Ok(())) => Call::Sending,
            CallEvent::Started(Err(err)) => Call::Finished(Err(CallError::Transport(err))),
            CallEvent::Sent(Ok(())) => Call::Receiving,
            CallEvent::Sent(Err(err)) => Call::Finished(Err(CallError::Send(err))),
            CallEvent::Received(Ok(data)) => Call::Finished(Ok(data)),
            CallEvent::Received(Err(err)) => Call::Finished(Err(CallError::Recv(err))),
        }
    }

    /// Takes note of an event.
    pub fn step(self, event: CallEvent<D, TE, RE, SE>) -> (next: Self)
        requires
            self.expects(event),
        ensures
            next == Self::after(event),
    {
        match event {
            CallEvent::Started(Ok(())) => Call::Sending,
            CallEvent::Started(Err(err)) => Call::Finished(Err(CallError::Transport(err))),
            CallEvent::Sent(Ok(())) => Call::Receiving,
            CallEvent::Sent(Err(err)) => Call::Finished(Err(CallError::Send(err))),
            CallEvent::Received(Ok(data)) => Call::Finished(Ok(data)),
            CallEvent::Received(Err(err)) => Call::Finished(Err(CallError::Recv(err))),
        }
    }
}

/// What a call comes to, given how each of its parts went: the first part that
/// failed decides.
pub open spec fn call_outcome<D, TE, RE, SE>(
    started: Result<(), TE>,
    sent: Result<(), SE>,
    received: Result<D, RE>,
) -> Result<D, CallError<TE, RE, SE>> {
    if started is Err {
        Err(CallError::Transport(started->Err_0))
    } else if sent is Err {
        Err(CallError::Send(sent->Err_0))
    } else if received is Err {
        Err(CallError::Recv(received->Err_0))
    } else {
        Ok(received->Ok_0)
    }
}

/// Where a call stands after those of the given events that can still happen to it.
pub open spec fn run_call<D, TE, RE, SE>(
    events: Seq<CallEvent<D, TE, RE, SE>>,
) -> Call<D, TE, RE, SE>
    decreases events.len(),
{
    if events.len() == 0 {
        Call::Starting
    } else {
        let before = run_call(events.drop_last());
        if before.expects(events.last()) {
            Call::after(events.last())
        } else {
            before
        }
    }
}

/// A call that is stepped from its start is over after at most three events,
/// with the outcome that the first failure among them dictates.
pub proof fn law_call_ends_with_first_failure<D, TE, RE, SE>(
    started: Result<(), TE>,
    sent: Result<(), SE>,
    received: Result<D, RE>,
)
    ensures
        run_call(
            seq![
                CallEvent::Started(started),
                CallEvent::Sent(sent),
                CallEvent::Received(received),
            ],
        ) == Call::Finished(call_outcome(started, sent, received)),
{
    let events: Seq<CallEvent<D, TE, RE, SE>> = seq![
        CallEvent::Started(started),
        CallEvent::Sent(sent),
        CallEvent::Received(received),
    ];
    assert(events.drop_last().drop_last().drop_last() =~= Seq::empty());
    reveal_with_fuel(run_call, 4);
}

/// A call is over after an event exactly if the event is a failure or the response,
/// and what it comes to is that failure, of that part, or the response. Otherwise
/// the next part is due.
pub proof fn law_events_decide<D, TE, RE, SE>(
    transport: TE,
    send: SE,
    recv: RE,
    data: D,
)
    ensures
        Call::<D, TE, RE, SE>::after(CallEvent::Started(Err(transport))) == Call::<D, TE, RE, SE>::Finished(
            Err(CallError::<TE, RE, SE>::Transport(transport)),
        ),
        Call::<D, TE, RE, SE>::after(CallEvent::Sent(Err(send))) == Call::<D, TE, RE, SE>::Finished(
            Err(CallError::<TE, RE, SE>::Send(send)),
        ),
        Call::<D, TE, RE, SE>::after(CallEvent::Received(Err(recv))) == Call::<D, TE, RE, SE>::Finished(
            Err(CallError::<TE, RE, SE>::Recv(recv)),
        ),
        Call::<D, TE, RE, SE>::after(CallEvent::Received(Ok(data))) == Call::<D, TE, RE, SE>::Finished(
            Ok::<D, CallError<TE, RE, SE>>(data),
        ),
        Call::<D, TE, RE, SE>::after(CallEvent::Started(Ok(()))) is Sending,
        Call::<D, TE, RE, SE>::after(CallEvent::Sent(Ok(()))) is Receiving,
{
}

/// Every call that is not over expects to hear of the part that is due, whatever
/// comes of it, and of nothing else.
pub proof fn law_calls_expect_what_is_due<D, TE, RE, SE>(
    started: Result<(), TE>,
    sent: Result<(), SE>,
    received: Result<D, RE>,
)
    ensures
        Call::<D, TE, RE, SE>::Starting.expects(CallEvent::Started(started)),
        Call::<D, TE, RE, SE>::Sending.expects(CallEvent::Sent(sent)),
        Call::<D, TE, RE, SE>::Receiving.expects(CallEvent::Received(received)),
        !Call::<D, TE, RE, SE>::Starting.expects(CallEvent::Sent(sent)),
        !Call::<D, TE, RE, SE>::Starting.expects(CallEvent::Received(received)),
        !Call::<D, TE, RE, SE>::Sending.expects(CallEvent::Started(started)),
        !Call::<D, TE, RE, SE>::Sending.expects(CallEvent::Received(received)),
        !Call::<D, TE, RE, SE>::Receiving.expects(CallEvent::Started(started)),
        !Call::<D, TE, RE, SE>::Receiving.expects(CallEvent::Sent(sent)),
{
}

} // verus!
