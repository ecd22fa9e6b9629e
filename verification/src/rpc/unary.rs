//! Unary side: only one message is passed in this direction.
use std::marker::PhantomData;
use vstd::prelude::*;

verus! {

/// Unary transmitter
pub struct UnaryTx<M> {
    phantom: PhantomData<M>,
}

/// Why a message was not sent.
#[derive(Debug)]
pub enum SendError {
    /// It could not be serialized.
    Serialize(serde_json::Error),
    /// It could not be transferred.
    Network(hyper::Error),
}

impl SendError {
    /// What failed, in words.
    pub fn description(&self) -> (text: &'static str)
        ensures
            text@ == match self {
                SendError::Serialize(_) => "serialization failed"@,
                SendError::Network(_) => "data not sent to client"@,
            },
    {
        match self {
            SendError::Serialize(_) => "serialization failed",
            SendError::Network(_) => "data not sent to client",
        }
    }
}

impl<M> UnaryTx<M> {
    /// A transmitter that has sent nothing yet.
    pub fn new() -> (tx: Self) {
        UnaryTx { phantom: PhantomData }
    }

    /// Sends message to the server: given the outcome of serializing it, says
    /// what bytes are written. They are all that is written.
    /// Consumes transmitter because multiple messages are not allowed
    /// by Unary direction.
    pub fn send(self, serialized: Result<Vec<u8>, serde_json::Error>) -> (data: Result<
        Vec<u8>,
        SendError,
    >)
        ensures
            data == match serialized {
                Ok(message) => Ok::<Vec<u8>, SendError>(message),
                Err(err) => Err(SendError::Serialize(err)),
            },
    {
        match serialized {
            Ok(message) => Ok(message),
            Err(err) => Err(SendError::Serialize(err)),
        }
    }

    /// What the outcome of writing the bytes means to the sender.
    pub fn sent(written: Result<(), hyper::Error>) -> (outcome: Result<(), SendError>)
        ensures
            outcome == match written {
                Ok(()) => Ok::<(), SendError>(()),
                Err(err) => Err(SendError::Network(err)),
            },
    {
        match written {
            Ok(()) => Ok(()),
            Err(err) => Err(SendError::Network(err)),
        }
    }
}

/// Unary receiver
pub struct UnaryRx<M> {
    phantom: PhantomData<M>,
}

/// Why no message was received.
#[derive(Debug)]
pub enum RecvError {
    /// It could not be transferred.
    Network(hyper::Error),
    /// It could not be parsed.
    Deserialize(serde_json::Error),
}

impl RecvError {
    /// What failed, in words.
    pub fn description(&self) -> (text: &'static str)
        ensures
            text@ == match self {
                RecvError::Network(_) => "unable to read response"@,
                RecvError::Deserialize(_) => "parsing failed"@,
            },
    {
        match self {
            RecvError::Network(_) => "unable to read response",
            RecvError::Deserialize(_) => "parsing failed",
        }
    }
}

impl<M> UnaryRx<M> {
    /// A receiver that has received nothing yet.
    pub fn new() -> (rx: Self) {
        UnaryRx { phantom: PhantomData }
    }

    /// Given the outcome of reading the whole body, says what is to be parsed.
    pub fn body(read: Result<Vec<u8>, hyper::Error>) -> (data: Result<Vec<u8>, RecvError>)
        ensures
            data == match read {
                Ok(body) => Ok::<Vec<u8>, RecvError>(body),
                Err(err) => Err(RecvError::Network(err)),
            },
    {
        match read {
            Ok(body) => Ok(body),
            Err(err) => Err(RecvError::Network(err)),
        }
    }

    /// Receives value, passed by client, given the outcome of parsing the body.
    /// Consumes receiver because only one message could be sent.
    pub fn recv(self, parsed: Result<M, serde_json::Error>) -> (message: Result<M, RecvError>)
        ensures
            message == match parsed {
                Ok(value) => Ok::<M, RecvError>(value),
                Err(err) => Err(RecvError::Deserialize(err)),
            },
    {
        match parsed {
            Ok(value) => Ok(value),
            Err(err) => Err(RecvError::Deserialize(err)),
        }
    }
}

} // verus!
