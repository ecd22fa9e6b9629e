//! Streaming side: zero or more events can be passed in this direction,
//! terminated by a final message.
//!
//! The stream of bytes consists of serialized [`Item`]s, one per line.
use std::marker::PhantomData;
use vstd::prelude::*;
use vstd::utf8::*;

use crate::text;

verus! {

/// What is passed: bytes stream will consist of oneline-serialized `Item`s.
pub enum Item<E, F> {
    /// One more event.
    Event(E),
    /// The final message.
    Finish(F),
}

/// Why an item was not sent.
#[derive(Debug)]
pub enum SendError {
    /// It could not be serialized.
    Serialize(serde_json::Error),
    /// It could not be transferred.
    Network(hyper::Error),
}

impl SendError {
    /// What failed, in words.
    pub fn description(&self) -> (text: &'static str)
        ensures
            text@ == match self {
                SendError::Serialize(_) => "serialization failed"@,
                SendError::Network(_) => "data not sent to client"@,
            },
    {
        match self {
            SendError::Serialize(_) => "serialization failed",
            SendError::Network(_) => "data not sent to client",
        }
    }
}

/// What ends a line.
pub const NEWLINE: u8 = 10;

/// The bytes that pass one serialized item.
pub open spec fn frame(message: Seq<u8>) -> Seq<u8> {
    message.push(NEWLINE)
}

/// The bytes that pass several serialized items, one after the other.
pub open spec fn frames(messages: Seq<Seq<u8>>) -> Seq<u8>
    decreases messages.len(),
{
    if messages.len() == 0 {
        Seq::empty()
    } else {
        frame(messages.first()) + frames(messages.drop_first())
    }
}

/// Streaming transmitter
pub struct StreamingTx<E, F> {
    phantom: PhantomData<(E, F)>,
}

impl<E, F> StreamingTx<E, F> {
    /// A transmitter that has sent nothing yet.
    pub fn new() -> (tx: Self) {
        StreamingTx { phantom: PhantomData }
    }

    /// Given the outcome of serializing an item, says what bytes are written.
    pub fn priv_send(serialized: Result<Vec<u8>, serde_json::Error>) -> (data: Result<
        Vec<u8>,
        SendError,
    >)
        ensures
            match serialized {
                Ok(message) => data matches Ok(bytes) && bytes@ == frame(message@),
                Err(err) => data == Err::<Vec<u8>, SendError>(SendError::Serialize(err)),
            },
    {
        match serialized {
            Ok(message) => {
                let mut bytes: Vec<u8> = message;
                bytes.push(NEWLINE);
                Ok(bytes)
            },
            Err(err) => Err(SendError::Serialize(err)),
        }
    }

    /// What the outcome of writing the bytes means to the sender.
    pub fn sent(written: Result<(), hyper::Error>) -> (outcome: Result<(), SendError>)
        ensures
            outcome == match written {
                Ok(()) => Ok::<(), SendError>(()),
                Err(err) => Err(SendError::Network(err)),
            },
    {
        match written {
            Ok(()) => Ok(()),
            Err(err) => Err(SendError::Network(err)),
        }
    }

    /// Sends event: says what item passes it.
    pub fn send_event(&mut self, event: E) -> (item: Item<E, F>)
        ensures
            item == Item::<E, F>::Event(event),
    {
        Item::Event(event)
    }

    /// Sends final message: says what item passes it.
    /// Consumes transmitter because further messages are not allowed.
    pub fn finish(self, finish: F) -> (item: Item<E, F>)
        ensures
            item == Item::<E, F>::Finish(finish),
    {
        Item::Finish(finish)
    }
}

/// What is passed next: an event if there is one, and `finish` otherwise.
pub open spec fn batch_item<E, F>(event: Option<E>, finish: F) -> Item<E, F> {
    match event {
        Some(event) => Item::Event(event),
        None => Item::Finish(finish),
    }
}

/// What is passed for the given events, if they are all and `finish` comes last.
pub open spec fn batch_items<E, F>(events: Seq<E>, finish: F) -> Seq<Item<E, F>> {
    events.map_values(|event: E| batch_item(Some(event), finish)).push(batch_item(None, finish))
}

/// Sending of a whole batch.
pub struct BatchTx<E, F> {
    tx: Option<(StreamingTx<E, F>, F)>,
}

impl<E, F> BatchTx<E, F> {
    /// The final message, unless it was sent.
    pub closed spec fn finish(self) -> Option<F> {
        match self.tx {
            Some((_, finish)) => Some(finish),
            None => None,
        }
    }

    /// Nothing was sent yet, and `finish` will be sent last.
    pub fn new(tx: StreamingTx<E, F>, finish: F) -> (batch: Self)
        ensures
            batch.finish() == Some(finish),
    {
        BatchTx { tx: Some((tx, finish)) }
    }

    /// Says what to send next, given the next event of the batch, if there is one.
    /// Returns `None` once everything was sent.
    pub fn next_item(&mut self, event: Option<E>) -> (item: Option<Item<E, F>>)
        ensures
            item == match old(self).finish() {
                Some(finish) => Some(batch_item(event, finish)),
                None => None,
            },
            final(self).finish() == if event is None {
                None
            } else {
                old(self).finish()
            },
    {
        let mut tx: Option<(StreamingTx<E, F>, F)> = None;
        std::mem::swap(&mut tx, &mut self.tx);
        match (tx, event) {
            (Some((mut tx, finish)), Some(event)) => {
                let item = tx.send_event(event);
                self.tx = Some((tx, finish));
                Some(item)
            },
            (Some((tx, finish)), None) => Some(tx.finish(finish)),
            (None, _) => None,
        }
    }
}

/// Why an item was not received.
#[derive(Debug)]
pub enum RecvError {
    /// It could not be transferred.
    Network(hyper::Error),
    /// It could not be read.
    Io(std::io::Error),
    /// It could not be parsed.
    Deserialize(serde_json::Error),
    /// There was nothing more.
    UnexpectedEof,
}

impl RecvError {
    /// What failed, in words.
    pub fn description(&self) -> (text: &'static str)
        ensures
            text@ == match self {
                RecvError::Network(_) => "unable to read response"@,
                RecvError::Io(_) => "io error"@,
                RecvError::Deserialize(_) => "parsing failed"@,
                RecvError::UnexpectedEof => "unexpected EOF"@,
            },
    {
        match self {
            RecvError::Network(_) => "unable to read response",
            RecvError::Io(_) => "io error",
            RecvError::Deserialize(_) => "parsing failed",
            RecvError::UnexpectedEof => "unexpected EOF",
        }
    }
}

/// The error that `std::io::Error::new` makes of the kind
/// `std::io::ErrorKind::InvalidData` and a message.
pub uninterp spec fn invalid_data_error(message: Seq<char>) -> std::io::Error;

/// Calls `std::io::Error::new` for `std::io::ErrorKind::InvalidData`. The error
/// depends on the message alone.
#[verifier::external_body]
fn invalid_data(message: &str) -> (err: std::io::Error)
    ensures
        err == invalid_data_error(message@),
{
    std::io::Error::new(std::io::ErrorKind::InvalidData, message)
}

/// How a line that is not UTF-8 is reported.
pub open spec fn not_utf8() -> std::io::Error {
    invalid_data_error("stream did not contain valid UTF-8"@)
}

/// How long the first line is, with its end. Everything is one line if no line ends.
pub open spec fn line_len(bytes: Seq<u8>) -> nat
    decreases bytes.len(),
{
    if bytes.len() == 0 {
        0
    } else if bytes[0] == NEWLINE {
        1
    } else {
        1 + line_len(bytes.drop_first())
    }
}

/// A text without the white space at its ends.
pub open spec fn trimmed(text: Seq<char>) -> Seq<char> {
    text::trim_end(text::trim_start(text))
}

/// The text of a line: `None` if it is not UTF-8.
pub open spec fn line_text(line: Seq<u8>) -> Option<Seq<char>> {
    if valid_utf8(line) {
        Some(trimmed(decode_utf8(line)))
    } else {
        None
    }
}

/// Whether the next line can be taken: it has an end, or the stream has.
pub open spec fn has_line(buffer: Seq<u8>, closed: bool) -> bool {
    buffer.contains(NEWLINE) || closed
}

/// Whether `item` can be what a line is received as, if its text is parsed with `parse`.
pub open spec fn item_of_line<E, F, P: Fn(String) -> Result<Item<E, F>, serde_json::Error>>(
    line: Seq<u8>,
    parse: P,
    item: Result<Item<E, F>, RecvError>,
) -> bool {
    match line_text(line) {
        Some(text) => exists|t: String, parsed: Result<Item<E, F>, serde_json::Error>|
            {
                &&& t@ == text
                &&& #[trigger] parse.ensures((t,), parsed)
                &&& item == match parsed {
                    Ok(item) => Ok::<Item<E, F>, RecvError>(item),
                    Err(err) => Err(RecvError::Deserialize(err)),
                }
            },
        None => item == Err::<Item<E, F>, RecvError>(RecvError::Io(not_utf8())),
    }
}

/// Streaming receiver
pub struct StreamingRx<E, F> {
    phantom: PhantomData<E>,
    /// What was read and not yet used.
    buffer: Vec<u8>,
    /// Whether everything was read.
    closed: bool,
    /// The final message, once it was received.
    finish: Option<F>,
}

impl<E, F> StreamingRx<E, F> {
    /// What was read and not yet used.
    pub closed spec fn buffer(self) -> Seq<u8> {
        self.buffer@
    }

    /// Whether everything was read.
    pub closed spec fn closed(self) -> bool {
        self.closed
    }

    /// The final message, once it was received.
    pub closed spec fn received_finish(self) -> Option<F> {
        self.finish
    }

    /// A receiver that has received nothing yet.
    pub fn new() -> (rx: Self)
        ensures
            rx.buffer() == Seq::<u8>::empty(),
            !rx.closed(),
            rx.received_finish() is None,
    {
        StreamingRx { phantom: PhantomData, buffer: Vec::new(), closed: false, finish: None }
    }

    /// Takes note of bytes that were read.
    pub fn feed(&mut self, chunk: &[u8])
        ensures
            final(self).buffer() == old(self).buffer() + chunk@,
            final(self).closed() == old(self).closed(),
            final(self).received_finish() == old(self).received_finish(),
    {
        let ghost before = self.buffer@;
        self.buffer.extend_from_slice(chunk);
        assert(self.buffer@ =~= before + chunk@);
    }

    /// Takes note that there is nothing more to be read.
    pub fn close(&mut self)
        ensures
            final(self).buffer() == old(self).buffer(),
            final(self).closed(),
            final(self).received_finish() == old(self).received_finish(),
    {
        self.closed = true;
    }

    /// Takes the next line. At the end of the stream that is whatever is left,
    /// be it empty. Returns `None` if more has to be read first.
    pub fn next_line(&mut self) -> (line: Option<Vec<u8>>)
        ensures
            final(self).closed() == old(self).closed(),
            final(self).received_finish() == old(self).received_finish(),
            match line {
                Some(line) => {
                    let len = line_len(old(self).buffer()) as int;
                    &&& old(self).buffer().contains(NEWLINE) || old(self).closed()
                    &&& line@ == old(self).buffer().take(len)
                    &&& final(self).buffer() == old(self).buffer().skip(len)
                },
                None => {
                    &&& !old(self).buffer().contains(NEWLINE) && !old(self).closed()
                    &&& final(self).buffer() == old(self).buffer()
                },
            },
    {
        let ghost all = self.buffer@;
        let mut i: usize = 0;
        assert(all.skip(0) =~= all);
        while i < self.buffer.len() && self.buffer[i] != NEWLINE
            invariant
                self.buffer@ == all,
                i <= all.len(),
                line_len(all) == i + line_len(all.skip(i as int)),
                !all.take(i as int).contains(NEWLINE),
            decreases all.len() - i,
        {
            proof {
                assert(all.skip(i as int).drop_first() =~= all.skip(i + 1));
                assert(all.take(i + 1) =~= all.take(i as int).push(all[i as int]));
                if all.take(i + 1).contains(NEWLINE) {
                    let k = all.take(i + 1).index_of(NEWLINE);
                    assert(k < i ==> all.take(i as int)[k] == NEWLINE);
                }
            }
            i = i + 1;
        }
        if i < self.buffer.len() {
            assert(all[i as int] == NEWLINE);
            i = i + 1;
        } else {
            assert(all.take(i as int) =~= all);
            if !self.closed {
                return None;
            }
        }
        let mut rest: Vec<u8> = self.buffer.split_off(i);
        std::mem::swap(&mut rest, &mut self.buffer);
        Some(rest)
    }

    /// The text of a line, without the white space at its ends: what is to be parsed.
    pub fn text_of_line(line: Vec<u8>) -> (text: Result<String, RecvError>)
        ensures
            match line_text(line@) {
                Some(expected) => text matches Ok(actual) && actual@ == expected,
                None => text == Err::<String, RecvError>(RecvError::Io(not_utf8())),
            },
    {
        let ghost bytes = line@;
        match text::from_utf8(line) {
            Some(text) => {
                proof {
                    encode_utf8_decode_utf8(text@);
                }
                Ok(text::trim(text.as_str()).to_owned())
            },
            None => Err(RecvError::Io(invalid_data("stream did not contain valid UTF-8"))),
        }
    }

    /// Receives the next item. `parse` parses the text of a line, without the
    /// white space at its ends. Returns `None` if more has to be read first.
    pub fn recv_next_item<P: Fn(String) -> Result<Item<E, F>, serde_json::Error>>(
        &mut self,
        parse: P,
    ) -> (item: Option<Result<Item<E, F>, RecvError>>)
        requires
            forall|text: String| #[trigger] parse.requires((text,)),
        ensures
            final(self).closed() == old(self).closed(),
            final(self).received_finish() == old(self).received_finish(),
            item is None <==> !has_line(old(self).buffer(), old(self).closed()),
            final(self).buffer() == if item is None {
                old(self).buffer()
            } else {
                old(self).buffer().skip(line_len(old(self).buffer()) as int)
            },
            item matches Some(item) ==> item_of_line(
                old(self).buffer().take(line_len(old(self).buffer()) as int),
                parse,
                item,
            ),
    {
        let line = match self.next_line() {
            Some(line) => line,
            None => {
                return None;
            },
        };
        match Self::text_of_line(line) {
            Ok(text) => match parse(text) {
                Ok(item) => Some(Ok(item)),
                Err(err) => Some(Err(RecvError::Deserialize(err))),
            },
            Err(err) => Some(Err(err)),
        }
    }

    /// One round of receiving a whole batch: receives the next item and adds it to
    /// the batch, unless more has to be read first.
    pub fn recv_batch<P: Fn(String) -> Result<Item<E, F>, serde_json::Error>>(
        &mut self,
        batch: BatchRx<E>,
        parse: P,
    ) -> (outcome: Round<E, F>)
        requires
            forall|text: String| #[trigger] parse.requires((text,)),
        ensures
            final(self).closed() == old(self).closed(),
            final(self).received_finish() == old(self).received_finish(),
            match outcome {
                Round::NeedsMore(same) => {
                    &&& !has_line(old(self).buffer(), old(self).closed())
                    &&& same == batch
                    &&& final(self).buffer() == old(self).buffer()
                },
                Round::Received(received) => {
                    let len = line_len(old(self).buffer()) as int;
                    &&& has_line(old(self).buffer(), old(self).closed())
                    &&& final(self).buffer() == old(self).buffer().skip(len)
                    &&& match received {
                        Ok(more) => exists|item: Item<E, F>|
                            {
                                &&& #[trigger] item_of_line(
                                    old(self).buffer().take(len),
                                    parse,
                                    Ok(item),
                                )
                                &&& more@ == batch_step((batch.events@, None::<F>), item)
                            },
                        Err(err) => item_of_line(old(self).buffer().take(len), parse, Err(err)),
                    }
                },
            },
    {
        match self.recv_next_item(parse) {
            Some(Ok(item)) => Round::Received(Ok(batch.push(item))),
            Some(Err(err)) => Round::Received(Err(err)),
            None => Round::NeedsMore(batch),
        }
    }

    /// Whether the final message was received, so that there is nothing left to read.
    pub fn is_finished(&self) -> (finished: bool)
        ensures
            finished == self.received_finish() is Some,
    {
        self.finish.is_some()
    }

    /// Receives and returns next event, given the next item.
    /// If next message in fact is Finish, returns None.
    /// In that case, use `finish` method to receive it.
    /// After that, `item` does not matter: there are no more events.
    pub fn next_event(&mut self, item: Result<Item<E, F>, RecvError>) -> (event: Result<
        Option<E>,
        RecvError,
    >)
        ensures
            final(self).buffer() == old(self).buffer(),
            final(self).closed() == old(self).closed(),
            event == if old(self).received_finish() is Some {
                Ok::<Option<E>, RecvError>(None)
            } else {
                match item {
                    Ok(Item::Event(ev)) => Ok(Some(ev)),
                    Ok(Item::Finish(_)) => Ok(None),
                    Err(err) => Err(err),
                }
            },
            final(self).received_finish() == match (old(self).received_finish(), item) {
                (None, Ok(Item::Finish(fin))) => Some(fin),
                (received, _) => received,
            },
    {
        if self.finish.is_some() {
            // provide fuse semantics
            return Ok(None);
        }
        match item {
            Ok(Item::Event(ev)) => Ok(Some(ev)),
            Ok(Item::Finish(fin)) => {
                self.finish = Some(fin);
                Ok(None)
            },
            Err(err) => Err(err),
        }
    }

    /// The final message, if it was received.
    /// Consumes receiver because there is nothing more to receive.
    pub fn finish(self) -> (finish: Option<F>)
        ensures
            finish == self.received_finish(),
    {
        self.finish
    }
}

/// Receiving of a whole batch.
pub struct BatchRx<E> {
    /// The events received so far.
    pub events: Vec<E>,
}

/// How far the receiving of a batch has come.
pub enum Batch<E, F> {
    /// There is more to receive.
    More(BatchRx<E>),
    /// The final message was received.
    Done(Vec<E>, F),
}

/// What one round of receiving a batch comes to.
pub enum Round<E, F> {
    /// More has to be read before this can go on.
    NeedsMore(BatchRx<E>),
    /// There was one more item, or what should have been one.
    Received(Result<Batch<E, F>, RecvError>),
}

impl<E, F> Batch<E, F> {
    /// The events received so far, and the final message once it was received.
    pub open spec fn view(self) -> (Seq<E>, Option<F>) {
        match self {
            Batch::More(more) => (more.events@, None),
            Batch::Done(events, finish) => (events@, Some(finish)),
        }
    }
}

/// What a batch amounts to after one more item. Nothing counts after the final message.
pub open spec fn batch_step<E, F>(received: (Seq<E>, Option<F>), item: Item<E, F>) -> (
    Seq<E>,
    Option<F>,
) {
    match (received.1, item) {
        (Some(_), _) => received,
        (None, Item::Event(ev)) => (received.0.push(ev), None),
        (None, Item::Finish(fin)) => (received.0, Some(fin)),
    }
}

impl<E> BatchRx<E> {
    /// Nothing was received yet.
    pub fn new() -> (batch: Self)
        ensures
            batch.events@ == Seq::<E>::empty(),
    {
        BatchRx { events: Vec::new() }
    }

    /// Takes note of one more item.
    pub fn push<F>(self, item: Item<E, F>) -> (batch: Batch<E, F>)
        ensures
            batch@ == batch_step((self.events@, None::<F>), item),
    {
        match item {
            Item::Event(ev) => {
                let mut events: Vec<E> = self.events;
                events.push(ev);
                Batch::More(BatchRx { events })
            },
            Item::Finish(fin) => Batch::Done(self.events, fin),
        }
    }
}

proof fn lemma_first_line(message: Seq<u8>, rest: Seq<u8>)
    requires
        !message.contains(NEWLINE),
    ensures
        line_len(frame(message) + rest) == message.len() + 1,
    decreases message.len(),
{
    let all = frame(message) + rest;
    if message.len() > 0 {
        assert(message[0] != NEWLINE);
        let shorter = message.drop_first();
        assert forall|k: int| 0 <= k < shorter.len() implies shorter[k] != NEWLINE by {
            assert(message[k + 1] == shorter[k]);
        }
        assert(all.drop_first() =~= frame(shorter) + rest);
        lemma_first_line(shorter, rest);
    }
}

proof fn lemma_line_len(bytes: Seq<u8>, more: Seq<u8>)
    ensures
        line_len(bytes) <= bytes.len(),
        bytes.len() > 0 ==> line_len(bytes) > 0,
        bytes.contains(NEWLINE) ==> line_len(bytes + more) == line_len(bytes),
    decreases bytes.len(),
{
    if bytes.len() > 0 && bytes[0] != NEWLINE {
        let rest = bytes.drop_first();
        lemma_line_len(rest, more);
        assert((bytes + more).drop_first() =~= rest + more);
        if bytes.contains(NEWLINE) {
            let k = bytes.index_of(NEWLINE);
            assert(rest[k - 1] == NEWLINE);
        }
    }
}

/// A line is the same however the bytes were cut into chunks: once its end is
/// there, what is read later neither changes it nor is lost.
pub proof fn law_lines_do_not_depend_on_chunks(buffer: Seq<u8>, more: Seq<u8>)
    requires
        buffer.contains(NEWLINE),
    ensures
        line_len(buffer + more) == line_len(buffer),
        (buffer + more).take(line_len(buffer) as int) == buffer.take(line_len(buffer) as int),
        (buffer + more).skip(line_len(buffer) as int) == buffer.skip(line_len(buffer) as int)
            + more,
{
    lemma_line_len(buffer, more);
    let len = line_len(buffer) as int;
    assert((buffer + more).take(len) =~= buffer.take(len));
    assert((buffer + more).skip(len) =~= buffer.skip(len) + more);
}

/// All lines of a stream, each with its end.
pub open spec fn lines(bytes: Seq<u8>) -> Seq<Seq<u8>>
    decreases bytes.len(),
{
    let len = line_len(bytes) as int;
    if 0 < len <= bytes.len() {
        seq![bytes.take(len)] + lines(bytes.skip(len))
    } else {
        Seq::empty()
    }
}

/// The lines of a stream are the serialized items that were written to it, in
/// order, if none of them holds a line end.
pub proof fn law_lines_are_the_items(messages: Seq<Seq<u8>>)
    requires
        forall|i: int| 0 <= i < messages.len() ==> !(#[trigger] messages[i]).contains(NEWLINE),
    ensures
        lines(frames(messages)) == messages.map_values(|message: Seq<u8>| frame(message)),
    decreases messages.len(),
{
    let stream = frames(messages);
    lemma_line_len(stream, Seq::empty());
    let expected = messages.map_values(|message: Seq<u8>| frame(message));
    if messages.len() == 0 {
        assert(expected =~= Seq::empty());
    } else {
        let others = messages.drop_first();
        assert(messages[0] == messages.first());
        assert forall|i: int| 0 <= i < others.len() implies !(#[trigger] others[i]).contains(
            NEWLINE,
        ) by {
            assert(others[i] == messages[i + 1]);
        }
        law_lines_are_the_items(others);
        law_frames_are_read_back(messages, Seq::empty());
        assert(stream + Seq::<u8>::empty() =~= stream);
        assert(frames(others) + Seq::<u8>::empty() =~= frames(others));
        assert(expected =~= seq![frame(messages.first())] + others.map_values(
            |message: Seq<u8>| frame(message),
        ));
    }
}

/// Serialized items that hold no line end are read back one by one, whatever
/// follows them.
pub proof fn law_frames_are_read_back(messages: Seq<Seq<u8>>, rest: Seq<u8>)
    requires
        messages.len() > 0,
        !messages.first().contains(NEWLINE),
    ensures
        (frames(messages) + rest).contains(NEWLINE),
        ({
            let buffer = frames(messages) + rest;
            let len = line_len(buffer) as int;
            &&& buffer.take(len) == frame(messages.first())
            &&& buffer.skip(len) == frames(messages.drop_first()) + rest
        }),
{
    let first = messages.first();
    let others = frames(messages.drop_first()) + rest;
    let buffer = frames(messages) + rest;
    assert(buffer =~= frame(first) + others);
    lemma_first_line(first, others);
    assert(buffer[first.len() as int] == NEWLINE);
    assert(buffer.take((first.len() + 1) as int) =~= frame(first));
    assert(buffer.skip((first.len() + 1) as int) =~= others);
}

proof fn lemma_trimmed_keeps_its_ends(text: Seq<char>)
    requires
        text.len() > 0 ==> !text::white(text.first()) && !text::white(text.last()),
    ensures
        trimmed(text) == text,
{
}

proof fn lemma_trimmed_line(text: Seq<char>)
    ensures
        trimmed(text.push('\n')) == trimmed(text),
    decreases text.len(),
{
    let line = text.push('\n');
    if text.len() == 0 {
        reveal_with_fuel(text::trim_start, 2);
        assert(line.drop_first() =~= text);
    } else if text::white(text.first()) {
        assert(line.first() == text.first());
        assert(line.drop_first() =~= text.drop_first().push('\n'));
        lemma_trimmed_line(text.drop_first());
    } else {
        assert(line.first() == text.first());
        assert(line.drop_last() =~= text);
    }
}

/// The text of an item that is on one line survives the way through the stream,
/// but for white space at its ends.
pub proof fn law_text_is_read_back(message: Seq<char>)
    requires
        !message.contains('\n'),
    ensures
        !encode_utf8(message).contains(NEWLINE),
        line_text(frame(encode_utf8(message))) == Some(trimmed(message)),
        (message.len() > 0 ==> !text::white(message.first()) && !text::white(message.last()))
            ==> trimmed(message) == message,
{
    text::lemma_ascii_in_encoding(message, '\n');
    let line = message.push('\n');
    let end = seq!['\n'];
    assert(line =~= message + end);
    text::lemma_encoding_of_parts(message, end);
    assert(encode_utf8(end) =~= seq![NEWLINE]) by {
        assert(10u32 & 0x7f == 10) by (bit_vector);
        reveal_with_fuel(encode_utf8, 2);
        assert(end.drop_first() =~= Seq::<char>::empty());
    }
    assert(encode_utf8(line) =~= frame(encode_utf8(message)));
    encode_utf8_valid_utf8(line);
    encode_utf8_decode_utf8(line);
    lemma_trimmed_line(message);
    if message.len() > 0 ==> !text::white(message.first()) && !text::white(message.last()) {
        lemma_trimmed_keeps_its_ends(message);
    }
}

/// What a batch amounts to after the given items: the events before the first
/// final message, and that message.
pub open spec fn batch_received<E, F>(items: Seq<Item<E, F>>) -> (Seq<E>, Option<F>)
    decreases items.len(),
{
    if items.len() == 0 {
        (Seq::empty(), None)
    } else {
        batch_step(batch_received(items.drop_last()), items.last())
    }
}

proof fn lemma_events_received<E, F>(events: Seq<E>)
    ensures
        batch_received(events.map_values(|event: E| Item::<E, F>::Event(event))) == (
            events,
            None::<F>,
        ),
    decreases events.len(),
{
    let items = events.map_values(|event: E| Item::<E, F>::Event(event));
    if events.len() == 0 {
        assert(events =~= Seq::empty());
    } else {
        lemma_events_received::<E, F>(events.drop_last());
        assert(items.drop_last() =~= events.drop_last().map_values(
            |event: E| Item::<E, F>::Event(event),
        ));
        assert(events.drop_last().push(events.last()) =~= events);
    }
}

/// A batch is received as it was sent: all events in order, then the final
/// message, and not before that.
pub proof fn law_batch_is_read_back<E, F>(events: Seq<E>, finish: F, n: int)
    requires
        0 <= n <= events.len(),
    ensures
        batch_received(batch_items(events, finish)) == (events, Some(finish)),
        batch_received(batch_items(events, finish).take(n)) == (events.take(n), None::<F>),
{
    let items = batch_items(events, finish);
    lemma_events_received::<E, F>(events);
    assert(items.drop_last() =~= events.map_values(|event: E| Item::<E, F>::Event(event)));
    lemma_events_received::<E, F>(events.take(n));
    assert(items.take(n) =~= events.take(n).map_values(|event: E| Item::<E, F>::Event(event)));
}

/// The bytes that pass the given texts, one per line.
pub open spec fn stream_of(texts: Seq<Seq<char>>) -> Seq<u8> {
    frames(texts.map_values(|text: Seq<char>| encode_utf8(text)))
}

/// What a receiver can do.
pub ghost enum RxOp {
    /// It takes note of bytes that were read.
    Feed(Seq<u8>),
    /// It takes the next line, if that is there.
    Next,
}

/// The lines that a receiver has taken after the given operations, and what is
/// left in its buffer.
pub open spec fn rx_after(ops: Seq<RxOp>) -> (Seq<Seq<u8>>, Seq<u8>)
    decreases ops.len(),
{
    if ops.len() == 0 {
        (Seq::empty(), Seq::empty())
    } else {
        let (taken, buffer) = rx_after(ops.drop_last());
        match ops.last() {
            RxOp::Feed(chunk) => (taken, buffer + chunk),
            RxOp::Next => if has_line(buffer, false) {
                let len = line_len(buffer) as int;
                (taken.push(buffer.take(len)), buffer.skip(len))
            } else {
                (taken, buffer)
            },
        }
    }
}

/// All bytes that were read in the course of the given operations.
pub open spec fn fed(ops: Seq<RxOp>) -> Seq<u8>
    decreases ops.len(),
{
    if ops.len() == 0 {
        Seq::empty()
    } else {
        match ops.last() {
            RxOp::Feed(chunk) => fed(ops.drop_last()) + chunk,
            RxOp::Next => fed(ops.drop_last()),
        }
    }
}

/// However a stream is cut into chunks, and whenever lines are taken: the lines
/// that were taken are the first lines of the stream, and the others are still
/// to come.
pub proof fn law_lines_are_taken_in_any_chunks(ops: Seq<RxOp>, rest: Seq<u8>)
    ensures
        lines(fed(ops) + rest) == rx_after(ops).0 + lines(rx_after(ops).1 + rest),
        rx_after(ops).1.len() > 0 ==> fed(ops).len() > 0 && rx_after(ops).1.last() == fed(
            ops,
        ).last(),
    decreases ops.len(),
{
    if ops.len() == 0 {
        assert(rx_after(ops).0 + lines(rx_after(ops).1 + rest) =~= lines(fed(ops) + rest));
    } else {
        let earlier = ops.drop_last();
        let (taken, buffer) = rx_after(earlier);
        match ops.last() {
            RxOp::Feed(chunk) => {
                law_lines_are_taken_in_any_chunks(earlier, chunk + rest);
                assert(fed(earlier) + (chunk + rest) =~= fed(ops) + rest);
                assert(buffer + (chunk + rest) =~= rx_after(ops).1 + rest);
                law_lines_are_taken_in_any_chunks(earlier, rest);
            },
            RxOp::Next => {
                law_lines_are_taken_in_any_chunks(earlier, rest);
                if has_line(buffer, false) {
                    let len = line_len(buffer) as int;
                    lemma_line_len(buffer, rest);
                    law_lines_do_not_depend_on_chunks(buffer, rest);
                    let line = buffer.take(len);
                    assert(lines(buffer + rest) == seq![line] + lines(buffer.skip(len) + rest));
                    assert(taken + (seq![line] + lines(buffer.skip(len) + rest)) =~= taken.push(
                        line,
                    ) + lines(buffer.skip(len) + rest));
                }
            },
        }
    }
}

/// The items in the given lines, if `parse` tells what item a text means.
pub open spec fn items_in<E, F>(
    lines: Seq<Seq<u8>>,
    parse: spec_fn(Seq<char>) -> Item<E, F>,
) -> Seq<Item<E, F>> {
    lines.map_values(|line: Seq<u8>| parse(line_text(line)->0))
}

/// Whether the texts are written for the items of a batch: each is on one line, and
/// means its item once the white space at its ends is gone.
pub open spec fn are_texts_of_batch<E, F>(
    events: Seq<E>,
    finish: F,
    texts: Seq<Seq<char>>,
    parse: spec_fn(Seq<char>) -> Item<E, F>,
) -> bool {
    &&& texts.len() == batch_items(events, finish).len()
    &&& forall|i: int|
        0 <= i < texts.len() ==> !(#[trigger] texts[i]).contains('\n') && parse(trimmed(texts[i]))
            == batch_items(events, finish)[i]
}

/// A batch survives the way through the stream: the lines of the stream have the
/// texts that were written for its items, and the items that these mean make up all
/// events and the final message.
pub proof fn law_batch_survives_the_stream<E, F>(
    events: Seq<E>,
    finish: F,
    texts: Seq<Seq<char>>,
    parse: spec_fn(Seq<char>) -> Item<E, F>,
)
    requires
        are_texts_of_batch(events, finish, texts, parse),
    ensures
        lines(stream_of(texts)).len() == texts.len(),
        forall|i: int|
            0 <= i < texts.len() ==> line_text(#[trigger] lines(stream_of(texts))[i]) == Some(
                trimmed(texts[i]),
            ),
        items_in(lines(stream_of(texts)), parse) == batch_items(events, finish),
        batch_received(items_in(lines(stream_of(texts)), parse)) == (events, Some(finish)),
{
    let messages = texts.map_values(|text: Seq<char>| encode_utf8(text));
    assert forall|i: int| 0 <= i < messages.len() implies !(#[trigger] messages[i]).contains(
        NEWLINE,
    ) && line_text(frame(messages[i])) == Some(trimmed(texts[i])) by {
        law_text_is_read_back(texts[i]);
    }
    law_lines_are_the_items(messages);
    assert forall|i: int| 0 <= i < texts.len() implies line_text(
        #[trigger] lines(stream_of(texts))[i],
    ) == Some(trimmed(texts[i])) by {
        assert(lines(stream_of(texts))[i] == frame(messages[i]));
    }
    assert(items_in(lines(stream_of(texts)), parse) =~= batch_items(events, finish));
    law_batch_is_read_back(events, finish, 0);
}

proof fn lemma_stream_ends_with_line_end(texts: Seq<Seq<char>>)
    ensures
        texts.len() > 0 ==> stream_of(texts).len() > 0 && stream_of(texts).last() == NEWLINE,
    decreases texts.len(),
{
    let messages = texts.map_values(|text: Seq<char>| encode_utf8(text));
    if texts.len() > 0 {
        let others = texts.drop_first();
        lemma_stream_ends_with_line_end(others);
        assert(messages.drop_first() =~= others.map_values(|text: Seq<char>| encode_utf8(text)));
        let stream = stream_of(texts);
        assert(stream == frame(messages.first()) + stream_of(others));
        if texts.len() == 1 {
            assert(stream_of(others) =~= Seq::empty());
            assert(stream =~= frame(messages.first()));
        } else {
            assert(stream.last() == stream_of(others).last());
        }
    }
}

/// A batch is received as it was sent, however the stream is cut into chunks and
/// whenever lines are taken: as long as lines are missing there is no final
/// message, only the first events. Once the stream was read and no line is left to
/// take, all events are there, in order, and the final message.
pub proof fn law_batch_is_received_in_any_chunks<E, F>(
    events: Seq<E>,
    finish: F,
    texts: Seq<Seq<char>>,
    parse: spec_fn(Seq<char>) -> Item<E, F>,
    ops: Seq<RxOp>,
    rest: Seq<u8>,
)
    requires
        are_texts_of_batch(events, finish, texts, parse),
        fed(ops) + rest == stream_of(texts),
    ensures
        rx_after(ops).0.len() <= texts.len(),
        rx_after(ops).0.len() == texts.len() ==> batch_received(items_in(rx_after(ops).0, parse))
            == (events, Some(finish)),
        rx_after(ops).0.len() < texts.len() ==> batch_received(items_in(rx_after(ops).0, parse))
            == (events.take(rx_after(ops).0.len() as int), None::<F>),
        rest.len() == 0 && !has_line(rx_after(ops).1, false) ==> rx_after(ops).0.len()
            == texts.len(),
{
    let (taken, buffer) = rx_after(ops);
    let n = taken.len() as int;
    law_batch_survives_the_stream(events, finish, texts, parse);
    law_lines_are_taken_in_any_chunks(ops, rest);
    let all = lines(stream_of(texts));
    let items = batch_items(events, finish);
    assert(all == taken + lines(buffer + rest));
    assert(taken =~= all.take(n));
    assert(items_in(taken, parse) =~= items.take(n)) by {
        assert(items_in(all, parse).take(n) =~= items_in(taken, parse));
    }
    if n < texts.len() {
        law_batch_is_read_back(events, finish, n);
    } else {
        assert(items.take(n) =~= items);
    }
    if rest.len() == 0 && !has_line(buffer, false) {
        assert(fed(ops) =~= stream_of(texts));
        lemma_stream_ends_with_line_end(texts);
        if buffer.len() > 0 {
            assert(buffer[buffer.len() - 1] == NEWLINE);
        }
        assert(buffer + rest =~= Seq::empty());
        assert(taken + lines(buffer + rest) =~= taken);
    }
}

/// A line can be taken exactly if it has an end, or the stream has.
pub proof fn law_line_can_be_taken_once_it_ends(message: Seq<u8>, rest: Seq<u8>)
    ensures
        has_line(frame(message) + rest, false),
        has_line(message, true),
        has_line(message, false) ==> message.contains(NEWLINE),
{
    assert((frame(message) + rest)[message.len() as int] == NEWLINE);
}

/// What is received is what was written: if the text of an item comes next in the
/// stream, on one line, then the whole of it is parsed, however long it is, without
/// the white space at its ends and with nothing else. What parsing it gives is what
/// is received, be it an item or an error. Afterwards what follows in the stream is
/// next.
pub proof fn law_whole_text_is_parsed<
    E,
    F,
    P: Fn(String) -> Result<Item<E, F>, serde_json::Error>,
>(
    before: Seq<char>,
    message: Seq<char>,
    after: Seq<char>,
    rest: Seq<u8>,
    parse: P,
    item: Result<Item<E, F>, RecvError>,
)
    requires
        !(before + message + after).contains('\n'),
        forall|i: int| 0 <= i < before.len() ==> text::white(#[trigger] before[i]),
        forall|i: int| 0 <= i < after.len() ==> text::white(#[trigger] after[i]),
        message.len() > 0 ==> !text::white(message.first()) && !text::white(message.last()),
    ensures
        ({
            let buffer = frame(encode_utf8(before + message + after)) + rest;
            let len = line_len(buffer) as int;
            &&& item_of_line(buffer.take(len), parse, item) <==> exists|
                t: String,
                parsed: Result<Item<E, F>, serde_json::Error>,
            |
                {
                    &&& t@ == message
                    &&& #[trigger] parse.ensures((t,), parsed)
                    &&& parsed matches Ok(value) ==> item == Ok::<Item<E, F>, RecvError>(value)
                    &&& parsed matches Err(err) ==> item == Err::<Item<E, F>, RecvError>(
                        RecvError::Deserialize(err),
                    )
                }
            &&& buffer.skip(len) == rest
        }),
{
    let written = before + message + after;
    let line = frame(encode_utf8(written));
    let buffer = line + rest;
    law_text_is_read_back(written);
    lemma_first_line(encode_utf8(written), rest);
    text::law_trim_takes_away_the_white_space(before, message, after);
    let len = line_len(buffer) as int;
    assert(buffer.take(len) =~= line);
    assert(buffer.skip(len) =~= rest);
    assert(line_text(line) == Some(message));
    if item_of_line(buffer.take(len), parse, item) {
        let (t, parsed) = choose|t: String, parsed: Result<Item<E, F>, serde_json::Error>|
            {
                &&& t@ == message
                &&& #[trigger] parse.ensures((t,), parsed)
                &&& item == match parsed {
                    Ok(item) => Ok::<Item<E, F>, RecvError>(item),
                    Err(err) => Err(RecvError::Deserialize(err)),
                }
            };
        assert(parse.ensures((t,), parsed));
    }
}

/// A line that is not UTF-8 is reported as invalid data, and one that is UTF-8 is
/// not. Nothing else is reported that way.
pub proof fn law_other_than_text_is_refused<
    E,
    F,
    P: Fn(String) -> Result<Item<E, F>, serde_json::Error>,
>(line: Seq<u8>, parse: P, item: Result<Item<E, F>, RecvError>)
    requires
        item_of_line(line, parse, item),
    ensures
        !valid_utf8(line) ==> item == Err::<Item<E, F>, RecvError>(
            RecvError::Io(invalid_data_error("stream did not contain valid UTF-8"@)),
        ),
        valid_utf8(line) ==> (item is Ok || item->Err_0 is Deserialize),
        line_text(line) is None <==> !valid_utf8(line),
{
}

/// What passes a message is the message and a line end, whatever its length. So
/// different messages pass as different bytes.
pub proof fn law_frame_holds_the_message(message: Seq<u8>, other: Seq<u8>)
    ensures
        frame(message).drop_last() == message,
        frame(message).last() == 10,
        frame(message) == frame(other) ==> message == other,
{
    assert(frame(message).drop_last() =~= message);
    assert(frame(other).drop_last() =~= other);
}

/// A batch is sent event by event, in order, and its final message comes last, once.
/// It is received the same way, and nothing counts after the final message.
pub proof fn law_batches_are_kept_in_order<E, F>(
    events: Seq<E>,
    finish: F,
    i: int,
    received: Seq<E>,
    event: E,
    other: F,
)
    ensures
        batch_items(events, finish).len() == events.len() + 1,
        0 <= i < events.len() ==> batch_items(events, finish)[i] == Item::<E, F>::Event(events[i]),
        batch_items(events, finish).last() == Item::<E, F>::Finish(finish),
        batch_item(Some(event), finish) == Item::<E, F>::Event(event),
        batch_item(None::<E>, finish) == Item::<E, F>::Finish(finish),
        batch_step((received, None::<F>), Item::Event(event)) == (received.push(event), None::<F>),
        batch_step((received, None::<F>), Item::Finish(finish)) == (received, Some(finish)),
        batch_step((received, Some(finish)), Item::Event(event)) == (received, Some(finish)),
        batch_step((received, Some(finish)), Item::Finish(other)) == (received, Some(finish)),
{
}

/// The text of a line is all of it but the white space at its ends, whether the line
/// has an end or not.
pub proof fn law_text_of_a_line_is_all_of_it(
    before: Seq<char>,
    message: Seq<char>,
    after: Seq<char>,
)
    requires
        forall|i: int| 0 <= i < before.len() ==> text::white(#[trigger] before[i]),
        forall|i: int| 0 <= i < after.len() ==> text::white(#[trigger] after[i]),
        message.len() > 0 ==> !text::white(message.first()) && !text::white(message.last()),
    ensures
        line_text(encode_utf8(before + message + after)) == Some(message),
        trimmed(before + message + after) == message,
{
    let all = before + message + after;
    encode_utf8_valid_utf8(all);
    encode_utf8_decode_utf8(all);
    text::law_trim_takes_away_the_white_space(before, message, after);
}

} // verus!
