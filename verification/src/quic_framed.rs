//! Length-prefixed framing for the relay protocol over a QUIC stream.
//!
//! Frame format: `[varint length][relay frame bytes...]`
//!
//! [`QuicBytesFramed`] decides; the streams are polled by its owner. A poll for
//! the next frame starts with [`QuicBytesFramed::poll_next`]. Where that asks
//! for a read, the owner polls the receive stream and hands the outcome to
//! [`QuicBytesFramed::on_read`], until a step answers the poll. Writes go the
//! same way, through [`QuicBytesFramed::poll_flush`] and
//! [`QuicBytesFramed::on_write`].

use bytes::{Buf, Bytes, BytesMut};
use vstd::prelude::*;
use vstd::string::*;

use crate::buffer;
use crate::text;
use crate::varint;

verus! {

/// Maximum frame size (1 MB).
pub const MAX_QUIC_FRAME_SIZE: usize = 0x10_0000;

/// The capacity that the read and the write buffer start with.
const BUFFER_CAPACITY: usize = 8192;

/// The error of the standard library's I/O.
#[verifier::external_type_specification]
#[verifier::external_body]
pub struct ExIoError(std::io::Error);

/// Error type for QUIC framing operations.
#[derive(Debug)]
pub enum QuicFramedError {
    /// IO error from QUIC stream read/write.
    Io(std::io::Error),
    /// Frame too large.
    FrameTooLarge(usize),
    /// Stream finished with partial frame data remaining.
    StreamFinished,
}

impl QuicFramedError {
    /// Whether `message` is what is told to people. An I/O error is told as
    /// the text that it displays.
    pub open spec fn reads_as(self, message: Seq<char>) -> bool {
        match self {
            QuicFramedError::Io(e) => exists|text: String|
                #[trigger] to_string_from_display_ensures(&e, text) && message
                    == "QUIC IO error: "@ + text@,
            QuicFramedError::FrameTooLarge(size) => message == "frame too large: "@
                + text::decimal(size as nat) + " bytes (max "@ + text::decimal(
                MAX_QUIC_FRAME_SIZE as nat,
            ) + ")"@,
            QuicFramedError::StreamFinished => message == "stream finished with partial frame"@,
        }
    }

    /// The error as a line of text.
    pub fn message(&self) -> (message: String)
        ensures
            self.reads_as(message@),
            self matches QuicFramedError::Io(e) ==> exists|text: String|
                #[trigger] to_string_from_display_ensures(e, text) && message@
                    == "QUIC IO error: "@ + text@,
            self matches QuicFramedError::FrameTooLarge(size) ==> message@ == "frame too large: "@
                + text::decimal(*size as nat) + " bytes (max "@ + text::decimal(
                MAX_QUIC_FRAME_SIZE as nat,
            ) + ")"@,
            self is StreamFinished ==> message@ == "stream finished with partial frame"@,
    {
        match self {
            QuicFramedError::Io(e) => {
                let text = e.to_string();
                let mut message = "QUIC IO error: ".to_owned();
                message.append(text.as_str());
                message
            },
            QuicFramedError::FrameTooLarge(size) => {
                let mut message = "frame too large: ".to_owned();
                message.append(text::decimal_text(*size as u64).as_str());
                message.append(" bytes (max ");
                message.append(text::decimal_text(MAX_QUIC_FRAME_SIZE as u64).as_str());
                message.append(")");
                message
            },
            QuicFramedError::StreamFinished => "stream finished with partial frame".to_owned(),
        }
    }
}

impl From<std::io::Error> for QuicFramedError {
    fn from(e: std::io::Error) -> (error: QuicFramedError) {
        QuicFramedError::Io(e)
    }
}

impl vstd::std_specs::convert::FromSpecImpl<std::io::Error> for QuicFramedError {
    open spec fn obeys_from_spec() -> bool {
        true
    }

    open spec fn from_spec(e: std::io::Error) -> QuicFramedError {
        QuicFramedError::Io(e)
    }
}

/// The state of a framed stream: what arrived and was not delivered yet, and
/// what was accepted for sending and is not written yet.
#[verifier::ext_equal]
pub struct Framing {
    /// The bytes that arrived and belong to no delivered frame or read header.
    pub unread: Seq<u8>,
    /// The length of the frame whose header was read, while its bytes are awaited.
    pub pending: Option<usize>,
    /// The bytes still to be written.
    pub unsent: Seq<u8>,
    /// Whether the receive stream has ended.
    pub finished: bool,
}

/// The outcome of a step of the receiving side, as plain values.
pub enum Delivery {
    Frame(Seq<u8>),
    Error(QuicFramedError),
    End,
    Read,
    Pending,
}

/// The size that is reported of a frame of `size` bytes: that size, or the
/// largest `usize` where it is larger.
pub open spec fn reported_size(size: nat) -> usize {
    if size <= usize::MAX {
        size as usize
    } else {
        usize::MAX
    }
}

impl Framing {
    /// The state of a new stream: nothing arrived, nothing to write.
    pub open spec fn fresh() -> Framing {
        Framing { unread: Seq::empty(), pending: None, unsent: Seq::empty(), finished: false }
    }

    /// No awaited frame exceeds the size limit.
    pub open spec fn wf(self) -> bool {
        self.pending matches Some(len) ==> len <= MAX_QUIC_FRAME_SIZE
    }

    /// The state once `more` has arrived.
    pub open spec fn arrived(self, more: Seq<u8>) -> Framing {
        Framing { unread: self.unread + more, ..self }
    }

    /// Delivers the awaited frame of `len` bytes if all of it is there.
    pub open spec fn frame_of(self, len: usize) -> (Framing, Delivery) {
        if self.unread.len() < len {
            (Framing { pending: Some(len), ..self }, Delivery::Read)
        } else {
            (
                Framing { unread: self.unread.skip(len as int), pending: None, ..self },
                Delivery::Frame(self.unread.take(len as int)),
            )
        }
    }

    /// Delivers the next frame if all of it is there. A header that announces
    /// more than the limit is refused and stays where it is.
    pub open spec fn next_frame(self) -> (Framing, Delivery) {
        match self.pending {
            Some(len) => self.frame_of(len),
            None => match varint::value_at(self.unread) {
                None => (self, Delivery::Read),
                Some((value, width)) => {
                    if value > MAX_QUIC_FRAME_SIZE {
                        (
                            self,
                            Delivery::Error(QuicFramedError::FrameTooLarge(reported_size(value))),
                        )
                    } else {
                        Framing { unread: self.unread.skip(width as int), ..self }.frame_of(
                            value as usize,
                        )
                    }
                },
            },
        }
    }

    /// The end of the stream: clean if it comes between two frames, with no byte
    /// left over and no frame awaited.
    pub open spec fn ended(self) -> (Framing, Delivery) {
        (
            Framing { finished: true, ..self },
            if self.unread.len() == 0 && self.pending is None {
                Delivery::End
            } else {
                Delivery::Error(QuicFramedError::StreamFinished)
            },
        )
    }

    /// The state once `frame` is accepted for sending, behind what is unsent.
    pub open spec fn accepted(self, frame: Seq<u8>) -> Framing {
        Framing { unsent: self.unsent + framed(frame), ..self }
    }

    /// The state once `n` more bytes are written.
    pub open spec fn written(self, n: nat) -> Framing {
        Framing { unsent: self.unsent.skip(n as int), ..self }
    }

    /// A flush is through when nothing is unsent.
    pub open spec fn flushing(self) -> WriteStep {
        if self.unsent.len() == 0 {
            WriteStep::Flushed
        } else {
            WriteStep::Write
        }
    }

    /// The send stream is finished when nothing is unsent.
    pub open spec fn closing(self) -> CloseStep {
        if self.unsent.len() == 0 {
            CloseStep::Finish
        } else {
            CloseStep::Write
        }
    }

    /// What a poll for the next frame does with the bytes at hand.
    pub open spec fn polled(self) -> (Framing, Delivery) {
        if self.finished {
            (self, Delivery::End)
        } else {
            self.next_frame()
        }
    }

    /// What a read of `data` does. A read of nothing is the end of the stream.
    pub open spec fn received(self, data: Seq<u8>) -> (Framing, Delivery) {
        if data.len() == 0 {
            self.ended()
        } else {
            self.arrived(data).next_frame()
        }
    }
}

/// A frame as it stands on the wire: its length, then its bytes.
pub open spec fn framed(frame: Seq<u8>) -> Seq<u8> {
    varint::wire_form(frame.len() as u64) + frame
}

/// What became of a poll of the receive stream.
pub enum ReadEvent<'a> {
    /// These bytes were read. None at all means that the stream has ended.
    Data(&'a [u8]),
    /// The read failed.
    Failed(std::io::Error),
    /// Nothing to read yet.
    Pending,
}

/// What the owner of the receive stream does next.
pub enum NextStep {
    /// Answer the poll with this frame.
    Frame(Bytes),
    /// Answer the poll with this error.
    Error(QuicFramedError),
    /// Answer the poll with the end of the stream.
    End,
    /// Poll the receive stream and report to [`QuicBytesFramed::on_read`].
    Read,
    /// Answer that there is nothing yet.
    Pending,
}

impl View for NextStep {
    type V = Delivery;

    open spec fn view(&self) -> Delivery {
        match self {
            NextStep::Frame(bytes) => Delivery::Frame(buffer::payload(*bytes)),
            NextStep::Error(error) => Delivery::Error(*error),
            NextStep::End => Delivery::End,
            NextStep::Read => Delivery::Read,
            NextStep::Pending => Delivery::Pending,
        }
    }
}

/// What became of a poll of the send stream.
pub enum WriteEvent {
    /// This many of the unsent bytes were written.
    Written(usize),
    /// The write failed.
    Failed(std::io::Error),
    /// Nothing could be written yet.
    Pending,
}

/// What the owner of the send stream does next in a flush.
pub enum WriteStep {
    /// Answer that everything is flushed.
    Flushed,
    /// Write [`QuicBytesFramed::unsent`] and report to [`QuicBytesFramed::on_write`].
    Write,
    /// Answer with this error.
    Error(QuicFramedError),
    /// Answer that the flush is not through yet.
    Pending,
}

/// What the owner of the send stream does next to close the sink.
pub enum CloseStep {
    /// Finish the send stream, then answer that the sink is closed.
    Finish,
    /// Write [`QuicBytesFramed::unsent`] and report to [`QuicBytesFramed::on_close_write`].
    Write,
    /// Answer with this error.
    Error(QuicFramedError),
    /// Answer that the sink is not closed yet.
    Pending,
}

/// Length-prefixed framing over a QUIC bidirectional stream.
#[derive(Debug)]
pub struct QuicBytesFramed {
    /// Read buffer for accumulating partial frames.
    read_buf: BytesMut,
    /// Current frame's expected length (None = reading header).
    pending_frame_len: Option<usize>,
    /// Write buffer for outgoing frames.
    write_buf: BytesMut,
    /// Whether the stream has been finished (EOF).
    finished: bool,
}

impl View for QuicBytesFramed {
    type V = Framing;

    closed spec fn view(&self) -> Framing {
        Framing {
            unread: buffer::buffered(self.read_buf),
            pending: self.pending_frame_len,
            unsent: buffer::buffered(self.write_buf),
            finished: self.finished,
        }
    }
}

impl QuicBytesFramed {
    /// Create the framing of a stream on which nothing has been read or written.
    pub fn new() -> (framed: Self)
        ensures
            framed@ == Framing::fresh(),
            framed@.wf(),
            framed@.unread.len() == 0,
            framed@.pending is None,
            framed@.unsent.len() == 0,
            !framed@.finished,
    {
        QuicBytesFramed {
            read_buf: BytesMut::with_capacity(BUFFER_CAPACITY),
            pending_frame_len: None,
            write_buf: BytesMut::with_capacity(BUFFER_CAPACITY),
            finished: false,
        }
    }

    /// Delivers the next frame from what has been read, or asks for more.
    fn next_frame(&mut self) -> (step: NextStep)
        requires
            old(self)@.wf(),
        ensures
            (final(self)@, step@) == old(self)@.next_frame(),
            final(self)@.wf(),
    {
        // Step 1: Try to parse the frame length from the buffer.
        if self.pending_frame_len.is_none() {
            match varint::decode_varint(&self.read_buf) {
                Ok(Some((value, consumed))) => {
                    if value > MAX_QUIC_FRAME_SIZE as u64 {
                        let size: usize = if value <= usize::MAX as u64 {
                            value as usize
                        } else {
                            usize::MAX
                        };
                        return NextStep::Error(QuicFramedError::FrameTooLarge(size));
                    }
                    proof {
                        varint::varint_in_range(self@.unread);
                    }
                    self.read_buf.advance(consumed);
                    self.pending_frame_len = Some(value as usize);
                },
                Ok(None) => {
                    // Need more data for the varint header.
                    return NextStep::Read;
                },
                Err(e) => {
                    return NextStep::Error(e);
                },
            }
        }
        // Step 2: If we know the frame length, check if we have enough data.

        if let Some(frame_len) = self.pending_frame_len {
            if self.read_buf.len() >= frame_len {
                let frame = self.read_buf.split_to(frame_len).freeze();
                self.pending_frame_len = None;
                return NextStep::Frame(frame);
            }
        }
        NextStep::Read
    }

    /// Starts a poll for the next frame.
    pub fn poll_next(&mut self) -> (step: NextStep)
        requires
            old(self)@.wf(),
        ensures
            (final(self)@, step@) == old(self)@.polled(),
            final(self)@.wf(),
    {
        if self.finished {
            return NextStep::End;
        }
        self.next_frame()
    }

    /// Goes on with a poll for the next frame once the receive stream was polled.
    pub fn on_read(&mut self, event: ReadEvent<'_>) -> (step: NextStep)
        requires
            old(self)@.wf(),
            event matches ReadEvent::Data(data) ==> old(self)@.unread.len() + data@.len()
                <= isize::MAX,
        ensures
            final(self)@.wf(),
            match event {
                ReadEvent::Data(data) => {
                    &&& (final(self)@, step@) == old(self)@.received(data@)
                    &&& final(self)@.unsent == old(self)@.unsent
                    &&& data@.len() == 0 ==> {
                        &&& final(self)@.finished
                        &&& step is End <==> old(self)@.unread.len() == 0
                            && old(self)@.pending is None
                        &&& !(step is End) ==> step == NextStep::Error(
                            QuicFramedError::StreamFinished,
                        )
                    }
                },
                ReadEvent::Failed(e) => {
                    &&& final(self)@ == old(self)@
                    &&& step == NextStep::Error(QuicFramedError::Io(e))
                },
                ReadEvent::Pending => final(self)@ == old(self)@ && step@ == Delivery::Pending,
            },
    {
        match event {
            ReadEvent::Data(data) => {
                if data.len() == 0 {
                    self.finished = true;
                    if self.read_buf.is_empty() && self.pending_frame_len.is_none() {
                        NextStep::End
                    } else {
                        NextStep::Error(QuicFramedError::StreamFinished)
                    }
                } else {
                    self.read_buf.extend_from_slice(data);
                    self.next_frame()
                }
            },
            ReadEvent::Failed(e) => NextStep::Error(QuicFramedError::from(e)),
            ReadEvent::Pending => NextStep::Pending,
        }
    }

    /// Whether a frame can be handed to [`QuicBytesFramed::start_send`]: always.
    pub fn poll_ready(&self) -> (res: Result<(), QuicFramedError>)
        ensures
            res is Ok,
    {
        Ok(())
    }

    /// Accepts `item` as a frame to write, behind the frames that were accepted
    /// before it. A frame that is too large is refused.
    pub fn start_send(&mut self, item: Bytes) -> (res: Result<(), QuicFramedError>)
        requires
            old(self)@.wf(),
            old(self)@.unsent.len() + 8 + MAX_QUIC_FRAME_SIZE <= isize::MAX,
        ensures
            final(self)@.wf(),
            buffer::payload(item).len() <= MAX_QUIC_FRAME_SIZE ==> {
                &&& res is Ok
                &&& final(self)@ == old(self)@.accepted(buffer::payload(item))
                &&& final(self)@.unsent == old(self)@.unsent + varint::wire_form(
                    buffer::payload(item).len() as u64,
                ) + buffer::payload(item)
            },
            buffer::payload(item).len() > MAX_QUIC_FRAME_SIZE ==> {
                &&& res matches Err(error)
                &&& error == QuicFramedError::FrameTooLarge(buffer::payload(item).len() as usize)
                &&& final(self)@ == old(self)@
            },
    {
        let len: usize = item.len();
        if len > MAX_QUIC_FRAME_SIZE {
            return Err(QuicFramedError::FrameTooLarge(len));
        }
        // Encode: varint length prefix + payload
        let _ = varint::encode_varint(&mut self.write_buf, len as u64);
        proof {
            varint::varint_is_shortest(len as u64);
        }
        self.write_buf.extend_from_slice(&item);
        assert(self@.unsent =~= old(self)@.unsent + framed(buffer::payload(item)));
        Ok(())
    }

    /// The bytes that are to be written next.
    pub fn unsent(&self) -> (bytes: &[u8])
        ensures
            bytes@ == self@.unsent,
    {
        &self.write_buf
    }

    /// Starts a flush.
    pub fn poll_flush(&self) -> (step: WriteStep)
        ensures
            step == self@.flushing(),
            step is Flushed <==> self@.unsent.len() == 0,
            step is Write <==> self@.unsent.len() > 0,
    {
        if self.write_buf.is_empty() {
            WriteStep::Flushed
        } else {
            WriteStep::Write
        }
    }

    /// Goes on with a flush once the send stream was polled.
    pub fn on_write(&mut self, event: WriteEvent) -> (step: WriteStep)
        requires
            old(self)@.wf(),
            event matches WriteEvent::Written(n) ==> n <= old(self)@.unsent.len(),
        ensures
            final(self)@.wf(),
            match event {
                WriteEvent::Written(n) => {
                    &&& final(self)@ == old(self)@.written(n as nat)
                    &&& step == final(self)@.flushing()
                    &&& final(self)@.unsent == old(self)@.unsent.skip(n as int)
                    &&& step is Flushed <==> n == old(self)@.unsent.len()
                    &&& step is Write <==> n < old(self)@.unsent.len()
                },
                WriteEvent::Failed(e) => {
                    &&& final(self)@ == old(self)@
                    &&& step == WriteStep::Error(QuicFramedError::Io(e))
                },
                WriteEvent::Pending => final(self)@ == old(self)@ && step is Pending,
            },
    {
        match event {
            WriteEvent::Written(n) => {
                self.write_buf.advance(n);
                self.poll_flush()
            },
            WriteEvent::Failed(e) => WriteStep::Error(QuicFramedError::from(e)),
            WriteEvent::Pending => WriteStep::Pending,
        }
    }

    /// Starts to close the sink: what is unsent is written first.
    pub fn poll_close(&self) -> (step: CloseStep)
        ensures
            step == self@.closing(),
            step is Finish <==> self@.unsent.len() == 0,
            step is Write <==> self@.unsent.len() > 0,
    {
        if self.write_buf.is_empty() {
            CloseStep::Finish
        } else {
            CloseStep::Write
        }
    }

    /// Goes on to close the sink once the send stream was polled.
    pub fn on_close_write(&mut self, event: WriteEvent) -> (step: CloseStep)
        requires
            old(self)@.wf(),
            event matches WriteEvent::Written(n) ==> n <= old(self)@.unsent.len(),
        ensures
            final(self)@.wf(),
            match event {
                WriteEvent::Written(n) => {
                    &&& final(self)@ == old(self)@.written(n as nat)
                    &&& step == final(self)@.closing()
                    &&& final(self)@.unsent == old(self)@.unsent.skip(n as int)
                    &&& step is Finish <==> n == old(self)@.unsent.len()
                    &&& step is Write <==> n < old(self)@.unsent.len()
                },
                WriteEvent::Failed(e) => {
                    &&& final(self)@ == old(self)@
                    &&& step == CloseStep::Error(QuicFramedError::Io(e))
                },
                WriteEvent::Pending => final(self)@ == old(self)@ && step is Pending,
            },
    {
        // Flush remaining data first.
        match self.on_write(event) {
            // Finish the send stream.
            WriteStep::Flushed => CloseStep::Finish,
            WriteStep::Write => CloseStep::Write,
            WriteStep::Error(error) => CloseStep::Error(error),
            WriteStep::Pending => CloseStep::Pending,
        }
    }

    /// QUIC relay transport does not use TLS keying material export for
    /// authentication: there is never any.
    pub fn export_keying_material<T>(
        &self,
        _output: T,
        _label: &[u8],
        _context: Option<&[u8]>,
    ) -> (material: Option<T>)
        ensures
            material is None,
    {
        None
    }
}

} // verus!
