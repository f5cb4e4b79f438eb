//! The inbound file transfer state machine.
//!
//! One instance drives one accepted `send` connection: first frame must be an
//! `Offer` within the size bound, the transfer subsystem authorizes it, then
//! chunk headers alternate with raw data frames until `Finish` arrives at
//! exactly the offered size. The caller performs the returned action (send a
//! response, write a frame, close with a code) and feeds the next event in.

use vstd::prelude::*;
use crate::send::MAX_FILE_SIZE;
use crate::send::SendRequest;
use crate::send::SendRequestV;

verus! {

/// Why an inbound transfer was aborted; each maps to a stable close code.
#[derive(PartialEq, Eq, Structural, Clone, Copy, Debug)]
pub enum SendError {
    /// A frame failed to arrive or decode.
    Recv,
    /// The first frame was not an offer.
    ExpectedOffer,
    /// A response frame could not be sent.
    Send,
    /// The file could not be written.
    WriteFile,
    /// More data than the offer announced.
    Oversize,
    /// A chunk disagreed with its header, or framing was violated.
    InvalidChunk,
}

impl SendError {
    /// The diagnostic close reason sent when a connection is aborted; the
    /// close code is always 1.
    pub fn to_close_code(&self) -> (r: &'static str)
        ensures
            r@ == (match self {
                SendError::Recv => "RECV_ERR"@,
                SendError::ExpectedOffer => "EXP_OFFER"@,
                SendError::Send => "SEND_ERR"@,
                SendError::WriteFile => "WRITE_ERR"@,
                SendError::Oversize => "OVERSIZE"@,
                SendError::InvalidChunk => "INV_CHUNK"@,
            }),
    {
        match self {
            SendError::Recv => "RECV_ERR",
            SendError::ExpectedOffer => "EXP_OFFER",
            SendError::Send => "SEND_ERR",
            SendError::WriteFile => "WRITE_ERR",
            SendError::Oversize => "OVERSIZE",
            SendError::InvalidChunk => "INV_CHUNK",
        }
    }

    /// A short description of the failure, for the UI error event.
    pub fn describe(&self) -> (r: &'static str)
        ensures
            r@ == (match self {
                SendError::Recv => "Failed to receive request"@,
                SendError::ExpectedOffer => "Expected offer request"@,
                SendError::Send => "Failed to send response"@,
                SendError::WriteFile => "Failed to write to file"@,
                SendError::Oversize => "Received more data than expected"@,
                SendError::InvalidChunk => "Invalid chunk"@,
            }),
    {
        match self {
            SendError::Recv => "Failed to receive request",
            SendError::ExpectedOffer => "Expected offer request",
            SendError::Send => "Failed to send response",
            SendError::WriteFile => "Failed to write to file",
            SendError::Oversize => "Received more data than expected",
            SendError::InvalidChunk => "Invalid chunk",
        }
    }
}

/// Where the state machine stands.
#[derive(PartialEq, Eq, Structural, Clone, Copy, Debug)]
pub enum RecvPhase {
    /// Nothing received yet; the first frame must be an offer.
    AwaitOffer,
    /// Offer taken; waiting for the transfer subsystem's authorization.
    AwaitDecision,
    /// Mid-transfer; the next frame must be a chunk header or `Finish`.
    Streaming,
    /// A chunk header announced a data frame of this many bytes.
    AwaitData { len: u32 },
    /// Protocol complete; awaiting graceful close.
    Closing,
    /// Aborted.
    Failed,
}

/// What to do after the opening frame.
pub enum OfferOutcome {
    /// Ask the transfer subsystem whether this peer may store this file.
    Authorize,
    /// Close the connection with this error's code.
    Close(SendError),
}

/// What to do after the authorization decision.
pub enum DecisionOutcome {
    /// Send `Accept`, create the sink file, and emit `Progress { 0, size }`.
    Accepted,
    /// Send `Reject` and close gracefully; no file is created.
    Rejected,
}

/// What to do after a mid-transfer message frame.
pub enum FrameOutcome {
    /// Await a raw data frame of exactly this many bytes.
    ExpectData { len: u32 },
    /// Flush and close the file, emit `Done`, send `Done`, await close.
    Complete,
    /// Close the connection with this error's code.
    Abort(SendError),
}

/// What to do after a raw data frame.
pub enum DataOutcome {
    /// Append the frame to the file and emit `Progress { offset, size }`.
    Write { offset: u64, size: u64 },
    /// The frame's length disagrees with its header: close, writing nothing.
    Abort(SendError),
}

/// The receiver of one inbound transfer.
pub struct Receiver {
    /// Current protocol phase.
    pub phase: RecvPhase,
    /// Name announced by the offer; empty before the offer arrives.
    pub file_name: String,
    /// Size announced by the offer.
    pub size: u64,
    /// Bytes accepted so far.
    pub offset: u64,
}

impl Receiver {
    /// The machine never counts past the offered size, which itself was
    /// admitted under the file size bound.
    pub open spec fn inv(&self) -> bool {
        match self.phase {
            RecvPhase::Streaming => self.offset <= self.size && self.size <= MAX_FILE_SIZE,
            RecvPhase::AwaitData { .. } => self.offset <= self.size && self.size
                <= MAX_FILE_SIZE,
            RecvPhase::AwaitDecision => self.offset == 0 && self.size <= MAX_FILE_SIZE,
            _ => true,
        }
    }

    /// A fresh machine for one accepted connection.
    pub fn new() -> (r: Self)
        ensures
            r.phase == RecvPhase::AwaitOffer,
            r.offset == 0,
            r.inv(),
    {
        Receiver { phase: RecvPhase::AwaitOffer, file_name: String::new(), size: 0, offset: 0 }
    }

    /// Takes the opening frame. Only an offer within the size bound moves the
    /// machine forward; an oversized offer is refused before any `Accept`,
    /// and any other message type aborts.
    pub fn on_first_frame(&mut self, msg: SendRequest) -> (r: OfferOutcome)
        requires
            old(self).phase == RecvPhase::AwaitOffer,
        ensures
            final(self).inv(),
            match msg@ {
                SendRequestV::Offer(o) => {
                    if o.size <= MAX_FILE_SIZE {
                        &&& final(self).phase == RecvPhase::AwaitDecision
                        &&& final(self).file_name@ == o.name
                        &&& final(self).size == o.size
                        &&& final(self).offset == 0
                        &&& r is Authorize
                    } else {
                        &&& final(self).phase == RecvPhase::Failed
                        &&& r == OfferOutcome::Close(SendError::Oversize)
                    }
                },
                _ => final(self).phase == RecvPhase::Failed && r == OfferOutcome::Close(
                    SendError::ExpectedOffer,
                ),
            },
    {
        match msg {
            SendRequest::Offer(offer) => {
                if offer.size > MAX_FILE_SIZE {
                    self.phase = RecvPhase::Failed;
                    OfferOutcome::Close(SendError::Oversize)
                } else {
                    self.file_name = offer.name;
                    self.size = offer.size;
                    self.offset = 0;
                    self.phase = RecvPhase::AwaitDecision;
                    OfferOutcome::Authorize
                }
            },
            _ => {
                self.phase = RecvPhase::Failed;
                OfferOutcome::Close(SendError::ExpectedOffer)
            },
        }
    }

    /// Takes the transfer subsystem's decision. A refusal answers `Reject`
    /// and creates no file; a permission answers `Accept` and opens the
    /// receive loop at offset zero.
    pub fn on_decision(&mut self, permitted: bool) -> (r: DecisionOutcome)
        requires
            old(self).phase == RecvPhase::AwaitDecision,
            old(self).inv(),
        ensures
            final(self).inv(),
            final(self).file_name == old(self).file_name,
            final(self).size == old(self).size,
            final(self).offset == 0,
            permitted ==> r is Accepted && final(self).phase == RecvPhase::Streaming,
            !permitted ==> r is Rejected && final(self).phase == RecvPhase::Closing,
    {
        if permitted {
            self.phase = RecvPhase::Streaming;
            DecisionOutcome::Accepted
        } else {
            self.phase = RecvPhase::Closing;
            DecisionOutcome::Rejected
        }
    }

    /// Takes a mid-transfer message frame. A chunk header announces a data
    /// frame; `Finish` completes the transfer exactly when every offered
    /// byte has arrived, and aborts with `INV_CHUNK` otherwise; a second
    /// offer is a protocol violation.
    pub fn on_frame(&mut self, msg: &SendRequest) -> (r: FrameOutcome)
        requires
            old(self).phase == RecvPhase::Streaming,
            old(self).inv(),
        ensures
            final(self).inv(),
            final(self).file_name == old(self).file_name,
            final(self).size == old(self).size,
            final(self).offset == old(self).offset,
            match msg@ {
                SendRequestV::ChunkHeader(n) => r == (FrameOutcome::ExpectData { len: n })
                    && final(self).phase == (RecvPhase::AwaitData { len: n }),
                SendRequestV::Finish => {
                    if old(self).offset == old(self).size {
                        r is Complete && final(self).phase == RecvPhase::Closing
                    } else {
                        r == FrameOutcome::Abort(SendError::InvalidChunk) && final(self).phase
                            == RecvPhase::Failed
                    }
                },
                SendRequestV::Offer(_) => r == FrameOutcome::Abort(SendError::InvalidChunk)
                    && final(self).phase == RecvPhase::Failed,
            },
    {
        match msg {
            SendRequest::ChunkHeader(h) => {
                self.phase = RecvPhase::AwaitData { len: h.size };
                FrameOutcome::ExpectData { len: h.size }
            },
            SendRequest::Finish => {
                if self.offset == self.size {
                    self.phase = RecvPhase::Closing;
                    FrameOutcome::Complete
                } else {
                    self.phase = RecvPhase::Failed;
                    FrameOutcome::Abort(SendError::InvalidChunk)
                }
            },
            SendRequest::Offer(_) => {
                self.phase = RecvPhase::Failed;
                FrameOutcome::Abort(SendError::InvalidChunk)
            },
        }
    }

    /// Takes the raw data frame announced by the last chunk header, given as
    /// its length. A frame of the wrong length aborts with `INV_CHUNK`; one
    /// that would push the count past the offered size aborts with
    /// `OVERSIZE`; otherwise the frame is accepted and counted.
    pub fn on_data(&mut self, frame_len: usize) -> (r: DataOutcome)
        requires
            old(self).phase matches RecvPhase::AwaitData { .. },
            old(self).inv(),
        ensures
            final(self).inv(),
            final(self).file_name == old(self).file_name,
            final(self).size == old(self).size,
            match old(self).phase {
                RecvPhase::AwaitData { len } => {
                    if frame_len != len {
                        &&& r == DataOutcome::Abort(SendError::InvalidChunk)
                        &&& final(self).phase == RecvPhase::Failed
                        &&& final(self).offset == old(self).offset
                    } else if old(self).offset + len > old(self).size {
                        &&& r == DataOutcome::Abort(SendError::Oversize)
                        &&& final(self).phase == RecvPhase::Failed
                        &&& final(self).offset == old(self).offset
                    } else {
                        &&& r == (DataOutcome::Write {
                            offset: (old(self).offset + len) as u64,
                            size: old(self).size,
                        })
                        &&& final(self).phase == RecvPhase::Streaming
                        &&& final(self).offset == old(self).offset + len
                    }
                },
                _ => false,
            },
    {
        let len = match self.phase {
            RecvPhase::AwaitData { len } => len,
            _ => 0,
        };
        if frame_len != len as usize {
            self.phase = RecvPhase::Failed;
            return DataOutcome::Abort(SendError::InvalidChunk);
        }
        if len as u64 > self.size - self.offset {
            self.phase = RecvPhase::Failed;
            return DataOutcome::Abort(SendError::Oversize);
        }
        self.offset = self.offset + len as u64;
        self.phase = RecvPhase::Streaming;
        DataOutcome::Write { offset: self.offset, size: self.size }
    }

    /// Records that a frame failed to arrive or decode. A stream that gives
    /// out while an announced data frame is still awaited violates the
    /// framing and is reported as an invalid chunk; everywhere else the
    /// failure is a plain receive error.
    pub fn on_recv_error(&mut self) -> (r: SendError)
        ensures
            final(self).phase == RecvPhase::Failed,
            r == (if old(self).phase matches RecvPhase::AwaitData { .. } {
                SendError::InvalidChunk
            } else {
                SendError::Recv
            }),
    {
        let r = match self.phase {
            RecvPhase::AwaitData { .. } => SendError::InvalidChunk,
            _ => SendError::Recv,
        };
        self.phase = RecvPhase::Failed;
        r
    }
}

} // verus!
