//! Cuts the byte stream of the terminal into command lines.
//!
//! Bytes are collected until a newline. A line longer than the receive
//! buffer is dropped: the collected bytes are handed back once for a
//! warning, and everything up to the next newline is discarded.

use vstd::prelude::*;

verus! {

/// Capacity of the receive buffer.
pub const RECEIVE_BUFFER_SIZE: usize = 128;

/// Ends a line.
pub const NEWLINE: u8 = 10;

/// What a received byte completed.
#[derive(Debug)]
pub enum FramerEvent {
    /// The byte was collected, or it ended a line that is being dropped.
    Nothing,
    /// The byte ended this line.
    Line(Vec<u8>),
    /// The receive buffer was full; the line is dropped. Holds what had been
    /// collected of it.
    Overflow(Vec<u8>),
}

/// The receive buffer and whether the current line is being dropped.
pub struct LineFramer {
    pub receive_buffer: Vec<u8>,
    pub ignore_message: bool,
}

impl LineFramer {
    pub open spec fn wf(&self) -> bool {
        self.receive_buffer@.len() <= RECEIVE_BUFFER_SIZE
    }

    pub fn new() -> (r: LineFramer)
        ensures
            r.wf(),
            r.receive_buffer@ == Seq::<u8>::empty(),
            !r.ignore_message,
    {
        LineFramer { receive_buffer: Vec::new(), ignore_message: false }
    }

    /// Empties the receive buffer and returns what it held.
    fn take_buffer(&mut self) -> (r: Vec<u8>)
        ensures
            r@ == old(self).receive_buffer@,
            final(self).receive_buffer@ == Seq::<u8>::empty(),
            final(self).ignore_message == old(self).ignore_message,
    {
        let mut taken: Vec<u8> = Vec::new();
        core::mem::swap(&mut self.receive_buffer, &mut taken);
        taken
    }

    /// Takes one received byte.
    pub fn push_byte(&mut self, byte: u8) -> (r: FramerEvent)
        requires
            old(self).wf(),
        ensures
            final(self).wf(),
            byte == NEWLINE ==> {
                &&& final(self).receive_buffer@ == Seq::<u8>::empty()
                &&& !final(self).ignore_message
                &&& if old(self).ignore_message {
                    r is Nothing
                } else {
                    r matches FramerEvent::Line(line) && line@ == old(self).receive_buffer@
                }
            },
            byte != NEWLINE && old(self).receive_buffer@.len() < RECEIVE_BUFFER_SIZE ==> {
                &&& final(self).receive_buffer@ == old(self).receive_buffer@.push(byte)
                &&& final(self).ignore_message == old(self).ignore_message
                &&& r is Nothing
            },
            byte != NEWLINE && old(self).receive_buffer@.len() >= RECEIVE_BUFFER_SIZE ==> {
                &&& final(self).receive_buffer@ == Seq::<u8>::empty()
                &&& final(self).ignore_message
                &&& r matches FramerEvent::Overflow(dropped) && dropped@ == old(self).receive_buffer@
            },
    {
        if byte == NEWLINE {
            let line = self.take_buffer();
            if self.ignore_message {
                self.ignore_message = false;
                FramerEvent::Nothing
            } else {
                FramerEvent::Line(line)
            }
        } else if self.receive_buffer.len() < RECEIVE_BUFFER_SIZE {
            self.receive_buffer.push(byte);
            FramerEvent::Nothing
        } else {
            self.ignore_message = true;
            let dropped = self.take_buffer();
            FramerEvent::Overflow(dropped)
        }
    }
}

} // verus!
