//! The task: two half-streams, up to three parsers, and the metadata queue.
//!
//! Parsers are poll-style state machines.  Each `run` call appends the frame
//! to the half-stream of its direction, polls that direction's parser, then
//! polls the bidirectional parser; a parser that cannot make progress
//! reports `Pending` and is resumed by a later `run`.

use vstd::prelude::*;

use crate::meta::{Meta, MetaQueue, PktDirection};
use crate::packet::Packet;
use crate::pktstrm::{push_rel, PktStrm};

verus! {

/// Lifecycle of one parser within a task.
#[derive(Debug, Clone, Copy, PartialEq, Eq, Structural)]
pub enum TaskState {
    /// Still working (or never started).
    Start,
    /// Ran to completion; not polled again.
    End,
    /// Failed; abandoned, the sibling parsers continue.
    Error,
}

/// What one parser poll reports.
#[derive(Debug, Clone, Copy, PartialEq, Eq, Structural)]
pub enum ParserPoll {
    /// Blocked on data not yet in order; poll again after the next frame.
    Pending,
    /// The parser ran to completion.
    Ready,
    /// The parser hit an unrecoverable condition.
    Error,
}

/// The waker the driver polls parsers with.  It carries no state and does
/// nothing when woken: parser progress is always caused by a fresh frame
/// handed to `run`, never by an external wake-up.
#[derive(Debug, Clone, Copy, PartialEq, Eq, Structural)]
pub struct InertWaker {
}

/// Make the inert waker for one poll cycle.
pub fn dummy_raw_waker() -> (r: InertWaker)
    ensures
        r == (InertWaker {  }),
{
    InertWaker {  }
}

/// A protocol parser: three resumable procedures over the half-streams.
/// Each poll may read from its stream(s), emit records, and must leave the
/// stream and queue well formed.  The defaults complete immediately, so an
/// implementation overrides only the directions it cares about.
pub trait Parser {
    fn poll_c2s(&mut self, stream: &mut PktStrm, meta: &mut MetaQueue) -> (r: ParserPoll)
        requires
            old(stream).wf(),
            old(meta).wf(),
        ensures
            final(stream).wf(),
            final(meta).wf(),
    {
        ParserPoll::Ready
    }

    fn poll_s2c(&mut self, stream: &mut PktStrm, meta: &mut MetaQueue) -> (r: ParserPoll)
        requires
            old(stream).wf(),
            old(meta).wf(),
        ensures
            final(stream).wf(),
            final(meta).wf(),
    {
        ParserPoll::Ready
    }

    fn poll_bdir(
        &mut self,
        c2s_stream: &mut PktStrm,
        s2c_stream: &mut PktStrm,
        meta: &mut MetaQueue,
    ) -> (r: ParserPoll)
        requires
            old(c2s_stream).wf(),
            old(s2c_stream).wf(),
            old(meta).wf(),
        ensures
            final(c2s_stream).wf(),
            final(s2c_stream).wf(),
            final(meta).wf(),
    {
        ParserPoll::Ready
    }
}

/// One reassembly task: a pair of half-streams, an optional parser bound to
/// them, per-direction parser states, and the queue of emitted records.
pub struct Task<P: Parser> {
    pub stream_c2s: PktStrm,
    pub stream_s2c: PktStrm,
    pub parser: Option<P>,
    pub c2s_state: TaskState,
    pub s2c_state: TaskState,
    pub bdir_state: TaskState,
    pub meta_q: MetaQueue,
}

impl<P: Parser> Task<P> {
    pub open spec fn wf(self) -> bool {
        &&& self.stream_c2s.wf()
        &&& self.stream_s2c.wf()
        &&& self.meta_q.wf()
    }

    /// A task with no parser bound: frames are cached, nothing is polled.
    pub fn new() -> (r: Task<P>)
        ensures
            r.wf(),
            r.parser is None,
            r.c2s_state == TaskState::Start,
            r.s2c_state == TaskState::Start,
            r.bdir_state == TaskState::Start,
            r.stream_c2s.cache@.len() == 0,
            r.stream_c2s.next_seq == 0,
            !r.stream_c2s.fin,
            r.stream_s2c.cache@.len() == 0,
            r.stream_s2c.next_seq == 0,
            !r.stream_s2c.fin,
            r.meta_q.q@.len() == 0,
    {
        Task {
            stream_c2s: PktStrm::new(),
            stream_s2c: PktStrm::new(),
            parser: None,
            c2s_state: TaskState::Start,
            s2c_state: TaskState::Start,
            bdir_state: TaskState::Start,
            meta_q: MetaQueue::new(),
        }
    }

    /// A task with a parser bound from the start.
    pub fn new_with_parser(parser: P) -> (r: Task<P>)
        ensures
            r.wf(),
            r.parser == Some(parser),
            r.c2s_state == TaskState::Start,
            r.s2c_state == TaskState::Start,
            r.bdir_state == TaskState::Start,
            r.stream_c2s.cache@.len() == 0,
            r.stream_c2s.next_seq == 0,
            !r.stream_c2s.fin,
            r.stream_s2c.cache@.len() == 0,
            r.stream_s2c.next_seq == 0,
            !r.stream_s2c.fin,
            r.meta_q.q@.len() == 0,
    {
        Task {
            stream_c2s: PktStrm::new(),
            stream_s2c: PktStrm::new(),
            parser: Some(parser),
            c2s_state: TaskState::Start,
            s2c_state: TaskState::Start,
            bdir_state: TaskState::Start,
            meta_q: MetaQueue::new(),
        }
    }

    /// Bind (or re-bind) a parser.  Binding is a fresh start for all three
    /// parser procedures, so their states return to `Start`; the cached
    /// frames, delivery state and queued records are kept.
    pub fn init_parser(&mut self, parser: P)
        requires
            old(self).wf(),
        ensures
            final(self).wf(),
            final(self).parser == Some(parser),
            final(self).stream_c2s == old(self).stream_c2s,
            final(self).stream_s2c == old(self).stream_s2c,
            final(self).c2s_state == TaskState::Start,
            final(self).s2c_state == TaskState::Start,
            final(self).bdir_state == TaskState::Start,
            final(self).meta_q == old(self).meta_q,
    {
        self.parser = Some(parser);
        self.c2s_state = TaskState::Start;
        self.s2c_state = TaskState::Start;
        self.bdir_state = TaskState::Start;
    }

    fn c2s_run(&mut self)
        requires
            old(self).wf(),
        ensures
            final(self).wf(),
            final(self).parser is Some <==> old(self).parser is Some,
            final(self).stream_s2c == old(self).stream_s2c,
            final(self).s2c_state == old(self).s2c_state,
            final(self).bdir_state == old(self).bdir_state,
            old(self).c2s_state != TaskState::Start ==> *final(self) == *old(self),
            old(self).parser is None ==> *final(self) == *old(self),
    {
        if !(self.c2s_state == TaskState::Start) {
            return;
        }
        match &mut self.parser {
            Some(p) => {
                let r = p.poll_c2s(&mut self.stream_c2s, &mut self.meta_q);
                match r {
                    ParserPoll::Ready => {
                        self.c2s_state = TaskState::End;
                    }
                    ParserPoll::Error => {
                        self.c2s_state = TaskState::Error;
                    }
                    ParserPoll::Pending => {}
                }
            }
            None => {}
        }
    }

    fn s2c_run(&mut self)
        requires
            old(self).wf(),
        ensures
            final(self).wf(),
            final(self).parser is Some <==> old(self).parser is Some,
            final(self).stream_c2s == old(self).stream_c2s,
            final(self).c2s_state == old(self).c2s_state,
            final(self).bdir_state == old(self).bdir_state,
            old(self).s2c_state != TaskState::Start ==> *final(self) == *old(self),
            old(self).parser is None ==> *final(self) == *old(self),
    {
        if !(self.s2c_state == TaskState::Start) {
            return;
        }
        match &mut self.parser {
            Some(p) => {
                let r = p.poll_s2c(&mut self.stream_s2c, &mut self.meta_q);
                match r {
                    ParserPoll::Ready => {
                        self.s2c_state = TaskState::End;
                    }
                    ParserPoll::Error => {
                        self.s2c_state = TaskState::Error;
                    }
                    ParserPoll::Pending => {}
                }
            }
            None => {}
        }
    }

    fn bdir_run(&mut self)
        requires
            old(self).wf(),
        ensures
            final(self).wf(),
            final(self).parser is Some <==> old(self).parser is Some,
            final(self).c2s_state == old(self).c2s_state,
            final(self).s2c_state == old(self).s2c_state,
            old(self).bdir_state != TaskState::Start ==> *final(self) == *old(self),
            old(self).parser is None ==> *final(self) == *old(self),
    {
        if !(self.bdir_state == TaskState::Start) {
            return;
        }
        match &mut self.parser {
            Some(p) => {
                let r = p.poll_bdir(&mut self.stream_c2s, &mut self.stream_s2c, &mut self.meta_q);
                match r {
                    ParserPoll::Ready => {
                        self.bdir_state = TaskState::End;
                    }
                    ParserPoll::Error => {
                        self.bdir_state = TaskState::Error;
                    }
                    ParserPoll::Pending => {}
                }
            }
            None => {}
        }
    }

    /// Feed one frame: append it to its direction's half-stream, poll that
    /// direction's parser, then the bidirectional one.  Frames with an
    /// unknown (or bidirectional) direction are discarded unpolled.
    pub fn run(&mut self, pkt: Packet, pkt_dir: PktDirection)
        requires
            old(self).wf(),
            pkt.wf(),
            pkt.spec_decoded(),
        ensures
            final(self).wf(),
            final(self).parser is Some <==> old(self).parser is Some,
            (pkt_dir is Unknown || pkt_dir is BiDirection) ==> *final(self) == *old(self),
            old(self).c2s_state != TaskState::Start ==> final(self).c2s_state == old(self).c2s_state,
            old(self).s2c_state != TaskState::Start ==> final(self).s2c_state == old(self).s2c_state,
            old(self).bdir_state != TaskState::Start ==> final(self).bdir_state == old(self).bdir_state,
            pkt_dir is Client2Server ==> final(self).s2c_state == old(self).s2c_state,
            pkt_dir is Server2Client ==> final(self).c2s_state == old(self).c2s_state,
            old(self).parser is None && pkt_dir is Client2Server ==> {
                &&& push_rel(old(self).stream_c2s, final(self).stream_c2s, pkt)
                &&& final(self).stream_s2c == old(self).stream_s2c
                &&& final(self).meta_q == old(self).meta_q
                &&& final(self).c2s_state == old(self).c2s_state
                &&& final(self).bdir_state == old(self).bdir_state
            },
            old(self).parser is None && pkt_dir is Server2Client ==> {
                &&& push_rel(old(self).stream_s2c, final(self).stream_s2c, pkt)
                &&& final(self).stream_c2s == old(self).stream_c2s
                &&& final(self).meta_q == old(self).meta_q
                &&& final(self).s2c_state == old(self).s2c_state
                &&& final(self).bdir_state == old(self).bdir_state
            },
    {
        match pkt_dir {
            PktDirection::Client2Server => {
                self.stream_c2s.push(pkt);
                self.c2s_run();
            }
            PktDirection::Server2Client => {
                self.stream_s2c.push(pkt);
                self.s2c_run();
            }
            _ => {
                return;
            }
        }
        self.bdir_run();
    }

    /// The state of the parser bound to `dir`; `Unknown` has no parser and
    /// reports `Error`.
    pub fn parser_state(&self, dir: PktDirection) -> (r: TaskState)
        ensures
            r == (match dir {
                PktDirection::Client2Server => self.c2s_state,
                PktDirection::Server2Client => self.s2c_state,
                PktDirection::BiDirection => self.bdir_state,
                PktDirection::Unknown => TaskState::Error,
            }),
    {
        match dir {
            PktDirection::Client2Server => self.c2s_state,
            PktDirection::Server2Client => self.s2c_state,
            PktDirection::BiDirection => self.bdir_state,
            PktDirection::Unknown => TaskState::Error,
        }
    }

    /// Drain one metadata record, oldest first.
    pub fn get_meta(&mut self) -> (r: Option<Meta>)
        requires
            old(self).wf(),
        ensures
            final(self).wf(),
            final(self).stream_c2s == old(self).stream_c2s,
            final(self).stream_s2c == old(self).stream_s2c,
            final(self).c2s_state == old(self).c2s_state,
            final(self).s2c_state == old(self).s2c_state,
            final(self).bdir_state == old(self).bdir_state,
            old(self).meta_q.q@.len() == 0 ==> r is None && final(self).meta_q.q@ == old(self).meta_q.q@,
            old(self).meta_q.q@.len() > 0 ==> r == Some(old(self).meta_q.q@[0])
                && final(self).meta_q.q@ == old(self).meta_q.q@.drop_first(),
    {
        self.meta_q.pop()
    }
}

impl<P: Parser> Default for Task<P> {
    fn default() -> (r: Self)
        ensures
            r.wf(),
            r.parser is None,
            r.c2s_state == TaskState::Start,
            r.s2c_state == TaskState::Start,
            r.bdir_state == TaskState::Start,
            r.stream_c2s.cache@.len() == 0,
            r.stream_c2s.next_seq == 0,
            !r.stream_c2s.fin,
            r.stream_s2c.cache@.len() == 0,
            r.stream_s2c.next_seq == 0,
            !r.stream_s2c.fin,
            r.meta_q.q@.len() == 0,
    {
        Task::new()
    }
}

} // verus!
