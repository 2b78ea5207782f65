//! Metadata records emitted by protocol parsers, and the bounded queue
//! that carries them from parsers to the caller.

use vstd::prelude::*;

verus! {

/// Which half-stream a frame belongs to; the caller classifies each frame.
#[derive(Debug, Clone, Copy, PartialEq, Eq, Structural)]
pub enum PktDirection {
    Client2Server,
    Server2Client,
    BiDirection,
    Unknown,
}

/// Direction values of the engine's outer interface, with a stable
/// variant order for callers that encode them as integers.
#[derive(Debug, Clone, Copy, PartialEq, Eq, Structural)]
pub enum PacketDir {
    C2s,
    S2c,
    BiDir,
    Unknown,
}

impl From<PacketDir> for PktDirection {
    fn from(dir: PacketDir) -> (r: PktDirection) {
        match dir {
            PacketDir::C2s => PktDirection::Client2Server,
            PacketDir::S2c => PktDirection::Server2Client,
            PacketDir::BiDir => PktDirection::BiDirection,
            PacketDir::Unknown => PktDirection::Unknown,
        }
    }
}

impl vstd::std_specs::convert::FromSpecImpl<PacketDir> for PktDirection {
    open spec fn obeys_from_spec() -> bool {
        true
    }

    open spec fn from_spec(dir: PacketDir) -> PktDirection {
        match dir {
            PacketDir::C2s => PktDirection::Client2Server,
            PacketDir::S2c => PktDirection::Server2Client,
            PacketDir::BiDir => PktDirection::BiDirection,
            PacketDir::Unknown => PktDirection::Unknown,
        }
    }
}

/// Protocol parser kinds the engine knows about.
#[derive(Debug, Clone, Copy, PartialEq, Eq, Structural)]
pub enum ParserType {
    Smtp,
    Http,
    Undef,
}

/// An SMTP event recognized on the command stream.
#[derive(Debug, Clone, PartialEq, Eq)]
pub enum MetaSmtp {
    /// The login name offered after `AUTH LOGIN` (base64 as transmitted).
    User(String),
    /// The password offered after the login name (base64 as transmitted).
    Pass(String),
    /// Sender address of `MAIL FROM:<...>`, with the declared `SIZE=` hint
    /// (0 when absent).
    MailFrom(String, u64),
    /// Recipient address of `RCPT TO:<...>`.
    RcptTo(String),
    /// The `Subject:` header line of the message body.
    Subject(String),
}

/// HTTP events; reserved, no variants yet.
#[derive(Debug, Clone, PartialEq, Eq)]
pub enum MetaHttp {
    Reserved(String),
}

/// A metadata record, tagged by protocol.
#[derive(Debug, Clone, PartialEq, Eq)]
pub enum Meta {
    Smtp(MetaSmtp),
    Http(MetaHttp),
}

/// Discriminant of an SMTP record, for callers that switch on the kind.
#[derive(Debug, Clone, Copy, PartialEq, Eq, Structural)]
pub enum MetaSmtpType {
    User,
    Pass,
    MailFrom,
    RcptTo,
    Subject,
    Undef,
}

/// The protocol a record belongs to.
pub fn meta_protocol(meta: &Meta) -> (r: ParserType)
    ensures
        r == (match meta {
            Meta::Smtp(_) => ParserType::Smtp,
            Meta::Http(_) => ParserType::Http,
        }),
{
    match meta {
        Meta::Smtp(_) => ParserType::Smtp,
        Meta::Http(_) => ParserType::Http,
    }
}

/// The kind of an SMTP record; `Undef` for records of another protocol.
pub fn smtp_meta_type(meta: &Meta) -> (r: MetaSmtpType)
    ensures
        r == (match meta {
            Meta::Smtp(MetaSmtp::User(_)) => MetaSmtpType::User,
            Meta::Smtp(MetaSmtp::Pass(_)) => MetaSmtpType::Pass,
            Meta::Smtp(MetaSmtp::MailFrom(_, _)) => MetaSmtpType::MailFrom,
            Meta::Smtp(MetaSmtp::RcptTo(_)) => MetaSmtpType::RcptTo,
            Meta::Smtp(MetaSmtp::Subject(_)) => MetaSmtpType::Subject,
            Meta::Http(_) => MetaSmtpType::Undef,
        }),
{
    match meta {
        Meta::Smtp(MetaSmtp::User(_)) => MetaSmtpType::User,
        Meta::Smtp(MetaSmtp::Pass(_)) => MetaSmtpType::Pass,
        Meta::Smtp(MetaSmtp::MailFrom(_, _)) => MetaSmtpType::MailFrom,
        Meta::Smtp(MetaSmtp::RcptTo(_)) => MetaSmtpType::RcptTo,
        Meta::Smtp(MetaSmtp::Subject(_)) => MetaSmtpType::Subject,
        Meta::Http(_) => MetaSmtpType::Undef,
    }
}

/// The login name carried by an SMTP `User` record, if that is what the
/// record is.
pub fn smtp_meta_user(meta: &Meta) -> (r: Option<String>)
    ensures
        match meta {
            Meta::Smtp(MetaSmtp::User(u)) => r matches Some(s) && s@ == u@,
            _ => r is None,
        },
{
    match meta {
        Meta::Smtp(MetaSmtp::User(u)) => Some(u.clone()),
        _ => None,
    }
}

/// Most records the queue holds before emitters are made to wait.
pub const META_QUEUE_CAP: usize = 64;

/// Bounded FIFO of metadata records, drained by the caller.
#[derive(Debug)]
pub struct MetaQueue {
    pub q: Vec<Meta>,
}

impl MetaQueue {
    pub open spec fn wf(self) -> bool {
        self.q@.len() <= META_QUEUE_CAP
    }

    pub fn new() -> (r: MetaQueue)
        ensures
            r.wf(),
            r.q@.len() == 0,
    {
        MetaQueue { q: Vec::new() }
    }

    pub fn len(&self) -> (r: usize)
        ensures
            r == self.q@.len(),
    {
        self.q.len()
    }

    pub fn is_full(&self) -> (r: bool)
        ensures
            r == (self.q@.len() >= META_QUEUE_CAP),
    {
        self.q.len() >= META_QUEUE_CAP
    }

    /// Append a record; a full queue refuses it and the emitter must wait
    /// until the caller drains.
    pub fn emit(&mut self, m: Meta) -> (r: bool)
        requires
            old(self).wf(),
        ensures
            final(self).wf(),
            old(self).q@.len() < META_QUEUE_CAP ==> r && final(self).q@ == old(self).q@.push(m),
            old(self).q@.len() >= META_QUEUE_CAP ==> !r && final(self).q@ == old(self).q@,
    {
        if self.q.len() < META_QUEUE_CAP {
            self.q.push(m);
            true
        } else {
            false
        }
    }

    /// Remove and return the oldest record, if any.
    pub fn pop(&mut self) -> (r: Option<Meta>)
        requires
            old(self).wf(),
        ensures
            final(self).wf(),
            old(self).q@.len() == 0 ==> r is None && final(self).q@ == old(self).q@,
            old(self).q@.len() > 0 ==> r == Some(old(self).q@[0]) && final(self).q@ == old(
                self,
            ).q@.drop_first(),
    {
        if self.q.len() == 0 {
            return None;
        }
        let m = self.q.remove(0);
        assert(old(self).q@.remove(0) =~= old(self).q@.drop_first());
        Some(m)
    }
}

impl Default for MetaQueue {
    fn default() -> (r: Self)
        ensures
            r.wf(),
            r.q@.len() == 0,
    {
        MetaQueue::new()
    }
}

} // verus!
