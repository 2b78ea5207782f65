//! Per-flow TCP reassembly and application-protocol dissection.
//!
//! Raw frames of one bidirectional TCP conversation arrive out of order,
//! duplicated or overlapping; the engine reorders them per half-stream,
//! exposes the reassembled bytes as a lazy stream, and drives protocol
//! parsers written as poll-style state machines that emit metadata records.

mod meta;
mod packet;
mod pktstrm;
mod smtp;
mod task;

pub use meta::{META_QUEUE_CAP, Meta, PacketDir, MetaHttp, MetaQueue, MetaSmtp, MetaSmtpType, ParserType,
    PktDirection, meta_protocol, smtp_meta_type, smtp_meta_user};
pub use packet::{DecodedFrame, MAX_PACKET_LEN, Packet, PacketError, PktHeader, TransportKind,
    spec_decode};
pub use pktstrm::{BytePoll, MAX_CACHE_PKTS, PktPoll, PktStrm, ReadPoll, bare_ctl, cache_ok,
    cache_sorted, cacheable, covered, deliverable, distinct_seqs, frame_tail, lemma_byte_step,
    lemma_dedup_props, lemma_fin_terminal, lemma_fin_terminal_bare_fin,
    lemma_fin_terminal_bare_syn_empty, lemma_monotonic_delivery,
    lemma_permutation_invariance, lemma_push_order_immaterial, lemma_retransmission_idempotent, lemma_seek_fixpoint,
    lemma_sorted_unique, lemma_syn_accounting, push_rel, sat_add, spec_dedup, spec_next_byte,
    spec_peek_ord, spec_peek_ord_data, spec_pop_ord, spec_pop_ord_data, spec_seek_data};
pub use smtp::{SmtpMode, classify_line, SmtpParser, HttpParser};
pub use task::{InertWaker, Parser, ParserPoll, Task, TaskState, dummy_raw_waker};
