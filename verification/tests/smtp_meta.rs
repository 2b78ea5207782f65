use etherparse::{PacketBuilder, TcpOptionElement};
use memerge::{
    BytePoll, Meta, MetaQueue, MetaSmtp, MetaSmtpType, MetaHttp, Packet, PacketDir, Parser,
    ParserPoll, ParserType, PktDirection, PktStrm, SmtpMode, SmtpParser, Task, TaskState,
    classify_line, meta_protocol, smtp_meta_type, smtp_meta_user, MAX_CACHE_PKTS,
};

fn build_pkt_payload(seq: u32, payload: &[u8], syn: bool, fin: bool) -> Packet {
    let mut builder = PacketBuilder::ethernet2([1, 2, 3, 4, 5, 6], [7, 8, 9, 10, 11, 12])
        .ipv4([192, 168, 1, 1], [192, 168, 1, 2], 20)
        .tcp(25, 4000, seq, 1024)
        .ns()
        .urg(23)
        .options(&[
            TcpOptionElement::Noop,
            TcpOptionElement::MaximumSegmentSize(1234),
        ])
        .unwrap();
    if syn {
        builder = builder.syn();
    }
    if fin {
        builder = builder.fin();
    }
    let mut result = Vec::<u8>::with_capacity(builder.size(payload.len()));
    builder.write(&mut result, payload).unwrap();
    let mut pkt = Packet::new(1, result.len(), &result);
    pkt.decode().unwrap();
    pkt
}

fn build_udp_pkt(payload: &[u8]) -> Packet {
    let builder = PacketBuilder::ethernet2([1, 2, 3, 4, 5, 6], [7, 8, 9, 10, 11, 12])
        .ipv4([192, 168, 1, 1], [192, 168, 1, 2], 20)
        .udp(25, 4000);
    let mut result = Vec::<u8>::with_capacity(builder.size(payload.len()));
    builder.write(&mut result, payload).unwrap();
    let mut pkt = Packet::new(1, result.len(), &result);
    pkt.decode().unwrap();
    pkt
}

// the SMTP walkthrough: login, envelope, body with subject
#[test]
fn test_smtp_session() {
    let lines: &[&[u8]] = &[
        b"AUTH LOGIN\r\n",
        b"dXNlcjEyMzQ1QGV4YW1wbGUxMjMuY29t\r\n",
        b"MTIzNDU2Nzg=\r\n",
        b"MAIL FROM:<user12345@example123.com> SIZE=10557\r\n",
        b"RCPT TO:<user12345@example123.com>\r\n",
        b"DATA\r\n",
        b"Subject: biaoti\r\n",
        b"\r\n",
        b"mail body line.\r\n",
        b".\r\n",
    ];
    let dir = PktDirection::Client2Server;
    let mut task = Task::new_with_parser(SmtpParser::new());
    let mut seq: u32 = 1;
    for line in lines {
        let pkt = build_pkt_payload(seq, line, false, false);
        seq += line.len() as u32;
        task.run(pkt, dir.clone());
    }
    let fin = build_pkt_payload(seq, b"", false, true);
    task.run(fin, dir.clone());
    assert_eq!(TaskState::End, task.parser_state(dir.clone()));

    let mut got: Vec<Meta> = Vec::new();
    while let Some(m) = task.get_meta() {
        got.push(m);
    }
    assert_eq!(
        vec![
            Meta::Smtp(MetaSmtp::User("dXNlcjEyMzQ1QGV4YW1wbGUxMjMuY29t".to_string())),
            Meta::Smtp(MetaSmtp::Pass("MTIzNDU2Nzg=".to_string())),
            Meta::Smtp(MetaSmtp::MailFrom("user12345@example123.com".to_string(), 10557)),
            Meta::Smtp(MetaSmtp::RcptTo("user12345@example123.com".to_string())),
            Meta::Smtp(MetaSmtp::Subject("biaoti".to_string())),
        ],
        got
    );
}

// the same session with the frames arriving shuffled
#[test]
fn test_smtp_session_shuffled() {
    let lines: &[&[u8]] = &[
        b"AUTH LOGIN\r\n",
        b"dXNlcjEyMzQ1QGV4YW1wbGUxMjMuY29t\r\n",
        b"MTIzNDU2Nzg=\r\n",
        b"MAIL FROM:<user12345@example123.com> SIZE=10557\r\n",
        b"RCPT TO:<user12345@example123.com>\r\n",
    ];
    let mut pkts: Vec<Packet> = Vec::new();
    let mut seq: u32 = 1;
    for line in lines {
        pkts.push(build_pkt_payload(seq, line, false, false));
        seq += line.len() as u32;
    }
    let fin = build_pkt_payload(seq, b"", false, true);

    // the first line must arrive first: the engine adopts the first
    // observed top-of-cache sequence as the start of the stream
    let dir = PktDirection::Client2Server;
    let mut task = Task::new_with_parser(SmtpParser::new());
    task.run(pkts[0].clone(), dir.clone());
    task.run(fin, dir.clone());
    task.run(pkts[4].clone(), dir.clone());
    task.run(pkts[2].clone(), dir.clone());
    task.run(pkts[3].clone(), dir.clone());
    task.run(pkts[1].clone(), dir.clone());
    assert_eq!(TaskState::End, task.parser_state(dir.clone()));

    let mut got: Vec<Meta> = Vec::new();
    while let Some(m) = task.get_meta() {
        got.push(m);
    }
    assert_eq!(
        vec![
            Meta::Smtp(MetaSmtp::User("dXNlcjEyMzQ1QGV4YW1wbGUxMjMuY29t".to_string())),
            Meta::Smtp(MetaSmtp::Pass("MTIzNDU2Nzg=".to_string())),
            Meta::Smtp(MetaSmtp::MailFrom("user12345@example123.com".to_string(), 10557)),
            Meta::Smtp(MetaSmtp::RcptTo("user12345@example123.com".to_string())),
        ],
        got
    );
}

#[test]
fn test_classify_mail_from_no_size() {
    let line: Vec<u8> = b"MAIL FROM:<a@b.c>\r\n".to_vec();
    let (mode, m) = classify_line(SmtpMode::Command, &line);
    assert_eq!(SmtpMode::Command, mode);
    assert_eq!(Some(MetaSmtp::MailFrom("a@b.c".to_string(), 0)), m);
}

#[test]
fn test_classify_mail_from_size_too_long() {
    let line: Vec<u8> = b"MAIL FROM:<a@b.c> SIZE=12345678901234567890\r\n".to_vec();
    let (_, m) = classify_line(SmtpMode::Command, &line);
    assert_eq!(Some(MetaSmtp::MailFrom("a@b.c".to_string(), 0)), m);
}

#[test]
fn test_classify_mail_from_unclosed() {
    let line: Vec<u8> = b"MAIL FROM:a@b.c\r\n".to_vec();
    let (_, m) = classify_line(SmtpMode::Command, &line);
    assert_eq!(None, m);
}

#[test]
fn test_classify_subject_only_in_body() {
    let line: Vec<u8> = b"Subject: hello\r\n".to_vec();
    let (mode, m) = classify_line(SmtpMode::Command, &line);
    assert_eq!(SmtpMode::Command, mode);
    assert_eq!(None, m);
    let (mode2, m2) = classify_line(SmtpMode::Body, &line);
    assert_eq!(SmtpMode::Body, mode2);
    assert_eq!(Some(MetaSmtp::Subject("hello".to_string())), m2);
}

#[test]
fn test_classify_end_dot_leaves_body() {
    let line: Vec<u8> = b".\r\n".to_vec();
    let (mode, m) = classify_line(SmtpMode::Body, &line);
    assert_eq!(SmtpMode::Command, mode);
    assert_eq!(None, m);
}

#[test]
fn test_classify_auth_login_chain() {
    let (mode, m) = classify_line(SmtpMode::Command, &b"AUTH LOGIN\r\n".to_vec());
    assert_eq!(SmtpMode::AuthUser, mode);
    assert_eq!(None, m);
    let (mode, m) = classify_line(mode, &b"dXNlcg==\r\n".to_vec());
    assert_eq!(SmtpMode::AuthPass, mode);
    assert_eq!(Some(MetaSmtp::User("dXNlcg==".to_string())), m);
    let (mode, m) = classify_line(mode, &b"cGFzcw==\r\n".to_vec());
    assert_eq!(SmtpMode::Command, mode);
    assert_eq!(Some(MetaSmtp::Pass("cGFzcw==".to_string())), m);
}

// overlap: 1-10, 11-20, 15-24, 25-34; each stream position delivered once
#[test]
fn test_overlap_bytes() {
    let payload: [u8; 10] = [1, 2, 3, 4, 5, 6, 7, 8, 9, 10];
    let mut stm = PktStrm::new();
    stm.push(build_pkt_payload(1, &payload, false, false));
    stm.push(build_pkt_payload(11, &payload, false, false));
    stm.push(build_pkt_payload(15, &payload, false, false));
    stm.push(build_pkt_payload(25, &payload, false, false));

    let mut got: Vec<u8> = Vec::new();
    loop {
        match stm.next_byte() {
            BytePoll::Byte(b) => got.push(b),
            BytePoll::Pending => break,
            BytePoll::End => panic!("no fin was pushed"),
        }
    }
    let mut expect: Vec<u8> = Vec::new();
    expect.extend_from_slice(&payload);
    expect.extend_from_slice(&payload);
    expect.extend_from_slice(&[7, 8, 9, 10]);
    expect.extend_from_slice(&payload);
    assert_eq!(34, got.len());
    assert_eq!(expect, got);
    assert_eq!(35, stm.next_seq);
}

// a hole: 1-10 arrives, 21-30 arrives, 11-20 never; the parser stays Start
#[test]
fn test_hole_parser_stays_start() {
    struct ThirtyBytes {
        count: u32,
    }
    impl Parser for ThirtyBytes {
        fn poll_c2s(&mut self, stream: &mut PktStrm, _meta: &mut MetaQueue) -> ParserPoll {
            loop {
                match stream.next_byte() {
                    BytePoll::Byte(_) => self.count += 1,
                    BytePoll::Pending => return ParserPoll::Pending,
                    BytePoll::End => return ParserPoll::Ready,
                }
            }
        }
    }

    let payload: [u8; 10] = [1, 2, 3, 4, 5, 6, 7, 8, 9, 10];
    let dir = PktDirection::Client2Server;
    let mut task = Task::new_with_parser(ThirtyBytes { count: 0 });
    task.run(build_pkt_payload(1, &payload, false, false), dir.clone());
    task.run(build_pkt_payload(21, &payload, false, true), dir.clone());
    assert_eq!(TaskState::Start, task.parser_state(dir.clone()));
}

// the cache bound: pushes beyond the bound are dropped, newest first
#[test]
fn test_cache_bound() {
    let payload: [u8; 10] = [1, 2, 3, 4, 5, 6, 7, 8, 9, 10];
    let mut stm = PktStrm::new();
    let mut seq: u32 = 1;
    for _ in 0..40 {
        stm.push(build_pkt_payload(seq, &payload, false, false));
        seq += 10;
    }
    assert_eq!(MAX_CACHE_PKTS, stm.len());
}

// non-TCP frames are silently rejected
#[test]
fn test_push_non_tcp() {
    let mut stm = PktStrm::new();
    stm.push(build_udp_pkt(b"0123456789"));
    assert_eq!(0, stm.len());
    assert!(stm.is_empty());
}

// a frame whose payload would run past the 32-bit sequence space is dropped
#[test]
fn test_push_seq_wrap_rejected() {
    let payload: [u8; 10] = [1, 2, 3, 4, 5, 6, 7, 8, 9, 10];
    let mut stm = PktStrm::new();
    stm.push(build_pkt_payload(u32::MAX - 5, &payload, false, false));
    assert_eq!(0, stm.len());
}

// frames with an unknown direction are discarded without polling
#[test]
fn test_run_unknown_direction() {
    let payload: [u8; 10] = [1, 2, 3, 4, 5, 6, 7, 8, 9, 10];
    let mut task: Task<SmtpParser> = Task::new();
    task.run(build_pkt_payload(1, &payload, false, false), PktDirection::Unknown);
    assert_eq!(0, task.stream_c2s.len());
    assert_eq!(0, task.stream_s2c.len());
    assert_eq!(TaskState::Start, task.parser_state(PktDirection::Client2Server));
    assert_eq!(TaskState::Error, task.parser_state(PktDirection::Unknown));
}

// a fresh task with a late-bound parser still parses
#[test]
fn test_init_parser() {
    let dir = PktDirection::Client2Server;
    let mut task: Task<SmtpParser> = Task::new();
    task.init_parser(SmtpParser::new());
    let line: &[u8] = b"MAIL FROM:<x@y.z>\r\n";
    task.run(build_pkt_payload(1, line, false, false), dir.clone());
    let fin = build_pkt_payload(1 + line.len() as u32, b"", false, true);
    task.run(fin, dir.clone());
    assert_eq!(
        Some(Meta::Smtp(MetaSmtp::MailFrom("x@y.z".to_string(), 0))),
        task.get_meta()
    );
    assert_eq!(None, task.get_meta());
}

// re-binding a parser is a fresh start: states return to Start even after End
#[test]
fn test_init_parser_resets_states() {
    let dir = PktDirection::Client2Server;
    let mut task = Task::new_with_parser(SmtpParser::new());
    let line: &[u8] = b"RCPT TO:<a@b.c>\r\n";
    task.run(build_pkt_payload(1, line, false, false), dir.clone());
    let fin = build_pkt_payload(1 + line.len() as u32, b"", false, true);
    task.run(fin, dir.clone());
    assert_eq!(TaskState::End, task.parser_state(dir.clone()));

    task.init_parser(SmtpParser::new());
    assert_eq!(TaskState::Start, task.parser_state(PktDirection::Client2Server));
    assert_eq!(TaskState::Start, task.parser_state(PktDirection::Server2Client));
    assert_eq!(TaskState::Start, task.parser_state(PktDirection::BiDirection));
    assert_eq!(
        Some(Meta::Smtp(MetaSmtp::RcptTo("a@b.c".to_string()))),
        task.get_meta()
    );
}

// the metadata queue is a bounded FIFO
#[test]
fn test_meta_queue_bound() {
    let mut q = MetaQueue::new();
    for i in 0..64 {
        assert!(q.emit(Meta::Smtp(MetaSmtp::RcptTo(format!("r{}", i)))));
    }
    assert!(q.is_full());
    assert!(!q.emit(Meta::Smtp(MetaSmtp::RcptTo("over".to_string()))));
    assert_eq!(64, q.len());
    assert_eq!(Some(Meta::Smtp(MetaSmtp::RcptTo("r0".to_string()))), q.pop());
    assert_eq!(63, q.len());
}

#[test]
fn test_meta_accessors() {
    let user = Meta::Smtp(MetaSmtp::User("u".to_string()));
    let http = Meta::Http(MetaHttp::Reserved("h".to_string()));
    assert_eq!(ParserType::Smtp, meta_protocol(&user));
    assert_eq!(ParserType::Http, meta_protocol(&http));
    assert_eq!(MetaSmtpType::User, smtp_meta_type(&user));
    assert_eq!(MetaSmtpType::Undef, smtp_meta_type(&http));
    assert_eq!(Some("u".to_string()), smtp_meta_user(&user));
    assert_eq!(None, smtp_meta_user(&http));
    assert_eq!(
        MetaSmtpType::MailFrom,
        smtp_meta_type(&Meta::Smtp(MetaSmtp::MailFrom("m".to_string(), 1)))
    );
}

#[test]
fn test_packet_dir_conversion() {
    assert_eq!(PktDirection::Client2Server, PktDirection::from(PacketDir::C2s));
    assert_eq!(PktDirection::Server2Client, PktDirection::from(PacketDir::S2c));
    assert_eq!(PktDirection::BiDirection, PktDirection::from(PacketDir::BiDir));
    assert_eq!(PktDirection::Unknown, PktDirection::from(PacketDir::Unknown));
}

// a decode failure leaves the frame inert
#[test]
fn test_decode_failure() {
    let mut pkt = Packet::new(7, 3, &[1, 2, 3]);
    assert!(pkt.decode().is_err());
    assert!(pkt.header.is_none());
    assert_eq!(3, pkt.data_len);
}

// a full retransmission in the middle: the byte output is unchanged
#[test]
fn test_retrans_bytes() {
    let payload: [u8; 10] = [1, 2, 3, 4, 5, 6, 7, 8, 9, 10];
    let mut stm = PktStrm::new();
    stm.push(build_pkt_payload(1, &payload, false, false));
    stm.push(build_pkt_payload(11, &payload, false, false));
    stm.push(build_pkt_payload(1, &payload, false, false));
    stm.push(build_pkt_payload(21, &payload, false, true));

    let mut got: Vec<u8> = Vec::new();
    loop {
        match stm.next_byte() {
            BytePoll::Byte(b) => got.push(b),
            BytePoll::Pending => panic!("the stream is contiguous"),
            BytePoll::End => break,
        }
    }
    let mut expect: Vec<u8> = Vec::new();
    expect.extend_from_slice(&payload);
    expect.extend_from_slice(&payload);
    expect.extend_from_slice(&payload);
    assert_eq!(expect, got);
}

// a full metadata queue suspends the emitting parser until the caller drains
#[test]
fn test_meta_backpressure() {
    let mut stm = PktStrm::new();
    let mut parser = SmtpParser::new();
    let mut q = MetaQueue::new();
    let mut seq: u32 = 1;
    for i in 0..70 {
        let line = format!("RCPT TO:<r{}@x>\r\n", i);
        let pkt = build_pkt_payload(seq, line.as_bytes(), false, false);
        seq += line.len() as u32;
        stm.push(pkt);
        let r = parser.poll_c2s(&mut stm, &mut q);
        assert_eq!(ParserPoll::Pending, r);
    }
    // sixty-four records fit; the rest wait on the suspended parser
    assert_eq!(64, q.len());

    let mut drained: Vec<Meta> = Vec::new();
    while let Some(m) = q.pop() {
        drained.push(m);
    }
    let fin = build_pkt_payload(seq, b"", false, true);
    stm.push(fin);
    let r = parser.poll_c2s(&mut stm, &mut q);
    assert_eq!(ParserPoll::Ready, r);
    while let Some(m) = q.pop() {
        drained.push(m);
    }
    assert_eq!(70, drained.len());
    assert_eq!(Meta::Smtp(MetaSmtp::RcptTo("r0@x".to_string())), drained[0]);
    assert_eq!(Meta::Smtp(MetaSmtp::RcptTo("r69@x".to_string())), drained[69]);
}

// once the view ends, retransmissions and frames behind a hole change nothing
#[test]
fn test_end_stays_ended() {
    let payload: [u8; 10] = [1, 2, 3, 4, 5, 6, 7, 8, 9, 10];
    let mut stm = PktStrm::new();
    stm.push(build_pkt_payload(1, &payload, false, true));
    let mut n = 0;
    loop {
        match stm.next_byte() {
            BytePoll::Byte(_) => n += 1,
            BytePoll::End => break,
            BytePoll::Pending => panic!("stream should have ended"),
        }
    }
    assert_eq!(10, n);
    // a full retransmission
    stm.push(build_pkt_payload(1, &payload, false, true));
    assert!(matches!(stm.next_byte(), BytePoll::End));
    // a frame beyond a hole
    stm.push(build_pkt_payload(100, &payload, false, false));
    assert!(matches!(stm.next_byte(), BytePoll::End));
}
