use etherparse::{PacketBuilder, TcpOptionElement};
use memerge::{Packet, PktStrm};

fn build_pkt(seq: u32, fin: bool) -> Packet {
    let mut builder = PacketBuilder::ethernet2([1, 2, 3, 4, 5, 6], [7, 8, 9, 10, 11, 12])
        .ipv4([192, 168, 1, 1], [192, 168, 1, 2], 20)
        .tcp(25, 4000, seq, 1024)
        .ns()
        .ack(123)
        .urg(23)
        .options(&[
            TcpOptionElement::Noop,
            TcpOptionElement::MaximumSegmentSize(1234),
        ])
        .unwrap();
    if fin {
        builder = builder.fin();
    }
    let payload = [1, 2, 3, 4, 5, 6, 7, 8, 9, 10];
    let mut result = Vec::<u8>::with_capacity(builder.size(payload.len()));
    builder.write(&mut result, &payload).unwrap();
    Packet::new(1, result.len(), &result)
}

fn build_pkt_nodata(seq: u32, fin: bool) -> Packet {
    let mut builder = PacketBuilder::ethernet2([1, 2, 3, 4, 5, 6], [7, 8, 9, 10, 11, 12])
        .ipv4([192, 168, 1, 1], [192, 168, 1, 2], 20)
        .tcp(25, 4000, seq, 1024)
        .ns()
        .ack(123)
        .urg(23)
        .options(&[
            TcpOptionElement::Noop,
            TcpOptionElement::MaximumSegmentSize(1234),
        ])
        .unwrap();
    if fin {
        builder = builder.fin();
    }
    let payload = [];
    let mut result = Vec::<u8>::with_capacity(builder.size(payload.len()));
    builder.write(&mut result, &payload).unwrap();
    Packet::new(1, result.len(), &result)
}

// a standalone syn frame, no payload
fn build_pkt_syn(seq: u32) -> Packet {
    let builder = PacketBuilder::ethernet2([1, 2, 3, 4, 5, 6], [7, 8, 9, 10, 11, 12])
        .ipv4([192, 168, 1, 1], [192, 168, 1, 2], 20)
        .tcp(25, 4000, seq, 1024)
        .ns()
        .syn()
        .urg(23)
        .options(&[
            TcpOptionElement::Noop,
            TcpOptionElement::MaximumSegmentSize(1234),
        ])
        .unwrap();
    let payload = [];
    let mut result = Vec::<u8>::with_capacity(builder.size(payload.len()));
    builder.write(&mut result, &payload).unwrap();
    Packet::new(1, result.len(), &result)
}

fn build_pkt_fin(seq: u32) -> Packet {
    build_pkt_nodata(seq, true)
}

// pop_ord_pkt: one syn, one ordinary frame
#[test]
fn test_pop_ord_syn() {
    // the syn consumes one sequence number
    let syn_pkt_seq = 1;
    let mut syn_pkt = build_pkt_syn(syn_pkt_seq);
    let _ = syn_pkt.decode();
    // 2 - 11
    let seq1 = syn_pkt_seq + 1;
    let mut pkt1 = build_pkt(seq1, false);
    let _ = pkt1.decode();

    let mut stm = PktStrm::new();
    stm.push(syn_pkt);
    stm.push(pkt1);

    let ret_syn_pkt = stm.pop_ord_pkt();
    assert_eq!(1, ret_syn_pkt.unwrap().seq());
    let ret_pkt1 = stm.pop_ord_pkt();
    assert_eq!(2, ret_pkt1.unwrap().seq());
}

// pop_ord_pkt: the syn starts at sequence number 0
#[test]
fn test_pop_ord_syn_seq0() {
    let syn_pkt_seq = 0;
    let mut syn_pkt = build_pkt_syn(syn_pkt_seq);
    let _ = syn_pkt.decode();
    // 1 - 10
    let seq1 = syn_pkt_seq + 1;
    let mut pkt1 = build_pkt(seq1, false);
    let _ = pkt1.decode();

    let mut stm = PktStrm::new();
    stm.push(syn_pkt);
    stm.push(pkt1);

    let ret_syn_pkt = stm.pop_ord_pkt();
    assert_eq!(0, ret_syn_pkt.unwrap().seq());
    let ret_pkt1 = stm.pop_ord_pkt();
    assert_eq!(1, ret_pkt1.unwrap().seq());
}

// peek_pkt can run repeatedly; a standalone syn frame present
#[test]
fn test_peek_pkt_syn() {
    let syn_pkt_seq = 1;
    let mut syn_pkt = build_pkt_syn(syn_pkt_seq);
    let _ = syn_pkt.decode();
    // 2 - 11
    let seq1 = syn_pkt_seq + 1;
    let mut pkt1 = build_pkt(seq1, false);
    let _ = pkt1.decode();

    let mut stm = PktStrm::new();
    stm.push(syn_pkt);
    stm.push(pkt1);

    let ret_syn_pkt = stm.peek_pkt();
    assert_eq!(syn_pkt_seq, ret_syn_pkt.unwrap().seq());
    let ret_syn_pkt2 = stm.peek_pkt();
    assert_eq!(syn_pkt_seq, ret_syn_pkt2.unwrap().seq());
    let ret_syn_pkt3 = stm.peek_pkt();
    assert_eq!(syn_pkt_seq, ret_syn_pkt3.unwrap().seq());
}

// peek_ord_pkt can run repeatedly; a standalone syn frame present
#[test]
fn test_peek_ord_pkt_syn() {
    let syn_pkt_seq = 1;
    let mut syn_pkt = build_pkt_syn(syn_pkt_seq);
    let _ = syn_pkt.decode();
    // 2 - 11
    let seq1 = syn_pkt_seq + 1;
    let mut pkt1 = build_pkt(seq1, false);
    let _ = pkt1.decode();

    let mut stm = PktStrm::new();
    stm.push(syn_pkt);
    stm.push(pkt1);

    let ret_syn_pkt = stm.peek_ord_pkt();
    assert_eq!(syn_pkt_seq, ret_syn_pkt.unwrap().seq());
    let ret_syn_pkt2 = stm.peek_ord_pkt();
    assert_eq!(syn_pkt_seq, ret_syn_pkt2.unwrap().seq());
    let ret_syn_pkt3 = stm.peek_ord_pkt();
    assert_eq!(syn_pkt_seq, ret_syn_pkt3.unwrap().seq());
}

// pop_ord_data: syn, three data frames, one bare fin
#[test]
fn test_pop_data_syn() {
    let syn_pkt_seq = 1;
    let mut syn_pkt = build_pkt_syn(syn_pkt_seq);
    let _ = syn_pkt.decode();
    // 2 - 11
    let seq1 = syn_pkt_seq + 1;
    let mut pkt1 = build_pkt(seq1, false);
    let _ = pkt1.decode();
    // 12 - 21
    let seq2 = seq1 + pkt1.payload_len();
    let mut pkt2 = build_pkt(seq2, false);
    let _ = pkt2.decode();
    // 22 - 31
    let seq3 = seq2 + pkt2.payload_len();
    let mut pkt3 = build_pkt(seq3, false);
    let _ = pkt3.decode();
    // 32, no payload, fin
    let seq4 = seq3 + pkt3.payload_len();
    let mut pkt4 = build_pkt_fin(seq4);
    let _ = pkt4.decode();

    let mut stm = PktStrm::new();
    stm.push(syn_pkt);
    stm.push(pkt2);
    stm.push(pkt3);
    stm.push(pkt1);
    stm.push(pkt4);

    let ret_syn_pkt = stm.peek_ord_pkt();
    assert_eq!(syn_pkt_seq, ret_syn_pkt.unwrap().seq());
    let ret_syn_pkt2 = stm.peek_ord_pkt();
    assert_eq!(syn_pkt_seq, ret_syn_pkt2.unwrap().seq());

    let ret_pkt1 = stm.peek_ord_data();
    assert_eq!(seq1, ret_pkt1.unwrap().seq());

    let ret_pkt1 = stm.pop_ord_data();
    assert_eq!(seq1, ret_pkt1.unwrap().seq());
}

// pop_ord_pkt: a standalone fin frame
#[test]
fn test_pop_ord_fin() {
    // 1 - 10
    let seq1 = 1;
    let mut pkt1 = build_pkt(seq1, false);
    let _ = pkt1.decode();
    // 11
    let seq2 = seq1 + pkt1.payload_len();
    let mut pkt2 = build_pkt_fin(seq2);
    let _ = pkt2.decode();

    let mut stm = PktStrm::new();
    stm.push(pkt1);
    stm.push(pkt2);

    let ret_pkt1 = stm.pop_ord_pkt();
    assert_eq!(1, ret_pkt1.unwrap().seq());
    let ret_pkt2 = stm.pop_ord_pkt();
    assert_eq!(11, ret_pkt2.unwrap().seq());
}

// pop_ord_pkt: standalone fin, four data frames out of order
#[test]
fn test_pop_ord_fin_4pkt() {
    // syn pkt
    let syn_seq = 0;
    let mut syn_pkt = build_pkt_syn(syn_seq);
    let _ = syn_pkt.decode();
    // 1 - 10
    let seq1 = syn_seq + 1;
    let mut pkt1 = build_pkt(seq1, false);
    let _ = pkt1.decode();
    // 11 - 20
    let seq2 = seq1 + pkt1.payload_len();
    let mut pkt2 = build_pkt(seq2, false);
    let _ = pkt2.decode();
    // 21 - 30
    let seq3 = seq2 + pkt2.payload_len();
    let mut pkt3 = build_pkt(seq3, false);
    let _ = pkt3.decode();
    // 31 - 40
    let seq4 = seq3 + pkt3.payload_len();
    let mut pkt4 = build_pkt(seq4, false);
    let _ = pkt4.decode();
    // 41
    let fin_seq = seq4 + pkt3.payload_len();
    let mut fin_pkt = build_pkt_fin(fin_seq);
    let _ = fin_pkt.decode();

    let mut stm = PktStrm::new();
    stm.push(syn_pkt);
    stm.push(pkt1);
    stm.push(pkt4);
    stm.push(pkt3);
    stm.push(pkt2);
    stm.push(fin_pkt);

    let ret_syn_pkt = stm.pop_ord_pkt();
    assert_eq!(syn_seq, ret_syn_pkt.clone().unwrap().seq());
    assert_eq!(0, ret_syn_pkt.unwrap().payload_len());
    let ret_pkt1 = stm.pop_ord_pkt();
    assert_eq!(seq1, ret_pkt1.unwrap().seq());
    let ret_pkt2 = stm.pop_ord_pkt();
    assert_eq!(seq2, ret_pkt2.unwrap().seq());
    let ret_pkt3 = stm.pop_ord_pkt();
    assert_eq!(seq3, ret_pkt3.unwrap().seq());
    let ret_pkt4 = stm.pop_ord_pkt();
    assert_eq!(seq4, ret_pkt4.unwrap().seq());
    let ret_fin = stm.pop_ord_pkt();
    assert_eq!(fin_seq, ret_fin.clone().unwrap().seq());
    assert_eq!(0, ret_fin.unwrap().payload_len());
}
