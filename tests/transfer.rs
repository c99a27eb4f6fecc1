use std::collections::HashMap;
use udp_transfer::connection_properties::{is_within_window, ConnectionProperties};
use udp_transfer::packet::{InitPacket, Packet};
use udp_transfer::receiver::{Action, Config as ReceiverConfig, Receiver, ReceiverConnectionProperties};
use udp_transfer::sender::{
    init_request, negotiate, next_attempts, DataStep, EndStep, NegotiationStep, RetryEvent,
    SenderConnectionProperties,
};

/// Decides the fate of the n-th datagram on the wire: false drops it, and it
/// may change its bytes.
type Impair = dyn FnMut(usize, &mut Vec<u8>) -> bool;

struct Wire {
    count: usize,
    impair: Box<Impair>,
}

impl Wire {
    fn pass(&mut self, mut bytes: Vec<u8>) -> Option<Vec<u8>> {
        self.count += 1;
        if (self.impair)(self.count, &mut bytes) {
            Some(bytes)
        } else {
            None
        }
    }
}

struct Files {
    content: HashMap<u32, Vec<u8>>,
    closed: Vec<u32>,
}

fn fresh_id(receiver: &Receiver, next: &mut u32) -> u32 {
    loop {
        *next = next.wrapping_add(7919);
        if receiver.id_is_free(*next) {
            return *next;
        }
    }
}

/// Hands a datagram to the receiver and returns the replies addressed to
/// `from`; output files are kept in `files`.
fn to_receiver(
    receiver: &mut Receiver,
    files: &mut Files,
    bytes: &[u8],
    from: &str,
    now: u64,
    next: &mut u32,
) -> Vec<Vec<u8>> {
    let id = fresh_id(receiver, next);
    let mut replies = Vec::new();
    for action in receiver.handle_datagram(bytes, &from.to_string(), now, id) {
        match action {
            Action::Send(b, to) => {
                assert_eq!(to, from);
                replies.push(b);
            }
            Action::Append(id, b) => files.content.entry(id).or_default().extend_from_slice(&b),
            Action::Close(id) => files.closed.push(id),
            Action::Delete(id) => {
                files.content.remove(&id);
            }
        }
    }
    replies
}

struct SenderSim {
    name: String,
    input: Vec<u8>,
    read: usize,
    props: Option<SenderConnectionProperties>,
    largest_data: usize,
    data_sent: usize,
    done: bool,
}

impl SenderSim {
    fn new(name: &str, input: Vec<u8>) -> Self {
        SenderSim { name: name.to_string(), input, read: 0, props: None, largest_data: 0, data_sent: 0, done: false }
    }

    fn connect(&mut self, proposal: InitPacket, receiver: &mut Receiver, files: &mut Files, wire: &mut Wire, next: &mut u32) {
        let mut proposal = proposal;
        for _ in 0..200 {
            let request = init_request(&proposal);
            let Some(request) = wire.pass(request) else { continue };
            for reply in to_receiver(receiver, files, &request, &self.name, 0, next) {
                let Some(reply) = wire.pass(reply) else { continue };
                match negotiate(&mut proposal, &reply) {
                    NegotiationStep::Established(id) => {
                        let props = ConnectionProperties::new(
                            id,
                            proposal.checksum_size,
                            proposal.window_size,
                            proposal.packet_size,
                            "receiver".to_string(),
                        );
                        self.props = Some(SenderConnectionProperties::new(props));
                        return;
                    }
                    NegotiationStep::Failed => panic!("negotiation failed"),
                    _ => {}
                }
            }
        }
        panic!("no connection");
    }

    /// One round of the data phase, then of the end phase once complete.
    fn round(&mut self, now: u64, receiver: &mut Receiver, files: &mut Files, wire: &mut Wire, next: &mut u32) {
        if self.done {
            return;
        }
        let props = self.props.as_mut().unwrap();
        if !props.is_complete() {
            let slots = props.parts_to_load() as usize;
            let size = props.load_size();
            let mut blocks = Vec::new();
            for _ in 0..slots {
                let end = usize::min(self.read + size, self.input.len());
                blocks.push(self.input[self.read..end].to_vec());
                self.read = end;
                if blocks.last().unwrap().is_empty() {
                    break;
                }
            }
            props.load_window(&blocks);
            for datagram in props.send_data(now, 5) {
                self.largest_data = usize::max(self.largest_data, datagram.len());
                self.data_sent += 1;
                let Some(datagram) = wire.pass(datagram) else { continue };
                for reply in to_receiver(receiver, files, &datagram, &self.name, now, next) {
                    let Some(reply) = wire.pass(reply) else { continue };
                    match props.handle_reply(&reply) {
                        DataStep::UnexpectedEnd | DataStep::PeerError => panic!("transfer aborted"),
                        _ => {}
                    }
                }
            }
        } else {
            let request = props.end_request();
            let Some(request) = wire.pass(request) else { return };
            for reply in to_receiver(receiver, files, &request, &self.name, now, next) {
                let Some(reply) = wire.pass(reply) else { continue };
                match props.handle_end_reply(&reply) {
                    EndStep::Confirmed => self.done = true,
                    EndStep::Ignored => {}
                    other => panic!("end failed: {:?}", other),
                }
            }
        }
    }
}

fn test_file(len: usize, seed: u32) -> Vec<u8> {
    let mut x = seed;
    (0..len)
        .map(|_| {
            x = x.wrapping_mul(1103515245).wrapping_add(12345);
            (x >> 16) as u8
        })
        .collect()
}

fn receiver_config(max_packet: u16, max_window: u16, min_checksum: u16) -> ReceiverConfig {
    let mut config = ReceiverConfig::new();
    config.max_packet_size = max_packet;
    config.max_window_size = max_window;
    config.min_checksum = min_checksum;
    config
}

/// Sends `input` with the given proposal over an impaired wire and returns
/// what the receiver wrote, and the sender's statistics.
fn run(input: Vec<u8>, proposal: InitPacket, config: ReceiverConfig, impair: Box<Impair>) -> (Vec<u8>, SenderSim, Files) {
    let mut receiver = Receiver::new(config);
    let mut files = Files { content: HashMap::new(), closed: Vec::new() };
    let mut wire = Wire { count: 0, impair };
    let mut next = 1u32;
    let mut sender = SenderSim::new("127.0.0.1:4000", input);
    sender.connect(proposal, &mut receiver, &mut files, &mut wire, &mut next);
    let mut now = 1u64;
    while !sender.done {
        sender.round(now, &mut receiver, &mut files, &mut wire, &mut next);
        now += 1;
        assert!(now < 10_000_000, "transfer does not end");
    }
    let id = sender.props.as_ref().unwrap().static_properties.id;
    assert!(files.closed.contains(&id));
    let written = files.content.get(&id).cloned().unwrap_or_default();
    (written, sender, files)
}

#[test]
fn clean_transfer_of_two_mebibytes() {
    let input = test_file(2 * 1024 * 1024, 1);
    let (written, _, _) = run(input.clone(), InitPacket::new(15, 1500, 0), receiver_config(1500, 15, 0), Box::new(|_, _| true));
    assert_eq!(written, input);
}

#[test]
fn negotiated_packet_shrink() {
    let input = test_file(100_000, 2);
    let (written, sender, _) = run(input.clone(), InitPacket::new(15, 1500, 16), receiver_config(800, 15, 16), Box::new(|_, _| true));
    assert_eq!(written, input);
    assert!(sender.largest_data <= 800);
    assert_eq!(sender.props.as_ref().unwrap().static_properties.packet_size, 800);
}

#[test]
fn truncated_init_is_renegotiated() {
    // the wire cuts every datagram to 1000 bytes, as a broker does
    let input = test_file(50_000, 3);
    let (written, sender, _) = run(
        input.clone(),
        InitPacket::new(15, 1500, 64),
        receiver_config(1500, 15, 16),
        Box::new(|_, b: &mut Vec<u8>| {
            b.truncate(1000);
            true
        }),
    );
    assert_eq!(written, input);
    assert_eq!(sender.props.as_ref().unwrap().static_properties.packet_size, 1000);
}

#[test]
fn corrupted_packets_are_dropped_and_resent() {
    let input = test_file(200_000, 4);
    let (written, _, _) = run(
        input.clone(),
        InitPacket::new(15, 1500, 16),
        receiver_config(1500, 15, 64),
        Box::new(|n, b: &mut Vec<u8>| {
            if n % 7 == 0 {
                let i = (n * 31) % b.len();
                b[i] ^= 0x5a;
            }
            true
        }),
    );
    assert_eq!(written, input);
}

#[test]
fn dropped_packets_are_resent() {
    let input = test_file(150_000, 5);
    let packets = (input.len() + 1490 - 1) / 1490;
    let (written, sender, _) = run(
        input.clone(),
        InitPacket::new(15, 1500, 1),
        receiver_config(1500, 15, 1),
        Box::new(|n, _| ((n as u64).wrapping_mul(6364136223846793005).wrapping_add(1442695040888963407) >> 33) % 5 != 0),
    );
    assert_eq!(written, input);
    assert!(sender.data_sent > packets);
}

#[test]
fn sequence_numbers_wrap() {
    // 17 bytes per packet: more than 2^16 packets
    let input = test_file(17 * 70_000, 6);
    let (written, sender, _) = run(input.clone(), InitPacket::new(15, 26, 0), receiver_config(26, 15, 0), Box::new(|_, _| true));
    assert_eq!(written, input);
    assert!(sender.data_sent > 65_536);
}

#[test]
fn concurrent_senders_get_own_files() {
    let input = test_file(120_000, 7);
    let mut receiver = Receiver::new(receiver_config(1500, 15, 16));
    let mut files = Files { content: HashMap::new(), closed: Vec::new() };
    let mut wire = Wire { count: 0, impair: Box::new(|_, _| true) };
    let mut next = 1u32;
    let mut senders: Vec<SenderSim> = (0..3)
        .map(|i| SenderSim::new(&format!("127.0.0.1:340{}", i + 1), input.clone()))
        .collect();
    for s in senders.iter_mut() {
        s.connect(InitPacket::new(15, 1500, 16), &mut receiver, &mut files, &mut wire, &mut next);
    }
    let mut now = 1u64;
    while senders.iter().any(|s| !s.done) {
        for s in senders.iter_mut() {
            s.round(now, &mut receiver, &mut files, &mut wire, &mut next);
        }
        now += 1;
    }
    let ids: Vec<u32> = senders.iter().map(|s| s.props.as_ref().unwrap().static_properties.id).collect();
    assert!(ids[0] != ids[1] && ids[1] != ids[2] && ids[0] != ids[2]);
    for id in ids {
        assert_eq!(files.content[&id], input);
    }
}

#[test]
fn window_membership_examples() {
    assert!(is_within_window(5, 3, 4));
    assert!(!is_within_window(7, 3, 4));
    assert!(!is_within_window(2, 3, 4));
    // the window wraps past 2^16
    assert!(is_within_window(65535, 65534, 4));
    assert!(is_within_window(1, 65534, 4));
    assert!(!is_within_window(2, 65534, 4));
    // a window of size 0 holds every value
    assert!(is_within_window(100, 3, 0));
    let props = ConnectionProperties::new(1, 0, 10, 100, "peer".to_string());
    assert!(props.is_within_window(9, 0));
    assert!(!props.is_within_window(10, 0));
}

#[test]
fn acknowledge_moves_window_and_frees_parts() {
    let props = ConnectionProperties::new(9, 0, 4, 100, "peer".to_string());
    let mut sender = SenderConnectionProperties::new(props);
    assert_eq!(sender.parts_to_load(), 4);
    let loaded = sender.load_window(&vec![vec![1], vec![2], vec![3]]);
    assert_eq!(loaded, 3);
    assert!(!sender.is_complete());
    // outside the window: nothing happens
    assert!(!sender.acknowledge(4));
    assert_eq!(sender.window_position, 0);
    assert!(sender.acknowledge(1));
    assert_eq!(sender.window_position, 2);
    assert!(!sender.loaded_parts.contains_key(&0));
    assert!(!sender.loaded_parts.contains_key(&1));
    assert!(sender.loaded_parts.contains_key(&2));
    // end of the file
    assert_eq!(sender.load_window(&vec![vec![]]), 0);
    assert!(sender.file_read);
    assert!(sender.acknowledge(2));
    assert!(sender.is_complete());
}

#[test]
fn acknowledge_across_wrap() {
    let props = ConnectionProperties::new(9, 0, 4, 100, "peer".to_string());
    let mut sender = SenderConnectionProperties::new(props);
    sender.window_position = 65534;
    sender.next_load = 65534;
    sender.load_window(&vec![vec![1], vec![2], vec![3]]);
    assert!(sender.loaded_parts.contains_key(&0));
    assert!(sender.acknowledge(65535));
    assert_eq!(sender.window_position, 0);
    assert_eq!(sender.loaded_parts.len(), 1);
}

#[test]
fn send_data_resends_only_after_timeout() {
    let props = ConnectionProperties::new(3, 2, 4, 100, "peer".to_string());
    let mut sender = SenderConnectionProperties::new(props);
    sender.load_window(&vec![vec![10, 20], vec![30]]);
    let first = sender.send_data(1000, 50);
    assert_eq!(first.len(), 2);
    let p = Packet::from_bin(&first[0], 2).unwrap();
    match p {
        Packet::Data(d) => {
            assert_eq!((d.header.id, d.header.seq, d.header.ack), (3, 0, 0));
            assert_eq!(d.data, vec![10, 20]);
        }
        _ => panic!(),
    }
    assert_eq!(sender.send_data(1020, 50).len(), 0);
    assert_eq!(sender.send_data(1050, 50).len(), 2);
}

#[test]
fn receiver_reorders_and_acknowledges() {
    let props = ConnectionProperties::new(5, 0, 4, 100, "peer".to_string());
    let mut conn = ReceiverConnectionProperties::new(props, 0);
    conn.store_data(&vec![2, 2], 1, 10);
    assert_eq!(conn.window_position, 0);
    assert!(conn.save_into_file().is_empty());
    assert_eq!(conn.get_acknowledge(), 65535);
    conn.store_data(&vec![1], 0, 11);
    assert_eq!(conn.window_position, 2);
    assert_eq!(conn.save_into_file(), vec![1, 2, 2]);
    assert_eq!(conn.next_write_position, 2);
    assert_eq!(conn.get_acknowledge(), 1);
    // outside the window
    conn.store_data(&vec![9], 7, 12);
    assert!(conn.parts_received.is_empty());
    assert!(conn.timeouted(100, 113));
    assert!(!conn.timeouted(100, 112));
    conn.close();
    assert!(conn.is_closed());
}

#[test]
fn receiver_rejects_gapped_end_and_evicts() {
    let mut receiver = Receiver::new(receiver_config(1500, 15, 0));
    let mut files = Files { content: HashMap::new(), closed: Vec::new() };
    let mut next = 1u32;
    let mut proposal = InitPacket::new(15, 100, 0);
    let replies = to_receiver(&mut receiver, &mut files, &init_request(&proposal), "a", 0, &mut next);
    let id = match negotiate(&mut proposal, &replies[0]) {
        NegotiationStep::Established(id) => id,
        other => panic!("{:?}", other),
    };
    let props = SenderConnectionProperties::new(ConnectionProperties::new(id, 0, 15, 100, "r".to_string()));
    // an End at the wrong position: the connection is dropped with an Error
    let mut wrong = SenderConnectionProperties::new(ConnectionProperties::new(id, 0, 15, 100, "r".to_string()));
    wrong.window_position = 3;
    let actions = receiver.handle_datagram(&wrong.end_request(), &"a".to_string(), 1, 99);
    assert!(matches!(actions[0], Action::Delete(i) if i == id));
    match &actions[1] {
        Action::Send(b, to) => {
            assert_eq!(to, "a");
            assert_eq!(props.handle_end_reply(b), EndStep::PeerError);
        }
        _ => panic!(),
    }
    assert_eq!(receiver.connections.len(), 0);
    // a new connection times out
    let replies = to_receiver(&mut receiver, &mut files, &init_request(&InitPacket::new(15, 100, 0)), "b", 10, &mut next);
    assert_eq!(replies.len(), 1);
    assert!(receiver.expire(5000).is_empty());
    let evicted = receiver.expire(5011);
    assert_eq!(evicted.len(), 2);
    assert_eq!(receiver.connections.len(), 0);
}

#[test]
fn damaged_reply_is_ignored_by_sender() {
    let props = ConnectionProperties::new(8, 4, 4, 100, "peer".to_string());
    let mut sender = SenderConnectionProperties::new(props);
    sender.load_window(&vec![vec![1], vec![2]]);
    let reply = Packet::from(udp_transfer::packet::DataPacket::new(vec![], 8, 0, 0)).to_bin(4);
    let mut damaged = reply.clone();
    damaged[2] ^= 1;
    assert_eq!(sender.handle_reply(&damaged), DataStep::Ignored);
    assert_eq!(sender.handle_reply(&reply), DataStep::Acknowledged(true));
    assert_eq!(sender.window_position, 1);
    let other = Packet::from(udp_transfer::packet::DataPacket::new(vec![], 9, 0, 1)).to_bin(4);
    assert_eq!(sender.handle_reply(&other), DataStep::Ignored);
}

#[test]
fn drawn_connection_ids_are_fresh() {
    let receiver = Receiver::new(receiver_config(1500, 15, 16));
    let id = receiver.draw_connection_id(16).unwrap();
    assert!(id != 0);
    assert!(receiver.id_is_free(id));
    assert!(receiver.draw_connection_id(0).is_none());
    assert!(!receiver.id_is_free(0));
}

#[test]
fn damaged_init_for_open_connection_gets_no_answer() {
    let mut receiver = Receiver::new(receiver_config(1500, 15, 4));
    let mut files = Files { content: HashMap::new(), closed: Vec::new() };
    let mut next = 1u32;
    let mut proposal = InitPacket::new(15, 100, 4);
    let replies = to_receiver(&mut receiver, &mut files, &init_request(&proposal), "a", 0, &mut next);
    let id = match negotiate(&mut proposal, &replies[0]) {
        NegotiationStep::Established(id) => id,
        other => panic!("{:?}", other),
    };
    // an Init naming the open connection is answered with its parameters
    let mut again = InitPacket::new(15, 100, 4);
    again.header.id = id;
    let good = init_request(&again);
    let answers = receiver.handle_datagram(&good, &"a".to_string(), 1, 99);
    assert_eq!(answers.len(), 1);
    // a damaged one is dropped
    let mut damaged = good.clone();
    damaged[20] ^= 0x10;
    assert!(receiver.handle_datagram(&damaged, &"a".to_string(), 2, 99).is_empty());
    assert_eq!(receiver.connections.len(), 1);
}

#[test]
fn data_after_end_fails_the_close() {
    let props = ConnectionProperties::new(8, 4, 4, 100, "peer".to_string());
    let sender = SenderConnectionProperties::new(props);
    let late = Packet::from(udp_transfer::packet::DataPacket::new(vec![], 8, 0, 0)).to_bin(4);
    assert_eq!(sender.handle_end_reply(&late), EndStep::UnexpectedData);
    let foreign = Packet::from(udp_transfer::packet::DataPacket::new(vec![], 9, 0, 0)).to_bin(4);
    assert_eq!(sender.handle_end_reply(&foreign), EndStep::Ignored);
    let init = Packet::from(InitPacket::new(15, 100, 4)).to_bin(4);
    let mut own_init = InitPacket::new(15, 100, 4);
    own_init.header.id = 8;
    assert_eq!(sender.handle_end_reply(&init), EndStep::Ignored);
    assert_eq!(sender.handle_end_reply(&Packet::from(own_init).to_bin(4)), EndStep::Ignored);
    let end = Packet::from(udp_transfer::packet::EndPacket::new(8, 0)).to_bin(4);
    assert_eq!(sender.handle_end_reply(&end), EndStep::Confirmed);
    let wrong_end = Packet::from(udp_transfer::packet::EndPacket::new(8, 3)).to_bin(4);
    assert_eq!(sender.handle_end_reply(&wrong_end), EndStep::InvalidEnd);
}

#[test]
fn retry_budget() {
    assert_eq!(next_attempts(0, RetryEvent::Neutral, 0), None);
    assert_eq!(next_attempts(0, RetryEvent::Neutral, 3), Some(0));
    assert_eq!(next_attempts(1, RetryEvent::Failed, 3), Some(2));
    assert_eq!(next_attempts(2, RetryEvent::Failed, 3), None);
    assert_eq!(next_attempts(2, RetryEvent::Progress, 3), Some(0));
    assert_eq!(next_attempts(u16::MAX, RetryEvent::Failed, u16::MAX), None);
    assert_eq!(NegotiationStep::Retry.retry_event(), RetryEvent::Failed);
    assert_eq!(NegotiationStep::Ignored.retry_event(), RetryEvent::Failed);
    assert_eq!(DataStep::Acknowledged(true).retry_event(), RetryEvent::Progress);
    assert_eq!(DataStep::Acknowledged(false).retry_event(), RetryEvent::Neutral);
}
