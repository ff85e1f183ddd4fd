use content_server::assembler::Assembler;
use content_server::fragment::disassemble;
use content_server::index::{index_files, parse_file_id};
use content_server::message::{
    decode_request, encode_media_file, encode_request, encode_server_type, encode_text_file,
    BrowserRequest,
};
use content_server::packet::{Nack, NackType, Packet, PacketType, SourceRoutingHeader};
use content_server::server::{Action, Command, ConfigError, ContentServer, ServerType};
use content_server::topology::Topology;

fn text_server() -> ContentServer {
    let mut server =
        ContentServer::new(1, &vec![2], vec![(2, "files/2.txt".to_string())], Vec::new(), ServerType::Text, false)
            .unwrap();
    server.topology.add_edge(2, 21);
    server.topology.add_edge(1, 2);
    server
}

fn file_list_packet(session_id: u64, hops: Vec<u8>) -> Packet {
    let frags = disassemble(&encode_request(BrowserRequest::FileList));
    Packet {
        routing_header: SourceRoutingHeader { hop_index: 1, hops },
        session_id,
        pack_type: PacketType::MsgFragment(frags[0].clone()),
    }
}

fn nack(session_id: u64, fragment_index: u64, nack_type: NackType) -> Packet {
    Packet {
        routing_header: SourceRoutingHeader { hop_index: 1, hops: vec![2, 1] },
        session_id,
        pack_type: PacketType::Nack(Nack { fragment_index, nack_type }),
    }
}

fn sends(actions: &[Action]) -> Vec<(u8, Packet)> {
    actions
        .iter()
        .filter_map(|a| match a {
            Action::Send(n, p) => Some((*n, p.clone())),
            _ => None,
        })
        .collect()
}

#[test]
fn adjacency_stays_symmetric() {
    let mut t = Topology::new();
    t.add_edge(3, 4);
    assert!(t.contains_edge(3, 4) && t.contains_edge(4, 3));
    t.add_edge(4, 5);
    t.remove_edge(4, 3);
    assert!(!t.contains_edge(3, 4) && !t.contains_edge(4, 3));
    assert!(t.contains_node(3) && t.contains_node(4));
    t.remove_node(5);
    assert!(!t.contains_edge(4, 5) && !t.contains_edge(5, 4));
    assert!(!t.contains_node(5));
    assert_eq!(t.nodes(), vec![3, 4]);
}

#[test]
fn shortest_path_prefers_smaller_second_hop() {
    let mut t = Topology::new();
    t.add_edge(1, 3);
    t.add_edge(1, 2);
    t.add_edge(2, 5);
    t.add_edge(3, 5);
    t.add_edge(1, 7);
    t.add_edge(7, 8);
    t.add_edge(8, 5);
    assert_eq!(t.shortest_path(1, 5), vec![1, 2, 5]);
    assert_eq!(t.shortest_path(5, 1), vec![5, 2, 1]);
    assert_eq!(t.shortest_path(1, 1), vec![1]);
    assert_eq!(t.shortest_path(1, 9), Vec::<u8>::new());
    assert_eq!(t.neighbors(1), vec![2, 3, 7]);
}

#[test]
fn unsent_fragment_waits_in_retry_set() {
    let mut server = text_server();
    server.handle_remove_sender(2);
    let actions = server.handle_drone_packets(file_list_packet(9, vec![21, 2, 1]));
    // no channel to 2: neither the ack nor the answer goes out
    assert!(sends(&actions).is_empty());
    assert_eq!(server.sent_packets.get(&9).map(|v| v.len()), Some(1));
    assert_eq!(server.packet_to_retry, vec![(9, 0)]);
    assert!(matches!(actions.last(), Some(Action::MessageSent(9))));
}

#[test]
fn sent_fragment_is_not_in_retry_set() {
    let mut server = text_server();
    let actions = server.handle_drone_packets(file_list_packet(9, vec![21, 2, 1]));
    let out = sends(&actions);
    assert_eq!(out.len(), 2);
    assert!(out.iter().all(|(n, _)| *n == 2));
    assert!(server.packet_to_retry.is_empty());
}

#[test]
fn ack_frees_fragment_and_session() {
    let mut server = text_server();
    server.handle_drone_packets(file_list_packet(9, vec![21, 2, 1]));
    assert!(server.sent_packets.contains_key(&9));
    server.on_ack_arrived(9, 5);
    assert_eq!(server.sent_packets.get(&9).map(|v| v.len()), Some(1));
    server.on_ack_arrived(9, 0);
    assert!(!server.sent_packets.contains_key(&9));
    // a second ack changes nothing
    server.on_ack_arrived(9, 0);
    assert!(server.sent_packets.is_empty());
}

#[test]
fn flood_within_cooldown_is_no_op() {
    let mut server = text_server();
    let first = server.start_flood(10_000, 7, 8);
    assert_eq!(server.flood_time, 10_000);
    assert_eq!(first.len(), 2);
    match &first[0] {
        Action::Send(2, p) => match &p.pack_type {
            PacketType::FloodRequest(r) => {
                assert_eq!(r.flood_id, 7);
                assert_eq!(r.initiator_id, 1);
                assert_eq!(r.path_trace.len(), 1);
            }
            _ => panic!("not a flood request"),
        },
        _ => panic!("not a send to 2"),
    }
    assert!(matches!(first[1], Action::FloodRequestSent));
    let second = server.start_flood(10_499, 9, 9);
    assert!(second.is_empty());
    assert_eq!(server.flood_time, 10_000);
    let third = server.start_flood(10_500, 9, 9);
    assert_eq!(third.len(), 2);
    assert_eq!(server.flood_time, 10_500);
}

#[test]
fn reassembly_in_any_order() {
    let msg: Vec<u8> = (0..300u32).map(|i| (i % 251) as u8).collect();
    let frags = disassemble(&msg);
    assert_eq!(frags.len(), 3);
    assert_eq!(frags[2].length, 44);
    assert_eq!(frags[0].total_n_fragments, 3);
    let mut assembler = Assembler::new();
    assert_eq!(assembler.add_fragment(&frags[2], 4), None);
    assert_eq!(assembler.add_fragment(&frags[0], 4), None);
    assert_eq!(assembler.add_fragment(&frags[0], 4), None);
    assert_eq!(assembler.add_fragment(&frags[1], 4), Some(msg));
}

#[test]
fn empty_message_takes_one_fragment() {
    let frags = disassemble(&Vec::new());
    assert_eq!(frags.len(), 1);
    assert_eq!(frags[0].length, 0);
    let mut assembler = Assembler::new();
    assert_eq!(assembler.add_fragment(&frags[0], 1), Some(Vec::new()));
}

#[test]
fn nack_for_unknown_fragment_is_ignored() {
    let mut server = text_server();
    let actions = server.handle_drone_packets(nack(77, 0, NackType::Dropped));
    assert!(actions.is_empty());
    assert!(server.packet_to_retry.is_empty());
}

#[test]
fn routing_error_removes_node_and_waits_for_route() {
    let mut server = text_server();
    server.handle_drone_packets(file_list_packet(9, vec![21, 2, 1]));
    let actions = server.handle_drone_packets(nack(9, 0, NackType::ErrorInRouting(2)));
    assert!(!server.topology.contains_node(2));
    assert!(!server.topology.contains_edge(1, 2));
    assert_eq!(server.packet_to_retry, vec![(9, 0)]);
    // the flood went to neighbour 2; the fragment did not
    assert!(sends(&actions).iter().all(|(_, p)| matches!(p.pack_type, PacketType::FloodRequest(_))));
}

#[test]
fn flood_reply_drains_retry_set() {
    let mut server = text_server();
    server.handle_remove_sender(2);
    server.handle_drone_packets(file_list_packet(9, vec![21, 3, 1]));
    assert_eq!(server.packet_to_retry, vec![(9, 0)]);
    server.handle_sim_controller_packets(Command::AddSender(3));
    let reply = Packet {
        routing_header: SourceRoutingHeader { hop_index: 2, hops: vec![21, 3, 1] },
        session_id: 5,
        pack_type: PacketType::FloodResponse(content_server::packet::FloodResponse {
            flood_id: 4,
            path_trace: vec![
                (1, content_server::packet::NodeType::Server),
                (3, content_server::packet::NodeType::Drone),
                (21, content_server::packet::NodeType::Client),
            ],
        }),
    };
    let actions = server.handle_drone_packets(reply);
    assert!(matches!(actions[0], Action::FloodResponseReceived(4)));
    let out = sends(&actions);
    assert_eq!(out.len(), 1);
    assert_eq!(out[0].0, 3);
    assert_eq!(out[0].1.routing_header.hops, vec![1, 3, 21]);
    assert!(server.packet_to_retry.is_empty());
}

#[test]
fn topology_query_returns_a_copy() {
    let mut server = text_server();
    let actions = server.handle_sim_controller_packets(Command::Topology);
    match &actions[0] {
        Action::TopologyResponse(t) => {
            assert!(t.contains_edge(1, 2) && t.contains_edge(21, 2));
            assert_eq!(t.nodes(), vec![1, 2, 21]);
        }
        _ => panic!("no topology"),
    }
}

#[test]
fn chat_server_is_refused() {
    let r = ContentServer::new(1, &vec![], Vec::new(), Vec::new(), ServerType::Chat, false);
    assert!(matches!(r, Err(ConfigError::UnsupportedServerType)));
}

#[test]
fn request_codec_round_trip() {
    for q in [
        BrowserRequest::FileList,
        BrowserRequest::ServerTypeRequest,
        BrowserRequest::TextFileRequest(200),
        BrowserRequest::MediaFileRequest(7),
    ] {
        assert_eq!(decode_request(&encode_request(q)), Some(q));
    }
    assert_eq!(
        String::from_utf8(encode_request(BrowserRequest::TextFileRequest(42))).unwrap(),
        "{\"type\":\"TextFile\",\"id\":42}"
    );
    assert_eq!(decode_request(&b"{\"type\":\"TextFile\",\"id\":042}".to_vec()), None);
    assert_eq!(decode_request(&b"{\"type\":\"Chat\"}".to_vec()), None);
    assert_eq!(decode_request(&Vec::new()), None);
}

#[test]
fn response_encodings_are_exact() {
    assert_eq!(
        String::from_utf8(encode_text_file(5, &b"a\"b\\c\n\x01\xc3\xa9".to_vec())).unwrap(),
        "{\"type\":\"TextFile\",\"id\":5,\"content\":\"a\\\"b\\\\c\\n\\u0001\u{e9}\"}"
    );
    assert_eq!(
        String::from_utf8(encode_media_file(255, &vec![255, 0, 10])).unwrap(),
        "{\"type\":\"MediaFile\",\"id\":255,\"content\":[255,0,10]}"
    );
    assert_eq!(
        String::from_utf8(encode_server_type(ServerType::Media)).unwrap(),
        "{\"type\":\"ServerType\",\"value\":\"Media\"}"
    );
}

#[test]
fn file_names_give_ids() {
    let ext = b".txt".to_vec();
    assert_eq!(parse_file_id(&b"2.txt".to_vec(), &ext), Some(2));
    assert_eq!(parse_file_id(&b"+17.txt".to_vec(), &ext), Some(17));
    assert_eq!(parse_file_id(&b"007.txt".to_vec(), &ext), Some(7));
    assert_eq!(parse_file_id(&b"256.txt".to_vec(), &ext), None);
    assert_eq!(parse_file_id(&b"a1.txt".to_vec(), &ext), None);
    assert_eq!(parse_file_id(&b".txt".to_vec(), &ext), None);
    assert_eq!(parse_file_id(&b"3.jpg".to_vec(), &ext), None);
    let entries: Vec<(Vec<u8>, String)> = (0..14u8)
        .map(|i| (format!("{}.txt", i).into_bytes(), format!("dir/{}.txt", i)))
        .chain(std::iter::once((b"notes.md".to_vec(), "dir/notes.md".to_string())))
        .collect();
    let index = index_files(&entries, &ext);
    assert_eq!(index.len(), 10);
    assert_eq!(index[0], (0, "dir/0.txt".to_string()));
    assert_eq!(index[9], (9, "dir/9.txt".to_string()));
}

fn media_server() -> ContentServer {
    let mut server = ContentServer::new(
        1,
        &vec![2],
        Vec::new(),
        vec![(3, "media/3.jpg".to_string())],
        ServerType::Media,
        false,
    )
    .unwrap();
    server.topology.add_edge(1, 2);
    server
}

fn request(q: BrowserRequest, session_id: u64) -> Packet {
    let frags = disassemble(&encode_request(q));
    Packet {
        routing_header: SourceRoutingHeader { hop_index: 1, hops: vec![21, 2, 1] },
        session_id,
        pack_type: PacketType::MsgFragment(frags[0].clone()),
    }
}

#[test]
fn media_server_serves_media() {
    let mut server = media_server();
    let actions = server.handle_drone_packets(request(BrowserRequest::MediaFileRequest(3), 40));
    assert_eq!(actions.len(), 2);
    let load = match &actions[1] {
        Action::Load(load) => load.clone(),
        _ => panic!("no file to read"),
    };
    assert_eq!(load.kind, content_server::server::FileKind::Media);
    assert_eq!(load.path, "media/3.jpg");
    assert_eq!(load.route, vec![21, 2, 1]);
    let image: Vec<u8> = (0..200u32).map(|i| (i * 7 % 256) as u8).collect();
    let out = server.send_media_file(&load, &image);
    let packets: Vec<Packet> = sends(&out).into_iter().map(|(_, p)| p).collect();
    let mut assembler = Assembler::new();
    let mut whole = None;
    for p in &packets {
        if let PacketType::MsgFragment(f) = &p.pack_type {
            assert_eq!(p.routing_header.hops, vec![1, 2, 21]);
            whole = assembler.add_fragment(f, p.session_id).or(whole);
        }
    }
    assert_eq!(whole, Some(encode_media_file(3, &image)));
    assert!(matches!(out.last(), Some(Action::MessageSent(40))));
}

#[test]
fn media_server_ignores_text_requests_and_unknown_ids() {
    let mut server = media_server();
    let a = server.handle_drone_packets(request(BrowserRequest::TextFileRequest(3), 41));
    assert_eq!(a.len(), 1);
    let b = server.handle_drone_packets(request(BrowserRequest::MediaFileRequest(9), 42));
    assert_eq!(b.len(), 1);
    assert!(server.sent_packets.is_empty());
    let c = server.handle_drone_packets(request(BrowserRequest::FileList, 43));
    let packets: Vec<Packet> = sends(&c).into_iter().map(|(_, p)| p).collect();
    let mut assembler = Assembler::new();
    let mut whole = None;
    for p in &packets[1..] {
        if let PacketType::MsgFragment(f) = &p.pack_type {
            whole = assembler.add_fragment(f, p.session_id).or(whole);
        }
    }
    assert_eq!(whole, Some(b"{\"type\":\"FileList\",\"ids\":[3]}".to_vec()));
}

#[test]
fn index_keeps_one_entry_per_id() {
    let entries: Vec<(Vec<u8>, String)> = vec![
        (b"2.txt".to_vec(), "d/2.txt".to_string()),
        (b"5.txt".to_vec(), "d/5.txt".to_string()),
        (b"02.txt".to_vec(), "d/02.txt".to_string()),
    ];
    let index = index_files(&entries, &b".txt".to_vec());
    assert_eq!(index, vec![(2, "d/02.txt".to_string()), (5, "d/5.txt".to_string())]);
}

#[test]
fn text_that_is_not_utf8_gets_no_answer() {
    assert!(content_server::message::check_utf8(&"héllo €𝄞".as_bytes().to_vec()));
    assert!(!content_server::message::check_utf8(&vec![0xc3]));
    assert!(!content_server::message::check_utf8(&vec![0xed, 0xa0, 0x80]));
    assert!(!content_server::message::check_utf8(&vec![0xff]));
    let mut server = text_server();
    let actions = server.handle_drone_packets(request(BrowserRequest::TextFileRequest(2), 50));
    let load = match &actions[1] {
        Action::Load(load) => load.clone(),
        _ => panic!("no file to read"),
    };
    assert!(server.send_text_file(&load, &vec![0x61, 0xff]).is_empty());
    assert!(server.sent_packets.is_empty());
    assert!(!server.send_text_file(&load, &b"ok".to_vec()).is_empty());
}

#[test]
fn media_file_is_sent_as_jpeg() {
    let mut server = media_server();
    let actions = server.handle_drone_packets(request(BrowserRequest::MediaFileRequest(3), 60));
    let load = match &actions[1] {
        Action::Load(load) => load.clone(),
        _ => panic!("no file to read"),
    };
    assert!(server.answer_media_file(&load, &b"not a picture".to_vec()).is_empty());
    let picture = image::RgbImage::from_pixel(4, 4, image::Rgb([200, 10, 10]));
    let mut jpeg = Vec::new();
    image::DynamicImage::ImageRgb8(picture)
        .write_to(&mut std::io::Cursor::new(&mut jpeg), image::ImageFormat::Jpeg)
        .unwrap();
    let out = server.answer_media_file(&load, &jpeg);
    assert!(matches!(out.last(), Some(Action::MessageSent(60))));
    assert!(!sends(&out).is_empty());
}

#[test]
fn relay_skips_the_sender_and_keeps_order() {
    let mut server = text_server();
    server.handle_sim_controller_packets(Command::AddSender(9));
    server.handle_sim_controller_packets(Command::AddSender(4));
    let request = Packet {
        routing_header: SourceRoutingHeader { hop_index: 0, hops: vec![] },
        session_id: 8,
        pack_type: PacketType::FloodRequest(content_server::packet::FloodRequest {
            flood_id: 3,
            initiator_id: 30,
            path_trace: vec![(30, content_server::packet::NodeType::Client), (4, content_server::packet::NodeType::Drone)],
        }),
    };
    let out = sends(&server.handle_drone_packets(request));
    let targets: Vec<u8> = out.iter().map(|(n, _)| *n).collect();
    assert_eq!(targets, vec![2, 9]);
}

#[test]
fn own_flood_reply_with_empty_retry_set_sends_nothing() {
    let mut server = text_server();
    let reply = Packet {
        routing_header: SourceRoutingHeader { hop_index: 2, hops: vec![3, 4, 1] },
        session_id: 3,
        pack_type: PacketType::FloodResponse(content_server::packet::FloodResponse {
            flood_id: 1,
            path_trace: vec![
                (1, content_server::packet::NodeType::Server),
                (4, content_server::packet::NodeType::Drone),
                (3, content_server::packet::NodeType::Drone),
            ],
        }),
    };
    let actions = server.handle_drone_packets(reply);
    assert_eq!(actions.len(), 1);
    assert!(matches!(actions[0], Action::FloodResponseReceived(1)));
    assert_eq!(server.topology.nodes(), vec![1, 2, 3, 4, 21]);
}
