use content_server::assembler::Assembler;
use content_server::fragment::disassemble;
use content_server::message::{
    encode_file_list, encode_request, encode_server_type, encode_text_file, BrowserRequest,
};
use content_server::packet::{
    Fragment, Nack, NackType, NodeType, Packet, PacketType, SourceRoutingHeader,
};
use content_server::server::{Action, ContentServer, FileKind, ServerType};

const TEXT_2: &str = "This is the text number 2 Lorem ipsum dolor sit amet, consectetur adipiscing elit. Vestibulum ultrices faucibus tincidunt. Donec volutpat euismod fermentum.\r\n";

fn build_server_with(files: Vec<(u8, String)>) -> ContentServer {
    let mut server = ContentServer::new(1, &vec![2], files, Vec::new(), ServerType::Text, false)
        .expect("a text server is accepted");
    server.topology.add_node(2);
    server.topology.add_node(21);
    server.topology.add_edge(2, 21);
    server.topology.add_edge(1, 2);
    server
}

fn build_server() -> ContentServer {
    build_server_with(vec![(2, "files/2.txt".to_string())])
}

fn request_packet(q: BrowserRequest, session_id: u64) -> Packet {
    let frags = disassemble(&encode_request(q));
    Packet {
        routing_header: SourceRoutingHeader { hop_index: 1, hops: vec![21, 2, 1] },
        session_id,
        pack_type: PacketType::MsgFragment(frags[0].clone()),
    }
}

fn fragment_packet(f: Fragment, session_id: u64, hops: Vec<u8>) -> Packet {
    Packet {
        routing_header: SourceRoutingHeader { hop_index: 1, hops },
        session_id,
        pack_type: PacketType::MsgFragment(f),
    }
}

/// Carries out the file reads the server asks for, with the given contents,
/// and returns every action in order, the reads replaced by what followed.
fn run(server: &mut ContentServer, actions: Vec<Action>, contents: &[(u8, &str)]) -> Vec<Action> {
    let mut out = Vec::new();
    for a in actions {
        match a {
            Action::Load(load) => {
                let text = contents
                    .iter()
                    .find(|(id, _)| *id == load.id)
                    .map(|(_, t)| t.as_bytes().to_vec())
                    .expect("content for the requested file");
                assert_eq!(load.kind, FileKind::Text);
                out.extend(server.send_text_file(&load, &text));
            }
            other => out.push(other),
        }
    }
    out
}

fn sent_to(actions: &[Action], to: u8) -> Vec<Packet> {
    actions
        .iter()
        .filter_map(|a| match a {
            Action::Send(n, p) if *n == to => Some(p.clone()),
            _ => None,
        })
        .collect()
}

fn reassemble(packets: &[Packet]) -> Option<Vec<u8>> {
    let mut assembler = Assembler::new();
    for p in packets {
        if let PacketType::MsgFragment(f) = &p.pack_type {
            if let Some(msg) = assembler.add_fragment(f, p.session_id) {
                return Some(msg);
            }
        }
    }
    None
}

fn expected_fragment(msg: Vec<u8>, session_id: u64) -> Packet {
    fragment_packet(disassemble(&msg)[0].clone(), session_id, vec![1, 2, 21])
}

#[test]
fn add_sender_test() {
    let mut server = build_server();
    let actions = server.handle_add_sender(3);
    assert!(server.has_sender(3));
    assert!(server.topology.contains_node(3));
    assert!(server.topology.contains_node(1));
    assert!(server.topology.contains_edge(1, 3));
    assert!(server.topology.contains_edge(3, 1));
    assert!(actions.iter().all(|a| matches!(a, Action::Send(_, _) | Action::FloodRequestSent)));
}

#[test]
fn remove_sender_test() {
    let mut server = build_server();
    server.handle_remove_sender(2);
    assert!(!server.has_sender(2));
    assert!(server.topology.contains_node(1));
    assert!(!server.topology.contains_edge(1, 2));
    assert!(!server.topology.contains_edge(2, 1));
    // only the edge goes: node 2 and its other edges stay
    assert!(server.topology.contains_node(2));
    assert!(server.topology.contains_edge(2, 21));
}

#[test]
fn file_list_request_test() {
    let mut server = build_server();
    let actions = server.handle_drone_packets(request_packet(BrowserRequest::FileList, 2));
    let to_2 = sent_to(&actions, 2);
    match &to_2[0].pack_type {
        PacketType::Ack(ack) => assert_eq!(ack.fragment_index, 0, "Incorrect ACK fragment index"),
        _ => panic!("The first packet received is not an ACK"),
    }
    assert_eq!(to_2[0].routing_header.hops, vec![1, 2, 21]);
    let expected = expected_fragment(encode_file_list(&vec![2]), 2);
    assert_eq!(expected, to_2[1], "Do not correspond");
    assert_eq!(
        String::from_utf8(reassemble(&to_2[1..]).unwrap()).unwrap(),
        "{\"type\":\"FileList\",\"ids\":[2]}"
    );
}

#[test]
fn server_tests_process_file_request() {
    let mut server =
        build_server_with(vec![(0, "files/0.txt".to_string()), (1, "files/1.txt".to_string())]);
    let actions = server.handle_drone_packets(request_packet(BrowserRequest::FileList, 0));
    let to_2 = sent_to(&actions, 2);
    match &to_2[0].pack_type {
        PacketType::Ack(ack) => assert_eq!(ack.fragment_index, 0, "Incorrect ACK fragment index"),
        _ => panic!("The first packet received is not an ACK"),
    }
    let expected = expected_fragment(encode_file_list(&vec![0, 1]), to_2[1].session_id);
    assert_eq!(expected, to_2[1], "Do not correspond");
}

#[test]
fn process_file_content_request() {
    let mut server =
        build_server_with(vec![(0, "files/0.txt".to_string()), (1, "files/1.txt".to_string())]);
    let actions = server.handle_drone_packets(request_packet(BrowserRequest::TextFileRequest(0), 12345));
    let actions = run(&mut server, actions, &[(0, "File content requested.")]);
    let to_2 = sent_to(&actions, 2);
    match &to_2[0].pack_type {
        PacketType::Ack(ack) => assert_eq!(ack.fragment_index, 0, "Fragment index ACK not right"),
        _ => panic!("First packet not ack"),
    }
    let body = String::from_utf8(reassemble(&to_2[1..]).unwrap()).unwrap();
    assert_eq!(body, "{\"type\":\"TextFile\",\"id\":0,\"content\":\"File content requested.\"}");
}

#[test]
fn file_text_request_test() {
    let mut server = build_server();
    server.topology.clear();
    let actions = server.handle_drone_packets(request_packet(BrowserRequest::TextFileRequest(2), 12345));
    let actions = run(&mut server, actions, &[(2, TEXT_2)]);
    let to_2 = sent_to(&actions, 2);
    assert!(matches!(to_2[0].pack_type, PacketType::Ack(_)));
    let body = reassemble(&to_2[1..]).expect("the whole answer arrives");
    assert_eq!(body, encode_text_file(2, &TEXT_2.as_bytes().to_vec()));
    let text = String::from_utf8(body).unwrap();
    assert!(text.starts_with("{\"type\":\"TextFile\",\"id\":2,\"content\":\"This is the text number 2"));
    assert!(text.ends_with("fermentum.\\r\\n\"}"));
}

#[test]
fn file_media_request_test() {
    // a text server gives no answer to a media request, only the ack
    let mut server = build_server();
    let actions = server.handle_drone_packets(request_packet(BrowserRequest::MediaFileRequest(3), 12345));
    assert_eq!(actions.len(), 1);
    let to_2 = sent_to(&actions, 2);
    assert!(matches!(to_2[0].pack_type, PacketType::Ack(_)));
    assert!(server.sent_packets.is_empty());
}

#[test]
fn server_type_request_test() {
    let mut server = build_server();
    let actions = server.handle_drone_packets(request_packet(BrowserRequest::ServerTypeRequest, 2));
    let to_2 = sent_to(&actions, 2);
    match &to_2[0].pack_type {
        PacketType::Ack(ack) => assert_eq!(ack.fragment_index, 0, "Incorrect ACK fragment index"),
        _ => panic!("The first packet received is not an ACK"),
    }
    let expected = expected_fragment(encode_server_type(ServerType::Text), to_2[1].session_id);
    assert_eq!(expected, to_2[1], "Do not correspond");
}

#[test]
fn server_type_test_process_file_request() {
    let mut server = build_server();
    let actions = server.handle_drone_packets(request_packet(BrowserRequest::ServerTypeRequest, 0));
    let to_2 = sent_to(&actions, 2);
    match &to_2[0].pack_type {
        PacketType::Ack(ack) => assert_eq!(ack.fragment_index, 0, "Incorrect ACK fragment index"),
        _ => panic!("The first packet received is not an ACK"),
    }
    let expected = expected_fragment(encode_server_type(ServerType::Text), to_2[1].session_id);
    assert_eq!(expected, to_2[1], "Do not correspond");
    assert!(server.sent_packets.contains_key(&expected.session_id));
    match actions.last() {
        Some(Action::MessageSent(session_id)) => assert_eq!(*session_id, expected.session_id),
        _ => panic!("Print 1"),
    }
}

#[test]
fn flood_request_test() {
    let server = build_server();
    let request = Packet {
        routing_header: SourceRoutingHeader { hop_index: 0, hops: vec![] },
        session_id: 3,
        pack_type: PacketType::FloodRequest(content_server::packet::FloodRequest {
            flood_id: 1,
            initiator_id: 21,
            path_trace: vec![(4, NodeType::Drone), (3, NodeType::Drone)],
        }),
    };
    let mut server = server;
    let actions = server.handle_drone_packets(request);
    let expected = Packet {
        routing_header: SourceRoutingHeader { hop_index: 0, hops: vec![] },
        session_id: 3,
        pack_type: PacketType::FloodRequest(content_server::packet::FloodRequest {
            flood_id: 1,
            initiator_id: 21,
            path_trace: vec![(4, NodeType::Drone), (3, NodeType::Drone), (1, NodeType::Server)],
        }),
    };
    assert_eq!(sent_to(&actions, 2), vec![expected], "Do not correspond");
}

#[test]
fn flood_request_twice_test() {
    let mut server = build_server();
    let first = server.send_flood_request();
    let time = server.flood_time;
    let second = server.send_flood_request();
    assert!(!first.is_empty());
    assert!(second.is_empty());
    assert_eq!(server.flood_time, time);
}

#[test]
fn flood_response_test_mine() {
    let mut server = build_server();
    let response = Packet {
        routing_header: SourceRoutingHeader { hop_index: 2, hops: vec![3, 4, 1] },
        session_id: 3,
        pack_type: PacketType::FloodResponse(content_server::packet::FloodResponse {
            flood_id: 1,
            path_trace: vec![(1, NodeType::Server), (4, NodeType::Drone), (3, NodeType::Drone)],
        }),
    };
    let actions = server.handle_drone_packets(response);
    assert!(matches!(actions[0], Action::FloodResponseReceived(1)));
    assert!(server.topology.contains_edge(1, 4));
    assert!(server.topology.contains_edge(4, 3));
    assert!(server.topology.contains_edge(3, 4));
    assert!(server.topology.contains_edge(1, 2));
    assert!(!server.topology.contains_edge(1, 3));
}

#[test]
fn flood_response_test_notmine() {
    let mut server = build_server();
    let trace = vec![
        (21, NodeType::Drone),
        (1, NodeType::Drone),
        (2, NodeType::Server),
        (4, NodeType::Drone),
        (3, NodeType::Drone),
    ];
    let response = Packet {
        routing_header: SourceRoutingHeader { hop_index: 2, hops: vec![3, 4, 1, 2, 21] },
        session_id: 3,
        pack_type: PacketType::FloodResponse(content_server::packet::FloodResponse {
            flood_id: 1,
            path_trace: trace.clone(),
        }),
    };
    let actions = server.handle_drone_packets(response);
    let expected = Packet {
        routing_header: SourceRoutingHeader { hop_index: 3, hops: vec![3, 4, 1, 2, 21] },
        session_id: 3,
        pack_type: PacketType::FloodResponse(content_server::packet::FloodResponse {
            flood_id: 1,
            path_trace: trace,
        }),
    };
    assert_eq!(sent_to(&actions, 2), vec![expected], "Do not correspond");
    assert!(!server.topology.contains_node(4));
}

#[test]
fn fragment_dropped_test() {
    let mut server = build_server();
    let actions = server.handle_drone_packets(request_packet(BrowserRequest::TextFileRequest(2), 12345));
    let actions = run(&mut server, actions, &[(2, TEXT_2)]);
    let to_2 = sent_to(&actions, 2);
    let body = reassemble(&to_2[1..]).expect("the whole answer arrives");
    let text = String::from_utf8(body).unwrap();
    assert!(text.contains("fermentum.\\r\\n"));
    let retained = server.sent_packets.get(&12345).expect("fragments are retained").clone();
    assert_eq!(retained.len(), 2);

    let nack = |i: u64| Packet {
        routing_header: SourceRoutingHeader { hop_index: 1, hops: vec![2, 1] },
        session_id: 12345,
        pack_type: PacketType::Nack(Nack { fragment_index: i, nack_type: NackType::Dropped }),
    };
    let again_1 = server.handle_drone_packets(nack(1));
    let again_0 = server.handle_drone_packets(nack(0));
    assert_eq!(sent_to(&again_1, 2), vec![retained[1].clone()]);
    assert_eq!(sent_to(&again_0, 2), vec![retained[0].clone()]);
    assert_eq!(retained[0].routing_header.hops, vec![1, 2, 21]);
}
