use stegshare::bully::{coordinator_to_announce, highest_answer, BullyMessage, BullyNode, BullyReaction};
use stegshare::directory::{
    choose_entry, chosen_peer, classify_directory_request, has_png_extension, host_of,
    is_picture_of_peer, other_users, registration_name, service_address, Directory,
    DirectoryRequest,
};
use stegshare::fragment::{split_into_fragments, Fragment, FRAGMENT_SIZE};
use stegshare::middleware::{Forward, Middleware};
use stegshare::payload::recover_payload;
use stegshare::peer::{
    classify_listener_request, classify_offer_request, view_answer, ListenerRequest, OfferRequest,
    ViewAnswer,
};
use stegshare::picture::{decode_picture, preview};
use stegshare::server::{DirectoryOutcome, FragmentOutcome, Peer, PictureServer};
use stegshare::text::trimmed;

fn chars(s: &str) -> Vec<char> {
    s.chars().collect()
}

fn text(c: &[char]) -> String {
    c.iter().collect()
}

fn peer(host: &str, port: u16) -> Peer {
    Peer { host: chars(host), port }
}

#[test]
fn directory_requests_are_classified() {
    assert!(matches!(classify_directory_request(&chars("Register:Client1")), DirectoryRequest::Register));
    assert!(matches!(classify_directory_request(&chars("Remove")), DirectoryRequest::Remove));
    assert!(matches!(classify_directory_request(&chars("Query:")), DirectoryRequest::Query));
    assert!(matches!(classify_directory_request(&chars("Register")), DirectoryRequest::Query));
}

#[test]
fn registration_name_is_second_field() {
    assert_eq!(text(&registration_name(&chars("Register:Client1"))), "Client1");
    assert_eq!(text(&registration_name(&chars("Register: Bob \n"))), "Bob");
    assert_eq!(text(&registration_name(&chars("Register:a:b"))), "a");
    assert_eq!(text(&registration_name(&chars("Register:"))), "");
}

#[test]
fn trimming_uses_unicode_white_space() {
    assert_eq!(text(&trimmed(&chars("\u{3000} x y\u{a0}\t"))), "x y");
    assert_eq!(text(&trimmed(&chars("   "))), "");
}

#[test]
fn directory_registers_and_removes_first_match() {
    let mut d = Directory::new();
    d.register(chars("127.0.0.8"), chars("Client1"));
    d.register(chars("127.0.0.11"), chars("Client2"));
    d.register(chars("127.0.0.8"), chars("Again"));
    let removed = d.remove_address(&chars("127.0.0.8"));
    assert_eq!(removed.map(|n| text(&n)), Some("Client1".to_string()));
    let names: Vec<String> = d.users().iter().map(|u| text(&u.name)).collect();
    assert_eq!(names, vec!["Client2", "Again"]);
    assert!(d.remove_address(&chars("10.0.0.1")).is_none());
    assert_eq!(d.users().len(), 2);
}

#[test]
fn own_user_is_left_out() {
    let mut d = Directory::new();
    d.register(chars("127.0.0.8"), chars("Client1"));
    d.register(chars("127.0.0.11"), chars("Client2"));
    let others = other_users(d.users(), &chars("Client2"));
    assert_eq!(others.len(), 1);
    assert_eq!(text(&others[0].name), "Client1");
    assert_eq!(text(&chosen_peer(&others, 1)), "127.0.0.8:8085");
    assert_eq!(text(&chosen_peer(&others, 0)), "");
    assert_eq!(text(&chosen_peer(&others, 2)), "");
}

#[test]
fn menu_choice_is_one_based() {
    assert_eq!(choose_entry(1, 3), Some(0));
    assert_eq!(choose_entry(3, 3), Some(2));
    assert_eq!(choose_entry(0, 3), None);
    assert_eq!(choose_entry(4, 3), None);
}

#[test]
fn client_address_is_rewritten_to_peer_port() {
    assert_eq!(text(&service_address(&chars("127.0.0.8:3411"))), "127.0.0.8:8085");
    assert_eq!(text(&service_address(&chars("host"))), "host:8085");
    assert_eq!(text(&host_of(&chars("127.0.0.2"))), "127.0.0.2");
    assert_eq!(text(&host_of(&chars("::1"))), "");
}

#[test]
fn png_extension_follows_path_rules() {
    assert!(has_png_extension(&chars("japan.png")));
    assert!(has_png_extension(&chars("a.tar.png")));
    assert!(!has_png_extension(&chars(".png")));
    assert!(!has_png_extension(&chars("a.PNG")));
    assert!(!has_png_extension(&chars("a.png.bak")));
    assert!(!has_png_extension(&chars("png")));
    assert!(has_png_extension(&chars("..png")));
}

#[test]
fn stored_pictures_are_found_by_peer() {
    assert!(is_picture_of_peer(&chars("encrypted1,127.0.0.8:3411.png"), &chars("127.0.0.8:3411")));
    assert!(!is_picture_of_peer(&chars("encrypted1,127.0.0.8:3411.jpg"), &chars("127.0.0.8:3411")));
    assert!(!is_picture_of_peer(&chars("encrypted1.png"), &chars("127.0.0.8:3411")));
}

#[test]
fn server_handles_directory_messages() {
    let mut s = PictureServer::new();
    match s.on_directory_message(&chars("Register:Client1"), &chars("127.0.0.8")) {
        DirectoryOutcome::Registered(name) => assert_eq!(text(&name), "Client1"),
        _ => panic!("expected a registration"),
    }
    assert!(matches!(s.on_directory_message(&chars("Query:"), &chars("127.0.0.8")), DirectoryOutcome::Query));
    s.record_query_election(true);
    assert!(s.is_leader());
    assert_eq!(s.directory().users().len(), 1);
    match s.on_directory_message(&chars("Remove"), &chars("127.0.0.8")) {
        DirectoryOutcome::Removed(Some(name)) => assert_eq!(text(&name), "Client1"),
        _ => panic!("expected a removal"),
    }
    assert_eq!(s.directory().users().len(), 0);
}

#[test]
fn server_hides_a_whole_picture() {
    let data: Vec<u8> = (0..40000u32).map(|i| (i % 200) as u8 + 1).collect();
    let frags = split_into_fragments(&data, FRAGMENT_SIZE, 0);
    let client = peer("127.0.0.8", 12345);
    let mut s = PictureServer::new();
    let mut completed = None;
    for frag in frags {
        if s.needs_election() {
            s.record_fragment_election(true, &client);
        }
        match s.on_fragment(&client, frag) {
            FragmentOutcome::Stored => {}
            FragmentOutcome::Completed(bytes) => completed = Some(bytes),
            FragmentOutcome::Ignored => panic!("fragment ignored"),
        }
    }
    let mut alpha = completed.expect("picture completed");
    alpha.extend_from_slice(&[255; 10]);
    assert_eq!(recover_payload(&alpha), data);
    assert!(s.needs_election());
}

#[test]
fn server_ignores_other_clients_while_serving() {
    let client = peer("127.0.0.8", 12345);
    let other = peer("127.0.0.11", 12345);
    let mut s = PictureServer::new();
    s.record_fragment_election(true, &client);
    let first = Fragment { total_frags_number: 2, position: 0, packet: vec![1], views: 0 };
    assert!(matches!(s.on_fragment(&client, first), FragmentOutcome::Stored));
    assert!(!s.needs_election());
    let intruder = Fragment { total_frags_number: 2, position: 1, packet: vec![2], views: 0 };
    assert!(matches!(s.on_fragment(&other, intruder), FragmentOutcome::Ignored));
    let same_host_other_port = Fragment { total_frags_number: 2, position: 1, packet: vec![2], views: 0 };
    assert!(matches!(s.on_fragment(&peer("127.0.0.8", 1), same_host_other_port), FragmentOutcome::Ignored));
}

#[test]
fn lost_election_ignores_fragment() {
    let client = peer("127.0.0.8", 12345);
    let mut s = PictureServer::new();
    s.record_fragment_election(false, &client);
    let frag = Fragment { total_frags_number: 1, position: -1, packet: vec![1], views: 0 };
    assert!(matches!(s.on_fragment(&client, frag), FragmentOutcome::Ignored));
}

#[test]
fn bully_answers_higher_elections_only() {
    let mut n = BullyNode::new(2);
    assert!(matches!(n.on_message(&BullyMessage::Election(3)), BullyReaction::AnswerAndElect));
    assert!(matches!(n.on_message(&BullyMessage::Election(1)), BullyReaction::Nothing));
    assert!(matches!(n.on_message(&BullyMessage::Answer(5)), BullyReaction::Nothing));
    assert!(matches!(n.on_message(&BullyMessage::Request(chars("x"))), BullyReaction::Respond));
    n.on_message(&BullyMessage::Coordinator(2));
    assert!(n.is_coordinator());
    n.on_message(&BullyMessage::Coordinator(4));
    assert!(!n.is_coordinator());
    assert_eq!(n.id(), 2);
}

#[test]
fn highest_answer_wins() {
    let replies = vec![BullyMessage::Answer(3), BullyMessage::Election(9), BullyMessage::Answer(7)];
    assert_eq!(highest_answer(&replies), Some(7));
    assert_eq!(highest_answer(&[BullyMessage::Coordinator(4)]), None);
    assert_eq!(highest_answer(&[]), None);
}

#[test]
fn middleware_routes_first_piece_to_all_servers() {
    let mut m = Middleware::new();
    assert!(m.can_forward(0));
    assert!(!m.can_forward(1));
    assert!(matches!(m.forward(0), Forward::AllServers));
    m.record_reply(chars("127.0.0.2:8080"));
    match m.forward(-1) {
        Forward::Server(s) => assert_eq!(text(&s), "127.0.0.2:8080"),
        Forward::AllServers => panic!("expected the replier"),
    }
    assert!(matches!(m.forward(0), Forward::AllServers));
}

#[test]
fn peer_requests_are_classified() {
    assert!(matches!(classify_offer_request(b"New view grant"), OfferRequest::GrantViews));
    assert!(matches!(classify_offer_request(b"Sig"), OfferRequest::ReceiveViews));
    assert!(matches!(classify_offer_request(b"I want to request a picture"), OfferRequest::Catalog));
    assert!(matches!(classify_listener_request(b"VIEWS"), ListenerRequest::ViewsAsked));
    assert!(matches!(classify_listener_request(b"UPDATE"), ListenerRequest::GrantViews));
    assert!(matches!(classify_listener_request(b"IGET"), ListenerRequest::ReceiveViews));
    assert!(matches!(classify_listener_request(b"hello"), ListenerRequest::Catalog));
}

#[test]
fn register_then_remove_restores_directory() {
    let mut d = Directory::new();
    d.register(chars("127.0.0.8"), chars("Client1"));
    d.register(chars("127.0.0.11"), chars("Client2"));
    let removed = d.remove_address(&chars("127.0.0.11"));
    assert_eq!(removed.map(|n| text(&n)), Some("Client2".to_string()));
    let names: Vec<String> = d.users().iter().map(|u| text(&u.name)).collect();
    assert_eq!(names, vec!["Client1"]);
}

#[test]
fn server_accepts_pieces_in_any_order_before_the_last() {
    let data: Vec<u8> = (0..(3 * 16384 + 5) as u32).map(|i| (i % 97) as u8 + 1).collect();
    let mut frags = split_into_fragments(&data, FRAGMENT_SIZE, 0);
    assert_eq!(frags.len(), 4);
    let last = frags.pop().unwrap();
    let client = peer("127.0.0.8", 12345);
    let mut s = PictureServer::new();
    s.record_fragment_election(true, &client);
    for i in [2usize, 0, 1, 1] {
        let f = &frags[i];
        let copy = Fragment { total_frags_number: f.total_frags_number, position: f.position, packet: f.packet.clone(), views: 0 };
        assert!(matches!(s.on_fragment(&client, copy), FragmentOutcome::Stored));
    }
    match s.on_fragment(&client, last) {
        FragmentOutcome::Completed(mut alpha) => {
            alpha.push(255);
            assert_eq!(recover_payload(&alpha), data);
        }
        _ => panic!("expected the picture to complete"),
    }
}

#[test]
fn coordinator_is_self_when_nobody_answers() {
    let none = vec![BullyMessage::Election(5), BullyMessage::Coordinator(1)];
    assert_eq!(coordinator_to_announce(2, &none), 2);
    assert_eq!(coordinator_to_announce(2, &[]), 2);
    let some = vec![BullyMessage::Answer(3), BullyMessage::Answer(9)];
    assert_eq!(coordinator_to_announce(2, &some), 9);
}

#[test]
fn view_answer_ignores_line_end() {
    assert!(matches!(view_answer(&chars("1\n")), ViewAnswer::Yes));
    assert!(matches!(view_answer(&chars(" 2 \r\n")), ViewAnswer::No));
    assert!(matches!(view_answer(&chars("12\n")), ViewAnswer::Unclear));
    assert!(matches!(view_answer(&chars("\n")), ViewAnswer::Unclear));
}

#[test]
fn preview_fits_in_box() {
    let picture = image::DynamicImage::new_rgba8(1024, 256);
    let bytes = preview(&picture).expect("encoded");
    let decoded = image::load_from_memory(&bytes).expect("a PNG");
    assert_eq!((decoded.width(), decoded.height()), (512, 128));
}

#[test]
fn directory_keeps_registrations_in_order() {
    let mut s = PictureServer::new();
    s.on_directory_message(&chars("Register:A"), &chars("10.0.0.1"));
    s.on_directory_message(&chars("Register:B"), &chars("10.0.0.2"));
    s.on_directory_message(&chars("Register:C"), &chars("10.0.0.1"));
    s.on_directory_message(&chars("Query:"), &chars("10.0.0.3"));
    s.on_directory_message(&chars("Remove"), &chars("10.0.0.1"));
    let names: Vec<String> = s.directory().users().iter().map(|u| text(&u.name)).collect();
    assert_eq!(names, vec!["B", "C"]);
}

#[test]
fn directory_reply_lists_trimmed_names_in_arrival_order() {
    let mut s = PictureServer::new();
    s.on_directory_message(&chars("Register: alice :home\n"), &chars("10.0.0.1"));
    s.on_directory_message(&chars("Register:bob"), &chars("10.0.0.2"));
    s.on_directory_message(&chars("Register:bob"), &chars("10.0.0.2"));
    s.on_directory_message(&chars("Remove"), &chars("10.0.0.9"));
    s.on_directory_message(&chars("Register:\tcarol  "), &chars("10.0.0.1"));
    s.on_directory_message(&chars("Remove please"), &chars("10.0.0.2"));
    let users: Vec<(String, String)> =
        s.directory().users().iter().map(|u| (text(&u.address), text(&u.name))).collect();
    assert_eq!(
        users,
        vec![
            ("10.0.0.1".to_string(), "alice".to_string()),
            ("10.0.0.2".to_string(), "bob".to_string()),
            ("10.0.0.1".to_string(), "carol".to_string()),
        ]
    );
}

#[test]
fn preview_scales_small_pictures_up_to_the_box() {
    let picture = image::DynamicImage::new_rgb8(100, 50);
    let bytes = preview(&picture).expect("encoded");
    assert_eq!(&bytes[..8], &[0x89, b'P', b'N', b'G', 0x0d, 0x0a, 0x1a, 0x0a]);
    let decoded = image::load_from_memory(&bytes).expect("a PNG");
    assert_eq!((decoded.width(), decoded.height()), (512, 256));
}

#[test]
fn received_bytes_decode_to_the_sent_picture() {
    let bytes = preview(&image::DynamicImage::new_rgba8(64, 64)).expect("encoded");
    let picture = decode_picture(&bytes).expect("a picture");
    assert_eq!((picture.width(), picture.height()), (512, 512));
    assert!(decode_picture(&[0u8, 1, 2, 3, 4, 5, 6, 7]).is_err());
}
