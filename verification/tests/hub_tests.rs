//! End-to-end behaviour of the event hub: accepts, chat, block edits,
//! chunk requests, renames and disconnects.

use craft_server::codec::{BlockEvent, ChunkRequestEvent, PositionEvent, SignEvent, TalkEvent};
use craft_server::commands::{parse_nick, parse_say, strip_slash};
use craft_server::hub::{Hub, Outbound};
use craft_server::nick::parse_line;

fn msgs_for(out: &[Outbound], dest: u32) -> Vec<String> {
    out.iter().filter(|o| o.dest == dest).map(|o| o.msg.clone()).collect()
}

#[test]
fn accept_assigns_ids_and_bursts() {
    let mut hub = Hub::new();
    let a = hub.accept_peer("10.0.0.1", 300);
    assert_eq!(a.id, 1);
    assert_eq!(a.nick, "guest1");
    let m: Vec<String> = a.outbound.iter().map(|o| o.msg.clone()).collect();
    assert_eq!(m, vec!["U,1,0,0,0,0,0\n", "E,300,600\n", "N,1,guest1\n"]);

    let b = hub.accept_peer("10.0.0.2", 301);
    assert_eq!(b.id, 2);
    assert_eq!(b.nick, "guest2");
    // The newcomer learns the existing peer; the existing peer learns
    // the newcomer at spawn.
    assert_eq!(
        msgs_for(&b.outbound, 2),
        vec!["U,2,0,0,0,0,0\n", "E,301,600\n", "P,1,0,0,0,0,0\n", "N,1,guest1\n", "N,2,guest2\n"]
    );
    assert_eq!(msgs_for(&b.outbound, 1), vec!["P,2,0,0,0,0,0\n", "N,2,guest2\n"]);
}

#[test]
fn two_peer_chat() {
    let mut hub = Hub::new();
    let _ = hub.accept_peer("10.0.0.1", 300);
    let _ = hub.accept_peer("10.0.0.2", 300);
    let ev = TalkEvent { text: String::from("hello") };
    let out = hub.handle_talk_event(1, &ev);
    assert_eq!(out.len(), 2);
    assert_eq!(out[0].dest, 1);
    assert_eq!(out[0].msg, "T,guest1> hello\n");
    assert_eq!(out[1].dest, 2);
    assert_eq!(out[1].msg, "T,guest1> hello\n");
}

#[test]
fn position_echo_excludes_the_mover() {
    let mut hub = Hub::new();
    let _ = hub.accept_peer("10.0.0.1", 300);
    let _ = hub.accept_peer("10.0.0.2", 300);
    let ev = PositionEvent::new("1.5,2,3,0,90").unwrap();
    let out = hub.handle_position_event(1, &ev);
    assert_eq!(out.len(), 1);
    assert_eq!(out[0].dest, 2);
    assert_eq!(out[0].msg, "P,1,1.5,2,3,0,90\n");
    // The cached transform is echoed to the next peer that joins.
    let c = hub.accept_peer("10.0.0.3", 300);
    assert!(c.outbound.iter().any(|o| o.dest == 3 && o.msg == "P,1,1.5,2,3,0,90\n"));
}

#[test]
fn block_place_with_overlap() {
    let mut hub = Hub::new();
    let _ = hub.accept_peer("10.0.0.1", 300);
    let ev = BlockEvent { x: 31, y: 10, z: 5, w: 3 };
    let out = hub.handle_block_event(&ev);
    let m: Vec<String> = out.iter().map(|o| o.msg.clone()).collect();
    assert_eq!(
        m,
        vec!["B,0,0,31,10,5,3\n", "R,0,0\n", "B,1,0,31,10,5,-3\n", "R,1,0\n"]
    );
    assert!(out.iter().all(|o| o.dest == 1));
}

#[test]
fn sign_delete_via_air() {
    let mut hub = Hub::new();
    let _ = hub.accept_peer("10.0.0.1", 300);
    let sev = SignEvent { x: 4, y: 8, z: 4, face: 0, text: String::from("hi") };
    let out = hub.handle_sign_event(&sev);
    assert_eq!(out.len(), 1);
    assert_eq!(out[0].msg, "S,0,0,4,8,4,0,hi\n");
    let bev = BlockEvent { x: 4, y: 8, z: 4, w: 0 };
    let _ = hub.handle_block_event(&bev);
    let signs = hub.world_ref().signs_in_chunk((0, 0)).expect("chunk exists");
    assert!(!signs.iter().any(|e| e.0 .0 == 4 && e.0 .1 == 8 && e.0 .2 == 4));
    // The queued commands carry both writes for the persistence worker.
    let cmds = hub.drain_pending();
    assert!(cmds.len() >= 2);
}

#[test]
fn disconnect_and_reconnect_reuses_id() {
    let mut hub = Hub::new();
    let _ = hub.accept_peer("10.0.0.1", 300);
    let _ = hub.accept_peer("10.0.0.2", 300);
    let out = hub.handle_disconnect_event(1);
    assert_eq!(out.len(), 2);
    assert_eq!(out[0].dest, 2);
    assert_eq!(out[0].msg, "D,1\n");
    assert_eq!(out[1].msg, "T,guest1 has left the game\n");
    let b = hub.accept_peer("10.0.0.3", 300);
    assert_eq!(b.id, 1);
    let c = hub.accept_peer("10.0.0.4", 300);
    assert_eq!(c.id, 3);
}

#[test]
fn disconnect_of_unknown_id_sends_no_notice() {
    let mut hub = Hub::new();
    let _ = hub.accept_peer("10.0.0.1", 300);
    let out = hub.handle_disconnect_event(9);
    assert_eq!(out.len(), 1);
    assert_eq!(out[0].msg, "D,9\n");
    // The unknown ID is not recycled.
    let b = hub.accept_peer("10.0.0.2", 300);
    assert_eq!(b.id, 2);
}

#[test]
fn nickname_change_updates_registry_and_roster() {
    let mut hub = Hub::new();
    let _ = hub.accept_peer("10.0.0.1", 300);
    let out = hub.handle_command(1, "nick bob");
    assert_eq!(out.len(), 1);
    assert_eq!(out[0].msg, "T,guest1 is now known as: bob\n");
    assert_eq!(hub.peer_nick(1), Some(String::from("bob")));
    assert_eq!(hub.registry_ref().get("10.0.0.1"), Some(String::from("bob")));
    assert_eq!(hub.registry_ref().render(), "10.0.0.1 = bob\n");
    // The registry keys the next connection from the same address.
    let _ = hub.handle_disconnect_event(1);
    let again = hub.accept_peer("10.0.0.1", 300);
    assert_eq!(again.nick, "bob");
}

#[test]
fn nick_to_same_name_is_a_no_op() {
    let mut hub = Hub::new();
    let _ = hub.accept_peer("10.0.0.1", 300);
    let out = hub.handle_command(1, "nick guest1");
    assert_eq!(out.len(), 0);
    assert_eq!(hub.peer_nick(1), Some(String::from("guest1")));
}

#[test]
fn say_broadcasts_with_trailing_space() {
    let mut hub = Hub::new();
    let _ = hub.accept_peer("10.0.0.1", 300);
    let _ = hub.accept_peer("10.0.0.2", 300);
    let out = hub.handle_command(1, "say hello world");
    assert_eq!(out.len(), 2);
    assert_eq!(out[0].msg, "T,hello world \n");
}

#[test]
fn unknown_or_invalid_commands_do_nothing() {
    let mut hub = Hub::new();
    let _ = hub.accept_peer("10.0.0.1", 300);
    assert_eq!(hub.handle_command(1, "teleport 1 2 3").len(), 0);
    assert_eq!(hub.handle_command(1, "say ").len(), 0);
    assert_eq!(hub.handle_command(1, "nick  ").len(), 0);
}

#[test]
fn chunk_request_streams_contents() {
    let mut hub = Hub::new();
    let _ = hub.accept_peer("10.0.0.1", 300);
    let _ = hub.handle_block_event(&BlockEvent { x: 0, y: 0, z: 0, w: 1 });
    let _ = hub.handle_block_event(&BlockEvent { x: 1, y: 0, z: 0, w: 2 });
    let _ = hub.handle_block_event(&BlockEvent { x: 0, y: 0, z: 1, w: 3 });
    let out = hub.handle_chunk_event(1, &ChunkRequestEvent { p: 0, q: 0 });
    let m: Vec<String> = out.iter().map(|o| o.msg.clone()).collect();
    assert_eq!(
        m,
        vec!["B,0,0,0,0,0,1\n", "B,0,0,1,0,0,2\n", "B,0,0,0,0,1,3\n", "R,0,0\n"]
    );
    assert!(out.iter().all(|o| o.dest == 1));
}

#[test]
fn chunk_request_for_empty_chunk_sends_nothing() {
    let mut hub = Hub::new();
    let _ = hub.accept_peer("10.0.0.1", 300);
    assert_eq!(hub.handle_chunk_event(1, &ChunkRequestEvent { p: 5, q: 5 }).len(), 0);
    // An unknown requester gets nothing either.
    assert_eq!(hub.handle_chunk_event(9, &ChunkRequestEvent { p: 0, q: 0 }).len(), 0);
}

#[test]
fn loaded_nicks_name_new_peers() {
    let mut hub = Hub::new();
    hub.load_nick("10.0.0.1", "alice");
    let a = hub.accept_peer("10.0.0.1", 300);
    assert_eq!(a.nick, "alice");
}

#[test]
fn command_parsers() {
    assert_eq!(strip_slash("/nick bob"), Some(String::from("nick bob")));
    assert_eq!(strip_slash("hello"), None);
    assert_eq!(parse_say("say -w  two  spaced "), Some(String::from(" two  spaced  ")));
    assert_eq!(parse_say("say"), None);
    assert_eq!(parse_nick("nick bob"), Some(String::from("bob")));
    assert_eq!(parse_nick("nick bob extra"), None);
    assert_eq!(parse_nick("nick \u{1}b\u{2}"), Some(String::from("b")));
    assert_eq!(parse_nick("nick \u{1}\u{2}"), None);
    // Whitespace-only arguments are refused; whitespace is trimmed.
    assert_eq!(parse_nick("nick \u{a0}"), None);
    assert_eq!(parse_nick("nick \u{a0}bob\u{2009}"), Some(String::from("bob")));
    assert_eq!(parse_nick("nick a\u{a0}b"), Some(String::from("a\u{a0}b")));
    assert_eq!(parse_nick("nick \u{1}\u{a0}b"), Some(String::from("\u{a0}b")));
}

#[test]
fn nick_file_lines() {
    assert_eq!(
        parse_line("10.0.0.1 = bob"),
        Some((String::from("10.0.0.1"), String::from("bob")))
    );
    assert_eq!(parse_line("a = b = c"), None);
    assert_eq!(parse_line("no separators"), None);
    assert_eq!(parse_line("= onlynick"), None);
}

#[test]
fn light_event_broadcasts_to_all() {
    let mut hub = craft_server::hub::Hub::new();
    let _ = hub.accept_peer("10.0.0.1", 300);
    let _ = hub.accept_peer("10.0.0.2", 300);
    let ev = craft_server::codec::LightEvent { x: 40, y: 5, z: -3, w: 12 };
    let out = hub.handle_light_event(&ev);
    assert_eq!(out.len(), 2);
    assert_eq!(out[0].msg, "L,1,-1,40,5,-3,12\n");
    assert_eq!(out[1].msg, "L,1,-1,40,5,-3,12\n");
}

#[test]
fn server_time_starts_at_noon() {
    let clock = craft_server::ServerTime::at_noon();
    assert_eq!(clock.offset_secs, 300);
    assert_eq!(clock.time(42), 342);
}

#[test]
fn registry_file_round_trip() {
    let mut m = craft_server::nick::NickManager::new();
    m.set("10.0.0.1", "alice");
    m.set("192.168.0.9", "bob");
    let rendered = m.render();
    let mut m2 = craft_server::nick::NickManager::new();
    for line in craft_server::fields::split_records(&rendered) {
        let (ip, nick) = parse_line(&line).expect("well-formed line");
        m2.set(&ip, &nick);
    }
    assert_eq!(m2.get("10.0.0.1"), Some(String::from("alice")));
    assert_eq!(m2.get("192.168.0.9"), Some(String::from("bob")));
}
