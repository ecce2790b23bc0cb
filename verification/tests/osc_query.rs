use pishock_bridge::osc::{
    advertisement, header_complete, is_vrchat_name, message_target, peer_allowed, wants_host_info, words_of,
    OscTarget,
};
use pishock_bridge::state::{contact_label, is_contact_path};

fn dns_name(out: &mut Vec<u8>, name: &str) {
    for label in name.split('.').filter(|l| !l.is_empty()) {
        out.push(label.len() as u8);
        out.extend_from_slice(label.as_bytes());
    }
    out.push(0);
}

#[test]
fn advertisement_layout() {
    let packet = advertisement(b"Pishock-bridge-33776", b"pishock-bridge-33776.local", 33776);
    let mut expected: Vec<u8> = vec![0, 0, 0x84, 0, 0, 0, 0, 1, 0, 0, 0, 3];
    let service = "_oscjson._tcp.local";
    let instance = "Pishock-bridge-33776._oscjson._tcp.local";
    let host = "pishock-bridge-33776.local";
    let mut ptr = Vec::new();
    dns_name(&mut ptr, instance);
    let record = |out: &mut Vec<u8>, name: &str, t: u16, c: u16, data: &[u8]| {
        dns_name(out, name);
        out.extend_from_slice(&t.to_be_bytes());
        out.extend_from_slice(&c.to_be_bytes());
        out.extend_from_slice(&120u32.to_be_bytes());
        out.extend_from_slice(&(data.len() as u16).to_be_bytes());
        out.extend_from_slice(data);
    };
    record(&mut expected, service, 12, 1, &ptr);
    let mut srv = vec![0, 0, 0, 0];
    srv.extend_from_slice(&33776u16.to_be_bytes());
    dns_name(&mut srv, host);
    record(&mut expected, instance, 33, 0x8001, &srv);
    record(&mut expected, instance, 16, 0x8001, b"\x09txtvers=1");
    record(&mut expected, host, 1, 0x8001, &[127, 0, 0, 1]);
    assert_eq!(packet, expected);
}

#[test]
fn empty_labels_are_skipped() {
    let packet = advertisement(b"a", b"..h..", 1);
    assert_eq!(&packet[packet.len() - 17..], &[1, b'h', 0, 0, 1, 0x80, 1, 0, 0, 0, 120, 0, 4, 127, 0, 0, 1]);
}

#[test]
fn header_end() {
    assert!(header_complete(b"GET / HTTP/1.1\r\nHost: x\r\n\r\n"));
    assert!(!header_complete(b"GET / HTTP/1.1\r\nHost: x\r\n"));
    assert!(!header_complete(b"\r\n\r"));
    assert!(header_complete(b"\r\n\r\n"));
}

#[test]
fn host_info_requests() {
    assert!(wants_host_info("GET /?HOST_INFO HTTP/1.1\r\nHost: 127.0.0.1\r\n\r\n"));
    assert!(wants_host_info("  GET\t /?HOST_INFO"));
    assert!(!wants_host_info("GET / HTTP/1.1"));
    assert!(!wants_host_info("GET"));
    assert!(!wants_host_info(""));
    assert_eq!(words_of(" a  b\nc "), vec!["a", "b", "c"]);
}

#[test]
fn vrchat_names() {
    assert!(is_vrchat_name("VRChat-Client-ABC123"));
    assert!(!is_vrchat_name("Pishock_bridge"));
    assert!(!is_vrchat_name("VRChat-Client"));
}

#[test]
fn contact_paths() {
    assert!(is_contact_path("/avatar/parameters/SHK/Head"));
    assert!(is_contact_path("/avatar/parameters/SHK"));
    assert!(!is_contact_path("/avatar/parameters/shk/Head"));
    assert_eq!(contact_label("/avatar/parameters/SHK/Head"), "SHK/Head");
}

#[test]
fn message_targets() {
    assert!(matches!(message_target("/avatar/change"), OscTarget::AvatarChange));
    assert!(matches!(message_target("/avatar/parameters/SHK/Head"), OscTarget::Contact));
    assert!(matches!(message_target("/avatar/parameters/shk/Head"), OscTarget::Other));
    assert!(matches!(message_target("/avatar/change/x"), OscTarget::Other));
}

#[test]
fn peers_from_this_machine_only() {
    let locals = vec![vec![192u8, 168, 1, 20]];
    assert!(peer_allowed(&[127, 0, 0, 1], &locals));
    assert!(peer_allowed(&[127, 3, 2, 1], &locals));
    let mut v6 = [0u8; 16];
    v6[15] = 1;
    assert!(peer_allowed(&v6, &locals));
    assert!(peer_allowed(&[192, 168, 1, 20], &locals));
    assert!(!peer_allowed(&[192, 168, 1, 21], &locals));
    v6[15] = 2;
    assert!(!peer_allowed(&v6, &locals));
}
