//! Certificates of servers and the roots of clients.
use loft_net::frame::{decode_frame, Decoded, OP_TEXT};
use loft_net::handshake::ws_upgrade;
use loft_net::http::{n_tcp_respond, parse_request};
use loft_net::tls::{
    add_roots, client_config, server_config_from_pem, trusted_roots, usable_chain,
};
use rustls::{ClientConnection, ServerConnection};
use std::io::{Read, Write};

fn fixture() -> (String, String) {
    let pair = rcgen::generate_simple_self_signed(vec!["localhost".to_string()]).unwrap();
    (pair.cert.pem(), pair.signing_key.serialize_pem())
}

#[test]
fn server_config_from_pem_accepts_good_rejects_bad() {
    let (cert, key) = fixture();
    assert!(
        server_config_from_pem(&cert, &key).is_some(),
        "a valid PEM cert+key builds a server config"
    );
    assert!(
        server_config_from_pem("not a certificate", "not a key").is_none(),
        "garbage PEM is rejected — a TLS listener never falls back to cleartext"
    );
    assert!(
        server_config_from_pem("", &key).is_none(),
        "an empty cert chain is rejected"
    );
}

#[test]
fn a_key_has_to_be_there_and_to_fit() {
    let (cert, key) = fixture();
    let (other_cert, other_key) = fixture();
    assert!(server_config_from_pem(&cert, "").is_none());
    assert!(server_config_from_pem(&cert, &cert).is_none());
    assert!(server_config_from_pem(&cert, &other_key).is_none());
    assert!(server_config_from_pem(&other_cert, &other_key).is_some());
    // The first certificate is the one that the key is for.
    assert!(server_config_from_pem(&format!("{}{}", cert, other_cert), &key).is_some());
    assert!(server_config_from_pem(&format!("{}{}", other_cert, cert), &key).is_none());
}

#[test]
fn a_chain_with_a_broken_part_is_no_chain() {
    let (cert, key) = fixture();
    let broken = format!("{}-----BEGIN CERTIFICATE-----\n!!\n-----END CERTIFICATE-----\n", cert);
    assert!(server_config_from_pem(&broken, &key).is_none());
}

#[test]
fn chains_keep_their_order() {
    assert_eq!(
        usable_chain(vec![Some(vec![1]), Some(vec![2, 3])]),
        Some(vec![vec![1], vec![2, 3]])
    );
    assert_eq!(usable_chain(vec![Some(vec![1]), None]), None);
    assert_eq!(usable_chain(vec![]), None);
}

#[test]
fn own_roots_are_added_to_the_bundled_ones() {
    let (cert, _) = fixture();
    let bundled = trusted_roots(None);
    assert_eq!(bundled.len(), webpki_roots::TLS_SERVER_ROOTS.len());
    let more = trusted_roots(Some(cert.as_bytes()));
    assert_eq!(more.len(), bundled.len() + 1);
    assert_eq!(more.roots[..bundled.len()], bundled.roots[..]);
    // A text without certificates adds nothing.
    assert_eq!(trusted_roots(Some(b"nothing")).len(), bundled.len());
}

#[test]
fn what_makes_no_root_is_left_out() {
    let mut store = rustls::RootCertStore::empty();
    add_roots(&mut store, &vec![None, Some(vec![1, 2, 3])]);
    assert!(store.is_empty());
}

#[test]
fn clients_get_a_configuration() {
    let config = client_config(None).into_config();
    assert!(config.alpn_protocols.is_empty());
}

/// The two ends of a TLS connection in memory.
struct Pair {
    client: ClientConnection,
    server: ServerConnection,
}

impl Pair {
    fn new(cert: &str, key: &str, trusted: Option<&[u8]>) -> Pair {
        let config = server_config_from_pem(cert, key).expect("a server").into_config();
        let name = rustls_pki_types::ServerName::try_from("localhost").unwrap();
        Pair {
            client: ClientConnection::new(client_config(trusted).into_config(), name).unwrap(),
            server: ServerConnection::new(config).unwrap(),
        }
    }

    /// Moves bytes both ways until neither end has any; false where one of them gives up.
    fn settle(&mut self) -> bool {
        loop {
            let mut wire = Vec::new();
            while self.client.wants_write() {
                self.client.write_tls(&mut wire).unwrap();
            }
            let mut back = Vec::new();
            while self.server.wants_write() {
                self.server.write_tls(&mut back).unwrap();
            }
            if wire.is_empty() && back.is_empty() {
                return true;
            }
            let mut rest = &wire[..];
            while !rest.is_empty() {
                self.server.read_tls(&mut rest).unwrap();
                if self.server.process_new_packets().is_err() {
                    return false;
                }
            }
            let mut rest = &back[..];
            while !rest.is_empty() {
                self.client.read_tls(&mut rest).unwrap();
                if self.client.process_new_packets().is_err() {
                    return false;
                }
            }
        }
    }

    fn to_server(&mut self, bytes: &[u8]) -> Vec<u8> {
        self.client.writer().write_all(bytes).unwrap();
        assert!(self.settle());
        let mut got = vec![0; bytes.len()];
        self.server.reader().read_exact(&mut got).unwrap();
        got
    }

    fn to_client(&mut self, bytes: &[u8]) -> Vec<u8> {
        self.server.writer().write_all(bytes).unwrap();
        assert!(self.settle());
        let mut got = vec![0; bytes.len()];
        self.client.reader().read_exact(&mut got).unwrap();
        got
    }
}

#[test]
fn tls_http_then_ws_over_the_same_surface() {
    let (cert, key) = fixture();
    let mut tls = Pair::new(&cert, &key, Some(cert.as_bytes()));
    assert!(tls.settle(), "TLS accept/handshake failed");
    let wire = tls.to_server(b"GET /hello HTTP/1.1\r\nHost: localhost\r\n\r\n");
    let p = parse_request(&wire).expect("parse the request over TLS");
    assert_eq!(p.request.method, "GET");
    assert_eq!(p.request.path, "/hello");
    let got = tls.to_client(&n_tcp_respond(200, "tls-ok"));
    let got = String::from_utf8_lossy(&got).to_string();
    assert!(got.starts_with("HTTP/1.1 200 OK"), "client got a 200 over TLS: {:?}", got);
    assert!(got.trim_end().ends_with("tls-ok"), "client got the body over TLS: {:?}", got);

    let mut tls = Pair::new(&cert, &key, Some(cert.as_bytes()));
    assert!(tls.settle(), "TLS accept for WS failed");
    let key = "dGhlIHNhbXBsZSBub25jZQ==";
    let req = format!(
        "GET /ws HTTP/1.1\r\nHost: localhost\r\nUpgrade: websocket\r\n\
         Connection: Upgrade\r\nSec-WebSocket-Key: {}\r\nSec-WebSocket-Version: 13\r\n\r\n",
        key
    );
    let wire = tls.to_server(req.as_bytes());
    let p = parse_request(&wire).expect("parse the WS upgrade over TLS");
    let response = ws_upgrade(&p.request.headers);
    assert!(response.is_some(), "the server completes the WS upgrade over TLS");
    let payload = b"over-tls";
    let mask = [0x11u8, 0x22, 0x33, 0x44];
    let mut frame = vec![0x81u8, 0x80 | payload.len() as u8];
    frame.extend_from_slice(&mask);
    for (i, b) in payload.iter().enumerate() {
        frame.push(b ^ mask[i % 4]);
    }
    match decode_frame(&tls.to_server(&frame), 1 << 20) {
        Decoded::Whole { opcode, payload, .. } => {
            assert_eq!(opcode, OP_TEXT);
            assert_eq!(String::from_utf8_lossy(&payload), "over-tls");
        }
        _ => panic!("a WS frame arrives over TLS"),
    }
}

#[test]
fn a_client_trusts_only_its_roots() {
    let (cert, key) = fixture();
    let (other, _) = fixture();
    assert!(Pair::new(&cert, &key, Some(cert.as_bytes())).settle());
    assert!(!Pair::new(&cert, &key, Some(other.as_bytes())).settle());
    assert!(!Pair::new(&cert, &key, None).settle());
}
