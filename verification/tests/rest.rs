//! The REST side of a connection.
use pylon::transport::rest::{
    drain_tls_records, pull_plaintext, DrainError, Drained, RecordDrain, Replay, RestBuffers,
    RestEvent, RestFlush, RestRead,
};
use rustls::server::ServerConnection;
use rustls::ClientConnection;
use std::io::Write;
use std::sync::Arc;

/// Both ends of a TLS session in memory, with the handshake complete.
fn tls_pair() -> (ServerConnection, ClientConnection) {
    let _ = rustls::crypto::ring::default_provider().install_default();
    let cert = rcgen::generate_simple_self_signed(vec!["localhost".to_string()])
        .expect("generate a self-signed certificate");
    let key = rustls::pki_types::PrivateKeyDer::Pkcs8(cert.key_pair.serialize_der().into());
    let server_config = rustls::ServerConfig::builder()
        .with_no_client_auth()
        .with_single_cert(vec![cert.cert.der().clone()], key)
        .expect("server config");
    let mut roots = rustls::RootCertStore::empty();
    roots.add(cert.cert.der().clone()).expect("trust the certificate");
    let client_config = rustls::ClientConfig::builder()
        .with_root_certificates(roots)
        .with_no_client_auth();
    let name = rustls::pki_types::ServerName::try_from("localhost").expect("server name");
    let mut server = ServerConnection::new(Arc::new(server_config)).expect("server");
    let mut client = ClientConnection::new(Arc::new(client_config), name).expect("client");
    complete_handshake(&mut server, &mut client);
    (server, client)
}

/// Carries the flights of the handshake from one end to the other until it is complete.
fn complete_handshake(server: &mut ServerConnection, client: &mut ClientConnection) {
    let mut wire = Vec::new();
    for _ in 0..20 {
        if !server.is_handshaking() && !client.is_handshaking() {
            return;
        }
        if client.wants_write() {
            client.write_tls(&mut wire).expect("client flight");
            assert!(feed(server, &wire).is_empty(), "no plaintext during handshake");
            wire.clear();
        }
        if server.wants_write() {
            server.write_tls(&mut wire).expect("server flight");
            let mut rest: &[u8] = &wire;
            while !rest.is_empty() {
                client.read_tls(&mut rest).expect("client reads the flight");
                client.process_new_packets().expect("client processes it");
            }
            wire.clear();
        }
    }
    panic!("the handshake did not complete in 20 rounds");
}

/// Puts one record of application data behind what is on the wire.
fn emit_record(client: &mut ClientConnection, wire: &mut Vec<u8>, payload: &[u8]) {
    client.writer().write_all(payload).expect("client takes the plaintext");
    client.write_tls(wire).expect("client emits the record");
}

/// Drains the wire bytes, all of them, and gives the plaintext.
fn feed(server: &mut ServerConnection, wire: &[u8]) -> Vec<u8> {
    let mut b = RestBuffers::new(vec![]);
    let r = drain_tls_records(server, wire, &mut b);
    assert!(matches!(r, Ok(Drained::All)), "drain must not fail: {r:?}");
    all(&mut b)
}

fn all(buffers: &mut RestBuffers) -> Vec<u8> {
    let mut out = vec![];
    while let Some(bytes) = buffers.deliver(1000) {
        out.extend(bytes);
    }
    out
}

#[test]
fn drain_tls_records_yields_every_record_in_a_multi_record_buffer() {
    let (mut server, mut client) = tls_pair();
    let p1: Vec<u8> = (0..4000u32).map(|i| (i % 251) as u8).collect();
    let p2: Vec<u8> = (0..4000u32).map(|i| 0x80 | (i % 128) as u8).collect();
    let mut wire = Vec::new();
    emit_record(&mut client, &mut wire, &p1);
    emit_record(&mut client, &mut wire, &p2);
    assert!(
        wire.len() > 4096,
        "precondition: two records must exceed one read_tls chunk, wire={}B",
        wire.len()
    );
    let plaintext = feed(&mut server, &wire);
    let mut expected = p1.clone();
    expected.extend_from_slice(&p2);
    assert_eq!(
        plaintext,
        expected,
        "both records' plaintext must surface in order (got {} of {} bytes)",
        plaintext.len(),
        expected.len()
    );
}

#[test]
fn drain_tls_records_yields_both_small_pipelined_records() {
    let (mut server, mut client) = tls_pair();
    let p1 = b"GET /apps/tls-app/channels HTTP/1.1\r\nHost: pylon\r\n\r\n";
    let p2 = b"GET /apps/tls-app/channels?filter=prefix HTTP/1.1\r\nHost: pylon\r\n\r\n";
    let mut wire = Vec::new();
    emit_record(&mut client, &mut wire, p1);
    emit_record(&mut client, &mut wire, p2);
    assert!(wire.len() <= 4096, "precondition: small pipelined pair");
    let plaintext = feed(&mut server, &wire);
    assert!(plaintext.starts_with(p1), "first request first");
    assert!(plaintext.ends_with(p2), "second request second");
    assert_eq!(plaintext.len(), p1.len() + p2.len(), "nothing lost");
}

#[test]
fn drain_tls_records_partial_tail_completes_on_next_feed() {
    let (mut server, mut client) = tls_pair();
    let p1 = b"first complete record";
    let p2: Vec<u8> = (0..2000u32).map(|i| (i % 199) as u8).collect();
    let mut wire = Vec::new();
    emit_record(&mut client, &mut wire, p1);
    let rec1_len = wire.len();
    emit_record(&mut client, &mut wire, &p2);
    let split = rec1_len + 30;
    assert_eq!(
        feed(&mut server, &wire[..split]),
        p1,
        "only the complete record surfaces"
    );
    assert_eq!(
        feed(&mut server, &wire[split..]),
        p2,
        "the partial record completes from its remainder"
    );
}

#[test]
fn drain_tls_records_empty_buffer_is_noop() {
    let (mut server, _client) = tls_pair();
    let mut b = RestBuffers::new(vec![]);
    b.keep_plaintext(&[1, 2, 3]);
    let r = drain_tls_records(&mut server, &[], &mut b);
    assert!(matches!(r, Ok(Drained::All)), "empty drain");
    assert_eq!(all(&mut b), vec![1, 2, 3]);
}

#[test]
fn records_cut_anywhere_come_out_whole() {
    let (mut server, mut client) = tls_pair();
    let mut wire = Vec::new();
    let mut sent = Vec::new();
    for n in 0..12usize {
        let payload = vec![n as u8; 700 * n + 1];
        emit_record(&mut client, &mut wire, &payload);
        sent.extend_from_slice(&payload);
    }
    let mut b = RestBuffers::new(b"head".to_vec());
    for part in wire.chunks(777) {
        assert!(matches!(
            drain_tls_records(&mut server, part, &mut b),
            Ok(Drained::All)
        ));
    }
    let got = all(&mut b);
    assert!(got.starts_with(b"head"), "what was waiting comes first");
    assert_eq!(&got[4..], &sent[..]);
}

#[test]
fn nothing_after_the_peers_close_counts() {
    let (mut server, mut client) = tls_pair();
    let mut wire = Vec::new();
    emit_record(&mut client, &mut wire, b"last");
    client.send_close_notify();
    client.write_tls(&mut wire).expect("close_notify");
    wire.extend_from_slice(&vec![0xff; 5000]);
    let mut b = RestBuffers::new(vec![]);
    let r = drain_tls_records(&mut server, &wire, &mut b);
    assert!(matches!(r, Ok(Drained::Closed)));
    assert_eq!(all(&mut b), b"last");
    let r = drain_tls_records(&mut server, b"more", &mut b);
    assert!(matches!(r, Ok(Drained::Closed)), "and stays closed");
    assert!(all(&mut b).is_empty());
    assert_eq!(
        pull_plaintext(&mut server, &mut b).expect("closed in order"),
        RestEvent::Zero
    );
}

#[test]
fn an_invalid_record_ends_the_drain() {
    let (mut server, mut client) = tls_pair();
    let mut wire = Vec::new();
    emit_record(&mut client, &mut wire, b"good");
    let good = wire.len();
    emit_record(&mut client, &mut wire, b"bad");
    let last = wire.len() - 1;
    wire[last] ^= 1;
    let mut b = RestBuffers::new(vec![]);
    assert!(matches!(
        drain_tls_records(&mut server, &wire[..good], &mut b),
        Ok(Drained::All)
    ));
    assert!(matches!(
        drain_tls_records(&mut server, &wire[good..], &mut b),
        Err(DrainError::Invalid(_))
    ));
    assert_eq!(all(&mut b), b"good");
    assert_eq!(
        RecordDrain::Process.step(RestEvent::Failed, true, &[], &mut b),
        RecordDrain::Invalid
    );
    assert_eq!(
        RecordDrain::Ingest.step(RestEvent::Failed, true, &[], &mut b),
        RecordDrain::Failed
    );
}

#[test]
fn a_stream_that_is_cut_short_fails_the_drain() {
    let (mut server, mut client) = tls_pair();
    let mut nothing: &[u8] = &[];
    assert_eq!(server.read_tls(&mut nothing).expect("end of stream"), 0);
    let mut wire = Vec::new();
    emit_record(&mut client, &mut wire, b"late");
    let mut b = RestBuffers::new(vec![]);
    assert!(matches!(
        drain_tls_records(&mut server, &wire, &mut b),
        Err(DrainError::Pull(_))
    ));
    assert_eq!(all(&mut b), b"late", "what was decrypted is kept");
    assert!(pull_plaintext(&mut server, &mut b).is_err());
}

#[test]
fn a_session_that_is_full_refuses_more() {
    let (mut server, mut client) = tls_pair();
    let mut wire = Vec::new();
    for _ in 0..3 {
        emit_record(&mut client, &mut wire, &vec![7; 8000]);
    }
    let mut rest: &[u8] = &wire;
    while !rest.is_empty() {
        server.read_tls(&mut rest).expect("takes the ciphertext");
        server.process_new_packets().expect("processes it");
    }
    let mut more = Vec::new();
    emit_record(&mut client, &mut more, b"more");
    let mut b = RestBuffers::new(vec![]);
    assert!(matches!(
        drain_tls_records(&mut server, &more, &mut b),
        Err(DrainError::Feed(_))
    ));
    // Nothing was lost: the held plaintext comes out, a part at a time, and then the
    // ciphertext is taken.
    let mut pulls = 0;
    while pull_plaintext(&mut server, &mut b).expect("held plaintext") == RestEvent::Ready {
        pulls += 1;
    }
    assert_eq!(pulls, 2, "16384 bytes, then the rest");
    assert_eq!(all(&mut b), vec![7; 24_000]);
    assert!(matches!(
        drain_tls_records(&mut server, &more, &mut b),
        Ok(Drained::All)
    ));
    assert_eq!(all(&mut b), b"more");
}

#[test]
fn what_the_worker_read_comes_first() {
    let mut b = RestBuffers::new(b"head".to_vec());
    b.keep_plaintext(b"body");
    assert_eq!(b.deliver(3), Some(b"hea".to_vec()));
    assert_eq!(b.deliver(100), Some(b"d".to_vec()));
    assert_eq!(b.deliver(100), Some(b"body".to_vec()));
    assert_eq!(b.deliver(100), None);
}

#[test]
fn a_replay_hands_out_each_byte_once() {
    let mut r = Replay::new(b"abcdef".to_vec());
    assert_eq!(r.take(2), b"ab".to_vec());
    r.advance(1);
    r.push(b"gh");
    assert_eq!(r.pending(), b"defgh");
    assert_eq!(r.take(100), b"defgh".to_vec());
    assert!(r.is_empty());
}

#[test]
fn a_flush_goes_on_until_the_session_has_nothing_left() {
    let mut b = RestBuffers::new(vec![]);
    assert_eq!(b.begin_flush(false), RestFlush::Done);
    assert_eq!(b.begin_flush(true), RestFlush::PullCiphertext);
    assert_eq!(b.on_ciphertext(RestEvent::Ready, b"12345"), RestFlush::AwaitWritable);
    assert_eq!(b.on_writable(RestEvent::Pending), RestFlush::Pending);
    assert_eq!(b.on_writable(RestEvent::Ready), RestFlush::WriteSocket);
    // A short write keeps the rest.
    assert_eq!(b.on_written(RestEvent::Ready, 2, false), RestFlush::AwaitWritable);
    assert_eq!(b.out.pending(), b"345");
    assert_eq!(b.on_written(RestEvent::Zero, 0, false), RestFlush::WriteZero);
    assert_eq!(b.on_written(RestEvent::Ready, 3, true), RestFlush::PullCiphertext);
    assert_eq!(b.on_ciphertext(RestEvent::Zero, &[]), RestFlush::Done);
}

#[test]
fn a_read_that_finds_nothing_registers_for_the_next() {
    let s = RestRead::PullHeld.step(RestEvent::WouldBlock, false);
    assert_eq!(s, RestRead::AwaitReadable);
    assert_eq!(s.step(RestEvent::Pending, false), RestRead::Pending);
    let s = s.step(RestEvent::Ready, false);
    assert_eq!(s, RestRead::ReadSocket);
    let s = s.step(RestEvent::Ready, false);
    assert_eq!(s, RestRead::Decrypt);
}
