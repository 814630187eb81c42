//! The TLS session of a connection, as far as its bytes are in memory: ciphertext
//! goes in, is processed record by record, and the plaintext comes out.
use rustls::server::ServerConnection;
use vstd::prelude::*;

verus! {

/// `rustls::server::ServerConnection`, the server's end of a TLS session.
#[verifier::external_type_specification]
#[verifier::external_body]
pub struct ExServerConnection(rustls::server::ServerConnection);

/// `rustls::Error`, carried through without looking inside.
#[verifier::external_type_specification]
#[verifier::external_body]
pub struct ExTlsError(rustls::Error);

/// `std::io::Error`, carried through without looking inside.
#[verifier::external_type_specification]
#[verifier::external_body]
pub struct ExIoError(std::io::Error);

/// A TLS session as contracts see it.
pub struct TlsSession {
    /// Ciphertext that it was fed so far.
    pub fed: Seq<u8>,
    /// Plaintext that is decrypted and not read yet.
    pub held: Seq<u8>,
    /// The peer has closed its side.
    pub closed: bool,
    /// The peer's stream has ended without that.
    pub cut_short: bool,
    /// A record was not valid; the session takes no more.
    pub broken: bool,
}

/// What a session was fed, what it holds, and how it stands.
pub uninterp spec fn session_of(tls: ServerConnection) -> TlsSession;

/// `ServerConnection::read_tls` from bytes in memory: takes in some of them from the
/// front and says how many. It takes none exactly where the peer has closed its side.
/// It may refuse, and then takes none, where its buffers are full; a session that holds
/// no plaintext and is closed does not.
#[verifier::external_body]
pub(crate) fn feed(tls: &mut ServerConnection, bytes: &[u8]) -> (r: Result<usize, std::io::Error>)
    requires
        bytes@.len() > 0,
    ensures
        match r {
            Ok(n) => {
                &&& n <= bytes@.len()
                &&& n == 0 <==> session_of(*old(tls)).closed
                &&& session_of(*final(tls)) == (TlsSession {
                    fed: session_of(*old(tls)).fed + bytes@.take(n as int),
                    ..session_of(*old(tls))
                })
            },
            Err(_) => {
                &&& session_of(*final(tls)) == session_of(*old(tls))
                &&& !(session_of(*old(tls)).closed && session_of(*old(tls)).held.len() == 0)
            },
        },
{
    let mut rest: &[u8] = bytes;
    tls.read_tls(&mut rest)
}

/// `ServerConnection::process_new_packets`: decrypts every whole record that was fed.
/// Plaintext is only added, behind what is held. It fails exactly where the session is
/// broken afterwards, and a broken session stays as it is. Which records are valid, and
/// what they hold, is left to the session.
#[verifier::external_body]
pub(crate) fn process(tls: &mut ServerConnection) -> (r: Result<(), rustls::Error>)
    ensures
        r is Err <==> session_of(*final(tls)).broken,
        session_of(*final(tls)).fed == session_of(*old(tls)).fed,
        session_of(*final(tls)).cut_short == session_of(*old(tls)).cut_short,
        session_of(*old(tls)).held.is_prefix_of(session_of(*final(tls)).held),
        session_of(*old(tls)).closed ==> session_of(*final(tls)).closed,
        session_of(*old(tls)).broken ==> session_of(*final(tls)) == session_of(*old(tls)),
{
    tls.process_new_packets().map(|_| ())
}

/// Why a session gives out no plaintext.
#[derive(Debug)]
pub enum PullError {
    /// There is none yet.
    Blocked,
    /// There will be none, though the peer has not closed its side.
    Failed(std::io::Error),
}

/// `Reader::read` on `ServerConnection::reader`: takes out held plaintext from the
/// front, as much as fits in `room`. Where nothing is held it gives nothing if the peer
/// has closed its side, fails if the stream was cut short, and would block otherwise.
#[verifier::external_body]
pub(crate) fn pull(tls: &mut ServerConnection, room: usize) -> (r: Result<Vec<u8>, PullError>)
    requires
        room > 0,
    ensures
        ({
            let s = session_of(*old(tls));
            let n = if s.held.len() <= room {
                s.held.len() as int
            } else {
                room as int
            };
            &&& session_of(*final(tls)) == (TlsSession { held: s.held.skip(n), ..s })
            &&& match r {
                Ok(bytes) => bytes@ == s.held.take(n) && (n > 0 || s.closed),
                Err(PullError::Blocked) => n == 0 && !s.closed && !s.cut_short,
                Err(PullError::Failed(_)) => n == 0 && !s.closed && s.cut_short,
            }
        }),
{
    let mut chunk: Vec<u8> = vec![0u8; room];
    match std::io::Read::read(&mut tls.reader(), chunk.as_mut_slice()) {
        Ok(n) => {
            chunk.truncate(n);
            Ok(chunk)
        },
        Err(e) => match e.kind() {
            std::io::ErrorKind::WouldBlock => Err(PullError::Blocked),
            _ => Err(PullError::Failed(e)),
        },
    }
}

} // verus!
