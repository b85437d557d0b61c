//! The client of a tunnel: what it sends, what it takes, and when it gives the
//! server up.
use crate::crypto;
use crate::names;
use crate::tunnel;
use crate::tunnel::{Transport, TransportView, TunnelError, CLOSE, IP, PING, SERVER_IP};
use crate::tunnel_server::Stats;
use crate::wire;
use vstd::prelude::*;

verus! {

/// A server that was silent for longer is given up.
pub const SERVER_SILENCE_MS: u64 = 10_000;

/// Longest run that can be asked for. Zero is a run without end.
pub const MAX_DURATION_S: u64 = 86_400;

#[derive(Clone, Copy, Debug, PartialEq, Eq, Structural)]
pub enum ClientError {
    Duration,
    Silent,
    Tunnel(TunnelError),
}

impl ClientError {
    pub open spec fn text(self) -> Seq<char> {
        match self {
            ClientError::Duration => "duration must be 0 (unlimited) to 86400 seconds"@,
            ClientError::Silent => "relay stopped responding"@,
            ClientError::Tunnel(error) => error.text(),
        }
    }

    pub fn message(self) -> (r: &'static str)
        ensures
            r@ == self.text(),
    {
        match self {
            ClientError::Duration => "duration must be 0 (unlimited) to 86400 seconds",
            ClientError::Silent => "relay stopped responding",
            ClientError::Tunnel(error) => error.message(),
        }
    }
}

/// Whether a run may be so long.
pub fn check_duration(seconds: u64) -> (r: Result<(), ClientError>)
    ensures
        r == if seconds <= MAX_DURATION_S {
            Ok(())
        } else {
            Err(ClientError::Duration)
        },
{
    if seconds <= MAX_DURATION_S {
        Ok(())
    } else {
        Err(ClientError::Duration)
    }
}

pub struct TunnelClient {
    pub transport: Transport,
    pub assigned: [u8; 4],
    pub internet: bool,
    pub stats: Stats,
    pub last_response: u64,
}

#[verifier::ext_equal]
pub struct TunnelClientView {
    pub transport: TransportView,
    pub assigned: [u8; 4],
    pub internet: bool,
    pub stats: Stats,
    pub last_response: u64,
}

impl View for TunnelClient {
    type V = TunnelClientView;

    open spec fn view(&self) -> TunnelClientView {
        TunnelClientView {
            transport: self.transport@,
            assigned: self.assigned,
            internet: self.internet,
            stats: self.stats,
            last_response: self.last_response,
        }
    }
}

impl TunnelClientView {
    pub open spec fn only(self) -> Option<[u8; 4]> {
        if self.internet {
            None
        } else {
            Some(SERVER_IP)
        }
    }

    /// What a datagram leads to: a packet for the system, or nothing. Every
    /// authentic one shows that the server is there.
    pub open spec fn received(self, packet: Seq<u8>, now: u64) -> (
        TunnelClientView,
        Option<Seq<u8>>,
    ) {
        match self.transport.opened(packet) {
            Err(_) => (
                TunnelClientView { stats: self.stats.with_rejected(), ..self },
                None,
            ),
            Ok((kind, payload)) => {
                let heard: TunnelClientView = TunnelClientView {
                    transport: self.transport.after_open(packet),
                    last_response: now,
                    ..self
                };
                if kind != IP {
                    (heard, None)
                } else if tunnel::ipv4_fault(payload, self.only(), Some(self.assigned)) is Some {
                    (TunnelClientView { stats: self.stats.with_rejected(), ..heard }, None)
                } else {
                    (
                        TunnelClientView {
                            stats: self.stats.with_received(payload.len() as u64),
                            ..heard
                        },
                        Some(payload),
                    )
                }
            },
        }
    }

    pub open spec fn sealing(self, kind: u8, payload: Seq<u8>) -> TunnelClientView {
        TunnelClientView { transport: self.transport.after_seal(kind, payload), ..self }
    }
}

impl TunnelClient {
    pub open spec fn wf(&self) -> bool {
        self.transport.wf()
    }

    pub fn new(transport: Transport, assigned: [u8; 4], internet: bool, now: u64) -> (r: Self)
        requires
            transport.wf(),
        ensures
            r.wf(),
            r@ == (TunnelClientView {
                transport: transport@,
                assigned,
                internet,
                stats: Stats::zero(),
                last_response: now,
            }),
    {
        TunnelClient { transport, assigned, internet, stats: Stats::new(), last_response: now }
    }

    /// The message that keeps the session alive, once a second, unless the
    /// server was silent for too long.
    pub fn keepalive(&mut self, now: u64) -> (r: Result<Vec<u8>, ClientError>)
        requires
            old(self).wf(),
        ensures
            final(self).wf(),
            ({
                let silent: bool = now.saturating_sub(old(self)@.last_response)
                    > SERVER_SILENCE_MS;
                &&& final(self)@ == if silent {
                    old(self)@
                } else {
                    old(self)@.sealing(PING, seq![])
                }
                &&& match r {
                    Ok(message) => !silent && old(self)@.transport.sealed(PING, seq![]) == Ok::<
                        Seq<u8>,
                        TunnelError,
                    >(message@),
                    Err(ClientError::Silent) => silent,
                    Err(ClientError::Tunnel(error)) => !silent && old(self)@.transport.sealed(
                        PING,
                        seq![],
                    ) == Err::<Seq<u8>, TunnelError>(error),
                    Err(_) => false,
                }
            }),
    {
        if now.saturating_sub(self.last_response) > SERVER_SILENCE_MS {
            return Err(ClientError::Silent);
        }
        let empty: Vec<u8> = Vec::new();
        assert(empty@ =~= seq![]);
        match self.transport.seal(PING, empty.as_slice()) {
            Ok(message) => Ok(message),
            Err(error) => Err(ClientError::Tunnel(error)),
        }
    }

    /// Takes a datagram. Returns the packet to hand to the system, if any.
    pub fn receive(&mut self, packet: &[u8], now: u64) -> (r: Option<Vec<u8>>)
        requires
            old(self).wf(),
        ensures
            final(self).wf(),
            final(self)@ == old(self)@.received(packet@, now).0,
            match (r, old(self)@.received(packet@, now).1) {
                (Some(payload), Some(want)) => payload@ == want,
                (None, None) => true,
                _ => false,
            },
    {
        let (kind, payload) = match self.transport.open(packet) {
            Ok(opened) => opened,
            Err(_error) => {
                self.stats.rejected();
                return None;
            },
        };
        self.last_response = now;
        if kind != IP {
            return None;
        }
        let only: Option<[u8; 4]> = if self.internet {
            None
        } else {
            Some(SERVER_IP)
        };
        match tunnel::validate_ipv4(payload.as_slice(), only, Some(self.assigned)) {
            Ok(()) => {
                self.stats.received(payload.len() as u64);
                Some(payload)
            },
            Err(_error) => {
                self.stats.rejected();
                None
            },
        }
    }

    /// Takes a packet of the system. Returns the message that carries it; a
    /// packet that is not the client's own is left.
    pub fn forward(&mut self, packet: &[u8]) -> (r: Result<Option<Vec<u8>>, TunnelError>)
        requires
            old(self).wf(),
        ensures
            final(self).wf(),
            ({
                let ours: bool = tunnel::ipv4_fault(
                    packet@,
                    Some(old(self)@.assigned),
                    old(self)@.only(),
                ) is None;
                &&& final(self)@ == if ours {
                    old(self)@.sealing(IP, packet@)
                } else {
                    old(self)@
                }
                &&& match r {
                    Ok(Some(message)) => ours && old(self)@.transport.sealed(IP, packet@) == Ok::<
                        Seq<u8>,
                        TunnelError,
                    >(message@),
                    Ok(None) => !ours,
                    Err(error) => ours && old(self)@.transport.sealed(IP, packet@) == Err::<
                        Seq<u8>,
                        TunnelError,
                    >(error),
                }
            }),
    {
        let only: Option<[u8; 4]> = if self.internet {
            None
        } else {
            Some(SERVER_IP)
        };
        match tunnel::validate_ipv4(packet, Some(self.assigned), only) {
            Ok(()) => {},
            Err(_error) => {
                return Ok(None);
            },
        }
        match self.transport.seal(IP, packet) {
            Ok(message) => Ok(Some(message)),
            Err(error) => Err(error),
        }
    }

    /// The message that ends the session.
    pub fn goodbye(&mut self) -> (r: Result<Vec<u8>, TunnelError>)
        requires
            old(self).wf(),
        ensures
            final(self).wf(),
            final(self)@ == old(self)@.sealing(CLOSE, seq![]),
            match r {
                Ok(message) => old(self)@.transport.sealed(CLOSE, seq![]) == Ok::<
                    Seq<u8>,
                    TunnelError,
                >(message@),
                Err(error) => old(self)@.transport.sealed(CLOSE, seq![]) == Err::<
                    Seq<u8>,
                    TunnelError,
                >(error),
            },
    {
        let empty: Vec<u8> = Vec::new();
        assert(empty@ =~= seq![]);
        self.transport.seal(CLOSE, empty.as_slice())
    }
}

/// Longest file that the self test uploads.
pub const MAX_UPLOAD: usize = 16_777_216;

#[derive(Clone, Copy, Debug, PartialEq, Eq, Structural)]
pub enum TestFault {
    Health,
    Download,
    UploadSize,
    Upload,
}

impl TestFault {
    pub open spec fn text(self) -> Seq<char> {
        match self {
            TestFault::Health => "unexpected server response"@,
            TestFault::Download => "download checksum mismatch"@,
            TestFault::UploadSize => "upload limit is 16 MiB"@,
            TestFault::Upload => "upload checksum mismatch"@,
        }
    }

    pub fn message(self) -> (r: &'static str)
        ensures
            r@ == self.text(),
    {
        match self {
            TestFault::Health => "unexpected server response",
            TestFault::Download => "download checksum mismatch",
            TestFault::UploadSize => "upload limit is 16 MiB",
            TestFault::Upload => "upload checksum mismatch",
        }
    }
}

/// What the server's health page says.
pub open spec fn health_page() -> Seq<u8> {
    vstd::utf8::encode_utf8("VERZ real TCP over encrypted IP tunnel\n"@)
}

pub fn check_health(page: &[u8]) -> (r: Result<(), TestFault>)
    ensures
        r == if page@ == health_page() {
            Ok(())
        } else {
            Err(TestFault::Health)
        },
{
    if wire::same_bytes(page, "VERZ real TCP over encrypted IP tunnel\n".as_bytes()) {
        Ok(())
    } else {
        Err(TestFault::Health)
    }
}

/// The digest of some content in hexadecimal digits.
pub open spec fn digest_of(content: Seq<u8>) -> Seq<char> {
    crypto::hex_digits(crypto::sha256_of(content))
}

pub fn digest_text(content: &[u8]) -> (r: String)
    ensures
        r@ == digest_of(content@),
{
    let digest: Vec<u8> = crypto::sha256(content);
    crypto::hex_text(digest.as_slice())
}

/// Whether a page says what a digest should be, white space around it aside.
pub fn says_digest(page: &str, digest: &String) -> (r: bool)
    ensures
        r == (names::without_space(page@) == digest@),
{
    names::trim_space(page).to_string() == *digest
}

/// Checks what was downloaded against the digest that the server gives.
pub fn check_download(content: &[u8], page: &str) -> (r: Result<String, TestFault>)
    ensures
        match r {
            Ok(digest) => digest@ == digest_of(content@) && names::without_space(page@) == digest@,
            Err(fault) => fault == TestFault::Download && names::without_space(page@) != digest_of(
                content@,
            ),
        },
{
    let digest: String = digest_text(content);
    if says_digest(page, &digest) {
        Ok(digest)
    } else {
        Err(TestFault::Download)
    }
}

/// Checks that a file may be uploaded, and gives its digest.
pub fn plan_upload(content: &[u8]) -> (r: Result<String, TestFault>)
    ensures
        match r {
            Ok(digest) => content@.len() <= MAX_UPLOAD && digest@ == digest_of(content@),
            Err(fault) => fault == TestFault::UploadSize && content@.len() > MAX_UPLOAD,
        },
{
    if content.len() > MAX_UPLOAD {
        return Err(TestFault::UploadSize);
    }
    Ok(digest_text(content))
}

/// Checks the server's answer to an upload.
pub fn check_upload(digest: &String, page: &str) -> (r: Result<(), TestFault>)
    ensures
        r == if names::without_space(page@) == digest@ {
            Ok(())
        } else {
            Err(TestFault::Upload)
        },
{
    if says_digest(page, digest) {
        Ok(())
    } else {
        Err(TestFault::Upload)
    }
}

} // verus!
