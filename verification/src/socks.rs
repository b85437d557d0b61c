//! Connections of local programs: what SOCKS asks for, and on which routes a
//! connection is tried.
use crate::names;
use crate::wire;
use vstd::prelude::*;
use vstd::string::*;

verus! {

#[derive(Clone, Copy, Debug, PartialEq, Eq, Structural)]
pub enum SocksError {
    Greeting,
    Authentication,
    Command,
    EmptyHost,
    Encoding,
    Ipv6,
    AddressType,
}

impl SocksError {
    pub open spec fn text(self) -> Seq<char> {
        match self {
            SocksError::Greeting => "invalid SOCKS5 greeting"@,
            SocksError::Authentication => "SOCKS client does not support no-auth mode"@,
            SocksError::Command => "only SOCKS5 CONNECT is supported"@,
            SocksError::EmptyHost => "empty SOCKS destination"@,
            SocksError::Encoding => "SOCKS destination is not UTF-8"@,
            SocksError::Ipv6 => "Direct Smart IPv6 support is not enabled yet"@,
            SocksError::AddressType => "invalid SOCKS address type"@,
        }
    }

    pub fn message(self) -> (r: &'static str)
        ensures
            r@ == self.text(),
    {
        match self {
            SocksError::Greeting => "invalid SOCKS5 greeting",
            SocksError::Authentication => "SOCKS client does not support no-auth mode",
            SocksError::Command => "only SOCKS5 CONNECT is supported",
            SocksError::EmptyHost => "empty SOCKS destination",
            SocksError::Encoding => "SOCKS destination is not UTF-8",
            SocksError::Ipv6 => "Direct Smart IPv6 support is not enabled yet",
            SocksError::AddressType => "invalid SOCKS address type",
        }
    }
}

/// What the client sends next.
#[derive(Clone, Copy, Debug, PartialEq, Eq, Structural)]
pub enum Turn {
    Greeting,
    Methods(u8),
    Request,
    Ipv4,
    Length,
    Name(u8),
    Port,
    Ended,
}

#[derive(Clone, Copy, Debug, PartialEq, Eq, Structural)]
pub enum Outcome {
    Continue,
    /// The client asks for the host that was read, and this port.
    Target(u16),
    Refused(SocksError),
}

/// A negotiation.
pub struct Socks {
    pub turn: Turn,
    pub host: String,
}

#[verifier::ext_equal]
pub struct SocksView {
    pub turn: Turn,
    pub host: Seq<char>,
}

/// A step of the negotiation: where it goes, what is sent to the client, and
/// what came of it.
#[verifier::ext_equal]
pub struct Step {
    pub next: SocksView,
    pub reply: Seq<u8>,
    pub outcome: Outcome,
}

impl View for Socks {
    type V = SocksView;

    open spec fn view(&self) -> SocksView {
        SocksView { turn: self.turn, host: self.host@ }
    }
}

/// The digits of a number.
pub open spec fn decimal(n: nat) -> Seq<char>
    decreases n,
{
    let last: char = ('0' as nat + n % 10) as char;
    if n < 10 {
        seq![last]
    } else {
        decimal(n / 10).push(last)
    }
}

/// An address in dotted form.
pub open spec fn dotted(ip: Seq<u8>) -> Seq<char> {
    decimal(ip[0] as nat).push('.') + decimal(ip[1] as nat).push('.') + decimal(
        ip[2] as nat,
    ).push('.') + decimal(ip[3] as nat)
}

impl SocksView {
    pub open spec fn start() -> SocksView {
        SocksView { turn: Turn::Greeting, host: seq![] }
    }

    pub open spec fn wants(self) -> nat {
        match self.turn {
            Turn::Greeting => 2,
            Turn::Methods(n) => n as nat,
            Turn::Request => 4,
            Turn::Ipv4 => 4,
            Turn::Length => 1,
            Turn::Name(n) => n as nat,
            Turn::Port => 2,
            Turn::Ended => 0,
        }
    }

    pub open spec fn goes(self, turn: Turn) -> Step {
        Step { next: SocksView { turn, ..self }, reply: seq![], outcome: Outcome::Continue }
    }

    pub open spec fn refuses(self, reply: Seq<u8>, error: SocksError) -> Step {
        Step {
            next: SocksView { turn: Turn::Ended, ..self },
            reply,
            outcome: Outcome::Refused(error),
        }
    }

    pub open spec fn reads_host(self, host: Seq<char>) -> Step {
        Step {
            next: SocksView { turn: Turn::Port, host },
            reply: seq![],
            outcome: Outcome::Continue,
        }
    }

    /// The step that bytes lead to.
    pub open spec fn fed(self, bytes: Seq<u8>) -> Step {
        match self.turn {
            Turn::Greeting => if bytes[0] == 5 && bytes[1] > 0 {
                self.goes(Turn::Methods(bytes[1]))
            } else {
                self.refuses(seq![], SocksError::Greeting)
            },
            Turn::Methods(_) => if bytes.contains(0) {
                Step { reply: seq![5u8, 0], ..self.goes(Turn::Request) }
            } else {
                self.refuses(seq![5u8, 0xff], SocksError::Authentication)
            },
            Turn::Request => if !(bytes[0] == 5 && bytes[1] == 1 && bytes[2] == 0) {
                self.refuses(seq![], SocksError::Command)
            } else if bytes[3] == 1 {
                self.goes(Turn::Ipv4)
            } else if bytes[3] == 3 {
                self.goes(Turn::Length)
            } else if bytes[3] == 4 {
                self.refuses(seq![5u8, 8, 0, 1, 0, 0, 0, 0, 0, 0], SocksError::Ipv6)
            } else {
                self.refuses(seq![], SocksError::AddressType)
            },
            Turn::Ipv4 => self.reads_host(dotted(bytes)),
            Turn::Length => if bytes[0] > 0 {
                self.goes(Turn::Name(bytes[0]))
            } else {
                self.refuses(seq![], SocksError::EmptyHost)
            },
            Turn::Name(_) => if vstd::utf8::valid_utf8(bytes) {
                self.reads_host(vstd::utf8::decode_utf8(bytes))
            } else {
                self.refuses(seq![], SocksError::Encoding)
            },
            Turn::Port => Step {
                next: SocksView { turn: Turn::Ended, ..self },
                reply: seq![],
                outcome: Outcome::Target(wire::be_value(bytes) as u16),
            },
            Turn::Ended => self.goes(Turn::Ended),
        }
    }

    pub open spec fn rank(self) -> nat {
        match self.turn {
            Turn::Greeting => 6,
            Turn::Methods(_) => 5,
            Turn::Request => 4,
            Turn::Length => 3,
            Turn::Ipv4 => 2,
            Turn::Name(_) => 2,
            Turn::Port => 1,
            Turn::Ended => 0,
        }
    }

    /// What comes of all that a client sends: the replies together, and how it
    /// ends.
    pub open spec fn run(self, input: Seq<u8>) -> Step
        decreases self.rank(),
    {
        if self.turn == Turn::Ended || input.len() < self.wants() {
            Step { next: self, reply: seq![], outcome: Outcome::Continue }
        } else {
            let step: Step = self.fed(input.take(self.wants() as int));
            if step.next.turn == Turn::Ended {
                step
            } else {
                let rest: Step = step.next.run(input.skip(self.wants() as int));
                Step { reply: step.reply + rest.reply, ..rest }
            }
        }
    }
}

/// `String::from_utf8`: the text that bytes encode, if they do.
#[verifier::external_body]
fn text_from(bytes: Vec<u8>) -> (r: Option<String>)
    ensures
        match r {
            Some(text) => vstd::utf8::valid_utf8(bytes@) && text@ == vstd::utf8::decode_utf8(
                bytes@,
            ),
            None => !vstd::utf8::valid_utf8(bytes@),
        },
{
    String::from_utf8(bytes).ok()
}

pub(crate) fn digit(n: u8) -> (r: &'static str)
    requires
        n < 10,
    ensures
        r@ == seq![('0' as nat + n as nat) as char],
{
    let text: &'static str = match n {
        0 => "0",
        1 => "1",
        2 => "2",
        3 => "3",
        4 => "4",
        5 => "5",
        6 => "6",
        7 => "7",
        8 => "8",
        _ => "9",
    };
    proof {
        reveal_strlit("0");
        reveal_strlit("1");
        reveal_strlit("2");
        reveal_strlit("3");
        reveal_strlit("4");
        reveal_strlit("5");
        reveal_strlit("6");
        reveal_strlit("7");
        reveal_strlit("8");
        reveal_strlit("9");
        assert(text@ =~= seq![('0' as nat + n as nat) as char]);
    }
    text
}

pub(crate) fn append_octet(out: &mut String, n: u8)
    ensures
        final(out)@ == old(out)@ + decimal(n as nat),
{
    proof {
        reveal_with_fuel(decimal, 3);
    }
    if n >= 100 {
        out.append(digit(n / 100));
    }
    if n >= 10 {
        out.append(digit(n / 10 % 10));
    }
    out.append(digit(n % 10));
    assert(out@ =~= old(out)@ + decimal(n as nat)) by {
        if n >= 100 {
            assert(decimal(n as nat) =~= seq![('0' as nat + (n / 100) as nat) as char].push(
                ('0' as nat + (n / 10 % 10) as nat) as char,
            ).push(('0' as nat + (n % 10) as nat) as char));
        } else if n >= 10 {
            assert(decimal(n as nat) =~= seq![('0' as nat + (n / 10) as nat) as char].push(
                ('0' as nat + (n % 10) as nat) as char,
            ));
        }
    }
}

/// Writes an address in dotted form.
pub fn dotted_text(ip: &[u8; 4]) -> (r: String)
    ensures
        r@ == dotted(ip@),
{
    proof {
        reveal_strlit(".");
    }
    let mut out: String = String::new();
    append_octet(&mut out, ip[0]);
    out.append(".");
    append_octet(&mut out, ip[1]);
    out.append(".");
    append_octet(&mut out, ip[2]);
    out.append(".");
    append_octet(&mut out, ip[3]);
    assert("."@ =~= seq!['.']);
    assert(out@ =~= dotted(ip@));
    out
}

pub proof fn lemma_decimal(n: nat)
    requires
        n <= 255,
    ensures
        names::spec_octet(decimal(n)) == Some(n as u8),
        forall|i: int| 0 <= i < decimal(n).len() ==> #[trigger] decimal(n)[i] != '.',
{
    reveal_with_fuel(decimal, 3);
    reveal_with_fuel(names::digits_value, 4);
    let s: Seq<char> = decimal(n);
    if n < 10 {
        assert(s.drop_last() =~= Seq::<char>::empty());
    } else if n < 100 {
        assert(s.len() == 2);
        assert(s.drop_last() =~= decimal(n / 10));
        assert(decimal(n / 10).drop_last() =~= Seq::<char>::empty());
        assert(names::digits_value(s) == n);
    } else {
        assert(s.len() == 3);
        assert(s.drop_last() =~= decimal(n / 10));
        assert(decimal(n / 10).drop_last() =~= decimal(n / 10 / 10));
        assert(decimal(n / 10 / 10).drop_last() =~= Seq::<char>::empty());
        assert(names::digits_value(decimal(n / 10 / 10)) == n / 100);
        assert(names::digits_value(decimal(n / 10)) == n / 10);
        assert(names::digits_value(s) == n);
    }
}

/// The place of the next dot is where a stretch without dots ends.
proof fn lemma_next_dot(s: Seq<char>, from: int, to: int)
    requires
        0 <= from <= to < s.len(),
        s[to] == '.',
        forall|i: int| from <= i < to ==> #[trigger] s[i] != '.',
    ensures
        names::place_of(s, '.', from) == to,
    decreases to - from,
{
    if from < to {
        lemma_next_dot(s, from + 1, to);
    }
}

/// An address that is written is read as itself, so that it needs no lookup.
pub proof fn written_address_is_read(ip: Seq<u8>)
    requires
        ip.len() == 4,
    ensures
        names::spec_parse_ipv4(dotted(ip)) == Some(ip),
{
    let s: Seq<char> = dotted(ip);
    let a: Seq<char> = decimal(ip[0] as nat);
    let b: Seq<char> = decimal(ip[1] as nat);
    let c: Seq<char> = decimal(ip[2] as nat);
    let d: Seq<char> = decimal(ip[3] as nat);
    lemma_decimal(ip[0] as nat);
    lemma_decimal(ip[1] as nat);
    lemma_decimal(ip[2] as nat);
    lemma_decimal(ip[3] as nat);
    let p: int = a.len() as int;
    let q: int = p + 1 + b.len();
    let r: int = q + 1 + c.len();
    assert(s.subrange(0, p) =~= a);
    assert(s.subrange(p + 1, q) =~= b);
    assert(s.subrange(q + 1, r) =~= c);
    assert(s.subrange(r + 1, s.len() as int) =~= d);
    assert forall|i: int| 0 <= i < p implies #[trigger] s[i] != '.' by {
        assert(s[i] == a[i]);
    }
    assert forall|i: int| p + 1 <= i < q implies #[trigger] s[i] != '.' by {
        assert(s[i] == b[i - p - 1]);
    }
    assert forall|i: int| q + 1 <= i < r implies #[trigger] s[i] != '.' by {
        assert(s[i] == c[i - q - 1]);
    }
    lemma_next_dot(s, 0, p);
    lemma_next_dot(s, p + 1, q);
    lemma_next_dot(s, q + 1, r);
    assert(seq![ip[0], ip[1], ip[2], ip[3]] =~= ip);
}

fn holds_zero(bytes: &[u8]) -> (r: bool)
    ensures
        r == bytes@.contains(0),
{
    let mut i: usize = 0;
    while i < bytes.len()
        invariant
            i <= bytes@.len(),
            forall|j: int| 0 <= j < i ==> #[trigger] bytes@[j] != 0,
        decreases bytes@.len() - i,
    {
        if bytes[i] == 0 {
            assert(bytes@[i as int] == 0);
            return true;
        }
        i = i + 1;
    }
    false
}

fn nothing() -> (r: Vec<u8>)
    ensures
        r@ == Seq::<u8>::empty(),
{
    Vec::new()
}

impl Socks {
    pub fn new() -> (r: Self)
        ensures
            r@ == SocksView::start(),
    {
        let r: Socks = Socks { turn: Turn::Greeting, host: String::new() };
        assert(r@ =~= SocksView::start());
        r
    }

    /// How many bytes to read from the client next.
    pub fn needed(&self) -> (r: usize)
        ensures
            r == self@.wants(),
    {
        match self.turn {
            Turn::Greeting => 2,
            Turn::Methods(n) => n as usize,
            Turn::Request => 4,
            Turn::Ipv4 => 4,
            Turn::Length => 1,
            Turn::Name(n) => n as usize,
            Turn::Port => 2,
            Turn::Ended => 0,
        }
    }

    /// Takes the bytes that were asked for. Returns what to send to the
    /// client, and what came of it.
    pub fn feed(&mut self, bytes: &[u8]) -> (r: (Vec<u8>, Outcome))
        requires
            bytes@.len() == old(self)@.wants(),
        ensures
            final(self)@ == old(self)@.fed(bytes@).next,
            r.0@ == old(self)@.fed(bytes@).reply,
            r.1 == old(self)@.fed(bytes@).outcome,
    {
        match self.turn {
            Turn::Greeting => {
                if bytes[0] == 5 && bytes[1] > 0 {
                    self.turn = Turn::Methods(bytes[1]);
                    return (nothing(), Outcome::Continue);
                }
                self.turn = Turn::Ended;
                (nothing(), Outcome::Refused(SocksError::Greeting))
            },
            Turn::Methods(_) => {
                if holds_zero(bytes) {
                    self.turn = Turn::Request;
                    let reply: Vec<u8> = vec![5, 0];
                    assert(reply@ =~= seq![5u8, 0]);
                    return (reply, Outcome::Continue);
                }
                self.turn = Turn::Ended;
                let reply: Vec<u8> = vec![5, 0xff];
                assert(reply@ =~= seq![5u8, 0xff]);
                (reply, Outcome::Refused(SocksError::Authentication))
            },
            Turn::Request => {
                if !(bytes[0] == 5 && bytes[1] == 1 && bytes[2] == 0) {
                    self.turn = Turn::Ended;
                    return (nothing(), Outcome::Refused(SocksError::Command));
                }
                if bytes[3] == 1 {
                    self.turn = Turn::Ipv4;
                    (nothing(), Outcome::Continue)
                } else if bytes[3] == 3 {
                    self.turn = Turn::Length;
                    (nothing(), Outcome::Continue)
                } else if bytes[3] == 4 {
                    self.turn = Turn::Ended;
                    let reply: Vec<u8> = vec![5, 8, 0, 1, 0, 0, 0, 0, 0, 0];
                    assert(reply@ =~= seq![5u8, 8, 0, 1, 0, 0, 0, 0, 0, 0]);
                    (reply, Outcome::Refused(SocksError::Ipv6))
                } else {
                    self.turn = Turn::Ended;
                    (nothing(), Outcome::Refused(SocksError::AddressType))
                }
            },
            Turn::Ipv4 => {
                let ip: [u8; 4] = [bytes[0], bytes[1], bytes[2], bytes[3]];
                assert(ip@ =~= bytes@);
                self.host = dotted_text(&ip);
                self.turn = Turn::Port;
                (nothing(), Outcome::Continue)
            },
            Turn::Length => {
                if bytes[0] > 0 {
                    self.turn = Turn::Name(bytes[0]);
                    return (nothing(), Outcome::Continue);
                }
                self.turn = Turn::Ended;
                (nothing(), Outcome::Refused(SocksError::EmptyHost))
            },
            Turn::Name(_) => {
                match text_from(wire::copy_bytes(bytes)) {
                    Some(host) => {
                        self.host = host;
                        self.turn = Turn::Port;
                        (nothing(), Outcome::Continue)
                    },
                    None => {
                        self.turn = Turn::Ended;
                        (nothing(), Outcome::Refused(SocksError::Encoding))
                    },
                }
            },
            Turn::Port => {
                assert(bytes@.subrange(0, 2) =~= bytes@);
                self.turn = Turn::Ended;
                (nothing(), Outcome::Target(wire::get_be(bytes, 0, 2) as u16))
            },
            Turn::Ended => (nothing(), Outcome::Continue),
        }
    }
}

/// What a client sends to ask for a host by name.
pub open spec fn request_by_name(methods: Seq<u8>, host: Seq<char>, port: u16) -> Seq<u8> {
    let name: Seq<u8> = vstd::utf8::encode_utf8(host);
    seq![5u8, methods.len() as u8] + (methods + (seq![5u8, 1, 0, 3] + (seq![name.len() as u8] + (
    name + wire::be_bytes(port as nat, 2)))))
}

/// What a client sends to ask for an address.
pub open spec fn request_by_address(methods: Seq<u8>, ip: Seq<u8>, port: u16) -> Seq<u8> {
    seq![5u8, methods.len() as u8] + (methods + (seq![5u8, 1, 0, 1] + (ip + wire::be_bytes(
        port as nat,
        2,
    ))))
}

/// A step that is not the last, and what follows it.
proof fn lemma_step(s: SocksView, part: Seq<u8>, rest: Seq<u8>)
    requires
        s.turn != Turn::Ended,
        part.len() == s.wants(),
        s.fed(part).next.turn != Turn::Ended,
    ensures
        s.run(part + rest) == (Step {
            reply: s.fed(part).reply + s.fed(part).next.run(rest).reply,
            ..s.fed(part).next.run(rest)
        }),
{
    assert((part + rest).take(part.len() as int) =~= part);
    assert((part + rest).skip(part.len() as int) =~= rest);
}

proof fn lemma_port_turn(s: SocksView, port: u16)
    requires
        s.turn == Turn::Port,
    ensures
        s.run(wire::be_bytes(port as nat, 2)) == (Step {
            next: SocksView { turn: Turn::Ended, ..s },
            reply: seq![],
            outcome: Outcome::Target(port),
        }),
{
    let bytes: Seq<u8> = wire::be_bytes(port as nat, 2);
    vstd::arithmetic::power2::lemma2_to64();
    wire::lemma_be_bytes_len(port as nat, 2);
    wire::lemma_value_of_bytes(port as nat, 2);
    assert(bytes.take(2) =~= bytes);
}

/// A client that offers to go without authentication, and names a host in up
/// to 255 bytes of UTF-8, gets that host and port read.
pub proof fn named_host_is_read(methods: Seq<u8>, host: Seq<char>, port: u16)
    requires
        1 <= methods.len() <= 255,
        methods.contains(0),
        1 <= vstd::utf8::encode_utf8(host).len() <= 255,
    ensures
        SocksView::start().run(request_by_name(methods, host, port)) == (Step {
            next: SocksView { turn: Turn::Ended, host },
            reply: seq![5u8, 0],
            outcome: Outcome::Target(port),
        }),
{
    let name: Seq<u8> = vstd::utf8::encode_utf8(host);
    let tail: Seq<u8> = wire::be_bytes(port as nat, 2);
    let s0: SocksView = SocksView::start();
    let s1: SocksView = SocksView { turn: Turn::Methods(methods.len() as u8), ..s0 };
    let s2: SocksView = SocksView { turn: Turn::Request, ..s0 };
    let s3: SocksView = SocksView { turn: Turn::Length, ..s0 };
    let s4: SocksView = SocksView { turn: Turn::Name(name.len() as u8), ..s0 };
    let s5: SocksView = SocksView { turn: Turn::Port, host };
    let i4: Seq<u8> = name + tail;
    let i3: Seq<u8> = seq![name.len() as u8] + i4;
    let i2: Seq<u8> = seq![5u8, 1, 0, 3] + i3;
    let end: Step = Step {
        next: SocksView { turn: Turn::Ended, host },
        reply: seq![],
        outcome: Outcome::Target(port),
    };
    assert(s4.run(i4) == end) by {
        vstd::utf8::encode_utf8_valid_utf8(host);
        vstd::utf8::encode_utf8_decode_utf8(host);
        lemma_port_turn(s5, port);
        lemma_step(s4, name, tail);
    }
    lemma_step(s3, seq![name.len() as u8], i4);
    assert(s3.run(i3) == end);
    lemma_step(s2, seq![5u8, 1, 0, 3], i3);
    assert(s2.run(i2) == end);
    lemma_step(s1, methods, i2);
    assert(s1.run(methods + i2).reply =~= seq![5u8, 0]);
    lemma_step(s0, seq![5u8, methods.len() as u8], methods + i2);
}

/// A client that asks for an address gets it read, in dotted form.
pub proof fn address_is_read(methods: Seq<u8>, ip: Seq<u8>, port: u16)
    requires
        1 <= methods.len() <= 255,
        methods.contains(0),
        ip.len() == 4,
    ensures
        SocksView::start().run(request_by_address(methods, ip, port)) == (Step {
            next: SocksView { turn: Turn::Ended, host: dotted(ip) },
            reply: seq![5u8, 0],
            outcome: Outcome::Target(port),
        }),
{
    let tail: Seq<u8> = wire::be_bytes(port as nat, 2);
    let s0: SocksView = SocksView::start();
    let s1: SocksView = SocksView { turn: Turn::Methods(methods.len() as u8), ..s0 };
    let s2: SocksView = SocksView { turn: Turn::Request, ..s0 };
    let s3: SocksView = SocksView { turn: Turn::Ipv4, ..s0 };
    let s4: SocksView = SocksView { turn: Turn::Port, host: dotted(ip) };
    let i3: Seq<u8> = ip + tail;
    let i2: Seq<u8> = seq![5u8, 1, 0, 1] + i3;
    lemma_port_turn(s4, port);
    lemma_step(s3, ip, tail);
    lemma_step(s2, seq![5u8, 1, 0, 1], i3);
    lemma_step(s1, methods, i2);
    assert(s1.run(methods + i2).reply =~= seq![5u8, 0]);
    lemma_step(s0, seq![5u8, methods.len() as u8], methods + i2);
}

} // verus!
