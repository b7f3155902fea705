//! A proxy between a client and a server: towards the client it plays the
//! server's part of the handshake, without authentication, and once both
//! sides run it reads each message from one side and writes it out again for
//! the other. Like the rest of the library it reads and writes nothing
//! itself.

use crate::error::{Error, IoError};
use crate::pixel_format::PixelFormat;
use crate::protocol::{
    parse_rectangles, C2SView, ClientInit, RectangleView, S2CView, SecurityResult, ServerInit,
    ServerInitView, Version, C2S, S2C,
};
use crate::wire::{has_bytes, holds_at, parse_u16, read_u8, u32_bytes, write_u32, write_u8};
use vstd::prelude::*;

verus! {

/// Where the proxy's handshake with a client stands: what it waits for.
#[derive(Clone, Copy, Debug, PartialEq, Eq, Structural)]
pub enum ServerPhase {
    /// The client's version banner.
    AwaitVersion,
    /// The security type that the client picks.
    AwaitSecurityType,
    /// The client's message of initialisation.
    AwaitClientInit,
    /// The session is running.
    Done,
    /// The handshake failed.
    Failed,
}

/// The lower of two versions.
pub open spec fn lower_version(a: Version, b: Version) -> Version {
    if a.minor() <= b.minor() {
        a
    } else {
        b
    }
}

/// What the proxy offers a client once the version is settled: before
/// version 3.7 the one security type that the server has decided on, in four
/// bytes, from then on a list of one. Either way the type is "none".
pub open spec fn security_offer(version: Version) -> Seq<u8> {
    if version is Rfb33 {
        u32_bytes(1)
    } else {
        seq![1u8, 1u8]
    }
}

/// The proxy's handshake with a client, as a value.
pub struct ServerHandshakeView {
    pub phase: ServerPhase,
    pub version: Version,
    pub init: ServerInitView,
}

/// The proxy's handshake with a client.
pub struct ServerHandshake {
    phase: ServerPhase,
    version: Version,
    init: ServerInit,
}

impl View for ServerHandshake {
    type V = ServerHandshakeView;

    closed spec fn view(&self) -> ServerHandshakeView {
        ServerHandshakeView { phase: self.phase, version: self.version, init: self.init@ }
    }
}

/// One step of the proxy's handshake: how many of the bytes handed in were
/// used, and what to send to the client.
#[derive(Debug, PartialEq, Eq)]
pub struct ServerStep {
    pub consumed: usize,
    pub reply: Vec<u8>,
}

impl ServerHandshakeView {
    /// What the bytes `data` from the client make of the handshake: the
    /// handshake after them, the number of bytes used and the reply. While
    /// the bytes that the phase waits for are not all there, nothing is used
    /// and nothing changes.
    ///
    /// The client's banner settles the version, which is never higher than
    /// the server's, and is answered with the offer of no authentication. A
    /// client from version 3.7 on must pick that offer, and from 3.8 on is
    /// told that all is well. The client's initialisation is answered with
    /// the server's own.
    pub open spec fn on_input(self, data: Seq<u8>) -> Result<(ServerHandshakeView, int, Seq<u8>), Error> {
        match self.phase {
            ServerPhase::AwaitVersion => match Version::parse(data, 0) {
                Ok((theirs, next)) => {
                    let version = lower_version(theirs, self.version);
                    Ok(
                        (
                            ServerHandshakeView {
                                phase: if version is Rfb33 {
                                    ServerPhase::AwaitClientInit
                                } else {
                                    ServerPhase::AwaitSecurityType
                                },
                                version,
                                ..self
                            },
                            next,
                            security_offer(version),
                        ),
                    )
                },
                Err(e) => self.or_waits(e),
            },
            ServerPhase::AwaitSecurityType => if !has_bytes(data, 0, 1) {
                Ok((self, 0, Seq::empty()))
            } else if data[0] != 1 {
                Err(Error::Unexpected("security type"))
            } else {
                Ok(
                    (
                        ServerHandshakeView { phase: ServerPhase::AwaitClientInit, ..self },
                        1,
                        if self.version is Rfb38 {
                            SecurityResult::Succeeded.encoding()
                        } else {
                            Seq::empty()
                        },
                    ),
                )
            },
            ServerPhase::AwaitClientInit => match ClientInit::parse(data, 0) {
                Ok((_, next)) => Ok(
                    (
                        ServerHandshakeView { phase: ServerPhase::Done, ..self },
                        next,
                        self.init.encoding(),
                    ),
                ),
                Err(e) => self.or_waits(e),
            },
            _ => Err(Error::Unexpected("handshake is over")),
        }
    }

    /// A short read means waiting; any other error is the step's.
    pub open spec fn or_waits(self, e: Error) -> Result<(ServerHandshakeView, int, Seq<u8>), Error> {
        if e == Error::Io(IoError::UnexpectedEof) {
            Ok((self, 0, Seq::empty()))
        } else {
            Err(e)
        }
    }
}

impl ServerHandshake {
    /// A handshake for a client of the proxy, after the proxy's own
    /// handshake with the server has settled on `version` and brought
    /// `init`. The second result is the banner to greet the client with.
    pub fn new(version: Version, init: ServerInit) -> (res: (ServerHandshake, Vec<u8>))
        requires
            init@.wf(),
        ensures
            res.0@.phase == ServerPhase::AwaitVersion,
            res.0@.version == version,
            res.0@.init == init@,
            res.0@.init.wf(),
            res.1@ == version.encoding(),
    {
        let mut greeting: Vec<u8> = Vec::new();
        version.encode(&mut greeting);
        assert(greeting@ =~= version.encoding());
        (ServerHandshake { phase: ServerPhase::AwaitVersion, version, init }, greeting)
    }

    /// What the handshake waits for.
    pub fn phase(&self) -> (phase: ServerPhase)
        ensures
            phase == self@.phase,
    {
        self.phase
    }

    /// The version settled on with the client, once its banner has been
    /// read.
    pub fn version(&self) -> (version: Version)
        ensures
            version == self@.version,
    {
        self.version
    }

    /// Fails the handshake with an error.
    fn fail(&mut self, e: Error) -> (res: Result<ServerStep, Error>)
        ensures
            final(self)@ == (ServerHandshakeView { phase: ServerPhase::Failed, ..old(self)@ }),
            res == Err::<ServerStep, Error>(e),
    {
        self.phase = ServerPhase::Failed;
        Err(e)
    }

    /// A short read means waiting; any other error fails the handshake.
    fn wait_or_fail(&mut self, e: Error) -> (res: Result<ServerStep, Error>)
        ensures
            match old(self)@.or_waits(e) {
                Ok((handshake, consumed, reply)) => res is Ok && final(self)@ == handshake
                    && res->Ok_0.consumed == consumed && res->Ok_0.reply@ == reply,
                Err(failure) => res == Err::<ServerStep, Error>(failure) && final(self)@ == (
                ServerHandshakeView { phase: ServerPhase::Failed, ..old(self)@ }),
            },
    {
        match e {
            Error::Io(IoError::UnexpectedEof) => Ok(ServerStep { consumed: 0, reply: Vec::new() }),
            e => self.fail(e),
        }
    }

    /// Takes in the bytes that have come from the client and gives the step
    /// to take: see [`ServerHandshakeView::on_input`]. An error fails the
    /// handshake for good.
    #[verifier::rlimit(40)]
    pub fn receive(&mut self, data: &[u8]) -> (res: Result<ServerStep, Error>)
        requires
            old(self)@.init.wf(),
        ensures
            final(self)@.init.wf(),
            match old(self)@.on_input(data@) {
                Ok((handshake, consumed, reply)) => res is Ok && final(self)@ == handshake
                    && res->Ok_0.consumed == consumed && res->Ok_0.reply@ == reply,
                Err(failure) => res == Err::<ServerStep, Error>(failure) && final(self)@.phase
                    == ServerPhase::Failed,
            },
    {
        match self.phase {
            ServerPhase::AwaitVersion => match Version::decode(data, 0) {
                Ok((theirs, next)) => {
                    let version = lower(theirs, self.version);
                    let mut reply: Vec<u8> = Vec::new();
                    match version {
                        Version::Rfb33 => {
                            write_u32(&mut reply, 1);
                            self.phase = ServerPhase::AwaitClientInit;
                        },
                        _ => {
                            write_u8(&mut reply, 1);
                            write_u8(&mut reply, 1);
                            self.phase = ServerPhase::AwaitSecurityType;
                        },
                    }
                    assert(reply@ =~= security_offer(version));
                    self.version = version;
                    Ok(ServerStep { consumed: next, reply })
                },
                Err(e) => self.wait_or_fail(e),
            },
            ServerPhase::AwaitSecurityType => match read_u8(data, 0) {
                Ok((picked, next)) => {
                    if picked != 1 {
                        return self.fail(Error::Unexpected("security type"));
                    }
                    let mut reply: Vec<u8> = Vec::new();
                    match self.version {
                        Version::Rfb38 => {
                            SecurityResult::Succeeded.encode(&mut reply);
                            assert(reply@ =~= SecurityResult::Succeeded.encoding());
                        },
                        _ => {},
                    }
                    self.phase = ServerPhase::AwaitClientInit;
                    Ok(ServerStep { consumed: next, reply })
                },
                Err(_) => Ok(ServerStep { consumed: 0, reply: Vec::new() }),
            },
            ServerPhase::AwaitClientInit => match ClientInit::decode(data, 0) {
                Ok((_, next)) => {
                    let mut reply: Vec<u8> = Vec::new();
                    self.init.encode(&mut reply);
                    assert(reply@ =~= self.init@.encoding());
                    self.phase = ServerPhase::Done;
                    Ok(ServerStep { consumed: next, reply })
                },
                Err(e) => self.wait_or_fail(e),
            },
            _ => self.fail(Error::Unexpected("handshake is over")),
        }
    }
}

/// The lower of two versions.
fn lower(a: Version, b: Version) -> (version: Version)
    ensures
        version == lower_version(a, b),
{
    match (a, b) {
        (Version::Rfb33, _) => a,
        (Version::Rfb37, Version::Rfb33) => b,
        (Version::Rfb37, _) => a,
        (Version::Rfb38, _) => b,
    }
}

/// Rectangles that were read from the wire can be written back: a list
/// holds as many as its count of two bytes said, and a ZRLE payload is as
/// long as its length of four bytes said.
pub proof fn lemma_parsed_rectangles_fit(format: PixelFormat, data: Seq<u8>, at: int, count: nat)
    ensures
        match parse_rectangles(format, data, at, count) {
            Ok((rectangles, _)) => rectangles.len() == count && forall|i: int|
                0 <= i < rectangles.len() && (#[trigger] rectangles[i]).encoding is Zrle
                    ==> rectangles[i].payload.len() <= u32::MAX,
            Err(_) => true,
        },
    decreases count,
{
    if count > 0 {
        if let Ok((first, next)) = RectangleView::parse(format, data, at) {
            lemma_parsed_rectangles_fit(format, data, next, (count - 1) as nat);
            if let Ok((rest, _)) = parse_rectangles(format, data, next, (count - 1) as nat) {
                let all = seq![first] + rest;
                assert forall|i: int| 0 <= i < all.len() && (
                #[trigger] all[i]).encoding is Zrle implies all[i].payload.len() <= u32::MAX by {
                    if i > 0 {
                        assert(all[i] == rest[i - 1]);
                    }
                }
            }
        }
    }
}

/// A message from the client that was read from the wire can be written
/// back.
pub proof fn lemma_parsed_c2s_fits(data: Seq<u8>, at: int)
    ensures
        match C2SView::parse(data, at) {
            Ok((message, _)) => message.fits(),
            Err(_) => true,
        },
{
}

/// A message from the server that was read from the wire can be written
/// back.
pub proof fn lemma_parsed_s2c_fits(format: PixelFormat, data: Seq<u8>, at: int)
    ensures
        match S2CView::parse(format, data, at) {
            Ok((message, _)) => message.fits(),
            Err(_) => true,
        },
{
    if has_bytes(data, at, 1) && data[at] == 0 {
        if let Ok((count, next)) = parse_u16(data, at + 2) {
            lemma_parsed_rectangles_fit(format, data, next, count as nat);
        }
    }
}

/// The running part of a proxy: the pixel format that both sides go by.
pub struct Proxy {
    format: PixelFormat,
}

impl Proxy {
    /// The pixel format that rectangles from the server are read in.
    pub closed spec fn spec_format(&self) -> PixelFormat {
        self.format
    }

    /// A proxy for a session that starts in the server's pixel format.
    pub fn new(format: PixelFormat) -> (proxy: Proxy)
        ensures
            proxy.spec_format() == format,
    {
        Proxy { format }
    }

    /// The pixel format that rectangles from the server are read in.
    pub fn format(&self) -> (format: PixelFormat)
        ensures
            format == self.spec_format(),
    {
        self.format
    }

    /// Takes in bytes from the client and gives the number of bytes used and
    /// the bytes to send to the server: the first message, written out
    /// again. While the message is not all there, nothing is used and
    /// nothing is sent. A new pixel format is taken note of.
    pub fn forward_client(&mut self, data: &[u8]) -> (res: Result<(usize, Vec<u8>), Error>)
        ensures
            match C2SView::parse(data@, 0) {
                Ok((message, next)) => res is Ok && res->Ok_0.0 == next && res->Ok_0.1@
                    == message.encoding() && final(self).spec_format() == (
                match message {
                    C2SView::SetPixelFormat(format) => format,
                    _ => old(self).spec_format(),
                }),
                Err(e) => final(self).spec_format() == old(self).spec_format() && if e
                    == Error::Io(IoError::UnexpectedEof) {
                    res is Ok && res->Ok_0.0 == 0 && res->Ok_0.1@.len() == 0
                } else {
                    res == Err::<(usize, Vec<u8>), Error>(e)
                },
            },
    {
        proof {
            lemma_parsed_c2s_fits(data@, 0);
        }
        match C2S::decode(data, 0) {
            Ok((message, next)) => {
                match &message {
                    C2S::SetPixelFormat(format) => { self.format = *format; },
                    _ => {},
                }
                let mut out: Vec<u8> = Vec::new();
                message.encode(&mut out);
                assert(out@ =~= message@.encoding());
                Ok((next, out))
            },
            Err(Error::Io(IoError::UnexpectedEof)) => Ok((0, Vec::new())),
            Err(e) => Err(e),
        }
    }

    /// Takes in bytes from the server and gives the number of bytes used and
    /// the bytes to send to the client: the first message, written out
    /// again. While the message is not all there, nothing is used and
    /// nothing is sent. Compressed payloads are handed on as they are.
    pub fn forward_server(&self, data: &[u8]) -> (res: Result<(usize, Vec<u8>), Error>)
        ensures
            match S2CView::parse(self.spec_format(), data@, 0) {
                Ok((message, next)) => res is Ok && res->Ok_0.0 == next && res->Ok_0.1@
                    == message.encoding(),
                Err(e) => if e == Error::Io(IoError::UnexpectedEof) {
                    res is Ok && res->Ok_0.0 == 0 && res->Ok_0.1@.len() == 0
                } else {
                    res == Err::<(usize, Vec<u8>), Error>(e)
                },
            },
    {
        proof {
            lemma_parsed_s2c_fits(self.format, data@, 0);
        }
        match S2C::decode(&self.format, data, 0) {
            Ok((message, next)) => {
                let mut out: Vec<u8> = Vec::new();
                message.encode(&mut out);
                assert(out@ =~= message@.encoding());
                Ok((next, out))
            },
            Err(Error::Io(IoError::UnexpectedEof)) => Ok((0, Vec::new())),
            Err(e) => Err(e),
        }
    }
}

/// What the proxy sends on for a well-formed message from the client is
/// that message's own bytes: forwarding changes nothing and keeps the
/// boundaries between messages.
pub proof fn lemma_forward_client_keeps_bytes(message: C2SView, data: Seq<u8>)
    requires
        message.wf(),
        holds_at(data, 0, message.encoding()),
    ensures
        C2SView::parse(data, 0) is Ok,
        C2SView::parse(data, 0)->Ok_0.0.encoding() == data.subrange(
            0,
            C2SView::parse(data, 0)->Ok_0.1,
        ),
{
    message.lemma_round_trip(data, 0);
}

/// What the proxy sends on for a well-formed message from the server is
/// that message's own bytes.
pub proof fn lemma_forward_server_keeps_bytes(message: S2CView, format: PixelFormat, data: Seq<u8>)
    requires
        message.wf(format),
        holds_at(data, 0, message.encoding()),
    ensures
        S2CView::parse(format, data, 0) is Ok,
        S2CView::parse(format, data, 0)->Ok_0.0.encoding() == data.subrange(
            0,
            S2CView::parse(format, data, 0)->Ok_0.1,
        ),
{
    message.lemma_round_trip(format, data, 0);
}

} // verus!
