//! The handshake, seen from the client: a machine that is fed the server's
//! bytes and the host's decisions, and says what to send and what it needs
//! next. It reads and writes nothing itself.

use crate::des::{auth_response, respond};
use crate::error::{Error, ErrorView, IoError};
use crate::protocol::{
    parse_security_types, read_security_types, ClientInit, SecurityResult, SecurityType,
    ServerInit, ServerInitView, Version,
};
use crate::wire::{
    available, has_bytes, parse_string, parse_u16, parse_u32, read_string, read_u16, read_u32,
};
use vstd::prelude::*;
use vstd::slice::{slice_subrange, slice_to_vec};

verus! {

/// A way to authenticate that this client knows.
#[derive(Clone, Copy, Debug, PartialEq, Eq, Structural)]
pub enum AuthMethod {
    NoAuthentication,
    Password,
    AppleRemoteDesktop,
}

/// What the decider settles on: a method, with what it takes.
#[derive(Debug, PartialEq, Eq)]
pub enum AuthChoice {
    NoAuthentication,
    Password([u8; 8]),
    AppleRemoteDesktop,
}

/// Where a handshake stands: what it waits for.
#[derive(Clone, Copy, Debug, PartialEq, Eq, Structural)]
pub enum Phase {
    /// The server's version banner.
    AwaitVersion,
    /// The security types that the server offers.
    AwaitSecurity,
    /// The decider's choice among the methods offered.
    AwaitChoice,
    /// The challenge of VNC authentication.
    AwaitChallenge,
    /// The server's half of the Apple Remote Desktop key exchange.
    AwaitAppleParameters,
    /// The host's answer to the server's half of the key exchange.
    AwaitAppleResponse,
    /// The server's verdict.
    AwaitVerdict,
    /// The reason for a refusal.
    AwaitReason,
    /// The server's message of initialisation.
    AwaitServerInit,
    /// The session is running.
    Done,
    /// The handshake failed.
    Failed,
}

/// What a handshake needs before it can go on.
#[derive(Debug, PartialEq, Eq)]
pub enum Request {
    /// More bytes from the server.
    Input,
    /// The decider's choice among these methods.
    Choice(Vec<AuthMethod>),
    /// The answer to the server's half of an Apple Remote Desktop key
    /// exchange: the credentials, encrypted under the shared secret, and
    /// the client's public key.
    AppleResponse { generator: u16, prime: Vec<u8>, peer_key: Vec<u8> },
    /// Nothing: the session is running, with these parameters.
    Finished(ServerInit),
}

/// What a handshake needs, as a value.
pub enum RequestView {
    Input,
    Choice(Seq<AuthMethod>),
    AppleResponse { generator: u16, prime: Seq<u8>, peer_key: Seq<u8> },
    Finished(ServerInitView),
}

impl View for Request {
    type V = RequestView;

    open spec fn view(&self) -> RequestView {
        match self {
            Request::Input => RequestView::Input,
            Request::Choice(methods) => RequestView::Choice(methods@),
            Request::AppleResponse { generator, prime, peer_key } => RequestView::AppleResponse {
                generator: *generator,
                prime: prime@,
                peer_key: peer_key@,
            },
            Request::Finished(init) => RequestView::Finished(init@),
        }
    }
}

/// One step of a handshake: how many of the bytes handed in were used,
/// what to send to the server, and what is needed next.
#[derive(Debug, PartialEq, Eq)]
pub struct Step {
    pub consumed: usize,
    pub reply: Vec<u8>,
    pub request: Request,
}

/// A step of a handshake, as a value.
pub struct StepView {
    pub consumed: int,
    pub reply: Seq<u8>,
    pub request: RequestView,
}

impl View for Step {
    type V = StepView;

    open spec fn view(&self) -> StepView {
        StepView { consumed: self.consumed as int, reply: self.reply@, request: self.request@ }
    }
}

/// The method that a security type stands for, if this client knows it.
pub open spec fn method_of(security: SecurityType) -> Option<AuthMethod> {
    match security {
        SecurityType::NoAuthentication => Some(AuthMethod::NoAuthentication),
        SecurityType::VncAuthentication => Some(AuthMethod::Password),
        SecurityType::AppleRemoteDesktop => Some(AuthMethod::AppleRemoteDesktop),
        _ => None,
    }
}

/// The security type by which a method goes on the wire.
pub open spec fn type_of(method: AuthMethod) -> SecurityType {
    match method {
        AuthMethod::NoAuthentication => SecurityType::NoAuthentication,
        AuthMethod::Password => SecurityType::VncAuthentication,
        AuthMethod::AppleRemoteDesktop => SecurityType::AppleRemoteDesktop,
    }
}

/// The methods among the first `count` security types offered, in the
/// server's order.
pub open spec fn methods_of(offered: Seq<SecurityType>, count: int) -> Seq<AuthMethod>
    decreases count,
{
    if count <= 0 {
        Seq::empty()
    } else {
        match method_of(offered[count - 1]) {
            Some(method) => methods_of(offered, count - 1).push(method),
            None => methods_of(offered, count - 1),
        }
    }
}

/// The method that a choice stands for.
pub open spec fn chosen_method(choice: AuthChoice) -> AuthMethod {
    match choice {
        AuthChoice::NoAuthentication => AuthMethod::NoAuthentication,
        AuthChoice::Password(_) => AuthMethod::Password,
        AuthChoice::AppleRemoteDesktop => AuthMethod::AppleRemoteDesktop,
    }
}

/// A handshake, as a value.
pub struct HandshakeView {
    pub phase: Phase,
    pub shared: bool,
    pub version: Version,
    pub methods: Seq<AuthMethod>,
    pub key: Seq<u8>,
}

/// The handshake of a client with a server.
pub struct Handshake {
    phase: Phase,
    shared: bool,
    version: Version,
    methods: Vec<AuthMethod>,
    key: [u8; 8],
}

impl View for Handshake {
    type V = HandshakeView;

    closed spec fn view(&self) -> HandshakeView {
        HandshakeView {
            phase: self.phase,
            shared: self.shared,
            version: self.version,
            methods: self.methods@,
            key: self.key@,
        }
    }
}

impl HandshakeView {
    /// The same handshake in another phase.
    pub open spec fn at(self, phase: Phase) -> HandshakeView {
        HandshakeView { phase, ..self }
    }

    /// A step that uses `consumed` bytes, sends `reply` and then needs more
    /// input in `phase`.
    pub open spec fn goes(self, phase: Phase, consumed: int, reply: Seq<u8>) -> Result<
        (HandshakeView, StepView),
        ErrorView,
    > {
        Ok((self.at(phase), StepView { consumed, reply, request: RequestView::Input }))
    }

    /// A step that does nothing but wait for more input.
    pub open spec fn waits(self) -> Result<(HandshakeView, StepView), ErrorView> {
        self.goes(self.phase, 0, Seq::empty())
    }

    /// What the bytes `data` from the server make of a handshake: the
    /// handshake after them, and the step to take. While the bytes that the
    /// phase waits for are not all there, nothing is used and nothing
    /// changes.
    ///
    /// The banner settles the version, which is sent back. The security
    /// types give the methods to choose from; a server that offers none
    /// goes on to say why. The challenge is answered under the password.
    /// The parameters of the Apple Remote Desktop key exchange are handed
    /// to the host. After a good verdict the client sends whether it shares
    /// the session; a bad one fails the handshake, from version 3.8 on with
    /// the server's reason. The server's initialisation ends the handshake.
    pub open spec fn on_input(self, data: Seq<u8>) -> Result<(HandshakeView, StepView), ErrorView> {
        match self.phase {
            Phase::AwaitVersion => match Version::parse(data, 0) {
                Ok((version, next)) => (HandshakeView { version, ..self }).goes(
                    Phase::AwaitSecurity,
                    next,
                    version.encoding(),
                ),
                Err(e) => self.or_waits(e),
            },
            Phase::AwaitSecurity => match self.offered(data) {
                Ok((offered, next)) => {
                    let methods = methods_of(offered, offered.len() as int);
                    if offered.len() == 0 {
                        self.goes(Phase::AwaitReason, next, Seq::empty())
                    } else if methods.len() == 0 {
                        Err(ErrorView::AuthenticationUnavailable)
                    } else {
                        Ok(
                            (
                                (HandshakeView { methods, ..self }).at(Phase::AwaitChoice),
                                StepView {
                                    consumed: next,
                                    reply: Seq::empty(),
                                    request: RequestView::Choice(methods),
                                },
                            ),
                        )
                    }
                },
                Err(e) => self.or_waits(e),
            },
            Phase::AwaitChoice => Ok(
                (
                    self,
                    StepView {
                        consumed: 0,
                        reply: Seq::empty(),
                        request: RequestView::Choice(self.methods),
                    },
                ),
            ),
            Phase::AwaitChallenge => if has_bytes(data, 0, 16) {
                self.goes(Phase::AwaitVerdict, 16, auth_response(self.key, data.subrange(0, 16)))
            } else {
                self.waits()
            },
            Phase::AwaitAppleParameters => match parse_u16(data, 2) {
                Ok((length, _)) => if has_bytes(data, 4, 2 * length) {
                    Ok(
                        (
                            self.at(Phase::AwaitAppleResponse),
                            StepView {
                                consumed: 4 + 2 * length,
                                reply: Seq::empty(),
                                request: RequestView::AppleResponse {
                                    generator: parse_u16(data, 0)->Ok_0.0,
                                    prime: data.subrange(4, 4 + length),
                                    peer_key: data.subrange(4 + length, 4 + 2 * length),
                                },
                            },
                        ),
                    )
                } else {
                    self.waits()
                },
                Err(_) => self.waits(),
            },
            Phase::AwaitVerdict => match SecurityResult::parse(data, 0) {
                Ok((SecurityResult::Succeeded, next)) => self.goes(
                    Phase::AwaitServerInit,
                    next,
                    (ClientInit { shared: self.shared }).encoding(),
                ),
                Ok((SecurityResult::Failed, next)) => if self.version is Rfb38 {
                    self.goes(Phase::AwaitReason, next, Seq::empty())
                } else {
                    Err(ErrorView::AuthenticationFailure(Seq::empty()))
                },
                Err(e) => self.or_waits(e),
            },
            Phase::AwaitReason => match parse_string(data, 0) {
                Ok((reason, _)) => Err(ErrorView::AuthenticationFailure(reason)),
                Err(e) => self.or_waits(e),
            },
            Phase::AwaitServerInit => match ServerInitView::parse(data, 0) {
                Ok((init, next)) => Ok(
                    (
                        self.at(Phase::Done),
                        StepView {
                            consumed: next,
                            reply: Seq::empty(),
                            request: RequestView::Finished(init),
                        },
                    ),
                ),
                Err(e) => self.or_waits(e),
            },
            _ => Err(ErrorView::Unexpected("handshake is over")),
        }
    }

    /// A short read means waiting; any other error is the step's.
    pub open spec fn or_waits(self, e: Error) -> Result<(HandshakeView, StepView), ErrorView> {
        if e == Error::Io(IoError::UnexpectedEof) {
            self.waits()
        } else {
            Err(e@)
        }
    }

    /// The security types that a server offers: from version 3.7 on a list,
    /// before that the one type that the server has settled on, in four
    /// bytes, where zero stands for none.
    pub open spec fn offered(self, data: Seq<u8>) -> Result<(Seq<SecurityType>, int), Error> {
        if self.version is Rfb33 {
            match parse_u32(data, 0) {
                Ok((code, next)) => if code == 0 {
                    Ok((Seq::empty(), next))
                } else if code > 255 {
                    Err(Error::Unexpected("security type"))
                } else {
                    Ok((seq![SecurityType::of_code(code as u8)], next))
                },
                Err(e) => Err(e),
            }
        } else {
            parse_security_types(data, 0)
        }
    }
}

impl HandshakeView {
    /// What the decider's choice makes of a handshake that waits for it:
    /// the handshake after it, and what to send.
    ///
    /// No choice, or a method that the server did not offer, fails the
    /// handshake. From version 3.7 on the server is told the type chosen.
    /// Without authentication a server before version 3.8 gives no verdict,
    /// so the client says at once whether it shares the session.
    pub open spec fn on_choice(self, choice: Option<AuthChoice>) -> Result<
        (HandshakeView, Seq<u8>),
        ErrorView,
    > {
        if self.phase != Phase::AwaitChoice {
            Err(ErrorView::Unexpected("no choice is due"))
        } else {
            match choice {
                Some(choice) => {
                    let announce = if self.version is Rfb33 {
                        Seq::<u8>::empty()
                    } else {
                        seq![type_of(chosen_method(choice)).code()]
                    };
                    if !self.methods.contains(chosen_method(choice)) {
                        Err(ErrorView::AuthenticationUnavailable)
                    } else {
                        match choice {
                            AuthChoice::NoAuthentication => if self.version is Rfb38 {
                                Ok((self.at(Phase::AwaitVerdict), announce))
                            } else {
                                Ok(
                                    (
                                        self.at(Phase::AwaitServerInit),
                                        announce + (ClientInit { shared: self.shared }).encoding(),
                                    ),
                                )
                            },
                            AuthChoice::Password(key) => Ok(
                                (
                                    (HandshakeView { key: key@, ..self }).at(Phase::AwaitChallenge),
                                    announce,
                                ),
                            ),
                            AuthChoice::AppleRemoteDesktop => Ok(
                                (self.at(Phase::AwaitAppleParameters), announce),
                            ),
                        }
                    }
                },
                None => Err(ErrorView::AuthenticationUnavailable),
            }
        }
    }
}

/// The method that a security type stands for, if this client knows it.
fn method_for(security: SecurityType) -> (method: Option<AuthMethod>)
    ensures
        method == method_of(security),
{
    match security {
        SecurityType::NoAuthentication => Some(AuthMethod::NoAuthentication),
        SecurityType::VncAuthentication => Some(AuthMethod::Password),
        SecurityType::AppleRemoteDesktop => Some(AuthMethod::AppleRemoteDesktop),
        _ => None,
    }
}

/// The methods among the security types offered, in the server's order.
fn methods_among(offered: &Vec<SecurityType>) -> (methods: Vec<AuthMethod>)
    ensures
        methods@ == methods_of(offered@, offered@.len() as int),
{
    let mut methods: Vec<AuthMethod> = Vec::new();
    let mut i: usize = 0;
    while i < offered.len()
        invariant
            i <= offered.len(),
            methods@ == methods_of(offered@, i as int),
        decreases offered.len() - i,
    {
        match method_for(offered[i]) {
            Some(method) => methods.push(method),
            None => {},
        }
        i = i + 1;
    }
    methods
}

/// Whether a method is among those offered.
fn offers(methods: &Vec<AuthMethod>, method: AuthMethod) -> (found: bool)
    ensures
        found == methods@.contains(method),
{
    let mut i: usize = 0;
    while i < methods.len()
        invariant
            i <= methods.len(),
            forall|k: int| 0 <= k < i ==> methods@[k] != method,
        decreases methods.len() - i,
    {
        if methods[i] == method {
            return true;
        }
        i = i + 1;
    }
    false
}

impl Handshake {
    /// A handshake that waits for the server's banner. `shared` says
    /// whether other clients may stay connected.
    pub fn new(shared: bool) -> (handshake: Handshake)
        ensures
            handshake@.phase == Phase::AwaitVersion,
            handshake@.shared == shared,
    {
        Handshake {
            phase: Phase::AwaitVersion,
            shared,
            version: Version::Rfb33,
            methods: Vec::new(),
            key: [0u8; 8],
        }
    }

    /// What the handshake waits for.
    pub fn phase(&self) -> (phase: Phase)
        ensures
            phase == self@.phase,
    {
        self.phase
    }

    /// The version that the two sides settled on, once the banner has been
    /// read.
    pub fn version(&self) -> (version: Version)
        ensures
            version == self@.version,
    {
        self.version
    }

    /// Fails the handshake with an error.
    fn fail<T>(&mut self, e: Error) -> (res: Result<T, Error>)
        ensures
            final(self)@.phase == Phase::Failed,
            res == Err::<T, Error>(e),
    {
        self.phase = Phase::Failed;
        Err(e)
    }

    /// A short read means waiting; any other error fails the handshake.
    fn wait_or_fail(&mut self, e: Error) -> (res: Result<Step, Error>)
        ensures
            match old(self)@.or_waits(e) {
                Ok((handshake, step)) => res is Ok && final(self)@ == handshake && res->Ok_0@
                    == step,
                Err(failure) => res is Err && res->Err_0@ == failure && final(self)@.phase
                    == Phase::Failed,
            },
    {
        match e {
            Error::Io(IoError::UnexpectedEof) => Ok(
                Step { consumed: 0, reply: Vec::new(), request: Request::Input },
            ),
            e => self.fail(e),
        }
    }

    /// The security types that the server offers.
    fn read_offered(&self, data: &[u8]) -> (res: Result<(Vec<SecurityType>, usize), Error>)
        ensures
            match self@.offered(data@) {
                Ok((offered, next)) => res is Ok && res->Ok_0.0@ == offered && res->Ok_0.1 == next,
                Err(e) => res == Err::<(Vec<SecurityType>, usize), Error>(e),
            },
    {
        match self.version {
            Version::Rfb33 => {
                let (code, next) = match read_u32(data, 0) {
                    Ok(read) => read,
                    Err(e) => { return Err(e); },
                };
                let mut offered: Vec<SecurityType> = Vec::new();
                if code == 0 {
                    Ok((offered, next))
                } else if code > 255 {
                    Err(Error::Unexpected("security type"))
                } else {
                    offered.push(SecurityType::from_code(code as u8));
                    assert(offered@ =~= seq![SecurityType::of_code(code as u8)]);
                    Ok((offered, next))
                }
            },
            _ => read_security_types(data, 0),
        }
    }

    /// Takes in the bytes that have come from the server and gives the step
    /// to take: see [`HandshakeView::on_input`]. An error fails the
    /// handshake for good.
    #[verifier::rlimit(40)]
    pub fn receive(&mut self, data: &[u8]) -> (res: Result<Step, Error>)
        ensures
            match old(self)@.on_input(data@) {
                Ok((handshake, step)) => res is Ok && final(self)@ == handshake && res->Ok_0@
                    == step,
                Err(failure) => res is Err && res->Err_0@ == failure && final(self)@.phase
                    == Phase::Failed,
            },
    {
        match self.phase {
            Phase::AwaitVersion => match Version::decode(data, 0) {
                Ok((version, next)) => {
                    let mut reply: Vec<u8> = Vec::new();
                    version.encode(&mut reply);
                    assert(reply@ =~= version.encoding());
                    self.version = version;
                    self.phase = Phase::AwaitSecurity;
                    Ok(Step { consumed: next, reply, request: Request::Input })
                },
                Err(e) => self.wait_or_fail(e),
            },
            Phase::AwaitSecurity => match self.read_offered(data) {
                Ok((offered, next)) => {
                    let methods = methods_among(&offered);
                    if offered.len() == 0 {
                        self.phase = Phase::AwaitReason;
                        Ok(Step { consumed: next, reply: Vec::new(), request: Request::Input })
                    } else if methods.len() == 0 {
                        self.fail(Error::AuthenticationUnavailable)
                    } else {
                        self.methods = slice_to_vec(methods.as_slice());
                        self.phase = Phase::AwaitChoice;
                        Ok(
                            Step {
                                consumed: next,
                                reply: Vec::new(),
                                request: Request::Choice(methods),
                            },
                        )
                    }
                },
                Err(e) => self.wait_or_fail(e),
            },
            Phase::AwaitChoice => Ok(
                Step {
                    consumed: 0,
                    reply: Vec::new(),
                    request: Request::Choice(slice_to_vec(self.methods.as_slice())),
                },
            ),
            Phase::AwaitChallenge => {
                if !available(data, 0, 16) {
                    return Ok(Step { consumed: 0, reply: Vec::new(), request: Request::Input });
                }
                let challenge: [u8; 16] = [
                    data[0],
                    data[1],
                    data[2],
                    data[3],
                    data[4],
                    data[5],
                    data[6],
                    data[7],
                    data[8],
                    data[9],
                    data[10],
                    data[11],
                    data[12],
                    data[13],
                    data[14],
                    data[15],
                ];
                assert(challenge@ =~= data@.subrange(0, 16));
                let reply = respond(&self.key, &challenge);
                self.phase = Phase::AwaitVerdict;
                Ok(Step { consumed: 16, reply, request: Request::Input })
            },
            Phase::AwaitAppleParameters => {
                let (length, _) = match read_u16(data, 2) {
                    Ok(read) => read,
                    Err(_) => {
                        return Ok(Step { consumed: 0, reply: Vec::new(), request: Request::Input });
                    },
                };
                let length = length as usize;
                if !available(data, 4, 2 * length) {
                    return Ok(Step { consumed: 0, reply: Vec::new(), request: Request::Input });
                }
                let generator = data[0] as u16 * 256 + data[1] as u16;
                let prime = slice_to_vec(slice_subrange(data, 4, 4 + length));
                let peer_key = slice_to_vec(slice_subrange(data, 4 + length, 4 + 2 * length));
                self.phase = Phase::AwaitAppleResponse;
                Ok(
                    Step {
                        consumed: 4 + 2 * length,
                        reply: Vec::new(),
                        request: Request::AppleResponse { generator, prime, peer_key },
                    },
                )
            },
            Phase::AwaitVerdict => match SecurityResult::decode(data, 0) {
                Ok((SecurityResult::Succeeded, next)) => {
                    let mut reply: Vec<u8> = Vec::new();
                    (ClientInit { shared: self.shared }).encode(&mut reply);
                    assert(reply@ =~= (ClientInit { shared: self.shared }).encoding());
                    self.phase = Phase::AwaitServerInit;
                    Ok(Step { consumed: next, reply, request: Request::Input })
                },
                Ok((SecurityResult::Failed, next)) => match self.version {
                    Version::Rfb38 => {
                        self.phase = Phase::AwaitReason;
                        Ok(Step { consumed: next, reply: Vec::new(), request: Request::Input })
                    },
                    _ => self.fail(Error::AuthenticationFailure(Vec::new())),
                },
                Err(e) => self.wait_or_fail(e),
            },
            Phase::AwaitReason => match read_string(data, 0) {
                Ok((reason, _)) => self.fail(Error::AuthenticationFailure(reason)),
                Err(e) => self.wait_or_fail(e),
            },
            Phase::AwaitServerInit => match ServerInit::decode(data, 0) {
                Ok((init, next)) => {
                    self.phase = Phase::Done;
                    Ok(Step { consumed: next, reply: Vec::new(), request: Request::Finished(init) })
                },
                Err(e) => self.wait_or_fail(e),
            },
            _ => self.fail(Error::Unexpected("handshake is over")),
        }
    }

    /// Takes in the decider's choice and gives the bytes to send: see
    /// [`HandshakeView::on_choice`]. An error fails the handshake for good.
    #[verifier::rlimit(40)]
    pub fn decide(&mut self, choice: Option<AuthChoice>) -> (res: Result<Vec<u8>, Error>)
        ensures
            match old(self)@.on_choice(choice) {
                Ok((handshake, reply)) => res is Ok && final(self)@ == handshake && res->Ok_0@
                    == reply,
                Err(failure) => res is Err && res->Err_0@ == failure && final(self)@.phase
                    == Phase::Failed,
            },
    {
        match self.phase {
            Phase::AwaitChoice => {},
            _ => { return self.fail(Error::Unexpected("no choice is due")); },
        }
        let choice = match choice {
            Some(choice) => choice,
            None => { return self.fail(Error::AuthenticationUnavailable); },
        };
        let (method, code): (AuthMethod, u8) = match &choice {
            AuthChoice::NoAuthentication => (AuthMethod::NoAuthentication, 1),
            AuthChoice::Password(_) => (AuthMethod::Password, 2),
            AuthChoice::AppleRemoteDesktop => (AuthMethod::AppleRemoteDesktop, 30),
        };
        if !offers(&self.methods, method) {
            return self.fail(Error::AuthenticationUnavailable);
        }
        let mut reply: Vec<u8> = Vec::new();
        match self.version {
            Version::Rfb33 => {},
            _ => { reply.push(code); },
        }
        let ghost announce = reply@;
        match choice {
            AuthChoice::NoAuthentication => match self.version {
                Version::Rfb38 => { self.phase = Phase::AwaitVerdict; },
                _ => {
                    (ClientInit { shared: self.shared }).encode(&mut reply);
                    self.phase = Phase::AwaitServerInit;
                },
            },
            AuthChoice::Password(key) => {
                self.key = key;
                self.phase = Phase::AwaitChallenge;
            },
            AuthChoice::AppleRemoteDesktop => { self.phase = Phase::AwaitAppleParameters; },
        }
        assert(announce =~= if old(self)@.version is Rfb33 {
            Seq::<u8>::empty()
        } else {
            seq![type_of(method).code()]
        });
        Ok(reply)
    }

    /// Takes in the host's answer to the server's half of the key exchange
    /// and gives the bytes to send, which are the answer as it is. The
    /// handshake then waits for the server's verdict.
    pub fn apple_response(&mut self, response: &[u8]) -> (res: Result<Vec<u8>, Error>)
        ensures
            old(self)@.phase == Phase::AwaitAppleResponse ==> res is Ok && res->Ok_0@ == response@
                && final(self)@ == old(self)@.at(Phase::AwaitVerdict),
            old(self)@.phase != Phase::AwaitAppleResponse ==> res == Err::<Vec<u8>, Error>(
                Error::Unexpected("no answer is due"),
            ) && final(self)@.phase == Phase::Failed,
    {
        match self.phase {
            Phase::AwaitAppleResponse => {
                self.phase = Phase::AwaitVerdict;
                Ok(slice_to_vec(response))
            },
            _ => self.fail(Error::Unexpected("no answer is due")),
        }
    }
}

} // verus!
