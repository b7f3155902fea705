//! The message schema: every message of the handshake and of a running
//! session, as a value, as bytes, and the way between the two.

use crate::error::{Error, IoError};
use crate::geometry::Rect;
use crate::pixel_format::{flag_byte, PixelFormat};
use crate::wire::{
    available, eof, has_bytes, holds_at, i32_bytes, lemma_byte_at, lemma_holds_part,
    lemma_i32_round_trip,
    lemma_string_round_trip, lemma_u16_round_trip, lemma_u32_round_trip, parse_bytes, parse_i32,
    parse_string, parse_u16, parse_u32, parse_u8, read_bytes, read_i32, read_string, read_u16,
    read_u32, read_u8, string_bytes, u16_bytes, u32_bytes, write_bytes, write_i32, write_padding,
    write_string, write_u16, write_u32, write_u8, Parsed,
};
use vstd::prelude::*;
use vstd::slice::slice_to_vec;

verus! {

/// How the pixels of a rectangle are encoded, or what a pseudo-rectangle
/// announces. On the wire it is a signed number of four bytes: pixel
/// encodings are positive, pseudo-encodings negative.
#[derive(Clone, Copy, Debug, PartialEq, Eq, Structural)]
pub enum Encoding {
    Unknown(i32),
    Raw,
    CopyRect,
    Rre,
    Hextile,
    Zrle,
    Cursor,
    DesktopSize,
}

impl Encoding {
    /// The encoding's number on the wire.
    pub open spec fn code(self) -> i32 {
        match self {
            Encoding::Unknown(code) => code,
            Encoding::Raw => 0,
            Encoding::CopyRect => 1,
            Encoding::Rre => 2,
            Encoding::Hextile => 5,
            Encoding::Zrle => 16,
            Encoding::Cursor => (-239i32),
            Encoding::DesktopSize => (-223i32),
        }
    }

    /// The encoding that a number on the wire stands for.
    pub open spec fn of_code(code: i32) -> Encoding {
        if code == 0 {
            Encoding::Raw
        } else if code == 1 {
            Encoding::CopyRect
        } else if code == 2 {
            Encoding::Rre
        } else if code == 5 {
            Encoding::Hextile
        } else if code == 16 {
            Encoding::Zrle
        } else if code == -239i32 {
            Encoding::Cursor
        } else if code == -223i32 {
            Encoding::DesktopSize
        } else {
            Encoding::Unknown(code)
        }
    }

    /// An encoding with a name goes by its name: `Unknown` holds only
    /// numbers that have none.
    pub open spec fn wf(self) -> bool {
        Encoding::of_code(self.code()) == self
    }

    /// The encoding's number on the wire.
    pub fn to_code(&self) -> (code: i32)
        ensures
            code == self.code(),
    {
        match self {
            Encoding::Unknown(code) => *code,
            Encoding::Raw => 0,
            Encoding::CopyRect => 1,
            Encoding::Rre => 2,
            Encoding::Hextile => 5,
            Encoding::Zrle => 16,
            Encoding::Cursor => -239,
            Encoding::DesktopSize => -223,
        }
    }

    /// The encoding that a number on the wire stands for.
    pub fn from_code(code: i32) -> (encoding: Encoding)
        ensures
            encoding == Encoding::of_code(code),
            encoding.wf(),
            encoding.code() == code,
    {
        if code == 0 {
            Encoding::Raw
        } else if code == 1 {
            Encoding::CopyRect
        } else if code == 2 {
            Encoding::Rre
        } else if code == 5 {
            Encoding::Hextile
        } else if code == 16 {
            Encoding::Zrle
        } else if code == -239 {
            Encoding::Cursor
        } else if code == -223 {
            Encoding::DesktopSize
        } else {
            Encoding::Unknown(code)
        }
    }
}

/// A protocol version that both sides can speak.
#[derive(Clone, Copy, Debug, PartialEq, Eq, Structural)]
pub enum Version {
    Rfb33,
    Rfb37,
    Rfb38,
}

/// Whether a byte is a decimal digit.
pub open spec fn is_digit(byte: u8) -> bool {
    48 <= byte <= 57
}

/// The number that three digits at `at` stand for.
pub open spec fn digits_at(data: Seq<u8>, at: int) -> int {
    (data[at] - 48) * 100 + (data[at + 1] - 48) * 10 + (data[at + 2] - 48)
}

/// Whether the twelve bytes at `at` have the shape of a version banner:
/// `RFB `, three digits, a dot, three digits and a line feed.
pub open spec fn is_banner(data: Seq<u8>, at: int) -> bool {
    &&& data[at] == 82 && data[at + 1] == 70 && data[at + 2] == 66 && data[at + 3] == 32
    &&& is_digit(data[at + 4]) && is_digit(data[at + 5]) && is_digit(data[at + 6])
    &&& data[at + 7] == 46
    &&& is_digit(data[at + 8]) && is_digit(data[at + 9]) && is_digit(data[at + 10])
    &&& data[at + 11] == 10
}

impl Version {
    /// The version's minor number; the major one is 3.
    pub open spec fn minor(self) -> u8 {
        match self {
            Version::Rfb33 => 3,
            Version::Rfb37 => 7,
            Version::Rfb38 => 8,
        }
    }

    /// The highest version that this side speaks and that a peer at version
    /// `major.minor` speaks too. Peers below 3.3 or above 3.8 are not
    /// supported; between 3.3 and 3.7 the common ground is 3.3.
    pub open spec fn negotiated(major: int, minor: int) -> Result<Version, Error> {
        if major != 3 || minor < 3 || minor > 8 {
            Err(Error::UnsupportedVersion)
        } else if minor == 8 {
            Ok(Version::Rfb38)
        } else if minor == 7 {
            Ok(Version::Rfb37)
        } else {
            Ok(Version::Rfb33)
        }
    }

    /// The version's banner: twelve bytes.
    pub open spec fn encoding(self) -> Seq<u8> {
        seq![82u8, 70, 66, 32, 48, 48, 51, 46, 48, 48, (48 + self.minor()) as u8, 10]
    }

    /// Reading a peer's banner at `at`, and settling on a version.
    pub open spec fn parse(data: Seq<u8>, at: int) -> Parsed<Version> {
        if !has_bytes(data, at, 12) {
            eof()
        } else if !is_banner(data, at) {
            Err(Error::Unexpected("protocol version"))
        } else {
            match Version::negotiated(digits_at(data, at + 4), digits_at(data, at + 8)) {
                Ok(version) => Ok((version, at + 12)),
                Err(e) => Err(e),
            }
        }
    }

    /// A banner that is written and read back settles on its own version.
    pub proof fn lemma_round_trip(self, data: Seq<u8>, at: int)
        requires
            holds_at(data, at, self.encoding()),
        ensures
            Version::parse(data, at) == Ok::<(Version, int), Error>((self, at + 12)),
    {
        let bytes = self.encoding();
        assert forall|i: int| 0 <= i < 12 implies data[at + i] == bytes[i] by {
            assert(data.subrange(at, at + 12)[i] == data[at + i]);
        }
        assert(data[at] == bytes[0] && data[at + 1] == bytes[1] && data[at + 2] == bytes[2]
            && data[at + 3] == bytes[3] && data[at + 4] == bytes[4] && data[at + 5] == bytes[5]
            && data[at + 6] == bytes[6] && data[at + 7] == bytes[7] && data[at + 8] == bytes[8]
            && data[at + 9] == bytes[9] && data[at + 10] == bytes[10] && data[at + 11]
            == bytes[11]);
    }

    /// Appends the version's banner.
    pub fn encode(&self, out: &mut Vec<u8>)
        ensures
            final(out)@ == old(out)@ + self.encoding(),
    {
        let minor: u8 = match self {
            Version::Rfb33 => 3,
            Version::Rfb37 => 7,
            Version::Rfb38 => 8,
        };
        write_u8(out, 82);
        write_u8(out, 70);
        write_u8(out, 66);
        write_u8(out, 32);
        write_u8(out, 48);
        write_u8(out, 48);
        write_u8(out, 51);
        write_u8(out, 46);
        write_u8(out, 48);
        write_u8(out, 48);
        write_u8(out, 48 + minor);
        write_u8(out, 10);
        assert(out@ =~= old(out)@ + self.encoding());
    }

    /// Reads a peer's banner and settles on a version.
    pub fn decode(data: &[u8], at: usize) -> (res: Result<(Version, usize), Error>)
        ensures
            match Version::parse(data@, at as int) {
                Ok((version, next)) => res is Ok && res->Ok_0.0 == version && res->Ok_0.1 == next,
                Err(e) => res == Err::<(Version, usize), Error>(e),
            },
    {
        if !available(data, at, 12) {
            return Err(Error::Io(IoError::UnexpectedEof));
        }
        let shaped = data[at] == 82 && data[at + 1] == 70 && data[at + 2] == 66 && data[at + 3]
            == 32 && digit(data[at + 4]) && digit(data[at + 5]) && digit(data[at + 6]) && data[at
            + 7] == 46 && digit(data[at + 8]) && digit(data[at + 9]) && digit(data[at + 10])
            && data[at + 11] == 10;
        if !shaped {
            return Err(Error::Unexpected("protocol version"));
        }
        let major: u16 = (data[at + 4] - 48) as u16 * 100 + (data[at + 5] - 48) as u16 * 10 + (
        data[at + 6] - 48) as u16;
        let minor: u16 = (data[at + 8] - 48) as u16 * 100 + (data[at + 9] - 48) as u16 * 10 + (
        data[at + 10] - 48) as u16;
        if major != 3 || minor < 3 || minor > 8 {
            Err(Error::UnsupportedVersion)
        } else if minor == 8 {
            Ok((Version::Rfb38, at + 12))
        } else if minor == 7 {
            Ok((Version::Rfb37, at + 12))
        } else {
            Ok((Version::Rfb33, at + 12))
        }
    }
}

/// Whether a byte is a decimal digit.
fn digit(byte: u8) -> (r: bool)
    ensures
        r == is_digit(byte),
{
    48 <= byte && byte <= 57
}

/// A way to secure the session, as the server offers it.
#[derive(Clone, Copy, Debug, PartialEq, Eq, Structural)]
pub enum SecurityType {
    Unknown(u8),
    Invalid,
    NoAuthentication,
    VncAuthentication,
    AppleRemoteDesktop,
}

impl SecurityType {
    /// The type's number on the wire.
    pub open spec fn code(self) -> u8 {
        match self {
            SecurityType::Unknown(code) => code,
            SecurityType::Invalid => 0,
            SecurityType::NoAuthentication => 1,
            SecurityType::VncAuthentication => 2,
            SecurityType::AppleRemoteDesktop => 30,
        }
    }

    /// The type that a number on the wire stands for.
    pub open spec fn of_code(code: u8) -> SecurityType {
        if code == 0 {
            SecurityType::Invalid
        } else if code == 1 {
            SecurityType::NoAuthentication
        } else if code == 2 {
            SecurityType::VncAuthentication
        } else if code == 30 {
            SecurityType::AppleRemoteDesktop
        } else {
            SecurityType::Unknown(code)
        }
    }

    /// A type with a name goes by its name.
    pub open spec fn wf(self) -> bool {
        SecurityType::of_code(self.code()) == self
    }

    /// The type's number on the wire.
    pub fn to_code(&self) -> (code: u8)
        ensures
            code == self.code(),
    {
        match self {
            SecurityType::Unknown(code) => *code,
            SecurityType::Invalid => 0,
            SecurityType::NoAuthentication => 1,
            SecurityType::VncAuthentication => 2,
            SecurityType::AppleRemoteDesktop => 30,
        }
    }

    /// The type that a number on the wire stands for.
    pub fn from_code(code: u8) -> (security: SecurityType)
        ensures
            security == SecurityType::of_code(code),
            security.wf(),
            security.code() == code,
    {
        if code == 0 {
            SecurityType::Invalid
        } else if code == 1 {
            SecurityType::NoAuthentication
        } else if code == 2 {
            SecurityType::VncAuthentication
        } else if code == 30 {
            SecurityType::AppleRemoteDesktop
        } else {
            SecurityType::Unknown(code)
        }
    }
}

/// The numbers of a list of security types, as they stand on the wire.
pub open spec fn security_codes(types: Seq<SecurityType>) -> Seq<u8> {
    Seq::new(types.len(), |i: int| types[i].code())
}

/// The list of security types that a server of version 3.7 or later
/// offers: a count in one byte, then one byte for each type.
pub open spec fn security_types_bytes(types: Seq<SecurityType>) -> Seq<u8> {
    seq![types.len() as u8] + security_codes(types)
}

/// Reading a list of security types at `at`.
pub open spec fn parse_security_types(data: Seq<u8>, at: int) -> Parsed<Seq<SecurityType>> {
    if !has_bytes(data, at, 1) {
        eof()
    } else if !has_bytes(data, at + 1, data[at] as int) {
        eof()
    } else {
        Ok(
            (
                Seq::new(data[at] as nat, |i: int| SecurityType::of_code(data[at + 1 + i])),
                at + 1 + data[at],
            ),
        )
    }
}

/// A list of at most 255 security types, each going by its name where it
/// has one, reads back as written.
pub proof fn lemma_security_types_round_trip(types: Seq<SecurityType>, data: Seq<u8>, at: int)
    requires
        types.len() <= 255,
        forall|i: int| 0 <= i < types.len() ==> (#[trigger] types[i]).wf(),
        holds_at(data, at, security_types_bytes(types)),
    ensures
        parse_security_types(data, at) == Ok::<(Seq<SecurityType>, int), Error>(
            (types, at + 1 + types.len()),
        ),
{
    let bytes = security_types_bytes(types);
    assert forall|i: int| 0 <= i < bytes.len() implies data[at + i] == bytes[i] by {
        assert(data.subrange(at, at + bytes.len())[i] == data[at + i]);
    }
    assert(data[at] == bytes[0]);
    let read = Seq::new(data[at] as nat, |i: int| SecurityType::of_code(data[at + 1 + i]));
    assert forall|i: int| 0 <= i < types.len() implies read[i] == types[i] by {
        assert(data[at + 1 + i] == bytes[1 + i]);
        assert(bytes[1 + i] == types[i].code());
        assert(types[i].wf());
    }
    assert(read =~= types);
}

/// Appends a list of security types.
pub fn write_security_types(out: &mut Vec<u8>, types: &Vec<SecurityType>)
    requires
        types@.len() <= 255,
    ensures
        final(out)@ == old(out)@ + security_types_bytes(types@),
{
    write_u8(out, types.len() as u8);
    let ghost start = out@;
    let mut i: usize = 0;
    assert(out@ =~= start + security_codes(types@).subrange(0, 0));
    while i < types.len()
        invariant
            i <= types.len(),
            out@ == start + security_codes(types@).subrange(0, i as int),
        decreases types.len() - i,
    {
        write_u8(out, types[i].to_code());
        i = i + 1;
        assert(out@ =~= start + security_codes(types@).subrange(0, i as int));
    }
    assert(security_codes(types@).subrange(0, types@.len() as int) =~= security_codes(types@));
    assert(out@ =~= old(out)@ + security_types_bytes(types@));
}

/// Reads a list of security types.
pub fn read_security_types(data: &[u8], at: usize) -> (res: Result<(Vec<SecurityType>, usize), Error>)
    ensures
        match parse_security_types(data@, at as int) {
            Ok((types, next)) => res is Ok && res->Ok_0.0@ == types && res->Ok_0.1 == next,
            Err(e) => res == Err::<(Vec<SecurityType>, usize), Error>(e),
        },
{
    let (count, next) = match read_u8(data, at) {
        Ok(read) => read,
        Err(e) => { return Err(e); },
    };
    if !available(data, next, count as usize) {
        return Err(Error::Io(IoError::UnexpectedEof));
    }
    let mut types: Vec<SecurityType> = Vec::new();
    let mut i: usize = 0;
    while i < count as usize
        invariant
            i <= count,
            next == at + 1,
            data@.len() <= usize::MAX,
            has_bytes(data@, next as int, count as int),
            types@ == Seq::new(i as nat, |k: int| SecurityType::of_code(data@[at + 1 + k])),
        decreases count - i,
    {
        types.push(SecurityType::from_code(data[next + i]));
        i = i + 1;
        assert(types@ =~= Seq::new(i as nat, |k: int| SecurityType::of_code(data@[at + 1 + k])));
    }
    Ok((types, next + count as usize))
}

/// Whether the server let the client in.
#[derive(Clone, Copy, Debug, PartialEq, Eq, Structural)]
pub enum SecurityResult {
    Succeeded,
    Failed,
}

impl SecurityResult {
    /// The result on the wire: four bytes, zero for success.
    pub open spec fn encoding(self) -> Seq<u8> {
        u32_bytes(if self is Succeeded { 0 } else { 1 })
    }

    /// Reading a result at `at`: any number but zero is a failure.
    pub open spec fn parse(data: Seq<u8>, at: int) -> Parsed<SecurityResult> {
        match parse_u32(data, at) {
            Ok((code, next)) => Ok(
                (if code == 0 { SecurityResult::Succeeded } else { SecurityResult::Failed }, next),
            ),
            Err(e) => Err(e),
        }
    }

    /// A result that is written and read back is the same result.
    pub proof fn lemma_round_trip(self, data: Seq<u8>, at: int)
        requires
            holds_at(data, at, self.encoding()),
        ensures
            SecurityResult::parse(data, at) == Ok::<(SecurityResult, int), Error>((self, at + 4)),
    {
        lemma_u32_round_trip(if self is Succeeded { 0 } else { 1 }, data, at);
    }

    /// Appends the result's four bytes.
    pub fn encode(&self, out: &mut Vec<u8>)
        ensures
            final(out)@ == old(out)@ + self.encoding(),
    {
        match self {
            SecurityResult::Succeeded => write_u32(out, 0),
            SecurityResult::Failed => write_u32(out, 1),
        }
    }

    /// Reads a result of four bytes.
    pub fn decode(data: &[u8], at: usize) -> (res: Result<(SecurityResult, usize), Error>)
        ensures
            match SecurityResult::parse(data@, at as int) {
                Ok((result, next)) => res is Ok && res->Ok_0.0 == result && res->Ok_0.1 == next,
                Err(e) => res == Err::<(SecurityResult, usize), Error>(e),
            },
    {
        match read_u32(data, at) {
            Ok((code, next)) => Ok(
                (if code == 0 { SecurityResult::Succeeded } else { SecurityResult::Failed }, next),
            ),
            Err(e) => Err(e),
        }
    }
}

/// The client's one message of initialisation: whether other clients may
/// stay connected.
#[derive(Clone, Copy, Debug, PartialEq, Eq, Structural)]
pub struct ClientInit {
    pub shared: bool,
}

impl ClientInit {
    /// The message on the wire: one byte.
    pub open spec fn encoding(self) -> Seq<u8> {
        seq![flag_byte(self.shared)]
    }

    /// Reading the message at `at`.
    pub open spec fn parse(data: Seq<u8>, at: int) -> Parsed<ClientInit> {
        match parse_u8(data, at) {
            Ok((byte, next)) => Ok((ClientInit { shared: byte != 0 }, next)),
            Err(e) => Err(e),
        }
    }

    /// The message that is written and read back is the same message.
    pub proof fn lemma_round_trip(self, data: Seq<u8>, at: int)
        requires
            holds_at(data, at, self.encoding()),
        ensures
            ClientInit::parse(data, at) == Ok::<(ClientInit, int), Error>((self, at + 1)),
    {
        assert(data.subrange(at, at + 1)[0] == data[at]);
    }

    /// Appends the message's byte.
    pub fn encode(&self, out: &mut Vec<u8>)
        ensures
            final(out)@ == old(out)@ + self.encoding(),
    {
        write_u8(out, if self.shared { 1 } else { 0 });
    }

    /// Reads the message.
    pub fn decode(data: &[u8], at: usize) -> (res: Result<(ClientInit, usize), Error>)
        ensures
            match ClientInit::parse(data@, at as int) {
                Ok((init, next)) => res is Ok && res->Ok_0.0 == init && res->Ok_0.1 == next,
                Err(e) => res == Err::<(ClientInit, usize), Error>(e),
            },
    {
        match read_u8(data, at) {
            Ok((byte, next)) => Ok((ClientInit { shared: byte != 0 }, next)),
            Err(e) => Err(e),
        }
    }
}

/// The server's message of initialisation: the size of its framebuffer,
/// its pixel format and the name of its desktop.
#[derive(Clone, Debug, PartialEq, Eq)]
pub struct ServerInit {
    pub framebuffer_width: u16,
    pub framebuffer_height: u16,
    pub pixel_format: PixelFormat,
    pub name: Vec<u8>,
}

/// A server's message of initialisation, as a value.
pub struct ServerInitView {
    pub framebuffer_width: u16,
    pub framebuffer_height: u16,
    pub pixel_format: PixelFormat,
    pub name: Seq<u8>,
}

impl View for ServerInit {
    type V = ServerInitView;

    open spec fn view(&self) -> ServerInitView {
        ServerInitView {
            framebuffer_width: self.framebuffer_width,
            framebuffer_height: self.framebuffer_height,
            pixel_format: self.pixel_format,
            name: self.name@,
        }
    }
}

impl ServerInitView {
    /// The name's length fits in four bytes.
    pub open spec fn wf(self) -> bool {
        self.name.len() <= u32::MAX
    }

    /// The message on the wire: width, height, pixel format, then the name
    /// as a byte string.
    pub open spec fn encoding(self) -> Seq<u8> {
        u16_bytes(self.framebuffer_width) + u16_bytes(self.framebuffer_height)
            + self.pixel_format.encoding() + string_bytes(self.name)
    }

    /// Reading the message at `at`.
    pub open spec fn parse(data: Seq<u8>, at: int) -> Parsed<ServerInitView> {
        match parse_u16(data, at) {
            Ok((framebuffer_width, _)) => match parse_u16(data, at + 2) {
                Ok((framebuffer_height, _)) => match PixelFormat::parse(data, at + 4) {
                    Ok((pixel_format, _)) => match parse_string(data, at + 20) {
                        Ok((name, next)) => Ok(
                            (
                                ServerInitView {
                                    framebuffer_width,
                                    framebuffer_height,
                                    pixel_format,
                                    name,
                                },
                                next,
                            ),
                        ),
                        Err(e) => Err(e),
                    },
                    Err(e) => Err(e),
                },
                Err(e) => Err(e),
            },
            Err(e) => Err(e),
        }
    }

    /// The message that is written and read back is the same message.
    pub proof fn lemma_round_trip(self, data: Seq<u8>, at: int)
        requires
            self.wf(),
            holds_at(data, at, self.encoding()),
        ensures
            ServerInitView::parse(data, at) == Ok::<(ServerInitView, int), Error>(
                (self, at + self.encoding().len()),
            ),
    {
        let bytes = self.encoding();
        let format = self.pixel_format.encoding();
        let name = string_bytes(self.name);
        assert(format.len() == 16);
        assert(bytes.subrange(0, 2) =~= u16_bytes(self.framebuffer_width));
        assert(bytes.subrange(2, 4) =~= u16_bytes(self.framebuffer_height));
        assert(bytes.subrange(4, 20) =~= format);
        assert(bytes.subrange(20, 20 + name.len() as int) =~= name);
        lemma_holds_part(data, at, bytes, 0, u16_bytes(self.framebuffer_width));
        lemma_holds_part(data, at, bytes, 2, u16_bytes(self.framebuffer_height));
        lemma_holds_part(data, at, bytes, 4, format);
        lemma_holds_part(data, at, bytes, 20, name);
        lemma_u16_round_trip(self.framebuffer_width, data, at);
        lemma_u16_round_trip(self.framebuffer_height, data, at + 2);
        self.pixel_format.lemma_round_trip(data, at + 4);
        lemma_string_round_trip(self.name, data, at + 20);
    }
}

impl ServerInit {
    /// Appends the message.
    pub fn encode(&self, out: &mut Vec<u8>)
        requires
            self@.wf(),
        ensures
            final(out)@ == old(out)@ + self@.encoding(),
    {
        write_u16(out, self.framebuffer_width);
        write_u16(out, self.framebuffer_height);
        self.pixel_format.encode(out);
        write_string(out, self.name.as_slice());
        assert(out@ =~= old(out)@ + self@.encoding());
    }

    /// Reads the message.
    pub fn decode(data: &[u8], at: usize) -> (res: Result<(ServerInit, usize), Error>)
        ensures
            match ServerInitView::parse(data@, at as int) {
                Ok((init, next)) => res is Ok && res->Ok_0.0@ == init && res->Ok_0.1 == next,
                Err(e) => res == Err::<(ServerInit, usize), Error>(e),
            },
    {
        let (framebuffer_width, next) = match read_u16(data, at) {
            Ok(read) => read,
            Err(e) => { return Err(e); },
        };
        let (framebuffer_height, next) = match read_u16(data, next) {
            Ok(read) => read,
            Err(e) => { return Err(e); },
        };
        let (pixel_format, next) = match PixelFormat::decode(data, next) {
            Ok(read) => read,
            Err(e) => { return Err(e); },
        };
        let (name, next) = match read_string(data, next) {
            Ok(read) => read,
            Err(e) => { return Err(e); },
        };
        Ok((ServerInit { framebuffer_width, framebuffer_height, pixel_format, name }, next))
    }
}

/// The numbers of a list of encodings as they stand on the wire: four bytes
/// each.
pub open spec fn encoding_codes(encodings: Seq<Encoding>) -> Seq<u8> {
    Seq::new(4 * encodings.len(), |i: int| i32_bytes(encodings[i / 4].code())[i % 4])
}

/// The `count` encodings whose numbers stand at `at`.
pub open spec fn encodings_at(data: Seq<u8>, at: int, count: nat) -> Seq<Encoding> {
    Seq::new(count, |i: int| Encoding::of_code(parse_i32(data, at + 4 * i)->Ok_0.0))
}

/// A message from the client to the server.
#[derive(Clone, Debug, PartialEq, Eq)]
pub enum C2S {
    SetPixelFormat(PixelFormat),
    SetEncodings(Vec<Encoding>),
    FramebufferUpdateRequest { incremental: bool, rect: Rect },
    KeyEvent { down: bool, key: u32 },
    PointerEvent { button_mask: u8, x_position: u16, y_position: u16 },
    CutText(Vec<u8>),
}

/// A message from the client to the server, as a value.
pub enum C2SView {
    SetPixelFormat(PixelFormat),
    SetEncodings(Seq<Encoding>),
    FramebufferUpdateRequest { incremental: bool, rect: Rect },
    KeyEvent { down: bool, key: u32 },
    PointerEvent { button_mask: u8, x_position: u16, y_position: u16 },
    CutText(Seq<u8>),
}

impl View for C2S {
    type V = C2SView;

    open spec fn view(&self) -> C2SView {
        match self {
            C2S::SetPixelFormat(format) => C2SView::SetPixelFormat(*format),
            C2S::SetEncodings(encodings) => C2SView::SetEncodings(encodings@),
            C2S::FramebufferUpdateRequest { incremental, rect } => {
                C2SView::FramebufferUpdateRequest { incremental: *incremental, rect: *rect }
            },
            C2S::KeyEvent { down, key } => C2SView::KeyEvent { down: *down, key: *key },
            C2S::PointerEvent { button_mask, x_position, y_position } => C2SView::PointerEvent {
                button_mask: *button_mask,
                x_position: *x_position,
                y_position: *y_position,
            },
            C2S::CutText(text) => C2SView::CutText(text@),
        }
    }
}

impl C2SView {
    /// The message can be written: its counts fit in their fields.
    pub open spec fn fits(self) -> bool {
        match self {
            C2SView::SetEncodings(encodings) => encodings.len() <= 0xffff,
            C2SView::CutText(text) => text.len() <= u32::MAX,
            _ => true,
        }
    }

    /// The message can be written, and its encodings go by their names.
    pub open spec fn wf(self) -> bool {
        &&& self.fits()
        &&& match self {
            C2SView::SetEncodings(encodings) => forall|i: int|
                0 <= i < encodings.len() ==> (#[trigger] encodings[i]).wf(),
            _ => true,
        }
    }

    /// The message on the wire: a tag of one byte, then padding and fields
    /// as the tag calls for.
    pub open spec fn encoding(self) -> Seq<u8> {
        match self {
            C2SView::SetPixelFormat(format) => seq![0u8, 0u8, 0u8, 0u8] + format.encoding(),
            C2SView::SetEncodings(encodings) => seq![2u8, 0u8] + u16_bytes(encodings.len() as u16)
                + encoding_codes(encodings),
            C2SView::FramebufferUpdateRequest { incremental, rect } => seq![
                3u8,
                flag_byte(incremental),
            ] + rect.encoding(),
            C2SView::KeyEvent { down, key } => seq![4u8, flag_byte(down), 0u8, 0u8] + u32_bytes(
                key,
            ),
            C2SView::PointerEvent { button_mask, x_position, y_position } => seq![
                5u8,
                button_mask,
            ] + u16_bytes(x_position) + u16_bytes(y_position),
            C2SView::CutText(text) => seq![6u8, 0u8, 0u8, 0u8] + string_bytes(text),
        }
    }

    /// Reading a message at `at`. A message that is cut short anywhere is a
    /// short read; a tag that no message has is an error of the protocol.
    pub open spec fn parse(data: Seq<u8>, at: int) -> Parsed<C2SView> {
        if !has_bytes(data, at, 1) {
            eof()
        } else if data[at] == 0 {
            match PixelFormat::parse(data, at + 4) {
                Ok((format, next)) => Ok((C2SView::SetPixelFormat(format), next)),
                Err(e) => Err(e),
            }
        } else if data[at] == 2 {
            match parse_u16(data, at + 2) {
                Ok((count, next)) => if has_bytes(data, next, 4 * count) {
                    Ok(
                        (
                            C2SView::SetEncodings(encodings_at(data, next, count as nat)),
                            next + 4 * count,
                        ),
                    )
                } else {
                    eof()
                },
                Err(e) => Err(e),
            }
        } else if data[at] == 3 {
            match Rect::parse(data, at + 2) {
                Ok((rect, next)) => Ok(
                    (C2SView::FramebufferUpdateRequest { incremental: data[at + 1] != 0, rect }, next),
                ),
                Err(e) => Err(e),
            }
        } else if data[at] == 4 {
            match parse_u32(data, at + 4) {
                Ok((key, next)) => Ok((C2SView::KeyEvent { down: data[at + 1] != 0, key }, next)),
                Err(e) => Err(e),
            }
        } else if data[at] == 5 {
            if has_bytes(data, at, 6) {
                Ok(
                    (
                        C2SView::PointerEvent {
                            button_mask: data[at + 1],
                            x_position: parse_u16(data, at + 2)->Ok_0.0,
                            y_position: parse_u16(data, at + 4)->Ok_0.0,
                        },
                        at + 6,
                    ),
                )
            } else {
                eof()
            }
        } else if data[at] == 6 {
            match parse_string(data, at + 4) {
                Ok((text, next)) => Ok((C2SView::CutText(text), next)),
                Err(e) => Err(e),
            }
        } else {
            Err(Error::Unexpected("client to server message type"))
        }
    }

    /// Every message from the client that is written and read back is the
    /// same message, whatever stands before and behind its bytes.
    pub proof fn lemma_round_trip(self, data: Seq<u8>, at: int)
        requires
            self.wf(),
            holds_at(data, at, self.encoding()),
        ensures
            C2SView::parse(data, at) == Ok::<(C2SView, int), Error>(
                (self, at + self.encoding().len()),
            ),
    {
        match self {
            C2SView::SetPixelFormat(_) => lemma_set_pixel_format_round_trip(self, data, at),
            C2SView::SetEncodings(_) => lemma_set_encodings_round_trip(self, data, at),
            C2SView::FramebufferUpdateRequest { .. } => lemma_update_request_round_trip(
                self,
                data,
                at,
            ),
            C2SView::KeyEvent { .. } => lemma_key_event_round_trip(self, data, at),
            C2SView::PointerEvent { .. } => lemma_pointer_event_round_trip(self, data, at),
            C2SView::CutText(_) => lemma_client_cut_text_round_trip(self, data, at),
        }
    }
}

proof fn lemma_set_pixel_format_round_trip(message: C2SView, data: Seq<u8>, at: int)
    requires
        message is SetPixelFormat,
        message.wf(),
        holds_at(data, at, message.encoding()),
    ensures
        C2SView::parse(data, at) == Ok::<(C2SView, int), Error>(
            (message, at + message.encoding().len()),
        ),
{
    let format = message->SetPixelFormat_0;
    let bytes = message.encoding();
    assert(format.encoding().len() == 16);
    lemma_byte_at(data, at, bytes, 0);
    assert(bytes.subrange(4, 20) =~= format.encoding());
    lemma_holds_part(data, at, bytes, 4, format.encoding());
    format.lemma_round_trip(data, at + 4);
}

#[verifier::rlimit(40)]
proof fn lemma_set_encodings_round_trip(message: C2SView, data: Seq<u8>, at: int)
    requires
        message is SetEncodings,
        message.wf(),
        holds_at(data, at, message.encoding()),
    ensures
        C2SView::parse(data, at) == Ok::<(C2SView, int), Error>(
            (message, at + message.encoding().len()),
        ),
{
    let encodings = message->SetEncodings_0;
    let bytes = message.encoding();
    let count = encodings.len() as u16;
    lemma_byte_at(data, at, bytes, 0);
    assert(bytes.subrange(2, 4) =~= u16_bytes(count));
    lemma_holds_part(data, at, bytes, 2, u16_bytes(count));
    lemma_u16_round_trip(count, data, at + 2);
    let read = encodings_at(data, at + 4, count as nat);
    assert forall|i: int| 0 <= i < encodings.len() implies read[i] == encodings[i] by {
        let code = i32_bytes(encodings[i].code());
        assert forall|j: int| 0 <= j < 4 implies bytes[4 + 4 * i + j] == code[j] by {
            assert(bytes[4 + 4 * i + j] == encoding_codes(encodings)[4 * i + j]);
            assert((4 * i + j) / 4 == i && (4 * i + j) % 4 == j);
        }
        assert(bytes.subrange(4 + 4 * i, 4 + 4 * i + 4) =~= code);
        lemma_holds_part(data, at, bytes, 4 + 4 * i, code);
        lemma_i32_round_trip(encodings[i].code(), data, at + 4 + 4 * i);
        assert(encodings[i].wf());
    }
    assert(read =~= encodings);
}

proof fn lemma_update_request_round_trip(message: C2SView, data: Seq<u8>, at: int)
    requires
        message is FramebufferUpdateRequest,
        message.wf(),
        holds_at(data, at, message.encoding()),
    ensures
        C2SView::parse(data, at) == Ok::<(C2SView, int), Error>(
            (message, at + message.encoding().len()),
        ),
{
    let incremental = message->incremental;
    let rect = message->rect;
    let bytes = message.encoding();
    assert(rect.encoding().len() == 8);
    lemma_byte_at(data, at, bytes, 0);
    lemma_byte_at(data, at, bytes, 1);
    assert(bytes.subrange(2, 10) =~= rect.encoding());
    lemma_holds_part(data, at, bytes, 2, rect.encoding());
    rect.lemma_round_trip(data, at + 2);
}

proof fn lemma_key_event_round_trip(message: C2SView, data: Seq<u8>, at: int)
    requires
        message is KeyEvent,
        message.wf(),
        holds_at(data, at, message.encoding()),
    ensures
        C2SView::parse(data, at) == Ok::<(C2SView, int), Error>(
            (message, at + message.encoding().len()),
        ),
{
    let down = message->down;
    let key = message->key;
    let bytes = message.encoding();
    lemma_byte_at(data, at, bytes, 0);
    lemma_byte_at(data, at, bytes, 1);
    assert(bytes.subrange(4, 8) =~= u32_bytes(key));
    lemma_holds_part(data, at, bytes, 4, u32_bytes(key));
    lemma_u32_round_trip(key, data, at + 4);
}

proof fn lemma_pointer_event_round_trip(message: C2SView, data: Seq<u8>, at: int)
    requires
        message is PointerEvent,
        message.wf(),
        holds_at(data, at, message.encoding()),
    ensures
        C2SView::parse(data, at) == Ok::<(C2SView, int), Error>(
            (message, at + message.encoding().len()),
        ),
{
    let button_mask = message->button_mask;
    let x_position = message->x_position;
    let y_position = message->y_position;
    let bytes = message.encoding();
    lemma_byte_at(data, at, bytes, 0);
    lemma_byte_at(data, at, bytes, 1);
    assert(bytes.subrange(2, 4) =~= u16_bytes(x_position));
    assert(bytes.subrange(4, 6) =~= u16_bytes(y_position));
    lemma_holds_part(data, at, bytes, 2, u16_bytes(x_position));
    lemma_holds_part(data, at, bytes, 4, u16_bytes(y_position));
    lemma_u16_round_trip(x_position, data, at + 2);
    lemma_u16_round_trip(y_position, data, at + 4);
}

proof fn lemma_client_cut_text_round_trip(message: C2SView, data: Seq<u8>, at: int)
    requires
        message is CutText,
        message.wf(),
        holds_at(data, at, message.encoding()),
    ensures
        C2SView::parse(data, at) == Ok::<(C2SView, int), Error>(
            (message, at + message.encoding().len()),
        ),
{
    let text = message->CutText_0;
    let bytes = message.encoding();
    lemma_byte_at(data, at, bytes, 0);
    assert(bytes.subrange(4, 4 + string_bytes(text).len() as int) =~= string_bytes(text));
    lemma_holds_part(data, at, bytes, 4, string_bytes(text));
    lemma_string_round_trip(text, data, at + 4);
}

/// Appends the numbers of a list of encodings, four bytes each.
pub fn write_encodings(out: &mut Vec<u8>, encodings: &[Encoding])
    ensures
        final(out)@ == old(out)@ + encoding_codes(encodings@),
{
    let mut i: usize = 0;
    assert(out@ =~= old(out)@ + encoding_codes(encodings@).subrange(0, 0));
    while i < encodings.len()
        invariant
            i <= encodings.len(),
            out@ == old(out)@ + encoding_codes(encodings@).subrange(0, 4 * i),
        decreases encodings.len() - i,
    {
        write_i32(out, encodings[i].to_code());
        proof {
            let code = i32_bytes(encodings@[i as int].code());
            let all = encoding_codes(encodings@);
            assert forall|j: int| 0 <= j < 4 implies all[4 * i + j] == code[j] by {
                assert((4 * i + j) / 4 == i && (4 * i + j) % 4 == j);
            }
            assert(all.subrange(0, 4 * (i + 1)) =~= all.subrange(0, 4 * i) + code);
            assert(out@ =~= old(out)@ + all.subrange(0, 4 * (i + 1)));
        }
        i = i + 1;
    }
    assert(encoding_codes(encodings@).subrange(0, 4 * encodings@.len() as int) =~= encoding_codes(
        encodings@,
    ));
}

/// Reads `count` encodings, four bytes each.
pub fn read_encodings(data: &[u8], at: usize, count: u16) -> (res: Result<
    (Vec<Encoding>, usize),
    Error,
>)
    ensures
        has_bytes(data@, at as int, 4 * count) ==> res is Ok && res->Ok_0.0@ == encodings_at(
            data@,
            at as int,
            count as nat,
        ) && res->Ok_0.1 == at + 4 * count,
        !has_bytes(data@, at as int, 4 * count) ==> res == Err::<(Vec<Encoding>, usize), Error>(
            Error::Io(IoError::UnexpectedEof),
        ),
{
    if !available(data, at, 4 * count as usize) {
        return Err(Error::Io(IoError::UnexpectedEof));
    }
    let mut encodings: Vec<Encoding> = Vec::new();
    let mut i: usize = 0;
    let mut next: usize = at;
    while i < count as usize
        invariant
            i <= count,
            next == at + 4 * i,
            data@.len() <= usize::MAX,
            has_bytes(data@, at as int, 4 * count),
            encodings@ == encodings_at(data@, at as int, i as nat),
        decreases count - i,
    {
        let (code, after) = match read_i32(data, next) {
            Ok(read) => read,
            Err(e) => { return Err(e); },
        };
        encodings.push(Encoding::from_code(code));
        i = i + 1;
        next = after;
        assert(encodings@ =~= encodings_at(data@, at as int, i as nat));
    }
    Ok((encodings, next))
}

impl C2S {
    /// Appends the message.
    pub fn encode(&self, out: &mut Vec<u8>)
        requires
            self@.fits(),
        ensures
            final(out)@ == old(out)@ + self@.encoding(),
    {
        match self {
            C2S::SetPixelFormat(format) => {
                write_u8(out, 0);
                write_padding(out, 3);
                format.encode(out);
            },
            C2S::SetEncodings(encodings) => {
                write_u8(out, 2);
                write_padding(out, 1);
                write_u16(out, encodings.len() as u16);
                write_encodings(out, encodings.as_slice());
            },
            C2S::FramebufferUpdateRequest { incremental, rect } => {
                write_u8(out, 3);
                write_u8(out, if *incremental { 1 } else { 0 });
                rect.encode(out);
            },
            C2S::KeyEvent { down, key } => {
                write_u8(out, 4);
                write_u8(out, if *down { 1 } else { 0 });
                write_padding(out, 2);
                write_u32(out, *key);
            },
            C2S::PointerEvent { button_mask, x_position, y_position } => {
                write_u8(out, 5);
                write_u8(out, *button_mask);
                write_u16(out, *x_position);
                write_u16(out, *y_position);
            },
            C2S::CutText(text) => {
                write_u8(out, 6);
                write_padding(out, 3);
                write_string(out, text.as_slice());
            },
        }
        assert(out@ =~= old(out)@ + self@.encoding());
    }

    /// Reads a message.
    pub fn decode(data: &[u8], at: usize) -> (res: Result<(C2S, usize), Error>)
        ensures
            match C2SView::parse(data@, at as int) {
                Ok((message, next)) => res is Ok && res->Ok_0.0@ == message && res->Ok_0.1 == next,
                Err(e) => res == Err::<(C2S, usize), Error>(e),
            },
    {
        let (tag, _) = match read_u8(data, at) {
            Ok(read) => read,
            Err(e) => { return Err(e); },
        };
        if tag == 0 {
            if !available(data, at, 20) {
                return Err(Error::Io(IoError::UnexpectedEof));
            }
            match PixelFormat::decode(data, at + 4) {
                Ok((format, next)) => Ok((C2S::SetPixelFormat(format), next)),
                Err(e) => Err(e),
            }
        } else if tag == 2 {
            if !available(data, at, 4) {
                return Err(Error::Io(IoError::UnexpectedEof));
            }
            let (count, next) = match read_u16(data, at + 2) {
                Ok(read) => read,
                Err(e) => { return Err(e); },
            };
            match read_encodings(data, next, count) {
                Ok((encodings, next)) => Ok((C2S::SetEncodings(encodings), next)),
                Err(e) => Err(e),
            }
        } else if tag == 3 {
            if !available(data, at, 10) {
                return Err(Error::Io(IoError::UnexpectedEof));
            }
            match Rect::decode(data, at + 2) {
                Ok((rect, next)) => Ok(
                    (C2S::FramebufferUpdateRequest { incremental: data[at + 1] != 0, rect }, next),
                ),
                Err(e) => Err(e),
            }
        } else if tag == 4 {
            if !available(data, at, 8) {
                return Err(Error::Io(IoError::UnexpectedEof));
            }
            match read_u32(data, at + 4) {
                Ok((key, next)) => Ok((C2S::KeyEvent { down: data[at + 1] != 0, key }, next)),
                Err(e) => Err(e),
            }
        } else if tag == 5 {
            if !available(data, at, 6) {
                return Err(Error::Io(IoError::UnexpectedEof));
            }
            let x_position = data[at + 2] as u16 * 256 + data[at + 3] as u16;
            let y_position = data[at + 4] as u16 * 256 + data[at + 5] as u16;
            Ok((C2S::PointerEvent { button_mask: data[at + 1], x_position, y_position }, at + 6))
        } else if tag == 6 {
            if !available(data, at, 8) {
                return Err(Error::Io(IoError::UnexpectedEof));
            }
            match read_string(data, at + 4) {
                Ok((text, next)) => Ok((C2S::CutText(text), next)),
                Err(e) => Err(e),
            }
        } else {
            Err(Error::Unexpected("client to server message type"))
        }
    }
}

/// One entry of a colour map.
#[derive(Clone, Copy, Debug, PartialEq, Eq, Structural)]
pub struct Colour {
    pub red: u16,
    pub green: u16,
    pub blue: u16,
}

impl Colour {
    /// The colour on the wire: red, green and blue, two bytes each.
    pub open spec fn encoding(self) -> Seq<u8> {
        u16_bytes(self.red) + u16_bytes(self.green) + u16_bytes(self.blue)
    }

    /// The colour that the six bytes at `at` stand for.
    pub open spec fn at(data: Seq<u8>, at: int) -> Colour {
        Colour {
            red: parse_u16(data, at)->Ok_0.0,
            green: parse_u16(data, at + 2)->Ok_0.0,
            blue: parse_u16(data, at + 4)->Ok_0.0,
        }
    }
}

/// A list of colours as it stands on the wire: six bytes each.
pub open spec fn colour_bytes(colours: Seq<Colour>) -> Seq<u8> {
    Seq::new(6 * colours.len(), |i: int| colours[i / 6].encoding()[i % 6])
}

/// The `count` colours that stand at `at`.
pub open spec fn colours_at(data: Seq<u8>, at: int, count: nat) -> Seq<Colour> {
    Seq::new(count, |i: int| Colour::at(data, at + 6 * i))
}

/// Bytes that one row of a cursor's mask takes: one bit for each pixel.
pub open spec fn mask_stride(width: int) -> int {
    (width + 7) / 8
}

/// The length of a rectangle's payload, where the rectangle and the
/// session's pixel format determine it.
pub open spec fn fixed_payload_len(format: PixelFormat, rect: Rect, encoding: Encoding) -> Option<
    int,
> {
    match encoding {
        Encoding::Raw => Some(rect.width * rect.height * format.bytes_per_pixel()),
        Encoding::CopyRect => Some(4),
        Encoding::Cursor => Some(
            rect.width * rect.height * format.bytes_per_pixel() + rect.height * mask_stride(
                rect.width as int,
            ),
        ),
        Encoding::DesktopSize => Some(0),
        _ => None,
    }
}

/// One rectangle of a framebuffer update: its place, its encoding and the
/// bytes that the encoding calls for. For ZRLE these are the compressed
/// bytes, without the length that stands before them on the wire.
#[derive(Clone, Debug, PartialEq, Eq)]
pub struct Rectangle {
    pub rect: Rect,
    pub encoding: Encoding,
    pub payload: Vec<u8>,
}

/// A rectangle of a framebuffer update, as a value.
pub struct RectangleView {
    pub rect: Rect,
    pub encoding: Encoding,
    pub payload: Seq<u8>,
}

impl View for Rectangle {
    type V = RectangleView;

    open spec fn view(&self) -> RectangleView {
        RectangleView { rect: self.rect, encoding: self.encoding, payload: self.payload@ }
    }
}

impl RectangleView {
    /// The payload has the length that its encoding calls for.
    pub open spec fn wf(self, format: PixelFormat) -> bool {
        if self.encoding is Zrle {
            self.payload.len() <= u32::MAX
        } else {
            fixed_payload_len(format, self.rect, self.encoding) == Some(self.payload.len() as int)
        }
    }

    /// The rectangle on the wire: its place, the number of its encoding,
    /// and its payload, for ZRLE with its length in front.
    pub open spec fn encoding_bytes(self) -> Seq<u8> {
        self.rect.encoding() + i32_bytes(self.encoding.code()) + (if self.encoding is Zrle {
            string_bytes(self.payload)
        } else {
            self.payload
        })
    }

    /// Reading a rectangle at `at`. An encoding that does not tell the
    /// length of its payload is an error of the protocol: the stream cannot
    /// be followed past it.
    pub open spec fn parse(format: PixelFormat, data: Seq<u8>, at: int) -> Parsed<RectangleView> {
        match Rect::parse(data, at) {
            Ok((rect, _)) => match parse_i32(data, at + 8) {
                Ok((code, _)) => {
                    let encoding = Encoding::of_code(code);
                    let payload = if encoding is Zrle {
                        parse_string(data, at + 12)
                    } else {
                        match fixed_payload_len(format, rect, encoding) {
                            Some(length) => parse_bytes(data, at + 12, length),
                            None => Err(Error::Unexpected("rectangle encoding")),
                        }
                    };
                    match payload {
                        Ok((payload, next)) => Ok((RectangleView { rect, encoding, payload }, next)),
                        Err(e) => Err(e),
                    }
                },
                Err(e) => Err(e),
            },
            Err(e) => Err(e),
        }
    }

    /// A rectangle that is written and read back is the same rectangle.
    pub proof fn lemma_round_trip(self, format: PixelFormat, data: Seq<u8>, at: int)
        requires
            self.wf(format),
            self.encoding.wf(),
            holds_at(data, at, self.encoding_bytes()),
        ensures
            RectangleView::parse(format, data, at) == Ok::<(RectangleView, int), Error>(
                (self, at + self.encoding_bytes().len()),
            ),
    {
        let bytes = self.encoding_bytes();
        let code = i32_bytes(self.encoding.code());
        let body = if self.encoding is Zrle {
            string_bytes(self.payload)
        } else {
            self.payload
        };
        assert(self.rect.encoding().len() == 8);
        assert(bytes.subrange(0, 8) =~= self.rect.encoding());
        assert(bytes.subrange(8, 12) =~= code);
        assert(bytes.subrange(12, 12 + body.len() as int) =~= body);
        lemma_holds_part(data, at, bytes, 0, self.rect.encoding());
        lemma_holds_part(data, at, bytes, 8, code);
        lemma_holds_part(data, at, bytes, 12, body);
        self.rect.lemma_round_trip(data, at);
        lemma_i32_round_trip(self.encoding.code(), data, at + 8);
        if self.encoding is Zrle {
            lemma_string_round_trip(self.payload, data, at + 12);
        }
    }
}

/// A list of rectangles as it stands on the wire: one after the other.
pub open spec fn rectangles_bytes(rectangles: Seq<RectangleView>) -> Seq<u8>
    decreases rectangles.len(),
{
    if rectangles.len() == 0 {
        Seq::empty()
    } else {
        rectangles[0].encoding_bytes() + rectangles_bytes(rectangles.skip(1))
    }
}

/// Reading `count` rectangles at `at`, one after the other.
pub open spec fn parse_rectangles(format: PixelFormat, data: Seq<u8>, at: int, count: nat) -> Parsed<
    Seq<RectangleView>,
>
    decreases count,
{
    if count == 0 {
        Ok((Seq::empty(), at))
    } else {
        match RectangleView::parse(format, data, at) {
            Ok((first, next)) => match parse_rectangles(format, data, next, (count - 1) as nat) {
                Ok((rest, end)) => Ok((seq![first] + rest, end)),
                Err(e) => Err(e),
            },
            Err(e) => Err(e),
        }
    }
}

/// The rectangles `front`, followed by what `rest` was read as.
pub open spec fn prepend_rectangles(
    front: Seq<RectangleView>,
    rest: Parsed<Seq<RectangleView>>,
) -> Parsed<Seq<RectangleView>> {
    match rest {
        Ok((rectangles, next)) => Ok((front + rectangles, next)),
        Err(e) => Err(e),
    }
}

/// The bytes of a list with one more rectangle at its end.
pub proof fn lemma_rectangles_bytes_push(rectangles: Seq<RectangleView>, last: RectangleView)
    ensures
        rectangles_bytes(rectangles.push(last)) == rectangles_bytes(rectangles)
            + last.encoding_bytes(),
    decreases rectangles.len(),
{
    let longer = rectangles.push(last);
    if rectangles.len() == 0 {
        assert(longer.skip(1) =~= Seq::<RectangleView>::empty());
        assert(rectangles_bytes(longer.skip(1)) == Seq::<u8>::empty());
        assert(rectangles_bytes(longer) =~= last.encoding_bytes());
        assert(rectangles_bytes(rectangles) + last.encoding_bytes() =~= last.encoding_bytes());
    } else {
        assert(longer.skip(1) =~= rectangles.skip(1).push(last));
        lemma_rectangles_bytes_push(rectangles.skip(1), last);
        assert(rectangles[0].encoding_bytes() + (rectangles_bytes(rectangles.skip(1))
            + last.encoding_bytes()) =~= (rectangles[0].encoding_bytes() + rectangles_bytes(
            rectangles.skip(1),
        )) + last.encoding_bytes());
    }
}

/// A list of rectangles that is written and read back is the same list.
#[verifier::rlimit(40)]
pub proof fn lemma_rectangles_round_trip(
    rectangles: Seq<RectangleView>,
    format: PixelFormat,
    data: Seq<u8>,
    at: int,
)
    requires
        forall|i: int|
            0 <= i < rectangles.len() ==> (#[trigger] rectangles[i]).wf(format)
                && rectangles[i].encoding.wf(),
        holds_at(data, at, rectangles_bytes(rectangles)),
    ensures
        parse_rectangles(format, data, at, rectangles.len()) == Ok::<
            (Seq<RectangleView>, int),
            Error,
        >((rectangles, at + rectangles_bytes(rectangles).len())),
    decreases rectangles.len(),
{
    if rectangles.len() == 0 {
        assert(rectangles =~= Seq::<RectangleView>::empty());
    } else {
        let first = rectangles[0];
        let rest = rectangles.skip(1);
        let bytes = rectangles_bytes(rectangles);
        let head = first.encoding_bytes();
        let tail = rectangles_bytes(rest);
        assert(first.wf(format) && first.encoding.wf());
        assert(bytes.subrange(0, head.len() as int) =~= head);
        assert(bytes.subrange(head.len() as int, head.len() as int + tail.len() as int) =~= tail);
        lemma_holds_part(data, at, bytes, 0, head);
        lemma_holds_part(data, at, bytes, head.len() as int, tail);
        first.lemma_round_trip(format, data, at);
        assert forall|i: int| 0 <= i < rest.len() implies (#[trigger] rest[i]).wf(format)
            && rest[i].encoding.wf() by {
            assert(rest[i] == rectangles[i + 1]);
        }
        lemma_rectangles_round_trip(rest, format, data, at + head.len());
        assert(seq![first] + rest =~= rectangles);
    }
}

/// The rectangles of a sequence, as values.
pub open spec fn rectangles_view(rectangles: Seq<Rectangle>) -> Seq<RectangleView> {
    rectangles.map_values(|rectangle: Rectangle| rectangle@)
}

/// A message from the server to the client.
#[derive(Clone, Debug, PartialEq, Eq)]
pub enum S2C {
    FramebufferUpdate { rectangles: Vec<Rectangle> },
    SetColourMapEntries { first_colour: u16, colours: Vec<Colour> },
    Bell,
    CutText(Vec<u8>),
}

/// A message from the server to the client, as a value.
pub enum S2CView {
    FramebufferUpdate { rectangles: Seq<RectangleView> },
    SetColourMapEntries { first_colour: u16, colours: Seq<Colour> },
    Bell,
    CutText(Seq<u8>),
}

impl View for S2C {
    type V = S2CView;

    open spec fn view(&self) -> S2CView {
        match self {
            S2C::FramebufferUpdate { rectangles } => S2CView::FramebufferUpdate {
                rectangles: rectangles_view(rectangles@),
            },
            S2C::SetColourMapEntries { first_colour, colours } => S2CView::SetColourMapEntries {
                first_colour: *first_colour,
                colours: colours@,
            },
            S2C::Bell => S2CView::Bell,
            S2C::CutText(text) => S2CView::CutText(text@),
        }
    }
}

impl S2CView {
    /// The message can be written: its counts fit in their fields.
    pub open spec fn fits(self) -> bool {
        match self {
            S2CView::FramebufferUpdate { rectangles } => rectangles.len() <= 0xffff && forall|
                i: int,
            |
                0 <= i < rectangles.len() ==> (#[trigger] rectangles[i]).encoding is Zrle
                    ==> rectangles[i].payload.len() <= u32::MAX,
            S2CView::SetColourMapEntries { first_colour, colours } => colours.len() <= 0xffff,
            S2CView::Bell => true,
            S2CView::CutText(text) => text.len() <= u32::MAX,
        }
    }

    /// The message can be written, and a reader that knows the session's
    /// pixel format can tell where each of its rectangles ends.
    pub open spec fn wf(self, format: PixelFormat) -> bool {
        &&& self.fits()
        &&& match self {
            S2CView::FramebufferUpdate { rectangles } => forall|i: int|
                0 <= i < rectangles.len() ==> (#[trigger] rectangles[i]).wf(format)
                    && rectangles[i].encoding.wf(),
            _ => true,
        }
    }

    /// The message on the wire: a tag of one byte, then padding and fields
    /// as the tag calls for.
    pub open spec fn encoding(self) -> Seq<u8> {
        match self {
            S2CView::FramebufferUpdate { rectangles } => seq![0u8, 0u8] + u16_bytes(
                rectangles.len() as u16,
            ) + rectangles_bytes(rectangles),
            S2CView::SetColourMapEntries { first_colour, colours } => seq![1u8, 0u8] + u16_bytes(
                first_colour,
            ) + u16_bytes(colours.len() as u16) + colour_bytes(colours),
            S2CView::Bell => seq![2u8],
            S2CView::CutText(text) => seq![3u8, 0u8, 0u8, 0u8] + string_bytes(text),
        }
    }

    /// Reading a message at `at`, in a session with the given pixel format.
    /// A message that is cut short anywhere is a short read; a tag that no
    /// message has is an error of the protocol.
    pub open spec fn parse(format: PixelFormat, data: Seq<u8>, at: int) -> Parsed<S2CView> {
        if !has_bytes(data, at, 1) {
            eof()
        } else if data[at] == 0 {
            match parse_u16(data, at + 2) {
                Ok((count, next)) => match parse_rectangles(format, data, next, count as nat) {
                    Ok((rectangles, end)) => Ok((S2CView::FramebufferUpdate { rectangles }, end)),
                    Err(e) => Err(e),
                },
                Err(e) => Err(e),
            }
        } else if data[at] == 1 {
            match parse_u16(data, at + 4) {
                Ok((count, next)) => if has_bytes(data, next, 6 * count) {
                    Ok(
                        (
                            S2CView::SetColourMapEntries {
                                first_colour: parse_u16(data, at + 2)->Ok_0.0,
                                colours: colours_at(data, next, count as nat),
                            },
                            next + 6 * count,
                        ),
                    )
                } else {
                    eof()
                },
                Err(e) => Err(e),
            }
        } else if data[at] == 2 {
            Ok((S2CView::Bell, at + 1))
        } else if data[at] == 3 {
            match parse_string(data, at + 4) {
                Ok((text, next)) => Ok((S2CView::CutText(text), next)),
                Err(e) => Err(e),
            }
        } else {
            Err(Error::Unexpected("server to client message type"))
        }
    }

    /// Every message from the server that is written and read back is the
    /// same message, whatever stands before and behind its bytes.
    pub proof fn lemma_round_trip(self, format: PixelFormat, data: Seq<u8>, at: int)
        requires
            self.wf(format),
            holds_at(data, at, self.encoding()),
        ensures
            S2CView::parse(format, data, at) == Ok::<(S2CView, int), Error>(
                (self, at + self.encoding().len()),
            ),
    {
        match self {
            S2CView::FramebufferUpdate { .. } => lemma_update_round_trip(self, format, data, at),
            S2CView::SetColourMapEntries { .. } => lemma_colour_map_round_trip(
                self,
                format,
                data,
                at,
            ),
            S2CView::Bell => {
                lemma_byte_at(data, at, self.encoding(), 0);
            },
            S2CView::CutText(_) => lemma_server_cut_text_round_trip(self, format, data, at),
        }
    }
}

proof fn lemma_update_round_trip(message: S2CView, format: PixelFormat, data: Seq<u8>, at: int)
    requires
        message is FramebufferUpdate,
        message.wf(format),
        holds_at(data, at, message.encoding()),
    ensures
        S2CView::parse(format, data, at) == Ok::<(S2CView, int), Error>(
            (message, at + message.encoding().len()),
        ),
{
    let rectangles = message->rectangles;
    let bytes = message.encoding();
    let count = rectangles.len() as u16;
    let list = rectangles_bytes(rectangles);
    lemma_byte_at(data, at, bytes, 0);
    assert(bytes.subrange(2, 4) =~= u16_bytes(count));
    assert(bytes.subrange(4, 4 + list.len() as int) =~= list);
    lemma_holds_part(data, at, bytes, 2, u16_bytes(count));
    lemma_holds_part(data, at, bytes, 4, list);
    lemma_u16_round_trip(count, data, at + 2);
    lemma_rectangles_round_trip(rectangles, format, data, at + 4);
}

proof fn lemma_colour_round_trip(colour: Colour, data: Seq<u8>, at: int)
    requires
        holds_at(data, at, colour.encoding()),
    ensures
        Colour::at(data, at) == colour,
{
    let bytes = colour.encoding();
    assert(bytes.subrange(0, 2) =~= u16_bytes(colour.red));
    assert(bytes.subrange(2, 4) =~= u16_bytes(colour.green));
    assert(bytes.subrange(4, 6) =~= u16_bytes(colour.blue));
    lemma_holds_part(data, at, bytes, 0, u16_bytes(colour.red));
    lemma_holds_part(data, at, bytes, 2, u16_bytes(colour.green));
    lemma_holds_part(data, at, bytes, 4, u16_bytes(colour.blue));
    lemma_u16_round_trip(colour.red, data, at);
    lemma_u16_round_trip(colour.green, data, at + 2);
    lemma_u16_round_trip(colour.blue, data, at + 4);
}

#[verifier::rlimit(40)]
proof fn lemma_colour_map_round_trip(message: S2CView, format: PixelFormat, data: Seq<u8>, at: int)
    requires
        message is SetColourMapEntries,
        message.wf(format),
        holds_at(data, at, message.encoding()),
    ensures
        S2CView::parse(format, data, at) == Ok::<(S2CView, int), Error>(
            (message, at + message.encoding().len()),
        ),
{
    let first_colour = message->first_colour;
    let colours = message->colours;
    let bytes = message.encoding();
    let count = colours.len() as u16;
    lemma_byte_at(data, at, bytes, 0);
    assert(bytes.subrange(2, 4) =~= u16_bytes(first_colour));
    assert(bytes.subrange(4, 6) =~= u16_bytes(count));
    lemma_holds_part(data, at, bytes, 2, u16_bytes(first_colour));
    lemma_holds_part(data, at, bytes, 4, u16_bytes(count));
    lemma_u16_round_trip(first_colour, data, at + 2);
    lemma_u16_round_trip(count, data, at + 4);
    let read = colours_at(data, at + 6, count as nat);
    assert forall|i: int| 0 <= i < colours.len() implies read[i] == colours[i] by {
        let colour = colours[i].encoding();
        assert forall|j: int| 0 <= j < 6 implies bytes[6 + 6 * i + j] == colour[j] by {
            assert(bytes[6 + 6 * i + j] == colour_bytes(colours)[6 * i + j]);
            assert((6 * i + j) / 6 == i && (6 * i + j) % 6 == j);
        }
        assert(bytes.subrange(6 + 6 * i, 6 + 6 * i + 6) =~= colour);
        lemma_holds_part(data, at, bytes, 6 + 6 * i, colour);
        lemma_colour_round_trip(colours[i], data, at + 6 + 6 * i);
    }
    assert(read =~= colours);
}

proof fn lemma_server_cut_text_round_trip(message: S2CView, format: PixelFormat, data: Seq<u8>, at: int)
    requires
        message is CutText,
        message.wf(format),
        holds_at(data, at, message.encoding()),
    ensures
        S2CView::parse(format, data, at) == Ok::<(S2CView, int), Error>(
            (message, at + message.encoding().len()),
        ),
{
    let text = message->CutText_0;
    let bytes = message.encoding();
    lemma_byte_at(data, at, bytes, 0);
    assert(bytes.subrange(4, 4 + string_bytes(text).len() as int) =~= string_bytes(text));
    lemma_holds_part(data, at, bytes, 4, string_bytes(text));
    lemma_string_round_trip(text, data, at + 4);
}

/// The length of a rectangle's payload, where the rectangle and the
/// session's pixel format determine it.
pub fn payload_length(format: &PixelFormat, rect: &Rect, encoding: Encoding) -> (length: Option<u64>)
    ensures
        match fixed_payload_len(*format, *rect, encoding) {
            Some(expected) => length == Some(expected as u64) && expected <= u64::MAX,
            None => length is None,
        },
{
    let width = rect.width as u64;
    let height = rect.height as u64;
    let pixel = (format.bits_per_pixel / 8) as u64;
    assert(width * height <= 0xffff * 0xffff && width * height * pixel <= 0xffff * 0xffff * 31
        && height * ((width + 7) / 8) <= 0xffff * 0x2000) by (nonlinear_arith)
        requires
            width <= 0xffff,
            height <= 0xffff,
            pixel <= 31,
    ;
    match encoding {
        Encoding::Raw => Some(width * height * pixel),
        Encoding::CopyRect => Some(4),
        Encoding::Cursor => Some(width * height * pixel + height * ((width + 7) / 8)),
        Encoding::DesktopSize => Some(0),
        _ => None,
    }
}

impl Rectangle {
    /// Appends the rectangle.
    pub fn encode(&self, out: &mut Vec<u8>)
        requires
            self.encoding is Zrle ==> self.payload@.len() <= u32::MAX,
        ensures
            final(out)@ == old(out)@ + self@.encoding_bytes(),
    {
        self.rect.encode(out);
        write_i32(out, self.encoding.to_code());
        match self.encoding {
            Encoding::Zrle => write_string(out, self.payload.as_slice()),
            _ => write_bytes(out, self.payload.as_slice()),
        }
        assert(out@ =~= old(out)@ + self@.encoding_bytes());
    }

    /// Reads a rectangle, in a session with the given pixel format.
    pub fn decode(format: &PixelFormat, data: &[u8], at: usize) -> (res: Result<
        (Rectangle, usize),
        Error,
    >)
        ensures
            match RectangleView::parse(*format, data@, at as int) {
                Ok((rectangle, next)) => res is Ok && res->Ok_0.0@ == rectangle && res->Ok_0.1
                    == next,
                Err(e) => res == Err::<(Rectangle, usize), Error>(e),
            },
    {
        let (rect, next) = match Rect::decode(data, at) {
            Ok(read) => read,
            Err(e) => { return Err(e); },
        };
        let (code, next) = match read_i32(data, next) {
            Ok(read) => read,
            Err(e) => { return Err(e); },
        };
        let encoding = Encoding::from_code(code);
        let (payload, next) = match encoding {
            Encoding::Zrle => match read_string(data, next) {
                Ok(read) => read,
                Err(e) => { return Err(e); },
            },
            _ => {
                let length = match payload_length(format, &rect, encoding) {
                    Some(length) => length,
                    None => { return Err(Error::Unexpected("rectangle encoding")); },
                };
                if length > data.len() as u64 {
                    return Err(Error::Io(IoError::UnexpectedEof));
                }
                match read_bytes(data, next, length as usize) {
                    Ok((bytes, end)) => (slice_to_vec(bytes), end),
                    Err(e) => { return Err(e); },
                }
            },
        };
        Ok((Rectangle { rect, encoding, payload }, next))
    }
}

/// Appends a list of colours, six bytes each.
pub fn write_colours(out: &mut Vec<u8>, colours: &[Colour])
    ensures
        final(out)@ == old(out)@ + colour_bytes(colours@),
{
    let mut i: usize = 0;
    assert(out@ =~= old(out)@ + colour_bytes(colours@).subrange(0, 0));
    while i < colours.len()
        invariant
            i <= colours.len(),
            out@ == old(out)@ + colour_bytes(colours@).subrange(0, 6 * i),
        decreases colours.len() - i,
    {
        let ghost earlier = out@;
        write_u16(out, colours[i].red);
        write_u16(out, colours[i].green);
        write_u16(out, colours[i].blue);
        proof {
            let colour = colours@[i as int].encoding();
            let all = colour_bytes(colours@);
            assert(out@ =~= earlier + colour);
            assert forall|j: int| 0 <= j < 6 implies all[6 * i + j] == colour[j] by {
                assert((6 * i + j) / 6 == i && (6 * i + j) % 6 == j);
            }
            assert(all.subrange(0, 6 * (i + 1)) =~= all.subrange(0, 6 * i) + colour);
            assert(out@ =~= old(out)@ + all.subrange(0, 6 * (i + 1)));
        }
        i = i + 1;
    }
    assert(colour_bytes(colours@).subrange(0, 6 * colours@.len() as int) =~= colour_bytes(
        colours@,
    ));
}

/// Reads `count` colours, six bytes each.
pub fn read_colours(data: &[u8], at: usize, count: u16) -> (res: Result<(Vec<Colour>, usize), Error>)
    ensures
        has_bytes(data@, at as int, 6 * count) ==> res is Ok && res->Ok_0.0@ == colours_at(
            data@,
            at as int,
            count as nat,
        ) && res->Ok_0.1 == at + 6 * count,
        !has_bytes(data@, at as int, 6 * count) ==> res == Err::<(Vec<Colour>, usize), Error>(
            Error::Io(IoError::UnexpectedEof),
        ),
{
    if !available(data, at, 6 * count as usize) {
        return Err(Error::Io(IoError::UnexpectedEof));
    }
    let mut colours: Vec<Colour> = Vec::new();
    let mut i: usize = 0;
    let mut next: usize = at;
    while i < count as usize
        invariant
            i <= count,
            next == at + 6 * i,
            data@.len() <= usize::MAX,
            has_bytes(data@, at as int, 6 * count),
            colours@ == colours_at(data@, at as int, i as nat),
        decreases count - i,
    {
        let (red, after) = match read_u16(data, next) {
            Ok(read) => read,
            Err(e) => { return Err(e); },
        };
        let (green, after) = match read_u16(data, after) {
            Ok(read) => read,
            Err(e) => { return Err(e); },
        };
        let (blue, after) = match read_u16(data, after) {
            Ok(read) => read,
            Err(e) => { return Err(e); },
        };
        colours.push(Colour { red, green, blue });
        i = i + 1;
        next = after;
        assert(colours@ =~= colours_at(data@, at as int, i as nat));
    }
    Ok((colours, next))
}

/// Appends a list of rectangles, one after the other.
#[verifier::rlimit(40)]
pub fn write_rectangles(out: &mut Vec<u8>, rectangles: &[Rectangle])
    requires
        forall|i: int|
            0 <= i < rectangles@.len() ==> (#[trigger] rectangles@[i]).encoding is Zrle
                ==> rectangles@[i].payload@.len() <= u32::MAX,
    ensures
        final(out)@ == old(out)@ + rectangles_bytes(rectangles_view(rectangles@)),
{
    let ghost all = rectangles_view(rectangles@);
    let mut i: usize = 0;
    assert(all.take(0) =~= Seq::<RectangleView>::empty());
    assert(out@ =~= old(out)@ + rectangles_bytes(all.take(0)));
    while i < rectangles.len()
        invariant
            i <= rectangles.len(),
            all == rectangles_view(rectangles@),
            forall|i: int|
                0 <= i < rectangles@.len() ==> (#[trigger] rectangles@[i]).encoding is Zrle
                    ==> rectangles@[i].payload@.len() <= u32::MAX,
            out@ == old(out)@ + rectangles_bytes(all.take(i as int)),
        decreases rectangles.len() - i,
    {
        assert(rectangles@[i as int].encoding is Zrle ==> rectangles@[i as int].payload@.len()
            <= u32::MAX);
        rectangles[i].encode(out);
        proof {
            assert(all.take(i + 1) =~= all.take(i as int).push(all[i as int]));
            lemma_rectangles_bytes_push(all.take(i as int), all[i as int]);
            assert(out@ =~= old(out)@ + rectangles_bytes(all.take(i + 1)));
        }
        i = i + 1;
    }
    assert(all.take(rectangles@.len() as int) =~= all);
}

/// Reads `count` rectangles, one after the other, in a session with the
/// given pixel format.
#[verifier::rlimit(40)]
pub fn read_rectangles(format: &PixelFormat, data: &[u8], at: usize, count: u16) -> (res: Result<
    (Vec<Rectangle>, usize),
    Error,
>)
    ensures
        match parse_rectangles(*format, data@, at as int, count as nat) {
            Ok((rectangles, next)) => res is Ok && rectangles_view(res->Ok_0.0@) == rectangles
                && res->Ok_0.1 == next,
            Err(e) => res == Err::<(Vec<Rectangle>, usize), Error>(e),
        },
{
    let mut rectangles: Vec<Rectangle> = Vec::new();
    let ghost mut acc: Seq<RectangleView> = Seq::empty();
    let mut i: u16 = 0;
    let mut next: usize = at;
    assert(rectangles_view(rectangles@) =~= acc);
    while i < count
        invariant
            i <= count,
            rectangles_view(rectangles@) == acc,
            parse_rectangles(*format, data@, at as int, count as nat) == prepend_rectangles(
                acc,
                parse_rectangles(*format, data@, next as int, (count - i) as nat),
            ),
        decreases count - i,
    {
        let (rectangle, after) = match Rectangle::decode(format, data, next) {
            Ok(read) => read,
            Err(e) => { return Err(e); },
        };
        proof {
            let one = seq![rectangle@];
            let tail = parse_rectangles(*format, data@, after as int, (count - i - 1) as nat);
            if let Ok((rest, end)) = tail {
                assert(acc + (one + rest) =~= (acc + one) + rest);
            }
            assert(rectangles_view(rectangles@.push(rectangle)) =~= acc + one);
            acc = acc + one;
        }
        rectangles.push(rectangle);
        next = after;
        i = i + 1;
    }
    proof {
        assert(acc + Seq::<RectangleView>::empty() =~= acc);
    }
    Ok((rectangles, next))
}

impl S2C {
    /// Appends the message.
    pub fn encode(&self, out: &mut Vec<u8>)
        requires
            self@.fits(),
        ensures
            final(out)@ == old(out)@ + self@.encoding(),
    {
        match self {
            S2C::FramebufferUpdate { rectangles } => {
                write_u8(out, 0);
                write_padding(out, 1);
                write_u16(out, rectangles.len() as u16);
                assert forall|i: int| 0 <= i < rectangles@.len() && (
                #[trigger] rectangles@[i]).encoding is Zrle implies rectangles@[i].payload@.len()
                    <= u32::MAX by {
                    assert(rectangles_view(rectangles@)[i] == rectangles@[i]@);
                }
                write_rectangles(out, rectangles.as_slice());
            },
            S2C::SetColourMapEntries { first_colour, colours } => {
                write_u8(out, 1);
                write_padding(out, 1);
                write_u16(out, *first_colour);
                write_u16(out, colours.len() as u16);
                write_colours(out, colours.as_slice());
            },
            S2C::Bell => {
                write_u8(out, 2);
            },
            S2C::CutText(text) => {
                write_u8(out, 3);
                write_padding(out, 3);
                write_string(out, text.as_slice());
            },
        }
        assert(out@ =~= old(out)@ + self@.encoding());
    }

    /// Reads a message, in a session with the given pixel format.
    pub fn decode(format: &PixelFormat, data: &[u8], at: usize) -> (res: Result<(S2C, usize), Error>)
        ensures
            match S2CView::parse(*format, data@, at as int) {
                Ok((message, next)) => res is Ok && res->Ok_0.0@ == message && res->Ok_0.1 == next,
                Err(e) => res == Err::<(S2C, usize), Error>(e),
            },
    {
        let (tag, after) = match read_u8(data, at) {
            Ok(read) => read,
            Err(e) => { return Err(e); },
        };
        if tag == 0 {
            if !available(data, at, 4) {
                return Err(Error::Io(IoError::UnexpectedEof));
            }
            let (count, next) = match read_u16(data, at + 2) {
                Ok(read) => read,
                Err(e) => { return Err(e); },
            };
            match read_rectangles(format, data, next, count) {
                Ok((rectangles, next)) => Ok((S2C::FramebufferUpdate { rectangles }, next)),
                Err(e) => Err(e),
            }
        } else if tag == 1 {
            if !available(data, at, 6) {
                return Err(Error::Io(IoError::UnexpectedEof));
            }
            let first_colour = data[at + 2] as u16 * 256 + data[at + 3] as u16;
            let (count, next) = match read_u16(data, at + 4) {
                Ok(read) => read,
                Err(e) => { return Err(e); },
            };
            match read_colours(data, next, count) {
                Ok((colours, next)) => Ok((S2C::SetColourMapEntries { first_colour, colours }, next)),
                Err(e) => Err(e),
            }
        } else if tag == 2 {
            Ok((S2C::Bell, after))
        } else if tag == 3 {
            if !available(data, at, 8) {
                return Err(Error::Io(IoError::UnexpectedEof));
            }
            match read_string(data, at + 4) {
                Ok((text, next)) => Ok((S2C::CutText(text), next)),
                Err(e) => Err(e),
            }
        } else {
            Err(Error::Unexpected("server to client message type"))
        }
    }
}

} // verus!
