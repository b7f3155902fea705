//! Core of a Remote Framebuffer (RFB, "VNC") implementation: the wire codec,
//! the message schema, the handshake and session state machines and the pixel
//! decoders, with their behaviour stated in contracts and proved.
//!
//! The library reads and writes nothing. A host hands it the bytes that came
//! in and sends the bytes that it gives back:
//!
//! - [`wire`], [`geometry`], [`pixel_format`] and [`protocol`] turn values
//!   into bytes and back, and prove that the way back undoes the way there;
//! - [`handshake`] and [`des`] take a client through the handshake;
//! - [`client`] and [`event`] turn the server's messages into events, and the
//!   client's requests into messages;
//! - [`zrle`] and [`bits`] decode ZRLE rectangles, on top of the inflater in
//!   [`inflate`];
//! - [`proxy`] plays the server towards a client and hands messages on;
//! - [`host`] works out what a viewer needs for its window and its keys, on
//!   top of the byte orders in [`endian`].

pub mod bits;
pub mod client;
pub mod des;
pub mod endian;
pub mod error;
pub mod event;
pub mod geometry;
pub mod handshake;
pub mod host;
pub mod inflate;
pub mod pixel_format;
pub mod protocol;
pub mod proxy;
pub mod wire;
pub mod zrle;

pub use crate::client::Client;
pub use crate::error::{Error, IoError};
pub use crate::geometry::Rect;
pub use crate::pixel_format::PixelFormat;
pub use crate::protocol::Encoding;
pub use crate::proxy::Proxy;
pub use crate::zrle::{BitReader, Decoder, Tile, ZlibReader};
