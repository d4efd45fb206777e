use vstd::prelude::*;

verus! {

/// All the errors of the framework.
#[derive(Debug)]
pub enum Error {
    /// No error.
    NoError,
    /// An unknown error, with a description.
    Unknown(String),
    /// A custom error, with a description.
    Custom(String),
    /// The working directory could not be read.
    UtilsGetPW1,
    /// The working directory is not valid Unicode.
    UtilsGetPW2,
    /// The text is not a valid hexadecimal string.
    UtilsHexStr,
    /// Invalid port.
    NwInvalidPort,
    /// Invalid IP address.
    NwInvalidIP,
    /// Invalid connection.
    ConnInvalid,
    /// Generic socket error.
    SocketErr(String),
    /// The server is already running.
    ServerIsAlreadyRunning,
    /// Invalid endpoint, with the address text.
    TcpSocketAddrInvalid(String),
    /// Accept failed.
    ServerAcceptError(String),
    /// The peer address could not be read.
    TcpGetRemoteAddrFailed,
    /// The local address could not be read.
    TcpGetLocalAddrFailed,
    /// Read timeout.
    IOReadTimeout,
    /// Write timeout.
    IOWriteTimeout,
    /// Read failed, with details.
    IOReadFailed(String),
    /// Write failed, with details.
    IOWriteFailed(String),
    /// A socket option could not be set.
    TcpSetOptionFailed(&'static str),
    /// Connecting failed, with details.
    TcpConnectFailed(String),
    /// Receiving from a channel failed, with details.
    AsyncRecvError(String),
    /// Invalid message header.
    PackHeadInvalid,
    /// Invalid message packet.
    PacketInvalid,
    /// Invalid message package (body checksum mismatch).
    PackageInvalid,
    /// The message body is too long.
    PackTooLong,
    /// Invalid buffer size.
    BufSizeInvalid,
    /// Unknown package id.
    PiperPIDInvalid,
    /// A handler for this package id already exists.
    PiperHandlerAreadyExists(u16),
}

/// Result type of the framework.
pub type Result<T> = core::result::Result<T, Error>;

/// Default listening address.
pub const DEFAULT_HOST: &'static str = "0.0.0.0:8080";

/// Default maximum number of connections.
pub const DEFAULT_MAX_CONNECTIONS: usize = 1000;

/// Default channel length.
pub const DEFAULT_CHAN_SIZE: usize = 10000;

/// Default read timeout, in seconds.
pub const DEFAULT_READ_TIMEOUT: u64 = 60;

/// Default buffer size.
pub const DEFAULT_BUF_SIZE: usize = 4096;

} // verus!
