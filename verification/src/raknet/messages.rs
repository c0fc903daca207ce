//! How the transport's errors read to an operator.
//!
//! Every error the transport can report has a sentence; errors that wrap another read
//! as the one they wrap.
use crate::raknet::address::AddressError;
use crate::raknet::connect::ConnectError;
use crate::raknet::datagram::DatagramError;
use crate::raknet::frame::FrameError;
use crate::raknet::offline::OfflineError;
use crate::raknet::online::OnlineError;
use crate::raknet::order::OutOfWindow;
use crate::raknet::retransmit::WindowFull;
use crate::raknet::session::{Closed, SessionError};
use crate::raknet::split::SplitError;
use crate::raknet::wire::DecodeError;
use crate::text::{decimal, hex_byte, push_decimal, push_hex_byte, push_str, string_from};
use vstd::prelude::*;

verus! {

/// How a short read reads.
pub open spec fn decode_error_text(e: DecodeError) -> Seq<char> {
    "unexpected end of input: needed "@ + decimal(e.needed as nat) + " byte(s), "@ + decimal(
        e.available as nat,
    ) + " available"@
}

/// How a frame error reads.
pub open spec fn frame_error_text(e: FrameError) -> Seq<char> {
    match e {
        FrameError::Truncated(d) => decode_error_text(d),
        FrameError::EmptyBody => "frame declares a zero-length body"@,
    }
}

/// How a datagram error reads.
pub open spec fn datagram_error_text(e: DatagramError) -> Seq<char> {
    match e {
        DatagramError::Truncated(d) => decode_error_text(d),
        DatagramError::NotConnected(flags) => "first byte "@ + hex_byte(flags)
            + " is not a connected datagram"@,
        DatagramError::Frame(f) => frame_error_text(f),
    }
}

/// How an address error reads.
pub open spec fn address_error_text(e: AddressError) -> Seq<char> {
    match e {
        AddressError::Truncated(d) => decode_error_text(d),
        AddressError::UnsupportedVersion(v) => "address version "@ + decimal(v as nat)
            + " unsupported (IPv4 only)"@,
    }
}

/// How an unexpected packet id reads.
pub open spec fn unexpected_id_text(expected: u8, found: u8) -> Seq<char> {
    "expected packet id "@ + hex_byte(expected) + ", found "@ + hex_byte(found)
}

/// How a connection handshake error reads.
pub open spec fn connect_error_text(e: ConnectError) -> Seq<char> {
    match e {
        ConnectError::Truncated(d) => decode_error_text(d),
        ConnectError::UnexpectedId { expected, found } => unexpected_id_text(expected, found),
        ConnectError::BadMagic => "RakNet magic missing or wrong"@,
        ConnectError::Address(a) => address_error_text(a),
    }
}

/// How a connected-packet error reads.
pub open spec fn online_error_text(e: OnlineError) -> Seq<char> {
    match e {
        OnlineError::Truncated(d) => decode_error_text(d),
        OnlineError::UnexpectedId { expected, found } => unexpected_id_text(expected, found),
        OnlineError::Address(a) => address_error_text(a),
    }
}

/// How an offline-packet error reads.
pub open spec fn offline_error_text(e: OfflineError) -> Seq<char> {
    match e {
        OfflineError::Truncated(d) => decode_error_text(d),
        OfflineError::UnexpectedId { expected, found } => unexpected_id_text(expected, found),
        OfflineError::BadMagic => "RakNet magic missing or wrong"@,
        OfflineError::InvalidUtf8 => "advertisement string is not valid UTF-8"@,
    }
}

/// How a reassembly error reads.
pub open spec fn split_error_text(e: SplitError) -> Seq<char> {
    match e {
        SplitError::Inconsistent { count, index } => "fragment "@ + decimal(index as nat)
            + " of "@ + decimal(count as nat) + " is not a valid position"@,
        SplitError::TooManyFragments(count) => "peer announced "@ + decimal(count as nat)
            + " fragments"@,
        SplitError::PayloadTooLarge => "reassembled payload would exceed the limit"@,
        SplitError::TooManyPending => "too many reassemblies already open"@,
        SplitError::DuplicateIndex(index) => "fragment "@ + decimal(index as nat)
            + " arrived twice"@,
    }
}

/// How an out-of-window order index reads.
pub open spec fn out_of_window_text(e: OutOfWindow) -> Seq<char> {
    "order index "@ + decimal(e.index as nat) + " is outside the window at "@ + decimal(
        e.expected as nat,
    )
}

/// How a full retransmission window reads.
pub open spec fn window_full_text() -> Seq<char> {
    "too many unacknowledged datagrams in flight"@
}

/// How a session error reads.
pub open spec fn session_error_text(e: SessionError) -> Seq<char> {
    match e {
        SessionError::Datagram(d) => datagram_error_text(d),
        SessionError::Split(s) => split_error_text(s),
        SessionError::Order(o) => out_of_window_text(o),
        SessionError::Window(_) => window_full_text(),
        SessionError::OutboxFull => "outbox is full"@,
        SessionError::Closed => "session is closed"@,
    }
}

impl DecodeError {
    /// Appends how this error reads.
    pub fn push_text(&self, out: &mut Vec<char>)
        ensures
            final(out)@ == old(out)@ + decode_error_text(*self),
    {
        push_str(out, "unexpected end of input: needed ");
        push_decimal(out, self.needed as u64);
        push_str(out, " byte(s), ");
        push_decimal(out, self.available as u64);
        push_str(out, " available");
        assert(out@ =~= old(out)@ + decode_error_text(*self));
    }

    /// How this error reads.
    pub fn to_text(&self) -> (t: String)
        ensures
            t@ == decode_error_text(*self),
    {
        let mut out: Vec<char> = Vec::new();
        self.push_text(&mut out);
        assert(out@ =~= decode_error_text(*self));
        string_from(out.as_slice())
    }
}

impl FrameError {
    /// Appends how this error reads.
    pub fn push_text(&self, out: &mut Vec<char>)
        ensures
            final(out)@ == old(out)@ + frame_error_text(*self),
    {
        match self {
            FrameError::Truncated(d) => d.push_text(out),
            FrameError::EmptyBody => push_str(out, "frame declares a zero-length body"),
        }
    }

    /// How this error reads.
    pub fn to_text(&self) -> (t: String)
        ensures
            t@ == frame_error_text(*self),
    {
        let mut out: Vec<char> = Vec::new();
        self.push_text(&mut out);
        assert(out@ =~= frame_error_text(*self));
        string_from(out.as_slice())
    }
}

impl DatagramError {
    /// Appends how this error reads.
    pub fn push_text(&self, out: &mut Vec<char>)
        ensures
            final(out)@ == old(out)@ + datagram_error_text(*self),
    {
        match self {
            DatagramError::Truncated(d) => d.push_text(out),
            DatagramError::NotConnected(flags) => {
                push_str(out, "first byte ");
                push_hex_byte(out, *flags);
                push_str(out, " is not a connected datagram");
                assert(out@ =~= old(out)@ + datagram_error_text(*self));
            },
            DatagramError::Frame(f) => f.push_text(out),
        }
    }

    /// How this error reads.
    pub fn to_text(&self) -> (t: String)
        ensures
            t@ == datagram_error_text(*self),
    {
        let mut out: Vec<char> = Vec::new();
        self.push_text(&mut out);
        assert(out@ =~= datagram_error_text(*self));
        string_from(out.as_slice())
    }
}

impl AddressError {
    /// Appends how this error reads.
    pub fn push_text(&self, out: &mut Vec<char>)
        ensures
            final(out)@ == old(out)@ + address_error_text(*self),
    {
        match self {
            AddressError::Truncated(d) => d.push_text(out),
            AddressError::UnsupportedVersion(v) => {
                push_str(out, "address version ");
                push_decimal(out, *v as u64);
                push_str(out, " unsupported (IPv4 only)");
                assert(out@ =~= old(out)@ + address_error_text(*self));
            },
        }
    }

    /// How this error reads.
    pub fn to_text(&self) -> (t: String)
        ensures
            t@ == address_error_text(*self),
    {
        let mut out: Vec<char> = Vec::new();
        self.push_text(&mut out);
        assert(out@ =~= address_error_text(*self));
        string_from(out.as_slice())
    }
}

/// Appends how an unexpected packet id reads.
fn push_unexpected_id(out: &mut Vec<char>, expected: u8, found: u8)
    ensures
        final(out)@ == old(out)@ + unexpected_id_text(expected, found),
{
    push_str(out, "expected packet id ");
    push_hex_byte(out, expected);
    push_str(out, ", found ");
    push_hex_byte(out, found);
    assert(out@ =~= old(out)@ + unexpected_id_text(expected, found));
}

impl ConnectError {
    /// How this error reads.
    pub fn to_text(&self) -> (t: String)
        ensures
            t@ == connect_error_text(*self),
    {
        let mut out: Vec<char> = Vec::new();
        match self {
            ConnectError::Truncated(d) => d.push_text(&mut out),
            ConnectError::UnexpectedId { expected, found } => push_unexpected_id(
                &mut out,
                *expected,
                *found,
            ),
            ConnectError::BadMagic => push_str(&mut out, "RakNet magic missing or wrong"),
            ConnectError::Address(a) => a.push_text(&mut out),
        }
        assert(out@ =~= connect_error_text(*self));
        string_from(out.as_slice())
    }
}

impl OnlineError {
    /// How this error reads.
    pub fn to_text(&self) -> (t: String)
        ensures
            t@ == online_error_text(*self),
    {
        let mut out: Vec<char> = Vec::new();
        match self {
            OnlineError::Truncated(d) => d.push_text(&mut out),
            OnlineError::UnexpectedId { expected, found } => push_unexpected_id(
                &mut out,
                *expected,
                *found,
            ),
            OnlineError::Address(a) => a.push_text(&mut out),
        }
        assert(out@ =~= online_error_text(*self));
        string_from(out.as_slice())
    }
}

impl OfflineError {
    /// How this error reads.
    pub fn to_text(&self) -> (t: String)
        ensures
            t@ == offline_error_text(*self),
    {
        let mut out: Vec<char> = Vec::new();
        match self {
            OfflineError::Truncated(d) => d.push_text(&mut out),
            OfflineError::UnexpectedId { expected, found } => push_unexpected_id(
                &mut out,
                *expected,
                *found,
            ),
            OfflineError::BadMagic => push_str(&mut out, "RakNet magic missing or wrong"),
            OfflineError::InvalidUtf8 => push_str(&mut out, "advertisement string is not valid UTF-8"),
        }
        assert(out@ =~= offline_error_text(*self));
        string_from(out.as_slice())
    }
}

impl SplitError {
    /// Appends how this error reads.
    pub fn push_text(&self, out: &mut Vec<char>)
        ensures
            final(out)@ == old(out)@ + split_error_text(*self),
    {
        match self {
            SplitError::Inconsistent { count, index } => {
                push_str(out, "fragment ");
                push_decimal(out, *index as u64);
                push_str(out, " of ");
                push_decimal(out, *count as u64);
                push_str(out, " is not a valid position");
            },
            SplitError::TooManyFragments(count) => {
                push_str(out, "peer announced ");
                push_decimal(out, *count as u64);
                push_str(out, " fragments");
            },
            SplitError::PayloadTooLarge => push_str(out, "reassembled payload would exceed the limit"),
            SplitError::TooManyPending => push_str(out, "too many reassemblies already open"),
            SplitError::DuplicateIndex(index) => {
                push_str(out, "fragment ");
                push_decimal(out, *index as u64);
                push_str(out, " arrived twice");
            },
        }
        assert(out@ =~= old(out)@ + split_error_text(*self));
    }

    /// How this error reads.
    pub fn to_text(&self) -> (t: String)
        ensures
            t@ == split_error_text(*self),
    {
        let mut out: Vec<char> = Vec::new();
        self.push_text(&mut out);
        assert(out@ =~= split_error_text(*self));
        string_from(out.as_slice())
    }
}

impl OutOfWindow {
    /// Appends how this error reads.
    pub fn push_text(&self, out: &mut Vec<char>)
        ensures
            final(out)@ == old(out)@ + out_of_window_text(*self),
    {
        push_str(out, "order index ");
        push_decimal(out, self.index as u64);
        push_str(out, " is outside the window at ");
        push_decimal(out, self.expected as u64);
        assert(out@ =~= old(out)@ + out_of_window_text(*self));
    }

    /// How this error reads.
    pub fn to_text(&self) -> (t: String)
        ensures
            t@ == out_of_window_text(*self),
    {
        let mut out: Vec<char> = Vec::new();
        self.push_text(&mut out);
        assert(out@ =~= out_of_window_text(*self));
        string_from(out.as_slice())
    }
}

impl WindowFull {
    /// How this error reads.
    pub fn to_text(&self) -> (t: String)
        ensures
            t@ == window_full_text(),
    {
        let mut out: Vec<char> = Vec::new();
        push_str(&mut out, "too many unacknowledged datagrams in flight");
        assert(out@ =~= window_full_text());
        string_from(out.as_slice())
    }
}

impl SessionError {
    /// How this error reads.
    pub fn to_text(&self) -> (t: String)
        ensures
            t@ == session_error_text(*self),
    {
        let mut out: Vec<char> = Vec::new();
        match self {
            SessionError::Datagram(d) => d.push_text(&mut out),
            SessionError::Split(s) => s.push_text(&mut out),
            SessionError::Order(o) => o.push_text(&mut out),
            SessionError::Window(_) => push_str(&mut out, "too many unacknowledged datagrams in flight"),
            SessionError::OutboxFull => push_str(&mut out, "outbox is full"),
            SessionError::Closed => push_str(&mut out, "session is closed"),
        }
        assert(out@ =~= session_error_text(*self));
        string_from(out.as_slice())
    }
}

/// The short label a departure is reported under.
pub open spec fn closed_label(r: Closed) -> Seq<char> {
    match r {
        Closed::ByPeer => "saiu"@,
        Closed::Timeout => "silencio"@,
        Closed::Unreachable => "inalcancavel"@,
        Closed::ByUs => "fechado por nos"@,
    }
}

/// What a departure says about the client, when there is something to say: a close on
/// our side needs no explanation.
pub open spec fn closed_meaning(r: Closed) -> Option<Seq<char>> {
    match r {
        Closed::ByPeer => Some("o cliente enviou Disconnect: recusou algo"@),
        Closed::Timeout => Some("20s sem falar: ficou esperando, nao recusou"@),
        Closed::Unreachable => Some("parou de confirmar o que enviamos"@),
        Closed::ByUs => None,
    }
}

impl Closed {
    /// How a departure is reported: its label, and what it means when that says more.
    pub fn report(&self) -> (t: (String, Option<String>))
        ensures
            t.0@ == closed_label(*self),
            match closed_meaning(*self) {
                Some(m) => t.1 matches Some(x) && x@ == m,
                None => t.1 is None,
            },
    {
        let mut label: Vec<char> = Vec::new();
        let mut meaning: Vec<char> = Vec::new();
        let explained = match self {
            Closed::ByPeer => {
                push_str(&mut label, "saiu");
                push_str(&mut meaning, "o cliente enviou Disconnect: recusou algo");
                true
            },
            Closed::Timeout => {
                push_str(&mut label, "silencio");
                push_str(&mut meaning, "20s sem falar: ficou esperando, nao recusou");
                true
            },
            Closed::Unreachable => {
                push_str(&mut label, "inalcancavel");
                push_str(&mut meaning, "parou de confirmar o que enviamos");
                true
            },
            Closed::ByUs => {
                push_str(&mut label, "fechado por nos");
                false
            },
        };
        assert(label@ =~= closed_label(*self));
        let meaning = if explained {
            assert(closed_meaning(*self) == Some(meaning@));
            Some(string_from(meaning.as_slice()))
        } else {
            None
        };
        (string_from(label.as_slice()), meaning)
    }
}

} // verus!
