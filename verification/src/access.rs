//! Body lines of a log file, and the remote-access entries among them.
//!
//! A remote-access entry has the shape
//! `[LAN access from remote] from <peer> to <mine> <day> <mon> <date> <time>`,
//! where `<peer>` is an address, or an address, a colon and a port.

use crate::text::{
    before_first, first_match, join, joined, lemma_first_match_exists, occurs_at, pieces, split,
    split_once,
};
use vstd::prelude::*;

verus! {

/// What separates the marker of a log line from what the line describes.
pub open spec fn log_delimiter() -> Seq<char> {
    "] "@
}

/// The marker of a remote-access entry.
pub open spec fn access_marker() -> Seq<char> {
    "[LAN access from remote"@
}

/// What separates the tokens of an access descriptor.
pub open spec fn token_delimiter() -> Seq<char> {
    " "@
}

/// What separates a peer's address from its port.
pub open spec fn port_delimiter() -> Seq<char> {
    ":"@
}

/// What stands between the tokens of a descriptor that is reported as
/// unrecognized.
pub open spec fn report_delimiter() -> Seq<char> {
    "|"@
}

/// The access descriptor of `line`: what follows the delimiter, where the
/// line holds the delimiter once and the marker stands before it.
pub open spec fn descriptor_of(line: Seq<char>) -> Option<Seq<char>> {
    let parts = pieces(line, log_delimiter());
    if parts.len() == 2 && parts[0] == access_marker() {
        Some(parts[1])
    } else {
        None
    }
}

/// Whether `tokens` have the shape
/// `from <peer> to <mine> <day> <mon> <date> <time>`.
pub open spec fn is_access_shape(tokens: Seq<Seq<char>>) -> bool {
    &&& tokens.len() == 8
    &&& tokens[0] == "from"@
    &&& tokens[2] == "to"@
}

/// What a body line is.
pub enum LineKind {
    /// A remote-access entry, with the address of the peer.
    Access(Seq<char>),
    /// A line with the marker of a remote-access entry whose descriptor has
    /// another shape, with the descriptor's tokens joined by `|`.
    Unrecognized(Seq<char>),
    /// Any other line, with its text.
    Peripheral(Seq<char>),
}

/// The kind of the body line `line`.
pub open spec fn classify_line(line: Seq<char>) -> LineKind {
    match descriptor_of(line) {
        Some(descriptor) => {
            let tokens = pieces(descriptor, token_delimiter());
            if is_access_shape(tokens) {
                LineKind::Access(before_first(tokens[1], port_delimiter()))
            } else {
                LineKind::Unrecognized(joined(tokens, report_delimiter()))
            }
        },
        None => LineKind::Peripheral(line),
    }
}

/// The peer of a remote-access entry: the second token of its descriptor.
pub open spec fn peer_of(line: Seq<char>) -> Seq<char> {
    pieces(descriptor_of(line)->0, token_delimiter())[1]
}

/// The address of a remote-access entry is its peer up to the first colon, or
/// all of the peer where it holds no colon.
pub proof fn lemma_access_address(line: Seq<char>)
    requires
        classify_line(line) is Access,
    ensures
        classify_line(line) matches LineKind::Access(address) && {
            let peer = peer_of(line);
            &&& address.is_prefix_of(peer)
            &&& !address.contains(':')
            &&& if peer.contains(':') {
                address.len() < peer.len() && peer[address.len() as int] == ':'
            } else {
                address == peer
            }
        },
{
    reveal_strlit(":");
    let peer = peer_of(line);
    let colon = port_delimiter();
    let address = before_first(peer, colon);
    assert forall|i: int| occurs_at(peer, colon, i) <==> 0 <= i < peer.len() && peer[i]
        == ':' by {
        if 0 <= i < peer.len() {
            assert(peer.subrange(i, i + 1)[0] == peer[i]);
            if peer[i] == ':' {
                assert(peer.subrange(i, i + 1) =~= colon);
            }
        }
    }
    match first_match(peer, colon) {
        Some(at) => {
            assert(occurs_at(peer, colon, at));
            assert(peer[at] == ':');
            assert forall|j: int| 0 <= j < address.len() implies address[j] != ':' by {
                assert(!occurs_at(peer, colon, j));
            }
        },
        None => {
            if peer.contains(':') {
                let i = choose|i: int| 0 <= i < peer.len() && peer[i] == ':';
                lemma_first_match_exists(peer, colon, i);
            }
        },
    }
}

/// Only a line whose descriptor has the eight-token shape is a remote-access
/// entry: with the marker and any other descriptor the line is reported as
/// unrecognized, and without the marker the line is peripheral, whole.
pub proof fn lemma_access_needs_shape(line: Seq<char>)
    ensures
        match descriptor_of(line) {
            Some(descriptor) => {
                let tokens = pieces(descriptor, token_delimiter());
                &&& tokens.len() != 8 ==> classify_line(line) is Unrecognized
                &&& classify_line(line) is Access <==> is_access_shape(tokens)
                &&& classify_line(line) !is Peripheral
            },
            None => classify_line(line) == LineKind::Peripheral(line),
        },
{
}

/// One access from a remote peer.
#[derive(Debug)]
pub struct RemoteAccess {
    /// The peer's address, without its port.
    pub address: String,
}

impl View for RemoteAccess {
    type V = Seq<char>;

    open spec fn view(&self) -> Seq<char> {
        self.address@
    }
}

/// The addresses of `events`, in order.
pub open spec fn addresses_of(events: Seq<RemoteAccess>) -> Seq<Seq<char>> {
    events.map_values(|event: RemoteAccess| event@)
}

/// A body line, classified.
#[derive(Debug)]
pub enum LineClass {
    /// A remote-access entry.
    Access(RemoteAccess),
    /// A line with the marker of a remote-access entry whose descriptor has
    /// another shape; holds the descriptor's tokens joined by `|`.
    Unrecognized(String),
    /// Any other line; holds the line.
    Peripheral(String),
}

impl View for LineClass {
    type V = LineKind;

    open spec fn view(&self) -> LineKind {
        match self {
            LineClass::Access(access) => LineKind::Access(access@),
            LineClass::Unrecognized(tokens) => LineKind::Unrecognized(tokens@),
            LineClass::Peripheral(text) => LineKind::Peripheral(text@),
        }
    }
}

/// Classifies one body line.
pub fn classify(line: &str) -> (class: LineClass)
    ensures
        class@ == classify_line(line@),
{
    let parts = split(line, "] ");
    let marker = "[LAN access from remote".to_owned();
    if parts.len() == 2 && parts[0] == marker {
        let tokens = split(parts[1].as_str(), " ");
        let from = "from".to_owned();
        let to = "to".to_owned();
        if tokens.len() == 8 && tokens[0] == from && tokens[2] == to {
            let address = match split_once(tokens[1].as_str(), ":") {
                Some(halves) => halves.0,
                None => tokens[1].clone(),
            };
            LineClass::Access(RemoteAccess { address })
        } else {
            LineClass::Unrecognized(join(&tokens, "|"))
        }
    } else {
        proof {
            crate::text::lemma_joined_pieces(line@, log_delimiter());
        }
        LineClass::Peripheral(join(&parts, "] "))
    }
}

} // verus!
