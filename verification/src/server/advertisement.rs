//! The line a client matches against its own version in the server list.
use crate::protocol::version::{MINECRAFT_VERSION, PROTOCOL_VERSION};
use crate::text::{decimal, push_decimal, push_signed_decimal, push_str, signed_decimal, string_from};
use vstd::prelude::*;

verus! {

/// The protocol version as the list spells it: empty while it is unset.
pub open spec fn protocol_text(p: Option<u32>) -> Seq<char> {
    match p {
        Some(v) => decimal(v as nat),
        None => Seq::empty(),
    }
}

/// The game version as the list spells it: empty while it is unset.
pub open spec fn version_text(v: Option<&'static str>) -> Seq<char> {
    match v {
        Some(s) => s@,
        None => Seq::empty(),
    }
}

/// The advertisement: edition, name, protocol, game version, players and capacity, the
/// server's id, an empty sub-name, the game mode, and the port twice.
pub open spec fn advertisement_text(
    name: Seq<char>,
    players: usize,
    max_players: usize,
    port: u16,
    guid: i64,
) -> Seq<char> {
    "MCPE;"@ + name + ";"@ + protocol_text(PROTOCOL_VERSION) + ";"@ + version_text(
        MINECRAFT_VERSION,
    ) + ";"@ + decimal(players as nat) + ";"@ + decimal(max_players as nat) + ";"@
        + signed_decimal(guid as int) + ";;Survival;1;"@ + decimal(port as nat) + ";"@ + decimal(
        port as nat,
    ) + ";"@
}

/// The advertisement a client matches against its own version.
pub fn advertisement(name: &str, players: usize, max_players: usize, port: u16, guid: i64) -> (a:
    String)
    ensures
        a@ == advertisement_text(name@, players, max_players, port, guid),
{
    let mut out: Vec<char> = Vec::new();
    push_str(&mut out, "MCPE;");
    push_str(&mut out, name);
    push_str(&mut out, ";");
    match PROTOCOL_VERSION {
        Some(v) => push_decimal(&mut out, v as u64),
        None => {},
    }
    push_str(&mut out, ";");
    match MINECRAFT_VERSION {
        Some(v) => push_str(&mut out, v),
        None => {},
    }
    push_str(&mut out, ";");
    push_decimal(&mut out, players as u64);
    push_str(&mut out, ";");
    push_decimal(&mut out, max_players as u64);
    push_str(&mut out, ";");
    push_signed_decimal(&mut out, guid);
    push_str(&mut out, ";;Survival;1;");
    push_decimal(&mut out, port as u64);
    push_str(&mut out, ";");
    push_decimal(&mut out, port as u64);
    push_str(&mut out, ";");
    assert(out@ =~= advertisement_text(name@, players, max_players, port, guid));
    string_from(out.as_slice())
}

} // verus!
