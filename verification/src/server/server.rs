//! Where the transport meets the game protocol.
//!
//! The listener delivers payloads and the codec says what they mean; this is the only
//! place that knows both. Sans-io like the layers under it: datagrams and the time in,
//! datagrams and [`Event`]s out.
//!
//! One thing comes from outside: where a moving player stands. A client reports its
//! position as floats; the caller turns the report into the block it falls in and the
//! height of the player's feet, and hands those to [`Server::on_player_moved`].
use crate::crypto::agreement::Handshake;
use crate::crypto::cipher::{decryption, next_count, sealed, Cipher, CHECKSUM_LEN};
use crate::crypto::jwt::Jwks;
use crate::protocol::batch::{self, batch_encoding, packets_view, parse_batch, Packet, PacketView, MARKER};
use crate::protocol::chunk_radius::{self, ID_CHUNK_RADIUS_UPDATED};
use crate::protocol::handshake::{network_settings_body, Compression, NetworkSettings, ID_NETWORK_SETTINGS};
use crate::protocol::level_chunk::{columns_around_spec, publisher_update, BIOME_PLAINS, CHUNK_WIDTH};
use crate::protocol::login::{Limits, Login};
use crate::protocol::play_status::{self, Status};
use crate::protocol::player::AuthInput;
use crate::protocol::registries::{
    self, empty_nbt, ID_AVAILABLE_ACTOR_IDENTIFIERS, ID_BIOME_DEFINITION_LIST, ID_ITEM_REGISTRY,
};
use crate::protocol::resource_packs::{
    self, pack_stack_empty_body, packs_info_empty_body, Response, ID_RESOURCE_PACKS_INFO, ID_RESOURCE_PACK_STACK,
};
use crate::protocol::start_game::{start_game_body, GameType, Generator, StartGame, ID_START_GAME, SPAWN_HEIGHT_BITS};
use crate::raknet::address::{Address, AddressView};
use crate::raknet::listener::{
    closed_on_tick, kept_on_tick, session_events, tagged, Event as RakEvent, Listener, ListenerConfig,
};
use crate::raknet::session::{received, send_fits, sent_payload, Session, SessionError};
use crate::raknet::session::Closed;
use crate::server::columns::column_packet;
use crate::server::dispatch::{
    ciphertext_of, clear_step, clear_step_of, decrypted_packets, decrypted_packets_of, encrypted_step,
    encrypted_step_of, runs_to, ClearStep, EncryptedStep, PackFollowUp,
};
use crate::server::identity::{
    client_key, identity_check, identity_refusal_text, verify_identity, Clock, IdentityRefusal,
};
use crate::crypto::jwt::{ClaimsView, JwkView};
use crate::num::be32;
use crate::protocol::login::login_spec;
use crate::protocol::play_status::{status_value, ID_PLAY_STATUS};
use vstd::utf8::{decode_utf8, encode_utf8};
use crate::protocol::bytes::{varint_encoding, zigzag32};
use crate::server::stage::Stage;
use crate::server::streaming::{
    column_of, fresh, within, Column, Streaming, FORGET_MARGIN, MAX_STREAM_RADIUS, SURFACE_HEIGHT,
};
use crate::world::world::World;
use vstd::prelude::*;
use vstd::string::StringSliceAdditionalSpecFns;

verus! {

/// Where a player's feet are when they spawn: the surface, less the height a reported
/// position sits above the feet (1.62 blocks), rounded towards zero.
pub const SPAWN_FEET: i32 = SURFACE_HEIGHT - 2;

/// Something worth telling the operator about.
#[derive(Debug, Clone, PartialEq)]
pub enum Event {
    /// A peer finished the transport handshake.
    Connected(Address),
    /// A peer asked which compression to use, and was told.
    NetworkSettingsRequested {
        /// Who asked.
        peer: Address,
        /// The protocol version the client declared, in the clear.
        client_protocol: u32,
    },
    /// A game packet we do not handle yet.
    Unhandled {
        /// Who sent it.
        peer: Address,
        /// Its id.
        id: u32,
        /// Its body.
        body: Vec<u8>,
    },
    /// A client presented a login and its identity token verified.
    LoginAccepted {
        /// Who logged in.
        peer: Address,
        /// The protocol version the login declares.
        client_protocol: u32,
        /// The gamertag the issuer vouched for, when the token carried one.
        gamertag: Option<String>,
    },
    /// A login was refused because its identity did not hold up.
    LoginRejected {
        /// Who tried.
        peer: Address,
        /// Why, in the issuer's terms.
        reason: String,
    },
    /// A client accepted our handshake and switched to an encrypted stream.
    HandshakeAccepted(Address),
    /// The server told a client where its login stands.
    PlayStatusSent {
        /// Who it went to.
        peer: Address,
        /// What it said.
        status: Status,
    },
    /// The client answered the resource pack offer.
    PacksAnswered {
        /// Who answered.
        peer: Address,
        /// What it said.
        response: Response,
    },
    /// The client has finished with packs and was sent a world description.
    ReadyForWorld(Address),
    /// `StartGame` went out.
    WorldSent(Address),
    /// The world was streamed and the player told it may spawn.
    Spawned {
        /// Who spawned.
        peer: Address,
        /// How many columns went out.
        columns: usize,
    },
    /// The client asked for a view distance and was answered.
    ChunkRadiusGranted {
        /// Who asked.
        peer: Address,
        /// What it asked for.
        requested: i32,
        /// What it got.
        granted: i32,
    },
    /// The client reported the player standing in the world: its own statement that
    /// the chunks arrived and rendered.
    PlayerInitialized(Address),
    /// The player crossed into a new column and the world around it went out.
    ChunksStreamed {
        /// Who moved.
        peer: Address,
        /// The column they are standing in now, along X.
        chunk_x: i32,
        /// Along Z.
        chunk_z: i32,
        /// How many columns this move needed; zero for ground already sent.
        columns: usize,
    },
    /// The client reported where the player is.
    PlayerMoved {
        /// Who moved.
        peer: Address,
        /// What the client reported.
        input: AuthInput,
    },
    /// An encrypted packet decrypted and its checksum held.
    Decrypted {
        /// Who sent it.
        peer: Address,
        /// The packet id inside.
        id: u32,
        /// How many bytes of plaintext came out.
        len: usize,
    },
    /// An encrypted packet did not decrypt.
    DecryptionFailed(Address),
    /// A payload that did not decode as a batch.
    Undecodable(Address, Vec<u8>),
    /// A peer went away, and why.
    Disconnected(Address, Closed),
}

/// What the server knows about a player in the world: what streaming has sent them,
/// and where their feet are.
#[derive(Debug)]
struct Player {
    streaming: Streaming,
    feet: i32,
}

/// What the server keeps per peer.
struct Peer {
    addr: Address,
    cipher: Option<Cipher>,
    protocol: Option<u32>,
    player: Option<Player>,
}

/// Whether a player's streaming, if there is a player, is in shape.
spec fn player_in_shape(p: Option<Player>) -> bool {
    match p {
        Some(p) => p.streaming.well_formed(),
        None => true,
    }
}

/// A peer as the contracts see it: its address, whether it has an encrypted stream,
/// the protocol it declared at login, and whether it is in the world.
pub type PeerView = (AddressView, bool, Option<u32>, bool);

spec fn peer_view(p: Peer) -> PeerView {
    (p.addr@, p.cipher is Some, p.protocol, p.player is Some)
}

/// A batch the server put to a peer's encrypted stream: who, and the packets.
pub type Offer = (AddressView, Seq<PacketView>);

/// Whether `after` is `before` with batches for `peer` alone added behind it.
pub open spec fn offered_to(before: Seq<Offer>, after: Seq<Offer>, peer: AddressView) -> bool {
    &&& before.is_prefix_of(after)
    &&& forall|k: int| before.len() <= k < after.len() ==> (#[trigger] after[k]).0 == peer
}

/// The `PlayStatus` packet saying `status`.
pub open spec fn status_packet(status: Status) -> PacketView {
    (ID_PLAY_STATUS, 0u8, 0u8, be32(status_value(status) as u32))
}

/// A Bedrock server.
pub struct Server {
    listener: Listener,
    peers: Vec<Peer>,
    world: World,
    world_name: String,
    stage: Stage,
    target_protocol: u32,
    game_version: String,
    server_version: String,
    identity_keys: Option<Jwks>,
    clock: Clock,
    offered: Ghost<Seq<Offer>>,
}

impl Server {
    /// The state every operation keeps: a sound listener, each peer known once, and
    /// every player's streaming in shape.
    pub closed spec fn well_formed(&self) -> bool {
        &&& self.listener.well_formed()
        &&& forall|i: int, j: int|
            0 <= i < j < self.peers@.len() ==> self.peers@[i].addr@ != self.peers@[j].addr@
        &&& forall|i: int|
            0 <= i < self.peers@.len() ==> player_in_shape((#[trigger] self.peers@[i]).player)
    }

    /// What the server keeps per peer.
    pub closed spec fn peer_states(&self) -> Seq<PeerView> {
        self.peers@.map_values(|p: Peer| peer_view(p))
    }

    /// How far the login sequence runs.
    pub closed spec fn stage_view(&self) -> Stage {
        self.stage
    }

    /// Every batch the server has put to a peer's encrypted stream, oldest first.
    pub closed spec fn offered(&self) -> Seq<Offer> {
        self.offered@
    }

    /// The name the world is announced under.
    pub closed spec fn world_name_view(&self) -> Seq<char> {
        self.world_name@
    }

    /// The game version the server announces.
    pub closed spec fn game_version_view(&self) -> Seq<char> {
        self.game_version@
    }

    /// The server's own version, as announced.
    pub closed spec fn server_version_view(&self) -> Seq<char> {
        self.server_version@
    }

    /// The columns of the world held in memory, by position.
    pub closed spec fn loaded(&self) -> Set<(i32, i32)> {
        self.world@.1.dom()
    }

    /// The transport underneath: its sessions and the datagrams queued for the socket.
    pub closed spec fn transport(&self) -> Listener {
        self.listener
    }

    /// The peers the transport has a session with.
    pub closed spec fn connected(&self) -> Seq<AddressView> {
        self.listener.peers()
    }

    /// How many sessions the transport accepts at once.
    pub closed spec fn session_cap(&self) -> usize {
        self.listener.settings().max_sessions
    }

    /// Whether the issuer's keys have been supplied.
    pub closed spec fn has_keys(&self) -> bool {
        self.identity_keys is Some
    }

    /// The wall clock's anchor.
    pub closed spec fn clock_view(&self) -> Option<(i64, u64)> {
        self.clock.anchor_view()
    }

    /// A server advertising itself as `advertisement`, speaking `target_protocol` and
    /// game version `game_version`, with default transport limits.
    pub fn new(
        local: Address,
        guid: i64,
        advertisement: &str,
        target_protocol: u32,
        game_version: &str,
        server_version: &str,
    ) -> (s: Self)
        ensures
            s.well_formed(),
            s.peer_states() == Seq::<PeerView>::empty(),
            s.stage_view() == Stage::Spawn,
            !s.has_keys(),
            s.clock_view() is None,
    {
        let config = ListenerConfig::default();
        Self::with_config(local, guid, advertisement, config, target_protocol, game_version, server_version)
    }

    /// A server with explicit transport limits.
    pub fn with_config(
        local: Address,
        guid: i64,
        advertisement: &str,
        config: ListenerConfig,
        target_protocol: u32,
        game_version: &str,
        server_version: &str,
    ) -> (s: Self)
        requires
            config.session.retransmit.min_rto <= config.session.retransmit.max_rto,
        ensures
            s.well_formed(),
            s.peer_states() == Seq::<PeerView>::empty(),
            s.stage_view() == Stage::Spawn,
            !s.has_keys(),
            s.clock_view() is None,
    {
        let s = Server {
            listener: Listener::new(local, guid, advertisement, config),
            peers: Vec::new(),
            world: World::flat(SURFACE_HEIGHT),
            world_name: "bedrock-runtime".to_owned(),
            stage: Stage::Spawn,
            target_protocol,
            game_version: game_version.to_owned(),
            server_version: server_version.to_owned(),
            identity_keys: None,
            clock: Clock::unset(),
            offered: Ghost(Seq::empty()),
        };
        proof {
            assert(s.peers@.map_values(|p: Peer| peer_view(p)) =~= Seq::<PeerView>::empty());
        }
        s
    }

    /// Columns held in memory right now.
    pub fn loaded_columns(&self) -> (n: usize)
        ensures
            n == self.loaded().len(),
    {
        self.world.loaded()
    }

    /// Supplies the issuer's signing keys, and the time they were read at.
    ///
    /// Until they arrive no login can be verified, and an unverifiable login is refused
    /// rather than waved through.
    pub fn set_identity_keys(&mut self, keys: Jwks, unix_now: i64, now: u64)
        requires
            old(self).well_formed(),
        ensures
            final(self).well_formed(),
            final(self).has_keys(),
            final(self).clock_view() == Some((unix_now, now)),
            final(self).peer_states() == old(self).peer_states(),
            final(self).stage_view() == old(self).stage_view(),
    {
        self.identity_keys = Some(keys);
        self.set_clock(unix_now, now);
    }

    /// Tells the server what time it is, in seconds since the epoch, at monotonic time
    /// `now`. The latest reading wins.
    pub fn set_clock(&mut self, unix_now: i64, now: u64)
        requires
            old(self).well_formed(),
        ensures
            final(self).well_formed(),
            final(self).clock_view() == Some((unix_now, now)),
            final(self).has_keys() == old(self).has_keys(),
            final(self).peer_states() == old(self).peer_states(),
            final(self).stage_view() == old(self).stage_view(),
    {
        self.clock.set(unix_now, now);
    }

    /// Whether logins can be verified at all: keys and a clock are both required.
    pub fn can_verify_identity(&self) -> (b: bool)
        ensures
            b == (self.has_keys() && self.clock_view() is Some),
    {
        self.identity_keys.is_some() && self.clock.is_set()
    }

    /// Seconds since the epoch at monotonic time `now`, when the clock has been read.
    pub fn unix_now(&self, now: u64) -> (t: Option<i64>)
        ensures
            match crate::server::identity::clock_reading(self.clock_view(), now) {
                Some(v) => if i64::MIN <= v <= i64::MAX {
                    t == Some(v as i64)
                } else {
                    t is None
                },
                None => t is None,
            },
    {
        self.clock.unix_now(now)
    }

    /// Stops the login sequence early, for bisecting a client that closes on a packet.
    pub fn set_stage(&mut self, stage: Stage)
        requires
            old(self).well_formed(),
        ensures
            final(self).well_formed(),
            final(self).stage_view() == stage,
            final(self).peer_states() == old(self).peer_states(),
    {
        self.stage = stage;
    }

    /// Peers currently connected or connecting; never more than the transport's cap.
    pub fn sessions(&self) -> (n: usize)
        requires
            self.well_formed(),
        ensures
            n == self.connected().len(),
            n <= self.session_cap(),
    {
        self.listener.sessions()
    }

    /// The next datagram for the socket.
    pub fn poll_transmit(&mut self) -> (d: Option<(Address, Vec<u8>)>)
        requires
            old(self).well_formed(),
        ensures
            final(self).well_formed(),
            final(self).peer_states() == old(self).peer_states(),
            old(self).transport().outgoing().len() == 0 ==> d is None && final(self).transport().outgoing()
                == old(self).transport().outgoing(),
            old(self).transport().outgoing().len() > 0 ==> (d matches Some(x) && (x.0@, x.1@) == old(
                self,
            ).transport().outgoing()[0] && final(self).transport().outgoing() == old(
                self,
            ).transport().outgoing().drop_first()),
            final(self).transport().peers() == old(self).transport().peers(),
    {
        self.listener.poll_transmit()
    }

    /// Where a peer's state is kept, if it has any.
    fn position(&self, peer: &Address) -> (i: Option<usize>)
        ensures
            match i {
                Some(i) => i < self.peers@.len() && self.peers@[i as int].addr@ == peer@,
                None => forall|k: int| 0 <= k < self.peers@.len() ==> self.peers@[k].addr@ != peer@,
            },
    {
        let mut k: usize = 0;
        while k < self.peers.len()
            invariant
                k <= self.peers@.len(),
                forall|m: int| 0 <= m < k ==> self.peers@[m].addr@ != peer@,
            decreases self.peers@.len() - k,
        {
            if self.peers[k].addr.same(peer) {
                return Some(k);
            }
            k = k + 1;
        }
        None
    }
}

/// Whether the transport `after` is `before` with `payload` taken by the session of
/// `peer`: the datagrams it was cut into queued for the socket behind what was queued.
pub open spec fn handed_over(before: Listener, after: Listener, peer: AddressView, payload: Seq<u8>) -> bool {
    exists|i: int, s: Session|
        0 <= i < before.peers().len() && before.peers()[i] == peer && #[trigger] sent_payload(
            before.session_at(i),
            s,
            payload,
        ) && after.outgoing() == before.outgoing() + tagged(peer, s.queued())
}

/// Whether the transport `after` is `before` after offering `payload` to `peer`: the
/// session takes it whenever it fits, and otherwise nothing is queued; no session comes
/// or goes.
pub open spec fn sent_by(before: Listener, after: Listener, peer: AddressView, payload: Seq<u8>) -> bool {
    &&& after.peers() == before.peers()
    &&& handed_over(before, after, peer, payload) || after.outgoing() == before.outgoing()
    &&& before.peers().contains(peer) && send_fits(before.session_at(before.peers().index_of(peer)), payload)
        ==> handed_over(before, after, peer, payload)
    &&& !before.peers().contains(peer) ==> after.outgoing() == before.outgoing()
}

impl Server {
    /// A peer's encrypted stream, when it has one.
    pub closed spec fn cipher_of(&self, peer: AddressView) -> Option<Cipher> {
        if exists|k: int| 0 <= k < self.peers@.len() && #[trigger] self.peers@[k].addr@ == peer {
            let k = choose|k: int| 0 <= k < self.peers@.len() && #[trigger] self.peers@[k].addr@ == peer;
            self.peers@[k].cipher
        } else {
            None
        }
    }

    /// The stream of the peer kept at `i` is what `cipher_of` gives for its address.
    proof fn lemma_cipher_at(&self, i: int)
        requires
            self.well_formed(),
            0 <= i < self.peers@.len(),
        ensures
            self.cipher_of(self.peers@[i].addr@) == self.peers@[i].cipher,
    {
        let peer = self.peers@[i].addr@;
        assert(self.peers@[i].addr@ == peer);
        let k = choose|k: int| 0 <= k < self.peers@.len() && #[trigger] self.peers@[k].addr@ == peer;
        if k != i {
            if k < i {
                assert(self.peers@[k].addr@ != self.peers@[i].addr@);
            } else {
                assert(self.peers@[i].addr@ != self.peers@[k].addr@);
            }
        }
    }
}

/// What putting `batch` to a peer's encrypted stream does: nothing to the transport
/// when the peer has no stream; otherwise the batch, sealed, advances the stream's
/// counter and goes to the transport marked and encrypted.
#[verifier::opaque]
pub open spec fn stream_effect(before: Server, after: Server, peer: AddressView, batch: Seq<PacketView>) -> bool {
    &&& (!encrypted(before.peer_states(), peer) ==> after.transport() == before.transport())
    &&& (encrypted(before.peer_states(), peer) && batch_encoding(batch).len()
        <= usize::MAX - CHECKSUM_LEN + 1 ==> {
        &&& (before.cipher_of(peer) matches Some(c) && (after.cipher_of(peer) matches Some(c2)
            && c2.key() == c.key() && c2.sent_count() == next_count(c.sent_count())
            && c2.received_count() == c.received_count() && c2.sent_stream() == c.sent_stream()
            + sealed(c.sent_count(), batch_encoding(batch).skip(1), c.key())))
        &&& exists|payload: Seq<u8>|
            payload.len() == batch_encoding(batch).len() + CHECKSUM_LEN && payload[0]
                == MARKER && #[trigger] sent_by(before.transport(), after.transport(), peer, payload)
            })
}

impl Server {
    /// Sends one payload to a peer. A peer that went away between deciding and sending
    /// has nothing to receive.
    fn send(&mut self, peer: Address, payload: Vec<u8>, now: u64)
        requires
            old(self).well_formed(),
        ensures
            final(self).well_formed(),
            final(self).peers@ == old(self).peers@,
            final(self).stage == old(self).stage,
            final(self).identity_keys == old(self).identity_keys,
            final(self).clock == old(self).clock,
            final(self).target_protocol == old(self).target_protocol,
            sent_by(old(self).transport(), final(self).transport(), peer@, payload@),
            final(self).offered == old(self).offered,
            final(self).world_name == old(self).world_name,
            final(self).game_version == old(self).game_version,
            final(self).server_version == old(self).server_version,
    {
        let _ = self.listener.send(peer, payload, now);
    }

    /// Sends a batch through the peer's encrypted stream: the marker in the clear, the
    /// rest encrypted. A peer with no stream is sent nothing.
    fn send_encrypted(&mut self, peer: Address, packets: &[Packet], now: u64)
        requires
            old(self).well_formed(),
        ensures
            final(self).well_formed(),
            final(self).peer_states() == old(self).peer_states(),
            final(self).peers@.len() == old(self).peers@.len(),
            forall|k: int| 0 <= k < old(self).peers@.len() ==> #[trigger] final(self).peers@[k].player
                == old(self).peers@[k].player,
            final(self).stage == old(self).stage,
            final(self).identity_keys == old(self).identity_keys,
            final(self).clock == old(self).clock,
            final(self).target_protocol == old(self).target_protocol,
            final(self).offered() == old(self).offered().push((peer@, packets_view(packets@))),
            final(self).world_name == old(self).world_name,
            final(self).game_version == old(self).game_version,
            final(self).server_version == old(self).server_version,
            stream_effect(*old(self), *final(self), peer@, packets_view(packets@)),
    {
        proof {
            reveal(stream_effect);
        }
        self.offered = Ghost(self.offered@.push((peer@, packets_view(packets@))));
        let framed = batch::encode(packets);
        proof {
            assert(framed@[0] == MARKER);
        }
        let body = match ciphertext_of(framed.as_slice()) {
            Some(body) => body,
            None => return ,
        };
        let i = match self.position(&peer) {
            Some(i) => i,
            None => {
                proof {
                    if encrypted(old(self).peer_states(), peer@) {
                        let k = choose|k: int| 0 <= k < old(self).peer_states().len()
                            && #[trigger] old(self).peer_states()[k].0 == peer@ && old(self).peer_states()[k].1;
                        assert(self.peers@[k].addr@ == peer@);
                    }
                }
                return ;
            },
        };
        proof {
            self.lemma_cipher_at(i as int);
            if encrypted(old(self).peer_states(), peer@) {
                let k = choose|k: int| 0 <= k < old(self).peer_states().len()
                    && #[trigger] old(self).peer_states()[k].0 == peer@ && old(self).peer_states()[k].1;
                if k != i {
                    if k < i {
                        assert(self.peers@[k].addr@ != self.peers@[i as int].addr@);
                    } else {
                        assert(self.peers@[i as int].addr@ != self.peers@[k].addr@);
                    }
                }
            }
            if self.peers@[i as int].cipher is Some {
                assert(old(self).peer_states()[i as int].0 == peer@ && old(self).peer_states()[i as int].1);
            }
        }
        if self.peers[i].cipher.is_none() {
            return ;
        }
        if body.len() > usize::MAX - 8 {
            return ;
        }
        let mut payload: Vec<u8> = vec![MARKER];
        let ghost before = self.peers@;
        let sealed = match &mut self.peers[i].cipher {
            Some(cipher) => cipher.encrypt(body),
            None => Vec::new(),
        };
        proof {
            assert(self.peers@.len() == before.len());
            assert forall|k: int| 0 <= k < self.peers@.len() implies self.peers@[k].addr@ == before[k].addr@
                && self.peers@[k].player == before[k].player && (self.peers@[k].cipher is Some)
                == (before[k].cipher is Some) && self.peers@[k].protocol == before[k].protocol by {
            }
            assert(self.peers@.map_values(|p: Peer| peer_view(p)) =~= before.map_values(
                |p: Peer| peer_view(p),
            ));
            self.lemma_cipher_at(i as int);
        }
        let mut j: usize = 0;
        while j < sealed.len()
            invariant
                j <= sealed@.len(),
                payload@ == seq![MARKER] + sealed@.take(j as int),
            decreases sealed@.len() - j,
        {
            payload.push(sealed[j]);
            j = j + 1;
            proof {
                assert(payload@ =~= seq![MARKER] + sealed@.take(j as int));
            }
        }
        proof {
            assert(sealed@.take(j as int) =~= sealed@);
        }
        let ghost sent = payload@;
        let ghost mid = self.peers@;
        self.send(peer, payload, now);
        proof {
            assert(self.peers@ == mid);
            assert(sent.len() == framed@.len() + CHECKSUM_LEN);
            assert(sent[0] == MARKER);
            assert(sent_by(old(self).transport(), self.transport(), peer@, sent));
            self.lemma_cipher_at(i as int);
            assert(old(self).cipher_of(peer@) == before[i as int].cipher);
            assert(self.cipher_of(peer@) == mid[i as int].cipher);
        }
    }

}

/// The columns a player's streaming owes them once centred on `center`: those within
/// the view distance, in sending order, that it does not still remember.
pub open spec fn owed(st: Streaming, center: Column) -> Seq<Column> {
    fresh(
        columns_around_spec(center.0, center.1, st.radius_view()),
        st.remembered().filter(|c: Column| within(c, center, st.radius_view() + FORGET_MARGIN)),
    )
}

/// Whether `after` is `before` moved to `center`: same view distance, the columns far
/// behind forgotten and those around `center` remembered.
pub open spec fn moved_to(before: Streaming, after: Streaming, center: Column) -> bool {
    &&& after.center_view() == center
    &&& after.radius_view() == before.radius_view()
    &&& after.remembered() == before.remembered().filter(
        |c: Column| within(c, center, before.radius_view() + FORGET_MARGIN),
    ) + columns_around_spec(center.0, center.1, before.radius_view()).to_set()
}

impl Server {
    /// A peer's streaming, when it is in the world.
    pub closed spec fn streaming_of(&self, peer: AddressView) -> Option<Streaming> {
        if exists|k: int| 0 <= k < self.peers@.len() && #[trigger] self.peers@[k].addr@ == peer {
            let k = choose|k: int| 0 <= k < self.peers@.len() && #[trigger] self.peers@[k].addr@ == peer;
            match self.peers@[k].player {
                Some(p) => Some(p.streaming),
                None => None,
            }
        } else {
            None
        }
    }

    /// The streaming of the peer kept at `i` is what `streaming_of` gives for its address.
    proof fn lemma_streaming_at(&self, i: int)
        requires
            self.well_formed(),
            0 <= i < self.peers@.len(),
        ensures
            self.streaming_of(self.peers@[i].addr@) == match self.peers@[i].player {
                Some(p) => Some(p.streaming),
                None => None::<Streaming>,
            },
    {
        let peer = self.peers@[i].addr@;
        assert(self.peers@[i].addr@ == peer);
        let k = choose|k: int| 0 <= k < self.peers@.len() && #[trigger] self.peers@[k].addr@ == peer;
        if k != i {
            if k < i {
                assert(self.peers@[k].addr@ != self.peers@[i].addr@);
            } else {
                assert(self.peers@[i].addr@ != self.peers@[k].addr@);
            }
        }
    }
}

impl Server {
    /// Sends what a player is owed around `center`: the publisher update first (it
    /// names the point the client accepts columns around, and without it the columns
    /// are discarded), then each column in `wanted`.
    fn send_columns(
        &mut self,
        peer: Address,
        center: Column,
        feet: i32,
        radius_blocks: u32,
        wanted: Vec<Column>,
        now: u64,
    ) -> (n: usize)
        requires
            old(self).well_formed(),
            -0x0800_0000 <= center.0 < 0x0800_0000,
            -0x0800_0000 <= center.1 < 0x0800_0000,
        ensures
            final(self).well_formed(),
            n == wanted@.len(),
            final(self).peer_states() == old(self).peer_states(),
            forall|k: int| 0 <= k < old(self).peers@.len() ==> #[trigger] final(self).peers@[k].player
                == old(self).peers@[k].player,
            final(self).stage == old(self).stage,
            final(self).identity_keys == old(self).identity_keys,
            final(self).clock == old(self).clock,
            final(self).target_protocol == old(self).target_protocol,
            offered_to(old(self).offered(), final(self).offered(), peer@),
            final(self).world_name == old(self).world_name,
            final(self).game_version == old(self).game_version,
            final(self).server_version == old(self).server_version,
    {
        let update = publisher_update(
            center.0 * CHUNK_WIDTH,
            feet,
            center.1 * CHUNK_WIDTH,
            radius_blocks,
        );
        self.send_encrypted(peer, &[update], now);
        let mut k: usize = 0;
        while k < wanted.len()
            invariant
                self.well_formed(),
                k <= wanted@.len(),
                self.peer_states() == old(self).peer_states(),
                self.peers@.len() == old(self).peers@.len(),
                forall|m: int| 0 <= m < old(self).peers@.len() ==> #[trigger] self.peers@[m].player
                    == old(self).peers@[m].player,
                self.stage == old(self).stage,
                self.identity_keys == old(self).identity_keys,
                self.clock == old(self).clock,
                self.target_protocol == old(self).target_protocol,
                offered_to(old(self).offered(), self.offered(), peer@),
                self.world_name == old(self).world_name,
                self.game_version == old(self).game_version,
                self.server_version == old(self).server_version,
            decreases wanted@.len() - k,
        {
            let (x, z) = wanted[k];
            let column = column_packet(self.world.chunk(x, z), BIOME_PLAINS);
            self.send_encrypted(peer, &[column], now);
            k = k + 1;
        }
        wanted.len()
    }

    /// Moves a player's streaming to `center` and sends what they are owed; how many
    /// columns that was, or nothing for a peer not in the world.
    fn stream_around(&mut self, peer: Address, center: Column, now: u64) -> (n: usize)
        requires
            old(self).well_formed(),
            -0x0800_0000 <= center.0 < 0x0800_0000,
            -0x0800_0000 <= center.1 < 0x0800_0000,
        ensures
            final(self).well_formed(),
            final(self).peer_states() == old(self).peer_states(),
            final(self).stage == old(self).stage,
            final(self).identity_keys == old(self).identity_keys,
            final(self).clock == old(self).clock,
            final(self).target_protocol == old(self).target_protocol,
            match old(self).streaming_of(peer@) {
                None => n == 0 && final(self).streaming_of(peer@) is None,
                Some(st) => n == owed(st, center).len() && (final(self).streaming_of(peer@) matches Some(s2)
                    && moved_to(st, s2, center)),
            },
            offered_to(old(self).offered(), final(self).offered(), peer@),
            final(self).world_name == old(self).world_name,
            final(self).game_version == old(self).game_version,
            final(self).server_version == old(self).server_version,
    {
        let i = match self.position(&peer) {
            Some(i) => i,
            None => return 0,
        };
        proof {
            self.lemma_streaming_at(i as int);
        }
        let ghost before = self.peers@;
        let (wanted, feet, radius_blocks) = match &mut self.peers[i].player {
            Some(player) => {
                let wanted = player.streaming.recentre(center);
                (wanted, player.feet, player.streaming.publisher_radius())
            },
            None => return 0,
        };
        proof {
            assert(self.peers@.len() == before.len());
            assert forall|k: int| 0 <= k < self.peers@.len() implies self.peers@[k].addr@ == before[k].addr@
                && (self.peers@[k].player is Some) == (before[k].player is Some) && (
            self.peers@[k].cipher is Some) == (before[k].cipher is Some) && self.peers@[k].protocol
                == before[k].protocol && player_in_shape(self.peers@[k].player) by {}
            assert(self.peers@.map_values(|p: Peer| peer_view(p)) =~= before.map_values(
                |p: Peer| peer_view(p),
            ));
            self.lemma_streaming_at(i as int);
        }
        let ghost mid = self.peers@;
        let n = self.send_columns(peer, center, feet, radius_blocks, wanted, now);
        proof {
            assert(self.peer_states()[i as int] == old(self).peer_states()[i as int]);
            assert(self.peers@[i as int].player == mid[i as int].player);
            self.lemma_streaming_at(i as int);
        }
        n
    }

    /// Places a peer in the world at spawn with view distance `radius`, sends the world
    /// around it, then tells the client it may appear in it, when the stage runs that
    /// far. `PlayStatus` goes last: a client told to spawn into a world it has not
    /// received ends up standing in nothing.
    pub fn stream_world(&mut self, peer: Address, radius: i32, now: u64) -> (e: Event)
        requires
            old(self).well_formed(),
        ensures
            final(self).well_formed(),
            final(self).stage_view() == old(self).stage_view(),
            final(self).has_keys() == old(self).has_keys(),
            final(self).clock_view() == old(self).clock_view(),
            e matches Event::Spawned { peer: p, .. } && p == peer,
            exists|k: int| 0 <= k < final(self).peer_states().len() && #[trigger] final(self).peer_states()[k].0
                == peer@ && final(self).peer_states()[k].3,
            offered_to(old(self).offered(), final(self).offered(), peer@),
            final(self).world_name_view() == old(self).world_name_view(),
            final(self).game_version_view() == old(self).game_version_view(),
            final(self).server_version_view() == old(self).server_version_view(),
            runs_to(old(self).stage_view(), Stage::Spawn) ==> final(self).offered().len() > old(self).offered().len()
                && final(self).offered().last() == (peer@, seq![status_packet(Status::PlayerSpawn)]),
    {
        let radius = if radius > MAX_STREAM_RADIUS {
            MAX_STREAM_RADIUS
        } else {
            radius
        };
        let player = Player { streaming: Streaming::new(radius), feet: SPAWN_FEET };
        let ghost before = self.peers@;
        let i = match self.position(&peer) {
            Some(i) => {
                self.peers[i].player = Some(player);
                i
            },
            None => {
                self.peers.push(Peer { addr: peer, cipher: None, protocol: None, player: Some(player) });
                self.peers.len() - 1
            },
        };
        proof {
            assert forall|a: int, b: int| 0 <= a < b < self.peers@.len() implies self.peers@[a].addr@
                != self.peers@[b].addr@ by {
                if b == self.peers@.len() - 1 && self.peers@.len() > before.len() {
                    assert(self.peers@[a] == before[a]);
                }
            }
            assert(self.peers@[i as int].player is Some);
        }
        let ghost mid = self.peer_states();
        proof {
            assert(mid[i as int].0 == peer@ && mid[i as int].3);
        }
        let columns = self.stream_around(peer, (0, 0), now);
        if crate::server::dispatch::stage_at_least(self.stage, Stage::Spawn) {
            self.send_encrypted(peer, &[play_status::packet(Status::PlayerSpawn)], now);
        }
        proof {
            assert(self.peer_states()[i as int].0 == peer@ && self.peer_states()[i as int].3);
        }
        Event::Spawned { peer, columns }
    }

    /// Takes the block a player reports standing in, and the height of their feet, and
    /// streams around them if they crossed into a new column: the event says how many
    /// columns that took. A peer not in the world, or one still in its column, gets
    /// nothing.
    pub fn on_player_moved(&mut self, peer: Address, block_x: i32, block_z: i32, feet: i32, now: u64) -> (e:
        Option<Event>)
        requires
            old(self).well_formed(),
        ensures
            final(self).well_formed(),
            final(self).peer_states() == old(self).peer_states(),
            final(self).stage_view() == old(self).stage_view(),
            e matches Some(ev) ==> (ev matches Event::ChunksStreamed { peer: p, chunk_x, chunk_z, .. }
                && p@ == peer@ && chunk_x == crate::server::streaming::column_of_block(block_x)
                && chunk_z == crate::server::streaming::column_of_block(block_z)),
            ({
                let column = (
                    crate::server::streaming::column_of_block(block_x),
                    crate::server::streaming::column_of_block(block_z),
                );
                match old(self).streaming_of(peer@) {
                    None => e is None && final(self).streaming_of(peer@) is None,
                    Some(st) => if column == st.center_view() {
                        e is None && (final(self).streaming_of(peer@) matches Some(s2) && s2.center_view()
                            == st.center_view() && s2.radius_view() == st.radius_view() && s2.remembered()
                            == st.remembered())
                    } else {
                        (e matches Some(Event::ChunksStreamed { peer: p, chunk_x, chunk_z, columns }) && p == peer
                            && chunk_x == column.0 && chunk_z == column.1 && columns == owed(st, column).len())
                            && (final(self).streaming_of(peer@) matches Some(s2) && moved_to(st, s2, column))
                    },
                }
            }),
    {
        let i = match self.position(&peer) {
            Some(i) => i,
            None => return None,
        };
        proof {
            self.lemma_streaming_at(i as int);
        }
        // A position is a float and a column is not: block -1 belongs to column -1.
        let center = (column_of(block_x), column_of(block_z));
        let ghost before = self.peers@;
        let step = match &mut self.peers[i].player {
            Some(player) => {
                player.feet = feet;
                let r = player.streaming.publisher_radius();
                match player.streaming.walk_to(center) {
                    Some(wanted) => Some((wanted, r)),
                    None => None,
                }
            },
            None => None,
        };
        proof {
            assert(self.peers@.len() == before.len());
            assert forall|k: int| 0 <= k < self.peers@.len() implies self.peers@[k].addr@ == before[k].addr@
                && (self.peers@[k].player is Some) == (before[k].player is Some) && (
            self.peers@[k].cipher is Some) == (before[k].cipher is Some) && self.peers@[k].protocol
                == before[k].protocol && player_in_shape(self.peers@[k].player) by {}
            assert(self.peers@.map_values(|p: Peer| peer_view(p)) =~= before.map_values(
                |p: Peer| peer_view(p),
            ));
            self.lemma_streaming_at(i as int);
        }
        let ghost mid = self.peers@;
        match step {
            Some((wanted, r)) => {
                let columns = self.send_columns(peer, center, feet, r, wanted, now);
                proof {
                    assert(self.peer_states()[i as int] == old(self).peer_states()[i as int]);
                    assert(self.peers@[i as int].player == mid[i as int].player);
                    self.lemma_streaming_at(i as int);
                }
                Some(Event::ChunksStreamed { peer, chunk_x: center.0, chunk_z: center.1, columns })
            },
            None => None,
        }
    }
}

/// Whether a peer has any state kept.
pub open spec fn known(states: Seq<PeerView>, peer: AddressView) -> bool {
    exists|k: int| 0 <= k < states.len() && #[trigger] states[k].0 == peer
}

/// The bytes of a slice, owned.
fn owned(s: &[u8]) -> (v: Vec<u8>)
    ensures
        v@ == s@,
{
    let mut w = crate::protocol::bytes::Writer::new();
    w.bytes(s);
    w.finish()
}

impl Server {
    /// Forgets everything kept about a peer that went away. Keeping it would leak a set
    /// of columns per session for as long as the server runs.
    pub fn forget(&mut self, peer: Address)
        requires
            old(self).well_formed(),
        ensures
            final(self).well_formed(),
            !known(final(self).peer_states(), peer@),
            forall|p: AddressView| #[trigger] known(final(self).peer_states(), p) ==> known(
                old(self).peer_states(),
                p,
            ),
            final(self).stage_view() == old(self).stage_view(),
            final(self).has_keys() == old(self).has_keys(),
            final(self).clock_view() == old(self).clock_view(),
            final(self).transport() == old(self).transport(),
    {
        let ghost before = self.peers@;
        match self.position(&peer) {
            Some(i) => {
                self.peers.remove(i);
                proof {
                    assert forall|k: int| 0 <= k < self.peers@.len() implies self.peers@[k].addr@ != peer@ by {
                        if k < i {
                            assert(self.peers@[k] == before[k]);
                        } else {
                            assert(self.peers@[k] == before[k + 1]);
                        }
                    }
                    assert forall|a: int, b: int| 0 <= a < b < self.peers@.len() implies self.peers@[a].addr@
                        != self.peers@[b].addr@ by {
                        let a2 = if a < i { a } else { a + 1 };
                        let b2 = if b < i { b } else { b + 1 };
                        assert(self.peers@[a] == before[a2]);
                        assert(self.peers@[b] == before[b2]);
                    }
                    assert forall|k: int| 0 <= k < self.peers@.len() implies player_in_shape(
                        (#[trigger] self.peers@[k]).player,
                    ) by {
                        let k2 = if k < i { k } else { k + 1 };
                        assert(self.peers@[k] == before[k2]);
                    }
                    assert forall|p: AddressView| #[trigger] known(self.peer_states(), p) implies known(
                        old(self).peer_states(),
                        p,
                    ) by {
                        let k = choose|k: int| 0 <= k < self.peer_states().len() && #[trigger] self.peer_states()[k].0 == p;
                        let k2 = if k < i { k } else { k + 1 };
                        assert(self.peers@[k] == before[k2]);
                        assert(old(self).peer_states()[k2].0 == p);
                    }
                }
            },
            None => {},
        }
    }

    /// Drives timeouts and retransmission, forgetting every peer that went away.
    pub fn tick(&mut self, now: u64) -> (events: Vec<Event>)
        requires
            old(self).well_formed(),
        ensures
            final(self).well_formed(),
            forall|j: int| 0 <= j < events@.len() ==> (#[trigger] events@[j] matches Event::Disconnected(p, _)
                && !known(final(self).peer_states(), p@)),
            final(self).stage_view() == old(self).stage_view(),
            final(self).transport().peers() == kept_on_tick(
                old(self).transport(),
                now,
                old(self).transport().peers().len(),
            ),
            ({
                let gone = closed_on_tick(old(self).transport(), now, old(self).transport().peers().len());
                &&& events@.len() == gone.len()
                &&& forall|j: int| 0 <= j < events@.len() ==> (#[trigger] events@[j] matches Event::Disconnected(a, r)
                    && (a@, r) == gone[j])
            }),
    {
        let mut rak = self.listener.tick(now);
        let ghost all = rak@;
        let ghost l1 = self.listener;
        let ghost mut c: int = 0;
        let mut events: Vec<Event> = Vec::new();
        while rak.len() > 0
            invariant
                self.well_formed(),
                self.stage_view() == old(self).stage_view(),
                forall|j: int| 0 <= j < events@.len() ==> (#[trigger] events@[j] matches Event::Disconnected(p, _)
                    && !known(self.peer_states(), p@)),
                self.listener == l1,
                0 <= c <= all.len(),
                rak@ == all.subrange(c, all.len() as int),
                events@.len() == c,
                forall|j: int| 0 <= j < all.len() ==> (#[trigger] all[j]) is Disconnected,
                forall|j: int| 0 <= j < c ==> (#[trigger] events@[j] matches Event::Disconnected(a, r)
                    && all[j] == RakEvent::Disconnected(a, r)),
            decreases rak@.len(),
        {
            let ghost prev = events@;
            let e = rak.remove(0);
            proof {
                assert(e == all[c]);
                c = c + 1;
                assert(rak@ =~= all.subrange(c, all.len() as int));
            }
            match e {
                RakEvent::Disconnected(peer, reason) => {
                    let ghost prev = events@;
                    self.forget(peer);
                    events.push(Event::Disconnected(peer, reason));
                    proof {
                        assert forall|j: int| 0 <= j < events@.len() implies (#[trigger] events@[j] matches Event::Disconnected(p, _)
                            && !known(self.peer_states(), p@)) by {
                            if j < prev.len() {
                                assert(events@[j] == prev[j]);
                            }
                        }
                        assert forall|j: int| 0 <= j < c implies (#[trigger] events@[j] matches Event::Disconnected(a, r)
                            && all[j] == RakEvent::Disconnected(a, r)) by {
                            if j < prev.len() {
                                assert(events@[j] == prev[j]);
                            }
                        }
                    }
                },
                _ => {},
            }
        }
        proof {
            assert(c == all.len());
            assert forall|j: int| 0 <= j < events@.len() implies (#[trigger] events@[j] matches Event::Disconnected(a, r)
                && (a@, r) == closed_on_tick(old(self).transport(), now, old(self).transport().peers().len())[j]) by {
                assert(all[j] matches RakEvent::Disconnected(a, r) && (a@, r) == closed_on_tick(
                    old(self).listener,
                    now,
                    old(self).listener.peers().len(),
                )[j]);
            }
        }
        events
    }
}

/// The limits a login is decoded under: the defaults.
pub open spec fn login_limits() -> Limits {
    Limits { max_identity: 65536usize, max_client_data: 2097152usize }
}

/// Seconds since the epoch a clock anchored at `anchor` gives at `now`, when it has
/// been read and the reading fits.
pub open spec fn clock_now(anchor: Option<(i64, u64)>, now: u64) -> Option<i64> {
    match crate::server::identity::clock_reading(anchor, now) {
        Some(v) => if i64::MIN <= v <= i64::MAX {
            Some(v as i64)
        } else {
            None
        },
        None => None,
    }
}

/// What a server with issuer keys `keys`, whose clock reads `now`, makes of a login
/// body: `Err(None)` when it does not decode, `Err(Some(why))` when its identity does
/// not hold up, and otherwise the protocol it declares and the claims vouched for.
pub open spec fn login_outcome(
    body: Seq<u8>,
    keys: Option<Seq<JwkView>>,
    now: Option<i64>,
) -> Result<(u32, ClaimsView), Option<IdentityRefusal>> {
    match login_spec(body, login_limits()) {
        Err(_) => Err(None),
        Ok((protocol, identity, _)) => match identity_check(decode_utf8(identity), keys, now) {
            Ok(c) => Ok((protocol, c)),
            Err(r) => Err(Some(r)),
        },
    }
}

/// The packet a refused login is answered with: `PlayStatus` InvalidTenant.
pub open spec fn refusal_packet() -> PacketView {
    (ID_PLAY_STATUS, 0u8, 0u8, be32(status_value(Status::InvalidTenant) as u32))
}

/// The settings a request in the clear is answered with: no compression, no throttle.
pub open spec fn settings_packet() -> PacketView {
    (
        ID_NETWORK_SETTINGS,
        0u8,
        0u8,
        network_settings_body(
            NetworkSettings {
                compression_threshold: 0,
                compression: Compression::Uncompressed,
                client_throttle_enabled: false,
                client_throttle_threshold: 0,
                client_throttle_scalar: 0,
            },
        ),
    )
}

/// Whether `after` and `e` are what a login body does to a server `before` at `now`:
/// one that does not decode is reported whole and changes nothing; one whose identity
/// does not hold up is refused with the reason, answered in the clear with
/// `PlayStatus` InvalidTenant, and leaves no state behind; one that holds up records the
/// protocol the client declared.
pub open spec fn login_effect(before: Server, after: Server, peer: Address, body: Seq<u8>, now: u64, e: Event) -> bool {
    &&& after.stage_view() == before.stage_view()
    &&& after.has_keys() == before.has_keys()
    &&& after.clock_view() == before.clock_view()
    &&& after.issuer_keys() == before.issuer_keys()
    &&& match login_outcome(body, before.issuer_keys(), clock_now(before.clock_view(), now)) {
        Err(None) => (e matches Event::Undecodable(p, b) && p == peer && b@ == body) && after.peer_states()
            == before.peer_states() && after.transport() == before.transport(),
        Err(Some(r)) => (e matches Event::LoginRejected { peer: p, reason } && p == peer && reason@
            == identity_refusal_text(r)) && after.peer_states() == before.peer_states() && sent_by(
            before.transport(),
            after.transport(),
            peer@,
            batch_encoding(seq![refusal_packet()]),
        ),
        Ok((protocol, _)) => (e matches Event::LoginAccepted { peer: p, client_protocol, .. } && p == peer
            && client_protocol == protocol) && known(after.peer_states(), peer@) && after.declared(peer@)
            == Some(protocol) && after.transport() == before.transport(),
    }
}

/// Whether `after` and `e` are what one packet sent in the clear does to a server
/// `before` at `now`: a settings request is answered with uncompressed settings and
/// reported with the protocol the client declared; a login is verified; a handshake and
/// a packet not handled yet are reported and change nothing.
pub open spec fn clear_effect(before: Server, after: Server, peer: Address, p: PacketView, now: u64, e: Event) -> bool {
    match clear_step_of(p.0, p.3) {
        ClearStep::Settings { client_protocol } => {
            &&& e == (Event::NetworkSettingsRequested { peer, client_protocol })
            &&& after.stage_view() == before.stage_view()
            &&& after.has_keys() == before.has_keys()
            &&& after.clock_view() == before.clock_view()
            &&& after.issuer_keys() == before.issuer_keys()
            &&& after.peer_states() == before.peer_states()
            &&& sent_by(before.transport(), after.transport(), peer@, batch_encoding(seq![settings_packet()]))
        },
        ClearStep::Login => login_effect(before, after, peer, p.3, now, e),
        ClearStep::Handshake => e == Event::HandshakeAccepted(peer) && after == before,
        ClearStep::Unhandled => (e matches Event::Unhandled { peer: a, id, body } && a == peer && id == p.0
            && body@ == p.3) && after == before,
    }
}

impl Server {
    /// The issuer's keys, as the contracts see them, once supplied.
    pub closed spec fn issuer_keys(&self) -> Option<Seq<JwkView>> {
        match self.identity_keys {
            Some(k) => Some(k@),
            None => None,
        }
    }
}

impl Server {
    /// Records what a verified login established: the protocol the client declared and,
    /// when key agreement succeeded, the encrypted stream.
    fn install_peer(&mut self, peer: Address, protocol: u32, cipher: Option<Cipher>)
        requires
            old(self).well_formed(),
        ensures
            final(self).well_formed(),
            known(final(self).peer_states(), peer@),
            forall|p: AddressView| p != peer@ ==> (#[trigger] known(final(self).peer_states(), p)
                <==> known(old(self).peer_states(), p)),
            final(self).stage_view() == old(self).stage_view(),
            final(self).has_keys() == old(self).has_keys(),
            final(self).clock_view() == old(self).clock_view(),
            final(self).stage == old(self).stage,
            final(self).target_protocol == old(self).target_protocol,
            final(self).transport() == old(self).transport(),
            final(self).declared(peer@) == Some(protocol),
            final(self).identity_keys == old(self).identity_keys,
            final(self).clock == old(self).clock,
    {
        let ghost before = self.peers@;
        let i = match self.position(&peer) {
            Some(i) => {
                self.peers[i].protocol = Some(protocol);
                match cipher {
                    Some(c) => {
                        self.peers[i].cipher = Some(c);
                    },
                    None => {},
                }
                i
            },
            None => {
                self.peers.push(Peer { addr: peer, cipher, protocol: Some(protocol), player: None });
                self.peers.len() - 1
            },
        };
        proof {
            assert(self.peers@.len() >= before.len());
            assert forall|k: int| 0 <= k < before.len() implies self.peers@[k].addr@ == before[k].addr@
                && self.peers@[k].player == before[k].player by {}
            assert forall|a: int, b: int| 0 <= a < b < self.peers@.len() implies self.peers@[a].addr@
                != self.peers@[b].addr@ by {
                if b >= before.len() {
                    assert(self.peers@[b].addr@ == peer@);
                }
            }
            assert forall|k: int| 0 <= k < self.peers@.len() implies player_in_shape(
                (#[trigger] self.peers@[k]).player,
            ) by {
                if k < before.len() {
                    assert(self.peers@[k].player == before[k].player);
                }
            }
            assert(self.peer_states()[i as int].0 == peer@);
            let k = choose|k: int| 0 <= k < self.peers@.len() && #[trigger] self.peers@[k].addr@ == peer@;
            if k != i {
                if k < i {
                    assert(self.peers@[k].addr@ != self.peers@[i as int].addr@);
                } else {
                    assert(self.peers@[i as int].addr@ != self.peers@[k].addr@);
                }
            }
            assert forall|p: AddressView| p != peer@ implies (#[trigger] known(self.peer_states(), p)
                <==> known(old(self).peer_states(), p)) by {
                if known(self.peer_states(), p) {
                    let k = choose|k: int| 0 <= k < self.peer_states().len() && #[trigger] self.peer_states()[k].0 == p;
                    assert(k < before.len());
                    assert(old(self).peer_states()[k].0 == p);
                }
                if known(old(self).peer_states(), p) {
                    let k = choose|k: int| 0 <= k < old(self).peer_states().len() && #[trigger] old(self).peer_states()[k].0 == p;
                    assert(self.peer_states()[k].0 == p);
                }
            }
        }
    }

    /// Verifies a login and, if it holds, agrees a session key with the key the issuer
    /// signed into its claims.
    ///
    /// A refused login is told so in the clear, before encryption starts, and leaves
    /// nothing behind: treating a peer that never agreed on a key as encrypted would
    /// turn every later packet into a decode failure. A server that cannot verify, for
    /// want of the issuer's keys or of a clock, refuses.
    pub fn on_login(&mut self, peer: Address, body: &[u8], now: u64) -> (events: Vec<Event>)
        requires
            old(self).well_formed(),
        ensures
            final(self).well_formed(),
            final(self).stage_view() == old(self).stage_view(),
            final(self).has_keys() == old(self).has_keys(),
            final(self).clock_view() == old(self).clock_view(),
            events@.len() == 1,
            events@[0] matches Event::Undecodable(p, b) ==> p == peer && b@ == body@
                && final(self).peer_states() == old(self).peer_states(),
            events@[0] matches Event::LoginRejected { peer: p, .. } ==> p == peer
                && final(self).peer_states() == old(self).peer_states(),
            events@[0] matches Event::LoginAccepted { peer: p, .. } ==> p == peer && old(self).has_keys()
                && old(self).clock_view() is Some && known(final(self).peer_states(), peer@),
            events@[0] is Undecodable || events@[0] is LoginRejected || events@[0] is LoginAccepted,
            match login_outcome(body@, old(self).issuer_keys(), clock_now(old(self).clock_view(), now)) {
                Err(None) => (events@[0] matches Event::Undecodable(p, b) && p == peer && b@ == body@)
                    && final(self).transport() == old(self).transport(),
                Err(Some(r)) => (events@[0] matches Event::LoginRejected { peer: p, reason } && p == peer
                    && reason@ == identity_refusal_text(r)) && sent_by(
                    old(self).transport(),
                    final(self).transport(),
                    peer@,
                    batch_encoding(seq![refusal_packet()]),
                ),
                Ok((protocol, _)) => (events@[0] matches Event::LoginAccepted { peer: p, client_protocol, .. }
                    && p == peer && client_protocol == protocol) && known(final(self).peer_states(), peer@)
                    && final(self).declared(peer@) == Some(protocol) && final(self).transport() == old(
                    self,
                ).transport(),
            },
            login_effect(*old(self), *final(self), peer, body@, now, events@[0]),
    {
        let limits = Limits::default();
        let login = match Login::decode(body, &limits) {
            Ok(login) => login,
            Err(_) => {
                let copy = owned(body);
                return vec![Event::Undecodable(peer, copy)];
            },
        };
        let unix_now = self.clock.unix_now(now);
        let keys = match &self.identity_keys {
            Some(keys) => Some(keys),
            None => None,
        };
        proof {
            assert(limits == login_limits());
            vstd::utf8::encode_utf8_decode_utf8(login.identity@);
            assert(decode_utf8(login.identity.spec_bytes()) == login.identity@);
            assert(crate::server::identity::keys_view(keys) == old(self).issuer_keys());
            assert(unix_now == clock_now(old(self).clock_view(), now));
        }
        let claims = match verify_identity(login.identity, keys, unix_now) {
            Ok(claims) => claims,
            Err(refusal) => {
                let refusal_status = play_status::packet(Status::InvalidTenant);
                let refusal_batch = [refusal_status];
                let reply = batch::encode(&refusal_batch);
                proof {
                    assert(packets_view(refusal_batch@) =~= seq![refusal_packet()]);
                }
                self.send(peer, reply, now);
                return vec![Event::LoginRejected { peer, reason: refusal.to_text() }];
            },
        };

        // The key to agree with is the one the issuer signed for, not whatever the login
        // also happens to carry: that is the whole point of having verified it.
        let cipher = match client_key(&claims) {
            Some(client) => match Handshake::new() {
                Ok(key) => {
                    let salt = *key.salt();
                    match key.agree(client.as_slice(), &salt) {
                        Ok(session) => Some(Cipher::new(&session)),
                        Err(_) => None,
                    }
                },
                Err(_) => None,
            },
            None => None,
        };
        self.install_peer(peer, login.client_protocol, cipher);
        vec![Event::LoginAccepted {
            peer,
            client_protocol: login.client_protocol,
            gamertag: claims.xname,
        }]
    }
}

/// An event with the count of columns streamed left out: how many columns a spawn
/// takes depends on what the player was sent before.
pub open spec fn without_counts(e: Event) -> Event {
    match e {
        Event::Spawned { peer, .. } => Event::Spawned { peer, columns: 0 },
        _ => e,
    }
}

/// The events one packet out of the encrypted stream gives, spawn counts left out.
pub open spec fn step_events(peer: Address, step: EncryptedStep) -> Seq<Event> {
    match step {
        EncryptedStep::Handshake { status, .. } => seq![
            Event::HandshakeAccepted(peer),
            Event::PlayStatusSent { peer, status },
        ],
        EncryptedStep::Packs { response, follow_up } => seq![Event::PacksAnswered { peer, response }]
            + match follow_up {
            PackFollowUp::SendWorld { .. } => seq![Event::ReadyForWorld(peer), Event::WorldSent(peer)],
            _ => Seq::<Event>::empty(),
        },
        EncryptedStep::Radius { requested, granted, stream } => seq![
            Event::ChunkRadiusGranted { peer, requested, granted },
        ] + if stream {
            seq![Event::Spawned { peer, columns: 0 }]
        } else {
            Seq::<Event>::empty()
        },
        EncryptedStep::Initialized => seq![Event::PlayerInitialized(peer)],
        EncryptedStep::Moved(input) => seq![Event::PlayerMoved { peer, input }],
        EncryptedStep::Nothing => Seq::<Event>::empty(),
        EncryptedStep::Decrypted { id, len } => seq![Event::Decrypted { peer, id, len }],
    }
}

/// The events a run of packets out of the encrypted stream gives, in order, spawn
/// counts left out.
pub open spec fn plaintext_events(
    peer: Address,
    ps: Seq<PacketView>,
    stage: Stage,
    declared: Option<u32>,
    target: u32,
) -> Seq<Event>
    decreases ps.len(),
{
    if ps.len() == 0 {
        Seq::<Event>::empty()
    } else {
        plaintext_events(peer, ps.drop_last(), stage, declared, target) + step_events(
            peer,
            encrypted_step_of(ps.last().0, ps.last().3, stage, declared, target),
        )
    }
}

/// Whether `events` are what a plaintext out of a peer's encrypted stream gives: the
/// plaintext reported whole when it does not split into packets, else each packet's
/// events in order, spawn counts left out.
pub open spec fn answers_plaintext(
    events: Seq<Event>,
    peer: Address,
    plaintext: Seq<u8>,
    stage: Stage,
    declared: Option<u32>,
    target: u32,
) -> bool {
    match decrypted_packets_of(plaintext) {
        Err(_) => events.len() == 1 && (events[0] matches Event::Undecodable(p, b) && p == peer && b@
            == plaintext),
        Ok(ps) => events.map_values(|e: Event| without_counts(e)) == plaintext_events(
            peer,
            ps,
            stage,
            declared,
            target,
        ),
    }
}

/// Whether `e` is what a packet sent in the clear gives.
pub open spec fn answers_clear(e: Event, peer: Address, p: PacketView) -> bool {
    match clear_step_of(p.0, p.3) {
        ClearStep::Settings { client_protocol } => e == (Event::NetworkSettingsRequested { peer, client_protocol }),
        ClearStep::Login => (e matches Event::Undecodable(a, b) && a == peer && b@ == p.3) || (
        e matches Event::LoginRejected { peer: a, .. } && a == peer) || (
        e matches Event::LoginAccepted { peer: a, .. } && a == peer),
        ClearStep::Handshake => e == Event::HandshakeAccepted(peer),
        ClearStep::Unhandled => e matches Event::Unhandled { peer: a, id, body } && a == peer && id == p.0
            && body@ == p.3,
    }
}

/// Whether a peer has an encrypted stream.
pub open spec fn encrypted(states: Seq<PeerView>, peer: AddressView) -> bool {
    exists|k: int| 0 <= k < states.len() && #[trigger] states[k].0 == peer && states[k].1
}

/// Whether `s` is the description of a flat world named `world_name`, announced for
/// game version `vanilla` by server version `server`.
pub open spec fn flat_world(s: StartGame, world_name: Seq<char>, vanilla: Seq<char>, server: Seq<char>) -> bool {
    &&& s.entity_id == 1
    &&& s.runtime_id == 1
    &&& s.game_type == GameType::Creative
    &&& s.position == (0u32, SPAWN_HEIGHT_BITS, 0u32)
    &&& s.rotation == (0u32, 0u32)
    &&& s.seed == 0
    &&& s.generator == Generator::Flat
    &&& s.spawn == (0i32, 70i32, 0i32)
    &&& s.world_name@ == world_name
    &&& s.vanilla_version@ == vanilla
    &&& s.server_version@ == server
}

/// The three empty registries, one batch each.
pub open spec fn registry_offers(peer: AddressView) -> Seq<Offer> {
    seq![
        (peer, seq![(ID_ITEM_REGISTRY, 0u8, 0u8, varint_encoding(0))]),
        (peer, seq![(ID_AVAILABLE_ACTOR_IDENTIFIERS, 0u8, 0u8, empty_nbt())]),
        (peer, seq![(ID_BIOME_DEFINITION_LIST, 0u8, 0u8, varint_encoding(0) + varint_encoding(0))]),
    ]
}

/// Whether `block` is what one packet out of the encrypted stream has the server put to
/// the peer's stream: the login's status (and the empty pack offer when it stands
/// well) for a handshake; the empty pack stack, or the world description (and the
/// empty registries when bisecting stops at the world) for a pack answer; the granted
/// radius, then the world around the spawn ending with the spawn status, for a view
/// distance request; nothing otherwise.
pub open spec fn sends_of(
    block: Seq<Offer>,
    peer: AddressView,
    step: EncryptedStep,
    stage: Stage,
    world_name: Seq<char>,
    game_version: Seq<char>,
    server_version: Seq<char>,
) -> bool {
    match step {
        EncryptedStep::Handshake { status, offer_packs } => block == seq![(peer, seq![status_packet(status)])]
            + if offer_packs {
            seq![(peer, seq![(ID_RESOURCE_PACKS_INFO, 0u8, 0u8, packs_info_empty_body())])]
        } else {
            Seq::<Offer>::empty()
        },
        EncryptedStep::Packs { follow_up, .. } => match follow_up {
            PackFollowUp::SendStack => block == seq![
                (peer, seq![(ID_RESOURCE_PACK_STACK, 0u8, 0u8, pack_stack_empty_body(encode_utf8(game_version)))]),
            ],
            PackFollowUp::SendWorld { registries } => {
                &&& block.len() == 1 + if registries {
                    3int
                } else {
                    0int
                }
                &&& exists|s: StartGame|
                    flat_world(s, world_name, game_version, server_version) && block[0] == (
                        peer,
                        seq![(ID_START_GAME, 0u8, 0u8, #[trigger] start_game_body(s))],
                    )
                &&& registries ==> block.subrange(1, 4) == registry_offers(peer)
            },
            PackFollowUp::Nothing => block.len() == 0,
        },
        EncryptedStep::Radius { granted, stream, .. } => {
            &&& block.len() >= 1
            &&& block[0] == (
                peer,
                seq![(ID_CHUNK_RADIUS_UPDATED, 0u8, 0u8, varint_encoding(zigzag32(granted) as nat))],
            )
            &&& forall|k: int| 0 <= k < block.len() ==> (#[trigger] block[k]).0 == peer
            &&& !stream ==> block.len() == 1
            &&& stream && runs_to(stage, Stage::Spawn) ==> block.len() >= 2 && block.last() == (
                peer,
                seq![status_packet(Status::PlayerSpawn)],
            )
        },
        _ => block.len() == 0,
    }
}

/// The batches of consecutive blocks, in order.
pub open spec fn flatten_offers(bs: Seq<Seq<Offer>>) -> Seq<Offer>
    decreases bs.len(),
{
    if bs.len() == 0 {
        Seq::empty()
    } else {
        flatten_offers(bs.drop_last()) + bs.last()
    }
}

/// Whether `sent` is what a run of packets out of the encrypted stream has the server
/// put to the peer's stream: one block per packet, in order.
pub open spec fn sends_follow(
    sent: Seq<Offer>,
    peer: AddressView,
    ps: Seq<PacketView>,
    stage: Stage,
    declared: Option<u32>,
    target: u32,
    world_name: Seq<char>,
    game_version: Seq<char>,
    server_version: Seq<char>,
) -> bool {
    exists|bs: Seq<Seq<Offer>>|
        bs.len() == ps.len() && #[trigger] flatten_offers(bs) == sent && forall|j: int|
            0 <= j < bs.len() ==> sends_of(
                #[trigger] bs[j],
                peer,
                encrypted_step_of(ps[j].0, ps[j].3, stage, declared, target),
                stage,
                world_name,
                game_version,
                server_version,
            )
}

impl Server {
    /// The protocol a peer declared at login, if it is known and declared one.
    pub closed spec fn declared(&self, peer: AddressView) -> Option<u32> {
        if exists|k: int| 0 <= k < self.peers@.len() && #[trigger] self.peers@[k].addr@ == peer {
            let k = choose|k: int| 0 <= k < self.peers@.len() && #[trigger] self.peers@[k].addr@ == peer;
            self.peers@[k].protocol
        } else {
            None
        }
    }

    /// The protocol the server speaks.
    pub closed spec fn target(&self) -> u32 {
        self.target_protocol
    }

    /// Whether a peer is in the world: it was spawned and not forgotten since.
    pub fn in_world(&self, peer: &Address) -> (b: bool)
        requires
            self.well_formed(),
        ensures
            b == (self.streaming_of(peer@) is Some),
    {
        match self.position(peer) {
            Some(i) => {
                proof {
                    self.lemma_streaming_at(i as int);
                }
                self.peers[i].player.is_some()
            },
            None => false,
        }
    }

    /// Whether a peer has an encrypted stream: a login verified and a key was agreed.
    pub fn encrypts(&self, peer: &Address) -> (b: bool)
        requires
            self.well_formed(),
        ensures
            b == encrypted(self.peer_states(), peer@),
    {
        match self.position(peer) {
            Some(i) => {
                let b = self.peers[i].cipher.is_some();
                proof {
                    assert(self.peer_states()[i as int].0 == peer@);
                    if encrypted(self.peer_states(), peer@) {
                        let k = choose|k: int| 0 <= k < self.peer_states().len()
                            && #[trigger] self.peer_states()[k].0 == peer@ && self.peer_states()[k].1;
                        if k != i {
                            if k < i {
                                assert(self.peers@[k].addr@ != self.peers@[i as int].addr@);
                            } else {
                                assert(self.peers@[i as int].addr@ != self.peers@[k].addr@);
                            }
                        }
                    }
                }
                b
            },
            None => {
                proof {
                    if encrypted(self.peer_states(), peer@) {
                        let k = choose|k: int| 0 <= k < self.peer_states().len()
                            && #[trigger] self.peer_states()[k].0 == peer@ && self.peer_states()[k].1;
                        assert(self.peers@[k].addr@ == peer@);
                    }
                }
                false
            },
        }
    }

    /// The protocol a peer declared at login.
    fn declared_protocol(&self, peer: &Address) -> (d: Option<u32>)
        requires
            self.well_formed(),
        ensures
            d == self.declared(peer@),
    {
        match self.position(peer) {
            Some(i) => {
                proof {
                    let k = choose|k: int| 0 <= k < self.peers@.len() && #[trigger] self.peers@[k].addr@ == peer@;
                    if k != i {
                        if k < i {
                            assert(self.peers@[k].addr@ != self.peers@[i as int].addr@);
                        } else {
                            assert(self.peers@[i as int].addr@ != self.peers@[k].addr@);
                        }
                    }
                }
                self.peers[i].protocol
            },
            None => None,
        }
    }

    /// Carries out what packets out of a peer's encrypted stream ask for.
    ///
    /// A plaintext that does not split into packets is reported whole. Otherwise each
    /// packet gives the events its step names, in order: the handshake is answered with
    /// where the login stands (and the pack offer, when it stands well), pack answers
    /// with the stack or the world description, a view distance request with the grant
    /// and, when the stage runs that far, the world itself.
    /// Answers the client switching to the encrypted stream: where its login stands, and the
    /// empty pack offer when it stands well.
    #[verifier::spinoff_prover]
    fn answer_handshake(&mut self, peer: Address, status: Status, offer_packs: bool, now: u64) -> (events: Vec<Event>)
        requires
            old(self).well_formed(),
        ensures
            final(self).well_formed(),
            final(self).stage_view() == old(self).stage_view(),
            final(self).has_keys() == old(self).has_keys(),
            final(self).clock_view() == old(self).clock_view(),
            final(self).world_name_view() == old(self).world_name_view(),
            final(self).game_version_view() == old(self).game_version_view(),
            final(self).server_version_view() == old(self).server_version_view(),
            events@.map_values(|e: Event| without_counts(e)) == step_events(peer, EncryptedStep::Handshake { status, offer_packs }),
            forall|j: int| 0 <= j < events@.len() ==> !(#[trigger] events@[j] is Disconnected) && !(events@[j] is Connected),
            offered_to(old(self).offered(), final(self).offered(), peer@),
            sends_of(
                final(self).offered().subrange(old(self).offered().len() as int, final(self).offered().len() as int),
                peer@,
                EncryptedStep::Handshake { status, offer_packs },
                old(self).stage_view(),
                old(self).world_name_view(),
                old(self).game_version_view(),
                old(self).server_version_view(),
            ),
    {
        let ghost o0 = self.offered();
        let mut events: Vec<Event> = Vec::new();
        events.push(Event::HandshakeAccepted(peer));
        let reply = [play_status::packet(status)];
        proof {
            assert(packets_view(reply@) =~= seq![status_packet(status)]);
        }
        self.send_encrypted(peer, &reply, now);
        events.push(Event::PlayStatusSent { peer, status });
        let ghost first = (peer@, seq![status_packet(status)]);
        let ghost second = (peer@, seq![(ID_RESOURCE_PACKS_INFO, 0u8, 0u8, packs_info_empty_body())]);
        if offer_packs {
            let offer = [resource_packs::packs_info_empty()];
            proof {
                assert(packets_view(offer@) =~= second.1);
            }
            self.send_encrypted(peer, &offer, now);
            proof {
                assert(self.offered() == o0.push(first).push(second));
            }
        }
        proof {
            let block = self.offered().subrange(o0.len() as int, self.offered().len() as int);
            if offer_packs {
                assert(block =~= seq![first] + seq![second]);
            } else {
                assert(block =~= seq![first] + Seq::<Offer>::empty());
            }
            assert(o0.is_prefix_of(self.offered()));
            assert forall|k: int| o0.len() <= k < self.offered().len() implies (#[trigger] self.offered()[k]).0
                == peer@ by {
                assert(self.offered()[k] == block[k - o0.len()]);
            }
            assert(events@.map_values(|e: Event| without_counts(e)) =~= step_events(
                peer,
                EncryptedStep::Handshake { status, offer_packs },
            ));
        }
        events
    }

    /// Answers the client's pack response: the empty stack, or the world description.
    #[verifier::spinoff_prover]
    fn answer_packs(&mut self, peer: Address, response: Response, follow_up: PackFollowUp, now: u64) -> (events: Vec<Event>)
        requires
            old(self).well_formed(),
        ensures
            final(self).well_formed(),
            final(self).stage_view() == old(self).stage_view(),
            final(self).has_keys() == old(self).has_keys(),
            final(self).clock_view() == old(self).clock_view(),
            final(self).world_name_view() == old(self).world_name_view(),
            final(self).game_version_view() == old(self).game_version_view(),
            final(self).server_version_view() == old(self).server_version_view(),
            events@.map_values(|e: Event| without_counts(e)) == step_events(peer, EncryptedStep::Packs { response, follow_up }),
            forall|j: int| 0 <= j < events@.len() ==> !(#[trigger] events@[j] is Disconnected) && !(events@[j] is Connected),
            offered_to(old(self).offered(), final(self).offered(), peer@),
            sends_of(
                final(self).offered().subrange(old(self).offered().len() as int, final(self).offered().len() as int),
                peer@,
                EncryptedStep::Packs { response, follow_up },
                old(self).stage_view(),
                old(self).world_name_view(),
                old(self).game_version_view(),
                old(self).server_version_view(),
            ),
    {
        let ghost o0 = self.offered();
        let mut events: Vec<Event> = Vec::new();
        events.push(Event::PacksAnswered { peer, response });
        match follow_up {
            PackFollowUp::SendStack => {
                self.send_stack(peer, now);
            },
            PackFollowUp::SendWorld { registries } => {
                events.push(Event::ReadyForWorld(peer));
                self.send_world(peer, registries, now);
                events.push(Event::WorldSent(peer));
            },
            PackFollowUp::Nothing => {
                proof {
                    assert(self.offered().subrange(o0.len() as int, o0.len() as int) =~= Seq::<Offer>::empty());
                }
            },
        }
        proof {
            assert(events@.map_values(|e: Event| without_counts(e)) =~= step_events(
                peer,
                EncryptedStep::Packs { response, follow_up },
            ));
        }
        events
    }

    /// Sends the empty pack stack.
    fn send_stack(&mut self, peer: Address, now: u64)
        requires
            old(self).well_formed(),
        ensures
            final(self).well_formed(),
            final(self).stage_view() == old(self).stage_view(),
            final(self).has_keys() == old(self).has_keys(),
            final(self).clock_view() == old(self).clock_view(),
            final(self).world_name_view() == old(self).world_name_view(),
            final(self).game_version_view() == old(self).game_version_view(),
            final(self).server_version_view() == old(self).server_version_view(),
            offered_to(old(self).offered(), final(self).offered(), peer@),
            final(self).offered().subrange(old(self).offered().len() as int, final(self).offered().len() as int)
                == seq![
                (
                    peer@,
                    seq![
                        (ID_RESOURCE_PACK_STACK, 0u8, 0u8, pack_stack_empty_body(encode_utf8(old(self).game_version_view()))),
                    ],
                ),
            ],
    {
        let ghost o0 = self.offered();
        let stack = [resource_packs::pack_stack_empty(self.game_version.as_str())];
        let ghost entry = (
            peer@,
            seq![(ID_RESOURCE_PACK_STACK, 0u8, 0u8, pack_stack_empty_body(encode_utf8(self.game_version@)))],
        );
        proof {
            assert(packets_view(stack@) =~= entry.1);
        }
        self.send_encrypted(peer, &stack, now);
        proof {
            assert(self.offered() == o0.push(entry));
            assert(self.offered().subrange(o0.len() as int, self.offered().len() as int) =~= seq![entry]);
        }
    }

    /// Sends the world description, and the empty registries when asked.
    #[verifier::spinoff_prover]
    fn send_world(&mut self, peer: Address, registries: bool, now: u64)
        requires
            old(self).well_formed(),
        ensures
            final(self).well_formed(),
            final(self).stage_view() == old(self).stage_view(),
            final(self).has_keys() == old(self).has_keys(),
            final(self).clock_view() == old(self).clock_view(),
            final(self).world_name_view() == old(self).world_name_view(),
            final(self).game_version_view() == old(self).game_version_view(),
            final(self).server_version_view() == old(self).server_version_view(),
            offered_to(old(self).offered(), final(self).offered(), peer@),
            ({
                let block = final(self).offered().subrange(
                    old(self).offered().len() as int,
                    final(self).offered().len() as int,
                );
                &&& block.len() == 1 + if registries {
                    3int
                } else {
                    0int
                }
                &&& exists|s: StartGame|
                    flat_world(
                        s,
                        old(self).world_name_view(),
                        old(self).game_version_view(),
                        old(self).server_version_view(),
                    ) && block[0] == (peer@, seq![(ID_START_GAME, 0u8, 0u8, #[trigger] start_game_body(s))])
                &&& registries ==> block.subrange(1, 4) == registry_offers(peer@)
            }),
    {
        let ghost o0 = self.offered();
        let world = StartGame::flat(
            self.world_name.as_str(),
            self.game_version.as_str(),
            self.server_version.as_str(),
        );
        let description = [world.packet()];
        let ghost first = (peer@, seq![(ID_START_GAME, 0u8, 0u8, start_game_body(world))]);
        proof {
            assert(flat_world(
                world,
                old(self).world_name_view(),
                old(self).game_version_view(),
                old(self).server_version_view(),
            ));
            assert(packets_view(description@) =~= first.1);
        }
        self.send_encrypted(peer, &description, now);
        let ghost o1 = self.offered();
        proof {
            assert(o1 == o0.push(first));
        }
        // An empty registry reads to a client as "the server declares none" rather than
        // "overrides none", so these go out only when bisecting stops at the world.
        if registries {
            let items = [registries::empty_item_registry()];
            let actors = [registries::empty_actor_identifiers()];
            let biomes = [registries::empty_biome_definitions()];
            let ghost r = registry_offers(peer@);
            proof {
                assert(packets_view(items@) =~= r[0].1);
                assert(packets_view(actors@) =~= r[1].1);
                assert(packets_view(biomes@) =~= r[2].1);
            }
            self.send_encrypted(peer, &items, now);
            self.send_encrypted(peer, &actors, now);
            self.send_encrypted(peer, &biomes, now);
            proof {
                assert(self.offered() == o1.push(r[0]).push(r[1]).push(r[2]));
            }
        }
        proof {
            let o2 = self.offered();
            let block = o2.subrange(o0.len() as int, o2.len() as int);
            if registries {
                assert(block =~= seq![first] + registry_offers(peer@));
                assert(block.subrange(1, 4) =~= registry_offers(peer@));
            } else {
                assert(block =~= seq![first]);
            }
            assert(block[0] == first);
            assert forall|k: int| o0.len() <= k < o2.len() implies (#[trigger] o2[k]).0 == peer@ by {
                assert(o2[k] == block[k - o0.len()]);
            }
            assert(o0.is_prefix_of(o2));
        }
    }

    /// Answers a view distance request with the grant, and streams the world when the stage
    /// runs that far.
    #[verifier::spinoff_prover]
    fn answer_radius(&mut self, peer: Address, requested: i32, granted: i32, stream: bool, now: u64) -> (events: Vec<Event>)
        requires
            old(self).well_formed(),
        ensures
            final(self).well_formed(),
            final(self).stage_view() == old(self).stage_view(),
            final(self).has_keys() == old(self).has_keys(),
            final(self).clock_view() == old(self).clock_view(),
            final(self).world_name_view() == old(self).world_name_view(),
            final(self).game_version_view() == old(self).game_version_view(),
            final(self).server_version_view() == old(self).server_version_view(),
            events@.map_values(|e: Event| without_counts(e)) == step_events(peer, EncryptedStep::Radius { requested, granted, stream }),
            forall|j: int| 0 <= j < events@.len() ==> !(#[trigger] events@[j] is Disconnected) && !(events@[j] is Connected),
            offered_to(old(self).offered(), final(self).offered(), peer@),
            sends_of(
                final(self).offered().subrange(old(self).offered().len() as int, final(self).offered().len() as int),
                peer@,
                EncryptedStep::Radius { requested, granted, stream },
                old(self).stage_view(),
                old(self).world_name_view(),
                old(self).game_version_view(),
                old(self).server_version_view(),
            ),
    {
        let ghost o0 = self.offered();
        let mut events: Vec<Event> = Vec::new();
        let grant = [chunk_radius::granted(granted)];
        let ghost first = (
            peer@,
            seq![(ID_CHUNK_RADIUS_UPDATED, 0u8, 0u8, varint_encoding(zigzag32(granted) as nat))],
        );
        proof {
            assert(packets_view(grant@) =~= first.1);
        }
        self.send_encrypted(peer, &grant, now);
        let ghost o1 = self.offered();
        proof {
            assert(o1 == o0.push(first));
        }
        events.push(Event::ChunkRadiusGranted { peer, requested, granted });
        if stream {
            let spawned = self.stream_world(peer, granted, now);
            events.push(spawned);
        }
        proof {
            let o2 = self.offered();
            let block = o2.subrange(o0.len() as int, o2.len() as int);
            assert(o1.is_prefix_of(o2));
            assert(o0.is_prefix_of(o2)) by {
                assert forall|k: int| 0 <= k < o0.len() implies o2[k] == o0[k] by {
                    assert(o1[k] == o0[k]);
                }
            }
            assert(block[0] == o2[o0.len() as int]);
            assert(o2[o0.len() as int] == o1[o0.len() as int]);
            assert forall|k: int| o0.len() <= k < o2.len() implies (#[trigger] o2[k]).0 == peer@ by {
                if k < o1.len() {
                    assert(o2[k] == o1[k]);
                }
            }
            assert forall|k: int| 0 <= k < block.len() implies (#[trigger] block[k]).0 == peer@ by {
                assert(block[k] == o2[k + o0.len()]);
            }
            if !stream {
                assert(o2 == o1);
            }
            if stream && runs_to(old(self).stage_view(), Stage::Spawn) {
                assert(block.last() == o2.last());
            }
            assert(events@.map_values(|e: Event| without_counts(e)) =~= step_events(
                peer,
                EncryptedStep::Radius { requested, granted, stream },
            ));
        }
        events
    }

    /// Carries out what one packet out of a peer's encrypted stream asks for: the events
    /// it gives, and the batches it puts to the peer's stream.
    fn carry_out(&mut self, peer: Address, step: EncryptedStep, now: u64) -> (events: Vec<Event>)
        requires
            old(self).well_formed(),
        ensures
            final(self).well_formed(),
            final(self).stage_view() == old(self).stage_view(),
            final(self).has_keys() == old(self).has_keys(),
            final(self).clock_view() == old(self).clock_view(),
            final(self).world_name_view() == old(self).world_name_view(),
            final(self).game_version_view() == old(self).game_version_view(),
            final(self).server_version_view() == old(self).server_version_view(),
            events@.map_values(|e: Event| without_counts(e)) == step_events(peer, step),
            forall|j: int| 0 <= j < events@.len() ==> !(#[trigger] events@[j] is Disconnected) && !(events@[j] is Connected),
            offered_to(old(self).offered(), final(self).offered(), peer@),
            sends_of(
                final(self).offered().subrange(old(self).offered().len() as int, final(self).offered().len() as int),
                peer@,
                step,
                old(self).stage_view(),
                old(self).world_name_view(),
                old(self).game_version_view(),
                old(self).server_version_view(),
            ),
    {
        match step {
            EncryptedStep::Handshake { status, offer_packs } => self.answer_handshake(peer, status, offer_packs, now),
            EncryptedStep::Packs { response, follow_up } => self.answer_packs(peer, response, follow_up, now),
            EncryptedStep::Radius { requested, granted, stream } => self.answer_radius(peer, requested, granted, stream, now),
            EncryptedStep::Initialized => {
                proof {
                    assert(self.offered().subrange(self.offered().len() as int, self.offered().len() as int)
                        =~= Seq::<Offer>::empty());
                }
                let events = vec![Event::PlayerInitialized(peer)];
                proof {
                    assert(events@.map_values(|e: Event| without_counts(e)) =~= step_events(peer, step));
                }
                events
            },
            EncryptedStep::Moved(input) => {
                proof {
                    assert(self.offered().subrange(self.offered().len() as int, self.offered().len() as int)
                        =~= Seq::<Offer>::empty());
                }
                let events = vec![Event::PlayerMoved { peer, input }];
                proof {
                    assert(events@.map_values(|e: Event| without_counts(e)) =~= step_events(peer, step));
                }
                events
            },
            EncryptedStep::Nothing => {
                proof {
                    assert(self.offered().subrange(self.offered().len() as int, self.offered().len() as int)
                        =~= Seq::<Offer>::empty());
                }
                let events: Vec<Event> = Vec::new();
                proof {
                    assert(events@.map_values(|e: Event| without_counts(e)) =~= step_events(peer, step));
                }
                events
            },
            EncryptedStep::Decrypted { id, len } => {
                proof {
                    assert(self.offered().subrange(self.offered().len() as int, self.offered().len() as int)
                        =~= Seq::<Offer>::empty());
                }
                let events = vec![Event::Decrypted { peer, id, len }];
                proof {
                    assert(events@.map_values(|e: Event| without_counts(e)) =~= step_events(peer, step));
                }
                events
            },
        }
    }


    pub fn on_plaintext(&mut self, peer: Address, plaintext: &[u8], now: u64) -> (events: Vec<Event>)
        requires
            old(self).well_formed(),
        ensures
            final(self).well_formed(),
            final(self).stage_view() == old(self).stage_view(),
            final(self).has_keys() == old(self).has_keys(),
            final(self).clock_view() == old(self).clock_view(),
            answers_plaintext(
                events@,
                peer,
                plaintext@,
                old(self).stage_view(),
                old(self).declared(peer@),
                old(self).target(),
            ),
            forall|j: int| 0 <= j < events@.len() ==> !(#[trigger] events@[j] is Disconnected) && !(events@[j] is Connected),
            offered_to(old(self).offered(), final(self).offered(), peer@),
            match decrypted_packets_of(plaintext@) {
                Err(_) => final(self).offered() == old(self).offered(),
                Ok(ps) => sends_follow(
                    final(self).offered().skip(old(self).offered().len() as int),
                    peer@,
                    ps,
                    old(self).stage_view(),
                    old(self).declared(peer@),
                    old(self).target(),
                    old(self).world_name_view(),
                    old(self).game_version_view(),
                    old(self).server_version_view(),
                ),
            },
    {
        let packets = match decrypted_packets(plaintext) {
            Ok(packets) => packets,
            Err(_) => {
                let copy = owned(plaintext);
                return vec![Event::Undecodable(peer, copy)];
            },
        };
        let stage = self.stage;
        let target = self.target_protocol;
        let declared = self.declared_protocol(&peer);
        let ghost ps = packets_view(packets@);
        let mut events: Vec<Event> = Vec::new();
        let ghost mut bs: Seq<Seq<Offer>> = Seq::empty();
        proof {
            assert(self.offered().skip(old(self).offered().len() as int) =~= Seq::<Offer>::empty());
        }
        let mut k: usize = 0;
        while k < packets.len()
            invariant
                self.well_formed(),
                self.stage_view() == old(self).stage_view(),
                self.has_keys() == old(self).has_keys(),
                self.clock_view() == old(self).clock_view(),
                stage == old(self).stage_view(),
                target == old(self).target(),
                declared == old(self).declared(peer@),
                ps == packets_view(packets@),
                k <= packets@.len(),
                events@.map_values(|e: Event| without_counts(e)) == plaintext_events(
                    peer,
                    ps.take(k as int),
                    stage,
                    declared,
                    target,
                ),
                forall|j: int| 0 <= j < events@.len() ==> !(#[trigger] events@[j] is Disconnected) && !(events@[j] is Connected),
                offered_to(old(self).offered(), self.offered(), peer@),
                bs.len() == k,
                flatten_offers(bs) == self.offered().skip(old(self).offered().len() as int),
                forall|j: int| 0 <= j < k ==> sends_of(
                    #[trigger] bs[j],
                    peer@,
                    encrypted_step_of(ps[j].0, ps[j].3, stage, declared, target),
                    stage,
                    old(self).world_name_view(),
                    old(self).game_version_view(),
                    old(self).server_version_view(),
                ),
                self.world_name_view() == old(self).world_name_view(),
                self.game_version_view() == old(self).game_version_view(),
                self.server_version_view() == old(self).server_version_view(),
            decreases packets@.len() - k,
        {
            let ghost before = events@;
            let ghost o0 = self.offered();
            let step = encrypted_step(&packets[k], stage, declared, target);
            let mut added = self.carry_out(peer, step, now);
            let ghost got = added@;
            events.append(&mut added);
            proof {
                let block = self.offered().subrange(o0.len() as int, self.offered().len() as int);
                let base = old(self).offered().len() as int;
                assert(o0.is_prefix_of(self.offered()));
                assert(sends_of(
                    block,
                    peer@,
                    step,
                    stage,
                    old(self).world_name_view(),
                    old(self).game_version_view(),
                    old(self).server_version_view(),
                ));
                let bs0 = bs;
                bs = bs.push(block);
                assert(bs.drop_last() =~= bs0);
                assert(self.offered().skip(base) =~= o0.skip(base) + block);
                let o1 = self.offered();
                assert(old(self).offered().is_prefix_of(o1)) by {
                    assert forall|m: int| 0 <= m < base implies o1[m] == old(self).offered()[m] by {
                        assert(o0[m] == old(self).offered()[m]);
                    }
                }
                assert forall|m: int| base <= m < o1.len() implies (#[trigger] o1[m]).0 == peer@ by {
                    if m < o0.len() {
                        assert(o1[m] == o0[m]);
                    }
                }
            }
            proof {
                assert(events@ == before + got);
                assert(ps.take(k + 1).drop_last() =~= ps.take(k as int));
                assert(ps.take(k + 1).last() == packets@[k as int]@);
                assert(events@.map_values(|e: Event| without_counts(e)) =~= before.map_values(
                    |e: Event| without_counts(e),
                ) + got.map_values(|e: Event| without_counts(e)));
                assert forall|j: int| 0 <= j < events@.len() implies !(#[trigger] events@[j] is Disconnected)
                    && !(events@[j] is Connected) by {
                    if j < before.len() {
                        assert(events@[j] == before[j]);
                    } else {
                        assert(events@[j] == got[j - before.len()]);
                    }
                }
            }
            k = k + 1;
        }
        proof {
            assert(ps.take(packets@.len() as int) =~= ps);
        }
        events
    }
}

/// The events of consecutive blocks, in order.
pub open spec fn flatten_events(bs: Seq<Seq<Event>>) -> Seq<Event>
    decreases bs.len(),
{
    if bs.len() == 0 {
        Seq::empty()
    } else {
        flatten_events(bs.drop_last()) + bs.last()
    }
}

/// Whether `b` is what one of the transport's events gives: a handshake and a departure
/// pass through as they are, and the events a payload gives carry neither.
pub open spec fn answers_transport(b: Seq<Event>, e: RakEvent) -> bool {
    match e {
        RakEvent::Connected(p) => b == seq![Event::Connected(p)],
        RakEvent::Disconnected(p, r) => b == seq![Event::Disconnected(p, r)],
        RakEvent::Payload(_, _) => forall|k: int|
            0 <= k < b.len() ==> !(#[trigger] b[k] is Connected) && !(b[k] is Disconnected),
    }
}

/// Whether `events` answer the transport's events `rak`: one block for each, in order.
pub open spec fn follows(events: Seq<Event>, rak: Seq<RakEvent>) -> bool {
    exists|bs: Seq<Seq<Event>>|
        bs.len() == rak.len() && #[trigger] flatten_events(bs) == events && forall|j: int|
            0 <= j < bs.len() ==> answers_transport(#[trigger] bs[j], rak[j])
}

impl Server {
    /// Carries out one packet sent in the clear.
    #[verifier::spinoff_prover]
    fn clear_packet(&mut self, peer: Address, packet: &Packet, now: u64) -> (event: Event)
        requires
            old(self).well_formed(),
        ensures
            final(self).well_formed(),
            final(self).stage_view() == old(self).stage_view(),
            final(self).has_keys() == old(self).has_keys(),
            final(self).clock_view() == old(self).clock_view(),
            answers_clear(event, peer, packet@),
            !(event is Disconnected) && !(event is Connected),
            clear_effect(*old(self), *final(self), peer, packet@, now, event),
    {
        let event = match clear_step(packet) {
            ClearStep::Settings { client_protocol } => {
                let settings = [NetworkSettings::uncompressed().packet()];
                proof {
                    assert(packets_view(settings@) =~= seq![settings_packet()]);
                }
                let reply = batch::encode(&settings);
                self.send(peer, reply, now);
                Event::NetworkSettingsRequested { peer, client_protocol }
            },
            ClearStep::Login => {
                let mut answered = self.on_login(peer, packet.body.as_slice(), now);
                answered.remove(0)
            },
            ClearStep::Handshake => Event::HandshakeAccepted(peer),
            ClearStep::Unhandled => Event::Unhandled { peer, id: packet.id, body: packet.body.clone() },
        };
        event
    }

    /// Handles one payload a peer delivered.
    ///
    /// Once a peer has an encrypted stream, everything after the batch marker is
    /// ciphertext: a payload without the marker is reported whole, one that does not
    /// decrypt is reported as such, and a plaintext is carried out. Before that, a
    /// payload is a batch in the clear, and each packet in it gives one event: a
    /// settings request is answered with uncompressed settings (it keeps the login
    /// that follows readable as plain bytes), a login is verified.
    pub fn on_payload(&mut self, peer: Address, payload: &[u8], now: u64) -> (events: Vec<Event>)
        requires
            old(self).well_formed(),
        ensures
            final(self).well_formed(),
            final(self).stage_view() == old(self).stage_view(),
            final(self).has_keys() == old(self).has_keys(),
            final(self).clock_view() == old(self).clock_view(),
            encrypted(old(self).peer_states(), peer@) ==> if payload@.len() >= 1 && payload@[0] == MARKER {
                old(self).cipher_of(peer@) matches Some(c) && match decryption(c, payload@.skip(1)) {
                    Err(_) => events@.len() == 1 && events@[0] == Event::DecryptionFailed(peer),
                    Ok(plaintext) => answers_plaintext(
                        events@,
                        peer,
                        plaintext,
                        old(self).stage_view(),
                        old(self).declared(peer@),
                        old(self).target(),
                    ),
                }
            } else {
                events@.len() == 1 && (events@[0] matches Event::Undecodable(p, b) && p == peer && b@
                    == payload@)
            },
            !encrypted(old(self).peer_states(), peer@) ==> match parse_batch(payload@) {
                Err(_) => events@.len() == 1 && (events@[0] matches Event::Undecodable(p, b) && p == peer
                    && b@ == payload@),
                Ok(ps) => events@.len() == ps.len() && forall|j: int|
                    0 <= j < ps.len() ==> answers_clear(#[trigger] events@[j], peer, ps[j]),
            },
            forall|j: int| 0 <= j < events@.len() ==> !(#[trigger] events@[j] is Disconnected) && !(events@[j] is Connected),
            !encrypted(old(self).peer_states(), peer@) ==> match parse_batch(payload@) {
                Err(_) => *final(self) == *old(self),
                Ok(ps) => exists|states: Seq<Server>|
                    states.len() == ps.len() + 1 && states[0] == *old(self) && states.last() == *final(self)
                        && forall|j: int|
                        0 <= j < ps.len() ==> #[trigger] clear_effect(
                            states[j],
                            states[j + 1],
                            peer,
                            ps[j],
                            now,
                            events@[j],
                        ),
            },
    {
        if let Some(i) = self.position(&peer) {
            if self.peers[i].cipher.is_some() {
                proof {
                    assert(self.peer_states()[i as int].0 == peer@ && self.peer_states()[i as int].1);
                    self.lemma_cipher_at(i as int);
                }
                let body = match ciphertext_of(payload) {
                    Some(body) => body,
                    None => {
                        let copy = owned(payload);
                        return vec![Event::Undecodable(peer, copy)];
                    },
                };
                let ghost before = self.peers@;
                let opened = match &mut self.peers[i].cipher {
                    Some(cipher) => cipher.decrypt(body),
                    None => Err(crate::crypto::cipher::CipherError::TooShort),
                };
                proof {
                    assert(self.peers@.len() == before.len());
                    assert forall|k: int| 0 <= k < self.peers@.len() implies self.peers@[k].addr@
                        == before[k].addr@ && self.peers@[k].player == before[k].player
                        && self.peers@[k].protocol == before[k].protocol by {}
                    assert forall|k: int| 0 <= k < self.peers@.len() implies player_in_shape(
                        (#[trigger] self.peers@[k]).player,
                    ) by {
                        assert(self.peers@[k].player == before[k].player);
                    }
                    assert(self.declared(peer@) == old(self).declared(peer@));
                }
                let plaintext = match opened {
                    Ok(plaintext) => plaintext,
                    Err(_) => return vec![Event::DecryptionFailed(peer)],
                };
                let events = self.on_plaintext(peer, plaintext.as_slice(), now);
                proof {
                    assert(answers_plaintext(
                        events@,
                        peer,
                        plaintext@,
                        old(self).stage_view(),
                        old(self).declared(peer@),
                        old(self).target(),
                    ));
                }
                return events;
            }
            proof {
                if encrypted(old(self).peer_states(), peer@) {
                    let k = choose|k: int| 0 <= k < old(self).peer_states().len()
                        && #[trigger] old(self).peer_states()[k].0 == peer@ && old(self).peer_states()[k].1;
                    if k != i {
                        if k < i {
                            assert(self.peers@[k].addr@ != self.peers@[i as int].addr@);
                        } else {
                            assert(self.peers@[i as int].addr@ != self.peers@[k].addr@);
                        }
                    }
                }
            }
        } else {
            proof {
                if encrypted(old(self).peer_states(), peer@) {
                    let k = choose|k: int| 0 <= k < old(self).peer_states().len()
                        && #[trigger] old(self).peer_states()[k].0 == peer@ && old(self).peer_states()[k].1;
                    assert(self.peers@[k].addr@ == peer@);
                }
            }
        }
        let packets = match batch::decode(payload) {
            Ok(packets) => packets,
            Err(_) => {
                let copy = owned(payload);
                return vec![Event::Undecodable(peer, copy)];
            },
        };
        let ghost ps = packets_view(packets@);
        let mut events: Vec<Event> = Vec::new();
        let ghost mut states: Seq<Server> = seq![*self];
        let mut k: usize = 0;
        while k < packets.len()
            invariant
                states.len() == k + 1,
                states[0] == *old(self),
                states.last() == *self,
                forall|j: int| 0 <= j < k ==> #[trigger] clear_effect(
                    states[j],
                    states[j + 1],
                    peer,
                    ps[j],
                    now,
                    events@[j],
                ),
                self.well_formed(),
                self.stage_view() == old(self).stage_view(),
                self.has_keys() == old(self).has_keys(),
                self.clock_view() == old(self).clock_view(),
                ps == packets_view(packets@),
                k <= packets@.len(),
                events@.len() == k,
                forall|j: int| 0 <= j < k ==> answers_clear(#[trigger] events@[j], peer, ps[j]),
                forall|j: int| 0 <= j < events@.len() ==> !(#[trigger] events@[j] is Disconnected) && !(events@[j] is Connected),
            decreases packets@.len() - k,
        {
            let packet = &packets[k];
            let ghost before = *self;
            let ghost ev0 = events@;
            let event = self.clear_packet(peer, packet, now);
            events.push(event);
            proof {
                assert(packets@[k as int]@ == ps[k as int]);
                assert(events@[k as int] == event);
                assert forall|j: int| 0 <= j < k + 1 implies answers_clear(#[trigger] events@[j], peer, ps[j]) by {
                    if j < k {
                        assert(events@[j] == ev0[j]);
                    }
                }
                assert forall|j: int| 0 <= j < events@.len() implies !(#[trigger] events@[j] is Disconnected)
                    && !(events@[j] is Connected) by {
                    if j < k {
                        assert(events@[j] == ev0[j]);
                    }
                }
                let s0 = states;
                states = states.push(*self);
                assert forall|j: int| 0 <= j < k + 1 implies #[trigger] clear_effect(
                    states[j],
                    states[j + 1],
                    peer,
                    ps[j],
                    now,
                    events@[j],
                ) by {
                    if j < k {
                        assert(states[j] == s0[j] && states[j + 1] == s0[j + 1]);
                        assert(events@[j] == ev0[j]);
                    }
                }
            }
            k = k + 1;
        }
        events
    }

    /// Feeds one datagram in: the transport's events pass through, a peer that went
    /// away is forgotten, and each payload is handled.
    pub fn receive(&mut self, from: Address, bytes: &[u8], now: u64) -> (events: Vec<Event>)
        requires
            old(self).well_formed(),
        ensures
            final(self).well_formed(),
            final(self).stage_view() == old(self).stage_view(),
            final(self).has_keys() == old(self).has_keys(),
            final(self).clock_view() == old(self).clock_view(),
            forall|j: int| 0 <= j < events@.len() ==> (#[trigger] events@[j] matches Event::Disconnected(p, _)
                ==> p@ == from@ && j == events@.len() - 1 && !known(final(self).peer_states(), from@)),
            !old(self).transport().peers().contains(from@) ==> events@.len() == 0,
            old(self).transport().peers().contains(from@) ==> exists|
                after: Session,
                res: Result<Vec<Vec<u8>>, SessionError>,
            |
                #[trigger] received(
                    old(self).transport().session_at(old(self).transport().peers().index_of(from@)),
                    after,
                    bytes@,
                    now,
                    res,
                ) && follows(
                    events@,
                    session_events(
                        from,
                        old(self).transport().session_at(
                            old(self).transport().peers().index_of(from@),
                        ).current_state(),
                        after,
                        res,
                    ),
                ),
    {
        let mut rak = self.listener.receive(from, bytes, now);
        let ghost all = rak@;
        let ghost mut c: int = 0;
        let ghost mut bs: Seq<Seq<Event>> = Seq::empty();
        let mut events: Vec<Event> = Vec::new();
        while rak.len() > 0
            invariant
                self.well_formed(),
                self.stage_view() == old(self).stage_view(),
                self.has_keys() == old(self).has_keys(),
                self.clock_view() == old(self).clock_view(),
                0 <= c <= all.len(),
                rak@ == all.subrange(c, all.len() as int),
                all.len() > 0 ==> crate::raknet::listener::well_ordered_events(all, from@),
                forall|j: int| 0 <= j < events@.len() ==> (#[trigger] events@[j] matches Event::Disconnected(p, _)
                    ==> p@ == from@ && j == events@.len() - 1 && c == all.len() && !known(self.peer_states(), from@)),
                bs.len() == c,
                flatten_events(bs) == events@,
                forall|j: int| 0 <= j < c ==> answers_transport(#[trigger] bs[j], all[j]),
            decreases rak@.len(),
        {
            let ghost prev = events@;
            let ghost c0 = c;
            let ghost bs0 = bs;
            let e = rak.remove(0);
            proof {
                assert(e == all[c]);
                c = c + 1;
                assert(rak@ =~= all.subrange(c, all.len() as int));
            }
            match e {
                RakEvent::Connected(peer) => {
                    events.push(Event::Connected(peer));
                    proof {
                        let b = seq![Event::Connected(peer)];
                        bs = bs.push(b);
                        assert(bs.drop_last() =~= bs0);
                        assert(events@ =~= prev + b);
                        assert forall|j: int| 0 <= j < events@.len() implies !(#[trigger] events@[j] is Disconnected) by {
                            if j < prev.len() {
                                assert(events@[j] == prev[j]);
                            }
                        }
                    }
                },
                RakEvent::Disconnected(peer, reason) => {
                    proof {
                        assert(crate::raknet::listener::event_peer(all[c - 1]) == from@);
                        assert(c == all.len()) by {
                            if c < all.len() {
                                assert(!(all[c - 1] is Disconnected));
                            }
                        }
                    }
                    self.forget(peer);
                    events.push(Event::Disconnected(peer, reason));
                    proof {
                        let b = seq![Event::Disconnected(peer, reason)];
                        bs = bs.push(b);
                        assert(bs.drop_last() =~= bs0);
                        assert(events@ =~= prev + b);
                        assert forall|j: int| 0 <= j < events@.len() implies (#[trigger] events@[j] matches Event::Disconnected(p, _)
                            ==> p@ == from@ && j == events@.len() - 1 && c == all.len() && !known(self.peer_states(), from@)) by {
                            if j < prev.len() {
                                assert(events@[j] == prev[j]);
                                assert(!(prev[j] is Disconnected));
                            }
                        }
                    }
                },
                RakEvent::Payload(peer, payload) => {
                    let mut answered = self.on_payload(peer, payload.as_slice(), now);
                    let ghost got = answered@;
                    events.append(&mut answered);
                    proof {
                        assert(events@ == prev + got);
                        bs = bs.push(got);
                        assert(bs.drop_last() =~= bs0);
                        assert forall|k: int| 0 <= k < got.len() implies !(#[trigger] got[k] is Connected)
                            && !(got[k] is Disconnected) by {}
                        assert forall|j: int| 0 <= j < events@.len() implies !(#[trigger] events@[j] is Disconnected) by {
                            if j < prev.len() {
                                assert(events@[j] == prev[j]);
                            } else {
                                assert(events@[j] == got[j - prev.len()]);
                            }
                        }
                    }
                },
            }
        }
        proof {
            assert(c == all.len());
            assert(follows(events@, all));
            let l0 = old(self).transport();
            if l0.peers().contains(from@) {
                let idx = l0.peers().index_of(from@);
                let (a, r) = choose|a: Session, r: Result<Vec<Vec<u8>>, SessionError>|
                    #[trigger] received(l0.session_at(idx), a, bytes@, now, r) && all == session_events(
                        from,
                        l0.session_at(idx).current_state(),
                        a,
                        r,
                    );
                assert(received(l0.session_at(idx), a, bytes@, now, r));
            }
        }
        events
    }
}

} // verus!
