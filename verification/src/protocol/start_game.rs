//! `StartGame`: the packet that tells a client what world it just joined.
//!
//! The largest packet in the login sequence: twenty-five fields, one of which carries
//! fifty more. It fails the way everything else here fails: a field out of place and
//! the client leaves without saying why.
//!
//! Most integers here are varints, but not all of them. The server chunk tick radius
//! and the limited world width and depth are fixed 32-bit little-endian, the experiment
//! count is a fixed `u32` while the game rule count is a varint, and the spawn biome is
//! a fixed `u16`. Each is a place where "everything is a varint" writes a packet that
//! decodes into nonsense, so [`start_game_body`] spells every field out.
//!
//! Floats travel as their IEEE 754 bit patterns: the position and rotation fields hold
//! the bits an `f32` would be stored as.
use crate::num::{le16, le32, le64};
use crate::protocol::batch::Packet;
use crate::protocol::bytes::{prefixed_encoding, varint_encoding, zigzag32, zigzag64, Writer};
use vstd::prelude::*;
use vstd::string::StringSliceAdditionalSpecFns;
use vstd::utf8::encode_utf8;

verus! {

/// `StartGame`, server to client.
pub const ID_START_GAME: u32 = 11;

/// `70.0` as an `f32`: the height a flat world spawns its player at.
pub const SPAWN_HEIGHT_BITS: u32 = 0x428c_0000;

/// How the world generates terrain.
#[derive(Debug, Clone, Copy, PartialEq, Eq, Structural)]
pub enum Generator {
    /// Ordinary terrain.
    Overworld,
    /// Flat layers.
    Flat,
    /// Nothing at all.
    Void,
}

/// The number a generator goes by on the wire.
pub open spec fn generator_value(g: Generator) -> i32 {
    match g {
        Generator::Overworld => 1,
        Generator::Flat => 2,
        Generator::Void => 5,
    }
}

impl Generator {
    /// The number this generator goes by on the wire.
    pub fn value(self) -> (v: i32)
        ensures
            v == generator_value(self),
    {
        match self {
            Generator::Overworld => 1,
            Generator::Flat => 2,
            Generator::Void => 5,
        }
    }
}

/// What a player may do.
#[derive(Debug, Clone, Copy, PartialEq, Eq, Structural)]
pub enum GameType {
    /// Blocks break slowly and damage applies.
    Survival,
    /// Flight, instant break, no damage.
    Creative,
}

/// The number a game type goes by on the wire.
pub open spec fn game_type_value(t: GameType) -> i32 {
    match t {
        GameType::Survival => 0,
        GameType::Creative => 1,
    }
}

impl GameType {
    /// The number this game type goes by on the wire.
    pub fn value(self) -> (v: i32)
        ensures
            v == game_type_value(self),
    {
        match self {
            GameType::Survival => 0,
            GameType::Creative => 1,
        }
    }
}

/// Everything `StartGame` says about the world.
#[derive(Debug)]
pub struct StartGame {
    /// The player's unique id.
    pub entity_id: i64,
    /// The player's runtime id.
    pub runtime_id: u64,
    /// The mode the joining player is in.
    pub game_type: GameType,
    /// Where the player appears, as the bits of three `f32`s.
    pub position: (u32, u32, u32),
    /// Where the player looks, in degrees, as the bits of two `f32`s.
    pub rotation: (u32, u32),
    /// World seed.
    pub seed: u64,
    /// How terrain is made.
    pub generator: Generator,
    /// Where the world's spawn point is.
    pub spawn: (i32, i32, i32),
    /// Shown in the client's world list.
    pub world_name: String,
    /// The version string the client checks its own build against.
    pub vanilla_version: String,
    /// Identifies this server build in crash reports and telemetry.
    pub server_version: String,
}

/// A zigzag varint.
pub open spec fn signed(v: i32) -> Seq<u8> {
    varint_encoding(zigzag32(v) as nat)
}

/// A length-prefixed empty string.
pub open spec fn empty_string() -> Seq<u8> {
    prefixed_encoding(Seq::<u8>::empty())
}

/// The world's seed and spawn settings: a fixed `u16` biome type, the biome name, the
/// dimension.
pub open spec fn settings_spawn(s: StartGame) -> Seq<u8> {
    le64(s.seed) + le16(0) + prefixed_encoding("plains".spec_bytes()) + signed(0)
}

/// Generator, game type, hardcore, difficulty (easy), the spawn point.
pub open spec fn settings_world(s: StartGame) -> Seq<u8> {
    signed(generator_value(s.generator)) + signed(game_type_value(s.game_type)) + seq![0u8]
        + signed(1) + signed(s.spawn.0) + signed(s.spawn.1) + signed(s.spawn.2)
}

/// Achievements disabled, editor world type, created in and exported from the editor,
/// day cycle stop time, education offer and features, education product id.
pub open spec fn settings_editor() -> Seq<u8> {
    seq![1u8] + signed(0) + seq![0u8, 0u8] + signed(0) + signed(0) + seq![0u8] + empty_string()
}

/// Rain and lightning (`0.0`), platform locked content, multiplayer, LAN broadcast,
/// xbox live and platform broadcast, commands enabled, texture packs required, then the
/// game rules (a varint count) and the experiments (a fixed `u32` count and "ever
/// toggled").
pub open spec fn settings_multiplayer() -> Seq<u8> {
    le32(0) + le32(0) + seq![0u8, 1u8, 1u8] + signed(0) + signed(0) + seq![1u8, 0u8]
        + varint_encoding(0) + le32(0) + seq![0u8]
}

/// Bonus chest, start with map, default permission (member), the server chunk tick
/// radius (fixed 32-bit), then ten flags: locked packs, template flags, villagers,
/// persona, skins, emotes.
pub open spec fn settings_permissions() -> Seq<u8> {
    seq![0u8, 0u8] + signed(1) + le32(4) + Seq::new(10, |i: int| 0u8)
}

/// The vanilla version, limited world width and depth, new nether, the education shared
/// uri (button and link), no experimental gameplay override, chat restriction, player
/// interactions, editor connection policy, anonymous block drops.
pub open spec fn settings_version(s: StartGame) -> Seq<u8> {
    prefixed_encoding(encode_utf8(s.vanilla_version@)) + le32(0) + le32(0) + seq![1u8]
        + empty_string() + empty_string() + seq![0u8, 0u8, 0u8] + signed(0) + seq![0u8]
}

/// The level settings block.
pub open spec fn level_settings(s: StartGame) -> Seq<u8> {
    settings_spawn(s) + settings_world(s) + settings_editor() + settings_multiplayer()
        + settings_permissions() + settings_version(s)
}

/// Entity and runtime ids, game type, position and rotation.
pub open spec fn start_game_head(s: StartGame) -> Seq<u8> {
    varint_encoding(zigzag64(s.entity_id) as nat) + varint_encoding(s.runtime_id as nat)
        + signed(game_type_value(s.game_type)) + le32(s.position.0) + le32(s.position.1)
        + le32(s.position.2) + le32(s.rotation.0) + le32(s.rotation.1)
}

/// Level id, world name, premium template id, is trial, movement settings (rewind
/// history, server-authoritative breaking), current tick, enchantment seed, and an
/// empty block palette: the client uses the one it ships with.
pub open spec fn start_game_level(s: StartGame) -> Seq<u8> {
    empty_string() + prefixed_encoding(encode_utf8(s.world_name@)) + empty_string() + seq![0u8]
        + signed(0) + seq![0u8] + le64(0) + signed(0) + varint_encoding(0)
}

/// Multiplayer correlation id, item stack net manager, server version, an empty NBT
/// compound of player property data, block registry checksum, world template id (a nil
/// UUID), client-side generation, hashed block ids, client sounds, chat logging, no
/// server join information, and four telemetry ids we do not report.
pub open spec fn start_game_tail(s: StartGame) -> Seq<u8> {
    empty_string() + seq![0u8] + prefixed_encoding(encode_utf8(s.server_version@))
        + seq![0x0au8, 0u8, 0u8] + le64(0) + le64(0) + le64(0) + seq![0u8, 0u8, 0u8, 0u8, 0u8]
        + empty_string() + empty_string() + empty_string() + empty_string()
}

/// The whole packet body.
pub open spec fn start_game_body(s: StartGame) -> Seq<u8> {
    start_game_head(s) + level_settings(s) + start_game_level(s) + start_game_tail(s)
}

impl StartGame {
    /// A flat creative world, which is the smallest thing a client will accept.
    pub fn flat(world_name: &str, vanilla_version: &str, server_version: &str) -> (s: Self)
        ensures
            s.entity_id == 1,
            s.runtime_id == 1,
            s.game_type == GameType::Creative,
            s.position == (0u32, SPAWN_HEIGHT_BITS, 0u32),
            s.rotation == (0u32, 0u32),
            s.seed == 0,
            s.generator == Generator::Flat,
            s.spawn == (0i32, 70i32, 0i32),
            s.world_name@ == world_name@,
            s.vanilla_version@ == vanilla_version@,
            s.server_version@ == server_version@,
    {
        StartGame {
            entity_id: 1,
            runtime_id: 1,
            game_type: GameType::Creative,
            position: (0, SPAWN_HEIGHT_BITS, 0),
            rotation: (0, 0),
            seed: 0,
            generator: Generator::Flat,
            spawn: (0, 70, 0),
            world_name: world_name.to_owned(),
            vanilla_version: vanilla_version.to_owned(),
            server_version: server_version.to_owned(),
        }
    }

    fn write_spawn(&self, w: &mut Writer)
        ensures
            final(w)@ == old(w)@ + settings_spawn(*self),
    {
        w.u64(self.seed);
        // The biome type is a fixed u16, not a varint.
        w.u16(0);
        w.prefixed("plains".as_bytes());
        w.zigzag32(0);
        assert(w@ =~= old(w)@ + settings_spawn(*self));
    }

    fn write_world(&self, w: &mut Writer)
        ensures
            final(w)@ == old(w)@ + settings_world(*self),
    {
        w.zigzag32(self.generator.value());
        w.zigzag32(self.game_type.value());
        w.u8(0);
        w.zigzag32(1);
        w.zigzag32(self.spawn.0);
        w.zigzag32(self.spawn.1);
        w.zigzag32(self.spawn.2);
        assert(w@ =~= old(w)@ + settings_world(*self));
    }

    fn write_editor(w: &mut Writer)
        ensures
            final(w)@ == old(w)@ + settings_editor(),
    {
        let empty: [u8; 0] = [];
        // Achievements disabled: a server world cannot earn them.
        w.u8(1);
        w.zigzag32(0);
        w.u8(0);
        w.u8(0);
        w.zigzag32(0);
        w.zigzag32(0);
        w.u8(0);
        w.prefixed(&empty);
        assert(empty@ =~= Seq::<u8>::empty());
        assert(w@ =~= old(w)@ + settings_editor());
    }

    fn write_multiplayer(w: &mut Writer)
        ensures
            final(w)@ == old(w)@ + settings_multiplayer(),
    {
        // Rain and lightning.
        w.f32_bits(0);
        w.f32_bits(0);
        w.u8(0);
        w.u8(1);
        w.u8(1);
        w.zigzag32(0);
        w.zigzag32(0);
        w.u8(1);
        w.u8(0);
        // Game rules: a varint count, unlike the experiments after it.
        w.varint(0);
        w.u32(0);
        w.u8(0);
        assert(w@ =~= old(w)@ + settings_multiplayer());
    }

    fn write_permissions(w: &mut Writer)
        ensures
            final(w)@ == old(w)@ + settings_permissions(),
    {
        w.u8(0);
        w.u8(0);
        w.zigzag32(1);
        // Fixed 32-bit, not a varint: the server chunk tick radius.
        w.u32(4);
        let ghost g = w@;
        let mut i: usize = 0;
        while i < 10
            invariant
                i <= 10,
                w@ == g + Seq::new(i as nat, |k: int| 0u8),
            decreases 10 - i,
        {
            w.u8(0);
            proof {
                assert(Seq::new(i as nat, |k: int| 0u8).push(0u8) =~= Seq::new(
                    (i + 1) as nat,
                    |k: int| 0u8,
                ));
                assert(w@ =~= g + Seq::new((i + 1) as nat, |k: int| 0u8));
            }
            i = i + 1;
        }
        assert(w@ =~= old(w)@ + settings_permissions());
    }

    fn write_version(&self, w: &mut Writer)
        ensures
            final(w)@ == old(w)@ + settings_version(*self),
    {
        let empty: [u8; 0] = [];
        w.prefixed(self.vanilla_version.as_str().as_bytes());
        w.u32(0);
        w.u32(0);
        w.u8(1);
        w.prefixed(&empty);
        w.prefixed(&empty);
        w.u8(0);
        w.u8(0);
        w.u8(0);
        w.zigzag32(0);
        w.u8(0);
        assert(empty@ =~= Seq::<u8>::empty());
        assert(w@ =~= old(w)@ + settings_version(*self));
    }

    /// Writes the fifty fields of the level settings block.
    fn write_level_settings(&self, w: &mut Writer)
        ensures
            final(w)@ == old(w)@ + level_settings(*self),
    {
        self.write_spawn(w);
        self.write_world(w);
        Self::write_editor(w);
        Self::write_multiplayer(w);
        Self::write_permissions(w);
        self.write_version(w);
        assert(w@ =~= old(w)@ + level_settings(*self));
    }

    fn write_head(&self, w: &mut Writer)
        ensures
            final(w)@ == old(w)@ + start_game_head(*self),
    {
        w.zigzag64(self.entity_id);
        w.varint64(self.runtime_id);
        w.zigzag32(self.game_type.value());
        w.vec3_bits(self.position.0, self.position.1, self.position.2);
        w.f32_bits(self.rotation.0);
        w.f32_bits(self.rotation.1);
        assert(w@ =~= old(w)@ + start_game_head(*self));
    }

    fn write_level(&self, w: &mut Writer)
        ensures
            final(w)@ == old(w)@ + start_game_level(*self),
    {
        let empty: [u8; 0] = [];
        w.prefixed(&empty);
        w.prefixed(self.world_name.as_str().as_bytes());
        w.prefixed(&empty);
        w.u8(0);
        w.zigzag32(0);
        w.u8(0);
        w.u64(0);
        w.zigzag32(0);
        // No block palette: the client falls back to the one it ships with.
        w.varint(0);
        assert(empty@ =~= Seq::<u8>::empty());
        assert(w@ =~= old(w)@ + start_game_level(*self));
    }

    fn write_tail(&self, w: &mut Writer)
        ensures
            final(w)@ == old(w)@ + start_game_tail(*self),
    {
        let empty: [u8; 0] = [];
        w.prefixed(&empty);
        w.u8(0);
        w.prefixed(self.server_version.as_str().as_bytes());
        // An empty NBT compound, in the network form: tag, empty name, end.
        w.u8(0x0a);
        w.u8(0);
        w.u8(0);
        w.u64(0);
        w.u64(0);
        w.u64(0);
        w.u8(0);
        w.u8(0);
        w.u8(0);
        w.u8(0);
        w.u8(0);
        w.prefixed(&empty);
        w.prefixed(&empty);
        w.prefixed(&empty);
        w.prefixed(&empty);
        assert(empty@ =~= Seq::<u8>::empty());
        assert(w@ =~= old(w)@ + start_game_tail(*self));
    }

    /// Encodes the packet body.
    pub fn encode(&self) -> (out: Vec<u8>)
        ensures
            out@ == start_game_body(*self),
    {
        let mut w = Writer::new();
        self.write_head(&mut w);
        self.write_level_settings(&mut w);
        self.write_level(&mut w);
        self.write_tail(&mut w);
        assert(w@ =~= start_game_body(*self));
        w.finish()
    }

    /// This packet, ready for a batch.
    pub fn packet(&self) -> (p: Packet)
        ensures
            p@ == (ID_START_GAME, 0u8, 0u8, start_game_body(*self)),
    {
        Packet::new(ID_START_GAME, self.encode())
    }
}

} // verus!
