//! Spec-level description of the on-disk save format.
//!
//! Every field of the format is little-endian. Strings are length-prefixed:
//! one byte holding the byte length of the UTF-8 encoding, then that many
//! bytes. The parse functions here read a value from the front of a byte
//! sequence and return the value together with how many bytes it occupied;
//! the serializers produce exactly the bytes the parsers accept. The
//! executable codec is specified against these functions.

use vstd::prelude::*;
use vstd::bytes::*;
use vstd::utf8::*;

use crate::save::Error;
use crate::save::version::{version_ok, version_num_of, CURRENT_LAYOUT_VERSION};

verus! {

// ---------------------------------------------------------------------------
// The abstract model of a save file: what the concrete types look like to
// the contracts.
// ---------------------------------------------------------------------------

/// One player: a name and the identifiers of the equipped staff and weapon.
pub ghost struct PlayerView {
    pub name: Seq<char>,
    pub staff: Seq<char>,
    pub weapon: Seq<char>,
}

/// A player's equipment alone, without the name.
pub ghost struct PlayerSaveDataView {
    pub staff: Seq<char>,
    pub weapon: Seq<char>,
}

/// One "tip shown" entry: the tip's identifier and how often it was shown.
pub ghost struct TipView {
    pub name: Seq<char>,
    pub count: i32,
}

/// One save slot.
pub ghost struct SaveSlotView {
    pub level: u8,
    pub max_allowed_level: u8,
    pub looped: bool,
    pub total_playtime: i32,
    pub current_playtime: i32,
    pub players: Seq<PlayerView>,
    pub unlocked_magicks: u64,
    pub shown_tips: Seq<TipView>,
    pub checkpoint: Seq<u8>,
}

/// A whole save file: the product version (empty when the file had no
/// version header) and the three slot positions, each possibly empty.
pub ghost struct SaveInfoView {
    pub product_version: Seq<char>,
    pub save_slots: Seq<Option<SaveSlotView>>,
}

impl PlayerView {
    /// Every string of the player fits its one-byte length prefix.
    pub open spec fn wf(self) -> bool {
        fits_len_string(self.name) && fits_len_string(self.staff) && fits_len_string(self.weapon)
    }
}

impl PlayerSaveDataView {
    pub open spec fn wf(self) -> bool {
        fits_len_string(self.staff) && fits_len_string(self.weapon)
    }
}

impl TipView {
    pub open spec fn wf(self) -> bool {
        fits_len_string(self.name)
    }
}

impl SaveSlotView {
    /// Every string fits its length prefix and every count fits the `i32`
    /// count field of the format.
    pub open spec fn wf(self) -> bool {
        &&& self.players.len() <= i32::MAX
        &&& forall|i: int| 0 <= i < self.players.len() ==> (#[trigger] self.players[i]).wf()
        &&& self.shown_tips.len() <= i32::MAX
        &&& forall|i: int| 0 <= i < self.shown_tips.len() ==> (#[trigger] self.shown_tips[i]).wf()
        &&& self.checkpoint.len() <= i32::MAX
    }
}

impl SaveInfoView {
    /// The version string fits its length prefix, there are exactly three
    /// slot positions, and every present slot is well formed.
    pub open spec fn wf(self) -> bool {
        &&& fits_len_string(self.product_version)
        &&& self.save_slots.len() == 3
        &&& forall|i: int|
            0 <= i < self.save_slots.len() && (#[trigger] self.save_slots[i]) is Some
                ==> self.save_slots[i].unwrap().wf()
    }
}

// ---------------------------------------------------------------------------
// Outcome of one parse step: the value read and the bytes consumed.
// ---------------------------------------------------------------------------

/// Relates the result of an executable read starting at `pos` (with `limit`
/// bytes in the buffer) to the spec-level parse of the suffix at `pos`,
/// for values whose spec representation is the value itself.
pub open spec fn step_ok<T>(
    pos: int,
    limit: int,
    r: Result<(T, usize), Error>,
    p: Result<(T, int), Error>,
) -> bool {
    match r {
        Ok((v, end)) => pos <= end <= limit && p == Ok::<(T, int), Error>((v, end - pos)),
        Err(e) => p == Err::<(T, int), Error>(e),
    }
}

/// As `step_ok`, for values read through their view.
pub open spec fn step_view_ok<T: View>(
    pos: int,
    limit: int,
    r: Result<(T, usize), Error>,
    p: Result<(T::V, int), Error>,
) -> bool {
    match r {
        Ok((v, end)) => pos <= end <= limit && p is Ok && p.unwrap().0 == v@ && p.unwrap().1 == end
            - pos,
        Err(e) => p == Err::<(T::V, int), Error>(e),
    }
}

// ---------------------------------------------------------------------------
// Primitive fields.
// ---------------------------------------------------------------------------

pub open spec fn parse_u8(b: Seq<u8>) -> Result<(u8, int), Error> {
    if b.len() < 1 {
        Err(Error::Truncated)
    } else {
        Ok((b[0], 1))
    }
}

pub open spec fn ser_u8(v: u8) -> Seq<u8> {
    seq![v]
}

/// A boolean field is one byte; zero reads as false and anything else as
/// true, while writing always emits the canonical 0 or 1.
pub open spec fn parse_boolean(b: Seq<u8>) -> Result<(bool, int), Error> {
    if b.len() < 1 {
        Err(Error::Truncated)
    } else {
        Ok((b[0] != 0, 1))
    }
}

pub open spec fn ser_boolean(v: bool) -> Seq<u8> {
    seq![if v { 1u8 } else { 0u8 }]
}

pub open spec fn parse_i32(b: Seq<u8>) -> Result<(i32, int), Error> {
    if b.len() < 4 {
        Err(Error::Truncated)
    } else {
        Ok((spec_u32_from_le_bytes(b.subrange(0, 4)) as i32, 4))
    }
}

pub open spec fn ser_i32(v: i32) -> Seq<u8> {
    spec_u32_to_le_bytes(v as u32)
}

pub open spec fn parse_u64(b: Seq<u8>) -> Result<(u64, int), Error> {
    if b.len() < 8 {
        Err(Error::Truncated)
    } else {
        Ok((spec_u64_from_le_bytes(b.subrange(0, 8)), 8))
    }
}

pub open spec fn ser_u64(v: u64) -> Seq<u8> {
    spec_u64_to_le_bytes(v)
}

/// A length-prefixed string: the byte length (at most 255), then the UTF-8
/// bytes. A short buffer is a truncation; bytes that are not well-formed
/// UTF-8 are invalid text.
pub open spec fn parse_len_string(b: Seq<u8>) -> Result<(Seq<char>, int), Error> {
    if b.len() < 1 {
        Err(Error::Truncated)
    } else {
        let n = b[0] as int;
        if b.len() < 1 + n {
            Err(Error::Truncated)
        } else if !valid_utf8(b.subrange(1, 1 + n)) {
            Err(Error::InvalidText)
        } else {
            Ok((decode_utf8(b.subrange(1, 1 + n)), 1 + n))
        }
    }
}

pub open spec fn ser_len_string(s: Seq<char>) -> Seq<u8> {
    seq![encode_utf8(s).len() as u8] + encode_utf8(s)
}

/// The one-byte length prefix caps a string's UTF-8 encoding at 255 bytes.
pub open spec fn fits_len_string(s: Seq<char>) -> bool {
    encode_utf8(s).len() <= 255
}

/// What stops a slot from being encoded, if anything: the first violation
/// in the order the fields are written. A count that cannot be stored in
/// the `i32` count field is a malformed length; a string that cannot be
/// stored behind its one-byte length prefix is too long.
pub open spec fn slot_enc_err(s: SaveSlotView) -> Option<Error> {
    if s.players.len() > i32::MAX {
        Some(Error::MalformedLength)
    } else if exists|i: int| 0 <= i < s.players.len() && !(#[trigger] s.players[i]).wf() {
        Some(Error::StringTooLong)
    } else if s.shown_tips.len() > i32::MAX {
        Some(Error::MalformedLength)
    } else if exists|i: int| 0 <= i < s.shown_tips.len() && !(#[trigger] s.shown_tips[i]).wf() {
        Some(Error::StringTooLong)
    } else if s.checkpoint.len() > i32::MAX {
        Some(Error::MalformedLength)
    } else {
        None
    }
}

pub proof fn lemma_slot_enc_err_none(s: SaveSlotView)
    ensures
        slot_enc_err(s) is None <==> s.wf(),
{
}

/// What stops the slot positions from being encoded: the first present
/// slot, in order, that cannot be.
pub open spec fn slots_enc_err(slots: Seq<Option<SaveSlotView>>) -> Option<Error>
    decreases slots.len(),
{
    if slots.len() == 0 {
        None
    } else {
        match slots[0] {
            None => slots_enc_err(slots.skip(1)),
            Some(s) => match slot_enc_err(s) {
                Some(e) => Some(e),
                None => slots_enc_err(slots.skip(1)),
            },
        }
    }
}

/// What stops a whole save from being encoded, if anything, in the order
/// the parts are written: a model without exactly three slot positions, a
/// version string too long for its length prefix, then the slots.
pub open spec fn save_enc_err(v: SaveInfoView) -> Option<Error> {
    if v.save_slots.len() != 3 {
        Some(Error::MalformedLength)
    } else if !fits_len_string(v.product_version) {
        Some(Error::StringTooLong)
    } else {
        slots_enc_err(v.save_slots)
    }
}

pub proof fn lemma_save_enc_err_none(v: SaveInfoView)
    ensures
        save_enc_err(v) is None <==> v.wf(),
{
    lemma_slots_enc_err_none(v.save_slots);
}

pub proof fn lemma_slots_enc_err_none(slots: Seq<Option<SaveSlotView>>)
    ensures
        slots_enc_err(slots) is None <==> (forall|i: int|
            0 <= i < slots.len() && (#[trigger] slots[i]) is Some ==> slots[i].unwrap().wf()),
    decreases slots.len(),
{
    if slots.len() > 0 {
        lemma_slots_enc_err_none(slots.skip(1));
        assert(forall|i: int| 0 <= i < slots.skip(1).len() ==> #[trigger] slots.skip(1)[i]
            == slots[i + 1]);
        if slots[0] is Some {
            lemma_slot_enc_err_none(slots[0].unwrap());
        }
        if slots_enc_err(slots) is None {
            assert forall|i: int|
                0 <= i < slots.len() && (#[trigger] slots[i]) is Some implies slots[i].unwrap().wf() by {
                if i > 0 {
                    assert(slots.skip(1)[i - 1] == slots[i]);
                }
            }
        }
        if forall|i: int|
            0 <= i < slots.len() && (#[trigger] slots[i]) is Some ==> slots[i].unwrap().wf() {
            assert forall|i: int|
                0 <= i < slots.skip(1).len() && (#[trigger] slots.skip(1)[i])
                    is Some implies slots.skip(1)[i].unwrap().wf() by {
                assert(slots.skip(1)[i] == slots[i + 1]);
            }
            assert(slots_enc_err(slots) is None);
        }
    }
}

/// When every slot before `i` can be encoded and the present slot at `i`
/// cannot, the slot at `i` decides the error.
pub proof fn lemma_slots_enc_err_first(slots: Seq<Option<SaveSlotView>>, i: int, e: Error)
    requires
        0 <= i < slots.len(),
        forall|j: int|
            0 <= j < i && (#[trigger] slots[j]) is Some ==> slot_enc_err(slots[j].unwrap())
                is None,
        slots[i] is Some,
        slot_enc_err(slots[i].unwrap()) == Some(e),
    ensures
        slots_enc_err(slots) == Some(e),
    decreases i,
{
    if i > 0 {
        lemma_slots_enc_err_first(slots.skip(1), i - 1, e);
    }
}

/// Serializing one more player extends the serialization of a prefix.
pub proof fn lemma_ser_players_snoc(ps: Seq<PlayerView>, i: int)
    requires
        0 <= i < ps.len(),
    ensures
        ser_players(ps.take(i + 1)) == ser_players(ps.take(i)) + ser_player(ps[i]),
    decreases i,
{
    if i == 0 {
        assert(ps.take(1).skip(1) =~= Seq::<PlayerView>::empty());
        assert(ps.take(0) =~= Seq::<PlayerView>::empty());
        assert(ser_players(ps.take(1)) =~= ser_players(ps.take(0)) + ser_player(ps[0]));
    } else {
        lemma_ser_players_snoc(ps.skip(1), i - 1);
        assert(ps.take(i + 1).skip(1) =~= ps.skip(1).take(i));
        assert(ps.take(i).skip(1) =~= ps.skip(1).take(i - 1));
        assert(ser_players(ps.take(i + 1)) =~= ser_players(ps.take(i)) + ser_player(ps[i]));
    }
}

/// Serializing one more tip extends the serialization of a prefix.
pub proof fn lemma_ser_tips_snoc(ts: Seq<TipView>, i: int)
    requires
        0 <= i < ts.len(),
    ensures
        ser_tips(ts.take(i + 1)) == ser_tips(ts.take(i)) + ser_tip(ts[i]),
    decreases i,
{
    if i == 0 {
        assert(ts.take(1).skip(1) =~= Seq::<TipView>::empty());
        assert(ts.take(0) =~= Seq::<TipView>::empty());
        assert(ser_tips(ts.take(1)) =~= ser_tips(ts.take(0)) + ser_tip(ts[0]));
    } else {
        lemma_ser_tips_snoc(ts.skip(1), i - 1);
        assert(ts.take(i + 1).skip(1) =~= ts.skip(1).take(i));
        assert(ts.take(i).skip(1) =~= ts.skip(1).take(i - 1));
        assert(ser_tips(ts.take(i + 1)) =~= ser_tips(ts.take(i)) + ser_tip(ts[i]));
    }
}

/// Serializing one more slot position extends the serialization of a prefix.
pub proof fn lemma_ser_slots_snoc(slots: Seq<Option<SaveSlotView>>, i: int)
    requires
        0 <= i < slots.len(),
    ensures
        ser_slots(slots.take(i + 1)) == ser_slots(slots.take(i)) + ser_slot_entry(slots[i]),
    decreases i,
{
    if i == 0 {
        assert(slots.take(1).skip(1) =~= Seq::<Option<SaveSlotView>>::empty());
        assert(slots.take(0) =~= Seq::<Option<SaveSlotView>>::empty());
        assert(ser_slots(slots.take(1)) =~= ser_slots(slots.take(0)) + ser_slot_entry(slots[0]));
    } else {
        lemma_ser_slots_snoc(slots.skip(1), i - 1);
        assert(slots.take(i + 1).skip(1) =~= slots.skip(1).take(i));
        assert(slots.take(i).skip(1) =~= slots.skip(1).take(i - 1));
        assert(ser_slots(slots.take(i + 1)) =~= ser_slots(slots.take(i)) + ser_slot_entry(
            slots[i],
        ));
    }
}

// ---------------------------------------------------------------------------
// Round trips for the primitive fields. Each holds with arbitrary bytes
// following the serialized field, so that the composite proofs can chain
// them.
// ---------------------------------------------------------------------------

pub proof fn lemma_parse_ser_u8(v: u8, rest: Seq<u8>)
    ensures
        parse_u8(ser_u8(v) + rest) == Ok::<(u8, int), Error>((v, 1)),
{
    assert((ser_u8(v) + rest)[0] == v);
}

pub proof fn lemma_parse_ser_boolean(v: bool, rest: Seq<u8>)
    ensures
        parse_boolean(ser_boolean(v) + rest) == Ok::<(bool, int), Error>((v, 1)),
{
    assert((ser_boolean(v) + rest)[0] == if v {
        1u8
    } else {
        0u8
    });
}

pub proof fn lemma_parse_ser_i32(v: i32, rest: Seq<u8>)
    ensures
        parse_i32(ser_i32(v) + rest) == Ok::<(i32, int), Error>((v, 4)),
        ser_i32(v).len() == 4,
{
    lemma_auto_spec_u32_to_from_le_bytes();
    assert((ser_i32(v) + rest).subrange(0, 4) =~= ser_i32(v));
    assert((v as u32) as i32 == v) by (bit_vector);
}

pub proof fn lemma_parse_ser_u64(v: u64, rest: Seq<u8>)
    ensures
        parse_u64(ser_u64(v) + rest) == Ok::<(u64, int), Error>((v, 8)),
        ser_u64(v).len() == 8,
{
    lemma_auto_spec_u64_to_from_le_bytes();
    assert((ser_u64(v) + rest).subrange(0, 8) =~= ser_u64(v));
}

// ---------------------------------------------------------------------------
// Records: players and tips.
// ---------------------------------------------------------------------------

/// A player record: name, staff and weapon, three length-prefixed strings.
pub open spec fn parse_player(b: Seq<u8>) -> Result<(PlayerView, int), Error> {
    match parse_len_string(b) {
        Err(e) => Err(e),
        Ok((name, k1)) => match parse_len_string(b.skip(k1)) {
            Err(e) => Err(e),
            Ok((staff, k2)) => match parse_len_string(b.skip(k1 + k2)) {
                Err(e) => Err(e),
                Ok((weapon, k3)) => Ok((PlayerView { name, staff, weapon }, k1 + k2 + k3)),
            },
        },
    }
}

pub open spec fn ser_player(p: PlayerView) -> Seq<u8> {
    ser_len_string(p.name) + ser_len_string(p.staff) + ser_len_string(p.weapon)
}

/// `n` consecutive player records.
pub open spec fn parse_players(b: Seq<u8>, n: nat) -> Result<(Seq<PlayerView>, int), Error>
    decreases n,
{
    if n == 0 {
        Ok((Seq::empty(), 0))
    } else {
        match parse_player(b) {
            Err(e) => Err(e),
            Ok((p, k)) => match parse_players(b.skip(k), (n - 1) as nat) {
                Err(e) => Err(e),
                Ok((ps, m)) => Ok((seq![p] + ps, k + m)),
            },
        }
    }
}

pub open spec fn ser_players(ps: Seq<PlayerView>) -> Seq<u8>
    decreases ps.len(),
{
    if ps.len() == 0 {
        Seq::empty()
    } else {
        ser_player(ps[0]) + ser_players(ps.skip(1))
    }
}

/// A player's equipment alone: staff and weapon.
pub open spec fn parse_player_save_data(b: Seq<u8>) -> Result<(PlayerSaveDataView, int), Error> {
    match parse_len_string(b) {
        Err(e) => Err(e),
        Ok((staff, k1)) => match parse_len_string(b.skip(k1)) {
            Err(e) => Err(e),
            Ok((weapon, k2)) => Ok((PlayerSaveDataView { staff, weapon }, k1 + k2)),
        },
    }
}

pub open spec fn ser_player_save_data(p: PlayerSaveDataView) -> Seq<u8> {
    ser_len_string(p.staff) + ser_len_string(p.weapon)
}

/// A tip record: the tip's name and its shown count.
pub open spec fn parse_tip(b: Seq<u8>) -> Result<(TipView, int), Error> {
    match parse_len_string(b) {
        Err(e) => Err(e),
        Ok((name, k1)) => match parse_i32(b.skip(k1)) {
            Err(e) => Err(e),
            Ok((count, k2)) => Ok((TipView { name, count }, k1 + k2)),
        },
    }
}

pub open spec fn ser_tip(t: TipView) -> Seq<u8> {
    ser_len_string(t.name) + ser_i32(t.count)
}

/// `n` consecutive tip records.
pub open spec fn parse_tips(b: Seq<u8>, n: nat) -> Result<(Seq<TipView>, int), Error>
    decreases n,
{
    if n == 0 {
        Ok((Seq::empty(), 0))
    } else {
        match parse_tip(b) {
            Err(e) => Err(e),
            Ok((t, k)) => match parse_tips(b.skip(k), (n - 1) as nat) {
                Err(e) => Err(e),
                Ok((ts, m)) => Ok((seq![t] + ts, k + m)),
            },
        }
    }
}

pub open spec fn ser_tips(ts: Seq<TipView>) -> Seq<u8>
    decreases ts.len(),
{
    if ts.len() == 0 {
        Seq::empty()
    } else {
        ser_tip(ts[0]) + ser_tips(ts.skip(1))
    }
}

// ---------------------------------------------------------------------------
// Count fields. A count is stored as an `i32`; one that is negative, or
// larger than the bytes that remain, is a format violation and is rejected
// before any reading or allocation is attempted.
// ---------------------------------------------------------------------------

pub open spec fn count_ok(v: i32, remaining: int) -> bool {
    0 <= v && v as int <= remaining
}

/// The checkpoint blob: an `i32` byte length, then that many raw bytes,
/// never interpreted.
pub open spec fn parse_checkpoint(b: Seq<u8>) -> Result<(Seq<u8>, int), Error> {
    match parse_i32(b) {
        Err(e) => Err(e),
        Ok((n, k)) => {
            if !count_ok(n, b.len() - k) {
                Err(Error::MalformedLength)
            } else {
                Ok((b.subrange(k, k + n as int), k + n as int))
            }
        },
    }
}

pub open spec fn ser_checkpoint(c: Seq<u8>) -> Seq<u8> {
    ser_i32(c.len() as i32) + c
}

// ---------------------------------------------------------------------------
// One save slot. Two layouts exist: the current layout (from version
// 1.4.1.0 on) and the legacy layout, which lacks the separate maximum
// level and the checkpoint blob. Writing always uses the current layout.
// ---------------------------------------------------------------------------

pub open spec fn parse_slot(b: Seq<u8>, current: bool) -> Result<(SaveSlotView, int), Error> {
    match parse_u8(b) {
        Err(e) => Err(e),
        Ok((level, k1)) => {
            let max_step: Result<(u8, int), Error> = if current {
                parse_u8(b.skip(k1))
            } else {
                Ok((level, 0))
            };
            match max_step {
                Err(e) => Err(e),
                Ok((max_allowed_level, k2)) => match parse_boolean(b.skip(k1 + k2)) {
                    Err(e) => Err(e),
                    Ok((looped, k3)) => match parse_i32(b.skip(k1 + k2 + k3)) {
                        Err(e) => Err(e),
                        Ok((total_playtime, k4)) => match parse_i32(b.skip(k1 + k2 + k3 + k4)) {
                            Err(e) => Err(e),
                            Ok((current_playtime, k5)) => parse_slot_tail(
                                b,
                                current,
                                SaveSlotView {
                                    level,
                                    max_allowed_level,
                                    looped,
                                    total_playtime,
                                    current_playtime,
                                    players: Seq::empty(),
                                    unlocked_magicks: 0,
                                    shown_tips: Seq::empty(),
                                    checkpoint: Seq::empty(),
                                },
                                k1 + k2 + k3 + k4 + k5,
                            ),
                        },
                    },
                },
            }
        },
    }
}

/// The rest of a slot after the fixed header: the players, the unlock
/// bitmask, the tips, and (in the current layout) the checkpoint blob.
pub open spec fn parse_slot_tail(b: Seq<u8>, current: bool, head: SaveSlotView, at: int) -> Result<
    (SaveSlotView, int),
    Error,
> {
    match parse_i32(b.skip(at)) {
        Err(e) => Err(e),
        Ok((n_players, c1)) => {
            if !count_ok(n_players, b.len() - at - c1) {
                Err(Error::MalformedLength)
            } else {
                match parse_players(b.skip(at + c1), n_players as nat) {
                    Err(e) => Err(e),
                    Ok((players, c2)) => match parse_u64(b.skip(at + c1 + c2)) {
                        Err(e) => Err(e),
                        Ok((magicks, c3)) => match parse_i32(b.skip(at + c1 + c2 + c3)) {
                            Err(e) => Err(e),
                            Ok((n_tips, c4)) => {
                                if !count_ok(n_tips, b.len() - at - c1 - c2 - c3 - c4) {
                                    Err(Error::MalformedLength)
                                } else {
                                    match parse_tips(b.skip(at + c1 + c2 + c3 + c4), n_tips as nat) {
                                        Err(e) => Err(e),
                                        Ok((tips, c5)) => {
                                            let before_cp = at + c1 + c2 + c3 + c4 + c5;
                                            let cp_step: Result<(Seq<u8>, int), Error> = if current {
                                                parse_checkpoint(b.skip(before_cp))
                                            } else {
                                                Ok((Seq::empty(), 0))
                                            };
                                            match cp_step {
                                                Err(e) => Err(e),
                                                Ok((checkpoint, c6)) => Ok(
                                                    (
                                                        SaveSlotView {
                                                            players,
                                                            unlocked_magicks: magicks,
                                                            shown_tips: tips,
                                                            checkpoint,
                                                            ..head
                                                        },
                                                        before_cp + c6,
                                                    ),
                                                ),
                                            }
                                        },
                                    }
                                }
                            },
                        },
                    },
                }
            }
        },
    }
}

/// The serialized form of a slot: always the current layout.
pub open spec fn ser_slot(s: SaveSlotView) -> Seq<u8> {
    ser_u8(s.level) + ser_u8(s.max_allowed_level) + ser_boolean(s.looped) + ser_i32(
        s.total_playtime,
    ) + ser_i32(s.current_playtime) + ser_i32(s.players.len() as i32) + ser_players(s.players)
        + ser_u64(s.unlocked_magicks) + ser_i32(s.shown_tips.len() as i32) + ser_tips(s.shown_tips)
        + ser_checkpoint(s.checkpoint)
}

// ---------------------------------------------------------------------------
// The whole file: an optional version header, then exactly three slot
// positions, each one presence byte and, if the byte was set, a slot.
// ---------------------------------------------------------------------------

/// `n` slot positions.
pub open spec fn parse_slots(b: Seq<u8>, n: nat, current: bool) -> Result<
    (Seq<Option<SaveSlotView>>, int),
    Error,
>
    decreases n,
{
    if n == 0 {
        Ok((Seq::empty(), 0))
    } else {
        match parse_boolean(b) {
            Err(e) => Err(e),
            Ok((present, k)) => {
                if present {
                    match parse_slot(b.skip(k), current) {
                        Err(e) => Err(e),
                        Ok((slot, m)) => match parse_slots(b.skip(k + m), (n - 1) as nat, current) {
                            Err(e) => Err(e),
                            Ok((rest, t)) => Ok((seq![Some(slot)] + rest, k + m + t)),
                        },
                    }
                } else {
                    match parse_slots(b.skip(k), (n - 1) as nat, current) {
                        Err(e) => Err(e),
                        Ok((rest, t)) => Ok((seq![None::<SaveSlotView>] + rest, k + t)),
                    }
                }
            },
        }
    }
}

pub open spec fn ser_slot_entry(o: Option<SaveSlotView>) -> Seq<u8> {
    match o {
        None => ser_boolean(false),
        Some(s) => ser_boolean(true) + ser_slot(s),
    }
}

pub open spec fn ser_slots(slots: Seq<Option<SaveSlotView>>) -> Seq<u8>
    decreases slots.len(),
{
    if slots.len() == 0 {
        Seq::empty()
    } else {
        ser_slot_entry(slots[0]) + ser_slots(slots.skip(1))
    }
}

/// A whole file. A first byte of 0xFF announces a version header: the
/// version string follows and selects the slot layout. Any other first
/// byte is not consumed by the header: it is the first presence byte, and
/// the file is read in the legacy layout.
pub open spec fn parse_save(b: Seq<u8>) -> Result<(SaveInfoView, int), Error> {
    match parse_u8(b) {
        Err(e) => Err(e),
        Ok((first, _)) => {
            if first == 0xFF {
                match parse_len_string(b.skip(1)) {
                    Err(e) => Err(e),
                    Ok((vs, k)) => {
                        if !version_ok(vs) {
                            Err(Error::BadVersionString)
                        } else {
                            match parse_slots(
                                b.skip(1 + k),
                                3,
                                version_num_of(vs) >= CURRENT_LAYOUT_VERSION,
                            ) {
                                Err(e) => Err(e),
                                Ok((slots, m)) => Ok(
                                    (SaveInfoView { product_version: vs, save_slots: slots }, 1 + k
                                        + m),
                                ),
                            }
                        }
                    },
                }
            } else {
                match parse_slots(b, 3, false) {
                    Err(e) => Err(e),
                    Ok((slots, m)) => Ok(
                        (SaveInfoView { product_version: Seq::empty(), save_slots: slots }, m),
                    ),
                }
            }
        },
    }
}

/// The serialized form of a whole file: the 0xFF marker, the version
/// string, and the three slot positions, whatever version the model holds.
pub open spec fn ser_save(v: SaveInfoView) -> Seq<u8> {
    seq![0xFFu8] + ser_len_string(v.product_version) + ser_slots(v.save_slots)
}

pub proof fn lemma_parse_ser_len_string(s: Seq<char>, rest: Seq<u8>)
    requires
        fits_len_string(s),
    ensures
        parse_len_string(ser_len_string(s) + rest) == Ok::<(Seq<char>, int), Error>(
            (s, 1 + encode_utf8(s).len() as int),
        ),
{
    broadcast use encode_utf8_valid_utf8, encode_utf8_decode_utf8;

    let n = encode_utf8(s).len() as int;
    let b = ser_len_string(s) + rest;
    assert(b[0] == n as u8);
    assert(b.subrange(1, 1 + n) =~= encode_utf8(s));
}

// ---------------------------------------------------------------------------
// Round trips for the records and the whole file: decoding what was
// encoded gives back the encoded value. Writing always uses the current
// layout, so these round trips hold for files whose version selects that
// layout; a model carrying a legacy version would be re-read in the legacy
// layout and is not covered.
// ---------------------------------------------------------------------------

pub proof fn lemma_parse_ser_player(p: PlayerView, rest: Seq<u8>)
    requires
        p.wf(),
    ensures
        parse_player(ser_player(p) + rest) == Ok::<(PlayerView, int), Error>(
            (p, ser_player(p).len() as int),
        ),
{
    let b = ser_player(p) + rest;
    let k1 = 1 + encode_utf8(p.name).len() as int;
    let k2 = 1 + encode_utf8(p.staff).len() as int;
    let k3 = 1 + encode_utf8(p.weapon).len() as int;
    assert(b =~= ser_len_string(p.name) + (ser_len_string(p.staff) + (ser_len_string(p.weapon)
        + rest)));
    lemma_parse_ser_len_string(p.name, ser_len_string(p.staff) + (ser_len_string(p.weapon) + rest));
    assert(b.skip(k1) =~= ser_len_string(p.staff) + (ser_len_string(p.weapon) + rest));
    lemma_parse_ser_len_string(p.staff, ser_len_string(p.weapon) + rest);
    assert(b.skip(k1 + k2) =~= ser_len_string(p.weapon) + rest);
    lemma_parse_ser_len_string(p.weapon, rest);
}

#[verifier::rlimit(50)]
#[verifier::spinoff_prover]
pub proof fn lemma_parse_ser_players(ps: Seq<PlayerView>, rest: Seq<u8>)
    requires
        forall|i: int| 0 <= i < ps.len() ==> (#[trigger] ps[i]).wf(),
    ensures
        parse_players(ser_players(ps) + rest, ps.len()) == Ok::<(Seq<PlayerView>, int), Error>(
            (ps, ser_players(ps).len() as int),
        ),
    decreases ps.len(),
{
    if ps.len() == 0 {
        assert(ser_players(ps) + rest =~= rest);
        assert(ps =~= Seq::<PlayerView>::empty());
    } else {
        let b = ser_players(ps) + rest;
        assert(b =~= ser_player(ps[0]) + (ser_players(ps.skip(1)) + rest));
        lemma_parse_ser_player(ps[0], ser_players(ps.skip(1)) + rest);
        let k = ser_player(ps[0]).len() as int;
        assert(b.skip(k) =~= ser_players(ps.skip(1)) + rest);
        lemma_parse_ser_players(ps.skip(1), rest);
        assert(seq![ps[0]] + ps.skip(1) =~= ps);
    }
}

pub proof fn lemma_parse_ser_tip(t: TipView, rest: Seq<u8>)
    requires
        t.wf(),
    ensures
        parse_tip(ser_tip(t) + rest) == Ok::<(TipView, int), Error>((t, ser_tip(t).len() as int)),
{
    let b = ser_tip(t) + rest;
    let k1 = 1 + encode_utf8(t.name).len() as int;
    assert(b =~= ser_len_string(t.name) + (ser_i32(t.count) + rest));
    lemma_parse_ser_len_string(t.name, ser_i32(t.count) + rest);
    assert(b.skip(k1) =~= ser_i32(t.count) + rest);
    lemma_parse_ser_i32(t.count, rest);
}

#[verifier::rlimit(50)]
#[verifier::spinoff_prover]
pub proof fn lemma_parse_ser_tips(ts: Seq<TipView>, rest: Seq<u8>)
    requires
        forall|i: int| 0 <= i < ts.len() ==> (#[trigger] ts[i]).wf(),
    ensures
        parse_tips(ser_tips(ts) + rest, ts.len()) == Ok::<(Seq<TipView>, int), Error>(
            (ts, ser_tips(ts).len() as int),
        ),
    decreases ts.len(),
{
    lemma_ser_lens();
    if ts.len() == 0 {
        assert(ser_tips(ts) + rest =~= rest);
        assert(ts =~= Seq::<TipView>::empty());
    } else {
        let b = ser_tips(ts) + rest;
        assert(b =~= ser_tip(ts[0]) + (ser_tips(ts.skip(1)) + rest));
        lemma_parse_ser_tip(ts[0], ser_tips(ts.skip(1)) + rest);
        let k = ser_tip(ts[0]).len() as int;
        assert(b.skip(k) =~= ser_tips(ts.skip(1)) + rest);
        lemma_parse_ser_tips(ts.skip(1), rest);
        assert(seq![ts[0]] + ts.skip(1) =~= ts);
        assert(parse_tips(b, ts.len()) == Ok::<(Seq<TipView>, int), Error>(
            (ts, ser_tips(ts).len() as int),
        ));
    }
}

pub proof fn lemma_parse_ser_checkpoint(c: Seq<u8>, rest: Seq<u8>)
    requires
        c.len() <= i32::MAX,
    ensures
        parse_checkpoint(ser_checkpoint(c) + rest) == Ok::<(Seq<u8>, int), Error>(
            (c, 4 + c.len() as int),
        ),
{
    let b = ser_checkpoint(c) + rest;
    assert(b =~= ser_i32(c.len() as i32) + (c + rest));
    lemma_parse_ser_i32(c.len() as i32, c + rest);
    assert(b.skip(4) =~= c + rest);
    assert(b.subrange(4, 4 + c.len() as int) =~= c);
}

/// Each serialized player is at least one byte, so a player count that was
/// written never exceeds the bytes that follow it.
pub proof fn lemma_ser_players_len(ps: Seq<PlayerView>)
    ensures
        ser_players(ps).len() >= ps.len(),
    decreases ps.len(),
{
    if ps.len() > 0 {
        lemma_ser_players_len(ps.skip(1));
    }
}

/// Each serialized tip is at least one byte.
pub proof fn lemma_ser_tips_len(ts: Seq<TipView>)
    ensures
        ser_tips(ts).len() >= ts.len(),
    decreases ts.len(),
{
    if ts.len() > 0 {
        lemma_ser_tips_len(ts.skip(1));
    }
}

/// The serialized scalar fields have their fixed widths.
pub proof fn lemma_ser_lens()
    ensures
        forall|v: i32| (#[trigger] ser_i32(v)).len() == 4,
        forall|v: u64| (#[trigger] ser_u64(v)).len() == 8,
{
    lemma_auto_spec_u32_to_from_le_bytes();
    lemma_auto_spec_u64_to_from_le_bytes();
}

/// The byte length of a serialized slot.
pub open spec fn ser_slot_len(s: SaveSlotView) -> int {
    31 + ser_players(s.players).len() as int + ser_tips(s.shown_tips).len() as int
        + s.checkpoint.len() as int
}

#[verifier::rlimit(50)]
#[verifier::spinoff_prover]
proof fn lemma_parse_ser_slot_tail(s: SaveSlotView, rest: Seq<u8>, b: Seq<u8>, at: int, h: SaveSlotView)
    requires
        s.wf(),
        0 <= at <= b.len(),
        b.skip(at) == ser_i32(s.players.len() as i32) + (ser_players(s.players) + (ser_u64(
            s.unlocked_magicks,
        ) + (ser_i32(s.shown_tips.len() as i32) + (ser_tips(s.shown_tips) + (ser_checkpoint(
            s.checkpoint,
        ) + rest))))),
    ensures
        parse_slot_tail(b, true, h, at) == Ok::<(SaveSlotView, int), Error>(
            (
                SaveSlotView {
                    players: s.players,
                    unlocked_magicks: s.unlocked_magicks,
                    shown_tips: s.shown_tips,
                    checkpoint: s.checkpoint,
                    ..h
                },
                at + 20 + ser_players(s.players).len() + ser_tips(s.shown_tips).len()
                    + s.checkpoint.len(),
            ),
        ),
{
    lemma_ser_lens();
    let cp = ser_checkpoint(s.checkpoint) + rest;
    let r4 = ser_tips(s.shown_tips) + cp;
    let r3 = ser_i32(s.shown_tips.len() as i32) + r4;
    let r2 = ser_u64(s.unlocked_magicks) + r3;
    let r1 = ser_players(s.players) + r2;
    let np = ser_players(s.players).len() as int;
    let nt = ser_tips(s.shown_tips).len() as int;
    lemma_parse_ser_i32(s.players.len() as i32, r1);
    assert(b.skip(at).skip(4) =~= r1);
    assert(b.skip(at + 4) =~= b.skip(at).skip(4));
    lemma_ser_players_len(s.players);
    lemma_parse_ser_players(s.players, r2);
    assert(b.skip(at + 4).skip(np) =~= r2);
    assert(b.skip(at + 4 + np) =~= b.skip(at + 4).skip(np));
    lemma_parse_ser_u64(s.unlocked_magicks, r3);
    assert(b.skip(at + 4 + np).skip(8) =~= r3);
    assert(b.skip(at + 12 + np) =~= b.skip(at + 4 + np).skip(8));
    lemma_parse_ser_i32(s.shown_tips.len() as i32, r4);
    assert(b.skip(at + 12 + np).skip(4) =~= r4);
    assert(b.skip(at + 16 + np) =~= b.skip(at + 12 + np).skip(4));
    lemma_ser_tips_len(s.shown_tips);
    lemma_parse_ser_tips(s.shown_tips, cp);
    assert(b.skip(at + 16 + np).skip(nt) =~= cp);
    assert(b.skip(at + 16 + np + nt) =~= b.skip(at + 16 + np).skip(nt));
    lemma_parse_ser_checkpoint(s.checkpoint, rest);
}

#[verifier::rlimit(100)]
#[verifier::spinoff_prover]
pub proof fn lemma_parse_ser_slot(s: SaveSlotView, rest: Seq<u8>)
    requires
        s.wf(),
    ensures
        parse_slot(ser_slot(s) + rest, true) == Ok::<(SaveSlotView, int), Error>(
            (s, ser_slot_len(s)),
        ),
        ser_slot(s).len() == ser_slot_len(s),
{
    lemma_ser_lens();
    let b = ser_slot(s) + rest;
    let tail = ser_i32(s.players.len() as i32) + (ser_players(s.players) + (ser_u64(
        s.unlocked_magicks,
    ) + (ser_i32(s.shown_tips.len() as i32) + (ser_tips(s.shown_tips) + (ser_checkpoint(
        s.checkpoint,
    ) + rest)))));
    let h4 = ser_i32(s.current_playtime) + tail;
    let h3 = ser_i32(s.total_playtime) + h4;
    let h2 = ser_boolean(s.looped) + h3;
    let h1 = ser_u8(s.max_allowed_level) + h2;
    assert(b =~= ser_u8(s.level) + h1);
    lemma_parse_ser_u8(s.level, h1);
    assert(b.skip(1) =~= h1);
    lemma_parse_ser_u8(s.max_allowed_level, h2);
    assert(b.skip(1).skip(1) =~= h2);
    assert(b.skip(2) =~= b.skip(1).skip(1));
    lemma_parse_ser_boolean(s.looped, h3);
    assert(b.skip(2).skip(1) =~= h3);
    assert(b.skip(3) =~= b.skip(2).skip(1));
    lemma_parse_ser_i32(s.total_playtime, h4);
    assert(b.skip(3).skip(4) =~= h4);
    assert(b.skip(7) =~= b.skip(3).skip(4));
    lemma_parse_ser_i32(s.current_playtime, tail);
    assert(b.skip(7).skip(4) =~= tail);
    assert(b.skip(11) =~= b.skip(7).skip(4));
    let h = SaveSlotView {
        level: s.level,
        max_allowed_level: s.max_allowed_level,
        looped: s.looped,
        total_playtime: s.total_playtime,
        current_playtime: s.current_playtime,
        players: Seq::empty(),
        unlocked_magicks: 0,
        shown_tips: Seq::empty(),
        checkpoint: Seq::empty(),
    };
    lemma_parse_ser_slot_tail(s, rest, b, 11, h);
}

#[verifier::rlimit(100)]
#[verifier::spinoff_prover]
pub proof fn lemma_parse_ser_slots(slots: Seq<Option<SaveSlotView>>, rest: Seq<u8>)
    requires
        forall|i: int|
            0 <= i < slots.len() && (#[trigger] slots[i]) is Some ==> slots[i].unwrap().wf(),
    ensures
        parse_slots(ser_slots(slots) + rest, slots.len(), true) == Ok::<
            (Seq<Option<SaveSlotView>>, int),
            Error,
        >((slots, ser_slots(slots).len() as int)),
    decreases slots.len(), 1int,
{
    if slots.len() == 0 {
        assert(ser_slots(slots) + rest =~= rest);
        assert(slots =~= Seq::<Option<SaveSlotView>>::empty());
    } else if slots[0] is None {
        lemma_parse_ser_slots_head_none(slots, rest);
    } else {
        lemma_parse_ser_slots_head_some(slots, rest);
    }
}

#[verifier::rlimit(100)]
#[verifier::spinoff_prover]
proof fn lemma_parse_ser_slots_head_none(slots: Seq<Option<SaveSlotView>>, rest: Seq<u8>)
    requires
        slots.len() > 0,
        slots[0] is None,
        forall|i: int|
            0 <= i < slots.len() && (#[trigger] slots[i]) is Some ==> slots[i].unwrap().wf(),
    ensures
        parse_slots(ser_slots(slots) + rest, slots.len(), true) == Ok::<
            (Seq<Option<SaveSlotView>>, int),
            Error,
        >((slots, ser_slots(slots).len() as int)),
    decreases slots.len(), 0int,
{
    let b = ser_slots(slots) + rest;
    assert(forall|i: int| 0 <= i < slots.skip(1).len() ==> #[trigger] slots.skip(1)[i] == slots[i
        + 1]);
    assert(b =~= ser_boolean(false) + (ser_slots(slots.skip(1)) + rest));
    lemma_parse_ser_boolean(false, ser_slots(slots.skip(1)) + rest);
    assert(b.skip(1) =~= ser_slots(slots.skip(1)) + rest);
    lemma_parse_ser_slots(slots.skip(1), rest);
    assert(seq![slots[0]] + slots.skip(1) =~= slots);
}

#[verifier::rlimit(100)]
#[verifier::spinoff_prover]
proof fn lemma_parse_ser_slots_head_some(slots: Seq<Option<SaveSlotView>>, rest: Seq<u8>)
    requires
        slots.len() > 0,
        slots[0] is Some,
        forall|i: int|
            0 <= i < slots.len() && (#[trigger] slots[i]) is Some ==> slots[i].unwrap().wf(),
    ensures
        parse_slots(ser_slots(slots) + rest, slots.len(), true) == Ok::<
            (Seq<Option<SaveSlotView>>, int),
            Error,
        >((slots, ser_slots(slots).len() as int)),
    decreases slots.len(), 0int,
{
    let b = ser_slots(slots) + rest;
    let s = slots[0].unwrap();
    assert(forall|i: int| 0 <= i < slots.skip(1).len() ==> #[trigger] slots.skip(1)[i] == slots[i
        + 1]);
    let rest2 = ser_slots(slots.skip(1)) + rest;
    assert(b =~= ser_boolean(true) + (ser_slot(s) + rest2));
    lemma_parse_ser_boolean(true, ser_slot(s) + rest2);
    assert(b.skip(1) =~= ser_slot(s) + rest2);
    lemma_parse_ser_slot(s, rest2);
    let m = ser_slot(s).len() as int;
    assert(parse_slot(b.skip(1), true) == Ok::<(SaveSlotView, int), Error>((s, m)));
    assert(b.skip(1).skip(m) =~= rest2);
    assert(b.skip(1 + m) =~= b.skip(1).skip(m));
    lemma_parse_ser_slots(slots.skip(1), rest);
    assert(parse_slots(b.skip(1 + m), (slots.len() - 1) as nat, true) == Ok::<
        (Seq<Option<SaveSlotView>>, int),
        Error,
    >((slots.skip(1), ser_slots(slots.skip(1)).len() as int)));
    assert(seq![slots[0]] + slots.skip(1) =~= slots);
    assert(parse_slots(b, slots.len(), true) == Ok::<(Seq<Option<SaveSlotView>>, int), Error>(
        (slots, ser_slots(slots).len() as int),
    ));
}

/// The round trip of a whole save file: decoding an encoded model gives
/// the model back, field for field. This holds for every well-formed model
/// whose version string is valid and selects the current layout — the
/// layout that encoding always emits. A model carrying a legacy version
/// (or none) is encoded in the current layout all the same, so its bytes
/// would be re-read as legacy-layout fields: the documented one-way
/// upgrade, not covered here.
pub proof fn lemma_save_round_trip(v: SaveInfoView)
    requires
        v.wf(),
        version_ok(v.product_version),
        version_num_of(v.product_version) >= CURRENT_LAYOUT_VERSION,
    ensures
        parse_save(ser_save(v)) == Ok::<(SaveInfoView, int), Error>(
            (v, ser_save(v).len() as int),
        ),
{
    let b = ser_save(v);
    assert(b[0] == 0xFF);
    assert(b.skip(1) =~= ser_len_string(v.product_version) + ser_slots(v.save_slots));
    lemma_parse_ser_len_string(v.product_version, ser_slots(v.save_slots));
    let k = 1 + encode_utf8(v.product_version).len() as int;
    assert(b.skip(1 + k) =~= ser_slots(v.save_slots) + Seq::<u8>::empty());
    lemma_parse_ser_slots(v.save_slots, Seq::<u8>::empty());
    assert(ser_slots(v.save_slots) + Seq::<u8>::empty() =~= ser_slots(v.save_slots));
}

/// The version sentinel rewinds: a file whose first byte is not 0xFF has
/// no version header, and that byte is read again as the first presence
/// flag of a legacy-layout file with an empty product version.
pub proof fn lemma_version_sentinel_rewind(b: Seq<u8>)
    requires
        b.len() > 0,
        b[0] != 0xFF,
    ensures
        parse_save(b) == (match parse_slots(b, 3, false) {
            Ok((slots, m)) => Ok::<(SaveInfoView, int), Error>(
                (SaveInfoView { product_version: Seq::empty(), save_slots: slots }, m),
            ),
            Err(e) => Err::<(SaveInfoView, int), Error>(e),
        }),
{
}

/// A checkpoint length that is negative, or larger than every byte that
/// remains, aborts the read with `MalformedLength` before any byte of the
/// blob is taken.
pub proof fn lemma_malformed_checkpoint_length(b: Seq<u8>)
    requires
        b.len() >= 4,
        (spec_u32_from_le_bytes(b.subrange(0, 4)) as i32) < 0 || (spec_u32_from_le_bytes(
            b.subrange(0, 4),
        ) as i32) as int > b.len() - 4,
    ensures
        parse_checkpoint(b) == Err::<(Seq<u8>, int), Error>(Error::MalformedLength),
{
}

/// A player count that is negative, or larger than every byte that
/// remains in the stream, aborts the slot with `MalformedLength` before
/// any player is read. The count is the little-endian `i32` just after
/// the current layout's 11-byte fixed header.
pub proof fn lemma_malformed_player_count(b: Seq<u8>)
    requires
        b.len() >= 15,
        (spec_u32_from_le_bytes(b.subrange(11, 15)) as i32) < 0 || (spec_u32_from_le_bytes(
            b.subrange(11, 15),
        ) as i32) as int > b.len() - 15,
    ensures
        parse_slot(b, true) == Err::<(SaveSlotView, int), Error>(Error::MalformedLength),
{
    assert(b.skip(11).subrange(0, 4) =~= b.subrange(11, 15));
}

} // verus!
