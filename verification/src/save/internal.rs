//! The in-memory model of a save: slots, players and tips, with their
//! codecs. Reading dispatches between the two slot layouts by the packed
//! version number; writing always emits the current layout, so legacy
//! saves are upgraded silently on save.

use vstd::prelude::*;
use vstd::string::StringExecFns;

use crate::save::Error;
use crate::save::format::{
    step_view_ok, parse_player, parse_players, parse_player_save_data, parse_tip, parse_tips,
    parse_slot, parse_slot_tail, parse_slots, parse_checkpoint, ser_player, ser_players,
    ser_player_save_data, ser_tip, ser_tips, ser_slot, slot_enc_err, lemma_ser_players_snoc,
    lemma_ser_tips_snoc, PlayerView, PlayerSaveDataView, TipView, SaveSlotView,
};
use crate::save::version::CURRENT_LAYOUT_VERSION;
use crate::save::text::{dec_str, dec_str_i32, spec_bool_str, u64_to_string, i32_to_string,
    bool_to_string};
use crate::save::{read_u8, read_boolean, read_i32, read_u64, read_len_string};
use crate::save::{write_u8, write_boolean, write_i32, write_u64, write_len_string};

verus! {

/// Internal representation of a save slot.
#[derive(Debug)]
pub struct SaveSlot {
    level: u8,
    max_allowed_level: u8,
    looped: bool,
    total_playtime: i32,
    current_playtime: i32,
    players: Vec<Player>,
    unlocked_magicks: u64,
    shown_tips: Vec<Tip>,
    checkpoint: Vec<u8>,
}

#[derive(Debug)]
pub struct Player {
    name: String,
    staff: String,
    weapon: String,
}

#[derive(Debug)]
pub struct PlayerSaveData {
    staff: String,
    weapon: String,
}

/// A tip's shown count. The source format also speaks of a timestamp per
/// tip, but no such field is ever serialized, so none is stored here.
#[derive(Debug)]
pub struct Tip {
    name: String,
    count: i32,
}

impl View for Player {
    type V = PlayerView;

    closed spec fn view(&self) -> PlayerView {
        PlayerView { name: self.name@, staff: self.staff@, weapon: self.weapon@ }
    }
}

impl View for PlayerSaveData {
    type V = PlayerSaveDataView;

    closed spec fn view(&self) -> PlayerSaveDataView {
        PlayerSaveDataView { staff: self.staff@, weapon: self.weapon@ }
    }
}

impl View for Tip {
    type V = TipView;

    closed spec fn view(&self) -> TipView {
        TipView { name: self.name@, count: self.count }
    }
}

impl View for SaveSlot {
    type V = SaveSlotView;

    closed spec fn view(&self) -> SaveSlotView {
        SaveSlotView {
            level: self.level,
            max_allowed_level: self.max_allowed_level,
            looped: self.looped,
            total_playtime: self.total_playtime,
            current_playtime: self.current_playtime,
            players: self.players@.map_values(|p: Player| p@),
            unlocked_magicks: self.unlocked_magicks,
            shown_tips: self.shown_tips@.map_values(|t: Tip| t@),
            checkpoint: self.checkpoint@,
        }
    }
}

impl Player {
    pub fn new(name: String, staff: String, weapon: String) -> (p: Player)
        ensures
            p@ == (PlayerView { name: name@, staff: staff@, weapon: weapon@ }),
    {
        Player { name, staff, weapon }
    }

    pub fn get_name_mut(&mut self) -> (r: &mut String)
        ensures
            (*r)@ == old(self)@.name,
            final(self)@ == (PlayerView { name: (*final(r))@, ..old(self)@ }),
    {
        &mut self.name
    }

    pub fn get_staff_mut(&mut self) -> (r: &mut String)
        ensures
            (*r)@ == old(self)@.staff,
            final(self)@ == (PlayerView { staff: (*final(r))@, ..old(self)@ }),
    {
        &mut self.staff
    }

    pub fn get_weapon_mut(&mut self) -> (r: &mut String)
        ensures
            (*r)@ == old(self)@.weapon,
            final(self)@ == (PlayerView { weapon: (*final(r))@, ..old(self)@ }),
    {
        &mut self.weapon
    }
}

/// Read one player record: name, staff and weapon.
fn read_player(data: &Vec<u8>, pos: usize) -> (r: Result<(Player, usize), Error>)
    requires
        pos <= data@.len(),
    ensures
        step_view_ok(pos as int, data@.len() as int, r, parse_player(data@.skip(pos as int))),
{
    let (name, p1) = match read_len_string(data, pos) {
        Ok(v) => v,
        Err(e) => {
            return Err(e);
        },
    };
    proof {
        assert(data@.skip(pos as int).skip(p1 - pos) =~= data@.skip(p1 as int));
    }
    let (staff, p2) = match read_len_string(data, p1) {
        Ok(v) => v,
        Err(e) => {
            return Err(e);
        },
    };
    proof {
        assert(data@.skip(pos as int).skip(p2 - pos) =~= data@.skip(p2 as int));
    }
    let (weapon, p3) = match read_len_string(data, p2) {
        Ok(v) => v,
        Err(e) => {
            return Err(e);
        },
    };
    Ok((Player { name, staff, weapon }, p3))
}

/// Write one player record, or fail without writing anything when one of
/// its strings does not fit its length prefix.
fn write_player(out: &mut Vec<u8>, p: &Player) -> (r: Result<(), Error>)
    ensures
        p@.wf() ==> r == Ok::<(), Error>(()) && final(out)@ == old(out)@ + ser_player(p@),
        !p@.wf() ==> r == Err::<(), Error>(Error::StringTooLong) && final(out)@ == old(out)@,
{
    let mut tmp: Vec<u8> = Vec::new();
    match write_len_string(&mut tmp, p.name.as_str()) {
        Ok(()) => (),
        Err(e) => {
            return Err(e);
        },
    }
    match write_len_string(&mut tmp, p.staff.as_str()) {
        Ok(()) => (),
        Err(e) => {
            return Err(e);
        },
    }
    match write_len_string(&mut tmp, p.weapon.as_str()) {
        Ok(()) => (),
        Err(e) => {
            return Err(e);
        },
    }
    proof {
        assert(tmp@ =~= ser_player(p@));
    }
    out.append(&mut tmp);
    Ok(())
}

/// Read `n` consecutive player records.
fn read_players(data: &Vec<u8>, pos: usize, n: usize) -> (r: Result<(Vec<Player>, usize), Error>)
    requires
        pos <= data@.len(),
    ensures
        (match r {
            Ok((ps, end)) => pos <= end <= data@.len() && parse_players(
                data@.skip(pos as int),
                n as nat,
            ) == Ok::<(Seq<PlayerView>, int), Error>(
                (ps@.map_values(|p: Player| p@), end - pos),
            ),
            Err(e) => parse_players(data@.skip(pos as int), n as nat) == Err::<
                (Seq<PlayerView>, int),
                Error,
            >(e),
        }),
{
    let total: usize = data.len();
    proof {
        assert(data@.len() == total as int);
    }
    let mut ps: Vec<Player> = Vec::new();
    let mut cur: usize = pos;
    let mut i: usize = 0;
    while i < n
        invariant
            pos <= cur <= data@.len(),
            data@.len() <= usize::MAX,
            i <= n,
            (match parse_players(data@.skip(cur as int), (n - i) as nat) {
                Ok((rest, m)) => parse_players(data@.skip(pos as int), n as nat) == Ok::<
                    (Seq<PlayerView>, int),
                    Error,
                >((ps@.map_values(|p: Player| p@) + rest, cur - pos + m)),
                Err(e) => parse_players(data@.skip(pos as int), n as nat) == Err::<
                    (Seq<PlayerView>, int),
                    Error,
                >(e),
            }),
        decreases n - i,
    {
        match read_player(data, cur) {
            Ok((p, end)) => {
                proof {
                    assert(data@.skip(cur as int).skip(end - cur) =~= data@.skip(end as int));
                    assert(ps@.push(p).map_values(|q: Player| q@) =~= ps@.map_values(
                        |q: Player| q@,
                    ).push(p@));
                    assert(forall|rest: Seq<PlayerView>|
                        ps@.map_values(|q: Player| q@).push(p@) + rest =~= ps@.map_values(
                            |q: Player| q@,
                        ) + (seq![p@] + rest));
                }
                ps.push(p);
                cur = end;
                i = i + 1;
            },
            Err(e) => {
                return Err(e);
            },
        }
    }
    proof {
        assert(ps@.map_values(|q: Player| q@) + Seq::<PlayerView>::empty() =~= ps@.map_values(
            |q: Player| q@,
        ));
    }
    Ok((ps, cur))
}

/// Read `n` consecutive tip records.
fn read_tips(data: &Vec<u8>, pos: usize, n: usize) -> (r: Result<(Vec<Tip>, usize), Error>)
    requires
        pos <= data@.len(),
    ensures
        (match r {
            Ok((ts, end)) => pos <= end <= data@.len() && parse_tips(
                data@.skip(pos as int),
                n as nat,
            ) == Ok::<(Seq<TipView>, int), Error>((ts@.map_values(|t: Tip| t@), end - pos)),
            Err(e) => parse_tips(data@.skip(pos as int), n as nat) == Err::<
                (Seq<TipView>, int),
                Error,
            >(e),
        }),
{
    let total: usize = data.len();
    proof {
        assert(data@.len() == total as int);
    }
    let mut ts: Vec<Tip> = Vec::new();
    let mut cur: usize = pos;
    let mut i: usize = 0;
    while i < n
        invariant
            pos <= cur <= data@.len(),
            data@.len() <= usize::MAX,
            i <= n,
            (match parse_tips(data@.skip(cur as int), (n - i) as nat) {
                Ok((rest, m)) => parse_tips(data@.skip(pos as int), n as nat) == Ok::<
                    (Seq<TipView>, int),
                    Error,
                >((ts@.map_values(|t: Tip| t@) + rest, cur - pos + m)),
                Err(e) => parse_tips(data@.skip(pos as int), n as nat) == Err::<
                    (Seq<TipView>, int),
                    Error,
                >(e),
            }),
        decreases n - i,
    {
        match Tip::read(data, cur) {
            Ok((t, end)) => {
                proof {
                    assert(data@.skip(cur as int).skip(end - cur) =~= data@.skip(end as int));
                    assert(ts@.push(t).map_values(|u: Tip| u@) =~= ts@.map_values(
                        |u: Tip| u@,
                    ).push(t@));
                    assert(forall|rest: Seq<TipView>|
                        ts@.map_values(|u: Tip| u@).push(t@) + rest =~= ts@.map_values(|u: Tip| u@)
                            + (seq![t@] + rest));
                }
                ts.push(t);
                cur = end;
                i = i + 1;
            },
            Err(e) => {
                return Err(e);
            },
        }
    }
    proof {
        assert(ts@.map_values(|u: Tip| u@) + Seq::<TipView>::empty() =~= ts@.map_values(
            |u: Tip| u@,
        ));
    }
    Ok((ts, cur))
}

/// Read the checkpoint blob: its `i32` length, then that many raw bytes.
/// A negative length, or one beyond the bytes that remain, is rejected
/// before anything is allocated.
fn read_checkpoint(data: &Vec<u8>, pos: usize) -> (r: Result<(Vec<u8>, usize), Error>)
    requires
        pos <= data@.len(),
    ensures
        (match r {
            Ok((cp, end)) => pos <= end <= data@.len() && parse_checkpoint(data@.skip(pos as int))
                == Ok::<(Seq<u8>, int), Error>((cp@, end - pos)),
            Err(e) => parse_checkpoint(data@.skip(pos as int)) == Err::<(Seq<u8>, int), Error>(e),
        }),
{
    let (n, p1) = match read_i32(data, pos) {
        Ok(v) => v,
        Err(e) => {
            return Err(e);
        },
    };
    if n < 0 {
        return Err(Error::MalformedLength);
    }
    let count = n as usize;
    if count > data.len() - p1 {
        return Err(Error::MalformedLength);
    }
    let mut bytes: Vec<u8> = Vec::new();
    let mut i: usize = 0;
    while i < count
        invariant
            i <= count,
            p1 + count <= data@.len(),
            data@.len() <= usize::MAX,
            bytes@ =~= data@.subrange(p1 as int, p1 + i),
        decreases count - i,
    {
        bytes.push(data[p1 + i]);
        i = i + 1;
    }
    proof {
        assert(bytes@ =~= data@.skip(pos as int).subrange(p1 - pos, p1 - pos + n));
    }
    Ok((bytes, p1 + count))
}

impl SaveSlot {
    /// Read one slot, picking the layout by the packed version number.
    pub fn read(data: &Vec<u8>, pos: usize, version_num: u64) -> (r: Result<
        (SaveSlot, usize),
        Error,
    >)
        requires
            pos <= data@.len(),
        ensures
            step_view_ok(
                pos as int,
                data@.len() as int,
                r,
                parse_slot(data@.skip(pos as int), version_num >= CURRENT_LAYOUT_VERSION),
            ),
    {
        if version_num >= CURRENT_LAYOUT_VERSION {
            Self::read_v1410(data, pos)
        } else {
            Self::read_v1000(data, pos)
        }
    }

    /// The current layout: a separate maximum level and a checkpoint blob.
    fn read_v1410(data: &Vec<u8>, pos: usize) -> (r: Result<(SaveSlot, usize), Error>)
        requires
            pos <= data@.len(),
        ensures
            step_view_ok(
                pos as int,
                data@.len() as int,
                r,
                parse_slot(data@.skip(pos as int), true),
            ),
    {
        let (level, p1) = match read_u8(data, pos) {
            Ok(v) => v,
            Err(e) => {
                return Err(e);
            },
        };
        proof {
            assert(data@.skip(pos as int).skip(p1 - pos) =~= data@.skip(p1 as int));
        }
        let (max_allowed_level, p2) = match read_u8(data, p1) {
            Ok(v) => v,
            Err(e) => {
                return Err(e);
            },
        };
        proof {
            assert(data@.skip(pos as int).skip(p2 - pos) =~= data@.skip(p2 as int));
        }
        let (looped, p3) = match read_boolean(data, p2) {
            Ok(v) => v,
            Err(e) => {
                return Err(e);
            },
        };
        proof {
            assert(data@.skip(pos as int).skip(p3 - pos) =~= data@.skip(p3 as int));
        }
        let (total_playtime, p4) = match read_i32(data, p3) {
            Ok(v) => v,
            Err(e) => {
                return Err(e);
            },
        };
        proof {
            assert(data@.skip(pos as int).skip(p4 - pos) =~= data@.skip(p4 as int));
        }
        let (current_playtime, p5) = match read_i32(data, p4) {
            Ok(v) => v,
            Err(e) => {
                return Err(e);
            },
        };
        proof {
            assert(data@.skip(pos as int).skip(p5 - pos) =~= data@.skip(p5 as int));
        }
        match Self::read_tail(data, pos, p5) {
            Ok((players, unlocked_magicks, shown_tips, checkpoint, p6)) => Ok(
                (
                    SaveSlot {
                        level,
                        max_allowed_level,
                        looped,
                        total_playtime,
                        current_playtime,
                        players,
                        unlocked_magicks,
                        shown_tips,
                        checkpoint,
                    },
                    p6,
                ),
            ),
            Err(e) => Err(e),
        }
    }

    /// The legacy layout: no separate maximum level (it equals the level)
    /// and no checkpoint blob.
    fn read_v1000(data: &Vec<u8>, pos: usize) -> (r: Result<(SaveSlot, usize), Error>)
        requires
            pos <= data@.len(),
        ensures
            step_view_ok(
                pos as int,
                data@.len() as int,
                r,
                parse_slot(data@.skip(pos as int), false),
            ),
    {
        let (level, p1) = match read_u8(data, pos) {
            Ok(v) => v,
            Err(e) => {
                return Err(e);
            },
        };
        let max_allowed_level = level;
        proof {
            assert(data@.skip(pos as int).skip(p1 - pos) =~= data@.skip(p1 as int));
        }
        let (looped, p3) = match read_boolean(data, p1) {
            Ok(v) => v,
            Err(e) => {
                return Err(e);
            },
        };
        proof {
            assert(data@.skip(pos as int).skip(p3 - pos) =~= data@.skip(p3 as int));
        }
        let (total_playtime, p4) = match read_i32(data, p3) {
            Ok(v) => v,
            Err(e) => {
                return Err(e);
            },
        };
        proof {
            assert(data@.skip(pos as int).skip(p4 - pos) =~= data@.skip(p4 as int));
        }
        let (current_playtime, p5) = match read_i32(data, p4) {
            Ok(v) => v,
            Err(e) => {
                return Err(e);
            },
        };
        proof {
            assert(data@.skip(pos as int).skip(p5 - pos) =~= data@.skip(p5 as int));
        }
        match Self::read_tail_no_checkpoint(data, pos, p5) {
            Ok((players, unlocked_magicks, shown_tips, p6)) => Ok(
                (
                    SaveSlot {
                        level,
                        max_allowed_level,
                        looped,
                        total_playtime,
                        current_playtime,
                        players,
                        unlocked_magicks,
                        shown_tips,
                        checkpoint: Vec::new(),
                    },
                    p6,
                ),
            ),
            Err(e) => Err(e),
        }
    }

    /// The tail of a current-layout slot, from the player count on:
    /// players, unlock bitmask, tips, checkpoint. `pos` is where the slot
    /// began and `at` where its tail begins.
    fn read_tail(data: &Vec<u8>, pos: usize, at: usize) -> (r: Result<
        (Vec<Player>, u64, Vec<Tip>, Vec<u8>, usize),
        Error,
    >)
        requires
            pos <= at <= data@.len(),
        ensures
            (match r {
                Ok((players, magicks, tips, cp, end)) => at <= end <= data@.len() && forall|
                    h: SaveSlotView,
                |
                    #[trigger] parse_slot_tail(data@.skip(pos as int), true, h, at - pos) == Ok::<
                        (SaveSlotView, int),
                        Error,
                    >(
                        (
                            SaveSlotView {
                                players: players@.map_values(|p: Player| p@),
                                unlocked_magicks: magicks,
                                shown_tips: tips@.map_values(|t: Tip| t@),
                                checkpoint: cp@,
                                ..h
                            },
                            end - pos,
                        ),
                    ),
                Err(e) => forall|h: SaveSlotView|
                    #[trigger] parse_slot_tail(data@.skip(pos as int), true, h, at - pos) == Err::<
                        (SaveSlotView, int),
                        Error,
                    >(e),
            }),
    {
        proof {
            assert(data@.skip(pos as int).skip(at - pos) =~= data@.skip(at as int));
        }
        let (n_players, q1) = match read_i32(data, at) {
            Ok(v) => v,
            Err(e) => {
                return Err(e);
            },
        };
        if n_players < 0 || n_players as usize > data.len() - q1 {
            return Err(Error::MalformedLength);
        }
        proof {
            assert(data@.skip(pos as int).skip(q1 - pos) =~= data@.skip(q1 as int));
        }
        let (players, q2) = match read_players(data, q1, n_players as usize) {
            Ok(v) => v,
            Err(e) => {
                return Err(e);
            },
        };
        proof {
            assert(data@.skip(pos as int).skip(q2 - pos) =~= data@.skip(q2 as int));
        }
        let (magicks, q3) = match read_u64(data, q2) {
            Ok(v) => v,
            Err(e) => {
                return Err(e);
            },
        };
        proof {
            assert(data@.skip(pos as int).skip(q3 - pos) =~= data@.skip(q3 as int));
        }
        let (n_tips, q4) = match read_i32(data, q3) {
            Ok(v) => v,
            Err(e) => {
                return Err(e);
            },
        };
        if n_tips < 0 || n_tips as usize > data.len() - q4 {
            return Err(Error::MalformedLength);
        }
        proof {
            assert(data@.skip(pos as int).skip(q4 - pos) =~= data@.skip(q4 as int));
        }
        let (tips, q5) = match read_tips(data, q4, n_tips as usize) {
            Ok(v) => v,
            Err(e) => {
                return Err(e);
            },
        };
        proof {
            assert(data@.skip(pos as int).skip(q5 - pos) =~= data@.skip(q5 as int));
        }
        let (cp, q6) = match read_checkpoint(data, q5) {
            Ok(v) => v,
            Err(e) => {
                return Err(e);
            },
        };
        Ok((players, magicks, tips, cp, q6))
    }

    /// The tail of a legacy-layout slot: as `read_tail`, but no checkpoint
    /// field exists and the checkpoint stays empty.
    fn read_tail_no_checkpoint(data: &Vec<u8>, pos: usize, at: usize) -> (r: Result<
        (Vec<Player>, u64, Vec<Tip>, usize),
        Error,
    >)
        requires
            pos <= at <= data@.len(),
        ensures
            (match r {
                Ok((players, magicks, tips, end)) => at <= end <= data@.len() && forall|
                    h: SaveSlotView,
                |
                    #[trigger] parse_slot_tail(data@.skip(pos as int), false, h, at - pos) == Ok::<
                        (SaveSlotView, int),
                        Error,
                    >(
                        (
                            SaveSlotView {
                                players: players@.map_values(|p: Player| p@),
                                unlocked_magicks: magicks,
                                shown_tips: tips@.map_values(|t: Tip| t@),
                                checkpoint: Seq::empty(),
                                ..h
                            },
                            end - pos,
                        ),
                    ),
                Err(e) => forall|h: SaveSlotView|
                    #[trigger] parse_slot_tail(data@.skip(pos as int), false, h, at - pos) == Err::<
                        (SaveSlotView, int),
                        Error,
                    >(e),
            }),
    {
        proof {
            assert(data@.skip(pos as int).skip(at - pos) =~= data@.skip(at as int));
        }
        let (n_players, q1) = match read_i32(data, at) {
            Ok(v) => v,
            Err(e) => {
                return Err(e);
            },
        };
        if n_players < 0 || n_players as usize > data.len() - q1 {
            return Err(Error::MalformedLength);
        }
        proof {
            assert(data@.skip(pos as int).skip(q1 - pos) =~= data@.skip(q1 as int));
        }
        let (players, q2) = match read_players(data, q1, n_players as usize) {
            Ok(v) => v,
            Err(e) => {
                return Err(e);
            },
        };
        proof {
            assert(data@.skip(pos as int).skip(q2 - pos) =~= data@.skip(q2 as int));
        }
        let (magicks, q3) = match read_u64(data, q2) {
            Ok(v) => v,
            Err(e) => {
                return Err(e);
            },
        };
        proof {
            assert(data@.skip(pos as int).skip(q3 - pos) =~= data@.skip(q3 as int));
        }
        let (n_tips, q4) = match read_i32(data, q3) {
            Ok(v) => v,
            Err(e) => {
                return Err(e);
            },
        };
        if n_tips < 0 || n_tips as usize > data.len() - q4 {
            return Err(Error::MalformedLength);
        }
        proof {
            assert(data@.skip(pos as int).skip(q4 - pos) =~= data@.skip(q4 as int));
        }
        let (tips, q5) = match read_tips(data, q4, n_tips as usize) {
            Ok(v) => v,
            Err(e) => {
                return Err(e);
            },
        };
        Ok((players, magicks, tips, q5))
    }

    /// Write one slot in the current layout, whatever layout it was read
    /// from, or fail without writing anything: `MalformedLength` for a
    /// collection too large for its `i32` count field, `StringTooLong` for
    /// a string too long for its one-byte length prefix.
    pub fn write(&self, out: &mut Vec<u8>) -> (r: Result<(), Error>)
        ensures
            (match slot_enc_err(self@) {
                None => r == Ok::<(), Error>(()) && final(out)@ == old(out)@ + ser_slot(self@),
                Some(e) => r == Err::<(), Error>(e) && final(out)@ == old(out)@,
            }),
    {
        let mut tmp: Vec<u8> = Vec::new();
        write_u8(&mut tmp, self.level);
        write_u8(&mut tmp, self.max_allowed_level);
        write_boolean(&mut tmp, self.looped);
        write_i32(&mut tmp, self.total_playtime);
        write_i32(&mut tmp, self.current_playtime);
        if self.players.len() > (i32::MAX as usize) {
            return Err(Error::MalformedLength);
        }
        write_i32(&mut tmp, self.players.len() as i32);
        let ghost players_head: Seq<u8> = tmp@;
        let mut i: usize = 0;
        while i < self.players.len()
            invariant
                i <= self.players@.len(),
                self.players@.len() <= i32::MAX,
                tmp@ == players_head + ser_players(self@.players.take(i as int)),
                forall|j: int| 0 <= j < i ==> (#[trigger] self@.players[j]).wf(),
            decreases self.players@.len() - i,
        {
            proof {
                assert(self@.players[i as int] == self.players@[i as int]@);
            }
            match write_player(&mut tmp, &self.players[i]) {
                Ok(()) => {
                    proof {
                        lemma_ser_players_snoc(self@.players, i as int);
                    }
                    i = i + 1;
                },
                Err(e) => {
                    return Err(e);
                },
            }
        }
        proof {
            assert(self@.players.take(self.players@.len() as int) =~= self@.players);
        }
        write_u64(&mut tmp, self.unlocked_magicks);
        if self.shown_tips.len() > (i32::MAX as usize) {
            return Err(Error::MalformedLength);
        }
        write_i32(&mut tmp, self.shown_tips.len() as i32);
        let ghost tips_head: Seq<u8> = tmp@;
        let mut i: usize = 0;
        while i < self.shown_tips.len()
            invariant
                i <= self.shown_tips@.len(),
                self.shown_tips@.len() <= i32::MAX,
                self.players@.len() <= i32::MAX,
                forall|j: int| 0 <= j < self@.players.len() ==> (#[trigger] self@.players[j]).wf(),
                tmp@ == tips_head + ser_tips(self@.shown_tips.take(i as int)),
                forall|j: int| 0 <= j < i ==> (#[trigger] self@.shown_tips[j]).wf(),
            decreases self.shown_tips@.len() - i,
        {
            proof {
                assert(self@.shown_tips[i as int] == self.shown_tips@[i as int]@);
            }
            match self.shown_tips[i].write(&mut tmp) {
                Ok(()) => {
                    proof {
                        lemma_ser_tips_snoc(self@.shown_tips, i as int);
                    }
                    i = i + 1;
                },
                Err(e) => {
                    return Err(e);
                },
            }
        }
        proof {
            assert(self@.shown_tips.take(self.shown_tips@.len() as int) =~= self@.shown_tips);
        }
        if self.checkpoint.len() > (i32::MAX as usize) {
            return Err(Error::MalformedLength);
        }
        write_i32(&mut tmp, self.checkpoint.len() as i32);
        let ghost cp_head: Seq<u8> = tmp@;
        let mut i: usize = 0;
        while i < self.checkpoint.len()
            invariant
                i <= self.checkpoint@.len(),
                tmp@ =~= cp_head + self.checkpoint@.take(i as int),
            decreases self.checkpoint@.len() - i,
        {
            tmp.push(self.checkpoint[i]);
            i = i + 1;
        }
        proof {
            assert(self.checkpoint@.take(self.checkpoint@.len() as int) =~= self.checkpoint@);
            assert(tmp@ =~= ser_slot(self@));
        }
        out.append(&mut tmp);
        Ok(())
    }

    /// The report the editor shows for one slot, as the text it prints.
    pub fn report(&self) -> (r: String)
        ensures
            r@ == spec_slot_report(self@),
    {
        let mut r = String::from_str("Current Chapter  : ");
        let level_text = u64_to_string(self.level as u64);
        r.append(level_text.as_str());
        r.append("\n");
        r.append("Maximum Chapter  : ");
        let max_text = u64_to_string(self.max_allowed_level as u64);
        r.append(max_text.as_str());
        r.append("\n");
        r.append("Looped (NG+)     : ");
        let looped_text = bool_to_string(self.looped);
        r.append(looped_text.as_str());
        r.append("\n");
        r.append("Current Playtime : ");
        let current_text = i32_to_string(self.current_playtime);
        r.append(current_text.as_str());
        r.append("\n");
        r.append("Total Playtime   : ");
        let total_text = i32_to_string(self.total_playtime);
        r.append(total_text.as_str());
        r.append("\n");
        r.append("Players ----------------\n");
        let ghost head: Seq<char> = r@;
        let ghost player_views = self@.players;
        let mut i: usize = 0;
        while i < self.players.len()
            invariant
                i <= self.players@.len(),
                player_views == self@.players,
                r@ == head + spec_players_report(player_views.take(i as int)),
            decreases self.players@.len() - i,
        {
            proof {
                assert(player_views[i as int] == self.players@[i as int]@);
            }
            r.append("  Name   : ");
            r.append(self.players[i].name.as_str());
            r.append("\n");
            r.append("  Staff  : ");
            r.append(self.players[i].staff.as_str());
            r.append("\n");
            r.append("  Weapon : ");
            r.append(self.players[i].weapon.as_str());
            r.append("\n");
            proof {
                lemma_players_report_snoc(player_views, i as int);
                assert(r@ =~= head + spec_players_report(player_views.take(i + 1)));
            }
            i = i + 1;
        }
        proof {
            assert(player_views.take(self.players@.len() as int) =~= player_views);
            assert(r@ =~= spec_slot_report(self@));
        }
        r
    }

    pub fn get_players_mut(&mut self) -> (r: &mut Vec<Player>)
        ensures
            (*r)@.map_values(|p: Player| p@) == old(self)@.players,
            final(self)@ == (SaveSlotView {
                players: (*final(r))@.map_values(|p: Player| p@),
                ..old(self)@
            }),
    {
        &mut self.players
    }

    pub fn get_current_playtime_mut(&mut self) -> (r: &mut i32)
        ensures
            *r == old(self)@.current_playtime,
            final(self)@ == (SaveSlotView { current_playtime: *final(r), ..old(self)@ }),
    {
        &mut self.current_playtime
    }

    pub fn get_total_playtime_mut(&mut self) -> (r: &mut i32)
        ensures
            *r == old(self)@.total_playtime,
            final(self)@ == (SaveSlotView { total_playtime: *final(r), ..old(self)@ }),
    {
        &mut self.total_playtime
    }

    pub fn get_current_level_mut(&mut self) -> (r: &mut u8)
        ensures
            *r == old(self)@.level,
            final(self)@ == (SaveSlotView { level: *final(r), ..old(self)@ }),
    {
        &mut self.level
    }

    pub fn get_max_allowed_level_mut(&mut self) -> (r: &mut u8)
        ensures
            *r == old(self)@.max_allowed_level,
            final(self)@ == (SaveSlotView { max_allowed_level: *final(r), ..old(self)@ }),
    {
        &mut self.max_allowed_level
    }

    pub fn get_looped_mut(&mut self) -> (r: &mut bool)
        ensures
            *r == old(self)@.looped,
            final(self)@ == (SaveSlotView { looped: *final(r), ..old(self)@ }),
    {
        &mut self.looped
    }

    pub fn get_unlocked_magicks_mut(&mut self) -> (r: &mut u64)
        ensures
            *r == old(self)@.unlocked_magicks,
            final(self)@ == (SaveSlotView { unlocked_magicks: *final(r), ..old(self)@ }),
    {
        &mut self.unlocked_magicks
    }

    pub fn get_shown_tips_mut(&mut self) -> (r: &mut Vec<Tip>)
        ensures
            (*r)@.map_values(|t: Tip| t@) == old(self)@.shown_tips,
            final(self)@ == (SaveSlotView {
                shown_tips: (*final(r))@.map_values(|t: Tip| t@),
                ..old(self)@
            }),
    {
        &mut self.shown_tips
    }

    pub fn get_checkpoint_mut(&mut self) -> (r: &mut Vec<u8>)
        ensures
            (*r)@ == old(self)@.checkpoint,
            final(self)@ == (SaveSlotView { checkpoint: (*final(r))@, ..old(self)@ }),
    {
        &mut self.checkpoint
    }
}

/// One player's lines of the slot report.
pub open spec fn spec_player_report(p: PlayerView) -> Seq<char> {
    "  Name   : "@ + p.name + "\n"@ + "  Staff  : "@ + p.staff + "\n"@ + "  Weapon : "@ + p.weapon
        + "\n"@
}

pub open spec fn spec_players_report(ps: Seq<PlayerView>) -> Seq<char>
    decreases ps.len(),
{
    if ps.len() == 0 {
        Seq::empty()
    } else {
        spec_player_report(ps[0]) + spec_players_report(ps.skip(1))
    }
}

/// The human-readable report of one slot: its scalar fields, then one
/// block of lines per player.
pub open spec fn spec_slot_report(s: SaveSlotView) -> Seq<char> {
    "Current Chapter  : "@ + dec_str(s.level as nat) + "\n"@ + "Maximum Chapter  : "@ + dec_str(
        s.max_allowed_level as nat,
    ) + "\n"@ + "Looped (NG+)     : "@ + spec_bool_str(s.looped) + "\n"@ + "Current Playtime : "@
        + dec_str_i32(s.current_playtime) + "\n"@ + "Total Playtime   : "@ + dec_str_i32(
        s.total_playtime,
    ) + "\n"@ + "Players ----------------\n"@ + spec_players_report(s.players)
}

pub proof fn lemma_players_report_snoc(ps: Seq<PlayerView>, i: int)
    requires
        0 <= i < ps.len(),
    ensures
        spec_players_report(ps.take(i + 1)) == spec_players_report(ps.take(i))
            + spec_player_report(ps[i]),
    decreases i,
{
    if i == 0 {
        assert(ps.take(1).skip(1) =~= Seq::<PlayerView>::empty());
        assert(ps.take(0) =~= Seq::<PlayerView>::empty());
        assert(spec_players_report(ps.take(1)) =~= spec_players_report(ps.take(0))
            + spec_player_report(ps[0]));
    } else {
        lemma_players_report_snoc(ps.skip(1), i - 1);
        assert(ps.take(i + 1).skip(1) =~= ps.skip(1).take(i));
        assert(ps.take(i).skip(1) =~= ps.skip(1).take(i - 1));
        assert(spec_players_report(ps.take(i + 1)) =~= spec_players_report(ps.take(i))
            + spec_player_report(ps[i]));
    }
}

/// A possibly absent slot, as the contracts see it.
pub open spec fn slot_opt_view(o: Option<SaveSlot>) -> Option<SaveSlotView> {
    match o {
        Some(s) => Some(s@),
        None => None,
    }
}

/// Read `n` slot positions: each one presence byte and, when set, a slot
/// in the layout the version selects.
#[verifier::rlimit(100)]
#[verifier::spinoff_prover]
pub(crate) fn read_slots(data: &Vec<u8>, pos: usize, n: usize, version_num: u64) -> (r: Result<
    (Vec<Option<SaveSlot>>, usize),
    Error,
>)
    requires
        pos <= data@.len(),
    ensures
        (match r {
            Ok((slots, end)) => pos <= end <= data@.len() && parse_slots(
                data@.skip(pos as int),
                n as nat,
                version_num >= CURRENT_LAYOUT_VERSION,
            ) == Ok::<(Seq<Option<SaveSlotView>>, int), Error>(
                (slots@.map_values(|o: Option<SaveSlot>| slot_opt_view(o)), end - pos),
            ),
            Err(e) => parse_slots(
                data@.skip(pos as int),
                n as nat,
                version_num >= CURRENT_LAYOUT_VERSION,
            ) == Err::<(Seq<Option<SaveSlotView>>, int), Error>(e),
        }),
{
    let ghost current = version_num >= CURRENT_LAYOUT_VERSION;
    let total: usize = data.len();
    proof {
        assert(data@.len() == total as int);
    }
    let mut slots: Vec<Option<SaveSlot>> = Vec::new();
    let mut cur: usize = pos;
    let mut i: usize = 0;
    while i < n
        invariant
            pos <= cur <= data@.len(),
            data@.len() <= usize::MAX,
            i <= n,
            current == (version_num >= CURRENT_LAYOUT_VERSION),
            (match parse_slots(data@.skip(cur as int), (n - i) as nat, current) {
                Ok((rest, m)) => parse_slots(data@.skip(pos as int), n as nat, current) == Ok::<
                    (Seq<Option<SaveSlotView>>, int),
                    Error,
                >(
                    (
                        slots@.map_values(|o: Option<SaveSlot>| slot_opt_view(o)) + rest,
                        cur - pos + m,
                    ),
                ),
                Err(e) => parse_slots(data@.skip(pos as int), n as nat, current) == Err::<
                    (Seq<Option<SaveSlotView>>, int),
                    Error,
                >(e),
            }),
        decreases n - i,
    {
        let (present, p1) = match read_boolean(data, cur) {
            Ok(v) => v,
            Err(e) => {
                return Err(e);
            },
        };
        proof {
            assert(data@.skip(cur as int).skip(p1 - cur) =~= data@.skip(p1 as int));
        }
        let (entry, next) = if present {
            match SaveSlot::read(data, p1, version_num) {
                Ok((slot, p2)) => (Some(slot), p2),
                Err(e) => {
                    return Err(e);
                },
            }
        } else {
            (None, p1)
        };
        proof {
            assert(data@.skip(cur as int).skip(next - cur) =~= data@.skip(next as int));
            assert(slots@.push(entry).map_values(|o: Option<SaveSlot>| slot_opt_view(o))
                =~= slots@.map_values(|o: Option<SaveSlot>| slot_opt_view(o)).push(
                slot_opt_view(entry),
            ));
            assert(forall|rest: Seq<Option<SaveSlotView>>|
                slots@.map_values(|o: Option<SaveSlot>| slot_opt_view(o)).push(slot_opt_view(entry))
                    + rest =~= slots@.map_values(|o: Option<SaveSlot>| slot_opt_view(o)) + (seq![
                    slot_opt_view(entry),
                ] + rest));
        }
        slots.push(entry);
        cur = next;
        i = i + 1;
    }
    proof {
        assert(slots@.map_values(|o: Option<SaveSlot>| slot_opt_view(o)) + Seq::<
            Option<SaveSlotView>,
        >::empty() =~= slots@.map_values(|o: Option<SaveSlot>| slot_opt_view(o)));
    }
    Ok((slots, cur))
}

impl Default for SaveSlot {
    /// A fresh slot: everything zeroed, no players, no checkpoint, and
    /// the fixed catalog of eleven well-known tips, none shown yet.
    fn default() -> (s: SaveSlot)
        ensures
            s@.level == 0,
            s@.max_allowed_level == 0,
            s@.looped == false,
            s@.total_playtime == 0,
            s@.current_playtime == 0,
            s@.players == Seq::<PlayerView>::empty(),
            s@.unlocked_magicks == 0,
            s@.checkpoint == Seq::<u8>::empty(),
            s@.shown_tips.len() == 11,
            forall|i: int| 0 <= i < 11 ==> (#[trigger] s@.shown_tips[i]).count == 0,
            s@.shown_tips[0].name == "#tu_text_hint_equipment_key"@,
            s@.shown_tips[1].name == "#tu_text_hint_equipment_pad"@,
            s@.shown_tips[2].name == "#tu_text_hint_wet_lightning"@,
            s@.shown_tips[3].name == "#tu_text_hint_wet"@,
            s@.shown_tips[4].name == "#tu_text_hint_cold"@,
            s@.shown_tips[5].name == "#tu_text_hint_poison"@,
            s@.shown_tips[6].name == "#tip09"@,
            s@.shown_tips[7].name == "#tip10"@,
            s@.shown_tips[8].name == "#tip15"@,
            s@.shown_tips[9].name == "#tip17"@,
            s@.shown_tips[10].name == "#tip18"@,
    {
        let mut shown_tips: Vec<Tip> = Vec::new();
        shown_tips.push(Tip { name: String::from_str("#tu_text_hint_equipment_key"), count: 0 });
        shown_tips.push(Tip { name: String::from_str("#tu_text_hint_equipment_pad"), count: 0 });
        shown_tips.push(Tip { name: String::from_str("#tu_text_hint_wet_lightning"), count: 0 });
        shown_tips.push(Tip { name: String::from_str("#tu_text_hint_wet"), count: 0 });
        shown_tips.push(Tip { name: String::from_str("#tu_text_hint_cold"), count: 0 });
        shown_tips.push(Tip { name: String::from_str("#tu_text_hint_poison"), count: 0 });
        shown_tips.push(Tip { name: String::from_str("#tip09"), count: 0 });
        shown_tips.push(Tip { name: String::from_str("#tip10"), count: 0 });
        shown_tips.push(Tip { name: String::from_str("#tip15"), count: 0 });
        shown_tips.push(Tip { name: String::from_str("#tip17"), count: 0 });
        shown_tips.push(Tip { name: String::from_str("#tip18"), count: 0 });
        let s = SaveSlot {
            level: 0,
            max_allowed_level: 0,
            looped: false,
            total_playtime: 0,
            current_playtime: 0,
            players: Vec::new(),
            unlocked_magicks: 0,
            shown_tips,
            checkpoint: Vec::new(),
        };
        proof {
            assert(s@.players =~= Seq::<PlayerView>::empty());
            assert(s@.checkpoint =~= Seq::<u8>::empty());
        }
        s
    }
}

impl PlayerSaveData {
    pub fn new(staff: String, weapon: String) -> (p: PlayerSaveData)
        ensures
            p@ == (PlayerSaveDataView { staff: staff@, weapon: weapon@ }),
    {
        PlayerSaveData { staff, weapon }
    }

    pub fn get_staff_mut(&mut self) -> (r: &mut String)
        ensures
            (*r)@ == old(self)@.staff,
            final(self)@ == (PlayerSaveDataView { staff: (*final(r))@, ..old(self)@ }),
    {
        &mut self.staff
    }

    pub fn get_weapon_mut(&mut self) -> (r: &mut String)
        ensures
            (*r)@ == old(self)@.weapon,
            final(self)@ == (PlayerSaveDataView { weapon: (*final(r))@, ..old(self)@ }),
    {
        &mut self.weapon
    }

    /// Read an equipment record: staff, then weapon.
    pub fn read(data: &Vec<u8>, pos: usize) -> (r: Result<(PlayerSaveData, usize), Error>)
        requires
            pos <= data@.len(),
        ensures
            step_view_ok(
                pos as int,
                data@.len() as int,
                r,
                parse_player_save_data(data@.skip(pos as int)),
            ),
    {
        let (staff, p1) = match read_len_string(data, pos) {
            Ok(v) => v,
            Err(e) => {
                return Err(e);
            },
        };
        proof {
            assert(data@.skip(pos as int).skip(p1 - pos) =~= data@.skip(p1 as int));
        }
        let (weapon, p2) = match read_len_string(data, p1) {
            Ok(v) => v,
            Err(e) => {
                return Err(e);
            },
        };
        Ok((PlayerSaveData { staff, weapon }, p2))
    }

    /// Write an equipment record, or fail without writing anything when a
    /// string does not fit its length prefix.
    pub fn write(&self, out: &mut Vec<u8>) -> (r: Result<(), Error>)
        ensures
            self@.wf() ==> r == Ok::<(), Error>(()) && final(out)@ == old(out)@
                + ser_player_save_data(self@),
            !self@.wf() ==> r == Err::<(), Error>(Error::StringTooLong) && final(out)@ == old(
                out,
            )@,
    {
        let mut tmp: Vec<u8> = Vec::new();
        match write_len_string(&mut tmp, self.staff.as_str()) {
            Ok(()) => (),
            Err(e) => {
                return Err(e);
            },
        }
        match write_len_string(&mut tmp, self.weapon.as_str()) {
            Ok(()) => (),
            Err(e) => {
                return Err(e);
            },
        }
        proof {
            assert(tmp@ =~= ser_player_save_data(self@));
        }
        out.append(&mut tmp);
        Ok(())
    }
}

impl Tip {
    pub fn new(name: String, count: i32) -> (t: Tip)
        ensures
            t@ == (TipView { name: name@, count }),
    {
        Tip { name, count }
    }

    pub fn get_name_mut(&mut self) -> (r: &mut String)
        ensures
            (*r)@ == old(self)@.name,
            final(self)@ == (TipView { name: (*final(r))@, ..old(self)@ }),
    {
        &mut self.name
    }

    pub fn get_count_mut(&mut self) -> (r: &mut i32)
        ensures
            *r == old(self)@.count,
            final(self)@ == (TipView { count: *final(r), ..old(self)@ }),
    {
        &mut self.count
    }

    /// Read a tip record: the name, then the shown count.
    pub fn read(data: &Vec<u8>, pos: usize) -> (r: Result<(Tip, usize), Error>)
        requires
            pos <= data@.len(),
        ensures
            step_view_ok(pos as int, data@.len() as int, r, parse_tip(data@.skip(pos as int))),
    {
        let (name, p1) = match read_len_string(data, pos) {
            Ok(v) => v,
            Err(e) => {
                return Err(e);
            },
        };
        proof {
            assert(data@.skip(pos as int).skip(p1 - pos) =~= data@.skip(p1 as int));
        }
        let (count, p2) = match read_i32(data, p1) {
            Ok(v) => v,
            Err(e) => {
                return Err(e);
            },
        };
        Ok((Tip { name, count }, p2))
    }

    /// Write a tip record, or fail without writing anything when the name
    /// does not fit its length prefix.
    pub fn write(&self, out: &mut Vec<u8>) -> (r: Result<(), Error>)
        ensures
            self@.wf() ==> r == Ok::<(), Error>(()) && final(out)@ == old(out)@ + ser_tip(self@),
            !self@.wf() ==> r == Err::<(), Error>(Error::StringTooLong) && final(out)@ == old(
                out,
            )@,
    {
        let mut tmp: Vec<u8> = Vec::new();
        match write_len_string(&mut tmp, self.name.as_str()) {
            Ok(()) => (),
            Err(e) => {
                return Err(e);
            },
        }
        write_i32(&mut tmp, self.count);
        proof {
            assert(tmp@ =~= ser_tip(self@));
        }
        out.append(&mut tmp);
        Ok(())
    }
}

} // verus!
