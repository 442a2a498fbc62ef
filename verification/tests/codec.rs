use magicka_save::save::internal::{Player, PlayerSaveData, SaveSlot, Tip};
use magicka_save::save::{
    read_boolean, read_i32, read_len_string, read_u64, read_u8, write_boolean, write_i32,
    write_len_string, write_u64, write_u8, Error, Save, SaveInfo,
};

#[test]
fn test_read_len_string() {
    let bytes: Vec<u8> = vec![
        0x0B, 0x61, 0x62, 0x63, 0x64, 0x20, 0x78, 0x79, 0x7A, 0x20, 0x21, 0x3F,
    ];
    let (string, end) = read_len_string(&bytes, 0).unwrap();
    assert_eq!(string, "abcd xyz !?");
    assert_eq!(end, 12);
}

#[test]
fn read_len_string_truncated() {
    let bytes: Vec<u8> = vec![0x05, 0x61];
    assert_eq!(read_len_string(&bytes, 0), Err(Error::Truncated));
    let empty: Vec<u8> = Vec::new();
    assert_eq!(read_len_string(&empty, 0), Err(Error::Truncated));
}

#[test]
fn read_len_string_invalid_utf8() {
    let bytes: Vec<u8> = vec![0x01, 0xFF];
    assert_eq!(read_len_string(&bytes, 0), Err(Error::InvalidText));
}

#[test]
fn len_string_round_trip() {
    let mut out: Vec<u8> = Vec::new();
    write_len_string(&mut out, "abcd xyz !?").unwrap();
    assert_eq!(
        out,
        vec![0x0B, 0x61, 0x62, 0x63, 0x64, 0x20, 0x78, 0x79, 0x7A, 0x20, 0x21, 0x3F]
    );
    let (back, _) = read_len_string(&out, 0).unwrap();
    assert_eq!(back, "abcd xyz !?");

    let mut out2: Vec<u8> = Vec::new();
    write_len_string(&mut out2, "").unwrap();
    assert_eq!(out2, vec![0x00]);
    let (empty_back, end) = read_len_string(&out2, 0).unwrap();
    assert_eq!(empty_back, "");
    assert_eq!(end, 1);
}

#[test]
fn len_string_multibyte_round_trip() {
    // Two-byte UTF-8 characters: the length prefix counts bytes, not chars.
    let s = "héllo";
    let mut out: Vec<u8> = Vec::new();
    write_len_string(&mut out, s).unwrap();
    assert_eq!(out[0], 6);
    let (back, end) = read_len_string(&out, 0).unwrap();
    assert_eq!(back, s);
    assert_eq!(end, 7);
}

#[test]
fn len_string_too_long_fails_whole() {
    let long: String = std::iter::repeat('x').take(256).collect();
    let mut out: Vec<u8> = vec![0xAA];
    assert_eq!(write_len_string(&mut out, &long), Err(Error::StringTooLong));
    // Nothing was written and nothing was truncated.
    assert_eq!(out, vec![0xAA]);
    // 255 bytes is still fine.
    let edge: String = std::iter::repeat('x').take(255).collect();
    write_len_string(&mut out, &edge).unwrap();
    assert_eq!(out.len(), 1 + 1 + 255);
    assert_eq!(out[1], 255);
}

#[test]
fn booleans_read_loose_write_canonical() {
    // Any nonzero byte reads as true; writes are canonical 0 or 1.
    assert_eq!(read_boolean(&vec![0x00], 0).unwrap(), (false, 1));
    assert_eq!(read_boolean(&vec![0x01], 0).unwrap(), (true, 1));
    assert_eq!(read_boolean(&vec![0x07], 0).unwrap(), (true, 1));
    let mut out: Vec<u8> = Vec::new();
    write_boolean(&mut out, true);
    write_boolean(&mut out, false);
    assert_eq!(out, vec![0x01, 0x00]);
}

#[test]
fn scalars_little_endian() {
    let mut out: Vec<u8> = Vec::new();
    write_u8(&mut out, 0xAB);
    write_i32(&mut out, -2);
    write_u64(&mut out, 0x0102030405060708);
    assert_eq!(
        out,
        vec![
            0xAB, 0xFE, 0xFF, 0xFF, 0xFF, 0x08, 0x07, 0x06, 0x05, 0x04, 0x03, 0x02, 0x01
        ]
    );
    assert_eq!(read_u8(&out, 0).unwrap(), (0xAB, 1));
    assert_eq!(read_i32(&out, 1).unwrap(), (-2, 5));
    assert_eq!(read_u64(&out, 5).unwrap(), (0x0102030405060708, 13));
    assert_eq!(read_i32(&out, 11), Err(Error::Truncated));
    assert_eq!(read_u64(&out, 6), Err(Error::Truncated));
}

#[test]
fn player_save_data_round_trip() {
    let bytes: Vec<u8> = vec![0x02, 0x61, 0x62, 0x01, 0x63];
    let (mut psd, end) = PlayerSaveData::read(&bytes, 0).unwrap();
    assert_eq!(end, 5);
    assert_eq!(psd.get_staff_mut(), "ab");
    assert_eq!(psd.get_weapon_mut(), "c");
    let mut out: Vec<u8> = Vec::new();
    psd.write(&mut out).unwrap();
    assert_eq!(out, bytes);

    let built = PlayerSaveData::new("staff_arcane".to_string(), "weapon_sword".to_string());
    let mut out2: Vec<u8> = Vec::new();
    built.write(&mut out2).unwrap();
    let (mut back, _) = PlayerSaveData::read(&out2, 0).unwrap();
    assert_eq!(back.get_staff_mut(), "staff_arcane");
    assert_eq!(back.get_weapon_mut(), "weapon_sword");
}

#[test]
fn tip_round_trip() {
    let mut tip = Tip::new("#tip09".to_string(), 3);
    let mut out: Vec<u8> = Vec::new();
    tip.write(&mut out).unwrap();
    assert_eq!(out[0], 6);
    assert_eq!(&out[1..7], "#tip09".as_bytes());
    assert_eq!(&out[7..11], &[3, 0, 0, 0]);
    let (mut back, end) = Tip::read(&out, 0).unwrap();
    assert_eq!(end, 11);
    assert_eq!(back.get_name_mut(), "#tip09");
    assert_eq!(*back.get_count_mut(), 3);
    assert_eq!(*tip.get_count_mut(), 3);
}

#[test]
fn default_slot_has_tip_catalog() {
    let mut slot = SaveSlot::default();
    assert_eq!(*slot.get_current_level_mut(), 0);
    assert_eq!(*slot.get_max_allowed_level_mut(), 0);
    assert!(!*slot.get_looped_mut());
    assert_eq!(*slot.get_total_playtime_mut(), 0);
    assert_eq!(*slot.get_current_playtime_mut(), 0);
    assert_eq!(*slot.get_unlocked_magicks_mut(), 0);
    assert!(slot.get_players_mut().is_empty());
    assert!(slot.get_checkpoint_mut().is_empty());
    let names: Vec<String> = slot
        .get_shown_tips_mut()
        .iter_mut()
        .map(|t| t.get_name_mut().clone())
        .collect();
    assert_eq!(
        names,
        vec![
            "#tu_text_hint_equipment_key",
            "#tu_text_hint_equipment_pad",
            "#tu_text_hint_wet_lightning",
            "#tu_text_hint_wet",
            "#tu_text_hint_cold",
            "#tu_text_hint_poison",
            "#tip09",
            "#tip10",
            "#tip15",
            "#tip17",
            "#tip18",
        ]
    );
    for tip in slot.get_shown_tips_mut().iter_mut() {
        assert_eq!(*tip.get_count_mut(), 0);
    }
}

/// A legacy-layout file: no version marker, presence bytes [1,0,0], one
/// slot with level 5, not looped, playtimes 120 and 30, no players,
/// no magicks, no tips.
fn legacy_file() -> Vec<u8> {
    let mut bytes: Vec<u8> = Vec::new();
    bytes.push(0x01); // slot 0 present
    bytes.push(0x05); // level
    bytes.push(0x00); // looped = false
    bytes.extend_from_slice(&[0x78, 0x00, 0x00, 0x00]); // total playtime 120
    bytes.extend_from_slice(&[0x1E, 0x00, 0x00, 0x00]); // current playtime 30
    bytes.extend_from_slice(&[0x00, 0x00, 0x00, 0x00]); // 0 players
    bytes.extend_from_slice(&[0x00; 8]); // magicks
    bytes.extend_from_slice(&[0x00, 0x00, 0x00, 0x00]); // 0 tips
    bytes.push(0x00); // slot 1 absent
    bytes.push(0x00); // slot 2 absent
    bytes
}

#[test]
fn legacy_file_decodes_without_header() {
    let mut save = Save::new(legacy_file());
    let mut info = save.load_campaign().unwrap();
    assert_eq!(info.product_version, "");
    assert_eq!(info.save_slots.len(), 3);
    assert!(info.save_slots[1].is_none());
    assert!(info.save_slots[2].is_none());
    let slot = info.save_slots[0].as_mut().unwrap();
    assert_eq!(*slot.get_current_level_mut(), 5);
    assert_eq!(*slot.get_max_allowed_level_mut(), 5);
    assert!(!*slot.get_looped_mut());
    assert_eq!(*slot.get_total_playtime_mut(), 120);
    assert_eq!(*slot.get_current_playtime_mut(), 30);
    assert!(slot.get_players_mut().is_empty());
    assert_eq!(*slot.get_unlocked_magicks_mut(), 0);
    assert!(slot.get_shown_tips_mut().is_empty());
    assert!(slot.get_checkpoint_mut().is_empty());
}

/// One minimal current-layout slot body: all fields zero, no players, no
/// tips, empty checkpoint.
fn minimal_current_slot() -> Vec<u8> {
    let mut bytes: Vec<u8> = Vec::new();
    bytes.push(0x02); // level
    bytes.push(0x03); // max allowed level
    bytes.push(0x01); // looped
    bytes.extend_from_slice(&[0x00; 4]); // total playtime
    bytes.extend_from_slice(&[0x00; 4]); // current playtime
    bytes.extend_from_slice(&[0x00; 4]); // 0 players
    bytes.extend_from_slice(&[0x00; 8]); // magicks
    bytes.extend_from_slice(&[0x00; 4]); // 0 tips
    bytes.extend_from_slice(&[0x00; 4]); // checkpoint length 0
    bytes
}

fn version_header(v: &str) -> Vec<u8> {
    let mut bytes: Vec<u8> = vec![0xFF, v.len() as u8];
    bytes.extend_from_slice(v.as_bytes());
    bytes
}

#[test]
fn presence_bytes_preserved() {
    // Presence bytes [1,0,1] give slots at index 0 and 2, none at 1, and
    // re-encoding reproduces the same bytes.
    let mut file = version_header("1.4.1.0");
    file.push(0x01);
    file.extend_from_slice(&minimal_current_slot());
    file.push(0x00);
    file.push(0x01);
    file.extend_from_slice(&minimal_current_slot());

    let mut save = Save::new(file.clone());
    let info = save.load_campaign().unwrap();
    assert_eq!(info.product_version, "1.4.1.0");
    assert!(info.save_slots[0].is_some());
    assert!(info.save_slots[1].is_none());
    assert!(info.save_slots[2].is_some());

    let encoded = info.encode().unwrap();
    assert_eq!(encoded, file);
}

#[test]
fn old_version_header_selects_legacy_layout() {
    // A version below 1.4.1.0 reads the legacy layout even with a header.
    let mut file = version_header("1.4.0.9");
    file.push(0x01);
    file.push(0x09); // level
    file.push(0x01); // looped
    file.extend_from_slice(&[0x00; 4]);
    file.extend_from_slice(&[0x00; 4]);
    file.extend_from_slice(&[0x00; 4]); // 0 players
    file.extend_from_slice(&[0x00; 8]);
    file.extend_from_slice(&[0x00; 4]); // 0 tips
    file.push(0x00);
    file.push(0x00);
    let mut save = Save::new(file);
    let mut info = save.load_campaign().unwrap();
    let slot = info.save_slots[0].as_mut().unwrap();
    assert_eq!(*slot.get_current_level_mut(), 9);
    assert_eq!(*slot.get_max_allowed_level_mut(), 9);
    assert!(*slot.get_looped_mut());
    assert!(slot.get_checkpoint_mut().is_empty());
}

#[test]
fn full_round_trip_with_players_tips_checkpoint() {
    let mut slot = SaveSlot::default();
    *slot.get_current_level_mut() = 7;
    *slot.get_max_allowed_level_mut() = 9;
    *slot.get_looped_mut() = true;
    *slot.get_total_playtime_mut() = 123456;
    *slot.get_current_playtime_mut() = -5;
    *slot.get_unlocked_magicks_mut() = 0xDEADBEEF;
    slot.get_players_mut().push(Player::new(
        "Wizard".to_string(),
        "staff_basic".to_string(),
        "weapon_sword".to_string(),
    ));
    // Duplicate names must be preserved, not collapsed.
    slot.get_players_mut().push(Player::new(
        "Wizard".to_string(),
        "staff_fire".to_string(),
        "weapon_axe".to_string(),
    ));
    slot.get_checkpoint_mut().extend_from_slice(&[9, 8, 7, 6, 5]);

    let info = SaveInfo {
        product_version: "1.4.1.0".to_string(),
        save_slots: vec![Some(slot), None, Some(SaveSlot::default())],
    };
    let encoded = info.encode().unwrap();

    let mut save = Save::new(encoded.clone());
    let mut decoded = save.load_campaign().unwrap();
    assert_eq!(decoded.product_version, "1.4.1.0");
    {
        let slot0 = decoded.save_slots[0].as_mut().unwrap();
        assert_eq!(*slot0.get_current_level_mut(), 7);
        assert_eq!(*slot0.get_max_allowed_level_mut(), 9);
        assert!(*slot0.get_looped_mut());
        assert_eq!(*slot0.get_total_playtime_mut(), 123456);
        assert_eq!(*slot0.get_current_playtime_mut(), -5);
        assert_eq!(*slot0.get_unlocked_magicks_mut(), 0xDEADBEEF);
        assert_eq!(slot0.get_players_mut().len(), 2);
        assert_eq!(slot0.get_players_mut()[0].get_name_mut(), "Wizard");
        assert_eq!(slot0.get_players_mut()[0].get_staff_mut(), "staff_basic");
        assert_eq!(slot0.get_players_mut()[0].get_weapon_mut(), "weapon_sword");
        assert_eq!(slot0.get_players_mut()[1].get_name_mut(), "Wizard");
        assert_eq!(slot0.get_players_mut()[1].get_staff_mut(), "staff_fire");
        assert_eq!(slot0.get_players_mut()[1].get_weapon_mut(), "weapon_axe");
        assert_eq!(slot0.get_shown_tips_mut().len(), 11);
        assert_eq!(slot0.get_checkpoint_mut().as_slice(), &[9, 8, 7, 6, 5]);
    }
    assert!(decoded.save_slots[1].is_none());
    assert!(decoded.save_slots[2].is_some());

    // Decoding and re-encoding is byte-exact.
    let encoded_again = decoded.encode().unwrap();
    assert_eq!(encoded_again, encoded);
}

#[test]
fn legacy_file_upgrades_on_save() {
    // A legacy slot re-encoded comes out in the current layout: the file
    // changes shape, but the shared fields survive.
    let mut save = Save::new(legacy_file());
    let mut info = save.load_campaign().unwrap();
    // Without a valid version header the re-encoded file cannot be
    // decoded again (its header holds an empty version string), so give
    // the upgraded file a version.
    info.product_version = "1.4.1.0".to_string();
    let encoded = info.encode().unwrap();
    let mut save2 = Save::new(encoded);
    let mut info2 = save2.load_campaign().unwrap();
    let slot = info2.save_slots[0].as_mut().unwrap();
    assert_eq!(*slot.get_current_level_mut(), 5);
    assert_eq!(*slot.get_max_allowed_level_mut(), 5);
    assert_eq!(*slot.get_total_playtime_mut(), 120);
    assert_eq!(*slot.get_current_playtime_mut(), 30);
    assert!(slot.get_checkpoint_mut().is_empty());
}

#[test]
fn load_campaign_errors() {
    // An empty stream is truncated.
    let mut save = Save::new(Vec::new());
    assert!(matches!(save.load_campaign(), Err(Error::Truncated)));

    // A version header with too few components is a bad version string.
    let mut file = version_header("1.4.1");
    file.push(0x00);
    let mut save = Save::new(file);
    assert!(matches!(save.load_campaign(), Err(Error::BadVersionString)));

    // Too many components as well.
    let mut file = version_header("1.4.1.0.2");
    file.push(0x00);
    let mut save = Save::new(file);
    assert!(matches!(save.load_campaign(), Err(Error::BadVersionString)));

    // A file cut off inside a slot is truncated.
    let mut file = version_header("1.4.1.0");
    file.push(0x01);
    file.push(0x02);
    let mut save = Save::new(file);
    assert!(matches!(save.load_campaign(), Err(Error::Truncated)));
}

#[test]
fn negative_player_count_is_malformed() {
    let mut file = version_header("1.4.1.0");
    file.push(0x01); // slot present
    file.push(0x01); // level
    file.push(0x01); // max level
    file.push(0x00); // looped
    file.extend_from_slice(&[0x00; 4]);
    file.extend_from_slice(&[0x00; 4]);
    file.extend_from_slice(&[0xFF, 0xFF, 0xFF, 0xFF]); // player count -1
    let mut save = Save::new(file);
    assert!(matches!(save.load_campaign(), Err(Error::MalformedLength)));
}

#[test]
fn oversized_tip_count_is_malformed() {
    let mut file = version_header("1.4.1.0");
    file.push(0x01);
    file.push(0x01);
    file.push(0x01);
    file.push(0x00);
    file.extend_from_slice(&[0x00; 4]);
    file.extend_from_slice(&[0x00; 4]);
    file.extend_from_slice(&[0x00; 4]); // 0 players
    file.extend_from_slice(&[0x00; 8]); // magicks
    file.extend_from_slice(&[0x10, 0x00, 0x00, 0x00]); // 16 tips, but no bytes follow
    let mut save = Save::new(file);
    assert!(matches!(save.load_campaign(), Err(Error::MalformedLength)));
}

#[test]
fn negative_checkpoint_length_is_malformed() {
    let mut file = version_header("1.4.1.0");
    file.push(0x01);
    let mut slot = minimal_current_slot();
    let cut = slot.len() - 4;
    slot.truncate(cut);
    file.extend_from_slice(&slot);
    file.extend_from_slice(&[0xFE, 0xFF, 0xFF, 0xFF]); // checkpoint length -2
    let mut save = Save::new(file);
    assert!(matches!(save.load_campaign(), Err(Error::MalformedLength)));
}

#[test]
fn encode_rejects_long_player_name() {
    let long: String = std::iter::repeat('n').take(300).collect();
    let mut slot = SaveSlot::default();
    slot.get_players_mut().push(Player::new(
        long,
        "staff".to_string(),
        "weapon".to_string(),
    ));
    let info = SaveInfo {
        product_version: "1.4.1.0".to_string(),
        save_slots: vec![Some(slot), None, None],
    };
    assert!(matches!(info.encode(), Err(Error::StringTooLong)));
}

#[test]
fn encode_rejects_long_version_string() {
    let long: String = std::iter::repeat('9').take(256).collect();
    let info = SaveInfo {
        product_version: long,
        save_slots: vec![None, None, None],
    };
    assert!(matches!(info.encode(), Err(Error::StringTooLong)));
}

#[test]
fn empty_version_encodes_but_cannot_be_reread() {
    // A file decoded without a version header keeps an empty product
    // version. Saving always writes a header, so the written file carries
    // an empty version string, which no longer parses: the upgrade is one
    // way until the editor sets a real version.
    let mut save = Save::new(legacy_file());
    let info = save.load_campaign().unwrap();
    assert_eq!(info.product_version, "");
    let encoded = info.encode().unwrap();
    assert_eq!(&encoded[..2], &[0xFF, 0x00]);
    let mut save2 = Save::new(encoded);
    assert!(matches!(save2.load_campaign(), Err(Error::BadVersionString)));
}

#[test]
fn encode_needs_three_slot_positions() {
    let info = SaveInfo {
        product_version: "1.4.1.0".to_string(),
        save_slots: vec![None, None],
    };
    assert!(matches!(info.encode(), Err(Error::MalformedLength)));
}
