use magicka_save::save::internal::{Player, SaveSlot};
use magicka_save::save::{backup_name, SaveInfo};

#[test]
fn slot_report_lists_fields_and_players() {
    let mut slot = SaveSlot::default();
    *slot.get_current_level_mut() = 3;
    *slot.get_max_allowed_level_mut() = 4;
    *slot.get_looped_mut() = true;
    *slot.get_current_playtime_mut() = -7;
    *slot.get_total_playtime_mut() = 100;
    slot.get_players_mut().push(Player::new(
        "Vlad".to_string(),
        "staff_basic".to_string(),
        "weapon_sword".to_string(),
    ));
    let expected = "Current Chapter  : 3\n\
                    Maximum Chapter  : 4\n\
                    Looped (NG+)     : true\n\
                    Current Playtime : -7\n\
                    Total Playtime   : 100\n\
                    Players ----------------\n\
                    \x20 Name   : Vlad\n\
                    \x20 Staff  : staff_basic\n\
                    \x20 Weapon : weapon_sword\n";
    assert_eq!(slot.report(), expected);
}

#[test]
fn save_report_numbers_present_slots() {
    let info = SaveInfo {
        product_version: "1.4.1.0".to_string(),
        save_slots: vec![Some(SaveSlot::default()), None, Some(SaveSlot::default())],
    };
    let report = info.report();
    assert!(report.starts_with("Save Slot 1 ============\n"));
    assert!(report.contains("Save Slot 2 ============\n"));
    assert!(!report.contains("Save Slot 3"));
    assert_eq!(report.matches("Current Chapter  : 0\n").count(), 2);
}

#[test]
fn empty_save_reports_nothing() {
    let info = SaveInfo {
        product_version: "1.4.1.0".to_string(),
        save_slots: vec![None, None, None],
    };
    assert_eq!(info.report(), "");
}

#[test]
fn backup_name_appends_timestamp_and_suffix() {
    assert_eq!(
        backup_name("saves/slot.sav", 1700000000123),
        "saves/slot.sav.1700000000123.bak"
    );
    assert_eq!(backup_name("x", 0), "x.0.bak");
}
