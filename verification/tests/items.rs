use magicka_save::save::items::{get_items, get_staves, get_weapons};

#[test]
fn items_trim_and_sort() {
    let names: Vec<String> = vec![
        "weapon_sword.xnb".to_string(),
        "staff_basic.xnb".to_string(),
        "staff_arcane.xnb".to_string(),
        "readme".to_string(),
        "weapon_axe.xnb.xnb".to_string(),
    ];
    let items = get_items(names);
    assert_eq!(
        items,
        vec![
            "readme",
            "staff_arcane",
            "staff_basic",
            "weapon_axe",
            "weapon_sword",
        ]
    );
}

#[test]
fn items_keep_duplicates() {
    let names: Vec<String> = vec![
        "b.xnb".to_string(),
        "a.xnb".to_string(),
        "b".to_string(),
        "a".to_string(),
    ];
    let items = get_items(names);
    assert_eq!(items, vec!["a", "a", "b", "b"]);
}

#[test]
fn staves_and_weapons_filtered_in_order() {
    let items: Vec<String> = vec![
        "readme".to_string(),
        "staff_arcane".to_string(),
        "staff_basic".to_string(),
        "weapon_axe".to_string(),
        "weapon_sword".to_string(),
    ];
    assert_eq!(
        get_staves(items.clone()),
        vec!["staff_arcane", "staff_basic"]
    );
    assert_eq!(get_weapons(items), vec!["weapon_axe", "weapon_sword"]);
}

#[test]
fn prefix_must_be_at_the_start() {
    let items: Vec<String> = vec![
        "old_staff_basic".to_string(),
        "staff".to_string(),
        "staff_".to_string(),
    ];
    assert_eq!(get_staves(items), vec!["staff_"]);
}
