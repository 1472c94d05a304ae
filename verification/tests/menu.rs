use chat_commands::Menu;

#[test]
fn a_new_menu_is_empty() {
    let menu: Menu<u8> = Menu::new();
    assert_eq!(menu.len(), 0);
    assert!(menu.is_empty());
    assert!(menu.entry(0).is_none());
    assert_eq!(menu.find("?a"), None);
}

#[test]
fn entries_stand_in_the_order_of_their_first_listing() {
    let menu: Menu<u8> = Menu::new()
        .with("?c", "third letter", Some(3))
        .with("?a", "first letter", None)
        .with("?b", "second letter", Some(2));
    assert_eq!(menu.len(), 3);
    assert!(!menu.is_empty());
    assert_eq!(menu.entry(0), Some(("?c", "third letter", Some(&3))));
    assert_eq!(menu.entry(1), Some(("?a", "first letter", None)));
    assert_eq!(menu.entry(2), Some(("?b", "second letter", Some(&2))));
    assert_eq!(menu.entry(3), None);
    assert_eq!(menu.entry(usize::MAX), None);
}

#[test]
fn listing_a_name_again_replaces_it_in_place() {
    let menu: Menu<u8> = Menu::new()
        .with("?a", "one", Some(1))
        .with("?b", "two", Some(2))
        .with("?a", "uno", None)
        .with("?c", "three", Some(3))
        .with("?b", "dos", Some(22));
    assert_eq!(menu.len(), 3);
    assert_eq!(menu.entry(0), Some(("?a", "uno", None)));
    assert_eq!(menu.entry(1), Some(("?b", "dos", Some(&22))));
    assert_eq!(menu.entry(2), Some(("?c", "three", Some(&3))));
}

#[test]
fn find_gives_the_position_of_a_name() {
    let menu: Menu<u8> = Menu::new()
        .with("?a", "one", None)
        .with("?b", "two", None)
        .with("?a", "uno", None);
    assert_eq!(menu.find("?a"), Some(0));
    assert_eq!(menu.find("?b"), Some(1));
    assert_eq!(menu.find("?c"), None);
    assert_eq!(menu.find("?A"), None);
    assert_eq!(menu.find(""), None);
}

#[test]
fn names_are_told_apart_by_their_text() {
    let menu: Menu<u8> = Menu::new()
        .with("", "empty name", None)
        .with("¿qué", "accented", None)
        .with("¿que", "plain", None);
    assert_eq!(menu.len(), 3);
    assert_eq!(menu.find(""), Some(0));
    assert_eq!(menu.find("¿qué"), Some(1));
    assert_eq!(menu.find("¿que"), Some(2));
}
