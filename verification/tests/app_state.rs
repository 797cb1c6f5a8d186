use ballast::app::{App, Key, Tab};
use ballast::disks::TableSelection;

#[test]
fn tab_titles() {
    assert_eq!(Tab::Overview.title(), "[1]Overview");
    assert_eq!(Tab::Disks.title(), "[2]Disks");
    assert_eq!(Tab::Zfs.title(), "[3]ZFS");
    assert_eq!(Tab::Smart.title(), "[4]SMART");
    assert_eq!(Tab::default(), Tab::Overview);
}

#[test]
fn tab_next_prev_wrap() {
    assert_eq!(Tab::Overview.next(), Tab::Disks);
    assert_eq!(Tab::Smart.next(), Tab::Overview);
    assert_eq!(Tab::Overview.prev(), Tab::Smart);
    assert_eq!(Tab::Zfs.prev(), Tab::Disks);
    for t in [Tab::Overview, Tab::Disks, Tab::Zfs, Tab::Smart] {
        assert_eq!(t.next().prev(), t);
        assert_eq!(t.prev().next(), t);
        assert_eq!(t.next().next().next().next(), t);
        assert_eq!(Tab::from_position(t.position()), t);
    }
}

#[test]
fn global_keys() {
    let mut app = App::new();
    assert_eq!(app.tab, Tab::Overview);
    app.handle_key_press(Key::Tab);
    assert_eq!(app.tab, Tab::Disks);
    app.handle_key_press(Key::BackTab);
    app.handle_key_press(Key::BackTab);
    assert_eq!(app.tab, Tab::Smart);
    app.handle_key_press(Key::Char('3'));
    assert_eq!(app.tab, Tab::Zfs);
    app.handle_key_press(Key::Char('5'));
    assert_eq!(app.tab, Tab::Zfs);
    assert!(!app.should_quit);
    app.handle_key_press(Key::Char('q'));
    assert!(app.should_quit);
    assert_eq!(app.tab, Tab::Zfs);
}

#[test]
fn disk_table_keys() {
    let mut app = App::new();
    assert!(app.disks.show_partitions);
    assert!(!app.disks.show_loopback);
    assert_eq!(app.disks.table_state.selected, None);
    app.handle_key_press(Key::Char('j'));
    assert_eq!(app.disks.table_state.selected, Some(0));
    app.handle_key_press(Key::Down);
    assert_eq!(app.disks.table_state.selected, Some(1));
    app.handle_key_press(Key::Up);
    app.handle_key_press(Key::Char('k'));
    assert_eq!(app.disks.table_state.selected, Some(0));
    app.handle_key_press(Key::Char('G'));
    assert_eq!(app.disks.table_state.selected, Some(usize::MAX));
    app.handle_key_press(Key::Down);
    assert_eq!(app.disks.table_state.selected, Some(usize::MAX));
    app.handle_key_press(Key::Char('g'));
    assert_eq!(app.disks.table_state.selected, Some(0));
    app.handle_key_press(Key::Char('p'));
    assert!(!app.disks.show_partitions);
    app.handle_key_press(Key::Char('p'));
    assert!(app.disks.show_partitions);
    app.handle_key_press(Key::Char('l'));
    assert!(app.disks.show_loopback);
    app.handle_key_press(Key::Other);
    assert!(app.disks.show_loopback);
    assert_eq!(app.tab, Tab::Overview);
}

#[test]
fn selection_previous_from_nothing_selects_last() {
    let mut s = TableSelection::new();
    s.select_previous();
    assert_eq!(s.selected, Some(usize::MAX));
    let mut t = TableSelection { offset: 5, selected: Some(3) };
    t.select(None);
    assert_eq!(t, TableSelection { offset: 0, selected: None });
    let mut u = TableSelection { offset: 5, selected: Some(3) };
    u.select_next();
    assert_eq!(u, TableSelection { offset: 5, selected: Some(4) });
}

#[test]
fn all_tabs_in_bar_order() {
    let all = Tab::all();
    assert_eq!(all, [Tab::Overview, Tab::Disks, Tab::Zfs, Tab::Smart]);
    for (i, t) in all.iter().enumerate() {
        assert_eq!(t.position(), i);
    }
}
