use slot::input::Btn;
use slot::link::{ff_next, power_menu_step, up, LinkLegend, LinkRole, LinkRow, PowerMenuStep};
use slot::quick_menu::{QuickRow, QuickSettings, QuickValue};
use slot::wifi::auto_connect;

#[test]
fn link_rows_pair_host_and_joiner() {
    assert_eq!(LinkRow::all(), [LinkRow::Host, LinkRow::Join]);
    assert_eq!((LinkRow::Host.index(), LinkRow::Join.index()), (0, 1));
    assert_eq!((LinkRow::Host.text(), LinkRow::Join.text()), ("Host", "Join"));
    assert_eq!(LinkRow::Host.role(), LinkRole::Host);
    assert_eq!(LinkRow::Join.role(), LinkRole::Join);
    assert_eq!((LinkRow::Host.client_id(), LinkRow::Join.client_id()), (0, 1));
    assert_eq!(LinkRow::Host.other(), LinkRow::Join);
    assert_eq!(LinkRow::from_client_id(0), LinkRow::Host);
    assert_eq!(LinkRow::from_client_id(7), LinkRow::Join);
    for row in LinkRow::all() {
        assert_eq!(LinkRow::from_client_id(row.client_id()), row);
    }
}

#[test]
fn link_legend_keys_follow_upload_order() {
    for (i, key) in LinkLegend::all().into_iter().enumerate() {
        assert_eq!(key.index(), i);
    }
    assert_eq!(LinkLegend::EndLink.index(), 6);
}

#[test]
fn levels_rise_to_their_ceiling() {
    assert_eq!(up(3, 2, 10), 5);
    assert_eq!(up(9, 2, 10), 10);
    assert_eq!(up(250, 10, 255), 255);
}

#[test]
fn fast_forward_steps_do_not_wrap() {
    assert_eq!(ff_next(2, true), 3);
    assert_eq!(ff_next(4, true), 6);
    assert_eq!(ff_next(6, true), 6);
    assert_eq!(ff_next(2, false), 2);
    assert_eq!(ff_next(6, false), 4);
    assert_eq!(ff_next(5, true), 3);
}

#[test]
fn saved_networks_reconnect_only_when_wifi_was_left_on() {
    assert!(auto_connect(true, true));
    assert!(!auto_connect(true, false));
    assert!(!auto_connect(false, true));
}

#[test]
fn quick_settings_change_once_per_press_and_not_at_the_ends() {
    let mut s = QuickSettings { ff_speed: 4, ff_sound: false, colour_correction: true, rumble: false };
    assert!(s.change_setting(QuickRow::FastForward, true));
    assert_eq!(s.ff_speed, 6);
    assert!(!s.change_setting(QuickRow::FastForward, true));
    assert_eq!(s.ff_speed, 6);
    assert!(s.change_setting(QuickRow::FastForwardSound, false));
    assert!(s.ff_sound);
    assert!(s.change_setting(QuickRow::ColourCorrection, true));
    assert!(!s.colour_correction);
    assert!(s.change_setting(QuickRow::Rumble, true));
    assert!(s.rumble);
    let before = s;
    assert!(!s.change_setting(QuickRow::Wifi, true));
    assert_eq!(s, before);
}

#[test]
fn quick_rows_show_their_settings() {
    let s = QuickSettings { ff_speed: 4, ff_sound: true, colour_correction: false, rumble: true };
    assert_eq!(s.value(QuickRow::FastForward), Some(QuickValue::Speed4));
    assert_eq!(s.value(QuickRow::FastForwardSound), Some(QuickValue::On));
    assert_eq!(s.value(QuickRow::ColourCorrection), Some(QuickValue::Off));
    assert_eq!(s.value(QuickRow::Rumble), Some(QuickValue::On));
    assert_eq!(s.value(QuickRow::Wifi), None);
    assert_eq!(s.value(QuickRow::About), None);
    let odd = QuickSettings { ff_speed: 5, ..s };
    assert_eq!(odd.value(QuickRow::FastForward), None);
}

#[test]
fn the_power_menu_moves_within_its_rows() {
    assert_eq!(power_menu_step(0, 2, Btn::Up), PowerMenuStep::Move(0));
    assert_eq!(power_menu_step(0, 2, Btn::Down), PowerMenuStep::Move(1));
    assert_eq!(power_menu_step(1, 2, Btn::Down), PowerMenuStep::Move(1));
    assert_eq!(power_menu_step(1, 2, Btn::Up), PowerMenuStep::Move(0));
    assert_eq!(power_menu_step(1, 2, Btn::A), PowerMenuStep::Commit(1));
    assert_eq!(power_menu_step(0, 2, Btn::B), PowerMenuStep::Close);
    assert_eq!(power_menu_step(0, 2, Btn::X), PowerMenuStep::Stay);
}
