use slot::face::{OUT_H, OUT_W};
use slot::input::Btn;
use slot::wifi::{
    accepted, add_profile, connected_ssid, decode_ssid, forget_profile, parse_profiles, parse_scan,
    pong, profile, render_profiles, sorted_names, status_text, validate, Network, Security,
};
use slot::wifi_menu::{keys, WifiMenu};

#[test]
fn scans_decode_names_and_deduplicate_without_merging_security() {
    let rows = "header\n00\t2412\t-70\t[WPA2-PSK-CCMP][ESS]\tMy\\x20WiFi\n01\t2412\t-30\t[WPA2-PSK-CCMP][ESS]\tMy WiFi\n02\t2412\t-20\t[ESS]\t\n03\t2412\t-50\t[WPA2-EAP-CCMP][ESS]\tWork\n04\t2412\t-60\t[ESS]\tGuest";
    let n = parse_scan(rows);
    assert_eq!(n.len(), 3);
    assert_eq!(n[0].ssid, "My WiFi");
    assert_eq!(n[0].signal, -30);
    assert_eq!(n[1].security, Security::Unsupported);
    assert_eq!(n[2].security, Security::Open);
}

#[test]
fn password_derivation_matches_the_wpa_test_vector() {
    let network = Network {
        ssid: "IEEE".into(),
        signal: -40,
        security: Security::Personal,
    };
    let text = profile(&network, "password").unwrap();
    assert!(
        text.contains("psk=f42c6fc52df0ebef9ebb4b90b38a5f902e83fe1b135a70e23aed762e9710a12e")
    );
    assert!(!text.contains("password"));
    assert!(profile(&network, "short").is_err());
}

#[test]
fn network_names_cannot_inject_configuration() {
    let network = Network {
        ssid: "\"\\\nnetwork={".into(),
        signal: -40,
        security: Security::Open,
    };
    let config = profile(&network, "").unwrap();
    assert_eq!(config.matches("network={").count(), 1);
}

#[test]
fn wifi_face_matches_the_compositor_without_rescaling() {
    let face = WifiMenu::default().face();
    assert_eq!((face.w, face.h), (OUT_W, OUT_H));
    assert_eq!(face.rgba.len(), (OUT_W * OUT_H * 4) as usize);
}

#[test]
fn saved_networks_have_their_own_bounded_list() {
    let mut menu = WifiMenu::default();
    menu.saved = vec!["Cafe".into(), "home".into()];
    menu.row = 1;
    menu.input(Btn::A);
    assert!(menu.saved_view);
    assert_eq!(menu.row, 0);
    menu.input(Btn::Down);
    menu.input(Btn::Down);
    assert_eq!(menu.row, 1);
    assert!(!menu.input(Btn::B));
    assert_eq!(menu.row, 1);
    assert!(!menu.saved_view);
}

#[test]
fn connected_network_stays_above_scan_results_without_a_duplicate() {
    let mut menu = WifiMenu::default();
    menu.connected = Some("Home".into());
    for ssid in ["Cafe", "Home"] {
        menu.networks.push(Network {
            ssid: ssid.into(),
            signal: -30,
            security: Security::Open,
        });
    }
    assert_eq!(
        menu.visible_networks()
            .iter()
            .map(|n| n.ssid.as_str())
            .collect::<Vec<_>>(),
        vec!["Cafe"]
    );
    assert_eq!(menu.last_row(), 3);
    menu.row = 2;
    menu.input(Btn::A);
    assert_eq!(menu.status, "Wi-Fi requires BaseOS on the handheld");
    menu.input(Btn::Down);
    assert_eq!(menu.row, 3);
}

#[test]
fn opening_wifi_keeps_the_connection_but_clears_old_scan_results() {
    let mut menu = WifiMenu::default();
    menu.connected = Some("Home".into());
    menu.networks.push(Network {
        ssid: "Cafe".into(),
        signal: -30,
        security: Security::Open,
    });
    menu.open();
    assert_eq!(menu.connected.as_deref(), Some("Home"));
    assert!(menu.networks.is_empty());
    assert_eq!(menu.last_row(), 2);
}

#[test]
fn keyboard_contains_every_printable_ascii_character() {
    for keys in keys() {
        assert_eq!(keys.len(), 40);
    }
    for b in 32..=126 {
        assert!(
            keys().iter().any(|s| s.as_bytes().contains(&b)),
            "missing {b}"
        );
    }
}

#[test]
fn password_keyboard_masks_input_and_b_cancels_before_leaving() {
    let mut menu = WifiMenu::default();
    menu.networks.push(Network {
        ssid: "Home".into(),
        signal: -30,
        security: Security::Personal,
    });
    menu.row = 2;
    menu.input(Btn::A);
    menu.input(Btn::A);
    assert_eq!(menu.password, "a");
    menu.input(Btn::Y);
    menu.input(Btn::A);
    assert_eq!(menu.password, "aA");
    menu.input(Btn::X);
    assert_eq!(menu.password, "a");
    menu.input(Btn::Start);
    assert!(menu.status.contains("8-63"));
    assert!(!menu.input(Btn::B));
    assert!(menu.password.is_empty());
    assert!(menu.input(Btn::B));
}

fn open_network(ssid: &str) -> Network {
    Network {
        ssid: ssid.into(),
        signal: -40,
        security: Security::Open,
    }
}

#[test]
fn saved_profiles_grow_replace_and_forget_by_name() {
    let home = open_network("home");
    let cafe = open_network("Cafe");
    let first = profile(&home, "").unwrap();
    let saved = parse_profiles(&first).unwrap();
    let config = add_profile(&saved, &cafe, &profile(&cafe, "").unwrap());
    let both = parse_profiles(&config).unwrap();
    assert_eq!(sorted_names(&both), vec!["Cafe".to_string(), "home".to_string()]);
    let secured = Network {
        security: Security::Personal,
        ..home.clone()
    };
    let updated = add_profile(&both, &secured, &profile(&secured, "password123").unwrap());
    let again = parse_profiles(&updated).unwrap();
    assert_eq!(again.len(), 2);
    assert!(updated.contains("key_mgmt=WPA-PSK"));
    let left = forget_profile(&again, &"Cafe".to_string()).unwrap();
    assert_eq!(sorted_names(&left), vec!["home".to_string()]);
    assert!(forget_profile(&left, &"Cafe".to_string()).is_err());
    assert_eq!(render_profiles(&left), profile(&secured, "password123").unwrap());
    assert!(parse_profiles("invalid profile").is_err());
}

#[test]
fn profiles_refuse_duplicates_and_bad_names() {
    let head = "ctrl_interface=/run/slot-wifi\nupdate_config=0\n";
    let block = "network={\n    ssid=486f6d65\n    key_mgmt=NONE\n}\n";
    assert_eq!(parse_profiles(&format!("{head}{block}")).unwrap()[0].ssid, "Home");
    assert!(parse_profiles(&format!("{head}{block}{block}")).is_err());
    assert!(parse_profiles(&format!("{head}network={{\n    ssid=4\n}}\n")).is_err());
    assert!(parse_profiles(&format!("{head}network={{\n    ssid=1f\n}}\n")).is_err());
    assert_eq!(parse_profiles(head).unwrap().len(), 0);
}

#[test]
fn supplicant_replies_are_read_line_by_line() {
    let reply = "bssid=00:11\nssid=Home\nwpa_state=COMPLETED\nip_address=192.168.1.42\n";
    assert_eq!(status_text(reply), "Connected | IP 192.168.1.42");
    assert_eq!(connected_ssid(reply).as_deref(), Some("Home"));
    assert_eq!(status_text("wpa_state=SCANNING\n"), "Not connected");
    assert_eq!(status_text("wpa_state=COMPLETED\n"), "Connected; no IP address yet");
    assert_eq!(connected_ssid("ssid=Home\nwpa_state=SCANNING\n"), None);
    assert!(accepted("FAIL\nOK\n"));
    assert!(!accepted("OKAY"));
    assert!(pong("  PONG\r\n"));
    assert!(!pong("PING"));
}

#[test]
fn escaped_names_decode_or_are_refused() {
    assert_eq!(decode_ssid("a\\\\b\\\"c").as_deref(), Some("a\\b\"c"));
    assert_eq!(decode_ssid("caf\\xc3\\xa9").as_deref(), Some("café"));
    assert_eq!(decode_ssid("\\xff"), None);
    assert_eq!(decode_ssid("\\x0a"), None);
    assert_eq!(decode_ssid("bad\\n"), None);
    assert_eq!(decode_ssid("cut\\x4"), None);
}

#[test]
fn validation_errors_name_the_problem() {
    let long = open_network(&"x".repeat(33));
    assert_eq!(validate(&long, "").unwrap_err(), "Invalid network name");
    let other = Network {
        security: Security::Unsupported,
        ..open_network("Work")
    };
    assert!(validate(&other, "password").unwrap_err().starts_with("Only open"));
    let personal = Network {
        security: Security::Personal,
        ..open_network("Home")
    };
    assert!(validate(&personal, &"g".repeat(64)).is_err());
    assert!(validate(&personal, &"a".repeat(64)).is_ok());
    assert!(validate(&personal, &"a".repeat(63)).is_ok());
    assert!(validate(&personal, &"0123456789abcdef".repeat(4)).is_ok());
    assert!(validate(&personal, "caf\u{e9}1234").is_err());
}

#[test]
fn service_carries_requests_out_and_snapshots_back() {
    let (tx, requests) = std::sync::mpsc::channel();
    let (results, rx) = std::sync::mpsc::channel();
    let service = slot::wifi::Service::from_channels(tx, rx);
    assert!(service.poll().is_none());
    assert!(service.send(slot::wifi::Request::Scan));
    assert!(matches!(requests.try_recv(), Ok(slot::wifi::Request::Scan)));
    results
        .send(slot::wifi::Snapshot {
            networks: None,
            saved: vec!["Home".to_string()],
            connected: None,
            status: "Wi-Fi on".to_string(),
            enabled: true,
        })
        .unwrap();
    let snapshot = service.poll().expect("a snapshot was waiting");
    assert_eq!(snapshot.saved, vec!["Home".to_string()]);
    assert_eq!(snapshot.status, "Wi-Fi on");
    assert!(service.poll().is_none());
    drop(requests);
    assert!(!service.send(slot::wifi::Request::Status));
}

#[test]
fn distinct_written_profiles_render_and_read_back() {
    let header = slot::wifi::header_text();
    let block = |n: &Network, pw: &str| profile(n, pw).unwrap()[header.len()..].to_string();
    let home = Network { security: Security::Personal, ..open_network("home") };
    let cafe = open_network("Cafe");
    let list = vec![
        slot::wifi::SavedProfile { ssid: "home".into(), block: block(&home, "password123") },
        slot::wifi::SavedProfile { ssid: "Cafe".into(), block: block(&cafe, "") },
    ];
    let back = parse_profiles(&render_profiles(&list)).unwrap();
    assert_eq!(back.len(), 2);
    for (a, b) in back.iter().zip(list.iter()) {
        assert_eq!((a.ssid.as_str(), a.block.as_str()), (b.ssid.as_str(), b.block.as_str()));
    }
    let twice = vec![
        slot::wifi::SavedProfile { ssid: "Cafe".into(), block: block(&cafe, "") },
        slot::wifi::SavedProfile { ssid: "Cafe".into(), block: block(&cafe, "") },
    ];
    assert_eq!(parse_profiles(&render_profiles(&twice)).err(), Some("Cannot read saved networks".to_string()));
    assert!(parse_profiles(&list[0].block).is_err());
}

#[test]
fn a_failed_join_goes_back_only_to_a_joined_network() {
    let previous = b"ctrl_interface=/run/slot-wifi\nupdate_config=0\nnetwork={\n    ssid=686f6d65\n    key_mgmt=NONE\n}\n";
    assert!(slot::wifi::rejoin_previous("Connected: home | IP 10.0.0.2", previous));
    assert!(!slot::wifi::rejoin_previous("Not connected", previous));
    assert!(!slot::wifi::rejoin_previous("Connected: home", b"ctrl_interface=/run/slot-wifi\nupdate_config=0\n"));
    assert!(!slot::wifi::rejoin_previous("Connected: home", b""));
}

#[test]
fn polling_without_a_worker_changes_nothing_shown() {
    let mut menu = WifiMenu::default();
    let before = (menu.revision(), menu.rows());
    menu.poll(true);
    assert_eq!((menu.revision(), menu.rows()), before);
}

#[test]
fn reconnect_and_disable_refuse_what_cannot_be_done() {
    assert_eq!(slot::wifi::reconnect_refusal(0).as_deref(), Some("No saved networks; select one below"));
    assert!(slot::wifi::reconnect_refusal(2).is_none());
    assert_eq!(
        slot::wifi::disable_refusal(true).as_deref(),
        Some("Another Wi-Fi service is active; end multiplayer first")
    );
    assert!(slot::wifi::disable_refusal(false).is_none());
}

#[test]
fn joining_writes_the_profile_and_the_saved_file() {
    let home = open_network("home");
    let cafe = open_network("Cafe");
    let saved = parse_profiles(&profile(&home, "").unwrap()).unwrap();
    let (written, config) = slot::wifi::join_configs(&saved, &cafe, "").unwrap();
    assert_eq!(written, profile(&cafe, "").unwrap());
    assert_eq!(config, add_profile(&saved, &cafe, &written));
    let names: Vec<String> = parse_profiles(&config).unwrap().into_iter().map(|p| p.ssid).collect();
    assert_eq!(names, vec!["home".to_string(), "Cafe".to_string()]);
    let locked = Network { security: Security::Personal, ..cafe.clone() };
    assert_eq!(
        slot::wifi::join_configs(&saved, &locked, "short").err().as_deref(),
        Some("Password needs 8-63 characters (or a 64-digit hex key)")
    );
}

#[test]
fn a_snapshot_shows_what_the_worker_found() {
    let mut menu = WifiMenu::default();
    menu.apply_snapshot(slot::wifi::Snapshot {
        networks: None,
        saved: vec!["home".to_string()],
        connected: Some("home".to_string()),
        status: "Connected: home".to_string(),
        enabled: true,
    });
    assert_eq!(menu.status, "Connected: home");
    assert_eq!(menu.saved, vec!["home".to_string()]);
    assert_eq!(menu.connected.as_deref(), Some("home"));
    assert!(!menu.busy);
}
