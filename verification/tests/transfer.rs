use slot::transfer::{
    address_text, decode, error_body, extension, filename, folders, head_end, listing_body, parse_u64, pin_text,
    query, refusal_body, reply_head, route, values, FileAction, Refusal, Route, Status, MAX_FILE,
};
use slot::transfer::{before_store, listed_files, store_end, StoreEnd};
use slot::transfer_menu::{status_ip, BuildStep, Launch, Serving, TransferMenu};

const HOST: &str = "192.168.1.42:8080";
const PIN: &str = "01234567";
const CARD: [bool; 7] = [true; 7];

fn request(method: &str, path: &str, extra: &str) -> Vec<u8> {
    format!("{method} {path} HTTP/1.1\r\nHost: {HOST}\r\n{extra}\r\n").into_bytes()
}

fn with_pin(method: &str, path: &str, extra: &str) -> Vec<u8> {
    request(method, path, &format!("X-Slot-Pin: {PIN}\r\n{extra}"))
}

fn refused(r: (Route, bool)) -> Refusal {
    match r.0 {
        Route::Refuse(x) => x,
        _ => panic!("expected a refusal"),
    }
}

#[test]
fn names_are_refused_when_they_could_leave_the_folder() {
    assert!(filename("Pokemon Emerald.gba"));
    assert!(!filename(""));
    assert!(!filename(".hidden.gba"));
    assert!(!filename("game.gba."));
    assert!(!filename("game.gba "));
    assert!(!filename("../game.gba"));
    assert!(!filename("a/b.gba"));
    assert!(!filename("a\\b.gba"));
    assert!(!filename("bad\u{7}.gba"));
    assert!(!filename("what?.gba"));
    assert!(filename(&"x".repeat(240)));
    assert!(!filename(&"x".repeat(241)));
    assert!(!filename(&"é".repeat(121)));
}

#[test]
fn each_folder_takes_its_own_extension_in_any_case() {
    assert!(extension("Games/GBA", "a.GBA"));
    assert!(!extension("Games/GBA", "a.gb"));
    assert!(extension("Games/GB", "a.gb"));
    assert!(extension("Games/GBC", "x.y.Gbc"));
    assert!(extension("BIOS", "gba_bios.bin"));
    assert!(extension("Labels/GB", "cart.png"));
    assert!(extension("Labels/GB", "png"));
    assert!(!extension("Labels/GB", "cart.png.zip"));
    assert_eq!(folders().len(), 7);
    assert_eq!(folders()[6], "BIOS");
}

#[test]
fn query_components_decode_and_keys_are_unique() {
    assert_eq!(decode("Pok%C3%A9mon+Red").unwrap(), "Pokémon Red");
    assert_eq!(decode("50%25").unwrap(), "50%");
    assert!(decode("%zz").is_none());
    assert!(decode("%4").is_none());
    assert!(decode("%FF").is_none());
    let q = query("dir=Games%2FGBA&name=a+b.gba&replace=1").unwrap();
    assert_eq!(
        q,
        vec![
            ("dir".to_string(), "Games/GBA".to_string()),
            ("name".to_string(), "a b.gba".to_string()),
            ("replace".to_string(), "1".to_string())
        ]
    );
    assert!(query("dir=a&dir=b").is_none());
    assert!(query("dir").is_none());
    assert_eq!(query("").is_none(), true);
}

#[test]
fn head_ends_after_the_first_blank_line() {
    assert_eq!(head_end(b"GET / HTTP/1.1\r\n\r\nbody"), Some(18));
    assert_eq!(head_end(b"GET / HTTP/1.1\r\n"), None);
    assert_eq!(head_end(b""), None);
}

#[test]
fn lengths_parse_as_unsigned_decimal() {
    assert_eq!(parse_u64(b"20"), Some(20));
    assert_eq!(parse_u64(b"+7"), Some(7));
    assert_eq!(parse_u64(b"18446744073709551615"), Some(u64::MAX));
    assert_eq!(parse_u64(b"18446744073709551616"), None);
    assert_eq!(parse_u64(b"-1"), None);
    assert_eq!(parse_u64(b""), None);
    assert_eq!(parse_u64(b"+"), None);
    assert_eq!(parse_u64(b"1 2"), None);
}

#[test]
fn header_values_match_names_in_any_case() {
    let headers = vec![
        ("Host".to_string(), b"a".to_vec()),
        ("HOST".to_string(), b"b".to_vec()),
        ("Origin".to_string(), b"c".to_vec()),
    ];
    assert_eq!(values(&headers, "host"), vec![b"a".to_vec(), b"b".to_vec()]);
    assert_eq!(values(&headers, "x-slot-pin"), Vec::<Vec<u8>>::new());
}

#[test]
fn the_page_needs_no_code_but_everything_else_does() {
    let mut failed = 0u8;
    assert!(matches!(route(&request("GET", "/", ""), HOST, PIN, false, &CARD, &mut failed).0, Route::Page));
    let r = route(&request("GET", "/api/files?dir=BIOS", ""), HOST, PIN, false, &CARD, &mut failed);
    assert!(matches!(refused(r), Refusal::WrongCode));
    assert_eq!(failed, 1);
    match route(&with_pin("GET", "/api/files?dir=BIOS", ""), HOST, PIN, false, &CARD, &mut failed).0 {
        Route::List { dir } => assert_eq!(dir, "BIOS"),
        _ => panic!("expected a listing"),
    }
    assert_eq!(failed, 1);
}

#[test]
fn host_origin_and_length_are_checked_first() {
    let mut failed = 0u8;
    let wrong_host = b"GET / HTTP/1.1\r\nHost: evil.example\r\n\r\n".to_vec();
    assert!(matches!(refused(route(&wrong_host, HOST, PIN, false, &CARD, &mut failed)), Refusal::WrongHost));
    let two_hosts = request("GET", "/", &format!("Host: {HOST}\r\n"));
    assert!(matches!(refused(route(&two_hosts, HOST, PIN, false, &CARD, &mut failed)), Refusal::WrongHost));
    let origin = request("GET", "/", "Origin: http://evil.example\r\n");
    assert!(matches!(refused(route(&origin, HOST, PIN, false, &CARD, &mut failed)), Refusal::WrongOrigin));
    let good_origin = request("GET", "/", &format!("Origin: http://{HOST}\r\n"));
    assert!(matches!(route(&good_origin, HOST, PIN, false, &CARD, &mut failed).0, Route::Page));
    let chunked = request("GET", "/", "Transfer-Encoding: chunked\r\n");
    assert!(matches!(refused(route(&chunked, HOST, PIN, false, &CARD, &mut failed)), Refusal::NoLength));
    let bad_length = request("GET", "/", "Content-Length: ten\r\n");
    assert!(matches!(refused(route(&bad_length, HOST, PIN, false, &CARD, &mut failed)), Refusal::BadLength));
    assert!(matches!(refused(route(b"nonsense\r\n\r\n", HOST, PIN, false, &CARD, &mut failed)), Refusal::Invalid));
    assert_eq!(failed, 0);
}

#[test]
fn eight_wrong_codes_lock_until_the_window_ends() {
    let mut failed = 0u8;
    let wrong = request("GET", "/api/files?dir=BIOS", "X-Slot-Pin: 99999999\r\n");
    for _ in 0..8 {
        assert!(matches!(refused(route(&wrong, HOST, PIN, false, &CARD, &mut failed)), Refusal::WrongCode));
    }
    assert_eq!(failed, 8);
    let right = with_pin("GET", "/api/files?dir=BIOS", "");
    let (r, restart) = route(&right, HOST, PIN, false, &CARD, &mut failed);
    assert!(matches!(r, Route::Refuse(Refusal::TooManyCodes)));
    assert!(!restart);
    let (r, restart) = route(&right, HOST, PIN, true, &CARD, &mut failed);
    assert!(matches!(r, Route::List { .. }));
    assert!(restart);
    assert_eq!(failed, 0);
}

#[test]
fn file_requests_are_checked_before_any_file_is_touched() {
    let mut failed = 0u8;
    let mut ask = |method: &str, path: &str, extra: &str| route(&with_pin(method, path, extra), HOST, PIN, false, &CARD, &mut failed).0;
    match ask("PUT", "/api/file?dir=Games%2FGBA&name=Emerald.gba&replace=1", "Content-Length: 20\r\n") {
        Route::File { dir, name, action: FileAction::Store { length, replace } } => {
            assert_eq!((dir.as_str(), name.as_str(), length, replace), ("Games/GBA", "Emerald.gba", 20, true));
        }
        _ => panic!("expected an upload"),
    }
    match ask("GET", "/api/file?dir=BIOS&name=gba_bios.bin", "") {
        Route::File { action: FileAction::Fetch, .. } => {}
        _ => panic!("expected a download"),
    }
    let refusal = |r: Route| match r {
        Route::Refuse(x) => x,
        Route::File { action: FileAction::Refuse(x), .. } => x,
        _ => panic!("expected a refusal"),
    };
    assert!(matches!(refusal(ask("PUT", "/api/file?dir=Games/GBA&name=a.gba", "")), Refusal::Empty));
    let big = format!("Content-Length: {}\r\n", MAX_FILE + 1);
    assert!(matches!(refusal(ask("PUT", "/api/file?dir=Games/GBA&name=a.gba", &big)), Refusal::TooLarge));
    assert!(matches!(
        refusal(ask("PUT", "/api/file?dir=Games/GBA&name=a.png", "Content-Length: 3\r\n")),
        Refusal::WrongType
    ));
    assert!(matches!(refusal(ask("DELETE", "/api/file?dir=BIOS&name=a.bin", "")), Refusal::Unsupported));
    assert!(matches!(refusal(ask("GET", "/api/file?dir=System&name=slot", "")), Refusal::NoFolder));
    assert!(matches!(refusal(ask("GET", "/api/file?dir=BIOS&name=..%2Fslot", "")), Refusal::UnsafeName));
    assert!(matches!(refusal(ask("GET", "/api/file?dir=BIOS&name=%zz", "")), Refusal::BadQuery));
    assert!(matches!(refusal(ask("PUT", "/api/file?dir=Games%2FGBA&name=test%00.gba", "")), Refusal::UnsafeName));
    assert!(matches!(refusal(ask("GET", "/api/other?dir=BIOS", "")), Refusal::NotFound));
    assert!(matches!(refusal(ask("GET", "/api/files", "")), Refusal::NotFound));
    match ask("PUT", "/api/build", "Content-Length: 20\r\n") {
        Route::Build { length } => assert_eq!(length, 20),
        _ => panic!("expected a build upload"),
    }
}

#[test]
fn replies_carry_the_fixed_headers() {
    let head = reply_head(201, "application/json", 11);
    assert!(head.starts_with("HTTP/1.1 201 Created\r\nContent-Type: application/json\r\nContent-Length: 11\r\n"));
    assert!(head.contains("Cache-Control: no-store\r\n"));
    assert!(head.ends_with("form-action 'self'\r\n\r\n"));
    assert!(reply_head(500, "text/plain", 0).starts_with("HTTP/1.1 500 Error\r\n"));
    assert!(reply_head(413, "text/plain", 0).starts_with("HTTP/1.1 413 Content Too Large\r\n"));
}

#[test]
fn error_bodies_are_json_with_escaped_messages() {
    assert_eq!(error_body("Not found"), "{\"error\":\"Not found\"}");
    assert_eq!(error_body("a \"b\"\\\n\u{1}"), "{\"error\":\"a \\\"b\\\"\\\\\\n\\u0001\"}");
    assert_eq!(
        refusal_body(&Refusal::TooManyCodes),
        "{\"error\":\"Too many incorrect codes. Wait 30 seconds and try again.\"}"
    );
    assert_eq!(Refusal::WrongCode.code(), 401);
    assert_eq!(Refusal::BuildInvalid("Test build size is invalid".into()).message(), "Test build size is invalid");
}

#[test]
fn listings_are_sorted_by_name() {
    let files = vec![("b.gba".to_string(), 2u64), ("A.gba".to_string(), 10), ("a\"x.gba".to_string(), 0)];
    assert_eq!(
        listing_body(&files),
        "{\"files\":[{\"name\":\"A.gba\",\"size\":10},{\"name\":\"a\\\"x.gba\",\"size\":0},{\"name\":\"b.gba\",\"size\":2}],\"maxFileSize\":134217728}"
    );
    assert_eq!(listing_body(&Vec::new()), "{\"files\":[],\"maxFileSize\":134217728}");
}

#[test]
fn codes_are_eight_digits() {
    assert_eq!(pin_text(123), "00000123");
    assert_eq!(pin_text(100_000_000 + 42), "00000042");
    assert_eq!(pin_text(u32::MAX), "94967295");
    assert_eq!(address_text([192, 168, 1, 42], 8080), HOST);
}

#[test]
fn status_messages_follow_the_uploads() {
    let mut status = Status::ready();
    assert_eq!(status.message, "Ready for your browser");
    status.receiving("a.gba");
    assert_eq!(status.message, "Receiving a.gba");
    status.saved("a.gba");
    assert_eq!((status.message.as_str(), status.uploaded), ("Saved a.gba", 1));
    status.build_staged();
    assert!(status.build_ready);
    let blank = Status::default();
    assert_eq!((blank.message.as_str(), blank.uploaded, blank.build_ready), ("", 0, false));
}

#[test]
fn the_transfer_screen_starts_only_with_an_address() {
    assert_eq!(status_ip("Connected | IP 192.168.1.42").as_deref(), Some("192.168.1.42"));
    assert_eq!(status_ip("Connected | IP 10.0.0.2 | IP 10.0.0.3").as_deref(), Some("10.0.0.2"));
    assert_eq!(status_ip("Not connected"), None);
    let mut menu = TransferMenu::default();
    menu.open(true, Launch::NoNetwork);
    assert!(!menu.running());
    assert_eq!(menu.labels().last().unwrap().text, "Connect in Settings > Wi-Fi first, then try again.");
    menu.open(true, Launch::Failed);
    assert_eq!(menu.labels().last().unwrap().text, "Cannot start. Check Wi-Fi, then press A to retry.");
    menu.open(
        true,
        Launch::Started(Serving { address: HOST.into(), pin: PIN.into() }, Status::ready()),
    );
    assert!(menu.running());
    let labels = menu.labels();
    assert_eq!(labels[2].text, "http://192.168.1.42:8080/");
    assert_eq!(labels[4].text, PIN);
    assert_eq!(labels[5].text, "0 files uploaded");
    assert_eq!(labels.last().unwrap().text, "Ready for your browser");
}

#[test]
fn a_staged_build_needs_a_second_press() {
    let mut menu = TransferMenu::default();
    menu.open(
        true,
        Launch::Started(Serving { address: HOST.into(), pin: PIN.into() }, Status::ready()),
    );
    assert!(matches!(menu.confirm_build(), BuildStep::Nothing));
    let mut status = Status::ready();
    status.build_staged();
    menu.poll(&status);
    assert!(matches!(menu.confirm_build(), BuildStep::Asked));
    assert!(menu.confirming());
    menu.cancel_confirmation();
    assert!(!menu.confirming());
    assert!(matches!(menu.confirm_build(), BuildStep::Asked));
    assert!(matches!(menu.confirm_build(), BuildStep::Install));
    assert!(!menu.running());
    menu.installed_build(Ok(()));
    assert!(menu.installed());
    assert_eq!(menu.labels().last().unwrap().text, "Test build installed. Restarting Slot+...");
}

#[test]
fn a_folder_missing_from_the_card_is_refused_first() {
    let mut failed = 0u8;
    let mut no_bios = CARD;
    no_bios[6] = false;
    let mut ask = |path: &str| match route(&with_pin("GET", path, ""), HOST, PIN, false, &no_bios, &mut failed).0 {
        Route::Refuse(x) => x,
        _ => panic!("expected a refusal"),
    };
    assert!(matches!(ask("/api/files?dir=BIOS"), Refusal::NoFolder));
    assert!(matches!(ask("/api/other?dir=BIOS"), Refusal::NoFolder));
    assert!(matches!(ask("/api/file?dir=BIOS&name=..%2Fslot"), Refusal::NoFolder));
    assert_eq!(Refusal::NoFolder.code(), 403);
    match route(&with_pin("GET", "/api/files?dir=Games%2FGB", ""), HOST, PIN, false, &no_bios, &mut failed).0 {
        Route::List { dir } => assert_eq!(dir, "Games/GB"),
        _ => panic!("expected a listing"),
    }
    let short = [true, true];
    assert!(matches!(
        route(&with_pin("GET", "/api/files?dir=Games%2FGBC", ""), HOST, PIN, false, &short, &mut failed).0,
        Route::Refuse(Refusal::NoFolder)
    ));
}

#[test]
fn listings_show_only_regular_files_with_safe_names() {
    let seen = vec![
        ("b.gba".to_string(), Some(7)),
        (".hidden.gba".to_string(), Some(1)),
        ("folder".to_string(), None),
        ("a.gba".to_string(), Some(3)),
    ];
    let files = listed_files(seen);
    assert_eq!(files, vec![("b.gba".to_string(), 7), ("a.gba".to_string(), 3)]);
    assert_eq!(listing_body(&files), listing_body(&vec![("a.gba".to_string(), 3), ("b.gba".to_string(), 7)]));
}

#[test]
fn uploads_replace_only_when_asked_and_complete() {
    assert!(matches!(before_store(true, false), Some(Refusal::Exists)));
    assert!(before_store(true, true).is_none());
    assert!(before_store(false, false).is_none());
    assert!(matches!(store_end(false, false, false, false, true), StoreEnd::Refuse(Refusal::Interrupted)));
    assert!(matches!(store_end(true, true, false, false, false), StoreEnd::Quiet));
    assert!(matches!(store_end(true, false, true, false, true), StoreEnd::Refuse(Refusal::Changed)));
    assert!(matches!(store_end(true, false, false, true, false), StoreEnd::Refuse(Refusal::Changed)));
    assert!(matches!(store_end(true, false, false, true, true), StoreEnd::Publish));
    assert!(matches!(store_end(true, false, false, false, false), StoreEnd::Publish));
}
