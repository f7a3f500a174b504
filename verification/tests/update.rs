use slot::update::{
    build_size_ok, check_release, digest_matches, header_is_aarch64, note_paragraphs, release_from_json,
    verify_header, Asset, Outcome, Release, State, UpdateMenu,
};

fn lines(n: usize) -> Vec<String> {
    (0..n).map(|n| format!("line {n}")).collect()
}

#[test]
fn notes_scroll_to_the_last_visible_line() {
    let mut menu = UpdateMenu::default();
    menu.state = State::Available(Release {
        tag: "main-012345abcdef".into(),
        notes: lines(15),
        asset: None,
    });
    for _ in 0..20 {
        menu.scroll(true);
    }
    assert_eq!(menu.scroll, 5);
    menu.scroll(false);
    assert_eq!(menu.scroll, 4);
}

#[test]
fn notes_hold_accelerates_and_left_right_jump() {
    let mut menu = UpdateMenu::default();
    menu.state = State::Available(Release {
        tag: "main-012345abcdef".into(),
        notes: lines(30),
        asset: None,
    });
    menu.press(true, 0);
    assert_eq!(menu.scroll, 1);
    menu.tick(349);
    assert_eq!(menu.scroll, 1);
    menu.tick(350);
    assert_eq!(menu.scroll, 2);
    let first_interval = menu.hold.unwrap().next - 350;
    menu.tick(2_000);
    assert!(menu.hold.unwrap().next - 2_000 < first_interval);
    menu.release(true);
    let stopped = menu.scroll;
    menu.tick(3_000);
    assert_eq!(menu.scroll, stopped);
    menu.jump(true);
    assert_eq!(menu.scroll, 20);
    menu.jump(false);
    assert_eq!(menu.scroll, 0);
}

const DIGEST: &str = "sha256:aaaaaaaaaaaaaaaaaaaaaaaaaaaaaaaaaaaaaaaaaaaaaaaaaaaaaaaaaaaaaaaa";

#[test]
fn release_requires_the_expected_asset_and_digest() {
    let data = format!(
        r#"{{"tag_name":"main-012345abcdef","assets":[{{"name":"slot-h700","size":20,"digest":"{DIGEST}"}}]}}"#
    );
    let release = release_from_json(data.as_bytes()).unwrap();
    assert_eq!(release.tag, "main-012345abcdef");
    let asset = release.asset.unwrap();
    assert_eq!(asset.size, 20);
    assert_eq!(asset.digest, "a".repeat(64));
    let without = release_from_json(
        br###"{"tag_name":"main-012345abcdef","body":"## Changes\nFixed save bug","assets":[]}"###,
    )
    .unwrap();
    assert!(without.asset.is_none());
    assert!(without.notes.iter().any(|line| line.contains("FIXED SAVE BUG")));
    assert_eq!(without.notes, vec!["CHANGES".to_string(), "FIXED SAVE BUG".to_string()]);
    assert!(release_from_json(br#"{"tag_name":"other-012345abcdef","assets":[]}"#).is_err());
}

#[test]
fn release_errors_say_what_is_wrong() {
    assert_eq!(release_from_json(b"not json").err().unwrap(), "Invalid release data");
    assert_eq!(release_from_json(b"{}").err().unwrap(), "Release tag missing");
    assert_eq!(
        release_from_json(br#"{"tag_name":"main-0123"}"#).err().unwrap(),
        "Unexpected release tag"
    );
    assert_eq!(
        release_from_json(br#"{"tag_name":"main-012345abcdeg"}"#).err().unwrap(),
        "Unexpected release tag"
    );
    assert_eq!(
        release_from_json(br#"{"tag_name":"main-012345abcdef","assets":[{"name":"slot-h700"}]}"#)
            .err()
            .unwrap(),
        "Binary size missing"
    );
    assert_eq!(
        release_from_json(br#"{"tag_name":"main-012345abcdef","assets":[{"name":"slot-h700","size":0}]}"#)
            .err()
            .unwrap(),
        "Binary size is invalid"
    );
    assert_eq!(
        release_from_json(
            br#"{"tag_name":"main-012345abcdef","assets":[{"name":"slot-h700","size":134217729}]}"#
        )
        .err()
        .unwrap(),
        "Binary size is invalid"
    );
    assert_eq!(
        release_from_json(br#"{"tag_name":"main-012345abcdef","assets":[{"name":"slot-h700","size":5,"digest":"md5:aa"}]}"#)
            .err()
            .unwrap(),
        "Binary checksum missing"
    );
    assert_eq!(
        release_from_json(br#"{"tag_name":"main-012345abcdef","assets":[{"name":"slot-h700","size":5,"digest":"sha256:abc"}]}"#)
            .err()
            .unwrap(),
        "Binary checksum is invalid"
    );
}

#[test]
fn release_digest_is_lowercased_and_other_assets_ignored() {
    let upper = "sha256:".to_string() + &"AB".repeat(32);
    let data = format!(
        r#"{{"tag_name":"main-ABCDEF012345","assets":[{{"name":"other","size":0}},{{"name":"slot-h700","size":7,"digest":"{upper}"}}]}}"#
    );
    let release = release_from_json(data.as_bytes()).unwrap();
    assert_eq!(release.asset.unwrap().digest, "ab".repeat(32));
    assert_eq!(release.notes, vec!["No release notes".to_string()]);
}

#[test]
fn notes_are_cleaned_and_blank_lines_collapse() {
    let notes = note_paragraphs("  ## Fixes  \n\n\n- `save` works\n\n");
    assert_eq!(
        notes,
        vec!["FIXES".to_string(), String::new(), "- SAVE WORKS".to_string(), String::new()]
    );
    assert_eq!(note_paragraphs("\n\n"), vec!["No release notes".to_string()]);
}

#[test]
fn check_compares_the_tag_with_the_running_build() {
    let data = br#"{"tag_name":"main-012345abcdef","assets":[]}"#;
    match check_release(data, "012345") {
        Ok(Outcome::Checked(release, current)) => {
            assert!(current);
            assert_eq!(release.tag, "main-012345abcdef");
        }
        _ => panic!("expected a checked release"),
    }
    match check_release(data, "fffff") {
        Ok(Outcome::Checked(_, current)) => assert!(!current),
        _ => panic!("expected a checked release"),
    }
}

fn elf() -> [u8; 20] {
    let mut binary = [0u8; 20];
    binary[..4].copy_from_slice(b"\x7fELF");
    binary[4] = 2;
    binary[5] = 1;
    binary[18..20].copy_from_slice(&[183, 0]);
    binary
}

#[test]
fn only_aarch64_binaries_pass_the_header_check() {
    assert!(header_is_aarch64(&elf()));
    assert!(verify_header(&elf()).is_ok());
    let mut x86 = elf();
    x86[18] = 62;
    assert_eq!(
        verify_header(&x86).err().unwrap(),
        "Downloaded binary is not an AArch64 Slot+ build"
    );
    let mut thirty_two = elf();
    thirty_two[4] = 1;
    assert!(!header_is_aarch64(&thirty_two));
    assert!(digest_matches(b"abc123  slot.download\n", "abc123"));
    assert!(!digest_matches(b"abc12", "abc123"));
    assert!(build_size_ok(1) && build_size_ok(128 * 1024 * 1024));
    assert!(!build_size_ok(0) && !build_size_ok(128 * 1024 * 1024 + 1));
}

#[test]
fn update_screen_walks_from_check_to_install() {
    let mut menu = UpdateMenu::default();
    menu.open(false);
    assert!(menu.failed());
    menu.open(true);
    assert!(menu.busy() && !menu.downloading());
    let before = menu.revision();
    menu.finish(Ok(Outcome::Checked(
        Release {
            tag: "main-012345abcdef".into(),
            notes: lines(3),
            asset: Some(Asset { digest: "a".repeat(64), size: 20 }),
        },
        false,
    )));
    assert!(menu.revision() != before);
    assert!(!menu.busy());
    assert!(menu.confirm(false).is_none());
    let release = menu.confirm(true).unwrap();
    assert_eq!(release.tag, "main-012345abcdef");
    assert!(menu.downloading());
    let (tx, rx) = std::sync::mpsc::channel();
    menu.watch(rx);
    menu.poll();
    assert!(menu.downloading());
    tx.send(Ok(Outcome::Installed)).unwrap();
    menu.poll();
    assert!(menu.installed());
}

#[test]
fn a_worker_gone_silent_is_an_error() {
    let mut menu = UpdateMenu::default();
    menu.open(true);
    let (tx, rx) = std::sync::mpsc::channel::<Result<Outcome, String>>();
    menu.watch(rx);
    drop(tx);
    menu.poll();
    assert!(menu.failed());
    let labels = menu.labels();
    assert_eq!(labels[1].text, "Update worker stopped");
    assert_eq!(labels.last().unwrap().text, "A Retry   B Back");
}

#[test]
fn update_labels_show_ten_notes_from_the_scroll_position() {
    let mut menu = UpdateMenu::default();
    menu.state = State::UpToDate(Release {
        tag: "main-012345abcdef".into(),
        notes: lines(25),
        asset: None,
    });
    menu.jump(true);
    let labels = menu.labels();
    assert_eq!(labels.len(), 14);
    assert_eq!(labels[0].text, "Update Slot+");
    assert_eq!(labels[1].text, "Slot+ is up to date");
    assert_eq!(labels[2].text, "RELEASE NOTES");
    assert_eq!(labels[3].text, "line 15");
    assert_eq!((labels[3].x, labels[3].y), (28, 156));
    assert_eq!(labels[12].text, "line 24");
    assert_eq!(labels[12].y, 156 + 9 * 25);
    assert_eq!(labels[13].text, "Up/Down Notes   B Back");
}

#[test]
fn update_face_draws_the_scroll_bar_only_for_long_notes() {
    let mut menu = UpdateMenu::default();
    menu.state = State::Available(Release {
        tag: "main-012345abcdef".into(),
        notes: lines(20),
        asset: None,
    });
    let at = |face: &slot::face::UndoFace, x: usize, y: usize| {
        let i = (y * 640 + x) * 4;
        [face.rgba[i], face.rgba[i + 1], face.rgba[i + 2], face.rgba[i + 3]]
    };
    let face = menu.face();
    // thumb: max(2450 / 20, 20) = 122 px at the top of the 245 px track
    assert_eq!(at(&face, 621, 157), [229, 219, 191, 255]);
    assert_eq!(at(&face, 621, 156 + 130), [65, 70, 85, 255]);
    assert_eq!(at(&face, 10, 10), [20, 21, 25, 255]);
    menu.jump(true);
    let face = menu.face();
    assert_eq!(at(&face, 621, 157), [65, 70, 85, 255]);
    assert_eq!(at(&face, 621, 156 + 123 + 5), [229, 219, 191, 255]);
    let short = UpdateMenu::default().face();
    assert_eq!(at(&short, 621, 157), [20, 21, 25, 255]);
}
