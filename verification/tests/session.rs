use filelist::session::{
    checksum_or_zeros, choose_thumbnail, file_at_row, row_after, row_before, start_listing,
    thumbnail_path, KeyAction, KeyInput, KeyResponse, Session, StartListing, ThumbnailSize,
};
use filelist::FilePlus;

fn fp(path: &str, ext: &str) -> FilePlus {
    FilePlus { full_path: path.to_string(), extenstion: ext.to_string() }
}

#[test]
fn focus_keys() {
    let mut s = Session::new();
    assert_eq!(
        s.on_key(KeyInput::Char('t'), true, false),
        KeyResponse { action: KeyAction::FocusList, stop: true }
    );
    assert_eq!(
        s.on_key(KeyInput::Char('T'), false, false),
        KeyResponse { action: KeyAction::FocusSearch, stop: true }
    );
    assert_eq!(
        s.on_key(KeyInput::Escape, true, false),
        KeyResponse { action: KeyAction::LeaveSearch, stop: true }
    );
    assert_eq!(
        s.on_key(KeyInput::Escape, false, false),
        KeyResponse { action: KeyAction::CloseWindow, stop: true }
    );
}

#[test]
fn reload_keys() {
    let mut s = Session::new();
    assert_eq!(
        s.on_key(KeyInput::Char('S'), false, false),
        KeyResponse {
            action: KeyAction::Reload { clear_first: false, from_saved: false, folders_only: false },
            stop: false
        }
    );
    assert_eq!(
        s.on_key(KeyInput::Char('S'), false, true),
        KeyResponse {
            action: KeyAction::Reload { clear_first: true, from_saved: true, folders_only: false },
            stop: false
        }
    );
    assert_eq!(
        s.on_key(KeyInput::Char('R'), false, false),
        KeyResponse {
            action: KeyAction::Reload { clear_first: true, from_saved: false, folders_only: true },
            stop: false
        }
    );
    assert!(s.dirs_only);
    // `S` lists every entry even while folders only are shown.
    assert_eq!(
        s.on_key(KeyInput::Char('S'), false, true).action,
        KeyAction::Reload { clear_first: true, from_saved: true, folders_only: false }
    );
    assert!(s.dirs_only);
    assert_eq!(
        s.on_key(KeyInput::Char('R'), true, true).action,
        KeyAction::Reload { clear_first: true, from_saved: true, folders_only: false }
    );
    assert!(!s.dirs_only);
    // lower-case r, s, d, p do nothing
    for c in ['r', 's', 'd', 'p', 'x'] {
        assert_eq!(
            s.on_key(KeyInput::Char(c), false, true),
            KeyResponse { action: KeyAction::Nothing, stop: false }
        );
    }
}

#[test]
fn other_keys() {
    let mut s = Session::new();
    assert_eq!(
        s.on_key(KeyInput::Char('D'), false, false),
        KeyResponse { action: KeyAction::ClearList, stop: false }
    );
    assert_eq!(
        s.on_key(KeyInput::Char('P'), true, false),
        KeyResponse { action: KeyAction::ShowPath, stop: false }
    );
    assert_eq!(
        s.on_key(KeyInput::Char('j'), false, false),
        KeyResponse { action: KeyAction::SelectNext, stop: true }
    );
    assert_eq!(
        s.on_key(KeyInput::Char('J'), true, false),
        KeyResponse { action: KeyAction::Nothing, stop: true }
    );
    assert_eq!(
        s.on_key(KeyInput::Char('K'), false, false),
        KeyResponse { action: KeyAction::SelectPrevious, stop: true }
    );
    assert_eq!(
        s.on_key(KeyInput::Other, false, false),
        KeyResponse { action: KeyAction::Nothing, stop: false }
    );
}

#[test]
fn row_moves() {
    assert_eq!(row_after(None, 0), None);
    assert_eq!(row_after(None, 3), Some(0));
    assert_eq!(row_after(Some(0), 3), Some(1));
    assert_eq!(row_after(Some(2), 3), None);
    assert_eq!(row_before(Some(2)), Some(1));
    assert_eq!(row_before(Some(0)), None);
    assert_eq!(row_before(None), None);
    assert_eq!(row_before(row_after(Some(1), 3)), Some(1));
}

#[test]
fn rows_and_files() {
    let shown = vec![fp("/a", "DONOT"), fp("/b", "DONOT")];
    assert_eq!(file_at_row(&shown, 1), Some(1));
    assert_eq!(file_at_row(&shown, 2), None);
    assert_eq!(file_at_row(&shown, -1), None);
}

#[test]
fn activating_rows() {
    let mut s = Session::new();
    let folder = fp("/home/u/films", "DONOT");
    assert_eq!(s.on_row_activated(Some(&folder), true), "/home/u/films");
    assert_eq!(s.saved_path, "/home/u/films");
    let file = fp("/home/u/films/a.mkv", "mkv");
    assert_eq!(s.on_row_activated(Some(&file), false), ".");
    assert_eq!(s.saved_path, "/home/u/films");
    assert_eq!(s.on_row_activated(None, true), ".");
    assert_eq!(s.saved_path, "/home/u/films");
}

#[test]
fn start_modes() {
    assert_eq!(start_listing("."), StartListing::WorkingFolder);
    assert_eq!(start_listing("./"), StartListing::VideosBelow);
    assert_eq!(start_listing("/home/u/Videos"), StartListing::VideosBelow);
}

#[test]
fn thumbnails() {
    assert_eq!(
        thumbnail_path("/home/u", "abc123", ThumbnailSize::Normal),
        "/home/u/.cache/thumbnails/normal/abc123.png"
    );
    assert_eq!(
        thumbnail_path("/home/u", "abc123", ThumbnailSize::Large),
        "/home/u/.cache/thumbnails/large/abc123.png"
    );
    assert_eq!(choose_thumbnail(true, true), ThumbnailSize::Normal);
    assert_eq!(choose_thumbnail(false, true), ThumbnailSize::Large);
    assert_eq!(choose_thumbnail(false, false), ThumbnailSize::Normal);
    assert_eq!(checksum_or_zeros(Some("ff".to_string())), "ff");
    assert_eq!(checksum_or_zeros(None), "00000000000000000000000000000000");
}

#[test]
fn search_focus_keeps_the_window_open() {
    let mut s = Session::new();
    for key in [KeyInput::Escape, KeyInput::Char('j'), KeyInput::Char('k'), KeyInput::Char('x')] {
        let r = s.on_key(key, true, false);
        assert_ne!(r.action, KeyAction::CloseWindow);
        assert_ne!(r.action, KeyAction::SelectNext);
        assert_ne!(r.action, KeyAction::SelectPrevious);
    }
}

#[test]
fn folders_only_twice_restores() {
    let mut s = Session::new();
    s.on_key(KeyInput::Char('R'), false, false);
    s.on_key(KeyInput::Char('R'), false, false);
    assert!(!s.dirs_only);
}
