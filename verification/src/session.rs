//! The browser's decisions: what a key does, which row a move selects,
//! which folder an activated row opens, and where a thumbnail is looked for.
use vstd::prelude::*;
use crate::listing::FilePlus;
use crate::screen::{law_rows_match_entries, reload_list};

verus! {

/// A key, as far as the browser tells keys apart.
#[derive(Debug, PartialEq, Eq, Clone, Copy)]
pub enum KeyInput {
    Char(char),
    Escape,
    Other,
}

/// What the browser does for a key.
#[derive(Debug, PartialEq, Eq, Clone, Copy)]
pub enum KeyAction {
    /// Nothing.
    Nothing,
    /// Move the focus from the search field to the list.
    FocusList,
    /// Move the focus to the search field.
    FocusSearch,
    /// Empty the search field and move the focus to the list.
    LeaveSearch,
    /// Close the window.
    CloseWindow,
    /// List a folder again: emptying the list first when `clear_first`;
    /// the saved folder when `from_saved`, else the working folder; only
    /// its folders when `folders_only`.
    Reload { clear_first: bool, from_saved: bool, folders_only: bool },
    /// Empty the list.
    ClearList,
    /// Print the saved folder.
    ShowPath,
    /// Select the next row.
    SelectNext,
    /// Select the previous row.
    SelectPrevious,
}

/// What the browser does for a key, and whether the key stops there or goes
/// on to the window's other handlers.
#[derive(Debug, PartialEq, Eq, Clone, Copy)]
pub struct KeyResponse {
    pub action: KeyAction,
    pub stop: bool,
}

/// What the browser keeps between events: whether the list shows folders
/// only, and the folder saved by the last activated folder row.
pub struct Session {
    pub dirs_only: bool,
    pub saved_path: String,
}

/// The response to a key, and whether the list shows folders only after it,
/// given whether the search field has the focus, whether the saved folder
/// exists and whether the list showed folders only before.
pub open spec fn key_response(
    key: KeyInput,
    search_focused: bool,
    saved_exists: bool,
    dirs_only: bool,
) -> (KeyAction, bool, bool) {
    match key {
        KeyInput::Char(c) => if c == 't' || c == 'T' {
            (if search_focused {
                KeyAction::FocusList
            } else {
                KeyAction::FocusSearch
            }, true, dirs_only)
        } else if c == 'S' {
            (
                KeyAction::Reload {
                    clear_first: saved_exists,
                    from_saved: saved_exists,
                    folders_only: false,
                },
                false,
                dirs_only,
            )
        } else if c == 'D' {
            (KeyAction::ClearList, false, dirs_only)
        } else if c == 'P' {
            (KeyAction::ShowPath, false, dirs_only)
        } else if c == 'R' {
            (
                KeyAction::Reload {
                    clear_first: true,
                    from_saved: saved_exists,
                    folders_only: !dirs_only,
                },
                false,
                !dirs_only,
            )
        } else if c == 'j' || c == 'J' {
            (if search_focused {
                KeyAction::Nothing
            } else {
                KeyAction::SelectNext
            }, true, dirs_only)
        } else if c == 'k' || c == 'K' {
            (if search_focused {
                KeyAction::Nothing
            } else {
                KeyAction::SelectPrevious
            }, true, dirs_only)
        } else {
            (KeyAction::Nothing, false, dirs_only)
        },
        KeyInput::Escape => (
            if search_focused {
                KeyAction::LeaveSearch
            } else {
                KeyAction::CloseWindow
            },
            true,
            dirs_only,
        ),
        KeyInput::Other => (KeyAction::Nothing, false, dirs_only),
    }
}

impl Session {
    /// A session that shows every entry and has no saved folder.
    pub fn new() -> (s: Session)
        ensures
            !s.dirs_only,
            s.saved_path@ == Seq::<char>::empty(),
    {
        Session { dirs_only: false, saved_path: String::new() }
    }

    /// The response to `key`; `R` also switches between showing folders
    /// only and showing every entry.
    pub fn on_key(&mut self, key: KeyInput, search_focused: bool, saved_exists: bool) -> (r:
        KeyResponse)
        ensures
            (r.action, r.stop, final(self).dirs_only) == key_response(
                key,
                search_focused,
                saved_exists,
                old(self).dirs_only,
            ),
            final(self).saved_path == old(self).saved_path,
    {
        let (action, stop) = match key {
            KeyInput::Char(c) => if c == 't' || c == 'T' {
                (if search_focused {
                    KeyAction::FocusList
                } else {
                    KeyAction::FocusSearch
                }, true)
            } else if c == 'S' {
                (
                    KeyAction::Reload {
                        clear_first: saved_exists,
                        from_saved: saved_exists,
                        folders_only: false,
                    },
                    false,
                )
            } else if c == 'D' {
                (KeyAction::ClearList, false)
            } else if c == 'P' {
                (KeyAction::ShowPath, false)
            } else if c == 'R' {
                self.dirs_only = !self.dirs_only;
                (
                    KeyAction::Reload {
                        clear_first: true,
                        from_saved: saved_exists,
                        folders_only: self.dirs_only,
                    },
                    false,
                )
            } else if c == 'j' || c == 'J' {
                (if search_focused {
                    KeyAction::Nothing
                } else {
                    KeyAction::SelectNext
                }, true)
            } else if c == 'k' || c == 'K' {
                (if search_focused {
                    KeyAction::Nothing
                } else {
                    KeyAction::SelectPrevious
                }, true)
            } else {
                (KeyAction::Nothing, false)
            },
            KeyInput::Escape => (
                if search_focused {
                    KeyAction::LeaveSearch
                } else {
                    KeyAction::CloseWindow
                },
                true,
            ),
            KeyInput::Other => (KeyAction::Nothing, false),
        };
        KeyResponse { action, stop }
    }

    /// The folder that activating a row opens, where `activated` is the
    /// file of the row, if the list has one for it, and `is_dir` tells
    /// whether that file is a folder. A folder is opened and saved; for
    /// anything else the working folder `.` is listed.
    pub fn on_row_activated(&mut self, activated: Option<&FilePlus>, is_dir: bool) -> (target:
        String)
        ensures
            final(self).dirs_only == old(self).dirs_only,
            match activated {
                Some(f) if is_dir => target@ == f.full_path@ && final(self).saved_path@
                    == f.full_path@,
                _ => target@ == "."@ && final(self).saved_path == old(self).saved_path,
            },
    {
        match activated {
            Some(f) => if is_dir {
                self.saved_path = f.full_path.clone();
                f.full_path.clone()
            } else {
                String::from_str(".")
            },
            None => String::from_str("."),
        }
    }
}

/// The index of the entry of `shown` that the row `row` stands for.
pub fn file_at_row(shown: &Vec<FilePlus>, row: i32) -> (r: Option<usize>)
    ensures
        r == (if 0 <= row < shown@.len() {
            Some(row as usize)
        } else {
            None
        }),
{
    if row >= 0 && (row as usize) < shown.len() {
        Some(row as usize)
    } else {
        None
    }
}

/// The row that moving down selects in a list of `rows` rows: the one after
/// the selected row, or the first when none is selected; none past the end.
pub open spec fn next_row(selected: Option<i32>, rows: i32) -> Option<i32> {
    match selected {
        Some(i) => if i + 1 < rows {
            Some((i + 1) as i32)
        } else {
            None
        },
        None => if rows > 0 {
            Some(0i32)
        } else {
            None
        },
    }
}

/// The row that moving up selects: the one before the selected row; none
/// before the first or when none is selected.
pub open spec fn previous_row(selected: Option<i32>) -> Option<i32> {
    match selected {
        Some(i) => if i >= 1 {
            Some((i - 1) as i32)
        } else {
            None
        },
        None => None,
    }
}

/// The row that moving down selects in a list of `rows` rows (see
/// `next_row`).
pub fn row_after(selected: Option<i32>, rows: i32) -> (r: Option<i32>)
    requires
        0 <= rows,
        selected matches Some(i) ==> 0 <= i < rows,
    ensures
        r == next_row(selected, rows),
{
    match selected {
        Some(i) => if i + 1 < rows {
            Some(i + 1)
        } else {
            None
        },
        None => if rows > 0 {
            Some(0)
        } else {
            None
        },
    }
}

/// The row that moving up selects (see `previous_row`).
pub fn row_before(selected: Option<i32>) -> (r: Option<i32>)
    ensures
        r == previous_row(selected),
{
    match selected {
        Some(i) => if i >= 1 {
            Some(i - 1)
        } else {
            None
        },
        None => None,
    }
}

/// How the browser starts: a folder given as `.` is listed as it is;
/// any other folder is searched, with the folders below it, for videos.
#[derive(Debug, PartialEq, Eq, Clone, Copy)]
pub enum StartListing {
    WorkingFolder,
    VideosBelow,
}

/// How the browser starts for the folder `folder_path`.
pub fn start_listing(folder_path: &str) -> (r: StartListing)
    ensures
        (r is WorkingFolder) == (folder_path@ == "."@),
{
    proof {
        reveal_strlit(".");
    }
    if folder_path.unicode_len() == 1 && folder_path.get_char(0) == '.' {
        assert(folder_path@ =~= "."@);
        StartListing::WorkingFolder
    } else {
        assert(folder_path@ != "."@) by {
            if folder_path@ == "."@ {
                assert(folder_path@.len() == 1 && folder_path@[0] == '.');
            }
        }
        StartListing::VideosBelow
    }
}

/// The size of thumbnail that is looked for.
#[derive(Debug, PartialEq, Eq, Clone, Copy)]
pub enum ThumbnailSize {
    Normal,
    Large,
}

/// Where the thumbnail of the size `size` for the file whose URI hashes to
/// `hash` lies, below the home folder `home`.
pub open spec fn thumbnail_location(home: Seq<char>, hash: Seq<char>, size: ThumbnailSize) -> Seq<
    char,
> {
    home + "/.cache/thumbnails/"@ + match size {
        ThumbnailSize::Normal => "normal"@,
        ThumbnailSize::Large => "large"@,
    } + "/"@ + hash + ".png"@
}

/// Where the thumbnail of the size `size` for the file whose URI hashes to
/// `hash` lies, below the home folder `home`.
pub fn thumbnail_path(home: &str, hash: &str, size: ThumbnailSize) -> (r: String)
    ensures
        r@ == thumbnail_location(home@, hash@, size),
{
    let mut p = String::from_str(home);
    p.append("/.cache/thumbnails/");
    match size {
        ThumbnailSize::Normal => p.append("normal"),
        ThumbnailSize::Large => p.append("large"),
    }
    p.append("/");
    p.append(hash);
    p.append(".png");
    p
}

/// The thumbnail that is shown: the normal one when it exists, else the
/// large one when that exists, else the normal one all the same.
pub fn choose_thumbnail(normal_exists: bool, large_exists: bool) -> (r: ThumbnailSize)
    ensures
        (r is Large) == (!normal_exists && large_exists),
{
    if normal_exists {
        ThumbnailSize::Normal
    } else if large_exists {
        ThumbnailSize::Large
    } else {
        ThumbnailSize::Normal
    }
}

/// The hash of a URI as it is used: the checksum, or thirty-two zeros when
/// none could be computed.
pub fn checksum_or_zeros(checksum: Option<String>) -> (r: String)
    ensures
        r@ == match checksum {
            Some(c) => c@,
            None => "00000000000000000000000000000000"@,
        },
{
    match checksum {
        Some(c) => c,
        None => String::from_str("00000000000000000000000000000000"),
    }
}

/// Moving down and then up selects the row that was selected, unless it
/// was the last one.
pub proof fn law_down_then_up(i: i32, rows: i32)
    requires
        0 <= i,
        i + 1 < rows,
    ensures
        previous_row(next_row(Some(i), rows)) == Some(i),
{
}

/// Moving up and then down selects the row that was selected, unless it
/// was the first one.
pub proof fn law_up_then_down(i: i32, rows: i32)
    requires
        1 <= i < rows,
    ensures
        next_row(previous_row(Some(i)), rows) == Some(i),
{
}

/// Pressing `R` twice brings the list back to what it showed: folders only,
/// or every entry.
pub proof fn law_folders_only_twice(search_focused: bool, saved_exists: bool, dirs_only: bool)
    ensures
        key_response(
            KeyInput::Char('R'),
            search_focused,
            saved_exists,
            key_response(KeyInput::Char('R'), search_focused, saved_exists, dirs_only).2,
        ).2 == dirs_only,
{
}

/// Only `R` changes whether the list shows folders only.
pub proof fn law_only_r_switches(key: KeyInput, search_focused: bool, saved_exists: bool, dirs_only: bool)
    requires
        key != KeyInput::Char('R'),
    ensures
        key_response(key, search_focused, saved_exists, dirs_only).2 == dirs_only,
{
}

/// While the search field has the focus, no key closes the window and the
/// moving keys do not move the selection.
pub proof fn law_search_focus_keeps_window(key: KeyInput, saved_exists: bool, dirs_only: bool)
    ensures
        !(key_response(key, true, saved_exists, dirs_only).0 is CloseWindow),
        !(key_response(key, true, saved_exists, dirs_only).0 is SelectNext),
        !(key_response(key, true, saved_exists, dirs_only).0 is SelectPrevious),
{
}

/// The only key that lists a folder again without emptying the list first
/// is `S`, pressed while the saved folder does not exist.
pub proof fn law_only_s_keeps_the_list(key: KeyInput, search_focused: bool, saved_exists: bool, dirs_only: bool)
    ensures
        key_response(key, search_focused, saved_exists, dirs_only).0 matches KeyAction::Reload {
            clear_first,
            ..
        } && !clear_first ==> key == KeyInput::Char('S') && !saved_exists,
{
}

/// Keys keep the rows of the list matching its entries, except `S` pressed
/// while the saved folder does not exist: whatever folder a key lists
/// again, the list it leaves shows one row for each entry, in order.
pub proof fn law_keys_keep_rows_matching(
    key: KeyInput,
    search_focused: bool,
    saved_exists: bool,
    dirs_only: bool,
    rows: Seq<FilePlus>,
    stored: Seq<FilePlus>,
    files: Seq<FilePlus>,
    is_dir: Seq<bool>,
)
    requires
        rows == stored,
        !(key == KeyInput::Char('S') && !saved_exists),
    ensures
        key_response(key, search_focused, saved_exists, dirs_only).0 matches KeyAction::Reload {
            clear_first,
            folders_only,
            ..
        } ==> reload_list(rows, stored, clear_first, folders_only, files, is_dir).0 == reload_list(
            rows,
            stored,
            clear_first,
            folders_only,
            files,
            is_dir,
        ).1,
{
    law_only_s_keeps_the_list(key, search_focused, saved_exists, dirs_only);
    match key_response(key, search_focused, saved_exists, dirs_only).0 {
        KeyAction::Reload { clear_first, folders_only, .. } => {
            law_rows_match_entries(rows, stored, folders_only, files, is_dir);
        },
        _ => {},
    }
}

/// With the list focused, `j` and `J` select the next row and `k` and `K`
/// the previous one; with the search field focused they do nothing. The
/// key stops there either way, and the folders-only mode stays.
pub proof fn law_moving_keys(saved_exists: bool, dirs_only: bool)
    ensures
        key_response(KeyInput::Char('j'), false, saved_exists, dirs_only) == (
            KeyAction::SelectNext,
            true,
            dirs_only,
        ),
        key_response(KeyInput::Char('J'), false, saved_exists, dirs_only) == (
            KeyAction::SelectNext,
            true,
            dirs_only,
        ),
        key_response(KeyInput::Char('k'), false, saved_exists, dirs_only) == (
            KeyAction::SelectPrevious,
            true,
            dirs_only,
        ),
        key_response(KeyInput::Char('K'), false, saved_exists, dirs_only) == (
            KeyAction::SelectPrevious,
            true,
            dirs_only,
        ),
        key_response(KeyInput::Char('j'), true, saved_exists, dirs_only) == (
            KeyAction::Nothing,
            true,
            dirs_only,
        ),
        key_response(KeyInput::Char('J'), true, saved_exists, dirs_only) == (
            KeyAction::Nothing,
            true,
            dirs_only,
        ),
        key_response(KeyInput::Char('k'), true, saved_exists, dirs_only) == (
            KeyAction::Nothing,
            true,
            dirs_only,
        ),
        key_response(KeyInput::Char('K'), true, saved_exists, dirs_only) == (
            KeyAction::Nothing,
            true,
            dirs_only,
        ),
{
}

/// `t` and `T` move the focus between the search field and the list, and
/// `Escape` leaves the search field, emptying it, or else closes the
/// window; all of them stop there and keep the folders-only mode.
pub proof fn law_focus_keys(search_focused: bool, saved_exists: bool, dirs_only: bool)
    ensures
        key_response(KeyInput::Char('t'), search_focused, saved_exists, dirs_only) == (
            if search_focused {
                KeyAction::FocusList
            } else {
                KeyAction::FocusSearch
            },
            true,
            dirs_only,
        ),
        key_response(KeyInput::Char('T'), search_focused, saved_exists, dirs_only)
            == key_response(KeyInput::Char('t'), search_focused, saved_exists, dirs_only),
        key_response(KeyInput::Escape, search_focused, saved_exists, dirs_only) == (
            if search_focused {
                KeyAction::LeaveSearch
            } else {
                KeyAction::CloseWindow
            },
            true,
            dirs_only,
        ),
{
}

/// `S` lists every entry of the saved folder, emptying the list first, when
/// that folder exists, and of the working folder, adding to the list,
/// when it does not; `R` switches the folders-only mode and lists the same
/// folder in the new mode, emptying the list first; `D` empties the list
/// and `P` prints the saved folder. None of them stops the key, and the
/// lower-case letters do nothing.
pub proof fn law_listing_keys(search_focused: bool, saved_exists: bool, dirs_only: bool)
    ensures
        key_response(KeyInput::Char('S'), search_focused, saved_exists, dirs_only) == (
            KeyAction::Reload {
                clear_first: saved_exists,
                from_saved: saved_exists,
                folders_only: false,
            },
            false,
            dirs_only,
        ),
        key_response(KeyInput::Char('R'), search_focused, saved_exists, dirs_only) == (
            KeyAction::Reload {
                clear_first: true,
                from_saved: saved_exists,
                folders_only: !dirs_only,
            },
            false,
            !dirs_only,
        ),
        key_response(KeyInput::Char('D'), search_focused, saved_exists, dirs_only) == (
            KeyAction::ClearList,
            false,
            dirs_only,
        ),
        key_response(KeyInput::Char('P'), search_focused, saved_exists, dirs_only) == (
            KeyAction::ShowPath,
            false,
            dirs_only,
        ),
        key_response(KeyInput::Char('s'), search_focused, saved_exists, dirs_only) == (
            KeyAction::Nothing,
            false,
            dirs_only,
        ),
        key_response(KeyInput::Char('r'), search_focused, saved_exists, dirs_only) == (
            KeyAction::Nothing,
            false,
            dirs_only,
        ),
        key_response(KeyInput::Char('d'), search_focused, saved_exists, dirs_only) == (
            KeyAction::Nothing,
            false,
            dirs_only,
        ),
        key_response(KeyInput::Char('p'), search_focused, saved_exists, dirs_only) == (
            KeyAction::Nothing,
            false,
            dirs_only,
        ),
{
}

/// Any key but the ones the browser knows does nothing and goes on to the
/// window's other handlers.
pub proof fn law_other_keys(key: KeyInput, search_focused: bool, saved_exists: bool, dirs_only: bool)
    requires
        key != KeyInput::Escape,
        key != KeyInput::Char('t'),
        key != KeyInput::Char('T'),
        key != KeyInput::Char('S'),
        key != KeyInput::Char('R'),
        key != KeyInput::Char('D'),
        key != KeyInput::Char('P'),
        key != KeyInput::Char('j'),
        key != KeyInput::Char('J'),
        key != KeyInput::Char('k'),
        key != KeyInput::Char('K'),
    ensures
        key_response(key, search_focused, saved_exists, dirs_only) == (
            KeyAction::Nothing,
            false,
            dirs_only,
        ),
{
}

/// Moving down from a row selects the row just after it, while there is
/// one; with no row selected it selects the first; it never selects a row
/// outside the list. Moving up selects the row just before, while there is
/// one.
pub proof fn law_row_moves(selected: Option<i32>, rows: i32)
    requires
        0 <= rows,
        selected matches Some(i) ==> 0 <= i < rows,
    ensures
        next_row(selected, rows) matches Some(n) ==> 0 <= n < rows,
        selected matches Some(i) ==> (next_row(selected, rows) matches Some(n) ==> n == i + 1),
        selected matches Some(i) ==> (i + 1 < rows <==> next_row(selected, rows) is Some),
        selected is None ==> next_row(selected, rows) == (if rows > 0 {
            Some(0i32)
        } else {
            None
        }),
        previous_row(selected) matches Some(n) ==> 0 <= n < rows,
        selected matches Some(i) ==> (previous_row(selected) matches Some(n) ==> n == i - 1),
        selected matches Some(i) ==> (i >= 1 <==> previous_row(selected) is Some),
        selected is None ==> previous_row(selected) is None,
{
}

/// The thumbnail of each size lies below the home folder, in the folder of
/// its size, named by the whole hash with `.png` after it.
pub proof fn law_thumbnail_location(home: Seq<char>, hash: Seq<char>)
    ensures
        thumbnail_location(home, hash, ThumbnailSize::Normal) == home
            + "/.cache/thumbnails/normal/"@ + hash + ".png"@,
        thumbnail_location(home, hash, ThumbnailSize::Large) == home
            + "/.cache/thumbnails/large/"@ + hash + ".png"@,
        thumbnail_location(home, hash, ThumbnailSize::Normal).len() == home.len() + hash.len()
            + 30,
        thumbnail_location(home, hash, ThumbnailSize::Large).len() == home.len() + hash.len()
            + 29,
{
    reveal_strlit("/.cache/thumbnails/normal/");
    reveal_strlit("/.cache/thumbnails/large/");
    reveal_strlit("/.cache/thumbnails/");
    reveal_strlit("normal");
    reveal_strlit("large");
    reveal_strlit("/");
    reveal_strlit(".png");
    assert(thumbnail_location(home, hash, ThumbnailSize::Normal) =~= home
        + "/.cache/thumbnails/normal/"@ + hash + ".png"@);
    assert(thumbnail_location(home, hash, ThumbnailSize::Large) =~= home
        + "/.cache/thumbnails/large/"@ + hash + ".png"@);
}

/// Different hashes, or different home folders, give different thumbnails
/// of a size: the location keeps the whole of both.
pub proof fn law_thumbnail_location_distinct(
    home1: Seq<char>,
    hash1: Seq<char>,
    home2: Seq<char>,
    hash2: Seq<char>,
    size: ThumbnailSize,
)
    requires
        home1.len() == home2.len(),
        thumbnail_location(home1, hash1, size) == thumbnail_location(home2, hash2, size),
    ensures
        home1 == home2,
        hash1 == hash2,
{
    law_thumbnail_location(home1, hash1);
    law_thumbnail_location(home2, hash2);
    let l = thumbnail_location(home1, hash1, size);
    let mid: Seq<char> = match size {
        ThumbnailSize::Normal => "/.cache/thumbnails/normal/"@,
        ThumbnailSize::Large => "/.cache/thumbnails/large/"@,
    };
    assert(l == home1 + mid + hash1 + ".png"@);
    assert(l == home2 + mid + hash2 + ".png"@);
    assert(home1 =~= l.take(home1.len() as int));
    assert(home2 =~= l.take(home2.len() as int));
    assert(hash1.len() == hash2.len());
    let start: int = (home1.len() + mid.len()) as int;
    let end: int = (home1.len() + mid.len() + hash1.len()) as int;
    assert(hash1 =~= l.subrange(start, end));
    assert(hash2 =~= l.subrange(start, end));
}

} // verus!
