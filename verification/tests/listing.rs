use filelist::screen::ListScreen;
use filelist::order::sort_stable;
use filelist::screen::{
    append_to_screen, append_to_screen_selective, finds_lowered, row_label, search_finds_file,
    update_screen_with_search,
};
use filelist::{check_dupes_comp, dir_list_one, list_self_dir, walk_dir, DirTree, FilePlus};

fn fp(path: &str, ext: &str) -> FilePlus {
    FilePlus { full_path: path.to_string(), extenstion: ext.to_string() }
}

fn strings(v: &[&str]) -> Vec<String> {
    v.iter().map(|s| s.to_string()).collect()
}

fn tree() -> DirTree {
    DirTree {
        files: strings(&["/m/z.mkv", "/m/a.txt", "/m/b.mkv", "/m/pic.png", "/m/noext"]),
        subdirs: vec![
            DirTree {
                files: strings(&["/m/sub2/c.mkv", "/m/sub2/a.mkv"]),
                subdirs: vec![],
            },
            DirTree {
                files: strings(&["/m/sub1/y.mkv", "/m/sub1/x.png"]),
                subdirs: vec![DirTree {
                    files: strings(&["/m/sub1/deep/d.mkv"]),
                    subdirs: vec![],
                }],
            },
        ],
    }
}

#[test]
fn check_dupes_comp_gives_extensions() {
    let got = check_dupes_comp(&strings(&["/a/b.txt", "/a/c", "/a/.bashrc", "/a/x.tar.gz", "/a/y."]));
    assert_eq!(
        got,
        vec![
            fp("/a/b.txt", "txt"),
            fp("/a/c", "DONOT"),
            fp("/a/.bashrc", "DONOT"),
            fp("/a/x.tar.gz", "gz"),
            fp("/a/y.", ""),
        ]
    );
}

#[test]
fn list_self_dir_sorts_by_path() {
    let got = list_self_dir(strings(&["/d/b", "/d/a.txt", "/d/C", "/d/a b"]));
    assert_eq!(
        got,
        vec![fp("/d/C", "DONOT"), fp("/d/a b", "DONOT"), fp("/d/a.txt", "txt"), fp("/d/b", "DONOT")]
    );
}

#[test]
fn dir_list_one_own_folder_only() {
    let got = dir_list_one(&tree(), "mkv", true);
    assert_eq!(got, vec![fp("/m/b.mkv", "mkv"), fp("/m/z.mkv", "mkv")]);
}

#[test]
fn dir_list_one_with_subfolders() {
    let got = dir_list_one(&tree(), "mkv", false);
    assert_eq!(
        got,
        vec![
            fp("/m/b.mkv", "mkv"),
            fp("/m/z.mkv", "mkv"),
            fp("/m/sub1/deep/d.mkv", "mkv"),
            fp("/m/sub1/y.mkv", "mkv"),
            fp("/m/sub2/a.mkv", "mkv"),
            fp("/m/sub2/c.mkv", "mkv"),
        ]
    );
}

#[test]
fn browser_lists_pictures_too() {
    let got = filelist::browser::dir_list_one(&tree(), "mkv", false);
    assert_eq!(
        got,
        vec![
            fp("/m/b.mkv", "mkv"),
            fp("/m/pic.png", "png"),
            fp("/m/z.mkv", "mkv"),
            fp("/m/sub1/deep/d.mkv", "mkv"),
            fp("/m/sub1/x.png", "png"),
            fp("/m/sub1/y.mkv", "mkv"),
            fp("/m/sub2/a.mkv", "mkv"),
            fp("/m/sub2/c.mkv", "mkv"),
        ]
    );
}

#[test]
fn walk_dir_keeps_folder_order() {
    let t = tree();
    let got = walk_dir(&t.subdirs, "mkv");
    assert_eq!(
        got,
        vec![
            fp("/m/sub2/a.mkv", "mkv"),
            fp("/m/sub2/c.mkv", "mkv"),
            fp("/m/sub1/y.mkv", "mkv"),
            fp("/m/sub1/deep/d.mkv", "mkv"),
        ]
    );
}

#[test]
fn extension_suffix_matches() {
    let t = DirTree { files: strings(&["/v/a.xmkv", "/v/b.MKV", "/v/c.mkv"]), subdirs: vec![] };
    assert_eq!(dir_list_one(&t, "mkv", false), vec![fp("/v/a.xmkv", "xmkv"), fp("/v/c.mkv", "mkv")]);
    assert_eq!(dir_list_one(&t, "", true).len(), 3);
}

#[test]
fn sort_is_stable_for_equal_paths() {
    let got = sort_stable(strings(&["b", "a/./x", "a//x", "a/x"]));
    assert_eq!(got, strings(&["a/./x", "a//x", "a/x", "b"]));
    let got = sort_stable(strings(&["a/x", "a//x", "b", "a/./x"]));
    assert_eq!(got, strings(&["a/x", "a//x", "a/./x", "b"]));
}

#[test]
fn append_to_screen_shows_all_of_storage() {
    let mut storage = vec![fp("/old", "DONOT")];
    let rows = append_to_screen(&vec![fp("/new.txt", "txt")], &mut storage);
    assert_eq!(storage, vec![fp("/old", "DONOT"), fp("/new.txt", "txt")]);
    assert_eq!(rows, storage);
}

#[test]
fn append_to_screen_selective_keeps_folders() {
    let mut storage = vec![fp("/old", "DONOT")];
    let files = vec![fp("/a", "DONOT"), fp("/b.txt", "txt"), fp("/c", "DONOT")];
    let rows = append_to_screen_selective(&files, &vec![true, false, true], &mut storage);
    assert_eq!(rows, vec![fp("/a", "DONOT"), fp("/c", "DONOT")]);
    assert_eq!(storage, vec![fp("/old", "DONOT"), fp("/a", "DONOT"), fp("/c", "DONOT")]);
}

#[test]
fn search_is_case_insensitive() {
    let files = vec![fp("/v/Movie.MKV", "MKV"), fp("/v/notes.txt", "txt"), fp("/v/README", "DONOT")];
    let mut storage = vec![fp("/stale", "DONOT")];
    let rows = update_screen_with_search(&files, "mkv", &mut storage);
    assert_eq!(rows, vec![fp("/v/Movie.MKV", "MKV")]);
    assert_eq!(storage, rows);
    let rows = update_screen_with_search(&files, "MOVIE", &mut storage);
    assert_eq!(rows, vec![fp("/v/Movie.MKV", "MKV")]);
    // A file without an extension has the extension "DONOT".
    let rows = update_screen_with_search(&files, "do", &mut storage);
    assert_eq!(rows, vec![fp("/v/README", "DONOT")]);
}

#[test]
fn empty_search_shows_everything() {
    let files = vec![fp("/v/b", "DONOT"), fp("/v/a.txt", "txt")];
    let mut storage = vec![];
    let rows = update_screen_with_search(&files, "", &mut storage);
    assert_eq!(rows, files);
    assert_eq!(storage, files);
}

#[test]
fn search_on_lowered_values() {
    assert!(finds_lowered(true, "x", "y", "zzz"));
    assert!(finds_lowered(false, "holiday", "mkv", "lid"));
    assert!(finds_lowered(false, "holiday", "mkv", "mk"));
    assert!(!finds_lowered(false, "holiday", "mkv", "png"));
    assert!(search_finds_file(&fp("/x/ÄPFEL.png", "png"), "äpf"));
    assert!(!search_finds_file(&fp("/x/apple.png", "png"), "pear"));
}

#[test]
fn row_labels() {
    assert_eq!(row_label(&fp("/home/u/film.mkv", "mkv"), false), "film.mkv");
    assert_eq!(row_label(&fp("/home/u/dir", "DONOT"), true), "dir*diremoji");
    assert_eq!(row_label(&fp("/", "DONOT"), false), "/");
    assert_eq!(row_label(&fp("/a/..", "DONOT"), true), "/a/..*diremoji");
}

#[test]
fn sorting_twice_sorts_as_once() {
    let once = sort_stable(strings(&["/z", "/a b", "/a/c", "/a", "/a//c"]));
    assert_eq!(once, strings(&["/a", "/a/c", "/a//c", "/a b", "/z"]));
    let twice = sort_stable(once.clone());
    assert_eq!(twice, once);
}

#[test]
fn leaf_folder_lists_the_same_either_way() {
    let t = DirTree { files: strings(&["/l/b.mkv", "/l/a.mkv", "/l/c.txt"]), subdirs: vec![] };
    assert_eq!(dir_list_one(&t, "mkv", true), dir_list_one(&t, "mkv", false));
    assert_eq!(dir_list_one(&t, "mkv", true), vec![fp("/l/a.mkv", "mkv"), fp("/l/b.mkv", "mkv")]);
}

#[test]
fn listing_without_png_is_part_of_browser_listing() {
    let t = tree();
    let plain = dir_list_one(&t, "mkv", false);
    let browser = filelist::browser::dir_list_one(&t, "mkv", false);
    let kept: Vec<FilePlus> = browser.iter().filter(|f| f.extenstion.ends_with("mkv")).cloned().collect();
    assert_eq!(plain, kept);
    assert_eq!(dir_list_one(&t, "png", false), filelist::browser::dir_list_one(&t, "png", false));
    assert_eq!(dir_list_one(&t, "ng", true), filelist::browser::dir_list_one(&t, "ng", true));
}

#[test]
fn walk_dir_of_two_groups_concatenates() {
    let t = tree();
    let both = walk_dir(&t.subdirs, "mkv");
    let first = walk_dir(&vec![t.subdirs[0].clone_tree()], "mkv");
    let second = walk_dir(&vec![t.subdirs[1].clone_tree()], "mkv");
    let mut joined = first;
    joined.extend(second);
    assert_eq!(both, joined);
}

trait CloneTree {
    fn clone_tree(&self) -> DirTree;
}

impl CloneTree for DirTree {
    fn clone_tree(&self) -> DirTree {
        DirTree {
            files: self.files.clone(),
            subdirs: self.subdirs.iter().map(|d| d.clone_tree()).collect(),
        }
    }
}

#[test]
fn self_dir_ignores_read_order() {
    let a = list_self_dir(strings(&["/d/b", "/d/a.txt", "/d/c.mkv"]));
    let b = list_self_dir(strings(&["/d/c.mkv", "/d/b", "/d/a.txt"]));
    assert_eq!(a, b);
}

#[test]
fn folder_listing_for_every_extension_is_its_non_folders() {
    let entries = strings(&["/f/z.txt", "/f/sub", "/f/a", "/f/m.mkv"]);
    let is_dir = |p: &str| p == "/f/sub";
    let t = DirTree {
        files: entries.iter().filter(|p| !is_dir(p)).cloned().collect(),
        subdirs: vec![],
    };
    let expected: Vec<FilePlus> = list_self_dir(entries.clone())
        .into_iter()
        .filter(|f| !is_dir(&f.full_path))
        .collect();
    assert_eq!(dir_list_one(&t, "", true), expected);
}

#[test]
fn narrower_search_shows_less() {
    let files = vec![fp("/v/Holiday.mkv", "mkv"), fp("/v/holly.png", "png"), fp("/v/notes.txt", "txt")];
    let mut storage = vec![];
    let wide = update_screen_with_search(&files, "HOL", &mut storage);
    let narrow = update_screen_with_search(&files, "holi", &mut storage);
    let kept: Vec<FilePlus> = wide.iter().filter(|f| narrow.contains(f)).cloned().collect();
    assert_eq!(narrow, kept);
    assert_eq!(narrow, vec![fp("/v/Holiday.mkv", "mkv")]);
    assert_eq!(wide.len(), 2);
}

#[test]
fn files_equal_by_path_components() {
    assert_eq!(fp("/a//b.txt", "txt"), fp("/a/b.txt", "txt"));
    assert_eq!(fp("/a/./b.txt", "txt"), fp("/a/b.txt/", "txt"));
    assert_ne!(fp("/a/b.txt", "txt"), fp("/a/b.txt", "TXT"));
    assert_ne!(fp("/a/b.txt", "txt"), fp("/a/c.txt", "txt"));
}

#[test]
fn list_rows_follow_entries() {
    let start = vec![fp("/a", "DONOT")];
    let mut screen = ListScreen::new(&start);
    assert_eq!(screen.rows, screen.stored);
    let files = vec![fp("/b", "DONOT"), fp("/c.txt", "txt")];
    let added = screen.reload(true, false, &files, &vec![false, false]);
    assert_eq!(added, files);
    assert_eq!(screen.rows, files);
    assert_eq!(screen.stored, files);
    let added = screen.reload(true, true, &files, &vec![true, false]);
    assert_eq!(added, vec![fp("/b", "DONOT")]);
    assert_eq!(screen.rows, screen.stored);
    // Listing again without emptying first repeats the stored entries.
    let added = screen.reload(false, false, &vec![fp("/d", "DONOT")], &vec![false]);
    assert_eq!(added, vec![fp("/b", "DONOT"), fp("/d", "DONOT")]);
    assert_eq!(screen.rows, vec![fp("/b", "DONOT"), fp("/b", "DONOT"), fp("/d", "DONOT")]);
    let shown = screen.search(&files, "c");
    assert_eq!(shown, vec![fp("/c.txt", "txt")]);
    assert_eq!(screen.rows, shown);
    assert_eq!(screen.stored, shown);
    screen.clear();
    assert!(screen.rows.is_empty() && screen.stored.is_empty());
}

#[test]
fn distinct_paths_listed_once() {
    let got = filelist::browser::dir_list_one(&tree(), "", false);
    for i in 0..got.len() {
        for j in i + 1..got.len() {
            assert_ne!(got[i].full_path, got[j].full_path);
        }
    }
    assert_eq!(got.len(), 10);
}
