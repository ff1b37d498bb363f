//! What the browser's list shows: the rows it adds for a listing, for the
//! folders of a listing, and for a search; and the text of a row.
use vstd::prelude::*;
use crate::listing::FilePlus;
use crate::path::{file_name, path_file_name};
use crate::order::lemma_filter_of_filter;
use crate::text::{
    contains, has_infix, lemma_empty_infix, lemma_infix_transitive, lowercase, to_lowercase,
};

verus! {

/// Adds `files` to the entries `storage` that the list shows, and returns
/// the rows that the list then gets: every entry of `storage`, the earlier
/// ones included.
pub fn append_to_screen(files: &Vec<FilePlus>, storage: &mut Vec<FilePlus>) -> (rows: Vec<FilePlus>)
    ensures
        final(storage)@ == old(storage)@ + files@,
        rows@ == final(storage)@,
{
    let ghost start = storage@;
    let n = files.len();
    let mut i: usize = 0;
    while i < n
        invariant
            n == files@.len(),
            i <= n,
            storage@ == start + files@.take(i as int),
        decreases n - i,
    {
        storage.push(files[i].clone());
        assert(storage@ =~= start + files@.take(i + 1));
        i += 1;
    }
    assert(files@.take(n as int) =~= files@);
    let mut rows: Vec<FilePlus> = Vec::new();
    let m = storage.len();
    let mut k: usize = 0;
    while k < m
        invariant
            m == storage@.len(),
            k <= m,
            rows@ == storage@.take(k as int),
        decreases m - k,
    {
        rows.push(storage[k].clone());
        assert(rows@ =~= storage@.take(k + 1));
        k += 1;
    }
    assert(storage@.take(m as int) =~= storage@);
    rows
}

/// The entries of `files` that are folders, in order, where `is_dir` tells
/// for each entry whether it is one.
pub open spec fn folders_of(files: Seq<FilePlus>, is_dir: Seq<bool>) -> Seq<FilePlus>
    decreases files.len(),
{
    if files.len() == 0 {
        seq![]
    } else {
        folders_of(files.drop_last(), is_dir.take(files.len() - 1)) + if is_dir[files.len() - 1] {
            seq![files.last()]
        } else {
            seq![]
        }
    }
}

/// Adds to the entries `storage` that the list shows the entries of `files`
/// that are folders (`is_dir` tells for each entry whether it is one), and
/// returns them: the rows that the list gets.
pub fn append_to_screen_selective(
    files: &Vec<FilePlus>,
    is_dir: &Vec<bool>,
    storage: &mut Vec<FilePlus>,
) -> (rows: Vec<FilePlus>)
    requires
        is_dir@.len() == files@.len(),
    ensures
        rows@ == folders_of(files@, is_dir@),
        final(storage)@ == old(storage)@ + rows@,
{
    let ghost start = storage@;
    let mut rows: Vec<FilePlus> = Vec::new();
    let n = files.len();
    let mut i: usize = 0;
    assert(files@.take(0) =~= Seq::<FilePlus>::empty());
    while i < n
        invariant
            n == files@.len(),
            n == is_dir@.len(),
            i <= n,
            rows@ == folders_of(files@.take(i as int), is_dir@.take(i as int)),
            storage@ == start + rows@,
        decreases n - i,
    {
        assert(files@.take(i + 1).drop_last() =~= files@.take(i as int));
        assert(is_dir@.take(i + 1).take(i as int) =~= is_dir@.take(i as int));
        if is_dir[i] {
            let e = files[i].clone();
            rows.push(e);
            storage.push(files[i].clone());
        }
        assert(rows@ =~= folders_of(files@.take(i + 1), is_dir@.take(i + 1)));
        assert(storage@ =~= start + rows@);
        i += 1;
    }
    assert(files@.take(n as int) =~= files@);
    assert(is_dir@.take(n as int) =~= is_dir@);
    rows
}

/// The name that a search looks in: the file name of the path, or nothing.
pub open spec fn searched_name(path: Seq<char>) -> Seq<char> {
    match file_name(path) {
        Some(n) => n,
        None => seq![],
    }
}

/// A search for `term` finds a file: the term is empty, or, in lower case,
/// it occurs in the file's name or in its extension, both in lower case.
pub open spec fn search_finds(file: FilePlus, term: Seq<char>) -> bool {
    term.len() == 0 || has_infix(lowercase(searched_name(file.full_path@)), lowercase(term))
        || has_infix(lowercase(file.extenstion@), lowercase(term))
}

/// Whether a search finds a file, given the term, the file's name and the
/// file's extension, the last three in lower case already.
pub fn finds_lowered(term_is_empty: bool, name: &str, ext: &str, term: &str) -> (r: bool)
    ensures
        r == (term_is_empty || has_infix(name@, term@) || has_infix(ext@, term@)),
{
    term_is_empty || contains(name, term) || contains(ext, term)
}

/// Whether a search for `search_term` finds `file`.
pub fn search_finds_file(file: &FilePlus, search_term: &str) -> (r: bool)
    ensures
        r == search_finds(*file, search_term@),
{
    let search_lower = to_lowercase(search_term);
    let name = match path_file_name(file.full_path.as_str()) {
        Some(n) => n,
        None => String::new(),
    };
    let filename = to_lowercase(name.as_str());
    let ext = to_lowercase(file.extenstion.as_str());
    finds_lowered(search_term.unicode_len() == 0, filename.as_str(), ext.as_str(), search_lower.as_str())
}

/// The test of `search_finds` on a file, as a function.
pub open spec fn found_by(term: Seq<char>) -> spec_fn(FilePlus) -> bool {
    |f: FilePlus| search_finds(f, term)
}

/// Replaces the entries `storage` that the list shows with the files of
/// `files` that a search for `search_term` finds, in order, and returns
/// them: the rows that the emptied list gets.
pub fn update_screen_with_search(
    files: &Vec<FilePlus>,
    search_term: &str,
    storage: &mut Vec<FilePlus>,
) -> (rows: Vec<FilePlus>)
    ensures
        rows@ == files@.filter(found_by(search_term@)),
        final(storage)@ == rows@,
{
    storage.clear();
    let ghost pred = found_by(search_term@);
    let mut rows: Vec<FilePlus> = Vec::new();
    let n = files.len();
    let mut i: usize = 0;
    while i < n
        invariant
            n == files@.len(),
            i <= n,
            pred == found_by(search_term@),
            rows@ == files@.take(i as int).filter(pred),
            storage@ == rows@,
        decreases n - i,
    {
        assert(files@.take(i + 1) =~= files@.take(i as int).push(files@[i as int]));
        proof {
            files@.take(i as int).lemma_filter_push(files@[i as int], pred);
        }
        if search_finds_file(&files[i], search_term) {
            storage.push(files[i].clone());
            rows.push(files[i].clone());
        }
        i += 1;
    }
    assert(files@.take(n as int) =~= files@);
    rows
}

/// The text of the row for a file: its file name, or its whole path when it
/// has none, with `*diremoji` after it for a folder.
pub open spec fn row_text(path: Seq<char>, is_dir: bool) -> Seq<char> {
    (match file_name(path) {
        Some(n) => n,
        None => path,
    }) + if is_dir {
        "*diremoji"@
    } else {
        seq![]
    }
}

/// The text of the row for `file`; `is_dir` tells whether it is a folder.
pub fn row_label(file: &FilePlus, is_dir: bool) -> (r: String)
    ensures
        r@ == row_text(file.full_path@, is_dir),
{
    let mut label = match path_file_name(file.full_path.as_str()) {
        Some(n) => n,
        None => file.full_path.clone(),
    };
    if is_dir {
        label.append("*diremoji");
    } else {
        assert(label@ =~= label@ + seq![]);
    }
    label
}

/// An empty search finds every file: the list shows all of them, in order.
pub proof fn law_empty_search_shows_all(files: Seq<FilePlus>)
    ensures
        files.filter(found_by(Seq::<char>::empty())) == files,
    decreases files.len(),
{
    reveal(Seq::filter);
    if files.len() > 0 {
        law_empty_search_shows_all(files.drop_last());
        assert(files =~= files.drop_last().push(files.last()));
    }
}

/// A narrower search never shows more: when the first term, in lower case,
/// occurs in the second, in lower case, the second search keeps of the
/// files that the first shows those it finds itself. (For an empty second
/// term the first must lower-case to nothing, as every term in the empty
/// one does.)
pub proof fn law_narrower_search_shows_less(files: Seq<FilePlus>, t1: Seq<char>, t2: Seq<char>)
    requires
        has_infix(lowercase(t2), lowercase(t1)),
        t2.len() > 0 || lowercase(t1).len() == 0,
    ensures
        files.filter(found_by(t2)) == files.filter(found_by(t1)).filter(found_by(t2)),
{
    assert forall|f: FilePlus| #[trigger] found_by(t2)(f) implies found_by(t1)(f) by {
        if t1.len() > 0 {
            if t2.len() == 0 {
                assert(lowercase(t1) =~= Seq::<char>::empty());
                lemma_empty_infix(lowercase(searched_name(f.full_path@)));
            } else if has_infix(lowercase(searched_name(f.full_path@)), lowercase(t2)) {
                lemma_infix_transitive(
                    lowercase(searched_name(f.full_path@)),
                    lowercase(t2),
                    lowercase(t1),
                );
            } else {
                lemma_infix_transitive(lowercase(f.extenstion@), lowercase(t2), lowercase(t1));
            }
        }
    }
    lemma_filter_of_filter(files, found_by(t1), found_by(t2));
}

/// The rows of the list and the entries that it stores, after a folder is
/// listed again: emptied first when `clear_first`; then, when
/// `folders_only`, the folders of `files` are added to both, else `files`
/// are added to the entries and every entry is added to the rows.
pub open spec fn reload_list(
    rows: Seq<FilePlus>,
    stored: Seq<FilePlus>,
    clear_first: bool,
    folders_only: bool,
    files: Seq<FilePlus>,
    is_dir: Seq<bool>,
) -> (Seq<FilePlus>, Seq<FilePlus>) {
    let r0 = if clear_first {
        Seq::<FilePlus>::empty()
    } else {
        rows
    };
    let s0 = if clear_first {
        Seq::<FilePlus>::empty()
    } else {
        stored
    };
    if folders_only {
        (r0 + folders_of(files, is_dir), s0 + folders_of(files, is_dir))
    } else {
        (r0 + (s0 + files), s0 + files)
    }
}

/// The list: the files its rows show, in order, and the entries it stores,
/// which the selected and activated rows are looked up in.
pub struct ListScreen {
    pub rows: Vec<FilePlus>,
    pub stored: Vec<FilePlus>,
}

/// Copies of the files `v`.
fn copy_files(v: &Vec<FilePlus>) -> (r: Vec<FilePlus>)
    ensures
        r@ == v@,
{
    let mut r: Vec<FilePlus> = Vec::new();
    let n = v.len();
    let mut i: usize = 0;
    while i < n
        invariant
            n == v@.len(),
            i <= n,
            r@ == v@.take(i as int),
        decreases n - i,
    {
        r.push(v[i].clone());
        assert(r@ =~= v@.take(i + 1));
        i += 1;
    }
    assert(v@.take(n as int) =~= v@);
    r
}

impl ListScreen {
    /// The list as it starts: a row for each file, and the files stored.
    pub fn new(files: &Vec<FilePlus>) -> (s: ListScreen)
        ensures
            s.rows@ == files@,
            s.stored@ == files@,
    {
        ListScreen { rows: copy_files(files), stored: copy_files(files) }
    }

    /// Empties the list: no rows and no entries.
    pub fn clear(&mut self)
        ensures
            final(self).rows@ == Seq::<FilePlus>::empty(),
            final(self).stored@ == Seq::<FilePlus>::empty(),
    {
        self.rows.clear();
        self.stored.clear();
    }

    /// Lists a folder whose files are `files` again (see `reload_list`);
    /// `is_dir` tells for each file whether it is a folder. Returns the rows
    /// that the list gets.
    pub fn reload(
        &mut self,
        clear_first: bool,
        folders_only: bool,
        files: &Vec<FilePlus>,
        is_dir: &Vec<bool>,
    ) -> (added: Vec<FilePlus>)
        requires
            is_dir@.len() == files@.len(),
        ensures
            (final(self).rows@, final(self).stored@) == reload_list(
                old(self).rows@,
                old(self).stored@,
                clear_first,
                folders_only,
                files@,
                is_dir@,
            ),
            final(self).rows@ == (if clear_first {
                Seq::<FilePlus>::empty()
            } else {
                old(self).rows@
            }) + added@,
    {
        if clear_first {
            self.clear();
        }
        let added = if folders_only {
            append_to_screen_selective(files, is_dir, &mut self.stored)
        } else {
            append_to_screen(files, &mut self.stored)
        };
        let ghost before = self.rows@;
        let mut more = copy_files(&added);
        self.rows.append(&mut more);
        assert(self.rows@ =~= before + added@);
        added
    }

    /// Shows the files of `files` that a search for `search_term` finds:
    /// the rows and the entries are both exactly those files. Returns them.
    pub fn search(&mut self, files: &Vec<FilePlus>, search_term: &str) -> (shown: Vec<FilePlus>)
        ensures
            shown@ == files@.filter(found_by(search_term@)),
            final(self).rows@ == shown@,
            final(self).stored@ == shown@,
    {
        let shown = update_screen_with_search(files, search_term, &mut self.stored);
        self.rows = copy_files(&shown);
        shown
    }
}

/// The rows of the list show its entries, one row for each, in order, as
/// long as every new listing empties the list first: listing again keeps
/// the rows matching the entries. Only `S` without a saved folder lists
/// again without emptying first (see `law_only_s_keeps_the_list`), and
/// then the rows repeat the entries.
pub proof fn law_rows_match_entries(
    rows: Seq<FilePlus>,
    stored: Seq<FilePlus>,
    folders_only: bool,
    files: Seq<FilePlus>,
    is_dir: Seq<bool>,
)
    requires
        rows == stored,
    ensures
        reload_list(rows, stored, true, folders_only, files, is_dir).0 == reload_list(
            rows,
            stored,
            true,
            folders_only,
            files,
            is_dir,
        ).1,
{
    assert(Seq::<FilePlus>::empty() + folders_of(files, is_dir) =~= folders_of(files, is_dir));
    assert(Seq::<FilePlus>::empty() + (Seq::<FilePlus>::empty() + files) =~= Seq::<FilePlus>::empty()
        + files);
}

/// A search for a term that is not empty finds a file exactly when the
/// term, in lower case, occurs in the file's name (the last component of
/// its path, or nothing when the path has none) in lower case, or in its
/// extension in lower case.
pub proof fn law_search_looks_at_name_and_extension(file: FilePlus, term: Seq<char>)
    requires
        term.len() > 0,
    ensures
        search_finds(file, term) == (has_infix(
            lowercase(
                match file_name(file.full_path@) {
                    Some(n) => n,
                    None => Seq::<char>::empty(),
                },
            ),
            lowercase(term),
        ) || has_infix(lowercase(file.extenstion@), lowercase(term))),
{
}

/// The folders above a file play no part in a search: two files with the
/// same file name and the same extension are found by the same terms,
/// wherever they lie.
pub proof fn law_search_ignores_folders(f1: FilePlus, f2: FilePlus, term: Seq<char>)
    requires
        file_name(f1.full_path@) == file_name(f2.full_path@),
        f1.extenstion@ == f2.extenstion@,
    ensures
        search_finds(f1, term) == search_finds(f2, term),
{
}

/// The rows that a search shows are the files of the listing that it
/// finds: each of them is in the listing and is found, and each file of
/// the listing that is found is among them.
pub proof fn law_search_rows(files: Seq<FilePlus>, term: Seq<char>)
    ensures
        forall|f: FilePlus| #[trigger]
            files.filter(found_by(term)).contains(f) <==> (files.contains(f) && search_finds(
                f,
                term,
            )),
{
    let pred = found_by(term);
    assert forall|f: FilePlus| #[trigger]
        files.filter(pred).contains(f) <==> (files.contains(f) && search_finds(f, term)) by {
        if files.filter(pred).contains(f) {
            files.lemma_filter_contains_rev(pred, f);
            let k = choose|k: int| 0 <= k < files.filter(pred).len() && files.filter(pred)[k] == f;
            files.lemma_filter_pred(pred, k);
        }
        if files.contains(f) && search_finds(f, term) {
            let i = choose|i: int| 0 <= i < files.len() && files[i] == f;
            files.lemma_filter_contains(pred, i);
        }
    }
}

/// The indices of the entries that `is_dir` marks as folders, in order.
spec fn marked_indices(is_dir: Seq<bool>) -> Seq<int>
    decreases is_dir.len(),
{
    if is_dir.len() == 0 {
        seq![]
    } else {
        marked_indices(is_dir.drop_last()) + if is_dir.last() {
            seq![is_dir.len() - 1]
        } else {
            seq![]
        }
    }
}

/// What `marked_indices` holds, and that the folders of a listing are the
/// entries at those indices.
proof fn lemma_marked_indices(files: Seq<FilePlus>, is_dir: Seq<bool>)
    requires
        is_dir.len() == files.len(),
    ensures
        marked_indices(is_dir).len() == folders_of(files, is_dir).len(),
        forall|k: int|
            0 <= k < marked_indices(is_dir).len() ==> 0 <= #[trigger] marked_indices(is_dir)[k]
                < files.len() && is_dir[marked_indices(is_dir)[k]] && folders_of(files, is_dir)[k]
                == files[marked_indices(is_dir)[k]],
        forall|k: int, l: int|
            0 <= k < l < marked_indices(is_dir).len() ==> #[trigger] marked_indices(is_dir)[k]
                < #[trigger] marked_indices(is_dir)[l],
        forall|i: int|
            0 <= i < files.len() && is_dir[i] ==> #[trigger] marked_indices(is_dir).contains(i),
    decreases files.len(),
{
    if files.len() > 0 {
        let n = files.len() - 1;
        assert(is_dir.take(n) =~= is_dir.drop_last());
        lemma_marked_indices(files.drop_last(), is_dir.drop_last());
        let prev = marked_indices(is_dir.drop_last());
        assert forall|i: int| 0 <= i < files.len() && is_dir[i] implies #[trigger]
            marked_indices(is_dir).contains(i) by {
            if i < n {
                assert(is_dir.drop_last()[i] == is_dir[i]);
                assert(prev.contains(i));
                let k = choose|k: int| 0 <= k < prev.len() && prev[k] == i;
                assert(marked_indices(is_dir)[k] == i);
            } else {
                assert(marked_indices(is_dir)[prev.len() as int] == i);
            }
        }
    }
}

/// The rows that folders-only mode adds are exactly the entries marked as
/// folders, in their order: there are increasing indices, one for each
/// row, of entries marked as folders that are those rows, and every entry
/// marked as a folder has its index among them. An entry not marked as a
/// folder is never a row on that account.
pub proof fn law_folders_are_the_marked_entries(files: Seq<FilePlus>, is_dir: Seq<bool>)
    requires
        is_dir.len() == files.len(),
    ensures
        exists|idx: Seq<int>|
            #![trigger idx.len()]
            {
                &&& idx.len() == folders_of(files, is_dir).len()
                &&& forall|k: int|
                    0 <= k < idx.len() ==> 0 <= #[trigger] idx[k] < files.len() && is_dir[idx[k]]
                        && folders_of(files, is_dir)[k] == files[idx[k]]
                &&& forall|k: int, l: int|
                    0 <= k < l < idx.len() ==> #[trigger] idx[k] < #[trigger] idx[l]
                &&& forall|i: int| 0 <= i < files.len() && is_dir[i] ==> #[trigger] idx.contains(i)
            },
        (forall|i: int| 0 <= i < is_dir.len() ==> !is_dir[i]) ==> folders_of(files, is_dir)
            == Seq::<FilePlus>::empty(),
        (forall|i: int| 0 <= i < is_dir.len() ==> is_dir[i]) ==> folders_of(files, is_dir)
            == files,
{
    lemma_marked_indices(files, is_dir);
    let idx = marked_indices(is_dir);
    assert(idx.len() == folders_of(files, is_dir).len());
    if forall|i: int| 0 <= i < is_dir.len() ==> !is_dir[i] {
        if idx.len() > 0 {
            assert(is_dir[idx[0]]);
        }
        assert(folders_of(files, is_dir) =~= Seq::<FilePlus>::empty());
    }
    if forall|i: int| 0 <= i < is_dir.len() ==> is_dir[i] {
        lemma_all_marked(files, is_dir);
    }
}

/// With every entry marked as a folder, every entry is a row.
proof fn lemma_all_marked(files: Seq<FilePlus>, is_dir: Seq<bool>)
    requires
        is_dir.len() == files.len(),
        forall|i: int| 0 <= i < is_dir.len() ==> is_dir[i],
    ensures
        folders_of(files, is_dir) == files,
    decreases files.len(),
{
    if files.len() > 0 {
        let n = files.len() - 1;
        assert(is_dir.take(n) =~= is_dir.drop_last());
        lemma_all_marked(files.drop_last(), is_dir.drop_last());
        assert(files =~= files.drop_last() + seq![files.last()]);
    }
}

/// The text of a row is the file name of its path, or the whole path when
/// that has none; `*diremoji` follows it for a folder and only for one.
pub proof fn law_row_text(path: Seq<char>)
    ensures
        row_text(path, false) == match file_name(path) {
            Some(n) => n,
            None => path,
        },
        row_text(path, true) == row_text(path, false) + "*diremoji"@,
{
    assert(row_text(path, false) =~= match file_name(path) {
        Some(n) => n,
        None => path,
    });
}

} // verus!
