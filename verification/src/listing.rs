//! Listings of folders: a file with its extension, the files of one
//! folder in order, and the files of a folder tree whose extension is
//! wanted.
use vstd::prelude::*;
use crate::order::{
    OrderKey, SortKey, Sortable, is_sorted, key_of, key_before, lemma_filter_keeps_sorted,
    lemma_stable_sorted_is_sorted, lemma_stable_sorted_permutation, lemma_filter_of_filter,
    lemma_filter_all, lemma_sort_filter_commute, lemma_sorted_unique, lemma_stable_sorted_contains, lemma_stable_sorted_map,
    sort_stable, stable_sorted,
};
use crate::path::{
    Order, compare_components, components, components_of, extension,
    lemma_chars_before_irreflexive, path_extension,
};
use vstd::std_specs::cmp::PartialEqSpecImpl;
use crate::text::{chars_of, ends_with, has_suffix, lemma_suffix_transitive};

verus! {

/// A file as a listing shows it: its path, and its extension (`DONOT` for a
/// path without one). Two files are equal when their paths have the same
/// components and their extensions the same characters.
#[derive(Debug, Eq)]
pub struct FilePlus {
    pub full_path: String,
    pub extenstion: String,
}

impl Clone for FilePlus {
    fn clone(&self) -> (r: Self)
        ensures
            r == *self,
    {
        FilePlus { full_path: self.full_path.clone(), extenstion: self.extenstion.clone() }
    }
}

impl PartialEq for FilePlus {
    fn eq(&self, other: &Self) -> (r: bool) {
        let a = components_of(&chars_of(self.full_path.as_str()));
        let b = components_of(&chars_of(other.full_path.as_str()));
        match compare_components(&a, &b) {
            Order::Equal => self.extenstion == other.extenstion,
            _ => false,
        }
    }
}

impl PartialEqSpecImpl for FilePlus {
    open spec fn obeys_eq_spec() -> bool {
        true
    }

    open spec fn eq_spec(&self, other: &Self) -> bool {
        components(self.full_path@) == components(other.full_path@) && self.extenstion@
            == other.extenstion@
    }
}

/// What a listed file is: the characters of its path and of its extension.
pub struct FileView {
    pub path: Seq<char>,
    pub ext: Seq<char>,
}

impl View for FilePlus {
    type V = FileView;

    open spec fn view(&self) -> FileView {
        FileView { path: self.full_path@, ext: self.extenstion@ }
    }
}

/// The extension that a listing shows for the path `p`: its extension, or
/// `DONOT` when it has none.
pub open spec fn extension_or_marker(p: Seq<char>) -> Seq<char> {
    match extension(p) {
        Some(e) => e,
        None => "DONOT"@,
    }
}

/// The listed file for the path `p`.
pub open spec fn file_view(p: Seq<char>) -> FileView {
    FileView { path: p, ext: extension_or_marker(p) }
}

/// What a sequence of listed files is.
pub open spec fn files_view(s: Seq<FilePlus>) -> Seq<FileView> {
    s.map_values(|f: FilePlus| f@)
}

/// The listed files for the paths `paths`, one for each, in order.
pub open spec fn files_for(paths: Seq<Seq<char>>) -> Seq<FileView> {
    paths.map_values(|p: Seq<char>| file_view(p))
}

/// The characters of a sequence of paths.
pub open spec fn paths_view(s: Seq<String>) -> Seq<Seq<char>> {
    s.map_values(|p: String| p@)
}

/// Paths sort by their components alone.
pub open spec fn path_key() -> spec_fn(Seq<char>) -> SortKey {
    |p: Seq<char>| SortKey { comps: components(p), tie: seq![] }
}

/// Listed files sort by the components of their path, then by their
/// extension.
pub open spec fn file_key() -> spec_fn(FileView) -> SortKey {
    |v: FileView| SortKey { comps: components(v.path), tie: v.ext }
}

impl Sortable for String {
    open spec fn sort_key(&self) -> SortKey {
        SortKey { comps: components(self@), tie: seq![] }
    }

    fn order_key(&self) -> (k: OrderKey) {
        let chars = chars_of(self.as_str());
        OrderKey { comps: components_of(&chars), tie: Vec::new() }
    }
}

impl Sortable for FilePlus {
    open spec fn sort_key(&self) -> SortKey {
        SortKey { comps: components(self.full_path@), tie: self.extenstion@ }
    }

    fn order_key(&self) -> (k: OrderKey) {
        let chars = chars_of(self.full_path.as_str());
        OrderKey { comps: components_of(&chars), tie: chars_of(self.extenstion.as_str()) }
    }
}

/// Sorting paths and then reading their characters gives the characters
/// sorted by path.
pub proof fn lemma_sorted_paths_view(s: Seq<String>)
    ensures
        paths_view(stable_sorted(s, key_of::<String>())) == stable_sorted(paths_view(s), path_key()),
{
    let f = |p: String| p@;
    assert forall|p: String| #[trigger] path_key()(f(p)) == key_of::<String>()(p) by {}
    lemma_stable_sorted_map(s, f, key_of::<String>(), path_key());
}

/// Sorting listed files and then viewing them gives the views sorted.
pub proof fn lemma_sorted_files_view(s: Seq<FilePlus>)
    ensures
        files_view(stable_sorted(s, key_of::<FilePlus>())) == stable_sorted(files_view(s), file_key()),
{
    let f = |x: FilePlus| x@;
    assert forall|x: FilePlus| #[trigger] file_key()(f(x)) == key_of::<FilePlus>()(x) by {}
    lemma_stable_sorted_map(s, f, key_of::<FilePlus>(), file_key());
}

/// The listed file for one path.
pub fn file_plus(path: &String) -> (r: FilePlus)
    ensures
        r@ == file_view(path@),
{
    let extenstion = match path_extension(path.as_str()) {
        Some(e) => e,
        None => String::from_str("DONOT"),
    };
    FilePlus { full_path: path.clone(), extenstion }
}

/// The listed files for the paths `vec`, one for each, in order.
pub fn check_dupes_comp(vec: &[String]) -> (r: Vec<FilePlus>)
    ensures
        files_view(r@) == files_for(paths_view(vec@)),
{
    let mut fp_vec: Vec<FilePlus> = Vec::new();
    let n = vec.len();
    let mut i: usize = 0;
    while i < n
        invariant
            n == vec@.len(),
            i <= n,
            fp_vec@.len() == i,
            forall|k: int| 0 <= k < i ==> #[trigger] fp_vec@[k]@ == file_view(vec@[k]@),
        decreases n - i,
    {
        let f = file_plus(&vec[i]);
        fp_vec.push(f);
        i += 1;
    }
    assert(files_view(fp_vec@) =~= files_for(paths_view(vec@)));
    fp_vec
}

/// The listed files of one folder whose entries are `entries`: every entry,
/// sorted by path.
pub fn list_self_dir(entries: Vec<String>) -> (r: Vec<FilePlus>)
    ensures
        files_view(r@) == files_for(stable_sorted(paths_view(entries@), path_key())),
{
    let udo = sort_stable(entries);
    proof {
        lemma_sorted_paths_view(entries@);
    }
    check_dupes_comp(udo.as_slice())
}

/// A folder as it was read: the paths of its entries that are not folders,
/// in the order in which they were read, and, read in turn, the folders
/// among its entries.
pub struct DirTree {
    pub files: Vec<String>,
    pub subdirs: Vec<DirTree>,
}

/// A listing shows a file whose extension ends with the wanted one, or,
/// where pictures are shown too, with `png`.
pub open spec fn shows_extension(ext: Seq<char>, wanted: Seq<char>, also_png: bool) -> bool {
    has_suffix(ext, wanted) || (also_png && has_suffix(ext, "png"@))
}

/// The test of `shows_extension` on a listed file, as a function.
pub open spec fn shown_by(wanted: Seq<char>, also_png: bool) -> spec_fn(FileView) -> bool {
    |v: FileView| shows_extension(v.ext, wanted, also_png)
}

/// What a folder shows of its own files: those with a wanted extension,
/// sorted by path.
pub open spec fn own_listing(files: Seq<Seq<char>>, wanted: Seq<char>, also_png: bool) -> Seq<
    FileView,
> {
    files_for(stable_sorted(files, path_key())).filter(shown_by(wanted, also_png))
}

/// What the folder `t` lists: its own files with a wanted extension, sorted
/// by path; then, unless `dir` keeps the listing to the folder itself, what
/// its folders list, all of it sorted by path and extension.
pub open spec fn tree_listing(t: DirTree, wanted: Seq<char>, also_png: bool, dir: bool) -> Seq<
    FileView,
>
    decreases t,
{
    own_listing(paths_view(t.files@), wanted, also_png) + if dir {
        seq![]
    } else {
        stable_sorted(nested_listing(t.subdirs@, wanted, also_png), file_key())
    }
}

/// What the folders `ds` list, one after the other, each with its folders.
pub open spec fn nested_listing(ds: Seq<DirTree>, wanted: Seq<char>, also_png: bool) -> Seq<
    FileView,
>
    decreases ds,
{
    if ds.len() == 0 {
        seq![]
    } else {
        nested_listing(ds.drop_last(), wanted, also_png) + tree_listing(
            ds.last(),
            wanted,
            also_png,
            false,
        )
    }
}

/// Copies of the strings `v`.
fn copy_strings(v: &Vec<String>) -> (r: Vec<String>)
    ensures
        r@ == v@,
{
    let mut r: Vec<String> = Vec::new();
    let n = v.len();
    let mut i: usize = 0;
    while i < n
        invariant
            n == v@.len(),
            i <= n,
            r@ == v@.take(i as int),
        decreases n - i,
    {
        r.push(v[i].clone());
        assert(r@ =~= v@.take(i + 1));
        i += 1;
    }
    assert(v@.take(n as int) =~= v@);
    r
}

/// The files of `fp` with a wanted extension, in order.
fn keep_shown(fp: &Vec<FilePlus>, wanted: &str, also_png: bool) -> (r: Vec<FilePlus>)
    ensures
        files_view(r@) == files_view(fp@).filter(shown_by(wanted@, also_png)),
{
    let ghost pred = shown_by(wanted@, also_png);
    let mut r: Vec<FilePlus> = Vec::new();
    let n = fp.len();
    let mut i: usize = 0;
    while i < n
        invariant
            n == fp@.len(),
            i <= n,
            pred == shown_by(wanted@, also_png),
            files_view(r@) == files_view(fp@.take(i as int)).filter(pred),
        decreases n - i,
    {
        let ghost before = files_view(fp@.take(i as int));
        assert(files_view(fp@.take(i + 1)) =~= before.push(fp@[i as int]@));
        proof {
            before.lemma_filter_push(fp@[i as int]@, pred);
        }
        let ext = fp[i].extenstion.as_str();
        if ends_with(ext, wanted) || (also_png && ends_with(ext, "png")) {
            let f = fp[i].clone();
            r.push(f);
            assert(files_view(r@) =~= before.filter(pred).push(fp@[i as int]@));
        } else {
            assert(files_view(r@) =~= before.filter(pred));
        }
        i += 1;
    }
    assert(fp@.take(n as int) =~= fp@);
    r
}

/// What the folder `tree` lists (see `tree_listing`).
pub(crate) fn list_tree(tree: &DirTree, wanted: &str, also_png: bool, dir: bool) -> (r: Vec<
    FilePlus,
>)
    ensures
        files_view(r@) == tree_listing(*tree, wanted@, also_png, dir),
    decreases tree,
{
    let files_clone = sort_stable(copy_strings(&tree.files));
    proof {
        lemma_sorted_paths_view(tree.files@);
    }
    let fp = check_dupes_comp(files_clone.as_slice());
    let mut all_this = keep_shown(&fp, wanted, also_png);
    if !dir {
        let more = walk_tree(&tree.subdirs, wanted, also_png);
        let ghost more_view = more@;
        let mut ddidy = sort_stable(more);
        proof {
            lemma_sorted_files_view(more_view);
        }
        let ghost own = all_this@;
        all_this.append(&mut ddidy);
        assert(files_view(all_this@) =~= files_view(own) + files_view(
            stable_sorted(more_view, key_of::<FilePlus>()),
        ));
    } else {
        assert(files_view(all_this@) =~= files_view(all_this@) + seq![]);
    }
    all_this
}

/// What the folders `dirs` list, one after the other (see `nested_listing`).
pub(crate) fn walk_tree(dirs: &Vec<DirTree>, wanted: &str, also_png: bool) -> (r: Vec<FilePlus>)
    ensures
        files_view(r@) == nested_listing(dirs@, wanted@, also_png),
    decreases dirs,
{
    let mut r: Vec<FilePlus> = Vec::new();
    let n = dirs.len();
    let mut i: usize = 0;
    assert(dirs@.take(0) =~= Seq::<DirTree>::empty());
    while i < n
        invariant
            n == dirs@.len(),
            i <= n,
            files_view(r@) == nested_listing(dirs@.take(i as int), wanted@, also_png),
        decreases n - i,
    {
        let mut sub = list_tree(&dirs[i], wanted, also_png, false);
        let ghost old_r = r@;
        let ghost sub_view = sub@;
        r.append(&mut sub);
        assert(dirs@.take(i + 1).drop_last() =~= dirs@.take(i as int));
        assert(dirs@.take(i + 1).last() == dirs@[i as int]);
        assert(files_view(r@) =~= files_view(old_r) + files_view(sub_view));
        i += 1;
    }
    assert(dirs@.take(n as int) =~= dirs@);
    r
}

/// The files of the folder `tree` whose extension ends with `extention`,
/// sorted by path; unless `dir` is set, followed by those of all the
/// folders below it, sorted by path and extension (see `tree_listing`).
pub fn dir_list_one(tree: &DirTree, extention: &str, dir: bool) -> (r: Vec<FilePlus>)
    ensures
        files_view(r@) == tree_listing(*tree, extention@, false, dir),
{
    list_tree(tree, extention, false, dir)
}

/// The files of the folders `dirs` and of all the folders below them whose
/// extension ends with `ext`, the listing of each folder after the other
/// (see `nested_listing`).
pub fn walk_dir(dirs: &Vec<DirTree>, ext: &str) -> (r: Vec<FilePlus>)
    ensures
        files_view(r@) == nested_listing(dirs@, ext@, false),
{
    walk_tree(dirs, ext, false)
}

/// A listed file as a listing shows it: its extension is the one of its
/// path, and it is wanted.
pub open spec fn properly_listed(v: FileView, wanted: Seq<char>, also_png: bool) -> bool {
    v == file_view(v.path) && shows_extension(v.ext, wanted, also_png)
}

/// What a folder shows of its own files is wanted, each with the extension
/// of its path; and each of its files that is wanted is shown.
pub proof fn law_own_listing_exact(files: Seq<Seq<char>>, wanted: Seq<char>, also_png: bool)
    ensures
        forall|v: FileView| #[trigger]
            own_listing(files, wanted, also_png).contains(v) ==> properly_listed(
                v,
                wanted,
                also_png,
            ) && files.contains(v.path),
        forall|p: Seq<char>|
            files.contains(p) && shows_extension(extension_or_marker(p), wanted, also_png)
                ==> #[trigger] own_listing(files, wanted, also_png).contains(file_view(p)),
{
    broadcast use vstd::seq_lib::group_filter_ensures;

    let sorted = stable_sorted(files, path_key());
    let all = files_for(sorted);
    let pred = shown_by(wanted, also_png);
    assert forall|v: FileView| #[trigger]
        own_listing(files, wanted, also_png).contains(v) implies properly_listed(
        v,
        wanted,
        also_png,
    ) && files.contains(v.path) by {
        all.lemma_filter_contains_rev(pred, v);
        let k = choose|k: int| 0 <= k < all.len() && all[k] == v;
        let i = choose|i: int| 0 <= i < all.filter(pred).len() && all.filter(pred)[i] == v;
        all.lemma_filter_pred(pred, i);
        assert(sorted.contains(sorted[k]));
        lemma_stable_sorted_contains(files, path_key(), sorted[k]);
    }
    assert forall|p: Seq<char>|
        files.contains(p) && shows_extension(extension_or_marker(p), wanted, also_png)
            implies #[trigger] own_listing(files, wanted, also_png).contains(file_view(p)) by {
        lemma_stable_sorted_contains(files, path_key(), p);
        let k = choose|k: int| 0 <= k < sorted.len() && sorted[k] == p;
        assert(all[k] == file_view(p));
        all.lemma_filter_contains(pred, k);
    }
}

/// Every file that a folder lists, with or without the folders below it,
/// is wanted, and its extension is the one of its path.
pub proof fn law_listed_files_wanted(t: DirTree, wanted: Seq<char>, also_png: bool, dir: bool)
    ensures
        forall|v: FileView| #[trigger]
            tree_listing(t, wanted, also_png, dir).contains(v) ==> properly_listed(
                v,
                wanted,
                also_png,
            ),
    decreases t,
{
    let own = own_listing(paths_view(t.files@), wanted, also_png);
    law_own_listing_exact(paths_view(t.files@), wanted, also_png);
    let nested = nested_listing(t.subdirs@, wanted, also_png);
    if !dir {
        law_nested_files_wanted(t.subdirs@, wanted, also_png);
    }
    assert forall|v: FileView| #[trigger]
        tree_listing(t, wanted, also_png, dir).contains(v) implies properly_listed(
        v,
        wanted,
        also_png,
    ) by {
        let all = tree_listing(t, wanted, also_png, dir);
        let i = choose|i: int| 0 <= i < all.len() && all[i] == v;
        if i < own.len() {
            assert(own.contains(own[i]));
        } else {
            let rest = stable_sorted(nested, file_key());
            assert(rest[i - own.len()] == v);
            assert(rest.contains(v));
            lemma_stable_sorted_contains(nested, file_key(), v);
        }
    }
}

/// Every file that the folders `ds` list is wanted, and its extension is
/// the one of its path.
pub proof fn law_nested_files_wanted(ds: Seq<DirTree>, wanted: Seq<char>, also_png: bool)
    ensures
        forall|v: FileView| #[trigger]
            nested_listing(ds, wanted, also_png).contains(v) ==> properly_listed(
                v,
                wanted,
                also_png,
            ),
    decreases ds,
{
    if ds.len() > 0 {
        law_nested_files_wanted(ds.drop_last(), wanted, also_png);
        law_listed_files_wanted(ds.last(), wanted, also_png, false);
        let front = nested_listing(ds.drop_last(), wanted, also_png);
        let back = tree_listing(ds.last(), wanted, also_png, false);
        assert forall|v: FileView| #[trigger]
            nested_listing(ds, wanted, also_png).contains(v) implies properly_listed(
            v,
            wanted,
            also_png,
        ) by {
            let all = nested_listing(ds, wanted, also_png);
            let i = choose|i: int| 0 <= i < all.len() && all[i] == v;
            if i < front.len() {
                assert(front.contains(front[i]));
            } else {
                assert(back[i - front.len()] == v);
                assert(back.contains(v));
            }
        }
    }
}

/// A folder listed by itself shows just its own wanted files: the folders
/// below it do not count.
pub proof fn law_dir_keeps_to_folder(t: DirTree, wanted: Seq<char>, also_png: bool)
    ensures
        tree_listing(t, wanted, also_png, true) == own_listing(
            paths_view(t.files@),
            wanted,
            also_png,
        ),
{
    assert(tree_listing(t, wanted, also_png, true) =~= own_listing(
        paths_view(t.files@),
        wanted,
        also_png,
    ));
}

/// A folder with no folders below it lists the same whether or not the
/// listing keeps to the folder.
pub proof fn law_leaf_folder_same_either_way(t: DirTree, wanted: Seq<char>, also_png: bool)
    requires
        t.subdirs@.len() == 0,
    ensures
        tree_listing(t, wanted, also_png, false) == tree_listing(t, wanted, also_png, true),
{
    assert(nested_listing(t.subdirs@, wanted, also_png) =~= Seq::<FileView>::empty());
    assert(stable_sorted(Seq::<FileView>::empty(), file_key()) =~= Seq::<FileView>::empty());
    assert(tree_listing(t, wanted, also_png, false) =~= tree_listing(t, wanted, also_png, true));
}

/// A folder's own files come sorted by path, and so do the files of the
/// folders below it, after them.
pub proof fn law_listing_sorted(t: DirTree, wanted: Seq<char>, also_png: bool, dir: bool)
    ensures
        is_sorted(own_listing(paths_view(t.files@), wanted, also_png), file_key()),
        is_sorted(
            tree_listing(t, wanted, also_png, dir).skip(
                own_listing(paths_view(t.files@), wanted, also_png).len() as int,
            ),
            file_key(),
        ),
{
    let paths = paths_view(t.files@);
    let sorted = stable_sorted(paths, path_key());
    lemma_stable_sorted_is_sorted(paths, path_key());
    let all = files_for(sorted);
    assert forall|i: int, j: int| 0 <= i < j < all.len() implies !key_before(
        #[trigger] file_key()(all[j]),
        #[trigger] file_key()(all[i]),
    ) by {
        assert(!key_before(path_key()(sorted[j]), path_key()(sorted[i])));
        lemma_chars_before_irreflexive(extension_or_marker(sorted[i]));
    }
    lemma_filter_keeps_sorted(all, shown_by(wanted, also_png), file_key());
    let own = own_listing(paths, wanted, also_png);
    let rest = tree_listing(t, wanted, also_png, dir).skip(own.len() as int);
    if dir {
        assert(rest =~= Seq::<FileView>::empty());
    } else {
        let nested = nested_listing(t.subdirs@, wanted, also_png);
        assert(rest =~= stable_sorted(nested, file_key()));
        lemma_stable_sorted_is_sorted(nested, file_key());
    }
}

/// The files of one folder list every entry once, sorted by path.
pub proof fn law_self_dir_complete_and_sorted(paths: Seq<Seq<char>>)
    ensures
        files_for(stable_sorted(paths, path_key())).len() == paths.len(),
        stable_sorted(paths, path_key()).to_multiset() == paths.to_multiset(),
        is_sorted(stable_sorted(paths, path_key()), path_key()),
        forall|i: int|
            0 <= i < paths.len() ==> #[trigger] files_for(stable_sorted(paths, path_key()))[i]
                == file_view(stable_sorted(paths, path_key())[i]),
{
    lemma_stable_sorted_permutation(paths, path_key());
    lemma_stable_sorted_is_sorted(paths, path_key());
}

/// The paths of every file of the folder `t` and of the folders below it.
pub open spec fn all_files(t: DirTree) -> Seq<Seq<char>>
    decreases t,
{
    paths_view(t.files@) + all_nested_files(t.subdirs@)
}

/// The paths of every file of the folders `ds` and of the folders below them.
pub open spec fn all_nested_files(ds: Seq<DirTree>) -> Seq<Seq<char>>
    decreases ds,
{
    if ds.len() == 0 {
        seq![]
    } else {
        all_nested_files(ds.drop_last()) + all_files(ds.last())
    }
}

/// A folder listed with the folders below it shows exactly the wanted files
/// of all of them: each such file is shown, and each file shown is one.
#[verifier::rlimit(40)]
pub proof fn law_tree_listing_exact(t: DirTree, wanted: Seq<char>, also_png: bool)
    ensures
        forall|q: Seq<char>|
            all_files(t).contains(q) && shows_extension(extension_or_marker(q), wanted, also_png)
                ==> #[trigger] tree_listing(t, wanted, also_png, false).contains(file_view(q)),
        forall|v: FileView| #[trigger]
            tree_listing(t, wanted, also_png, false).contains(v) ==> all_files(t).contains(v.path)
                && properly_listed(v, wanted, also_png),
    decreases t,
{
    let own = own_listing(paths_view(t.files@), wanted, also_png);
    let nested = nested_listing(t.subdirs@, wanted, also_png);
    let rest = stable_sorted(nested, file_key());
    let all = tree_listing(t, wanted, also_png, false);
    let own_files = paths_view(t.files@);
    let deep_files = all_nested_files(t.subdirs@);
    law_own_listing_exact(own_files, wanted, also_png);
    law_nested_listing_exact(t.subdirs@, wanted, also_png);
    law_listed_files_wanted(t, wanted, also_png, false);
    assert(all == own + rest);
    assert(all_files(t) == own_files + deep_files);
    assert forall|q: Seq<char>|
        all_files(t).contains(q) && shows_extension(extension_or_marker(q), wanted, also_png)
            implies #[trigger] all.contains(file_view(q)) by {
        let i = choose|i: int| 0 <= i < all_files(t).len() && all_files(t)[i] == q;
        if i < own_files.len() {
            assert(own_files.contains(q));
            assert(own.contains(file_view(q)));
            let k = choose|k: int| 0 <= k < own.len() && own[k] == file_view(q);
            assert(all[k] == file_view(q));
        } else {
            assert(deep_files[i - own_files.len()] == q);
            assert(deep_files.contains(q));
            assert(nested.contains(file_view(q)));
            lemma_stable_sorted_contains(nested, file_key(), file_view(q));
            let k = choose|k: int| 0 <= k < rest.len() && rest[k] == file_view(q);
            assert(all[own.len() + k] == file_view(q));
        }
    }
    assert forall|v: FileView| #[trigger] all.contains(v) implies all_files(t).contains(v.path) by {
        let i = choose|i: int| 0 <= i < all.len() && all[i] == v;
        if i < own.len() {
            assert(own.contains(v));
            let k = choose|k: int| 0 <= k < own_files.len() && own_files[k] == v.path;
            assert(all_files(t)[k] == v.path);
        } else {
            assert(rest[i - own.len()] == v);
            assert(rest.contains(v));
            lemma_stable_sorted_contains(nested, file_key(), v);
            let k = choose|k: int| 0 <= k < deep_files.len() && deep_files[k] == v.path;
            assert(all_files(t)[own_files.len() + k] == v.path);
        }
    }
}

/// The folders `ds` list exactly the wanted files of all of them and of the
/// folders below them.
#[verifier::rlimit(40)]
pub proof fn law_nested_listing_exact(ds: Seq<DirTree>, wanted: Seq<char>, also_png: bool)
    ensures
        forall|q: Seq<char>|
            all_nested_files(ds).contains(q) && shows_extension(
                extension_or_marker(q),
                wanted,
                also_png,
            ) ==> #[trigger] nested_listing(ds, wanted, also_png).contains(file_view(q)),
        forall|v: FileView| #[trigger]
            nested_listing(ds, wanted, also_png).contains(v) ==> all_nested_files(ds).contains(
                v.path,
            ),
    decreases ds,
{
    if ds.len() > 0 {
        law_nested_listing_exact(ds.drop_last(), wanted, also_png);
        law_tree_listing_exact(ds.last(), wanted, also_png);
        let front = nested_listing(ds.drop_last(), wanted, also_png);
        let back = tree_listing(ds.last(), wanted, also_png, false);
        let front_files = all_nested_files(ds.drop_last());
        let back_files = all_files(ds.last());
        let all = nested_listing(ds, wanted, also_png);
        let files = all_nested_files(ds);
        assert(all == front + back);
        assert(files == front_files + back_files);
        assert forall|q: Seq<char>|
            files.contains(q) && shows_extension(extension_or_marker(q), wanted, also_png)
                implies #[trigger] all.contains(file_view(q)) by {
            let i = choose|i: int| 0 <= i < files.len() && files[i] == q;
            if i < front_files.len() {
                assert(front_files.contains(q));
                assert(front.contains(file_view(q)));
                let k = choose|k: int| 0 <= k < front.len() && front[k] == file_view(q);
                assert(all[k] == file_view(q));
            } else {
                assert(back_files[i - front_files.len()] == q);
                assert(back_files.contains(q));
                assert(back.contains(file_view(q)));
                let k = choose|k: int| 0 <= k < back.len() && back[k] == file_view(q);
                assert(all[front.len() + k] == file_view(q));
            }
        }
        assert forall|v: FileView| #[trigger] all.contains(v) implies files.contains(v.path) by {
            let i = choose|i: int| 0 <= i < all.len() && all[i] == v;
            if i < front.len() {
                assert(front.contains(v));
                let k = choose|k: int| 0 <= k < front_files.len() && front_files[k] == v.path;
                assert(files[k] == v.path);
            } else {
                assert(back[i - front.len()] == v);
                assert(back.contains(v));
                let k = choose|k: int| 0 <= k < back_files.len() && back_files[k] == v.path;
                assert(files[front_files.len() + k] == v.path);
            }
        }
    }
}

/// A listing without pictures keeps, of what the browser lists, the files
/// whose extension ends with the wanted one; the two are the same when
/// `png` itself ends with the wanted extension.
pub proof fn law_listing_without_png(t: DirTree, wanted: Seq<char>, dir: bool)
    ensures
        tree_listing(t, wanted, false, dir) == tree_listing(t, wanted, true, dir).filter(
            shown_by(wanted, false),
        ),
        has_suffix("png"@, wanted) ==> tree_listing(t, wanted, false, dir) == tree_listing(
            t,
            wanted,
            true,
            dir,
        ),
    decreases t,
{
    let pf = shown_by(wanted, false);
    let pt = shown_by(wanted, true);
    let all = files_for(stable_sorted(paths_view(t.files@), path_key()));
    lemma_filter_of_filter(all, pt, pf);
    let own_t = own_listing(paths_view(t.files@), wanted, true);
    let own_f = own_listing(paths_view(t.files@), wanted, false);
    assert(own_f == own_t.filter(pf));
    let rest_t = if dir {
        Seq::<FileView>::empty()
    } else {
        stable_sorted(nested_listing(t.subdirs@, wanted, true), file_key())
    };
    let rest_f = if dir {
        Seq::<FileView>::empty()
    } else {
        stable_sorted(nested_listing(t.subdirs@, wanted, false), file_key())
    };
    if dir {
        reveal(Seq::filter);
        assert(rest_t.filter(pf) =~= rest_f);
    } else {
        law_nested_without_png(t.subdirs@, wanted);
        lemma_sort_filter_commute(nested_listing(t.subdirs@, wanted, true), pf, file_key());
    }
    assert(rest_f == rest_t.filter(pf));
    Seq::filter_distributes_over_add(own_t, rest_t, pf);
    assert(tree_listing(t, wanted, false, dir) == own_f + rest_f);
    assert(tree_listing(t, wanted, true, dir) == own_t + rest_t);
    if has_suffix("png"@, wanted) {
        let listing = tree_listing(t, wanted, true, dir);
        law_listed_files_wanted(t, wanted, true, dir);
        assert forall|i: int| 0 <= i < listing.len() implies #[trigger] pf(listing[i]) by {
            assert(listing.contains(listing[i]));
            if has_suffix(listing[i].ext, "png"@) {
                lemma_suffix_transitive(listing[i].ext, "png"@, wanted);
            }
        }
        lemma_filter_all(listing, pf);
    }
}

/// The folders `ds` list without pictures what they list with them, less
/// the files whose extension does not end with the wanted one.
pub proof fn law_nested_without_png(ds: Seq<DirTree>, wanted: Seq<char>)
    ensures
        nested_listing(ds, wanted, false) == nested_listing(ds, wanted, true).filter(
            shown_by(wanted, false),
        ),
    decreases ds,
{
    let pf = shown_by(wanted, false);
    if ds.len() == 0 {
        reveal(Seq::filter);
        assert(nested_listing(ds, wanted, true).filter(pf) =~= Seq::<FileView>::empty());
    } else {
        law_nested_without_png(ds.drop_last(), wanted);
        law_listing_without_png(ds.last(), wanted, false);
        Seq::filter_distributes_over_add(
            nested_listing(ds.drop_last(), wanted, true),
            tree_listing(ds.last(), wanted, true, false),
            pf,
        );
    }
}

/// Listing the folders `ds1` and then `ds2` together lists what each group
/// lists, one after the other.
pub proof fn law_walk_dir_concat(ds1: Seq<DirTree>, ds2: Seq<DirTree>, wanted: Seq<char>, also_png: bool)
    ensures
        nested_listing(ds1 + ds2, wanted, also_png) == nested_listing(ds1, wanted, also_png)
            + nested_listing(ds2, wanted, also_png),
    decreases ds2.len(),
{
    if ds2.len() == 0 {
        assert(ds1 + ds2 =~= ds1);
        assert(nested_listing(ds1, wanted, also_png) + nested_listing(ds2, wanted, also_png)
            =~= nested_listing(ds1, wanted, also_png));
    } else {
        law_walk_dir_concat(ds1, ds2.drop_last(), wanted, also_png);
        assert((ds1 + ds2).drop_last() =~= ds1 + ds2.drop_last());
        assert((ds1 + ds2).last() == ds2.last());
        assert(nested_listing(ds1 + ds2, wanted, also_png) =~= nested_listing(ds1, wanted, also_png)
            + nested_listing(ds2, wanted, also_png));
    }
}

/// The listing of one folder does not depend on the order in which its
/// entries were read, when no two different entries have the same
/// components (as the entries of one folder never do).
pub proof fn law_self_dir_ignores_read_order(a: Seq<Seq<char>>, b: Seq<Seq<char>>)
    requires
        a.to_multiset() == b.to_multiset(),
        forall|p: Seq<char>, q: Seq<char>|
            a.contains(p) && a.contains(q) && components(p) == components(q) ==> p == q,
    ensures
        files_for(stable_sorted(a, path_key())) == files_for(stable_sorted(b, path_key())),
{
    let x = stable_sorted(a, path_key());
    let y = stable_sorted(b, path_key());
    lemma_stable_sorted_is_sorted(a, path_key());
    lemma_stable_sorted_is_sorted(b, path_key());
    lemma_stable_sorted_permutation(a, path_key());
    lemma_stable_sorted_permutation(b, path_key());
    assert forall|p: Seq<char>, q: Seq<char>|
        x.contains(p) && x.contains(q) && path_key()(p) == path_key()(q) implies p == q by {
        lemma_stable_sorted_contains(a, path_key(), p);
        lemma_stable_sorted_contains(a, path_key(), q);
    }
    lemma_sorted_unique(x, y, path_key());
}

/// The test that a path is not a folder, where `is_dir` tells which paths
/// are folders.
pub open spec fn not_folder(is_dir: spec_fn(Seq<char>) -> bool) -> spec_fn(Seq<char>) -> bool {
    |q: Seq<char>| !is_dir(q)
}

/// The test that a listed file is not a folder.
pub open spec fn file_not_folder(is_dir: spec_fn(Seq<char>) -> bool) -> spec_fn(FileView) -> bool {
    |v: FileView| !is_dir(v.path)
}

/// Listing the files of some paths keeps the files that are not folders
/// when the paths that are not folders are kept first.
proof fn lemma_files_for_filter(s: Seq<Seq<char>>, is_dir: spec_fn(Seq<char>) -> bool)
    ensures
        files_for(s.filter(not_folder(is_dir))) == files_for(s).filter(file_not_folder(is_dir)),
    decreases s.len(),
{
    reveal(Seq::filter);
    if s.len() > 0 {
        lemma_files_for_filter(s.drop_last(), is_dir);
        assert(files_for(s).drop_last() =~= files_for(s.drop_last()));
        assert(files_for(s).last() == file_view(s.last()));
        let f = s.drop_last().filter(not_folder(is_dir));
        if !is_dir(s.last()) {
            assert(files_for(f.push(s.last())) =~= files_for(f).push(file_view(s.last())));
        }
    } else {
        assert(files_for(s) =~= Seq::<FileView>::empty());
    }
}

/// A folder listed by itself for every extension shows what the listing of
/// all its entries shows of those that are not folders.
pub proof fn law_folder_files_are_self_dir_files(
    t: DirTree,
    entries: Seq<Seq<char>>,
    is_dir: spec_fn(Seq<char>) -> bool,
    also_png: bool,
)
    requires
        paths_view(t.files@) == entries.filter(not_folder(is_dir)),
    ensures
        tree_listing(t, Seq::<char>::empty(), also_png, true) == files_for(
            stable_sorted(entries, path_key()),
        ).filter(file_not_folder(is_dir)),
{
    let files = paths_view(t.files@);
    let all = files_for(stable_sorted(files, path_key()));
    let pred = shown_by(Seq::<char>::empty(), also_png);
    assert forall|i: int| 0 <= i < all.len() implies #[trigger] pred(all[i]) by {
        assert(all[i].ext.skip(all[i].ext.len() as int) =~= Seq::<char>::empty());
    }
    lemma_filter_all(all, pred);
    lemma_sort_filter_commute(entries, not_folder(is_dir), path_key());
    lemma_files_for_filter(stable_sorted(entries, path_key()), is_dir);
    assert(tree_listing(t, Seq::<char>::empty(), also_png, true) =~= all);
}

/// Keeping some entries keeps no entry more often than it was.
proof fn lemma_filter_count<T>(s: Seq<T>, pred: spec_fn(T) -> bool, x: T)
    ensures
        s.filter(pred).to_multiset().count(x) <= s.to_multiset().count(x),
    decreases s.len(),
{
    broadcast use vstd::seq_lib::group_to_multiset_ensures;
    broadcast use vstd::multiset::group_multiset_axioms;

    reveal(Seq::filter);
    if s.len() > 0 {
        lemma_filter_count(s.drop_last(), pred, x);
        assert(s =~= s.drop_last().push(s.last()));
    }
}

/// Listing the files of two groups of paths lists those of the first, then
/// those of the second.
proof fn lemma_files_for_concat(a: Seq<Seq<char>>, b: Seq<Seq<char>>)
    ensures
        files_for(a + b) == files_for(a) + files_for(b),
{
    assert(files_for(a + b) =~= files_for(a) + files_for(b));
}

/// A folder lists no file more often than it occurs among the files of the
/// folder and of the folders below it.
#[verifier::spinoff_prover]
pub proof fn lemma_listing_within_files(t: DirTree, wanted: Seq<char>, also_png: bool, dir: bool)
    ensures
        forall|v: FileView| #[trigger]
            tree_listing(t, wanted, also_png, dir).to_multiset().count(v) <= files_for(
                all_files(t),
            ).to_multiset().count(v),
    decreases t,
{
    broadcast use vstd::multiset::group_multiset_axioms;

    let own_files = paths_view(t.files@);
    let deep = all_nested_files(t.subdirs@);
    let own = own_listing(own_files, wanted, also_png);
    let sorted = stable_sorted(own_files, path_key());
    let nested = nested_listing(t.subdirs@, wanted, also_png);
    let rest = if dir {
        Seq::<FileView>::empty()
    } else {
        stable_sorted(nested, file_key())
    };
    lemma_files_for_concat(own_files, deep);
    vstd::seq_lib::lemma_multiset_commutative(files_for(own_files), files_for(deep));
    vstd::seq_lib::lemma_multiset_commutative(own, rest);
    lemma_stable_sorted_permutation(own_files, path_key());
    lemma_files_for_permutation(sorted, own_files);
    if !dir {
        lemma_nested_within_files(t.subdirs@, wanted, also_png);
        lemma_stable_sorted_permutation(nested, file_key());
    }
    assert(tree_listing(t, wanted, also_png, dir) == own + rest);
    assert forall|v: FileView| #[trigger]
        tree_listing(t, wanted, also_png, dir).to_multiset().count(v) <= files_for(
            all_files(t),
        ).to_multiset().count(v) by {
        lemma_filter_count(files_for(sorted), shown_by(wanted, also_png), v);
        if dir {
            assert(rest.to_multiset().count(v) == 0) by {
                Seq::<FileView>::empty().to_multiset_ensures();
            }
        }
    }
}

/// Listing the files of paths in another order lists the same files as
/// often.
proof fn lemma_files_for_permutation(a: Seq<Seq<char>>, b: Seq<Seq<char>>)
    requires
        a.to_multiset() == b.to_multiset(),
    ensures
        files_for(a).to_multiset() == files_for(b).to_multiset(),
    decreases a.len(),
{
    broadcast use vstd::seq_lib::group_to_multiset_ensures;
    broadcast use vstd::multiset::group_multiset_axioms;

    if a.len() == 0 {
        assert(b.to_multiset().len() == 0);
        assert(b.len() == 0);
        assert(files_for(a) =~= Seq::<FileView>::empty());
        assert(files_for(b) =~= Seq::<FileView>::empty());
    } else {
        let x = a.last();
        assert(a.to_multiset().count(x) > 0) by {
            assert(a.contains(x));
        }
        assert(b.contains(x));
        let j = choose|j: int| 0 <= j < b.len() && b[j] == x;
        let da = a.drop_last();
        let db = b.remove(j);
        assert(a =~= da.push(x));
        assert(da.to_multiset() =~= a.to_multiset().remove(x));
        assert(db.to_multiset() =~= b.to_multiset().remove(x));
        lemma_files_for_permutation(da, db);
        assert(files_for(a) =~= files_for(da).push(file_view(x)));
        assert(files_for(db) =~= files_for(b).remove(j));
        assert(files_for(b)[j] == file_view(x));
        assert(files_for(db).to_multiset() =~= files_for(b).to_multiset().remove(file_view(x)));
        assert(files_for(b).to_multiset().count(file_view(x)) > 0) by {
            assert(files_for(b).contains(file_view(x)));
        }
        assert(files_for(a).to_multiset() =~= files_for(b).to_multiset());
    }
}

/// The folders `ds` list no file more often than it occurs among their
/// files and those of the folders below them.
proof fn lemma_nested_within_files(ds: Seq<DirTree>, wanted: Seq<char>, also_png: bool)
    ensures
        forall|v: FileView| #[trigger]
            nested_listing(ds, wanted, also_png).to_multiset().count(v) <= files_for(
                all_nested_files(ds),
            ).to_multiset().count(v),
    decreases ds,
{
    broadcast use vstd::multiset::group_multiset_axioms;
    broadcast use vstd::seq_lib::group_to_multiset_ensures;

    if ds.len() == 0 {
        assert(files_for(all_nested_files(ds)) =~= Seq::<FileView>::empty());
    } else {
        lemma_nested_within_files(ds.drop_last(), wanted, also_png);
        lemma_listing_within_files(ds.last(), wanted, also_png, false);
        let front = nested_listing(ds.drop_last(), wanted, also_png);
        let back = tree_listing(ds.last(), wanted, also_png, false);
        vstd::seq_lib::lemma_multiset_commutative(front, back);
        lemma_files_for_concat(all_nested_files(ds.drop_last()), all_files(ds.last()));
        vstd::seq_lib::lemma_multiset_commutative(
            files_for(all_nested_files(ds.drop_last())),
            files_for(all_files(ds.last())),
        );
    }
}

/// A folder tree whose files all have different paths lists each path at
/// most once.
pub proof fn law_listing_paths_distinct(t: DirTree, wanted: Seq<char>, also_png: bool, dir: bool)
    requires
        all_files(t).no_duplicates(),
    ensures
        forall|i: int, j: int|
            0 <= i < j < tree_listing(t, wanted, also_png, dir).len() ==> #[trigger] tree_listing(
                t,
                wanted,
                also_png,
                dir,
            )[i].path != #[trigger] tree_listing(t, wanted, also_png, dir)[j].path,
{
    broadcast use vstd::seq_lib::group_to_multiset_ensures;

    let all = files_for(all_files(t));
    let listing = tree_listing(t, wanted, also_png, dir);
    assert(all.no_duplicates()) by {
        assert forall|i: int, j: int| 0 <= i < all.len() && 0 <= j < all.len() && i != j implies all[i]
            != all[j] by {
            assert(all[i].path == all_files(t)[i]);
            assert(all[j].path == all_files(t)[j]);
        }
    }
    all.lemma_multiset_has_no_duplicates();
    lemma_listing_within_files(t, wanted, also_png, dir);
    assert forall|x: FileView| listing.to_multiset().contains(x) implies listing.to_multiset().count(x) == 1 by {
        assert(listing.to_multiset().count(x) <= all.to_multiset().count(x));
        if !all.to_multiset().contains(x) {
            assert(all.to_multiset().count(x) == 0);
        }
    }
    listing.lemma_multiset_has_no_duplicates_conv();
    law_listed_files_wanted(t, wanted, also_png, dir);
    assert forall|i: int, j: int| 0 <= i < j < listing.len() implies #[trigger] listing[i].path
        != #[trigger] listing[j].path by {
        assert(listing.contains(listing[i]));
        assert(listing.contains(listing[j]));
        if listing[i].path == listing[j].path {
            assert(listing[i] == file_view(listing[i].path));
            assert(listing[j] == file_view(listing[j].path));
        }
    }
}

} // verus!
