//! The listings that the browser itself shows: besides the files with the
//! wanted extension, it lists `png` pictures too.
use vstd::prelude::*;
use crate::listing::{DirTree, FilePlus, files_view, list_tree, nested_listing, tree_listing, walk_tree};

verus! {

/// The files of the folder `tree` whose extension ends with `extention` or
/// with `png`, sorted by path; unless `dir` is set, followed by those of
/// all the folders below it, sorted by path and extension (see
/// `tree_listing`).
pub fn dir_list_one(tree: &DirTree, extention: &str, dir: bool) -> (r: Vec<FilePlus>)
    ensures
        files_view(r@) == tree_listing(*tree, extention@, true, dir),
{
    list_tree(tree, extention, true, dir)
}

/// The files of the folders `dirs` and of all the folders below them whose
/// extension ends with `ext` or with `png`, the listing of each folder
/// after the other (see `nested_listing`).
pub fn walk_dir(dirs: &Vec<DirTree>, ext: &str) -> (r: Vec<FilePlus>)
    ensures
        files_view(r@) == nested_listing(dirs@, ext@, true),
{
    walk_tree(dirs, ext, true)
}

} // verus!
