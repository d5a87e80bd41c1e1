//! The hierarchical data model: a directory-or-root entry holding an ordered
//! list of file names and an ordered list of owned child trees, together with
//! its mathematical model `TreeSpec` and the flattening operations.
use vstd::prelude::*;

verus! {

use vstd::string::*;
use crate::chars::{views, split_char, split_string, trimmed, trim_str};

broadcast use {
    vstd::seq::axiom_seq_index_decreases,
    vstd::seq::axiom_seq_subrange_decreases,
    vstd::std_specs::vec::axiom_vec_decreases_to_view,
    Seq::lemma_filter_push,
    crate::chars::lemma_views_push,
};

/// The mathematical model of a tree: a label, the file names held directly,
/// and the child trees, all order-preserving.
pub struct TreeSpec {
    pub label: Seq<char>,
    pub files: Seq<Seq<char>>,
    pub dirs: Seq<TreeSpec>,
}

/// A tree of files: a directory-or-root entry with its direct files and its
/// child directories, each child exclusively owned by its parent.
pub struct FileTree {
    pub path: String,
    pub files: Vec<String>,
    pub directories: Vec<FileTree>,
}

impl FileTree {
    /// The mathematical model of this tree.
    pub open spec fn model(self) -> TreeSpec
        decreases self,
    {
        TreeSpec {
            label: self.path@,
            files: views(self.files@),
            dirs: Self::model_seq(self.directories@),
        }
    }

    /// The models of a sequence of trees.
    pub open spec fn model_seq(ds: Seq<FileTree>) -> Seq<TreeSpec>
        decreases ds, ds.len(),
    {
        if ds.len() == 0 {
            Seq::empty()
        } else {
            seq![ds[0].model()] + Self::model_seq(ds.drop_first())
        }
    }

    /// A new tree at `path` with no files and no children.
    pub fn new(path: String) -> (r: Self)
        ensures
            r.model() == (TreeSpec {
                label: path@,
                files: Seq::<Seq<char>>::empty(),
                dirs: Seq::<TreeSpec>::empty(),
            }),
    {
        let r = Self { path, files: Vec::new(), directories: Vec::new() };
        proof {
            assert(views(r.files@) =~= Seq::<Seq<char>>::empty());
        }
        r
    }

    /// The last component of the path: everything after the final separator.
    pub fn name(&self) -> (r: String)
        ensures
            r@ == split_char(self.path@, '/').last(),
    {
        let parts = split_string(self.path.as_str(), '/');
        let r = parts[parts.len() - 1].clone();
        proof {
            assert(r@ == views(parts@).last());
        }
        r
    }
}

/// All file entries of the tree, depth first: the node's own files, then the
/// files of each child in order.
pub open spec fn deep_files(t: TreeSpec) -> Seq<Seq<char>>
    decreases t,
{
    t.files + deep_files_seq(t.dirs)
}

/// The concatenated `deep_files` of a sequence of trees.
pub open spec fn deep_files_seq(ds: Seq<TreeSpec>) -> Seq<Seq<char>>
    decreases ds, ds.len(),
{
    if ds.len() == 0 {
        Seq::empty()
    } else {
        deep_files(ds[0]) + deep_files_seq(ds.drop_first())
    }
}

/// Each entry trimmed of surrounding whitespace and prefixed.
pub open spec fn prefixed_trimmed(prefix: Seq<char>, ss: Seq<Seq<char>>) -> Seq<Seq<char>> {
    ss.map_values(|f: Seq<char>| prefix + trimmed(f))
}

/// The label and every file of the tree, depth first, each entry trimmed and
/// prefixed.
pub open spec fn file_list(t: TreeSpec, prefix: Seq<char>) -> Seq<Seq<char>>
    decreases t,
{
    seq![prefix + trimmed(t.label)] + prefixed_trimmed(prefix, t.files) + file_list_seq(
        t.dirs,
        prefix,
    )
}

/// The concatenated `file_list` of a sequence of trees.
pub open spec fn file_list_seq(ds: Seq<TreeSpec>, prefix: Seq<char>) -> Seq<Seq<char>>
    decreases ds, ds.len(),
{
    if ds.len() == 0 {
        Seq::empty()
    } else {
        file_list(ds[0], prefix) + file_list_seq(ds.drop_first(), prefix)
    }
}

/// The `deep_files` of each tree in a sequence, one row per tree.
pub open spec fn deep_files_each(ds: Seq<TreeSpec>) -> Seq<Seq<Seq<char>>> {
    ds.map_values(|d: TreeSpec| deep_files(d))
}

/// The views of a sequence of rows of strings.
pub open spec fn row_views(rows: Seq<Vec<String>>) -> Seq<Seq<Seq<char>>> {
    rows.map_values(|row: Vec<String>| views(row@))
}

/// The files of the root, then the flattened files of each top-level child.
pub open spec fn two_level_files(t: TreeSpec) -> Seq<Seq<Seq<char>>> {
    seq![t.files] + deep_files_each(t.dirs)
}

impl FileTree {
    /// The label and every file of the tree, depth first, each entry trimmed
    /// of surrounding whitespace and prefixed with `prefix`.
    pub fn to_file_list(&self, prefix: &str) -> (r: Vec<String>)
        ensures
            views(r@) == file_list(self.model(), prefix@),
        decreases *self,
    {
        broadcast use crate::chars::lemma_views_push;

        let mut r: Vec<String> = Vec::new();
        let mut head = String::from_str(prefix);
        let trimmed_path = trim_str(self.path.as_str());
        head.append(trimmed_path.as_str());
        r.push(head);
        let mut i: usize = 0;
        while i < self.files.len()
            invariant
                0 <= i <= self.files@.len(),
                views(r@) == seq![prefix@ + trimmed(self.path@)] + prefixed_trimmed(
                    prefix@,
                    views(self.files@).take(i as int),
                ),
            decreases self.files@.len() - i,
        {
            let mut entry = String::from_str(prefix);
            let trimmed_file = trim_str(self.files[i].as_str());
            entry.append(trimmed_file.as_str());
            let ghost r0 = r@;
            let ghost ev = entry@;
            r.push(entry);
            proof {
                assert(views(r@) =~= views(r0).push(ev));
                assert(prefixed_trimmed(prefix@, views(self.files@).take(i as int)).push(
                    prefix@ + trimmed(self.files@[i as int]@),
                ) =~= prefixed_trimmed(prefix@, views(self.files@).take(i as int + 1)));
                assert(views(r@) =~= seq![prefix@ + trimmed(self.path@)] + prefixed_trimmed(
                    prefix@,
                    views(self.files@).take(i as int + 1),
                ));
            }
            i += 1;
        }
        proof {
            assert(views(self.files@).take(self.files@.len() as int) =~= views(self.files@));
        }
        let ghost dirs_models = FileTree::model_seq(self.directories@);
        let mut j: usize = 0;
        while j < self.directories.len()
            invariant
                0 <= j <= self.directories@.len(),
                dirs_models == FileTree::model_seq(self.directories@),
                views(r@) == seq![prefix@ + trimmed(self.path@)] + prefixed_trimmed(
                    prefix@,
                    views(self.files@),
                ) + file_list_seq(dirs_models.take(j as int), prefix@),
            decreases self.directories@.len() - j,
        {
            proof {
                lemma_model_seq_index(self.directories@, j as int);
            }
            let mut sub = self.directories[j].to_file_list(prefix);
            let ghost r0 = r@;
            let ghost sub0 = sub@;
            r.append(&mut sub);
            proof {
                assert(views(r@) =~= views(r0) + views(sub0));
                lemma_file_list_seq_push(dirs_models.take(j as int), dirs_models[j as int], prefix@);
                assert(dirs_models.take(j as int).push(dirs_models[j as int]) =~= dirs_models.take(
                    j as int + 1,
                ));
                assert(views(r@) =~= seq![prefix@ + trimmed(self.path@)] + prefixed_trimmed(
                    prefix@,
                    views(self.files@),
                ) + file_list_seq(dirs_models.take(j as int + 1), prefix@));
            }
            j += 1;
        }
        proof {
            lemma_model_seq_len(self.directories@);
            assert(dirs_models.take(dirs_models.len() as int) =~= dirs_models);
        }
        r
    }

    /// Every file in the tree, depth first: the files of this node, then the
    /// files of each subdirectory recursively.
    pub fn get_directories_list(self) -> (r: Vec<String>)
        ensures
            views(r@) == deep_files(self.model()),
    {
        deep_files_exec(&self)
    }

    /// The files of the root as the first row, then one row per top-level
    /// subdirectory holding that subtree's files, depth first.
    pub fn get_2d_vector(self) -> (r: Vec<Vec<String>>)
        ensures
            row_views(r@) == two_level_files(self.model()),
    {
        let mut r: Vec<Vec<String>> = Vec::new();
        r.push(self.files);
        let ghost dirs_models = FileTree::model_seq(self.directories@);
        let mut j: usize = 0;
        let mut dirs = self.directories;
        while j < dirs.len()
            invariant
                0 <= j <= dirs@.len(),
                dirs_models == FileTree::model_seq(dirs@),
                r@.len() == j + 1,
                row_views(r@) == seq![views(self.files@)] + deep_files_each(
                    dirs_models.take(j as int),
                ),
            decreases dirs@.len() - j,
        {
            proof {
                lemma_model_seq_index(dirs@, j as int);
            }
            let row = deep_files_exec(&dirs[j]);
            let ghost r0 = r@;
            let ghost rowv = views(row@);
            r.push(row);
            proof {
                assert(row_views(r@) =~= row_views(r0).push(rowv));
                assert(row_views(r@) =~= seq![views(self.files@)] + deep_files_each(
                    dirs_models.take(j as int + 1),
                ));
            }
            j += 1;
        }
        proof {
            lemma_model_seq_len(dirs@);
            assert(dirs_models.take(dirs_models.len() as int) =~= dirs_models);
        }
        r
    }
}

/// Depth-first collection of every file entry under `t`.
fn deep_files_exec(t: &FileTree) -> (r: Vec<String>)
    ensures
        views(r@) == deep_files(t.model()),
    decreases *t,
{
    let mut r: Vec<String> = Vec::new();
    let mut i: usize = 0;
    while i < t.files.len()
        invariant
            0 <= i <= t.files@.len(),
            views(r@) == views(t.files@).take(i as int),
        decreases t.files@.len() - i,
    {
        broadcast use crate::chars::lemma_views_push;

        r.push(t.files[i].clone());
        proof {
            assert(views(t.files@).take(i as int).push(t.files@[i as int]@) =~= views(
                t.files@,
            ).take(i as int + 1));
        }
        i += 1;
    }
    proof {
        assert(views(t.files@).take(t.files@.len() as int) =~= views(t.files@));
    }
    let ghost dirs_models = FileTree::model_seq(t.directories@);
    let mut j: usize = 0;
    while j < t.directories.len()
        invariant
            0 <= j <= t.directories@.len(),
            dirs_models == FileTree::model_seq(t.directories@),
            views(r@) == views(t.files@) + deep_files_seq(dirs_models.take(j as int)),
        decreases t.directories@.len() - j,
    {
        proof {
            lemma_model_seq_index(t.directories@, j as int);
        }
        let mut sub = deep_files_exec(&t.directories[j]);
        let ghost r0 = r@;
        let ghost sub0 = sub@;
        r.append(&mut sub);
        proof {
            assert(views(r@) =~= views(r0) + views(sub0));
            lemma_deep_files_seq_push(dirs_models.take(j as int), dirs_models[j as int]);
            assert(dirs_models.take(j as int).push(dirs_models[j as int]) =~= dirs_models.take(
                j as int + 1,
            ));
            assert(views(r@) =~= views(t.files@) + deep_files_seq(dirs_models.take(j as int + 1)));
        }
        j += 1;
    }
    proof {
        lemma_model_seq_len(t.directories@);
        assert(dirs_models.take(dirs_models.len() as int) =~= dirs_models);
    }
    r
}

/// Whether a listed entry is a directory.
pub open spec fn dir_flag() -> spec_fn((Seq<char>, bool)) -> bool {
    |e: (Seq<char>, bool)| e.1
}

/// Whether a listed entry is not a directory.
pub open spec fn not_dir_flag() -> spec_fn((Seq<char>, bool)) -> bool {
    |e: (Seq<char>, bool)| !e.1
}

/// The name of a listed entry.
pub open spec fn entry_name_fn() -> spec_fn((Seq<char>, bool)) -> Seq<char> {
    |e: (Seq<char>, bool)| e.0
}

/// The names of the entries that are not directories.
pub open spec fn file_entry_names(entries: Seq<(Seq<char>, bool)>) -> Seq<Seq<char>> {
    entries.filter(not_dir_flag()).map_values(entry_name_fn())
}

/// The names of the entries that are directories.
pub open spec fn dir_entry_names(entries: Seq<(Seq<char>, bool)>) -> Seq<Seq<char>> {
    entries.filter(dir_flag()).map_values(entry_name_fn())
}

/// The views of a sequence of listed entries, each a name and whether it is
/// a directory.
pub open spec fn entry_flag_views(entries: Seq<(String, bool)>) -> Seq<(Seq<char>, bool)> {
    entries.map_values(|e: (String, bool)| (e.0@, e.1))
}

/// Splits a directory listing into the non-directory entries and the
/// directory entries, keeping the listing's own order in each part.
pub fn partition_entries(entries: Vec<(String, bool)>) -> (r: (Vec<String>, Vec<String>))
    ensures
        views(r.0@) == file_entry_names(entry_flag_views(entries@)),
        views(r.1@) == dir_entry_names(entry_flag_views(entries@)),
{
    let ghost ev = entry_flag_views(entries@);
    let mut files: Vec<String> = Vec::new();
    let mut dirs: Vec<String> = Vec::new();
    let mut i: usize = 0;
    proof {
        assert(ev.take(0) =~= Seq::<(Seq<char>, bool)>::empty());
        assert(views(files@) =~= file_entry_names(ev.take(0)));
        assert(views(dirs@) =~= dir_entry_names(ev.take(0)));
    }
    while i < entries.len()
        invariant
            0 <= i <= entries@.len(),
            ev == entry_flag_views(entries@),
            views(files@) == file_entry_names(ev.take(i as int)),
            views(dirs@) == dir_entry_names(ev.take(i as int)),
        decreases entries@.len() - i,
    {
        let ghost pre = ev.take(i as int);
        proof {
            assert(ev.take(i as int + 1) =~= pre.push(ev[i as int]));
        }
        if entries[i].1 {
            let ghost d0 = views(dirs@);
            dirs.push(entries[i].0.clone());
            proof {
                assert(dir_flag()(ev[i as int]));
                assert(pre.push(ev[i as int]).filter(dir_flag()) == pre.filter(dir_flag()).push(
                    ev[i as int],
                ));
                assert(pre.push(ev[i as int]).filter(not_dir_flag()) == pre.filter(
                    not_dir_flag(),
                ));
                assert(views(dirs@) =~= d0.push(ev[i as int].0));
                assert(views(dirs@) =~= dir_entry_names(ev.take(i as int + 1)));
                assert(views(files@) =~= file_entry_names(ev.take(i as int + 1)));
            }
        } else {
            let ghost f0 = views(files@);
            files.push(entries[i].0.clone());
            proof {
                assert(not_dir_flag()(ev[i as int]));
                assert(pre.push(ev[i as int]).filter(not_dir_flag()) == pre.filter(
                    not_dir_flag(),
                ).push(ev[i as int]));
                assert(pre.push(ev[i as int]).filter(dir_flag()) == pre.filter(dir_flag()));
                assert(views(files@) =~= f0.push(ev[i as int].0));
                assert(views(files@) =~= file_entry_names(ev.take(i as int + 1)));
                assert(views(dirs@) =~= dir_entry_names(ev.take(i as int + 1)));
            }
        }
        i += 1;
    }
    proof {
        assert(ev.take(ev.len() as int) =~= ev);
    }
    (files, dirs)
}

pub proof fn lemma_deep_files_seq_push(ds: Seq<TreeSpec>, d: TreeSpec)
    ensures
        deep_files_seq(ds.push(d)) == deep_files_seq(ds) + deep_files(d),
    decreases ds.len(),
{
    if ds.len() == 0 {
        assert(ds.push(d).drop_first() =~= Seq::<TreeSpec>::empty());
        assert(ds.push(d)[0] == d);
        assert(deep_files_seq(ds.push(d)) == deep_files(d) + deep_files_seq(
            Seq::<TreeSpec>::empty(),
        ));
        assert(deep_files_seq(ds.push(d)) =~= deep_files_seq(ds) + deep_files(d));
    } else {
        lemma_deep_files_seq_push(ds.drop_first(), d);
        assert(ds.push(d).drop_first() =~= ds.drop_first().push(d));
        assert(ds.push(d)[0] == ds[0]);
        assert(deep_files_seq(ds.push(d)) == deep_files(ds[0]) + deep_files_seq(
            ds.drop_first().push(d),
        ));
        assert(deep_files_seq(ds.push(d)) == deep_files(ds[0]) + (deep_files_seq(ds.drop_first())
            + deep_files(d)));
        assert(deep_files_seq(ds.push(d)) =~= deep_files_seq(ds) + deep_files(d));
    }
}

pub proof fn lemma_file_list_seq_push(ds: Seq<TreeSpec>, d: TreeSpec, prefix: Seq<char>)
    ensures
        file_list_seq(ds.push(d), prefix) == file_list_seq(ds, prefix) + file_list(d, prefix),
    decreases ds.len(),
{
    if ds.len() == 0 {
        assert(ds.push(d).drop_first() =~= Seq::<TreeSpec>::empty());
        assert(ds.push(d)[0] == d);
        assert(file_list_seq(ds.push(d), prefix) == file_list(d, prefix) + file_list_seq(
            Seq::<TreeSpec>::empty(),
            prefix,
        ));
        assert(file_list_seq(ds.push(d), prefix) =~= file_list_seq(ds, prefix) + file_list(
            d,
            prefix,
        ));
    } else {
        lemma_file_list_seq_push(ds.drop_first(), d, prefix);
        assert(ds.push(d).drop_first() =~= ds.drop_first().push(d));
        assert(ds.push(d)[0] == ds[0]);
        assert(file_list_seq(ds.push(d), prefix) == file_list(ds[0], prefix) + file_list_seq(
            ds.drop_first().push(d),
            prefix,
        ));
        assert(file_list_seq(ds.push(d), prefix) == file_list(ds[0], prefix) + (file_list_seq(
            ds.drop_first(),
            prefix,
        ) + file_list(d, prefix)));
        assert(file_list_seq(ds.push(d), prefix) =~= file_list_seq(ds, prefix) + file_list(
            d,
            prefix,
        ));
    }
}

pub proof fn lemma_model_seq_len(ds: Seq<FileTree>)
    ensures
        FileTree::model_seq(ds).len() == ds.len(),
    decreases ds.len(),
{
    if ds.len() > 0 {
        lemma_model_seq_len(ds.drop_first());
    }
}

pub proof fn lemma_model_seq_index(ds: Seq<FileTree>, i: int)
    requires
        0 <= i < ds.len(),
    ensures
        FileTree::model_seq(ds).len() == ds.len(),
        FileTree::model_seq(ds)[i] == ds[i].model(),
    decreases i,
{
    lemma_model_seq_len(ds);
    if i == 0 {
    } else {
        lemma_model_seq_index(ds.drop_first(), i - 1);
    }
}

pub broadcast proof fn lemma_model_seq_push(ds: Seq<FileTree>, d: FileTree)
    ensures
        #[trigger] FileTree::model_seq(ds.push(d)) == FileTree::model_seq(ds).push(d.model()),
    decreases ds.len(),
{
    if ds.len() == 0 {
        assert(ds.push(d).drop_first() =~= Seq::<FileTree>::empty());
        assert(ds.push(d)[0] == d);
        assert(FileTree::model_seq(ds.push(d)) == seq![d.model()] + FileTree::model_seq(
            Seq::<FileTree>::empty(),
        ));
        assert(FileTree::model_seq(Seq::<FileTree>::empty()) == Seq::<TreeSpec>::empty());
        assert(FileTree::model_seq(ds.push(d)) =~= FileTree::model_seq(ds).push(d.model()));
    } else {
        lemma_model_seq_push(ds.drop_first(), d);
        assert(ds.push(d).drop_first() =~= ds.drop_first().push(d));
        assert(FileTree::model_seq(ds.push(d)) =~= FileTree::model_seq(ds).push(d.model()));
    }
}

} // verus!
