//! The tree-diagram text codec: formatting a tree into box-drawing notation
//! and parsing that notation back into a tree.
//!
//! A formatted tree emits the root label first (when requested), then one
//! line per file with a branch connector, then each subdirectory as a header
//! line followed by its own formatted lines shifted one nesting level to the
//! right. Every file except the last uses the middle connector and the last
//! file uses the closing connector even when directory lines follow it; that
//! asymmetry is part of the notation and the parser does not depend on which
//! connector a file line carries.
use vstd::prelude::*;

verus! {

use vstd::seq_lib::group_seq_lib_default;
use vstd::string::*;
use crate::chars::{
    views,
    starts_with,
    ends_with_any,
    lemma_filter_all_true,
    lemma_filter_all_false,
    split_char,
    join_char,
    split_string,
    join_lines,
    str_starts_with,
    str_ends_with_any,
};
use crate::tree::{FileTree, TreeSpec, lemma_model_seq_index, lemma_model_seq_len};

broadcast use {
    vstd::seq::axiom_seq_index_decreases,
    vstd::seq::axiom_seq_subrange_decreases,
    vstd::std_specs::vec::axiom_vec_decreases_to_view,
    group_seq_lib_default,
    Seq::lemma_filter_push,
    crate::chars::lemma_views_push,
};

/// The connector that starts a non-final branch line.
pub open spec fn branch_mid() -> Seq<char> {
    seq!['\u{251c}', '\u{2500}', '\u{2500}', ' ']
}

/// The connector that starts a final branch line.
pub open spec fn branch_last() -> Seq<char> {
    seq!['\u{2514}', '\u{2500}', '\u{2500}', ' ']
}

/// The vertical-continuation glyph marking one nesting level.
pub open spec fn vert_bar() -> Seq<char> {
    seq!['\u{2502}', ' ', ' ', ' ']
}

/// The blank indentation marking one nesting level under a final branch.
pub open spec fn indent4() -> Seq<char> {
    seq![' ', ' ', ' ', ' ']
}

/// The line is shifted at least one nesting level to the right.
pub open spec fn has_glyph_prefix(l: Seq<char>) -> bool {
    starts_with(l, vert_bar()) || starts_with(l, indent4())
}

/// The line begins with a branch connector at the current nesting level.
pub open spec fn is_branch(l: Seq<char>) -> bool {
    starts_with(l, branch_mid()) || starts_with(l, branch_last())
}

/// The line with one leading branch connector removed, if present.
pub open spec fn strip_branch(l: Seq<char>) -> Seq<char> {
    if is_branch(l) {
        l.skip(4)
    } else {
        l
    }
}

/// The line with one nesting level removed, if present.
pub open spec fn strip_level(l: Seq<char>) -> Seq<char> {
    if has_glyph_prefix(l) {
        l.skip(4)
    } else {
        l
    }
}

/// The line with all leading connector artifacts removed.
pub open spec fn strip_connectors(l: Seq<char>) -> Seq<char>
    decreases l.len(),
{
    if is_branch(l) || has_glyph_prefix(l) {
        strip_connectors(l.skip(4))
    } else {
        l
    }
}

/// A file line: at nesting depth zero and, once stripped of its connector,
/// ending with a recognized suffix.
pub open spec fn is_file_line(l: Seq<char>, sfx: Seq<Seq<char>>) -> bool {
    !has_glyph_prefix(l) && ends_with_any(strip_branch(l), sfx)
}

/// The predicate selecting file lines.
pub open spec fn file_line_pred(sfx: Seq<Seq<char>>) -> spec_fn(Seq<char>) -> bool {
    |l: Seq<char>| is_file_line(l, sfx)
}

/// The predicate selecting the lines that are not file lines.
pub open spec fn dir_line_pred(sfx: Seq<Seq<char>>) -> spec_fn(Seq<char>) -> bool {
    |l: Seq<char>| !is_file_line(l, sfx)
}

/// The function stripping one branch connector.
pub open spec fn strip_branch_fn() -> spec_fn(Seq<char>) -> Seq<char> {
    |l: Seq<char>| strip_branch(l)
}

/// The function stripping one nesting level.
pub open spec fn strip_level_fn() -> spec_fn(Seq<char>) -> Seq<char> {
    |l: Seq<char>| strip_level(l)
}

/// How many lines from the front are not branch headers.
pub open spec fn body_len(ls: Seq<Seq<char>>) -> nat
    decreases ls.len(),
{
    if ls.len() == 0 || is_branch(ls[0]) {
        0
    } else {
        1 + body_len(ls.drop_first())
    }
}

pub proof fn lemma_body_len_le(ls: Seq<Seq<char>>)
    ensures
        body_len(ls) <= ls.len(),
    decreases ls.len(),
{
    if ls.len() > 0 && !is_branch(ls[0]) {
        lemma_body_len_le(ls.drop_first());
    }
}

/// The tree denoted by the given lines: the first line is the label, the
/// depth-zero suffix-bearing lines are the files in order, and the remaining
/// lines form one directory block per depth-zero branch header.
pub open spec fn parse_tree(lines: Seq<Seq<char>>, sfx: Seq<Seq<char>>) -> TreeSpec
    decreases lines.len(), 0int,
{
    if lines.len() == 0 {
        TreeSpec { label: Seq::empty(), files: Seq::empty(), dirs: Seq::empty() }
    } else {
        let rest = lines.drop_first();
        TreeSpec {
            label: strip_connectors(lines[0]),
            files: rest.filter(file_line_pred(sfx)).map_values(strip_branch_fn()),
            dirs: parse_blocks(rest.filter(dir_line_pred(sfx)), sfx),
        }
    }
}

/// The directory blocks among `ls`: each block starts at a branch header and
/// runs to the next one, its body lines shifted one nesting level left before
/// the recursive parse.
pub open spec fn parse_blocks(ls: Seq<Seq<char>>, sfx: Seq<Seq<char>>) -> Seq<TreeSpec>
    decreases ls.len(), 1int,
    via parse_blocks_decreases
{
    if ls.len() == 0 {
        Seq::empty()
    } else if !is_branch(ls[0]) {
        parse_blocks(ls.drop_first(), sfx)
    } else {
        let b = body_len(ls.drop_first()) as int;
        let block = seq![ls[0]] + ls.subrange(1, 1 + b).map_values(strip_level_fn());
        seq![parse_tree(block, sfx)] + parse_blocks(ls.skip(1 + b), sfx)
    }
}

#[via_fn]
proof fn parse_blocks_decreases(ls: Seq<Seq<char>>, sfx: Seq<Seq<char>>) {
    if ls.len() > 0 && is_branch(ls[0]) {
        lemma_body_len_le(ls.drop_first());
    }
}

/// The tree denoted by a whole diagram text.
pub open spec fn parse_text(text: Seq<char>, sfx: Seq<Seq<char>>) -> TreeSpec {
    parse_tree(split_char(text, '\n'), sfx)
}

/// One line per file: a middle connector before every file but the last, the
/// closing connector before the last.
pub open spec fn fmt_file_lines(files: Seq<Seq<char>>) -> Seq<Seq<char>> {
    Seq::new(
        files.len(),
        |i: int|
            if i == files.len() - 1 {
                branch_last() + files[i]
            } else {
                branch_mid() + files[i]
            },
    )
}

/// Each line prefixed with `p`.
pub open spec fn prefix_lines(ls: Seq<Seq<char>>, p: Seq<char>) -> Seq<Seq<char>> {
    ls.map_values(|l: Seq<char>| p + l)
}

/// The formatted lines of a tree: optionally the label, then the file lines,
/// then the directory blocks.
pub open spec fn fmt_lines(t: TreeSpec, root: bool) -> Seq<Seq<char>>
    decreases t,
{
    (if root {
        seq![t.label]
    } else {
        Seq::empty()
    }) + fmt_file_lines(t.files) + fmt_dir_lines(t.dirs)
}

/// The formatted lines of a sequence of subdirectories: every directory but
/// the last gets a middle-connector header and body lines behind a vertical
/// bar; the last gets the closing connector and blank indentation.
pub open spec fn fmt_dir_lines(ds: Seq<TreeSpec>) -> Seq<Seq<char>>
    decreases ds, ds.len(),
{
    if ds.len() == 0 {
        Seq::empty()
    } else {
        let sub = fmt_lines(ds[0], true);
        let head = if ds.len() == 1 {
            branch_last() + sub[0]
        } else {
            branch_mid() + sub[0]
        };
        let pre = if ds.len() == 1 {
            indent4()
        } else {
            vert_bar()
        };
        seq![head] + prefix_lines(sub.drop_first(), pre) + fmt_dir_lines(ds.drop_first())
    }
}

/// The formatted text of a tree: its lines joined with newlines.
pub open spec fn fmt_text(t: TreeSpec, root: bool) -> Seq<char> {
    join_char(fmt_lines(t, root), '\n')
}

fn branch_mid_str() -> (r: &'static str)
    ensures
        r@ == branch_mid(),
{
    let r = "\u{251c}\u{2500}\u{2500} ";
    proof {
        reveal_strlit("\u{251c}\u{2500}\u{2500} ");
        assert(r@ =~= branch_mid());
    }
    r
}

fn branch_last_str() -> (r: &'static str)
    ensures
        r@ == branch_last(),
{
    let r = "\u{2514}\u{2500}\u{2500} ";
    proof {
        reveal_strlit("\u{2514}\u{2500}\u{2500} ");
        assert(r@ =~= branch_last());
    }
    r
}

fn vert_bar_str() -> (r: &'static str)
    ensures
        r@ == vert_bar(),
{
    let r = "\u{2502}   ";
    proof {
        reveal_strlit("\u{2502}   ");
        assert(r@ =~= vert_bar());
    }
    r
}

fn indent4_str() -> (r: &'static str)
    ensures
        r@ == indent4(),
{
    let r = "    ";
    proof {
        reveal_strlit("    ");
        assert(r@ =~= indent4());
    }
    r
}

/// Whether the line begins with a branch connector.
fn line_is_branch(l: &str) -> (r: bool)
    ensures
        r == is_branch(l@),
{
    str_starts_with(l, branch_mid_str()) || str_starts_with(l, branch_last_str())
}

/// Whether the line is shifted at least one nesting level to the right.
fn line_has_glyph_prefix(l: &str) -> (r: bool)
    ensures
        r == has_glyph_prefix(l@),
{
    str_starts_with(l, vert_bar_str()) || str_starts_with(l, indent4_str())
}

/// The line with one leading branch connector removed, if present.
fn line_strip_branch(l: &str) -> (r: String)
    ensures
        r@ == strip_branch(l@),
{
    if line_is_branch(l) {
        let n = l.unicode_len();
        let r = String::from_str(l.substring_char(4, n));
        proof {
            assert(r@ =~= l@.skip(4));
        }
        r
    } else {
        String::from_str(l)
    }
}

/// The line with one nesting level removed, if present.
fn line_strip_level(l: &str) -> (r: String)
    ensures
        r@ == strip_level(l@),
{
    if line_has_glyph_prefix(l) {
        let n = l.unicode_len();
        let r = String::from_str(l.substring_char(4, n));
        proof {
            assert(r@ =~= l@.skip(4));
        }
        r
    } else {
        String::from_str(l)
    }
}

/// The line with all leading connector artifacts removed.
fn line_strip_connectors(l: &str) -> (r: String)
    ensures
        r@ == strip_connectors(l@),
{
    let mut s = String::from_str(l);
    while line_is_branch(s.as_str()) || line_has_glyph_prefix(s.as_str())
        invariant
            strip_connectors(s@) == strip_connectors(l@),
        decreases s@.len(),
    {
        let n = s.unicode_len();
        let next = String::from_str(s.as_str().substring_char(4, n));
        proof {
            assert(next@ =~= s@.skip(4));
        }
        s = next;
    }
    s
}

/// Whether the line is a file line for the given suffix set.
fn line_is_file(l: &str, postfixes: &Vec<String>) -> (r: bool)
    ensures
        r == is_file_line(l@, views(postfixes@)),
{
    if line_has_glyph_prefix(l) {
        return false;
    }
    let stripped = line_strip_branch(l);
    str_ends_with_any(stripped.as_str(), postfixes)
}

impl FileTree {
    /// The box-drawing diagram of this tree, with the root label emitted
    /// first when `root` is set.
    pub fn to_file_tree(&self, root: bool) -> (r: String)
        ensures
            r@ == fmt_text(self.model(), root),
    {
        let lines = fmt_lines_exec(self, root);
        if lines.len() == 0 {
            String::new()
        } else {
            join_lines(&lines)
        }
    }
}

/// The formatted lines of `t`, optionally starting with its label.
fn fmt_lines_exec(t: &FileTree, root: bool) -> (r: Vec<String>)
    ensures
        views(r@) == fmt_lines(t.model(), root),
    decreases *t,
{
    let ghost m = t.model();
    let mut r: Vec<String> = Vec::new();
    if root {
        r.push(t.path.clone());
    }
    let ghost root_part: Seq<Seq<char>> = if root {
        seq![m.label]
    } else {
        Seq::empty()
    };
    proof {
        assert(views(r@) =~= root_part);
    }
    let nf = t.files.len();
    let mut i: usize = 0;
    while i < nf
        invariant
            0 <= i <= nf,
            nf == t.files@.len(),
            root_part == (if root {
                seq![t.model().label]
            } else {
                Seq::<Seq<char>>::empty()
            }),
            m == t.model(),
            views(r@) == root_part + fmt_file_lines(m.files).take(i as int),
        decreases nf - i,
    {
        let mut line = if i == nf - 1 {
            String::from_str(branch_last_str())
        } else {
            String::from_str(branch_mid_str())
        };
        line.append(t.files[i].as_str());
        let ghost lv = line@;
        let ghost r0 = r@;
        r.push(line);
        proof {
            assert(m.files[i as int] == t.files@[i as int]@);
            assert(lv == fmt_file_lines(m.files)[i as int]);
            assert(views(r@) =~= views(r0).push(lv));
            assert(views(r@) =~= root_part + fmt_file_lines(m.files).take(i as int + 1));
        }
        i += 1;
    }
    proof {
        assert(fmt_file_lines(m.files).take(nf as int) =~= fmt_file_lines(m.files));
    }
    let nd = t.directories.len();
    let ghost dm = m.dirs;
    proof {
        lemma_model_seq_len(t.directories@);
    }
    let ghost mut done: Seq<Seq<char>> = Seq::empty();
    proof {
        assert(dm.skip(0) =~= dm);
        assert(views(r@) =~= root_part + fmt_file_lines(m.files) + done);
    }
    let mut j: usize = 0;
    while j < nd
        invariant
            0 <= j <= nd,
            nd == t.directories@.len(),
            m == t.model(),
            dm == m.dirs,
            views(r@) == root_part + fmt_file_lines(m.files) + done,
            fmt_dir_lines(dm) == done + fmt_dir_lines(dm.skip(j as int)),
        decreases nd - j,
    {
        proof {
            lemma_model_seq_index(t.directories@, j as int);
            assert(dm.skip(j as int)[0] == dm[j as int]);
        }
        let sub = fmt_lines_exec(&t.directories[j], true);
        let ghost subv = views(sub@);
        proof {
            assert(subv == fmt_lines(dm[j as int], true));
            assert(subv.len() >= 1 && subv[0] == dm[j as int].label) by {
                lemma_fmt_lines_first(dm[j as int]);
            }
        }
        let last = j == nd - 1;
        let mut head = if last {
            String::from_str(branch_last_str())
        } else {
            String::from_str(branch_mid_str())
        };
        head.append(sub[0].as_str());
        let ghost headv = head@;
        let ghost r0 = r@;
        r.push(head);
        proof {
            assert(views(r@) =~= views(r0).push(headv));
        }
        let pre = if last {
            indent4_str()
        } else {
            vert_bar_str()
        };
        let ghost prev = pre@;
        let mut k: usize = 1;
        while k < sub.len()
            invariant
                1 <= k <= sub@.len(),
                subv == views(sub@),
                prev == pre@,
                views(r@) == views(r0).push(headv) + prefix_lines(
                    subv.subrange(1, k as int),
                    prev,
                ),
            decreases sub@.len() - k,
        {
            let mut line = String::from_str(pre);
            line.append(sub[k].as_str());
            let ghost lv = line@;
            let ghost r1 = r@;
            r.push(line);
            proof {
                assert(views(r@) =~= views(r1).push(lv));
                assert(prefix_lines(subv.subrange(1, k as int), prev).push(prev + subv[k as int])
                    =~= prefix_lines(subv.subrange(1, k as int + 1), prev));
                assert(views(r@) =~= views(r0).push(headv) + prefix_lines(
                    subv.subrange(1, k as int + 1),
                    prev,
                ));
            }
            k += 1;
        }
        proof {
            let tail = dm.skip(j as int);
            assert(subv.subrange(1, subv.len() as int) =~= subv.drop_first());
            assert(tail.len() == nd - j);
            assert(tail.drop_first() =~= dm.skip(j as int + 1));
            assert(fmt_dir_lines(tail) == seq![headv] + prefix_lines(subv.drop_first(), prev)
                + fmt_dir_lines(dm.skip(j as int + 1)));
            assert(views(r@) =~= root_part + fmt_file_lines(m.files) + (done + seq![headv]
                + prefix_lines(subv.drop_first(), prev)));
            assert(fmt_dir_lines(dm) == (done + seq![headv] + prefix_lines(subv.drop_first(), prev))
                + fmt_dir_lines(dm.skip(j as int + 1))) by {
                assert(done + (seq![headv] + prefix_lines(subv.drop_first(), prev) + fmt_dir_lines(
                    dm.skip(j as int + 1),
                )) =~= (done + seq![headv] + prefix_lines(subv.drop_first(), prev))
                    + fmt_dir_lines(dm.skip(j as int + 1)));
            }
        }
        proof {
            done = done + seq![headv] + prefix_lines(subv.drop_first(), prev);
        }
        j += 1;
    }
    proof {
        assert(dm.skip(nd as int) =~= Seq::<TreeSpec>::empty());
        assert(fmt_dir_lines(dm) == done);
        assert(views(r@) =~= fmt_lines(m, root));
    }
    r
}

/// A formatted tree with the root flag set always begins with its label.
pub proof fn lemma_fmt_lines_first(t: TreeSpec)
    ensures
        fmt_lines(t, true).len() >= 1,
        fmt_lines(t, true)[0] == t.label,
{
}

/// The default recognized-suffix set of the library.
pub open spec fn default_suffixes() -> Seq<Seq<char>> {
    seq![seq!['.', 'm', 'p', '4']]
}

/// The default recognized-suffix set: media files ending in ".mp4".
pub fn default_postfixes() -> (r: Vec<String>)
    ensures
        views(r@) == default_suffixes(),
{
    let mut r: Vec<String> = Vec::new();
    let s = ".mp4";
    proof {
        reveal_strlit(".mp4");
        assert(s@ =~= seq!['.', 'm', 'p', '4']);
    }
    r.push(String::from_str(s));
    proof {
        assert(views(r@) =~= default_suffixes());
    }
    r
}

pub proof fn lemma_body_len_eq(s: Seq<Seq<char>>, k: int)
    requires
        0 <= k <= s.len(),
        forall|j: int| 0 <= j < k ==> !is_branch(s[j]),
        k == s.len() || is_branch(s[k]),
    ensures
        body_len(s) == k,
    decreases k,
{
    if k == 0 {
    } else {
        assert(!is_branch(s[0]));
        lemma_body_len_eq(s.drop_first(), k - 1);
    }
}

impl FileTree {
    /// A tree built by parsing a box-drawing diagram text, with the default
    /// recognized-suffix set deciding which lines are files.
    pub fn from_file_tree(file_tree: String) -> (r: Self)
        requires
            file_tree@.len() != 0,
        ensures
            r.model() == parse_text(file_tree@, default_suffixes()),
    {
        let lines = split_string(file_tree.as_str(), '\n');
        let postfixes = default_postfixes();
        parse_tree_exec(&lines, &postfixes)
    }

    /// The box-drawing diagram of this tree, starting with the root label.
    pub fn get_formatted_file_tree(self) -> (r: String)
        ensures
            r@ == fmt_text(self.model(), true),
    {
        self.to_file_tree(true)
    }
}

/// The tree denoted by the given lines, with `postfixes` deciding which
/// lines are files.
fn parse_tree_exec(lines: &Vec<String>, postfixes: &Vec<String>) -> (r: FileTree)
    ensures
        r.model() == parse_tree(views(lines@), views(postfixes@)),
    decreases lines@.len(), 0int,
{
    let ghost lv = views(lines@);
    let ghost sv = views(postfixes@);
    if lines.len() == 0 {
        let r = FileTree { path: String::new(), files: Vec::new(), directories: Vec::new() };
        proof {
            assert(views(r.files@) =~= Seq::<Seq<char>>::empty());
            assert(r.model() == parse_tree(lv, sv));
        }
        return r;
    }
    let label = line_strip_connectors(lines[0].as_str());
    let mut files: Vec<String> = Vec::new();
    let mut others: Vec<String> = Vec::new();
    let mut i: usize = 1;
    proof {
        assert(lv.subrange(1, 1) =~= Seq::<Seq<char>>::empty());
        assert(Seq::<Seq<char>>::empty().filter(file_line_pred(sv)).len() == 0);
        assert(Seq::<Seq<char>>::empty().filter(dir_line_pred(sv)).len() == 0);
        assert(views(files@) =~= lv.subrange(1, 1).filter(file_line_pred(sv)).map_values(
            strip_branch_fn(),
        ));
        assert(views(others@) =~= lv.subrange(1, 1).filter(dir_line_pred(sv)));
    }
    while i < lines.len()
        invariant
            1 <= i <= lv.len(),
            lv == views(lines@),
            sv == views(postfixes@),
            views(files@) == lv.subrange(1, i as int).filter(file_line_pred(sv)).map_values(
                strip_branch_fn(),
            ),
            views(others@) == lv.subrange(1, i as int).filter(dir_line_pred(sv)),
        decreases lv.len() - i,
    {
        let ghost pre = lv.subrange(1, i as int);
        proof {
            assert(lv.subrange(1, i as int + 1) =~= pre.push(lv[i as int]));
        }
        if line_is_file(lines[i].as_str(), postfixes) {
            let stripped = line_strip_branch(lines[i].as_str());
            let ghost strv = stripped@;
            let ghost f0 = files@;
            files.push(stripped);
            proof {
                assert(is_file_line(lv[i as int], sv));
                assert(file_line_pred(sv)(lv[i as int]));
                assert(!dir_line_pred(sv)(lv[i as int]));
                assert(views(files@) =~= views(f0).push(strv));
                assert(pre.push(lv[i as int]).filter(file_line_pred(sv)) == pre.filter(
                    file_line_pred(sv),
                ).push(lv[i as int]));
                assert(views(files@) =~= lv.subrange(1, i as int + 1).filter(
                    file_line_pred(sv),
                ).map_values(strip_branch_fn()));
            }
        } else {
            let ghost o0 = others@;
            others.push(lines[i].clone());
            proof {
                assert(!is_file_line(lv[i as int], sv));
                assert(!file_line_pred(sv)(lv[i as int]));
                assert(dir_line_pred(sv)(lv[i as int]));
                assert(views(others@) =~= views(o0).push(lv[i as int]));
                assert(views(others@) =~= lv.subrange(1, i as int + 1).filter(dir_line_pred(sv)));
                assert(views(files@) =~= lv.subrange(1, i as int + 1).filter(
                    file_line_pred(sv),
                ).map_values(strip_branch_fn()));
            }
        }
        i += 1;
    }
    proof {
        assert(lv.subrange(1, lv.len() as int) =~= lv.drop_first());
    }
    let ghost ov = views(others@);
    let mut dirs: Vec<FileTree> = Vec::new();
    let mut p: usize = 0;
    proof {
        assert(ov.skip(0) =~= ov);
        lemma_model_seq_len(dirs@);
        assert(FileTree::model_seq(dirs@) =~= Seq::<TreeSpec>::empty());
    }
    while p < others.len()
        invariant
            0 <= p <= ov.len(),
            ov == views(others@),
            sv == views(postfixes@),
            ov.len() < lv.len(),
            lv == views(lines@),
            parse_blocks(ov, sv) == FileTree::model_seq(dirs@) + parse_blocks(
                ov.skip(p as int),
                sv,
            ),
        decreases ov.len() - p,
    {
        let ghost tail = ov.skip(p as int);
        proof {
            assert(tail[0] == ov[p as int]);
            assert(tail.drop_first() =~= ov.skip(p as int + 1));
        }
        if !line_is_branch(others[p].as_str()) {
            proof {
                assert(parse_blocks(tail, sv) == parse_blocks(ov.skip(p as int + 1), sv));
            }
            p += 1;
        } else {
            let mut q: usize = p + 1;
            while q < others.len() && !line_is_branch(others[q].as_str())
                invariant
                    p + 1 <= q <= ov.len(),
                    ov == views(others@),
                    forall|j: int| p + 1 <= j < q ==> !is_branch(ov[j]),
                decreases ov.len() - q,
            {
                q += 1;
            }
            let ghost b = (q - p - 1) as int;
            proof {
                let body = ov.skip(p as int + 1);
                assert(forall|j: int| 0 <= j < b ==> !is_branch(#[trigger] body[j]));
                if q < ov.len() {
                    assert(is_branch(body[b]));
                }
                lemma_body_len_eq(body, b);
                assert(tail.drop_first() =~= body);
                assert(body_len(tail.drop_first()) == b);
            }
            let mut block: Vec<String> = Vec::new();
            block.push(others[p].clone());
            let mut j: usize = p + 1;
            proof {
                assert(views(block@) =~= seq![ov[p as int]] + ov.subrange(
                    p as int + 1,
                    p as int + 1,
                ).map_values(strip_level_fn()));
            }
            while j < q
                invariant
                    p + 1 <= j <= q,
                    q <= ov.len(),
                    ov == views(others@),
                    views(block@) == seq![ov[p as int]] + ov.subrange(
                        p as int + 1,
                        j as int,
                    ).map_values(strip_level_fn()),
                decreases q - j,
            {
                let stripped = line_strip_level(others[j].as_str());
                let ghost strv = stripped@;
                let ghost b0 = block@;
                block.push(stripped);
                proof {
                    assert(views(block@) =~= views(b0).push(strv));
                    assert(ov.subrange(p as int + 1, j as int + 1) =~= ov.subrange(
                        p as int + 1,
                        j as int,
                    ).push(ov[j as int]));
                    assert(views(block@) =~= seq![ov[p as int]] + ov.subrange(
                        p as int + 1,
                        j as int + 1,
                    ).map_values(strip_level_fn()));
                }
                j += 1;
            }
            proof {
                assert(tail.subrange(1, 1 + b) =~= ov.subrange(p as int + 1, q as int));
                assert(views(block@) =~= seq![tail[0]] + tail.subrange(1, 1 + b).map_values(
                    strip_level_fn(),
                ));
                assert(views(block@).len() <= ov.len() < lv.len());
            }
            let child = parse_tree_exec(&block, postfixes);
            let ghost d0 = dirs@;
            dirs.push(child);
            proof {
                crate::tree::lemma_model_seq_push(d0, child);
                assert(tail.skip(1 + b) =~= ov.skip(q as int));
                assert(parse_blocks(tail, sv) == seq![parse_tree(views(block@), sv)]
                    + parse_blocks(ov.skip(q as int), sv));
                assert(FileTree::model_seq(dirs@) + parse_blocks(ov.skip(q as int), sv)
                    =~= FileTree::model_seq(d0) + parse_blocks(tail, sv));
            }
            p = q;
        }
    }
    proof {
        assert(ov.skip(ov.len() as int) =~= Seq::<Seq<char>>::empty());
        assert(parse_blocks(ov, sv) =~= FileTree::model_seq(dirs@));
    }
    let r = FileTree { path: label, files, directories: dirs };
    proof {
        assert(r.model() == parse_tree(lv, sv));
    }
    r
}

/// A tree that the text notation can carry faithfully: no label or file name
/// holds a newline or starts with a connector glyph, every file name ends
/// with a recognized suffix, and no label does.
pub open spec fn text_ok(t: TreeSpec, sfx: Seq<Seq<char>>) -> bool
    decreases t,
{
    &&& !t.label.contains('\n')
    &&& !is_branch(t.label)
    &&& !has_glyph_prefix(t.label)
    &&& !ends_with_any(t.label, sfx)
    &&& (forall|i: int|
        0 <= i < t.files.len() ==> !(#[trigger] t.files[i]).contains('\n') && ends_with_any(
            t.files[i],
            sfx,
        ))
    &&& text_ok_seq(t.dirs, sfx)
}

/// Every tree of the sequence is `text_ok`.
pub open spec fn text_ok_seq(ds: Seq<TreeSpec>, sfx: Seq<Seq<char>>) -> bool
    decreases ds, ds.len(),
{
    if ds.len() == 0 {
        true
    } else {
        text_ok(ds[0], sfx) && text_ok_seq(ds.drop_first(), sfx)
    }
}

/// A line made of a four-character glyph and a payload starts with that
/// glyph and with no other, and stripping four characters recovers the
/// payload.
proof fn lemma_line_shape(p: Seq<char>, x: Seq<char>)
    requires
        p.len() == 4,
    ensures
        starts_with(p + x, p),
        (p + x).skip(4) == x,
        forall|q: Seq<char>| q.len() == 4 && q[0] != p[0] ==> !#[trigger] starts_with(p + x, q),
{
    let l = p + x;
    assert(l.take(4) =~= p);
    assert(l.skip(4) =~= x);
    assert forall|q: Seq<char>| q.len() == 4 && q[0] != p[0] implies !starts_with(l, q) by {
        if starts_with(l, q) {
            assert(l.take(4) == q);
            assert(l.take(4)[0] == l[0]);
            assert(p[0] == l[0]);
        }
    }
}

proof fn lemma_strip_connectors_con(con: Seq<char>, l: Seq<char>)
    requires
        con == branch_mid() || con == branch_last() || con == Seq::<char>::empty(),
        !is_branch(l),
        !has_glyph_prefix(l),
    ensures
        strip_connectors(con + l) == l,
{
    if con.len() == 4 {
        lemma_line_shape(con, l);
        assert(is_branch(con + l));
        assert(strip_connectors(con + l) == strip_connectors((con + l).skip(4)));
        assert((con + l).skip(4) == l);
        assert(strip_connectors(l) == l);
    } else {
        assert(con + l =~= l);
        assert(strip_connectors(l) == l);
    }
}

proof fn lemma_file_lines_are_files(fs: Seq<Seq<char>>, sfx: Seq<Seq<char>>)
    requires
        forall|i: int| 0 <= i < fs.len() ==> ends_with_any(#[trigger] fs[i], sfx),
    ensures
        forall|i: int|
            0 <= i < fmt_file_lines(fs).len() ==> is_file_line(
                #[trigger] fmt_file_lines(fs)[i],
                sfx,
            ),
        fmt_file_lines(fs).map_values(strip_branch_fn()) == fs,
{
    let lines = fmt_file_lines(fs);
    assert forall|i: int| 0 <= i < lines.len() implies is_file_line(lines[i], sfx)
        && strip_branch(lines[i]) == fs[i] by {
        let con = if i == fs.len() - 1 {
            branch_last()
        } else {
            branch_mid()
        };
        assert(lines[i] == con + fs[i]);
        lemma_line_shape(con, fs[i]);
        assert(is_branch(lines[i]));
        assert(!has_glyph_prefix(lines[i]));
        assert(strip_branch(lines[i]) == fs[i]);
    }
    assert(lines.map_values(strip_branch_fn()) =~= fs);
}

proof fn lemma_dir_lines_not_file(ds: Seq<TreeSpec>, sfx: Seq<Seq<char>>)
    requires
        text_ok_seq(ds, sfx),
    ensures
        forall|i: int|
            0 <= i < fmt_dir_lines(ds).len() ==> !is_file_line(#[trigger] fmt_dir_lines(ds)[i], sfx),
    decreases ds, ds.len(),
{
    if ds.len() == 0 {
    } else {
        let sub = fmt_lines(ds[0], true);
        let con = if ds.len() == 1 {
            branch_last()
        } else {
            branch_mid()
        };
        let pre = if ds.len() == 1 {
            indent4()
        } else {
            vert_bar()
        };
        let head = con + sub[0];
        let body = prefix_lines(sub.drop_first(), pre);
        let lines = fmt_dir_lines(ds);
        assert(lines == seq![head] + body + fmt_dir_lines(ds.drop_first()));
        lemma_dir_lines_not_file(ds.drop_first(), sfx);
        lemma_fmt_lines_first(ds[0]);
        lemma_line_shape(con, sub[0]);
        assert(!is_file_line(head, sfx)) by {
            assert(text_ok(ds[0], sfx));
            assert(!ends_with_any(ds[0].label, sfx));
            assert(is_branch(head));
            assert(strip_branch(head) == ds[0].label);
        }
        assert forall|i: int| 0 <= i < lines.len() implies !is_file_line(lines[i], sfx) by {
            if i == 0 {
                assert(lines[i] == head);
            } else if i < 1 + body.len() {
                assert(lines[i] == body[i - 1]);
                assert(body[i - 1] == pre + sub.drop_first()[i - 1]);
                lemma_line_shape(pre, sub.drop_first()[i - 1]);
                assert(has_glyph_prefix(lines[i]));
            } else {
                assert(lines[i] == fmt_dir_lines(ds.drop_first())[i - 1 - body.len()]);
            }
        }
    }
}

/// Parsing the lines of a formatted tree whose label line carries the given
/// connector recovers the tree.
proof fn lemma_parse_fmt_block(t: TreeSpec, con: Seq<char>, sfx: Seq<Seq<char>>)
    requires
        text_ok(t, sfx),
        con == branch_mid() || con == branch_last() || con == Seq::<char>::empty(),
    ensures
        parse_tree(seq![con + t.label] + fmt_file_lines(t.files) + fmt_dir_lines(t.dirs), sfx)
            == t,
    decreases t, 0int,
{
    let lines = seq![con + t.label] + fmt_file_lines(t.files) + fmt_dir_lines(t.dirs);
    assert(lines[0] == con + t.label);
    let rest = lines.drop_first();
    assert(rest =~= fmt_file_lines(t.files) + fmt_dir_lines(t.dirs));
    lemma_strip_connectors_con(con, t.label);
    lemma_file_lines_are_files(t.files, sfx);
    lemma_dir_lines_not_file(t.dirs, sfx);
    let fp = file_line_pred(sfx);
    let dp = dir_line_pred(sfx);
    lemma_filter_all_true(fmt_file_lines(t.files), fp);
    lemma_filter_all_false(fmt_dir_lines(t.dirs), fp);
    lemma_filter_all_false(fmt_file_lines(t.files), dp);
    lemma_filter_all_true(fmt_dir_lines(t.dirs), dp);
    assert(rest.filter(fp) == fmt_file_lines(t.files).filter(fp) + fmt_dir_lines(t.dirs).filter(
        fp,
    ));
    assert(rest.filter(fp) =~= fmt_file_lines(t.files));
    assert(rest.filter(dp) =~= fmt_dir_lines(t.dirs));
    lemma_parse_blocks_fmt(t.dirs, sfx);
    assert(parse_tree(lines, sfx) == t);
}

/// Parsing the formatted blocks of a sequence of subdirectories recovers the
/// sequence.
proof fn lemma_parse_blocks_fmt(ds: Seq<TreeSpec>, sfx: Seq<Seq<char>>)
    requires
        text_ok_seq(ds, sfx),
    ensures
        parse_blocks(fmt_dir_lines(ds), sfx) == ds,
    decreases ds, ds.len(),
{
    if ds.len() == 0 {
        assert(parse_blocks(fmt_dir_lines(ds), sfx) =~= ds);
    } else {
        let sub = fmt_lines(ds[0], true);
        let con = if ds.len() == 1 {
            branch_last()
        } else {
            branch_mid()
        };
        let pre = if ds.len() == 1 {
            indent4()
        } else {
            vert_bar()
        };
        let head = con + sub[0];
        let body = prefix_lines(sub.drop_first(), pre);
        let lines = fmt_dir_lines(ds);
        assert(lines == seq![head] + body + fmt_dir_lines(ds.drop_first()));
        lemma_fmt_lines_first(ds[0]);
        lemma_line_shape(con, sub[0]);
        assert(lines[0] == head);
        assert(is_branch(lines[0]));
        let restl = lines.drop_first();
        assert(restl =~= body + fmt_dir_lines(ds.drop_first()));
        assert forall|j: int| 0 <= j < body.len() implies !is_branch(#[trigger] restl[j]) by {
            assert(restl[j] == body[j]);
            assert(body[j] == pre + sub.drop_first()[j]);
            lemma_line_shape(pre, sub.drop_first()[j]);
        }
        if ds.drop_first().len() > 0 {
            let rest_ds = ds.drop_first();
            let con2 = if rest_ds.len() == 1 {
                branch_last()
            } else {
                branch_mid()
            };
            let sub2 = fmt_lines(rest_ds[0], true);
            assert(fmt_dir_lines(rest_ds)[0] == con2 + sub2[0]);
            lemma_line_shape(con2, sub2[0]);
            assert(restl[body.len() as int] == fmt_dir_lines(rest_ds)[0]);
            assert(is_branch(restl[body.len() as int]));
            lemma_body_len_eq(restl, body.len() as int);
        } else {
            assert(fmt_dir_lines(ds.drop_first()) =~= Seq::<Seq<char>>::empty());
            assert(restl.len() == body.len());
            lemma_body_len_eq(restl, body.len() as int);
        }
        let b = body_len(restl) as int;
        assert(b == body.len());
        assert(lines.subrange(1, 1 + b) =~= body);
        let block = seq![lines[0]] + lines.subrange(1, 1 + b).map_values(strip_level_fn());
        assert forall|j: int| 0 <= j < body.len() implies strip_level(#[trigger] body[j])
            == sub.drop_first()[j] by {
            lemma_line_shape(pre, sub.drop_first()[j]);
        }
        assert(body.map_values(strip_level_fn()) =~= sub.drop_first());
        assert(sub.drop_first() =~= fmt_file_lines(ds[0].files) + fmt_dir_lines(ds[0].dirs));
        assert(block =~= seq![con + ds[0].label] + fmt_file_lines(ds[0].files) + fmt_dir_lines(
            ds[0].dirs,
        ));
        lemma_parse_fmt_block(ds[0], con, sfx);
        assert(parse_tree(block, sfx) == ds[0]);
        assert(lines.skip(1 + b) =~= fmt_dir_lines(ds.drop_first()));
        lemma_parse_blocks_fmt(ds.drop_first(), sfx);
        assert(parse_blocks(lines, sfx) =~= ds);
    }
}

/// Parsing the formatted lines of a text-compatible tree recovers the tree.
pub proof fn lemma_parse_format_tree(t: TreeSpec, sfx: Seq<Seq<char>>)
    requires
        text_ok(t, sfx),
    ensures
        parse_tree(fmt_lines(t, true), sfx) == t,
{
    lemma_parse_fmt_block(t, Seq::empty(), sfx);
    assert(Seq::<char>::empty() + t.label =~= t.label);
    assert(fmt_lines(t, true) =~= seq![Seq::<char>::empty() + t.label] + fmt_file_lines(t.files)
        + fmt_dir_lines(t.dirs));
}

proof fn lemma_concat_no_newline(a: Seq<char>, b: Seq<char>)
    requires
        !a.contains('\n'),
        !b.contains('\n'),
    ensures
        !(a + b).contains('\n'),
{
    let l = a + b;
    if l.contains('\n') {
        let i = choose|i: int| 0 <= i < l.len() && l[i] == '\n';
        if i < a.len() {
            assert(a[i] == '\n');
        } else {
            assert(b[i - a.len()] == '\n');
        }
    }
}

proof fn lemma_fmt_lines_no_newline(t: TreeSpec, sfx: Seq<Seq<char>>)
    requires
        text_ok(t, sfx),
    ensures
        forall|i: int|
            0 <= i < fmt_lines(t, true).len() ==> !(#[trigger] fmt_lines(t, true)[i]).contains(
                '\n',
            ),
    decreases t, 0int,
{
    let lines = fmt_lines(t, true);
    lemma_fmt_dir_lines_no_newline(t.dirs, sfx);
    assert forall|i: int| 0 <= i < lines.len() implies !lines[i].contains('\n') by {
        let ff = fmt_file_lines(t.files);
        if i == 0 {
            assert(lines[i] == t.label);
        } else if i < 1 + ff.len() {
            assert(lines[i] == ff[i - 1]);
            let con = if i - 1 == t.files.len() - 1 {
                branch_last()
            } else {
                branch_mid()
            };
            assert(ff[i - 1] == con + t.files[i - 1]);
            assert(!con.contains('\n')) by {
                if con.contains('\n') {
                    let k = choose|k: int| 0 <= k < con.len() && con[k] == '\n';
                    assert(false);
                }
            }
            lemma_concat_no_newline(con, t.files[i - 1]);
        } else {
            assert(lines[i] == fmt_dir_lines(t.dirs)[i - 1 - ff.len()]);
        }
    }
}

proof fn lemma_fmt_dir_lines_no_newline(ds: Seq<TreeSpec>, sfx: Seq<Seq<char>>)
    requires
        text_ok_seq(ds, sfx),
    ensures
        forall|i: int|
            0 <= i < fmt_dir_lines(ds).len() ==> !(#[trigger] fmt_dir_lines(ds)[i]).contains('\n'),
    decreases ds, ds.len(),
{
    if ds.len() == 0 {
    } else {
        let sub = fmt_lines(ds[0], true);
        let con = if ds.len() == 1 {
            branch_last()
        } else {
            branch_mid()
        };
        let pre = if ds.len() == 1 {
            indent4()
        } else {
            vert_bar()
        };
        let head = con + sub[0];
        let body = prefix_lines(sub.drop_first(), pre);
        let lines = fmt_dir_lines(ds);
        assert(lines == seq![head] + body + fmt_dir_lines(ds.drop_first()));
        lemma_fmt_lines_no_newline(ds[0], sfx);
        lemma_fmt_dir_lines_no_newline(ds.drop_first(), sfx);
        lemma_fmt_lines_first(ds[0]);
        assert(!con.contains('\n') && !pre.contains('\n')) by {
            if con.contains('\n') {
                let k = choose|k: int| 0 <= k < con.len() && con[k] == '\n';
                assert(false);
            }
            if pre.contains('\n') {
                let k = choose|k: int| 0 <= k < pre.len() && pre[k] == '\n';
                assert(false);
            }
        }
        assert forall|i: int| 0 <= i < lines.len() implies !lines[i].contains('\n') by {
            if i == 0 {
                assert(lines[i] == head);
                lemma_concat_no_newline(con, sub[0]);
            } else if i < 1 + body.len() {
                assert(lines[i] == body[i - 1]);
                assert(body[i - 1] == pre + sub.drop_first()[i - 1]);
                assert(sub.drop_first()[i - 1] == sub[i]);
                lemma_concat_no_newline(pre, sub[i]);
            } else {
                assert(lines[i] == fmt_dir_lines(ds.drop_first())[i - 1 - body.len()]);
            }
        }
    }
}

/// Parsing the formatted text of a text-compatible tree recovers the tree.
pub proof fn lemma_parse_format_text(t: TreeSpec, sfx: Seq<Seq<char>>)
    requires
        text_ok(t, sfx),
    ensures
        parse_text(fmt_text(t, true), sfx) == t,
{
    lemma_fmt_lines_no_newline(t, sfx);
    lemma_fmt_lines_first(t);
    crate::chars::lemma_split_join(fmt_lines(t, true), '\n');
    lemma_parse_format_tree(t, sfx);
}

/// The round-trip law: for any text produced by formatting a
/// text-compatible tree, parsing it and formatting the result reproduces
/// the text exactly.
pub proof fn lemma_format_parse_format(t: TreeSpec, sfx: Seq<Seq<char>>)
    requires
        text_ok(t, sfx),
    ensures
        fmt_text(parse_text(fmt_text(t, true), sfx), true) == fmt_text(t, true),
{
    lemma_parse_format_text(t, sfx);
}

} // verus!
