//! Grouping: flattening a tree into qualifying media file paths, partitioning
//! them into ordered named groups, and planning the destination directories
//! and symbolic links of the reorganized library.
use vstd::prelude::*;

verus! {

use vstd::seq_lib::group_seq_lib_default;
use vstd::string::*;
use crate::chars::{
    views,
    lex_le,
    ends_with_any,
    split_char,
    split_string,
    str_eq,
    str_ends_with_any,
    dec_str,
    dec2_str,
    dotted,
    u64_to_dec,
    u64_to_dec2,
    replace_spaces_with_dots,
};
use crate::codec::{default_suffixes, default_postfixes};
use crate::tree::{FileTree, TreeSpec, lemma_model_seq_index, lemma_model_seq_len};

broadcast use {
    vstd::seq::axiom_seq_index_decreases,
    vstd::seq::axiom_seq_subrange_decreases,
    vstd::std_specs::vec::axiom_vec_decreases_to_view,
    group_seq_lib_default,
    Seq::lemma_filter_push,
    crate::chars::lemma_views_push,
};

/// The group key of a file path: the name of its immediate containing
/// directory, or empty when the path has no separator.
pub open spec fn parent_dir(p: Seq<char>) -> Seq<char> {
    let parts = split_char(p, '/');
    if parts.len() >= 2 {
        parts[parts.len() - 2]
    } else {
        Seq::empty()
    }
}

/// The file name of a path: everything after the final separator.
pub open spec fn file_name(p: Seq<char>) -> Seq<char> {
    split_char(p, '/').last()
}

/// The function taking each path to its group key.
pub open spec fn parent_dir_fn() -> spec_fn(Seq<char>) -> Seq<char> {
    |p: Seq<char>| parent_dir(p)
}

/// The predicate keeping paths whose name ends with a recognized suffix.
pub open spec fn media_pred(sfx: Seq<Seq<char>>) -> spec_fn(Seq<char>) -> bool {
    |f: Seq<char>| ends_with_any(f, sfx)
}

/// The qualifying file paths of the tree, depth first.
pub open spec fn media_files(t: TreeSpec, sfx: Seq<Seq<char>>) -> Seq<Seq<char>>
    decreases t,
{
    t.files.filter(media_pred(sfx)) + media_files_seq(t.dirs, sfx)
}

/// The concatenated qualifying files of a sequence of trees.
pub open spec fn media_files_seq(ds: Seq<TreeSpec>, sfx: Seq<Seq<char>>) -> Seq<Seq<char>>
    decreases ds, ds.len(),
{
    if ds.len() == 0 {
        Seq::empty()
    } else {
        media_files(ds[0], sfx) + media_files_seq(ds.drop_first(), sfx)
    }
}

proof fn lemma_media_files_seq_push(ds: Seq<TreeSpec>, d: TreeSpec, sfx: Seq<Seq<char>>)
    ensures
        media_files_seq(ds.push(d), sfx) == media_files_seq(ds, sfx) + media_files(d, sfx),
    decreases ds.len(),
{
    if ds.len() == 0 {
        assert(ds.push(d).drop_first() =~= Seq::<TreeSpec>::empty());
        assert(ds.push(d)[0] == d);
        assert(media_files_seq(ds.push(d), sfx) == media_files(d, sfx) + media_files_seq(
            Seq::<TreeSpec>::empty(),
            sfx,
        ));
        assert(media_files_seq(ds.push(d), sfx) =~= media_files_seq(ds, sfx) + media_files(
            d,
            sfx,
        ));
    } else {
        lemma_media_files_seq_push(ds.drop_first(), d, sfx);
        assert(ds.push(d).drop_first() =~= ds.drop_first().push(d));
        assert(ds.push(d)[0] == ds[0]);
        assert(media_files_seq(ds.push(d), sfx) == media_files(ds[0], sfx) + (media_files_seq(
            ds.drop_first(),
            sfx,
        ) + media_files(d, sfx)));
        assert(media_files_seq(ds.push(d), sfx) =~= media_files_seq(ds, sfx) + media_files(
            d,
            sfx,
        ));
    }
}

impl FileTree {
    /// Every file in the tree whose name ends with one of the given
    /// suffixes, depth first, in the tree's own order.
    pub fn generate_file_list(&self, postfixes: &Vec<String>) -> (r: Vec<String>)
        ensures
            views(r@) == media_files(self.model(), views(postfixes@)),
        decreases *self,
    {
        let ghost sv = views(postfixes@);
        let mut r: Vec<String> = Vec::new();
        let mut i: usize = 0;
        proof {
            assert(views(self.files@).take(0) =~= Seq::<Seq<char>>::empty());
            assert(views(r@) =~= views(self.files@).take(0).filter(media_pred(sv)));
        }
        while i < self.files.len()
            invariant
                0 <= i <= self.files@.len(),
                sv == views(postfixes@),
                views(r@) == views(self.files@).take(i as int).filter(media_pred(sv)),
            decreases self.files@.len() - i,
        {
            let ghost pre = views(self.files@).take(i as int);
            proof {
                assert(views(self.files@).take(i as int + 1) =~= pre.push(
                    views(self.files@)[i as int],
                ));
            }
            if str_ends_with_any(self.files[i].as_str(), postfixes) {
                let ghost r0 = views(r@);
                r.push(self.files[i].clone());
                proof {
                    assert(media_pred(sv)(views(self.files@)[i as int]));
                    assert(views(r@) =~= r0.push(views(self.files@)[i as int]));
                }
            } else {
                proof {
                    assert(!media_pred(sv)(views(self.files@)[i as int]));
                }
            }
            i += 1;
        }
        proof {
            assert(views(self.files@).take(self.files@.len() as int) =~= views(self.files@));
        }
        let ghost dm = FileTree::model_seq(self.directories@);
        let mut j: usize = 0;
        proof {
            lemma_model_seq_len(self.directories@);
            assert(dm.take(0) =~= Seq::<TreeSpec>::empty());
        }
        while j < self.directories.len()
            invariant
                0 <= j <= self.directories@.len(),
                sv == views(postfixes@),
                dm == FileTree::model_seq(self.directories@),
                views(r@) == views(self.files@).filter(media_pred(sv)) + media_files_seq(
                    dm.take(j as int),
                    sv,
                ),
            decreases self.directories@.len() - j,
        {
            proof {
                lemma_model_seq_index(self.directories@, j as int);
            }
            let mut sub = self.directories[j].generate_file_list(postfixes);
            let ghost r0 = r@;
            let ghost sub0 = sub@;
            r.append(&mut sub);
            proof {
                assert(views(r@) =~= views(r0) + views(sub0));
                lemma_media_files_seq_push(dm.take(j as int), dm[j as int], sv);
                assert(dm.take(j as int).push(dm[j as int]) =~= dm.take(j as int + 1));
                assert(views(r@) =~= views(self.files@).filter(media_pred(sv)) + media_files_seq(
                    dm.take(j as int + 1),
                    sv,
                ));
            }
            j += 1;
        }
        proof {
            lemma_model_seq_len(self.directories@);
            assert(dm.take(dm.len() as int) =~= dm);
        }
        r
    }
}

/// The distinct entries of `s` in order of first appearance, given the set
/// already seen.
pub open spec fn dedup_from(s: Seq<Seq<char>>, seen: Set<Seq<char>>) -> Seq<Seq<char>>
    decreases s.len(),
{
    if s.len() == 0 {
        Seq::empty()
    } else if seen.contains(s[0]) {
        dedup_from(s.drop_first(), seen)
    } else {
        seq![s[0]] + dedup_from(s.drop_first(), seen.insert(s[0]))
    }
}

/// Inserting into a lexicographically sorted sequence, after all entries
/// ordered at or before it.
pub open spec fn lex_insert(x: Seq<char>, s: Seq<Seq<char>>) -> Seq<Seq<char>>
    decreases s.len(),
{
    if s.len() == 0 {
        seq![x]
    } else if lex_le(s[0], x) {
        seq![s[0]] + lex_insert(x, s.drop_first())
    } else {
        seq![x] + s
    }
}

/// The stable lexicographic sort of the strings.
pub open spec fn lex_sorted(vs: Seq<Seq<char>>) -> Seq<Seq<char>>
    decreases vs.len(),
{
    if vs.len() == 0 {
        Seq::empty()
    } else {
        lex_insert(vs.last(), lex_sorted(vs.drop_last()))
    }
}

/// The group names for a file list: the distinct group keys, sorted
/// lexicographically; a key's position in this order is its group ordinal.
pub open spec fn group_names_spec(fl: Seq<Seq<char>>) -> Seq<Seq<char>> {
    lex_sorted(dedup_from(fl.map_values(parent_dir_fn()), Set::empty()))
}

/// The predicate keeping the paths whose group key is `g`.
pub open spec fn group_member_pred(g: Seq<char>) -> spec_fn(Seq<char>) -> bool {
    |p: Seq<char>| parent_dir(p) == g
}

/// Inserting into a sequence sorted by file name, after all entries whose
/// file name is ordered at or before.
pub open spec fn name_insert(x: Seq<char>, s: Seq<Seq<char>>) -> Seq<Seq<char>>
    decreases s.len(),
{
    if s.len() == 0 {
        seq![x]
    } else if lex_le(file_name(s[0]), file_name(x)) {
        seq![s[0]] + name_insert(x, s.drop_first())
    } else {
        seq![x] + s
    }
}

/// The stable sort of the paths by file name.
pub open spec fn name_sorted(vs: Seq<Seq<char>>) -> Seq<Seq<char>>
    decreases vs.len(),
{
    if vs.len() == 0 {
        Seq::empty()
    } else {
        name_insert(vs.last(), name_sorted(vs.drop_last()))
    }
}

/// The members of the group `g`, sorted lexicographically by file name; a
/// file's position in this order is its item ordinal.
pub open spec fn group_files_spec(fl: Seq<Seq<char>>, g: Seq<char>) -> Seq<Seq<char>> {
    name_sorted(fl.filter(group_member_pred(g)))
}

/// The word selecting season-style grouping.
pub open spec fn season_chars() -> Seq<char> {
    seq!['S', 'e', 'a', 's', 'o', 'n']
}

/// The separator between an ordinal and a name.
pub open spec fn dash_sep() -> Seq<char> {
    seq![' ', '-', ' ']
}

/// The destination subdirectory name of a group: `"Season {ordinal} - {key}"`
/// under season grouping, the bare key otherwise.
pub open spec fn group_dir_spec(ord: nat, g: Seq<char>, gt: Seq<char>) -> Seq<char> {
    if gt == season_chars() {
        season_chars() + seq![' '] + dec_str(ord) + dash_sep() + g
    } else {
        g
    }
}

/// The link name of a file: `"S{group:02}E{item:02} - {name}"` with spaces
/// dotted under season grouping, the bare file name otherwise.
pub open spec fn link_name_spec(gord: nat, iord: nat, f: Seq<char>, gt: Seq<char>) -> Seq<char> {
    if gt == season_chars() {
        seq!['S'] + dec2_str(gord) + seq!['E'] + dec2_str(iord) + dash_sep() + dotted(
            file_name(f),
        )
    } else {
        file_name(f)
    }
}

/// The group key of the path: the name of its immediate containing
/// directory.
pub fn parent_dir_of(p: &str) -> (r: String)
    ensures
        r@ == parent_dir(p@),
{
    let parts = split_string(p, '/');
    if parts.len() >= 2 {
        let r = parts[parts.len() - 2].clone();
        proof {
            assert(r@ == views(parts@)[views(parts@).len() - 2]);
        }
        r
    } else {
        String::new()
    }
}

/// The file name of the path: everything after the final separator.
pub fn file_name_of(p: &str) -> (r: String)
    ensures
        r@ == file_name(p@),
{
    let parts = split_string(p, '/');
    let r = parts[parts.len() - 1].clone();
    proof {
        assert(r@ == views(parts@).last());
    }
    r
}

/// Whether the views of `a` and `b` are ordered `a` before-or-equal `b`.
fn lex_le_exec(a: &str, b: &str) -> (r: bool)
    ensures
        r == lex_le(a@, b@),
{
    let an = a.unicode_len();
    let bn = b.unicode_len();
    let mut i: usize = 0;
    while i < an && i < bn && a.get_char(i) == b.get_char(i)
        invariant
            0 <= i <= an,
            0 <= i <= bn,
            an as nat == a@.len(),
            bn as nat == b@.len(),
            forall|j: int| 0 <= j < i ==> a@[j] == b@[j],
        decreases an - i,
    {
        i += 1;
    }
    proof {
        lemma_lex_le_skip(a@, b@, i as int);
    }
    if i == an {
        proof {
            assert(a@.skip(i as int).len() == 0);
        }
        true
    } else if i == bn {
        proof {
            assert(b@.skip(i as int).len() == 0);
            assert(a@.skip(i as int).len() > 0);
        }
        false
    } else {
        let ca = a.get_char(i);
        let cb = b.get_char(i);
        proof {
            assert(a@.skip(i as int)[0] == a@[i as int]);
            assert(b@.skip(i as int)[0] == b@[i as int]);
            assert(ca != cb);
        }
        (ca as u32) < (cb as u32)
    }
}

proof fn lemma_lex_le_skip(a: Seq<char>, b: Seq<char>, i: int)
    requires
        0 <= i <= a.len(),
        0 <= i <= b.len(),
        forall|j: int| 0 <= j < i ==> a[j] == b[j],
    ensures
        lex_le(a, b) == lex_le(a.skip(i), b.skip(i)),
    decreases i,
{
    if i == 0 {
        assert(a.skip(0) =~= a);
        assert(b.skip(0) =~= b);
    } else {
        assert(a.len() > 0 && b.len() > 0);
        assert(a[0] == b[0]);
        assert(a.drop_first() =~= a.skip(1));
        assert(b.drop_first() =~= b.skip(1));
        assert(forall|j: int| 0 <= j < i - 1 ==> a.skip(1)[j] == b.skip(1)[j]);
        lemma_lex_le_skip(a.skip(1), b.skip(1), i - 1);
        assert(a.skip(1).skip(i - 1) =~= a.skip(i));
        assert(b.skip(1).skip(i - 1) =~= b.skip(i));
    }
}

proof fn lemma_lex_insert_at(s: Seq<Seq<char>>, x: Seq<char>, j: int)
    requires
        0 <= j <= s.len(),
        forall|i: int| 0 <= i < j ==> lex_le(#[trigger] s[i], x),
        j == s.len() || !lex_le(s[j], x),
    ensures
        lex_insert(x, s) == s.take(j) + seq![x] + s.skip(j),
    decreases j,
{
    if j == 0 {
        if s.len() == 0 {
            assert(lex_insert(x, s) =~= s.take(0) + seq![x] + s.skip(0));
        } else {
            assert(lex_insert(x, s) =~= s.take(0) + seq![x] + s.skip(0));
        }
    } else {
        assert(lex_le(s[0], x));
        let rest = s.drop_first();
        assert(forall|i: int| 0 <= i < j - 1 ==> lex_le(#[trigger] rest[i], x));
        lemma_lex_insert_at(rest, x, j - 1);
        assert(rest.take(j - 1) =~= s.subrange(1, j));
        assert(rest.skip(j - 1) =~= s.skip(j));
        assert(lex_insert(x, s) =~= s.take(j) + seq![x] + s.skip(j));
    }
}

proof fn lemma_name_insert_at(s: Seq<Seq<char>>, x: Seq<char>, j: int)
    requires
        0 <= j <= s.len(),
        forall|i: int| 0 <= i < j ==> lex_le(file_name(#[trigger] s[i]), file_name(x)),
        j == s.len() || !lex_le(file_name(s[j]), file_name(x)),
    ensures
        name_insert(x, s) == s.take(j) + seq![x] + s.skip(j),
    decreases j,
{
    if j == 0 {
        assert(name_insert(x, s) =~= s.take(0) + seq![x] + s.skip(0));
    } else {
        assert(lex_le(file_name(s[0]), file_name(x)));
        let rest = s.drop_first();
        assert(forall|i: int| 0 <= i < j - 1 ==> lex_le(file_name(#[trigger] rest[i]), file_name(x)));
        lemma_name_insert_at(rest, x, j - 1);
        assert(rest.take(j - 1) =~= s.subrange(1, j));
        assert(rest.skip(j - 1) =~= s.skip(j));
        assert(name_insert(x, s) =~= s.take(j) + seq![x] + s.skip(j));
    }
}

/// The distinct group keys of the file list, sorted lexicographically: the
/// key at position `i` has group ordinal `i + 1`, no key repeats, and the
/// keys stand in lexicographic order.
pub fn get_sorted_group_names(file_list: Vec<String>) -> (r: Vec<String>)
    ensures
        views(r@) == group_names_spec(views(file_list@)),
        lex_ordered(views(r@)),
        views(r@).no_duplicates(),
{
    let r = sorted_group_names_ref(&file_list);
    proof {
        lemma_group_names_ordered(views(file_list@));
    }
    r
}

fn sorted_group_names_ref(file_list: &Vec<String>) -> (r: Vec<String>)
    ensures
        views(r@) == group_names_spec(views(file_list@)),
{
    let fl = file_list;
    let ghost flv = views(fl@);
    // every file's group key, in order
    let mut keys: Vec<String> = Vec::new();
    let mut i: usize = 0;
    proof {
        assert(flv.take(0) =~= Seq::<Seq<char>>::empty());
        assert(views(keys@) =~= flv.take(0).map_values(parent_dir_fn()));
    }
    while i < fl.len()
        invariant
            0 <= i <= fl@.len(),
            flv == views(fl@),
            views(keys@) == flv.take(i as int).map_values(parent_dir_fn()),
        decreases fl@.len() - i,
    {
        let ghost k0 = views(keys@);
        let key = parent_dir_of(fl[i].as_str());
        keys.push(key);
        proof {
            assert(views(keys@) =~= k0.push(parent_dir(flv[i as int])));
            assert(flv.take(i as int + 1) =~= flv.take(i as int).push(flv[i as int]));
            assert(flv.take(i as int + 1).map_values(parent_dir_fn()) =~= flv.take(
                i as int,
            ).map_values(parent_dir_fn()).push(parent_dir(flv[i as int])));
        }
        i += 1;
    }
    proof {
        assert(flv.take(flv.len() as int) =~= flv);
    }
    let ghost keysv = views(keys@);
    // the distinct keys, in order of first appearance
    let mut distinct: Vec<String> = Vec::new();
    let mut k: usize = 0;
    proof {
        assert(keysv.skip(0) =~= keysv);
        assert(views(distinct@).to_set() =~= Set::<Seq<char>>::empty());
        assert(dedup_from(keysv, Set::empty()) =~= views(distinct@) + dedup_from(
            keysv.skip(0),
            views(distinct@).to_set(),
        ));
    }
    while k < keys.len()
        invariant
            0 <= k <= keys@.len(),
            keysv == views(keys@),
            dedup_from(keysv, Set::empty()) == views(distinct@) + dedup_from(
                keysv.skip(k as int),
                views(distinct@).to_set(),
            ),
        decreases keys@.len() - k,
    {
        let ghost tail = keysv.skip(k as int);
        proof {
            assert(tail[0] == keysv[k as int]);
            assert(tail.drop_first() =~= keysv.skip(k as int + 1));
        }
        let seen = crate::chars::contains_string(&distinct, keys[k].as_str());
        if !seen {
            let ghost d0 = views(distinct@);
            distinct.push(keys[k].clone());
            proof {
                assert(views(distinct@) =~= d0.push(keysv[k as int]));
                crate::chars::lemma_to_set_push(d0, keysv[k as int]);
                assert(dedup_from(tail, d0.to_set()) == seq![keysv[k as int]] + dedup_from(
                    keysv.skip(k as int + 1),
                    d0.to_set().insert(keysv[k as int]),
                ));
                assert(dedup_from(keysv, Set::empty()) =~= views(distinct@) + dedup_from(
                    keysv.skip(k as int + 1),
                    views(distinct@).to_set(),
                ));
            }
        } else {
            proof {
                assert(views(distinct@).to_set().contains(keysv[k as int]));
                assert(dedup_from(tail, views(distinct@).to_set()) == dedup_from(
                    keysv.skip(k as int + 1),
                    views(distinct@).to_set(),
                ));
            }
        }
        k += 1;
    }
    proof {
        assert(keysv.skip(keysv.len() as int) =~= Seq::<Seq<char>>::empty());
        assert(dedup_from(keysv, Set::empty()) =~= views(distinct@));
    }
    let ghost distv = views(distinct@);
    // insertion sort, lexicographic
    let mut out: Vec<String> = Vec::new();
    let mut m: usize = 0;
    proof {
        assert(distv.take(0) =~= Seq::<Seq<char>>::empty());
        assert(views(out@) =~= lex_sorted(distv.take(0)));
    }
    while m < distinct.len()
        invariant
            0 <= m <= distinct@.len(),
            distv == views(distinct@),
            views(out@) == lex_sorted(distv.take(m as int)),
            out@.len() == m,
        decreases distinct@.len() - m,
    {
        proof {
            lemma_lex_sorted_len(distv.take(m as int));
        }
        let x = distinct[m].clone();
        let mut j: usize = 0;
        while j < out.len() && lex_le_exec(out[j].as_str(), x.as_str())
            invariant
                0 <= j <= out@.len(),
                x@ == distv[m as int],
                forall|i: int| 0 <= i < j ==> lex_le(#[trigger] views(out@)[i], x@),
            decreases out@.len() - j,
        {
            j += 1;
        }
        let ghost out0 = views(out@);
        out.insert(j, x);
        proof {
            lemma_lex_insert_at(out0, distv[m as int], j as int);
            assert(views(out@) =~= out0.take(j as int) + seq![distv[m as int]] + out0.skip(
                j as int,
            ));
            assert(distv.take(m as int + 1).drop_last() =~= distv.take(m as int));
            assert(distv.take(m as int + 1).last() == distv[m as int]);
            assert(views(out@) == lex_sorted(distv.take(m as int + 1)));
        }
        m += 1;
    }
    proof {
        assert(distv.take(distv.len() as int) =~= distv);
    }
    out
}

proof fn lemma_lex_sorted_len(vs: Seq<Seq<char>>)
    ensures
        lex_sorted(vs).len() == vs.len(),
    decreases vs.len(),
{
    if vs.len() > 0 {
        lemma_lex_sorted_len(vs.drop_last());
        lemma_lex_insert_len(vs.last(), lex_sorted(vs.drop_last()));
    }
}

proof fn lemma_lex_insert_len(x: Seq<char>, s: Seq<Seq<char>>)
    ensures
        lex_insert(x, s).len() == s.len() + 1,
    decreases s.len(),
{
    if s.len() > 0 && lex_le(s[0], x) {
        lemma_lex_insert_len(x, s.drop_first());
    }
}

/// Whether the file name of `a` is ordered at or before `xname`.
fn file_name_le(a: &str, xname: &str) -> (r: bool)
    ensures
        r == lex_le(file_name(a@), xname@),
{
    let an = file_name_of(a);
    lex_le_exec(an.as_str(), xname)
}

/// The members of the group, sorted lexicographically by file name: the file
/// at position `j` has item ordinal `j + 1`, and the file names stand in
/// lexicographic order.
pub fn get_sorted_group_files(file_list: Vec<String>, group: &str) -> (r: Vec<String>)
    ensures
        views(r@) == group_files_spec(views(file_list@), group@),
        name_ordered(views(r@)),
{
    let r = sorted_group_files_ref(&file_list, group);
    proof {
        lemma_group_files_ordered(views(file_list@), group@);
    }
    r
}

fn sorted_group_files_ref(file_list: &Vec<String>, group: &str) -> (r: Vec<String>)
    ensures
        views(r@) == group_files_spec(views(file_list@), group@),
{
    let fl = file_list;
    let ghost flv = views(fl@);
    let ghost gv = group@;
    let mut members: Vec<String> = Vec::new();
    let mut i: usize = 0;
    proof {
        assert(flv.take(0) =~= Seq::<Seq<char>>::empty());
        assert(views(members@) =~= flv.take(0).filter(group_member_pred(gv)));
    }
    while i < fl.len()
        invariant
            0 <= i <= fl@.len(),
            flv == views(fl@),
            gv == group@,
            views(members@) == flv.take(i as int).filter(group_member_pred(gv)),
        decreases fl@.len() - i,
    {
        let ghost pre = flv.take(i as int);
        proof {
            assert(flv.take(i as int + 1) =~= pre.push(flv[i as int]));
        }
        let key = parent_dir_of(fl[i].as_str());
        if str_eq(key.as_str(), group) {
            let ghost m0 = views(members@);
            members.push(fl[i].clone());
            proof {
                assert(group_member_pred(gv)(flv[i as int]));
                assert(views(members@) =~= m0.push(flv[i as int]));
            }
        } else {
            proof {
                assert(!group_member_pred(gv)(flv[i as int]));
            }
        }
        i += 1;
    }
    proof {
        assert(flv.take(flv.len() as int) =~= flv);
    }
    let ghost memv = views(members@);
    // insertion sort by file name
    let mut out: Vec<String> = Vec::new();
    let mut m: usize = 0;
    proof {
        assert(memv.take(0) =~= Seq::<Seq<char>>::empty());
        assert(views(out@) =~= name_sorted(memv.take(0)));
    }
    while m < members.len()
        invariant
            0 <= m <= members@.len(),
            memv == views(members@),
            views(out@) == name_sorted(memv.take(m as int)),
            out@.len() == m,
        decreases members@.len() - m,
    {
        let x = members[m].clone();
        let xname = file_name_of(x.as_str());
        let mut j: usize = 0;
        while j < out.len() && file_name_le(out[j].as_str(), xname.as_str())
            invariant
                0 <= j <= out@.len(),
                x@ == memv[m as int],
                xname@ == file_name(memv[m as int]),
                forall|i: int|
                    0 <= i < j ==> lex_le(file_name(#[trigger] views(out@)[i]), file_name(x@)),
            decreases out@.len() - j,
        {
            j += 1;
        }
        let ghost out0 = views(out@);
        out.insert(j, x);
        proof {
            lemma_name_insert_at(out0, memv[m as int], j as int);
            assert(views(out@) =~= out0.take(j as int) + seq![memv[m as int]] + out0.skip(
                j as int,
            ));
            assert(memv.take(m as int + 1).drop_last() =~= memv.take(m as int));
            assert(memv.take(m as int + 1).last() == memv[m as int]);
            assert(views(out@) == name_sorted(memv.take(m as int + 1)));
        }
        m += 1;
    }
    proof {
        assert(memv.take(memv.len() as int) =~= memv);
    }
    out
}

fn season_str() -> (r: &'static str)
    ensures
        r@ == season_chars(),
{
    let r = "Season";
    proof {
        reveal_strlit("Season");
        assert(r@ =~= season_chars());
    }
    r
}

fn dash_sep_str() -> (r: &'static str)
    ensures
        r@ == dash_sep(),
{
    let r = " - ";
    proof {
        reveal_strlit(" - ");
        assert(r@ =~= dash_sep());
    }
    r
}

/// The destination subdirectory name of the group with 0-based index `i`:
/// `"Season {i + 1} - {group}"` under season grouping, the bare key
/// otherwise.
pub fn format_group_dir(i: usize, group: &str, grouping_type: &str) -> (r: String)
    requires
        i < usize::MAX,
    ensures
        r@ == group_dir_spec((i + 1) as nat, group@, grouping_type@),
{
    if str_eq(grouping_type, season_str()) {
        let mut r = String::from_str(season_str());
        proof {
            reveal_strlit(" ");
            assert(" "@ =~= seq![' ']);
        }
        r.append(" ");
        let ord = u64_to_dec((i + 1) as u64);
        r.append(ord.as_str());
        r.append(dash_sep_str());
        r.append(group);
        proof {
            assert(r@ =~= group_dir_spec((i + 1) as nat, group@, grouping_type@));
        }
        r
    } else {
        String::from_str(group)
    }
}

/// The link name of the file with 0-based item index `j` in the group with
/// 0-based index `i`: `"S{i + 1:02}E{j + 1:02} - {name}"` with spaces
/// replaced by dots under season grouping, the bare file name otherwise.
pub fn format_link_name(i: usize, j: usize, file: &String, grouping_type: &str) -> (r: String)
    requires
        i < usize::MAX,
        j < usize::MAX,
    ensures
        r@ == link_name_spec((i + 1) as nat, (j + 1) as nat, file@, grouping_type@),
{
    let fname = file_name_of(file.as_str());
    if str_eq(grouping_type, season_str()) {
        proof {
            reveal_strlit("S");
            reveal_strlit("E");
            assert("S"@ =~= seq!['S']);
            assert("E"@ =~= seq!['E']);
        }
        let mut r = String::from_str("S");
        let gord = u64_to_dec2((i + 1) as u64);
        r.append(gord.as_str());
        r.append("E");
        let iord = u64_to_dec2((j + 1) as u64);
        r.append(iord.as_str());
        r.append(dash_sep_str());
        let name = replace_spaces_with_dots(fname.as_str());
        r.append(name.as_str());
        proof {
            assert(r@ =~= link_name_spec((i + 1) as nat, (j + 1) as nat, file@, grouping_type@));
        }
        r
    } else {
        fname
    }
}

/// One group of the planned link farm: the destination directory to create
/// and the links to place in it, each a pair of link path and target.
pub struct GroupPlan {
    pub directory: String,
    pub links: Vec<(String, String)>,
}

/// The views of a vector of links.
pub open spec fn link_views(ls: Seq<(String, String)>) -> Seq<(Seq<char>, Seq<char>)> {
    ls.map_values(|l: (String, String)| (l.0@, l.1@))
}

/// The views of a vector of group plans.
pub open spec fn plan_views(ps: Seq<GroupPlan>) -> Seq<(Seq<char>, Seq<(Seq<char>, Seq<char>)>)> {
    ps.map_values(|p: GroupPlan| (p.directory@, link_views(p.links@)))
}

/// The planned links of the group with ordinal `i + 1`.
pub open spec fn group_plan_spec(
    fl: Seq<Seq<char>>,
    dest: Seq<char>,
    gt: Seq<char>,
    i: int,
) -> (Seq<char>, Seq<(Seq<char>, Seq<char>)>) {
    let names = group_names_spec(fl);
    let dirpath = dest + seq!['/'] + group_dir_spec((i + 1) as nat, names[i], gt);
    let gfiles = group_files_spec(fl, names[i]);
    (
        dirpath,
        Seq::new(
            gfiles.len(),
            |j: int|
                (
                    dirpath + seq!['/'] + link_name_spec((i + 1) as nat, (j + 1) as nat, gfiles[j], gt),
                    gfiles[j],
                ),
        ),
    )
}

/// The whole planned link farm: one entry per group, in ordinal order.
pub open spec fn farm_plan_spec(fl: Seq<Seq<char>>, dest: Seq<char>, gt: Seq<char>) -> Seq<
    (Seq<char>, Seq<(Seq<char>, Seq<char>)>),
> {
    Seq::new(group_names_spec(fl).len(), |i: int| group_plan_spec(fl, dest, gt, i))
}

impl FileTree {
    /// The planned link farm for this tree: for each group of qualifying
    /// files, the destination directory and the links into it, in group and
    /// item ordinal order. Creating the directories and links is left to the
    /// caller, which may skip a group whose directory cannot be made.
    pub fn plan_grouped_symlinks(&self, destination: &str, grouping_type: &str) -> (r: Vec<
        GroupPlan,
    >)
        ensures
            plan_views(r@) == farm_plan_spec(
                media_files(self.model(), default_suffixes()),
                destination@,
                grouping_type@,
            ),
    {
        let postfixes = default_postfixes();
        let file_list = self.generate_file_list(&postfixes);
        let ghost flv = views(file_list@);
        let names = sorted_group_names_ref(&file_list);
        let ghost namesv = views(names@);
        let mut plans: Vec<GroupPlan> = Vec::new();
        let mut i: usize = 0;
        proof {
            assert(plan_views(plans@) =~= farm_plan_spec(
                flv,
                destination@,
                grouping_type@,
            ).take(0));
        }
        while i < names.len()
            invariant
                0 <= i <= names@.len(),
                flv == views(file_list@),
                namesv == views(names@),
                namesv == group_names_spec(flv),
                plan_views(plans@) == farm_plan_spec(flv, destination@, grouping_type@).take(
                    i as int,
                ),
            decreases names@.len() - i,
        {
            let dir = format_group_dir(i, names[i].as_str(), grouping_type);
            let mut dirpath = String::from_str(destination);
            proof {
                reveal_strlit("/");
                assert("/"@ =~= seq!['/']);
            }
            dirpath.append("/");
            dirpath.append(dir.as_str());
            let gfiles = sorted_group_files_ref(&file_list, names[i].as_str());
            let ghost gfv = views(gfiles@);
            let mut links: Vec<(String, String)> = Vec::new();
            let ghost dirpathv = dirpath@;
            let ghost planned = group_plan_spec(flv, destination@, grouping_type@, i as int);
            proof {
                assert(dirpathv == planned.0);
                assert(link_views(links@) =~= planned.1.take(0));
            }
            let mut j: usize = 0;
            while j < gfiles.len()
                invariant
                    0 <= j <= gfiles@.len(),
                    0 <= i < namesv.len(),
                    i < usize::MAX,
                    gfv == views(gfiles@),
                    gfv == group_files_spec(flv, namesv[i as int]),
                    namesv == group_names_spec(flv),
                    flv == views(file_list@),
                    dirpathv == dirpath@,
                    planned == group_plan_spec(flv, destination@, grouping_type@, i as int),
                    dirpathv == planned.0,
                    planned.1.len() == gfv.len(),
                    link_views(links@) == planned.1.take(j as int),
                decreases gfiles@.len() - j,
            {
                let link = format_link_name(i, j, &gfiles[j], grouping_type);
                let mut lpath = dirpath.clone();
                proof {
                    reveal_strlit("/");
                    assert("/"@ =~= seq!['/']);
                }
                lpath.append("/");
                lpath.append(link.as_str());
                let ghost l0 = link_views(links@);
                let ghost lv = lpath@;
                links.push((lpath, gfiles[j].clone()));
                proof {
                    assert(link_views(links@) =~= l0.push((lv, gfv[j as int])));
                    assert((lv, gfv[j as int]) == planned.1[j as int]);
                    assert(link_views(links@) =~= planned.1.take(j as int + 1));
                }
                j += 1;
            }
            proof {
                assert(planned.1.take(gfv.len() as int) =~= planned.1);
            }
            let ghost p0 = plan_views(plans@);
            plans.push(GroupPlan { directory: dirpath, links });
            proof {
                assert(plan_views(plans@) =~= p0.push(planned));
                assert(farm_plan_spec(flv, destination@, grouping_type@).take(i as int + 1)
                    =~= farm_plan_spec(flv, destination@, grouping_type@).take(i as int).push(
                    planned,
                ));
            }
            i += 1;
        }
        proof {
            let whole = farm_plan_spec(flv, destination@, grouping_type@);
            assert(whole.take(whole.len() as int) =~= whole);
        }
        plans
    }
}

/// The links that remain after directory creation: those of every group
/// whose directory was made, in order; a failed group's links are skipped
/// and the rest are unaffected.
pub open spec fn selected_links(
    ps: Seq<(Seq<char>, Seq<(Seq<char>, Seq<char>)>)>,
    ok: Seq<bool>,
) -> Seq<(Seq<char>, Seq<char>)>
    decreases ps.len(),
{
    if ps.len() == 0 {
        Seq::empty()
    } else {
        (if ok[0] {
            ps[0].1
        } else {
            Seq::empty()
        }) + selected_links(ps.drop_first(), ok.drop_first())
    }
}

/// The links to create, given which group directories could be made: all
/// links of every group whose directory exists, none of a group whose
/// directory failed.
pub fn links_for_outcomes(plans: &Vec<GroupPlan>, dir_created: &Vec<bool>) -> (r: Vec<
    (String, String),
>)
    requires
        plans@.len() == dir_created@.len(),
    ensures
        link_views(r@) == selected_links(plan_views(plans@), dir_created@),
{
    let ghost pv = plan_views(plans@);
    let ghost okv = dir_created@;
    let mut r: Vec<(String, String)> = Vec::new();
    let mut i: usize = 0;
    let ghost mut done: Seq<(Seq<char>, Seq<char>)> = Seq::empty();
    proof {
        assert(pv.skip(0) =~= pv);
        assert(okv.skip(0) =~= okv);
        assert(link_views(r@) =~= done);
        assert(selected_links(pv, okv) == done + selected_links(pv.skip(0), okv.skip(0)));
    }
    while i < plans.len()
        invariant
            0 <= i <= plans@.len(),
            plans@.len() == dir_created@.len(),
            pv == plan_views(plans@),
            okv == dir_created@,
            link_views(r@) == done,
            selected_links(pv, okv) == done + selected_links(pv.skip(i as int), okv.skip(i as int)),
        decreases plans@.len() - i,
    {
        let ghost ptail = pv.skip(i as int);
        let ghost otail = okv.skip(i as int);
        proof {
            assert(ptail[0] == pv[i as int]);
            assert(otail[0] == okv[i as int]);
            assert(ptail.drop_first() =~= pv.skip(i as int + 1));
            assert(otail.drop_first() =~= okv.skip(i as int + 1));
        }
        if dir_created[i] {
            let mut k: usize = 0;
            let glinks = &plans[i].links;
            proof {
                assert(link_views(glinks@) == pv[i as int].1);
            }
            while k < glinks.len()
                invariant
                    0 <= k <= glinks@.len(),
                    glinks == &plans@[i as int].links,
                    0 <= i < plans@.len(),
                    pv == plan_views(plans@),
                    link_views(glinks@) == pv[i as int].1,
                    link_views(r@) == done + link_views(glinks@).take(k as int),
                decreases glinks@.len() - k,
            {
                let ghost r0 = link_views(r@);
                r.push((glinks[k].0.clone(), glinks[k].1.clone()));
                proof {
                    assert(link_views(r@) =~= r0.push(link_views(glinks@)[k as int]));
                    assert(link_views(r@) =~= done + link_views(glinks@).take(k as int + 1));
                }
                k += 1;
            }
            proof {
                assert(link_views(glinks@).take(glinks@.len() as int) =~= link_views(glinks@));
                done = done + pv[i as int].1;
                assert(selected_links(pv, okv) =~= done + selected_links(
                    pv.skip(i as int + 1),
                    okv.skip(i as int + 1),
                ));
            }
        } else {
            proof {
                assert(selected_links(ptail, otail) == selected_links(
                    pv.skip(i as int + 1),
                    okv.skip(i as int + 1),
                )) by {
                    assert(Seq::<(Seq<char>, Seq<char>)>::empty() + selected_links(
                        ptail.drop_first(),
                        otail.drop_first(),
                    ) =~= selected_links(ptail.drop_first(), otail.drop_first()));
                }
            }
        }
        i += 1;
    }
    proof {
        assert(pv.skip(pv.len() as int) =~= Seq::<(Seq<char>, Seq<(Seq<char>, Seq<char>)>)>::empty());
        assert(okv.skip(okv.len() as int) =~= Seq::<bool>::empty());
        assert(selected_links(pv, okv) =~= done);
    }
    r
}

/// Partial-failure tolerance: when one group's destination directory cannot
/// be created, every link of every other group is still selected. Each link
/// of a group whose directory was made appears in the selection.
pub proof fn lemma_partial_failure_tolerance(
    ps: Seq<(Seq<char>, Seq<(Seq<char>, Seq<char>)>)>,
    ok: Seq<bool>,
)
    requires
        ps.len() == ok.len(),
    ensures
        forall|i: int, j: int|
            0 <= i < ps.len() && ok[i] && 0 <= j < (#[trigger] ps[i]).1.len() ==> selected_links(
                ps,
                ok,
            ).contains(#[trigger] ps[i].1[j]),
    decreases ps.len(),
{
    if ps.len() > 0 {
        lemma_partial_failure_tolerance(ps.drop_first(), ok.drop_first());
        let head: Seq<(Seq<char>, Seq<char>)> = if ok[0] {
            ps[0].1
        } else {
            Seq::empty()
        };
        let rest = selected_links(ps.drop_first(), ok.drop_first());
        assert forall|i: int, j: int|
            0 <= i < ps.len() && ok[i] && 0 <= j < (#[trigger] ps[i]).1.len() implies selected_links(
            ps,
            ok,
        ).contains(#[trigger] ps[i].1[j]) by {
            if i == 0 {
                assert(selected_links(ps, ok)[j] == ps[0].1[j]);
            } else {
                assert(ps.drop_first()[i - 1] == ps[i]);
                assert(ok.drop_first()[i - 1] == ok[i]);
                assert(rest.contains(ps[i].1[j]));
                let w = choose|w: int| 0 <= w < rest.len() && rest[w] == ps[i].1[j];
                assert(selected_links(ps, ok)[head.len() + w] == rest[w]);
            }
        }
    }
}

/// `s` is in lexicographic order: every entry is ordered at or before each
/// later one.
pub open spec fn lex_ordered(s: Seq<Seq<char>>) -> bool {
    forall|i: int, j: int| 0 <= i < j < s.len() ==> lex_le(#[trigger] s[i], #[trigger] s[j])
}

proof fn lemma_lex_insert_elems(x: Seq<char>, s: Seq<Seq<char>>)
    ensures
        forall|k: int|
            0 <= k < lex_insert(x, s).len() ==> lex_insert(x, s)[k] == x || s.contains(
                #[trigger] lex_insert(x, s)[k],
            ),
    decreases s.len(),
{
    if s.len() == 0 {
    } else if lex_le(s[0], x) {
        lemma_lex_insert_elems(x, s.drop_first());
        let out = lex_insert(x, s);
        assert forall|k: int| 0 <= k < out.len() implies out[k] == x || s.contains(out[k]) by {
            if k == 0 {
                assert(s[0] == out[0]);
                assert(s.contains(s[0]));
            } else {
                let inner = lex_insert(x, s.drop_first());
                assert(out[k] == inner[k - 1]);
                if inner[k - 1] != x {
                    assert(s.drop_first().contains(inner[k - 1]));
                    let w = choose|w: int|
                        0 <= w < s.drop_first().len() && s.drop_first()[w] == inner[k - 1];
                    assert(s[w + 1] == inner[k - 1]);
                }
            }
        }
    }
}

proof fn lemma_lex_insert_ordered(x: Seq<char>, s: Seq<Seq<char>>)
    requires
        lex_ordered(s),
    ensures
        lex_ordered(lex_insert(x, s)),
    decreases s.len(),
{
    if s.len() == 0 {
    } else if lex_le(s[0], x) {
        let rest = s.drop_first();
        assert(forall|i: int, j: int|
            0 <= i < j < rest.len() ==> lex_le(#[trigger] rest[i], #[trigger] rest[j]));
        lemma_lex_insert_ordered(x, rest);
        lemma_lex_insert_elems(x, rest);
        let inner = lex_insert(x, rest);
        let out = lex_insert(x, s);
        assert(out == seq![s[0]] + inner);
        assert forall|i: int, j: int| 0 <= i < j < out.len() implies lex_le(out[i], out[j]) by {
            if i == 0 {
                assert(out[j] == inner[j - 1]);
                if inner[j - 1] == x {
                    assert(lex_le(s[0], x));
                } else {
                    assert(rest.contains(inner[j - 1]));
                    let w = choose|w: int| 0 <= w < rest.len() && rest[w] == inner[j - 1];
                    assert(lex_le(s[0], s[w + 1]));
                }
            } else {
                assert(out[i] == inner[i - 1] && out[j] == inner[j - 1]);
            }
        }
    } else {
        crate::chars::lemma_lex_le_total(s[0], x);
        assert(lex_le(x, s[0]));
        let out = lex_insert(x, s);
        assert(out == seq![x] + s);
        assert forall|i: int, j: int| 0 <= i < j < out.len() implies lex_le(out[i], out[j]) by {
            if i == 0 {
                if j > 0 {
                    if s[j - 1] == s[0] {
                    } else {
                        crate::chars::lemma_lex_le_trans(x, s[0], s[j - 1]);
                    }
                }
            }
        }
    }
}

proof fn lemma_lex_insert_no_dup(x: Seq<char>, s: Seq<Seq<char>>)
    requires
        s.no_duplicates(),
        !s.contains(x),
    ensures
        lex_insert(x, s).no_duplicates(),
        forall|y: Seq<char>|
            #[trigger] lex_insert(x, s).contains(y) <==> (y == x || s.contains(y)),
    decreases s.len(),
{
    let out = lex_insert(x, s);
    if s.len() == 0 {
        assert forall|y: Seq<char>| #[trigger] out.contains(y) implies (y == x || s.contains(
            y,
        )) by {
            let w = choose|w: int| 0 <= w < out.len() && out[w] == y;
        }
        assert(out.contains(x)) by {
            assert(out[0] == x);
        }
    } else if lex_le(s[0], x) {
        let rest = s.drop_first();
        assert(rest.no_duplicates()) by {
            assert(forall|i: int| 0 <= i < rest.len() ==> rest[i] == s[i + 1]);
        }
        assert(!rest.contains(x)) by {
            if rest.contains(x) {
                let w = choose|w: int| 0 <= w < rest.len() && rest[w] == x;
                assert(s[w + 1] == x);
            }
        }
        lemma_lex_insert_no_dup(x, rest);
        let inner = lex_insert(x, rest);
        assert(out == seq![s[0]] + inner);
        assert(!inner.contains(s[0])) by {
            if inner.contains(s[0]) {
                assert(s[0] == x || rest.contains(s[0]));
                if rest.contains(s[0]) {
                    let w = choose|w: int| 0 <= w < rest.len() && rest[w] == s[0];
                    assert(s[w + 1] == s[0]);
                }
                if s[0] == x {
                    assert(s.contains(x)) by {
                        assert(s[0] == x);
                    }
                }
            }
        }
        assert(out.no_duplicates()) by {
            assert forall|i: int, j: int| 0 <= i < j < out.len() implies out[i] != out[j] by {
                if i == 0 {
                    assert(out[j] == inner[j - 1]);
                    assert(inner.contains(inner[j - 1]));
                } else {
                    assert(out[i] == inner[i - 1] && out[j] == inner[j - 1]);
                }
            }
        }
        assert forall|y: Seq<char>| #[trigger] out.contains(y) implies (y == x || s.contains(
            y,
        )) by {
            let w = choose|w: int| 0 <= w < out.len() && out[w] == y;
            if w == 0 {
                assert(s.contains(s[0]));
            } else {
                assert(inner.contains(out[w]));
                assert(y == x || rest.contains(y));
                if rest.contains(y) {
                    let v = choose|v: int| 0 <= v < rest.len() && rest[v] == y;
                    assert(s[v + 1] == y);
                }
            }
        }
        assert forall|y: Seq<char>| (y == x || s.contains(y)) implies #[trigger] out.contains(
            y,
        ) by {
            if y == x {
                assert(inner.contains(x));
                let w = choose|w: int| 0 <= w < inner.len() && inner[w] == x;
                assert(out[w + 1] == x);
            } else {
                let w = choose|w: int| 0 <= w < s.len() && s[w] == y;
                if w == 0 {
                    assert(out[0] == y);
                } else {
                    assert(rest[w - 1] == y);
                    assert(inner.contains(y));
                    let v = choose|v: int| 0 <= v < inner.len() && inner[v] == y;
                    assert(out[v + 1] == y);
                }
            }
        }
    } else {
        assert(out == seq![x] + s);
        assert(out.no_duplicates()) by {
            assert forall|i: int, j: int| 0 <= i < j < out.len() implies out[i] != out[j] by {
                if i == 0 {
                    assert(out[j] == s[j - 1]);
                    if out[j] == x {
                        assert(s.contains(x)) by {
                            assert(s[j - 1] == x);
                        }
                    }
                } else {
                    assert(out[i] == s[i - 1] && out[j] == s[j - 1]);
                }
            }
        }
        assert forall|y: Seq<char>| #[trigger] out.contains(y) implies (y == x || s.contains(
            y,
        )) by {
            let w = choose|w: int| 0 <= w < out.len() && out[w] == y;
            if w > 0 {
                assert(s[w - 1] == y);
            }
        }
        assert forall|y: Seq<char>| (y == x || s.contains(y)) implies #[trigger] out.contains(
            y,
        ) by {
            if y == x {
                assert(out[0] == x);
            } else {
                let w = choose|w: int| 0 <= w < s.len() && s[w] == y;
                assert(out[w + 1] == y);
            }
        }
    }
}

proof fn lemma_lex_sorted_ordered(vs: Seq<Seq<char>>)
    requires
        vs.no_duplicates(),
    ensures
        lex_ordered(lex_sorted(vs)),
        lex_sorted(vs).no_duplicates(),
        forall|y: Seq<char>| #[trigger] lex_sorted(vs).contains(y) <==> vs.contains(y),
    decreases vs.len(),
{
    if vs.len() == 0 {
        assert forall|y: Seq<char>| #[trigger] lex_sorted(vs).contains(y) implies vs.contains(
            y,
        ) by {
            let w = choose|w: int| 0 <= w < lex_sorted(vs).len() && lex_sorted(vs)[w] == y;
        }
    } else {
        let front = vs.drop_last();
        assert(front.no_duplicates()) by {
            assert(forall|i: int| 0 <= i < front.len() ==> front[i] == vs[i]);
        }
        lemma_lex_sorted_ordered(front);
        assert(!lex_sorted(front).contains(vs.last())) by {
            if lex_sorted(front).contains(vs.last()) {
                assert(front.contains(vs.last()));
                let w = choose|w: int| 0 <= w < front.len() && front[w] == vs.last();
                assert(vs[w] == vs[vs.len() - 1]);
            }
        }
        lemma_lex_insert_ordered(vs.last(), lex_sorted(front));
        lemma_lex_insert_no_dup(vs.last(), lex_sorted(front));
        assert forall|y: Seq<char>| #[trigger] lex_sorted(vs).contains(y) implies vs.contains(
            y,
        ) by {
            assert(y == vs.last() || lex_sorted(front).contains(y));
            if y == vs.last() {
                assert(vs[vs.len() - 1] == y);
            } else {
                assert(front.contains(y));
                let w = choose|w: int| 0 <= w < front.len() && front[w] == y;
                assert(vs[w] == y);
            }
        }
        assert forall|y: Seq<char>| vs.contains(y) implies #[trigger] lex_sorted(vs).contains(
            y,
        ) by {
            let w = choose|w: int| 0 <= w < vs.len() && vs[w] == y;
            if w == vs.len() - 1 {
            } else {
                assert(front[w] == y);
                assert(lex_sorted(front).contains(y));
            }
        }
    }
}

proof fn lemma_dedup_no_dup(s: Seq<Seq<char>>, seen: Set<Seq<char>>)
    ensures
        dedup_from(s, seen).no_duplicates(),
        forall|k: int|
            0 <= k < dedup_from(s, seen).len() ==> !seen.contains(#[trigger] dedup_from(s, seen)[k]),
    decreases s.len(),
{
    if s.len() == 0 {
    } else if seen.contains(s[0]) {
        lemma_dedup_no_dup(s.drop_first(), seen);
    } else {
        let d = s[0];
        lemma_dedup_no_dup(s.drop_first(), seen.insert(d));
        let inner = dedup_from(s.drop_first(), seen.insert(d));
        let out = dedup_from(s, seen);
        assert(out == seq![d] + inner);
        assert(forall|k: int| 0 <= k < inner.len() ==> !seen.insert(d).contains(#[trigger] inner[k]));
        assert(out.no_duplicates()) by {
            assert forall|i: int, j: int| 0 <= i < j < out.len() implies out[i] != out[j] by {
                if i == 0 {
                    assert(out[j] == inner[j - 1]);
                    assert(!seen.insert(d).contains(inner[j - 1]));
                } else {
                    assert(out[i] == inner[i - 1] && out[j] == inner[j - 1]);
                }
            }
        }
        assert forall|k: int| 0 <= k < out.len() implies !seen.contains(out[k]) by {
            if k > 0 {
                assert(out[k] == inner[k - 1]);
                assert(!seen.insert(d).contains(inner[k - 1]));
            }
        }
    }
}

/// Lexical ordering: the group names stand in lexicographic order, without
/// repetition, so the name at position `i` has group ordinal `i + 1` and
/// equal keys never occupy two ordinals.
pub proof fn lemma_group_names_ordered(fl: Seq<Seq<char>>)
    ensures
        lex_ordered(group_names_spec(fl)),
        group_names_spec(fl).no_duplicates(),
{
    let keys = fl.map_values(parent_dir_fn());
    lemma_dedup_no_dup(keys, Set::empty());
    lemma_lex_sorted_ordered(dedup_from(keys, Set::empty()));
}

/// `s` is ordered by file name: every entry's file name is ordered at or
/// before each later one's.
pub open spec fn name_ordered(s: Seq<Seq<char>>) -> bool {
    forall|i: int, j: int|
        0 <= i < j < s.len() ==> lex_le(file_name(#[trigger] s[i]), file_name(#[trigger] s[j]))
}

proof fn lemma_name_insert_elems(x: Seq<char>, s: Seq<Seq<char>>)
    ensures
        forall|k: int|
            0 <= k < name_insert(x, s).len() ==> name_insert(x, s)[k] == x || s.contains(
                #[trigger] name_insert(x, s)[k],
            ),
    decreases s.len(),
{
    if s.len() == 0 {
    } else if lex_le(file_name(s[0]), file_name(x)) {
        lemma_name_insert_elems(x, s.drop_first());
        let out = name_insert(x, s);
        assert forall|k: int| 0 <= k < out.len() implies out[k] == x || s.contains(out[k]) by {
            if k == 0 {
                assert(s[0] == out[0]);
                assert(s.contains(s[0]));
            } else {
                let inner = name_insert(x, s.drop_first());
                assert(out[k] == inner[k - 1]);
                if inner[k - 1] != x {
                    assert(s.drop_first().contains(inner[k - 1]));
                    let w = choose|w: int|
                        0 <= w < s.drop_first().len() && s.drop_first()[w] == inner[k - 1];
                    assert(s[w + 1] == inner[k - 1]);
                }
            }
        }
    }
}

proof fn lemma_name_insert_ordered(x: Seq<char>, s: Seq<Seq<char>>)
    requires
        name_ordered(s),
    ensures
        name_ordered(name_insert(x, s)),
    decreases s.len(),
{
    if s.len() == 0 {
    } else if lex_le(file_name(s[0]), file_name(x)) {
        let rest = s.drop_first();
        assert(forall|i: int, j: int|
            0 <= i < j < rest.len() ==> lex_le(
                file_name(#[trigger] rest[i]),
                file_name(#[trigger] rest[j]),
            ));
        lemma_name_insert_ordered(x, rest);
        lemma_name_insert_elems(x, rest);
        let inner = name_insert(x, rest);
        let out = name_insert(x, s);
        assert(out == seq![s[0]] + inner);
        assert forall|i: int, j: int| 0 <= i < j < out.len() implies lex_le(
            file_name(out[i]),
            file_name(out[j]),
        ) by {
            if i == 0 {
                assert(out[j] == inner[j - 1]);
                if inner[j - 1] == x {
                    assert(lex_le(file_name(s[0]), file_name(x)));
                } else {
                    assert(rest.contains(inner[j - 1]));
                    let w = choose|w: int| 0 <= w < rest.len() && rest[w] == inner[j - 1];
                    assert(lex_le(file_name(s[0]), file_name(s[w + 1])));
                }
            } else {
                assert(out[i] == inner[i - 1] && out[j] == inner[j - 1]);
            }
        }
    } else {
        crate::chars::lemma_lex_le_total(file_name(s[0]), file_name(x));
        let out = name_insert(x, s);
        assert(out == seq![x] + s);
        assert forall|i: int, j: int| 0 <= i < j < out.len() implies lex_le(
            file_name(out[i]),
            file_name(out[j]),
        ) by {
            if i == 0 {
                if j > 0 {
                    if s[j - 1] == s[0] {
                    } else {
                        crate::chars::lemma_lex_le_trans(
                            file_name(x),
                            file_name(s[0]),
                            file_name(s[j - 1]),
                        );
                    }
                }
            }
        }
    }
}

proof fn lemma_name_sorted_ordered(vs: Seq<Seq<char>>)
    ensures
        name_ordered(name_sorted(vs)),
    decreases vs.len(),
{
    if vs.len() > 0 {
        lemma_name_sorted_ordered(vs.drop_last());
        lemma_name_insert_ordered(vs.last(), name_sorted(vs.drop_last()));
    }
}

/// Within a group, the member files stand in lexicographic order of file
/// name, so the file at position `j` has item ordinal `j + 1`.
pub proof fn lemma_group_files_ordered(fl: Seq<Seq<char>>, g: Seq<char>)
    ensures
        name_ordered(group_files_spec(fl, g)),
{
    lemma_name_sorted_ordered(fl.filter(group_member_pred(g)));
}

/// Determinism: the group names, the members and ordering of each group,
/// and the whole planned link farm are functions of the file list alone, so
/// two runs over an unchanged tree agree in every ordinal and every order.
pub proof fn lemma_grouper_deterministic(
    fl: Seq<Seq<char>>,
    dest: Seq<char>,
    gt: Seq<char>,
    names1: Seq<Seq<char>>,
    names2: Seq<Seq<char>>,
    plan1: Seq<(Seq<char>, Seq<(Seq<char>, Seq<char>)>)>,
    plan2: Seq<(Seq<char>, Seq<(Seq<char>, Seq<char>)>)>,
)
    requires
        names1 == group_names_spec(fl),
        names2 == group_names_spec(fl),
        plan1 == farm_plan_spec(fl, dest, gt),
        plan2 == farm_plan_spec(fl, dest, gt),
    ensures
        names1 == names2,
        plan1 == plan2,
{
}

} // verus!
