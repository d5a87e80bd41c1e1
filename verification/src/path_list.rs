//! Reconstructing a tree from a flat list of path strings, without any
//! filesystem access: the shortest string is the root; every other string is
//! placed by its path segments relative to the root, with exact
//! segment-by-segment matching deciding which subdirectory owns it.
use vstd::prelude::*;

verus! {

use vstd::multiset::Multiset;
use vstd::seq_lib::group_seq_lib_default;
use vstd::string::*;
use crate::chars::{
    views,
    starts_with,
    split_char,
    split_string,
    str_starts_with,
    str_eq,
    contains_string,
    lemma_to_set_push,
};
use crate::tree::{FileTree, TreeSpec, lemma_model_seq_push, lemma_model_seq_len};

broadcast use {
    vstd::seq::axiom_seq_index_decreases,
    vstd::seq::axiom_seq_subrange_decreases,
    vstd::std_specs::vec::axiom_vec_decreases_to_view,
    group_seq_lib_default,
    Seq::lemma_filter_push,
    crate::chars::lemma_views_push,
};

/// One path under consideration: the original string and its path segments
/// relative to the current root.
pub type PathEntry = (Seq<char>, Seq<Seq<char>>);

/// The views of a vector of path entries.
pub open spec fn entry_views(es: Seq<(String, Vec<String>)>) -> Seq<PathEntry> {
    es.map_values(|e: (String, Vec<String>)| (e.0@, views(e.1@)))
}

/// The total number of path segments across the entries; the measure that
/// shrinks with each recursive build step.
pub open spec fn seg_weight(es: Seq<PathEntry>) -> nat
    decreases es.len(),
{
    if es.len() == 0 {
        0
    } else {
        es[0].1.len() + seg_weight(es.drop_first())
    }
}

/// The entries that belong to the subdirectory named `d`: at least two
/// segments, the first being exactly `d`.
pub open spec fn child_pred(d: Seq<char>) -> spec_fn(PathEntry) -> bool {
    |e: PathEntry| e.1.len() >= 2 && e.1[0] == d
}

/// An entry one level down: the same string, minus its first segment.
pub open spec fn tail_entry_fn() -> spec_fn(PathEntry) -> PathEntry {
    |e: PathEntry| (e.0, e.1.drop_first())
}

/// The entries handed to the subdirectory named `d`, one level down.
pub open spec fn child_entries(es: Seq<PathEntry>, d: Seq<char>) -> Seq<PathEntry> {
    es.filter(child_pred(d)).map_values(tail_entry_fn())
}

/// Some entry among `es` belongs to the subdirectory named `d`.
pub open spec fn has_child_witness(es: Seq<PathEntry>, d: Seq<char>) -> bool {
    exists|w: int| 0 <= w < es.len() && child_pred(d)(#[trigger] es[w])
}

/// Whether the entry is a direct file of the current root.
pub open spec fn file_entry_pred() -> spec_fn(PathEntry) -> bool {
    |e: PathEntry| e.1.len() == 1
}

/// The original string of an entry.
pub open spec fn orig_fn() -> spec_fn(PathEntry) -> Seq<char> {
    |e: PathEntry| e.0
}

/// The original strings of the entries that are direct files of the root,
/// in order.
pub open spec fn root_files(es: Seq<PathEntry>) -> Seq<Seq<char>> {
    es.filter(file_entry_pred()).map_values(orig_fn())
}

/// The distinct first segments of the subdirectory entries, in order of
/// first appearance, given the set already seen.
pub open spec fn dir_names(es: Seq<PathEntry>, seen: Set<Seq<char>>) -> Seq<Seq<char>>
    decreases es.len(),
{
    if es.len() == 0 {
        Seq::empty()
    } else if es[0].1.len() >= 2 && !seen.contains(es[0].1[0]) {
        seq![es[0].1[0]] + dir_names(es.drop_first(), seen.insert(es[0].1[0]))
    } else {
        dir_names(es.drop_first(), seen)
    }
}

pub proof fn lemma_seg_weight_push(es: Seq<PathEntry>, e: PathEntry)
    ensures
        seg_weight(es.push(e)) == seg_weight(es) + e.1.len(),
    decreases es.len(),
{
    let p = es.push(e);
    assert(p.len() == es.len() + 1);
    assert(seg_weight(p) == p[0].1.len() + seg_weight(p.drop_first()));
    if es.len() == 0 {
        assert(p.drop_first() =~= Seq::<PathEntry>::empty());
        assert(seg_weight(p.drop_first()) == 0);
        assert(p[0] == e);
    } else {
        lemma_seg_weight_push(es.drop_first(), e);
        assert(p.drop_first() =~= es.drop_first().push(e));
        assert(p[0] == es[0]);
        assert(seg_weight(es) == es[0].1.len() + seg_weight(es.drop_first()));
    }
}

pub proof fn lemma_seg_weight_filter_le(es: Seq<PathEntry>, pred: spec_fn(PathEntry) -> bool)
    ensures
        seg_weight(es.filter(pred)) <= seg_weight(es),
    decreases es.len(),
{
    reveal(Seq::filter);
    if es.len() > 0 {
        lemma_seg_weight_filter_le(es.drop_last(), pred);
        lemma_seg_weight_push(es.drop_last(), es.last());
        assert(es.drop_last().push(es.last()) =~= es);
        if pred(es.last()) {
            lemma_seg_weight_push(es.drop_last().filter(pred), es.last());
        }
    }
}

pub proof fn lemma_seg_weight_tails(es: Seq<PathEntry>)
    requires
        forall|i: int| 0 <= i < es.len() ==> (#[trigger] es[i]).1.len() >= 1,
    ensures
        seg_weight(es.map_values(tail_entry_fn())) == seg_weight(es) - es.len(),
    decreases es.len(),
{
    if es.len() > 0 {
        assert(forall|i: int|
            0 <= i < es.drop_first().len() ==> (#[trigger] es.drop_first()[i]).1.len() >= 1);
        lemma_seg_weight_tails(es.drop_first());
        assert(es.map_values(tail_entry_fn()).drop_first() =~= es.drop_first().map_values(
            tail_entry_fn(),
        ));
        assert(es.map_values(tail_entry_fn())[0] == tail_entry_fn()(es[0]));
    }
}

/// With a witness among the entries, the child entry set is strictly
/// lighter than the entry set itself.
pub proof fn lemma_child_entries_lighter(es: Seq<PathEntry>, d: Seq<char>)
    requires
        exists|i: int| 0 <= i < es.len() && child_pred(d)(#[trigger] es[i]),
    ensures
        seg_weight(child_entries(es, d)) < seg_weight(es),
{
    let filtered = es.filter(child_pred(d));
    let i = choose|i: int| 0 <= i < es.len() && child_pred(d)(#[trigger] es[i]);
    assert(filtered.contains(es[i]));
    assert(filtered.len() >= 1);
    assert(forall|k: int| 0 <= k < filtered.len() ==> (#[trigger] filtered[k]).1.len() >= 2);
    lemma_seg_weight_tails(filtered);
    lemma_seg_weight_filter_le(es, child_pred(d));
}

/// The reconstructed tree for a root label and the entries below it.
pub open spec fn build_model(root: Seq<char>, es: Seq<PathEntry>) -> TreeSpec
    decreases seg_weight(es), 1int, 0int,
{
    TreeSpec {
        label: root,
        files: root_files(es),
        dirs: build_dirs(root, es, dir_names(es, Set::empty())),
    }
}

/// One reconstructed subtree per subdirectory name, in order.
pub open spec fn build_dirs(root: Seq<char>, es: Seq<PathEntry>, names: Seq<Seq<char>>) -> Seq<
    TreeSpec,
>
    decreases seg_weight(es), 0int, names.len(),
    via build_dirs_decreases
{
    if names.len() == 0 {
        Seq::empty()
    } else if exists|i: int| 0 <= i < es.len() && child_pred(names[0])(#[trigger] es[i]) {
        seq![
            build_model(root + seq!['/'] + names[0], child_entries(es, names[0])),
        ] + build_dirs(root, es, names.drop_first())
    } else {
        build_dirs(root, es, names.drop_first())
    }
}

#[via_fn]
proof fn build_dirs_decreases(root: Seq<char>, es: Seq<PathEntry>, names: Seq<Seq<char>>) {
    if names.len() > 0 {
        if exists|i: int| 0 <= i < es.len() && child_pred(names[0])(#[trigger] es[i]) {
            lemma_child_entries_lighter(es, names[0]);
        }
    }
}

/// `s` without any trailing path separators.
pub open spec fn trim_slashes(s: Seq<char>) -> Seq<char>
    decreases s.len(),
{
    if s.len() > 0 && s.last() == '/' {
        trim_slashes(s.drop_last())
    } else {
        s
    }
}

/// Inserting into a length-sorted sequence, after all entries of the same or
/// shorter length.
pub open spec fn len_insert(x: Seq<char>, s: Seq<Seq<char>>) -> Seq<Seq<char>>
    decreases s.len(),
{
    if s.len() == 0 {
        seq![x]
    } else if s[0].len() <= x.len() {
        seq![s[0]] + len_insert(x, s.drop_first())
    } else {
        seq![x] + s
    }
}

/// The stable sort of the strings by length: later entries of equal length
/// stay behind earlier ones.
pub open spec fn len_sorted(vs: Seq<Seq<char>>) -> Seq<Seq<char>>
    decreases vs.len(),
{
    if vs.len() == 0 {
        Seq::empty()
    } else {
        len_insert(vs.last(), len_sorted(vs.drop_last()))
    }
}

/// The predicate keeping non-empty segments.
pub open spec fn seg_keep_pred() -> spec_fn(Seq<char>) -> bool {
    |t: Seq<char>| t.len() != 0
}

/// The segments of `v` relative to `root`: the root prefix stripped once,
/// the remainder split on separators, empty segments discarded.
pub open spec fn rel_segments(v: Seq<char>, root: Seq<char>) -> Seq<Seq<char>> {
    let rest = if starts_with(v, root) {
        v.skip(root.len() as int)
    } else {
        v
    };
    split_char(rest, '/').filter(seg_keep_pred())
}

/// The entries for the strings in `vs`, relative to `root`.
pub open spec fn entries_of(vs: Seq<Seq<char>>, root: Seq<char>) -> Seq<PathEntry> {
    vs.map_values(|v: Seq<char>| (v, rel_segments(v, root)))
}

/// The tree reconstructed from a non-empty list of path strings: the
/// shortest (earliest such) string, trimmed of trailing separators, is the
/// root; the rest are placed by their segments.
pub open spec fn pathlist_model(vs: Seq<Seq<char>>) -> TreeSpec
    recommends
        vs.len() >= 1,
{
    let sorted = len_sorted(vs);
    let root = trim_slashes(sorted[0]);
    build_model(root, entries_of(sorted.drop_first(), root))
}

proof fn lemma_len_insert_len(x: Seq<char>, s: Seq<Seq<char>>)
    ensures
        len_insert(x, s).len() == s.len() + 1,
    decreases s.len(),
{
    if s.len() > 0 && s[0].len() <= x.len() {
        lemma_len_insert_len(x, s.drop_first());
    }
}

proof fn lemma_len_sorted_len(vs: Seq<Seq<char>>)
    ensures
        len_sorted(vs).len() == vs.len(),
    decreases vs.len(),
{
    if vs.len() > 0 {
        lemma_len_sorted_len(vs.drop_last());
        lemma_len_insert_len(vs.last(), len_sorted(vs.drop_last()));
    }
}

proof fn lemma_len_insert_at(s: Seq<Seq<char>>, x: Seq<char>, j: int)
    requires
        0 <= j <= s.len(),
        forall|i: int| 0 <= i < j ==> (#[trigger] s[i]).len() <= x.len(),
        j == s.len() || s[j].len() > x.len(),
    ensures
        len_insert(x, s) == s.take(j) + seq![x] + s.skip(j),
    decreases j,
{
    if j == 0 {
        if s.len() == 0 {
            assert(len_insert(x, s) =~= s.take(0) + seq![x] + s.skip(0));
        } else {
            assert(s[0].len() > x.len());
            assert(len_insert(x, s) =~= s.take(0) + seq![x] + s.skip(0));
        }
    } else {
        assert(s[0].len() <= x.len());
        let rest = s.drop_first();
        assert(forall|i: int| 0 <= i < j - 1 ==> (#[trigger] rest[i]).len() <= x.len());
        lemma_len_insert_at(rest, x, j - 1);
        assert(rest.take(j - 1) =~= s.subrange(1, j));
        assert(rest.skip(j - 1) =~= s.skip(j));
        assert(len_insert(x, s) =~= s.take(j) + seq![x] + s.skip(j));
    }
}

proof fn lemma_trim_slashes_take(s: Seq<char>, i: int)
    requires
        0 <= i <= s.len(),
        forall|j: int| i <= j < s.len() ==> s[j] == '/',
    ensures
        trim_slashes(s) == trim_slashes(s.take(i)),
    decreases s.len() - i,
{
    if i < s.len() {
        assert(s.last() == '/');
        assert(s.drop_last() =~= s.take(s.len() - 1));
        lemma_trim_slashes_take(s.take(s.len() - 1), i);
        assert(s.take(s.len() - 1).take(i) =~= s.take(i));
    } else {
        assert(s.take(s.len() as int) =~= s);
    }
}

/// The strings sorted stably by character length, shortest first.
fn sort_by_len(values: Vec<String>) -> (r: Vec<String>)
    ensures
        views(r@) == len_sorted(views(values@)),
        r@.len() == values@.len(),
{
    let ghost vv = views(values@);
    let mut out: Vec<String> = Vec::new();
    let mut k: usize = 0;
    proof {
        assert(vv.take(0) =~= Seq::<Seq<char>>::empty());
        assert(views(out@) =~= len_sorted(vv.take(0)));
    }
    while k < values.len()
        invariant
            0 <= k <= values@.len(),
            vv == views(values@),
            views(out@) == len_sorted(vv.take(k as int)),
            out@.len() == k,
        decreases values@.len() - k,
    {
        let x = values[k].clone();
        let xlen = x.as_str().unicode_len();
        let mut j: usize = 0;
        while j < out.len() && out[j].as_str().unicode_len() <= xlen
            invariant
                0 <= j <= out@.len(),
                xlen as nat == x@.len(),
                forall|i: int| 0 <= i < j ==> (#[trigger] views(out@)[i]).len() <= x@.len(),
            decreases out@.len() - j,
        {
            j += 1;
        }
        let ghost out0 = views(out@);
        out.insert(j, x);
        proof {
            lemma_len_insert_at(out0, vv[k as int], j as int);
            assert(views(out@) =~= out0.take(j as int) + seq![vv[k as int]] + out0.skip(j as int));
            assert(vv.take(k as int + 1).drop_last() =~= vv.take(k as int));
            assert(vv.take(k as int + 1).last() == vv[k as int]);
            lemma_len_sorted_len(vv.take(k as int + 1));
            assert(len_sorted(vv.take(k as int + 1)) == len_insert(
                vv[k as int],
                len_sorted(vv.take(k as int)),
            ));
            assert(views(out@) == len_sorted(vv.take(k as int + 1)));
        }
        k += 1;
    }
    proof {
        assert(vv.take(vv.len() as int) =~= vv);
    }
    out
}

/// The string without trailing path separators.
fn trim_trailing_slashes(s: &str) -> (r: String)
    ensures
        r@ == trim_slashes(s@),
{
    let n = s.unicode_len();
    let mut end: usize = n;
    while end > 0 && s.get_char(end - 1) == '/'
        invariant
            0 <= end <= n,
            n as nat == s@.len(),
            forall|j: int| end <= j < n ==> s@[j] == '/',
        decreases end,
    {
        end -= 1;
    }
    let r = String::from_str(s.substring_char(0, end));
    proof {
        lemma_trim_slashes_take(s@, end as int);
        assert(s@.take(end as int) =~= s@.subrange(0, end as int));
        if end > 0 {
            assert(s@.take(end as int).last() != '/');
        }
        assert(trim_slashes(s@.take(end as int)) == s@.take(end as int));
    }
    r
}

/// The path entries for the strings in `rest`, relative to `root`.
fn make_entries(rest: &Vec<String>, root: &str) -> (r: Vec<(String, Vec<String>)>)
    ensures
        entry_views(r@) == entries_of(views(rest@), root@),
{
    let ghost rv = views(rest@);
    let mut r: Vec<(String, Vec<String>)> = Vec::new();
    let mut i: usize = 0;
    proof {
        assert(entry_views(r@) =~= entries_of(rv.take(0), root@));
    }
    while i < rest.len()
        invariant
            0 <= i <= rest@.len(),
            rv == views(rest@),
            entry_views(r@) == entries_of(rv.take(i as int), root@),
        decreases rest@.len() - i,
    {
        let v = &rest[i];
        let rel: String = if str_starts_with(v.as_str(), root) {
            let rn = root.unicode_len();
            let vn = v.as_str().unicode_len();
            let sub = String::from_str(v.as_str().substring_char(rn, vn));
            proof {
                assert(sub@ =~= v@.skip(root@.len() as int));
            }
            sub
        } else {
            v.clone()
        };
        let parts = split_string(rel.as_str(), '/');
        let mut segs: Vec<String> = Vec::new();
        let mut j: usize = 0;
        proof {
            assert(views(parts@).take(0) =~= Seq::<Seq<char>>::empty());
            assert(views(segs@) =~= views(parts@).take(0).filter(seg_keep_pred()));
        }
        while j < parts.len()
            invariant
                0 <= j <= parts@.len(),
                views(segs@) == views(parts@).take(j as int).filter(seg_keep_pred()),
            decreases parts@.len() - j,
        {
            let ghost pre = views(parts@).take(j as int);
            proof {
                assert(views(parts@).take(j as int + 1) =~= pre.push(views(parts@)[j as int]));
            }
            if parts[j].as_str().unicode_len() != 0 {
                let ghost s0 = views(segs@);
                segs.push(parts[j].clone());
                proof {
                    assert(views(segs@) =~= s0.push(views(parts@)[j as int]));
                    assert(seg_keep_pred()(views(parts@)[j as int]));
                }
            } else {
                proof {
                    assert(!seg_keep_pred()(views(parts@)[j as int]));
                }
            }
            j += 1;
        }
        proof {
            assert(views(parts@).take(parts@.len() as int) =~= views(parts@));
            assert(views(segs@) == rel_segments(rv[i as int], root@));
        }
        let ghost r0 = r@;
        r.push((v.clone(), segs));
        proof {
            assert(entry_views(r@) =~= entry_views(r0).push(
                (rv[i as int], rel_segments(rv[i as int], root@)),
            ));
            assert(rv.take(i as int + 1) =~= rv.take(i as int).push(rv[i as int]));
            assert(entries_of(rv.take(i as int + 1), root@) =~= entries_of(
                rv.take(i as int),
                root@,
            ).push((rv[i as int], rel_segments(rv[i as int], root@))));
        }
        i += 1;
    }
    proof {
        assert(rv.take(rv.len() as int) =~= rv);
    }
    r
}

/// The reconstructed tree for a root path and the entries below it.
fn build_tree_exec(path: String, entries: Vec<(String, Vec<String>)>) -> (r: FileTree)
    ensures
        r.model() == build_model(path@, entry_views(entries@)),
    decreases seg_weight(entry_views(entries@)),
{
    let ghost ev = entry_views(entries@);
    let n = entries.len();
    proof {
        assert(ev.len() == n);
    }
    // the direct files of this root, in entry order
    let mut files: Vec<String> = Vec::new();
    let mut i: usize = 0;
    proof {
        assert(ev.take(0) =~= Seq::<PathEntry>::empty());
        assert(views(files@) =~= root_files(ev.take(0)));
    }
    while i < n
        invariant
            0 <= i <= n,
            n == entries@.len(),
            ev == entry_views(entries@),
            views(files@) == root_files(ev.take(i as int)),
        decreases n - i,
    {
        let ghost pre = ev.take(i as int);
        proof {
            assert(ev.take(i as int + 1) =~= pre.push(ev[i as int]));
        }
        if entries[i].1.len() == 1 {
            let ghost f0 = views(files@);
            files.push(entries[i].0.clone());
            proof {
                assert(ev[i as int].1.len() == 1);
                assert(file_entry_pred()(ev[i as int]));
                assert(views(files@) =~= f0.push(ev[i as int].0));
                assert(root_files(pre.push(ev[i as int])) =~= root_files(pre).push(
                    ev[i as int].0,
                ));
            }
        } else {
            proof {
                assert(!file_entry_pred()(ev[i as int]));
                assert(root_files(pre.push(ev[i as int])) =~= root_files(pre));
            }
        }
        i += 1;
    }
    proof {
        assert(ev.take(n as int) =~= ev);
    }
    // the distinct subdirectory names, in order of first appearance
    let mut names: Vec<String> = Vec::new();
    let mut k: usize = 0;
    proof {
        assert(ev.skip(0) =~= ev);
        assert(dir_names(ev, Set::empty()) =~= views(names@) + dir_names(
            ev.skip(0),
            views(names@).to_set(),
        )) by {
            assert(views(names@).to_set() =~= Set::<Seq<char>>::empty());
        }
    }
    while k < n
        invariant
            0 <= k <= n,
            n == entries@.len(),
            ev == entry_views(entries@),
            dir_names(ev, Set::empty()) == views(names@) + dir_names(
                ev.skip(k as int),
                views(names@).to_set(),
            ),
            forall|m: int|
                0 <= m < views(names@).len() ==> has_child_witness(ev, #[trigger] views(
                    names@,
                )[m]),
        decreases n - k,
    {
        let ghost tail = ev.skip(k as int);
        proof {
            assert(tail[0] == ev[k as int]);
            assert(tail.drop_first() =~= ev.skip(k as int + 1));
        }
        if entries[k].1.len() >= 2 {
            let seen = contains_string(&names, entries[k].1[0].as_str());
            proof {
                assert(ev[k as int].1[0] == entries@[k as int].1@[0]@);
            }
            if !seen {
                let ghost n0 = views(names@);
                names.push(entries[k].1[0].clone());
                proof {
                    assert(!n0.to_set().contains(ev[k as int].1[0]));
                    assert(views(names@) =~= n0.push(ev[k as int].1[0]));
                    lemma_to_set_push(n0, ev[k as int].1[0]);
                    assert(views(names@).to_set() == n0.to_set().insert(ev[k as int].1[0]));
                    assert(dir_names(tail, n0.to_set()) == seq![ev[k as int].1[0]] + dir_names(
                        ev.skip(k as int + 1),
                        n0.to_set().insert(ev[k as int].1[0]),
                    ));
                    assert(dir_names(ev, Set::empty()) =~= views(names@) + dir_names(
                        ev.skip(k as int + 1),
                        views(names@).to_set(),
                    ));
                    assert(child_pred(ev[k as int].1[0])(ev[k as int]));
                }
            } else {
                proof {
                    assert(views(names@).to_set().contains(ev[k as int].1[0]));
                    assert(dir_names(tail, views(names@).to_set()) == dir_names(
                        ev.skip(k as int + 1),
                        views(names@).to_set(),
                    ));
                }
            }
        } else {
            proof {
                assert(!(ev[k as int].1.len() >= 2));
                assert(dir_names(tail, views(names@).to_set()) == dir_names(
                    ev.skip(k as int + 1),
                    views(names@).to_set(),
                ));
            }
        }
        k += 1;
    }
    proof {
        assert(ev.skip(n as int) =~= Seq::<PathEntry>::empty());
        assert(dir_names(ev, Set::empty()) =~= views(names@));
    }
    let ghost namesv = views(names@);
    // one subtree per name, built from the entries one level down
    let mut dirs: Vec<FileTree> = Vec::new();
    let mut m: usize = 0;
    proof {
        lemma_model_seq_len(dirs@);
        assert(FileTree::model_seq(dirs@) =~= Seq::<TreeSpec>::empty());
        assert(namesv.skip(0) =~= namesv);
    }
    while m < names.len()
        invariant
            0 <= m <= names@.len(),
            namesv == views(names@),
            ev == entry_views(entries@),
            n == entries@.len(),
            build_dirs(path@, ev, namesv) == FileTree::model_seq(dirs@) + build_dirs(
                path@,
                ev,
                namesv.skip(m as int),
            ),
            forall|q: int| 0 <= q < namesv.len() ==> has_child_witness(ev, #[trigger] namesv[q]),
        decreases names@.len() - m,
    {
        let ghost tailn = namesv.skip(m as int);
        proof {
            assert(tailn[0] == namesv[m as int]);
            assert(tailn.drop_first() =~= namesv.skip(m as int + 1));
        }
        let d = &names[m];
        let ghost dv = namesv[m as int];
        // the entries that belong to this subdirectory, one level down
        let mut child: Vec<(String, Vec<String>)> = Vec::new();
        let mut w: usize = 0;
        proof {
            assert(ev.take(0) =~= Seq::<PathEntry>::empty());
            assert(entry_views(child@) =~= child_entries(ev.take(0), dv));
        }
        while w < n
            invariant
                0 <= w <= n,
                n == entries@.len(),
                ev == entry_views(entries@),
                dv == d@,
                entry_views(child@) == child_entries(ev.take(w as int), dv),
            decreases n - w,
        {
            let ghost pre = ev.take(w as int);
            proof {
                assert(ev.take(w as int + 1) =~= pre.push(ev[w as int]));
            }
            if entries[w].1.len() >= 2 && str_eq(entries[w].1[0].as_str(), d.as_str()) {
                let mut tail_segs: Vec<String> = Vec::new();
                let mut t: usize = 1;
                proof {
                    assert(views(tail_segs@) =~= views(entries@[w as int].1@).subrange(1, 1));
                }
                while t < entries[w].1.len()
                    invariant
                        1 <= t <= entries@[w as int].1@.len(),
                        0 <= w < entries@.len(),
                        views(tail_segs@) == views(entries@[w as int].1@).subrange(1, t as int),
                    decreases entries@[w as int].1@.len() - t,
                {
                    let ghost ts0 = views(tail_segs@);
                    tail_segs.push(entries[w].1[t].clone());
                    proof {
                        assert(views(tail_segs@) =~= ts0.push(
                            views(entries@[w as int].1@)[t as int],
                        ));
                        assert(views(entries@[w as int].1@).subrange(1, t as int + 1) =~= views(
                            entries@[w as int].1@,
                        ).subrange(1, t as int).push(views(entries@[w as int].1@)[t as int]));
                    }
                    t += 1;
                }
                let ghost c0 = child@;
                child.push((entries[w].0.clone(), tail_segs));
                proof {
                    assert(views(entries@[w as int].1@).subrange(
                        1,
                        entries@[w as int].1@.len() as int,
                    ) =~= ev[w as int].1.drop_first());
                    assert(child_pred(dv)(ev[w as int]));
                    assert(entry_views(child@) =~= entry_views(c0).push(
                        (ev[w as int].0, ev[w as int].1.drop_first()),
                    ));
                    assert(child_entries(pre.push(ev[w as int]), dv) =~= child_entries(
                        pre,
                        dv,
                    ).push((ev[w as int].0, ev[w as int].1.drop_first())));
                }
            } else {
                proof {
                    assert(!child_pred(dv)(ev[w as int]));
                    assert(child_entries(pre.push(ev[w as int]), dv) =~= child_entries(pre, dv));
                }
            }
            w += 1;
        }
        proof {
            assert(ev.take(n as int) =~= ev);
        }
        // the subdirectory's own path: this root, a separator, its name
        let mut child_path = path.clone();
        child_path.append("/");
        child_path.append(d.as_str());
        proof {
            reveal_strlit("/");
            assert("/"@ =~= seq!['/']);
            assert(child_path@ =~= path@ + seq!['/'] + dv);
        }
        proof {
            assert(has_child_witness(ev, dv));
            lemma_child_entries_lighter(ev, dv);
        }
        let sub = build_tree_exec(child_path, child);
        let ghost d0 = dirs@;
        dirs.push(sub);
        proof {
            lemma_model_seq_push(d0, sub);
            assert(build_dirs(path@, ev, tailn) == seq![
                build_model(path@ + seq!['/'] + dv, child_entries(ev, dv)),
            ] + build_dirs(path@, ev, namesv.skip(m as int + 1)));
            assert(FileTree::model_seq(dirs@) + build_dirs(path@, ev, namesv.skip(m as int + 1))
                =~= FileTree::model_seq(d0) + build_dirs(path@, ev, tailn));
        }
        m += 1;
    }
    proof {
        assert(namesv.skip(namesv.len() as int) =~= Seq::<Seq<char>>::empty());
        assert(build_dirs(path@, ev, namesv) =~= FileTree::model_seq(dirs@));
    }
    let r = FileTree { path, files, directories: dirs };
    proof {
        assert(r.model() == build_model(r.path@, ev));
    }
    r
}

/// Whether the entry survives placement: at least one segment relative to
/// its root.
pub open spec fn surviving_pred() -> spec_fn(PathEntry) -> bool {
    |e: PathEntry| e.1.len() >= 1
}

/// Whether the entry belongs to some subdirectory: at least two segments.
pub open spec fn dirish_pred() -> spec_fn(PathEntry) -> bool {
    |e: PathEntry| e.1.len() >= 2
}

/// Whether the entry belongs to a subdirectory not yet handled.
pub open spec fn unseen_dir_pred(seen: Set<Seq<char>>) -> spec_fn(PathEntry) -> bool {
    |e: PathEntry| e.1.len() >= 2 && !seen.contains(e.1[0])
}

/// The original strings of the entries kept by `pred`, as a multiset.
pub open spec fn orig_ms(es: Seq<PathEntry>, pred: spec_fn(PathEntry) -> bool) -> Multiset<
    Seq<char>,
> {
    es.filter(pred).map_values(orig_fn()).to_multiset()
}

/// The original strings of the surviving entries, in order.
pub open spec fn surviving_paths(es: Seq<PathEntry>) -> Seq<Seq<char>> {
    es.filter(surviving_pred()).map_values(orig_fn())
}

/// The combined multiset of original strings over the groups named in
/// `names`.
pub open spec fn child_orig_ms(es: Seq<PathEntry>, names: Seq<Seq<char>>) -> Multiset<Seq<char>>
    decreases names.len(),
{
    if names.len() == 0 {
        Multiset::empty()
    } else {
        orig_ms(es, child_pred(names[0])).add(child_orig_ms(es, names.drop_first()))
    }
}

/// Splitting a filter over two disjoint predicates splits the multiset of
/// original strings.
proof fn lemma_orig_ms_split(
    es: Seq<PathEntry>,
    r: spec_fn(PathEntry) -> bool,
    p: spec_fn(PathEntry) -> bool,
    q: spec_fn(PathEntry) -> bool,
)
    requires
        forall|e: PathEntry| #[trigger] r(e) <==> (p(e) || q(e)),
        forall|e: PathEntry| #[trigger] p(e) ==> !q(e),
    ensures
        orig_ms(es, r) == orig_ms(es, p).add(orig_ms(es, q)),
    decreases es.len(),
{
    broadcast use vstd::multiset::group_multiset_axioms;
    broadcast use vstd::seq_lib::group_to_multiset_ensures;

    reveal(Seq::filter);
    if es.len() == 0 {
        assert(es.filter(r).map_values(orig_fn()) =~= Seq::<Seq<char>>::empty());
        assert(es.filter(p).map_values(orig_fn()) =~= Seq::<Seq<char>>::empty());
        assert(es.filter(q).map_values(orig_fn()) =~= Seq::<Seq<char>>::empty());
        assert(orig_ms(es, r) =~= orig_ms(es, p).add(orig_ms(es, q)));
    } else {
        let rest = es.drop_last();
        let x = es.last();
        lemma_orig_ms_split(rest, r, p, q);
        assert(es.filter(r) == rest.filter(r) + (if r(x) {
            seq![x]
        } else {
            Seq::<PathEntry>::empty()
        }));
        assert(es.filter(p) == rest.filter(p) + (if p(x) {
            seq![x]
        } else {
            Seq::<PathEntry>::empty()
        }));
        assert(es.filter(q) == rest.filter(q) + (if q(x) {
            seq![x]
        } else {
            Seq::<PathEntry>::empty()
        }));
        if r(x) {
            assert(es.filter(r).map_values(orig_fn()) =~= rest.filter(r).map_values(
                orig_fn(),
            ).push(x.0));
            assert(orig_ms(es, r) =~= orig_ms(rest, r).insert(x.0));
        } else {
            assert(es.filter(r).map_values(orig_fn()) =~= rest.filter(r).map_values(orig_fn()));
        }
        if p(x) {
            assert(es.filter(p).map_values(orig_fn()) =~= rest.filter(p).map_values(
                orig_fn(),
            ).push(x.0));
            assert(orig_ms(es, p) =~= orig_ms(rest, p).insert(x.0));
        } else {
            assert(es.filter(p).map_values(orig_fn()) =~= rest.filter(p).map_values(orig_fn()));
        }
        if q(x) {
            assert(es.filter(q).map_values(orig_fn()) =~= rest.filter(q).map_values(
                orig_fn(),
            ).push(x.0));
            assert(orig_ms(es, q) =~= orig_ms(rest, q).insert(x.0));
        } else {
            assert(es.filter(q).map_values(orig_fn()) =~= rest.filter(q).map_values(orig_fn()));
        }
        assert(orig_ms(es, r) =~= orig_ms(es, p).add(orig_ms(es, q)));
    }
}

/// The first subdirectory name is never one already seen.
proof fn lemma_dir_names_first_unseen(es: Seq<PathEntry>, seen: Set<Seq<char>>)
    requires
        dir_names(es, seen).len() > 0,
    ensures
        !seen.contains(dir_names(es, seen)[0]),
    decreases es.len(),
{
    if es.len() == 0 {
    } else if es[0].1.len() >= 2 && !seen.contains(es[0].1[0]) {
    } else {
        lemma_dir_names_first_unseen(es.drop_first(), seen);
    }
}

/// Marking the first name as seen drops exactly that name from the front.
proof fn lemma_dir_names_insert_first(es: Seq<PathEntry>, seen: Set<Seq<char>>)
    requires
        dir_names(es, seen).len() > 0,
    ensures
        dir_names(es, seen.insert(dir_names(es, seen)[0])) == dir_names(es, seen).drop_first(),
    decreases es.len(),
{
    let names = dir_names(es, seen);
    let d = names[0];
    if es.len() == 0 {
    } else if es[0].1.len() >= 2 && !seen.contains(es[0].1[0]) {
        assert(d == es[0].1[0]);
        assert(seen.insert(d).contains(es[0].1[0]));
        assert(dir_names(es, seen.insert(d)) == dir_names(es.drop_first(), seen.insert(d)));
        assert(names.drop_first() =~= dir_names(es.drop_first(), seen.insert(d)));
    } else if es[0].1.len() >= 2 {
        assert(seen.contains(es[0].1[0]));
        assert(seen.insert(d).contains(es[0].1[0]));
        lemma_dir_names_insert_first(es.drop_first(), seen);
    } else {
        lemma_dir_names_insert_first(es.drop_first(), seen);
    }
}

/// Every subdirectory entry's first segment is either already seen or among
/// the collected names.
proof fn lemma_dir_names_cover(es: Seq<PathEntry>, seen: Set<Seq<char>>)
    ensures
        forall|i: int|
            0 <= i < es.len() && (#[trigger] es[i]).1.len() >= 2 ==> seen.contains(es[i].1[0])
                || dir_names(es, seen).contains(es[i].1[0]),
    decreases es.len(),
{
    if es.len() == 0 {
    } else {
        let rest = es.drop_first();
        let names = dir_names(es, seen);
        if es[0].1.len() >= 2 && !seen.contains(es[0].1[0]) {
            let d = es[0].1[0];
            lemma_dir_names_cover(rest, seen.insert(d));
            assert(names == seq![d] + dir_names(rest, seen.insert(d)));
            assert(names[0] == d);
            assert forall|i: int|
                0 <= i < es.len() && (#[trigger] es[i]).1.len() >= 2 implies seen.contains(
                es[i].1[0],
            ) || names.contains(es[i].1[0]) by {
                if i == 0 {
                    assert(names.contains(d));
                } else {
                    assert(rest[i - 1] == es[i]);
                    if !seen.insert(d).contains(es[i].1[0]) {
                        let sub = dir_names(rest, seen.insert(d));
                        assert(sub.contains(es[i].1[0]));
                        let w = choose|w: int| 0 <= w < sub.len() && sub[w] == es[i].1[0];
                        assert(names[w + 1] == sub[w]);
                    } else if es[i].1[0] == d {
                        assert(names.contains(d));
                    }
                }
            }
        } else {
            lemma_dir_names_cover(rest, seen);
            assert(names == dir_names(rest, seen));
            assert forall|i: int|
                0 <= i < es.len() && (#[trigger] es[i]).1.len() >= 2 implies seen.contains(
                es[i].1[0],
            ) || names.contains(es[i].1[0]) by {
                if i == 0 {
                } else {
                    assert(rest[i - 1] == es[i]);
                }
            }
        }
    }
}

/// Every collected subdirectory name has a witness among the entries.
proof fn lemma_dir_names_witness(es: Seq<PathEntry>, seen: Set<Seq<char>>)
    ensures
        forall|k: int|
            0 <= k < dir_names(es, seen).len() ==> has_child_witness(
                es,
                #[trigger] dir_names(es, seen)[k],
            ),
    decreases es.len(),
{
    if es.len() == 0 {
    } else {
        let rest = es.drop_first();
        let names = dir_names(es, seen);
        let inner_seen: Set<Seq<char>> = if es[0].1.len() >= 2 && !seen.contains(es[0].1[0]) {
            seen.insert(es[0].1[0])
        } else {
            seen
        };
        lemma_dir_names_witness(rest, inner_seen);
        assert forall|k: int| 0 <= k < names.len() implies has_child_witness(es, names[k]) by {
            if es[0].1.len() >= 2 && !seen.contains(es[0].1[0]) {
                if k == 0 {
                    assert(child_pred(names[0])(es[0]));
                } else {
                    assert(names[k] == dir_names(rest, inner_seen)[k - 1]);
                    assert(has_child_witness(rest, names[k]));
                    let w = choose|w: int|
                        0 <= w < rest.len() && child_pred(names[k])(#[trigger] rest[w]);
                    assert(es[w + 1] == rest[w]);
                }
            } else {
                assert(names[k] == dir_names(rest, inner_seen)[k]);
                assert(has_child_witness(rest, names[k]));
                let w = choose|w: int|
                    0 <= w < rest.len() && child_pred(names[k])(#[trigger] rest[w]);
                assert(es[w + 1] == rest[w]);
            }
        }
    }
}

/// The subdirectory entries not yet handled are exactly the union of the
/// named groups, as multisets of original strings.
proof fn lemma_children_partition(es: Seq<PathEntry>, seen: Set<Seq<char>>)
    ensures
        orig_ms(es, unseen_dir_pred(seen)) == child_orig_ms(es, dir_names(es, seen)),
    decreases dir_names(es, seen).len(),
{
    broadcast use vstd::multiset::group_multiset_axioms;

    let names = dir_names(es, seen);
    if names.len() == 0 {
        lemma_dir_names_cover(es, seen);
        assert forall|i: int| 0 <= i < es.len() implies !(unseen_dir_pred(seen)(
            #[trigger] es[i],
        )) by {
            if es[i].1.len() >= 2 {
                assert(seen.contains(es[i].1[0]) || names.contains(es[i].1[0]));
            }
        }
        crate::chars::lemma_filter_all_false(es, unseen_dir_pred(seen));
        assert(es.filter(unseen_dir_pred(seen)).map_values(orig_fn()) =~= Seq::<
            Seq<char>,
        >::empty());
        broadcast use vstd::seq_lib::group_to_multiset_ensures;

        assert(orig_ms(es, unseen_dir_pred(seen)) =~= Multiset::<Seq<char>>::empty());
    } else {
        let d = names[0];
        lemma_dir_names_first_unseen(es, seen);
        assert(!seen.contains(d));
        let seen2 = seen.insert(d);
        lemma_dir_names_insert_first(es, seen);
        assert(dir_names(es, seen2) == names.drop_first());
        assert(forall|e: PathEntry| #[trigger] unseen_dir_pred(seen)(e) <==> (child_pred(d)(e)
            || unseen_dir_pred(seen2)(e)));
        assert(forall|e: PathEntry| #[trigger] child_pred(d)(e) ==> !unseen_dir_pred(seen2)(e));
        lemma_orig_ms_split(es, unseen_dir_pred(seen), child_pred(d), unseen_dir_pred(seen2));
        lemma_children_partition(es, seen2);
        assert(child_orig_ms(es, names) == orig_ms(es, child_pred(d)).add(
            child_orig_ms(es, names.drop_first()),
        ));
    }
}

/// The surviving entries split into the direct files and the subdirectory
/// entries.
proof fn lemma_surviving_split(es: Seq<PathEntry>)
    ensures
        orig_ms(es, surviving_pred()) == orig_ms(es, file_entry_pred()).add(
            orig_ms(es, dirish_pred()),
        ),
        orig_ms(es, dirish_pred()) == orig_ms(es, unseen_dir_pred(Set::empty())),
{
    assert(forall|e: PathEntry| #[trigger] surviving_pred()(e) <==> (file_entry_pred()(e)
        || dirish_pred()(e)));
    assert(forall|e: PathEntry| #[trigger] file_entry_pred()(e) ==> !dirish_pred()(e));
    lemma_orig_ms_split(es, surviving_pred(), file_entry_pred(), dirish_pred());
    assert(forall|e: PathEntry| #[trigger] dirish_pred()(e) <==> unseen_dir_pred(Set::empty())(
        e,
    ));
    assert(dirish_pred() =~= unseen_dir_pred(Set::<Seq<char>>::empty()));
}

/// The surviving originals of a group's entries, one level down, are the
/// originals of the group's entries.
proof fn lemma_child_survivors(es: Seq<PathEntry>, d: Seq<char>)
    ensures
        surviving_paths(child_entries(es, d)).to_multiset() == orig_ms(es, child_pred(d)),
{
    let ce = child_entries(es, d);
    assert(forall|k: int| 0 <= k < ce.len() ==> (#[trigger] ce[k]).1.len() >= 1) by {
        assert(forall|k: int|
            0 <= k < es.filter(child_pred(d)).len() ==> (#[trigger] es.filter(child_pred(d))[
                k
            ]).1.len() >= 2);
    }
    assert(forall|k: int|
        0 <= k < ce.len() ==> surviving_pred()(#[trigger] ce[k]));
    crate::chars::lemma_filter_all_true(ce, surviving_pred());
    assert(surviving_paths(ce) =~= es.filter(child_pred(d)).map_values(orig_fn()));
}

/// Coverage of the reconstruction: flattening the built tree reproduces,
/// as a multiset, exactly the original strings of the entries that have at
/// least one segment — every such path appears in the tree exactly once.
pub proof fn lemma_pathlist_coverage_build(root: Seq<char>, es: Seq<PathEntry>)
    ensures
        crate::tree::deep_files(build_model(root, es)).to_multiset() == surviving_paths(
            es,
        ).to_multiset(),
    decreases seg_weight(es), 1int, 0int,
{
    broadcast use vstd::multiset::group_multiset_axioms;
    broadcast use vstd::seq_lib::lemma_multiset_commutative;

    let t = build_model(root, es);
    let names = dir_names(es, Set::empty());
    lemma_dir_names_witness(es, Set::empty());
    lemma_coverage_dirs(root, es, names);
    assert(crate::tree::deep_files(t) == root_files(es) + crate::tree::deep_files_seq(
        build_dirs(root, es, names),
    ));
    lemma_children_partition(es, Set::empty());
    lemma_surviving_split(es);
    assert(crate::tree::deep_files(t).to_multiset() =~= surviving_paths(es).to_multiset());
}

/// Coverage of the subdirectory builds: the flattened files over the built
/// subtrees are, as a multiset, the originals of the named groups.
proof fn lemma_coverage_dirs(root: Seq<char>, es: Seq<PathEntry>, names: Seq<Seq<char>>)
    requires
        forall|k: int| 0 <= k < names.len() ==> has_child_witness(es, #[trigger] names[k]),
    ensures
        crate::tree::deep_files_seq(build_dirs(root, es, names)).to_multiset() == child_orig_ms(
            es,
            names,
        ),
    decreases seg_weight(es), 0int, names.len(),
{
    broadcast use vstd::multiset::group_multiset_axioms;
    broadcast use vstd::seq_lib::lemma_multiset_commutative;
    broadcast use vstd::seq_lib::group_to_multiset_ensures;

    if names.len() == 0 {
        assert(build_dirs(root, es, names) == Seq::<TreeSpec>::empty());
        assert(crate::tree::deep_files_seq(Seq::<TreeSpec>::empty()) =~= Seq::<
            Seq<char>,
        >::empty());
        assert(Seq::<Seq<char>>::empty().to_multiset() =~= Multiset::<Seq<char>>::empty());
    } else {
        let d = names[0];
        assert(has_child_witness(es, d));
        let child = build_model(root + seq!['/'] + d, child_entries(es, d));
        let built = build_dirs(root, es, names);
        assert(built == seq![child] + build_dirs(root, es, names.drop_first()));
        assert(built[0] == child);
        assert(built.drop_first() =~= build_dirs(root, es, names.drop_first()));
        assert(crate::tree::deep_files_seq(built) == crate::tree::deep_files(child)
            + crate::tree::deep_files_seq(build_dirs(root, es, names.drop_first())));
        lemma_child_entries_lighter(es, d);
        lemma_pathlist_coverage_build(root + seq!['/'] + d, child_entries(es, d));
        lemma_child_survivors(es, d);
        assert(forall|k: int|
            0 <= k < names.drop_first().len() ==> has_child_witness(
                es,
                #[trigger] names.drop_first()[k],
            ));
        lemma_coverage_dirs(root, es, names.drop_first());
        assert(crate::tree::deep_files_seq(built).to_multiset() =~= child_orig_ms(es, names));
    }
}

/// Throughout the tree, no two children of one node carry the same label:
/// directory identity is path equality.
pub open spec fn children_distinct(t: TreeSpec) -> bool
    decreases t,
{
    &&& (forall|i: int, j: int|
        0 <= i < j < t.dirs.len() ==> (#[trigger] t.dirs[i]).label != (#[trigger] t.dirs[j]).label)
    &&& children_distinct_seq(t.dirs)
}

/// Every tree of the sequence has pairwise distinct children, recursively.
pub open spec fn children_distinct_seq(ds: Seq<TreeSpec>) -> bool
    decreases ds, ds.len(),
{
    if ds.len() == 0 {
        true
    } else {
        children_distinct(ds[0]) && children_distinct_seq(ds.drop_first())
    }
}

/// The label is one of the named subdirectories under this root.
pub open spec fn label_from(root: Seq<char>, names: Seq<Seq<char>>, l: Seq<char>) -> bool {
    exists|m: int| 0 <= m < names.len() && l == root + seq!['/'] + names[m]
}

proof fn lemma_label_inj(root: Seq<char>, a: Seq<char>, b: Seq<char>)
    requires
        root + seq!['/'] + a == root + seq!['/'] + b,
    ensures
        a == b,
{
    let la = root + seq!['/'] + a;
    let lb = root + seq!['/'] + b;
    assert(la.len() == root.len() + 1 + a.len());
    assert(lb.len() == root.len() + 1 + b.len());
    assert(a =~= la.skip(root.len() as int + 1));
    assert(b =~= lb.skip(root.len() as int + 1));
}

/// The collected subdirectory names never repeat and never revisit a name
/// already seen.
proof fn lemma_dir_names_no_dup(es: Seq<PathEntry>, seen: Set<Seq<char>>)
    ensures
        dir_names(es, seen).no_duplicates(),
        forall|k: int|
            0 <= k < dir_names(es, seen).len() ==> !seen.contains(
                #[trigger] dir_names(es, seen)[k],
            ),
    decreases es.len(),
{
    if es.len() == 0 {
    } else if es[0].1.len() >= 2 && !seen.contains(es[0].1[0]) {
        let d = es[0].1[0];
        lemma_dir_names_no_dup(es.drop_first(), seen.insert(d));
        let inner = dir_names(es.drop_first(), seen.insert(d));
        let out = dir_names(es, seen);
        assert(out == seq![d] + inner);
        assert(forall|k: int|
            0 <= k < inner.len() ==> !seen.insert(d).contains(#[trigger] inner[k]));
        assert(out.no_duplicates()) by {
            assert forall|i: int, j: int| 0 <= i < j < out.len() implies out[i] != out[j] by {
                if i == 0 {
                    assert(out[j] == inner[j - 1]);
                    assert(!seen.insert(d).contains(inner[j - 1]));
                } else {
                    assert(out[i] == inner[i - 1] && out[j] == inner[j - 1]);
                }
            }
        }
        assert forall|k: int| 0 <= k < out.len() implies !seen.contains(out[k]) by {
            if k > 0 {
                assert(out[k] == inner[k - 1]);
                assert(!seen.insert(d).contains(inner[k - 1]));
            }
        }
    } else {
        lemma_dir_names_no_dup(es.drop_first(), seen);
    }
}

/// The built subtrees carry distinct labels drawn from the given names, and
/// their own children are distinct in turn.
proof fn lemma_build_dirs_distinct(root: Seq<char>, es: Seq<PathEntry>, names: Seq<Seq<char>>)
    requires
        names.no_duplicates(),
    ensures
        forall|i: int, j: int|
            0 <= i < j < build_dirs(root, es, names).len() ==> (#[trigger] build_dirs(
                root,
                es,
                names,
            )[i]).label != (#[trigger] build_dirs(root, es, names)[j]).label,
        forall|k: int|
            0 <= k < build_dirs(root, es, names).len() ==> label_from(
                root,
                names,
                (#[trigger] build_dirs(root, es, names)[k]).label,
            ),
        children_distinct_seq(build_dirs(root, es, names)),
    decreases seg_weight(es), 0int, names.len(),
{
    let built = build_dirs(root, es, names);
    if names.len() == 0 {
    } else {
        let rest = names.drop_first();
        assert(rest.no_duplicates()) by {
            assert(forall|i: int| 0 <= i < rest.len() ==> rest[i] == names[i + 1]);
        }
        if exists|i: int| 0 <= i < es.len() && child_pred(names[0])(#[trigger] es[i]) {
            lemma_child_entries_lighter(es, names[0]);
            lemma_build_dirs_distinct(root, es, rest);
            lemma_build_model_children_distinct(
                root + seq!['/'] + names[0],
                child_entries(es, names[0]),
            );
            let t0 = build_model(root + seq!['/'] + names[0], child_entries(es, names[0]));
            let inner = build_dirs(root, es, rest);
            assert(built == seq![t0] + inner);
            assert forall|i: int, j: int| 0 <= i < j < built.len() implies built[i].label
                != built[j].label by {
                if i == 0 {
                    assert(built[j] == inner[j - 1]);
                    assert(label_from(root, rest, inner[j - 1].label));
                    let m = choose|m: int|
                        0 <= m < rest.len() && inner[j - 1].label == root + seq!['/'] + rest[m];
                    if built[0].label == built[j].label {
                        lemma_label_inj(root, names[0], rest[m]);
                        assert(names[0] == names[m + 1]);
                    }
                } else {
                    assert(built[i] == inner[i - 1] && built[j] == inner[j - 1]);
                    assert(inner[i - 1].label != inner[j - 1].label);
                }
            }
            assert forall|k: int| 0 <= k < built.len() implies label_from(
                root,
                names,
                built[k].label,
            ) by {
                if k == 0 {
                    assert(built[0].label == root + seq!['/'] + names[0]);
                } else {
                    assert(built[k] == inner[k - 1]);
                    assert(label_from(root, rest, inner[k - 1].label));
                    let m = choose|m: int|
                        0 <= m < rest.len() && inner[k - 1].label == root + seq!['/'] + rest[m];
                    assert(built[k].label == root + seq!['/'] + names[m + 1]);
                }
            }
            assert(built.drop_first() =~= inner);
            assert(children_distinct_seq(built));
        } else {
            lemma_build_dirs_distinct(root, es, rest);
            assert(built == build_dirs(root, es, rest));
            assert forall|k: int| 0 <= k < built.len() implies label_from(
                root,
                names,
                built[k].label,
            ) by {
                assert(label_from(root, rest, built[k].label));
                let m = choose|m: int|
                    0 <= m < rest.len() && built[k].label == root + seq!['/'] + rest[m];
                assert(built[k].label == root + seq!['/'] + names[m + 1]);
            }
        }
    }
}

/// The reconstructed tree keeps directory identity: throughout the tree, no
/// node holds two children with the same path.
pub proof fn lemma_build_model_children_distinct(root: Seq<char>, es: Seq<PathEntry>)
    ensures
        children_distinct(build_model(root, es)),
    decreases seg_weight(es), 1int, 0int,
{
    lemma_dir_names_no_dup(es, Set::empty());
    lemma_build_dirs_distinct(root, es, dir_names(es, Set::empty()));
}

/// Whether the input string resolves to at least one segment relative to
/// the root, and so takes a place in the reconstructed tree.
pub open spec fn placed_pred(root: Seq<char>) -> spec_fn(Seq<char>) -> bool {
    |v: Seq<char>| rel_segments(v, root).len() >= 1
}

proof fn lemma_entries_survivors(ws: Seq<Seq<char>>, root: Seq<char>)
    ensures
        surviving_paths(entries_of(ws, root)) == ws.filter(placed_pred(root)),
    decreases ws.len(),
{
    reveal(Seq::filter);
    if ws.len() == 0 {
        assert(entries_of(ws, root) =~= Seq::<PathEntry>::empty());
        assert(surviving_paths(entries_of(ws, root)) =~= ws.filter(placed_pred(root)));
    } else {
        lemma_entries_survivors(ws.drop_last(), root);
        let prev = entries_of(ws.drop_last(), root);
        let e = (ws.last(), rel_segments(ws.last(), root));
        assert(entries_of(ws, root) =~= prev.push(e));
        assert(ws.drop_last().push(ws.last()) =~= ws);
        assert(surviving_pred()(e) <==> placed_pred(root)(ws.last()));
        if surviving_pred()(e) {
            assert(prev.push(e).filter(surviving_pred()) == prev.filter(surviving_pred()).push(
                e,
            ));
            assert(surviving_paths(entries_of(ws, root)) =~= surviving_paths(prev).push(e.0));
            assert(ws.filter(placed_pred(root)) =~= ws.drop_last().filter(
                placed_pred(root),
            ).push(ws.last()));
        } else {
            assert(prev.push(e).filter(surviving_pred()) == prev.filter(surviving_pred()));
            assert(surviving_paths(entries_of(ws, root)) =~= surviving_paths(prev));
            assert(ws.filter(placed_pred(root)) =~= ws.drop_last().filter(placed_pred(root)));
        }
    }
}

/// Coverage of the path-list builder: flattening the reconstructed tree
/// reproduces, as a multiset, exactly the non-root input strings that
/// resolve to at least one segment relative to the chosen root — each such
/// path appears in the tree exactly once.
pub proof fn lemma_from_string_vector_coverage(vs: Seq<Seq<char>>)
    requires
        vs.len() >= 1,
    ensures
        crate::tree::deep_files(pathlist_model(vs)).to_multiset() == len_sorted(
            vs,
        ).drop_first().filter(placed_pred(trim_slashes(len_sorted(vs)[0]))).to_multiset(),
{
    lemma_len_sorted_len(vs);
    let sorted = len_sorted(vs);
    let root = trim_slashes(sorted[0]);
    lemma_pathlist_coverage_build(root, entries_of(sorted.drop_first(), root));
    lemma_entries_survivors(sorted.drop_first(), root);
}

impl FileTree {
    /// A tree reconstructed from a non-empty list of path strings, without
    /// filesystem access: the shortest string is the root and every other
    /// string is placed by its path segments relative to it.
    pub fn from_string_vector(values: Vec<String>) -> (r: Self)
        requires
            values@.len() > 0,
        ensures
            r.model() == pathlist_model(views(values@)),
    {
        let ghost vv = views(values@);
        let mut sorted = sort_by_len(values);
        let ghost sortedv = views(sorted@);
        let first = sorted.remove(0);
        proof {
            lemma_len_sorted_len(vv);
            assert(views(sorted@) =~= sortedv.drop_first());
            assert(first@ == sortedv[0]);
        }
        let root = trim_trailing_slashes(first.as_str());
        let entries = make_entries(&sorted, root.as_str());
        build_tree_exec(root, entries)
    }

    /// A tree reconstructed from a non-empty list of path strings; the same
    /// reconstruction as `from_string_vector`.
    pub fn new_from_string_vector(values: Vec<String>) -> (r: Self)
        requires
            values@.len() > 0,
        ensures
            r.model() == pathlist_model(views(values@)),
    {
        Self::from_string_vector(values)
    }
}

} // verus!
