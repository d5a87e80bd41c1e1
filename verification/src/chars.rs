//! Character-sequence utilities: views of string vectors, lexicographic
//! order, prefix/suffix predicates, splitting and joining on a separator
//! character, trimming, and decimal rendering of integers.
use vstd::prelude::*;

verus! {

use vstd::string::*;

/// The views of a sequence of strings, as sequences of characters.
pub open spec fn views(ss: Seq<String>) -> Seq<Seq<char>> {
    ss.map_values(|s: String| s@)
}

pub broadcast proof fn lemma_views_push(ss: Seq<String>, s: String)
    ensures
        #[trigger] views(ss.push(s)) == views(ss).push(s@),
{
    assert(views(ss.push(s)) =~= views(ss).push(s@));
}

/// Lexicographic order on character sequences, by code point.
pub open spec fn lex_le(a: Seq<char>, b: Seq<char>) -> bool
    decreases a.len(),
{
    if a.len() == 0 {
        true
    } else if b.len() == 0 {
        false
    } else if a[0] != b[0] {
        (a[0] as u32) < (b[0] as u32)
    } else {
        lex_le(a.drop_first(), b.drop_first())
    }
}

pub proof fn lemma_lex_le_total(a: Seq<char>, b: Seq<char>)
    ensures
        lex_le(a, b) || lex_le(b, a),
    decreases a.len(),
{
    if a.len() == 0 || b.len() == 0 {
    } else if a[0] != b[0] {
        vstd::utf8::char_u32_cast(a[0], a[0] as u32);
        vstd::utf8::char_u32_cast(b[0], b[0] as u32);
        assert((a[0] as u32) != (b[0] as u32));
    } else {
        lemma_lex_le_total(a.drop_first(), b.drop_first());
    }
}

pub proof fn lemma_lex_le_trans(a: Seq<char>, b: Seq<char>, c: Seq<char>)
    requires
        lex_le(a, b),
        lex_le(b, c),
    ensures
        lex_le(a, c),
    decreases a.len(),
{
    if a.len() == 0 || b.len() == 0 || c.len() == 0 {
    } else if a[0] == b[0] && b[0] == c[0] {
        lemma_lex_le_trans(a.drop_first(), b.drop_first(), c.drop_first());
    }
}

/// `s` begins with the prefix `p`.
pub open spec fn starts_with(s: Seq<char>, p: Seq<char>) -> bool {
    p.len() <= s.len() && s.take(p.len() as int) == p
}

/// `s` ends with the suffix `p`.
pub open spec fn ends_with(s: Seq<char>, p: Seq<char>) -> bool {
    p.len() <= s.len() && s.skip(s.len() - p.len()) == p
}

/// `s` ends with one of the suffixes in `ps`.
pub open spec fn ends_with_any(s: Seq<char>, ps: Seq<Seq<char>>) -> bool {
    exists|i: int| 0 <= i < ps.len() && ends_with(s, ps[i])
}

/// Equality of the views of two string slices, decided character by character.
pub fn str_eq(a: &str, b: &str) -> (r: bool)
    ensures
        r == (a@ == b@),
{
    let an = a.unicode_len();
    let bn = b.unicode_len();
    if an != bn {
        proof {
            assert(a@ != b@);
        }
        return false;
    }
    let mut i: usize = 0;
    while i < an
        invariant
            0 <= i <= an,
            an as nat == a@.len(),
            an as nat == b@.len(),
            forall|j: int| 0 <= j < i ==> a@[j] == b@[j],
        decreases an - i,
    {
        if a.get_char(i) != b.get_char(i) {
            return false;
        }
        i += 1;
    }
    proof {
        assert(a@ =~= b@);
    }
    true
}

/// Whether the view of `s` begins with the view of `p`.
pub fn str_starts_with(s: &str, p: &str) -> (r: bool)
    ensures
        r == starts_with(s@, p@),
{
    let sn = s.unicode_len();
    let pn = p.unicode_len();
    if pn > sn {
        return false;
    }
    let head = s.substring_char(0, pn);
    proof {
        assert(head@ == s@.take(p@.len() as int));
    }
    str_eq(head, p)
}

/// Whether the view of `s` ends with the view of `p`.
pub fn str_ends_with(s: &str, p: &str) -> (r: bool)
    ensures
        r == ends_with(s@, p@),
{
    let sn = s.unicode_len();
    let pn = p.unicode_len();
    if pn > sn {
        return false;
    }
    let tail = s.substring_char(sn - pn, sn);
    proof {
        assert(tail@ == s@.skip(s@.len() - p@.len()));
    }
    str_eq(tail, p)
}

/// Whether the view of `s` ends with the view of one of the strings in `ps`.
pub fn str_ends_with_any(s: &str, ps: &Vec<String>) -> (r: bool)
    ensures
        r == ends_with_any(s@, views(ps@)),
{
    let mut i: usize = 0;
    while i < ps.len()
        invariant
            0 <= i <= ps@.len(),
            forall|j: int| 0 <= j < i ==> !ends_with(s@, views(ps@)[j]),
        decreases ps@.len() - i,
    {
        if str_ends_with(s, ps[i].as_str()) {
            proof {
                assert(ends_with(s@, views(ps@)[i as int]));
            }
            return true;
        }
        i += 1;
    }
    false
}

/// Splitting `s` on `c`, with `cur` the token accumulated so far.
pub open spec fn split_rec(s: Seq<char>, c: char, cur: Seq<char>) -> Seq<Seq<char>>
    decreases s.len(),
{
    if s.len() == 0 {
        seq![cur]
    } else if s[0] == c {
        seq![cur] + split_rec(s.drop_first(), c, Seq::empty())
    } else {
        split_rec(s.drop_first(), c, cur.push(s[0]))
    }
}

/// The tokens of `s` split on the separator `c`; always at least one token.
pub open spec fn split_char(s: Seq<char>, c: char) -> Seq<Seq<char>> {
    split_rec(s, c, Seq::empty())
}

pub proof fn lemma_split_rec_len(s: Seq<char>, c: char, cur: Seq<char>)
    ensures
        split_rec(s, c, cur).len() >= 1,
    decreases s.len(),
{
    if s.len() == 0 {
    } else if s[0] == c {
    } else {
        lemma_split_rec_len(s.drop_first(), c, cur.push(s[0]));
    }
}

/// Joining tokens with the separator `c`; the inverse of `split_char`
/// when no token contains `c`.
pub open spec fn join_char(parts: Seq<Seq<char>>, c: char) -> Seq<char>
    decreases parts.len(),
{
    if parts.len() == 0 {
        Seq::empty()
    } else if parts.len() == 1 {
        parts[0]
    } else {
        parts[0] + seq![c] + join_char(parts.drop_first(), c)
    }
}

pub proof fn lemma_join_push(parts: Seq<Seq<char>>, c: char, x: Seq<char>)
    requires
        parts.len() >= 1,
    ensures
        join_char(parts.push(x), c) == join_char(parts, c) + seq![c] + x,
    decreases parts.len(),
{
    let p2 = parts.push(x);
    if parts.len() == 1 {
        assert(p2.drop_first() =~= seq![x]);
        assert(join_char(p2, c) == p2[0] + seq![c] + join_char(p2.drop_first(), c));
        assert(join_char(p2, c) =~= join_char(parts, c) + seq![c] + x);
    } else {
        lemma_join_push(parts.drop_first(), c, x);
        assert(p2.drop_first() =~= parts.drop_first().push(x));
        assert(join_char(p2, c) =~= join_char(parts, c) + seq![c] + x);
    }
}

/// Splitting the view of a string on the character `c`.
pub fn split_string(s: &str, c: char) -> (r: Vec<String>)
    ensures
        views(r@) == split_char(s@, c),
        r@.len() >= 1,
{
    broadcast use lemma_views_push;

    let n = s.unicode_len();
    let mut r: Vec<String> = Vec::new();
    let mut cur: String = String::new();
    let mut i: usize = 0;
    proof {
        assert(s@.skip(0) =~= s@);
    }
    while i < n
        invariant
            0 <= i <= n,
            n as nat == s@.len(),
            split_char(s@, c) == views(r@) + split_rec(s@.skip(i as int), c, cur@),
        decreases n - i,
    {
        let ghost prev = s@.skip(i as int);
        let ghost r0 = r@;
        let ghost cur0 = cur@;
        let ch = s.get_char(i);
        proof {
            assert(prev.len() > 0);
            assert(prev[0] == s@[i as int]);
            assert(prev.drop_first() =~= s@.skip(i as int + 1));
        }
        if ch == c {
            r.push(cur);
            cur = String::new();
            proof {
                assert(views(r@) =~= views(r0).push(cur0));
                assert(views(r@) + split_rec(s@.skip(i as int + 1), c, cur@)
                    =~= views(r0) + split_rec(prev, c, cur0));
            }
        } else {
            let piece = s.substring_char(i, i + 1);
            proof {
                assert(piece@ =~= seq![s@[i as int]]);
            }
            cur.append(piece);
            proof {
                assert(cur@ =~= cur0.push(prev[0]));
            }
        }
        i += 1;
    }
    proof {
        assert(s@.skip(n as int) =~= Seq::<char>::empty());
    }
    r.push(cur);
    proof {
        assert(views(r@) =~= split_char(s@, c));
        lemma_split_rec_len(s@, c, Seq::empty());
    }
    r
}

/// Joining the views of the strings in `v` with newlines.
pub fn join_lines(v: &Vec<String>) -> (r: String)
    requires
        v@.len() >= 1,
    ensures
        r@ == join_char(views(v@), '\n'),
{
    proof {
        reveal_strlit("\n");
        assert("\n"@ =~= seq!['\n']);
    }
    let mut r = v[0].clone();
    let mut i: usize = 1;
    while i < v.len()
        invariant
            1 <= i <= v@.len(),
            r@ == join_char(views(v@).take(i as int), '\n'),
        decreases v@.len() - i,
    {
        let ghost r0 = r@;
        r.append("\n");
        r.append(v[i].as_str());
        proof {
            reveal_strlit("\n");
            assert("\n"@ =~= seq!['\n']);
            lemma_join_push(views(v@).take(i as int), '\n', v@[i as int]@);
            assert(views(v@).take(i as int).push(v@[i as int]@) =~= views(v@).take(i as int + 1));
            assert(r@ =~= join_char(views(v@).take(i as int + 1), '\n'));
        }
        i += 1;
    }
    proof {
        assert(views(v@).take(v@.len() as int) =~= views(v@));
    }
    r
}

proof fn lemma_split_rec_prefix(x: Seq<char>, s: Seq<char>, c: char, cur: Seq<char>)
    requires
        !x.contains(c),
    ensures
        split_rec(x + s, c, cur) == split_rec(s, c, cur + x),
    decreases x.len(),
{
    if x.len() == 0 {
        assert(x + s =~= s);
        assert(cur + x =~= cur);
    } else {
        assert(x[0] != c);
        assert((x + s)[0] == x[0]);
        assert((x + s).drop_first() =~= x.drop_first() + s);
        assert(!x.drop_first().contains(c)) by {
            assert(forall|i: int|
                0 <= i < x.drop_first().len() ==> x.drop_first()[i] == x[i + 1]);
        }
        lemma_split_rec_prefix(x.drop_first(), s, c, cur.push(x[0]));
        assert(cur.push(x[0]) + x.drop_first() =~= cur + x);
    }
}

/// Splitting the joined tokens on the separator recovers the tokens, as long
/// as no token contains the separator.
pub proof fn lemma_split_join(parts: Seq<Seq<char>>, c: char)
    requires
        parts.len() >= 1,
        forall|i: int| 0 <= i < parts.len() ==> !(#[trigger] parts[i]).contains(c),
    ensures
        split_char(join_char(parts, c), c) == parts,
    decreases parts.len(),
{
    if parts.len() == 1 {
        lemma_split_rec_prefix(parts[0], Seq::empty(), c, Seq::empty());
        assert(parts[0] + Seq::<char>::empty() =~= parts[0]);
        assert(Seq::<char>::empty() + parts[0] =~= parts[0]);
        assert(split_char(join_char(parts, c), c) =~= parts);
    } else {
        let rest = parts.drop_first();
        assert(forall|i: int| 0 <= i < rest.len() ==> rest[i] == parts[i + 1]);
        lemma_split_join(rest, c);
        let tail = seq![c] + join_char(rest, c);
        assert(join_char(parts, c) =~= parts[0] + tail);
        lemma_split_rec_prefix(parts[0], tail, c, Seq::empty());
        assert(Seq::<char>::empty() + parts[0] =~= parts[0]);
        assert(tail[0] == c);
        assert(tail.drop_first() =~= join_char(rest, c));
        assert(split_char(join_char(parts, c), c) =~= parts);
    }
}

/// Whether the view of `x` occurs among the views of the strings in
/// `names`.
pub fn contains_string(names: &Vec<String>, x: &str) -> (r: bool)
    ensures
        r == views(names@).contains(x@),
{
    let mut k: usize = 0;
    while k < names.len()
        invariant
            0 <= k <= names@.len(),
            forall|j: int| 0 <= j < k ==> views(names@)[j] != x@,
        decreases names@.len() - k,
    {
        if str_eq(names[k].as_str(), x) {
            proof {
                assert(views(names@)[k as int] == x@);
            }
            return true;
        }
        k += 1;
    }
    proof {
        if views(names@).contains(x@) {
            let j = choose|j: int| 0 <= j < views(names@).len() && views(names@)[j] == x@;
            assert(false);
        }
    }
    false
}

/// The set of a pushed sequence is the set of the sequence with the new
/// element inserted.
pub proof fn lemma_to_set_push(s: Seq<Seq<char>>, x: Seq<char>)
    ensures
        s.push(x).to_set() == s.to_set().insert(x),
{
    let p = s.push(x);
    assert forall|a: Seq<char>| p.to_set().contains(a) implies s.to_set().insert(x).contains(
        a,
    ) by {
        let i = choose|i: int| 0 <= i < p.len() && p[i] == a;
        if i < s.len() {
            assert(s[i] == a);
        } else {
            assert(a == x);
        }
    }
    assert forall|a: Seq<char>| s.to_set().insert(x).contains(a) implies p.to_set().contains(
        a,
    ) by {
        if a == x {
            assert(p[s.len() as int] == x);
        } else {
            let i = choose|i: int| 0 <= i < s.len() && s[i] == a;
            assert(p[i] == a);
        }
    }
    assert(p.to_set() =~= s.to_set().insert(x));
}

/// A filter over elements that all satisfy the predicate keeps everything.
pub proof fn lemma_filter_all_true<A>(s: Seq<A>, pred: spec_fn(A) -> bool)
    requires
        forall|i: int| 0 <= i < s.len() ==> pred(#[trigger] s[i]),
    ensures
        s.filter(pred) == s,
    decreases s.len(),
{
    reveal(Seq::filter);
    if s.len() > 0 {
        lemma_filter_all_true(s.drop_last(), pred);
        assert(s.filter(pred) =~= s);
    }
}

/// A filter over elements that all fail the predicate keeps nothing.
pub proof fn lemma_filter_all_false<A>(s: Seq<A>, pred: spec_fn(A) -> bool)
    requires
        forall|i: int| 0 <= i < s.len() ==> !pred(#[trigger] s[i]),
    ensures
        s.filter(pred) == Seq::<A>::empty(),
    decreases s.len(),
{
    reveal(Seq::filter);
    if s.len() > 0 {
        lemma_filter_all_false(s.drop_last(), pred);
        assert(s.filter(pred) =~= Seq::<A>::empty());
    }
}

/// Whitespace for trimming purposes: space, tab, carriage return, newline.
pub open spec fn is_space(c: char) -> bool {
    c == ' ' || c == '\t' || c == '\r' || c == '\n'
}

/// `s` without leading whitespace.
pub open spec fn trim_start(s: Seq<char>) -> Seq<char>
    decreases s.len(),
{
    if s.len() > 0 && is_space(s[0]) {
        trim_start(s.drop_first())
    } else {
        s
    }
}

/// `s` without trailing whitespace.
pub open spec fn trim_end(s: Seq<char>) -> Seq<char>
    decreases s.len(),
{
    if s.len() > 0 && is_space(s.last()) {
        trim_end(s.drop_last())
    } else {
        s
    }
}

/// `s` without leading or trailing whitespace.
pub open spec fn trimmed(s: Seq<char>) -> Seq<char> {
    trim_end(trim_start(s))
}

proof fn lemma_trim_start_skip(s: Seq<char>, i: int)
    requires
        0 <= i <= s.len(),
        forall|j: int| 0 <= j < i ==> is_space(s[j]),
    ensures
        trim_start(s) == trim_start(s.skip(i)),
    decreases i,
{
    if i > 0 {
        assert(is_space(s[0]));
        assert(s.drop_first() =~= s.skip(1));
        lemma_trim_start_skip(s.skip(1), i - 1);
        assert(s.skip(1).skip(i - 1) =~= s.skip(i));
    } else {
        assert(s.skip(0) =~= s);
    }
}

proof fn lemma_trim_end_take(s: Seq<char>, i: int)
    requires
        0 <= i <= s.len(),
        forall|j: int| i <= j < s.len() ==> is_space(s[j]),
    ensures
        trim_end(s) == trim_end(s.take(i)),
    decreases s.len() - i,
{
    if i < s.len() {
        assert(is_space(s.last()));
        assert(s.drop_last() =~= s.take(s.len() - 1));
        lemma_trim_end_take(s.take(s.len() - 1), i);
        assert(s.take(s.len() - 1).take(i) =~= s.take(i));
    } else {
        assert(s.take(s.len() as int) =~= s);
    }
}

/// Whether the character at position `i` of `s` is whitespace.
fn is_space_at(s: &str, i: usize) -> (r: bool)
    requires
        i < s@.len(),
    ensures
        r == is_space(s@[i as int]),
{
    let c = s.get_char(i);
    c == ' ' || c == '\t' || c == '\r' || c == '\n'
}

/// The view of `s` with leading and trailing whitespace removed.
pub fn trim_str(s: &str) -> (r: String)
    ensures
        r@ == trimmed(s@),
{
    let n = s.unicode_len();
    let mut start: usize = 0;
    while start < n && is_space_at(s, start)
        invariant
            0 <= start <= n,
            n as nat == s@.len(),
            forall|j: int| 0 <= j < start ==> is_space(s@[j]),
        decreases n - start,
    {
        start += 1;
    }
    let mut end: usize = n;
    while end > start && is_space_at(s, end - 1)
        invariant
            start <= end <= n,
            n as nat == s@.len(),
            forall|j: int| 0 <= j < start ==> is_space(s@[j]),
            forall|j: int| end <= j < n ==> is_space(s@[j]),
        decreases end,
    {
        end -= 1;
    }
    let mid = s.substring_char(start, end);
    proof {
        lemma_trim_start_skip(s@, start as int);
        let t = s@.skip(start as int);
        if start < n && end == start {
            assert(is_space(t[0]));
        }
        if end > start {
            assert(!is_space(t[0]));
        }
        assert(trim_start(s@) == t);
        lemma_trim_end_take(t, end - start);
        assert(t.take(end - start) =~= s@.subrange(start as int, end as int));
        if end > start {
            assert(!is_space(s@.subrange(start as int, end as int).last()));
        }
        assert(trimmed(s@) == s@.subrange(start as int, end as int));
    }
    String::from_str(mid)
}

/// The decimal digit character for a value below ten.
pub open spec fn digit_char(n: nat) -> char {
    if n == 0 {
        '0'
    } else if n == 1 {
        '1'
    } else if n == 2 {
        '2'
    } else if n == 3 {
        '3'
    } else if n == 4 {
        '4'
    } else if n == 5 {
        '5'
    } else if n == 6 {
        '6'
    } else if n == 7 {
        '7'
    } else if n == 8 {
        '8'
    } else {
        '9'
    }
}

/// The decimal rendering of `n`, without leading zeros.
pub open spec fn dec_str(n: nat) -> Seq<char>
    decreases n,
{
    if n < 10 {
        seq![digit_char(n)]
    } else {
        dec_str(n / 10) + seq![digit_char(n % 10)]
    }
}

/// The decimal rendering of `n`, zero-padded on the left to two digits.
pub open spec fn dec2_str(n: nat) -> Seq<char> {
    if n < 10 {
        seq!['0'] + dec_str(n)
    } else {
        dec_str(n)
    }
}

fn digit_to_str(n: u64) -> (r: &'static str)
    requires
        n < 10,
    ensures
        r@ == seq![digit_char(n as nat)],
{
    proof {
        reveal_strlit("0");
        reveal_strlit("1");
        reveal_strlit("2");
        reveal_strlit("3");
        reveal_strlit("4");
        reveal_strlit("5");
        reveal_strlit("6");
        reveal_strlit("7");
        reveal_strlit("8");
        reveal_strlit("9");
    }
    let r = if n == 0 {
        "0"
    } else if n == 1 {
        "1"
    } else if n == 2 {
        "2"
    } else if n == 3 {
        "3"
    } else if n == 4 {
        "4"
    } else if n == 5 {
        "5"
    } else if n == 6 {
        "6"
    } else if n == 7 {
        "7"
    } else if n == 8 {
        "8"
    } else {
        "9"
    };
    proof {
        assert(r@ =~= seq![digit_char(n as nat)]);
    }
    r
}

/// The decimal rendering of `n`.
pub fn u64_to_dec(n: u64) -> (r: String)
    ensures
        r@ == dec_str(n as nat),
    decreases n,
{
    if n < 10 {
        String::from_str(digit_to_str(n))
    } else {
        let mut r = u64_to_dec(n / 10);
        r.append(digit_to_str(n % 10));
        r
    }
}

/// The decimal rendering of `n`, zero-padded to at least two digits.
pub fn u64_to_dec2(n: u64) -> (r: String)
    ensures
        r@ == dec2_str(n as nat),
{
    proof {
        reveal_strlit("0");
    }
    if n < 10 {
        let mut r = String::from_str("0");
        let d = u64_to_dec(n);
        r.append(d.as_str());
        proof {
            assert("0"@ =~= seq!['0']);
        }
        r
    } else {
        u64_to_dec(n)
    }
}

/// `s` with every space replaced by a dot.
pub open spec fn dotted(s: Seq<char>) -> Seq<char> {
    s.map_values(|c: char| if c == ' ' { '.' } else { c })
}

/// The view of `s` with every space replaced by a dot.
pub fn replace_spaces_with_dots(s: &str) -> (r: String)
    ensures
        r@ == dotted(s@),
{
    let n = s.unicode_len();
    let mut r = String::new();
    let mut i: usize = 0;
    while i < n
        invariant
            0 <= i <= n,
            n as nat == s@.len(),
            r@ == dotted(s@.take(i as int)),
        decreases n - i,
    {
        let c = s.get_char(i);
        if c == ' ' {
            proof {
                reveal_strlit(".");
            }
            r.append(".");
        } else {
            let piece = s.substring_char(i, i + 1);
            proof {
                assert(piece@ =~= seq![s@[i as int]]);
            }
            r.append(piece);
        }
        proof {
            assert(r@ =~= dotted(s@.take(i as int + 1)));
        }
        i += 1;
    }
    proof {
        assert(s@.take(n as int) =~= s@);
    }
    r
}

} // verus!
