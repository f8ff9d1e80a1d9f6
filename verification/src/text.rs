//! Basic text model: whitespace, trimming, line splitting, a total
//! lexicographic order on character sequences, sorted deduplication, and
//! joining lines back into one document.

use vstd::prelude::*;

verus! {

/// The whitespace characters this engine trims around lines.
pub open spec fn is_ws(c: char) -> bool {
    c == ' ' || c == '\t' || c == '\r' || c == '\n'
}

/// A metadata line of the exposition format starts with `#`.
pub open spec fn is_meta(l: Seq<char>) -> bool {
    l.len() > 0 && l[0] == '#'
}

/// The views of a sequence of strings.
pub open spec fn views(v: Seq<String>) -> Seq<Seq<char>> {
    v.map_values(|s: String| s@)
}

/// Index of the first character satisfying `p`, or `s.len()` if none does.
pub open spec fn find_idx(s: Seq<char>, p: spec_fn(char) -> bool) -> nat
    decreases s.len(),
{
    if s.len() == 0 {
        0
    } else if p(s[0]) {
        0
    } else {
        1 + find_idx(s.drop_first(), p)
    }
}

pub proof fn lemma_find_idx_is(s: Seq<char>, p: spec_fn(char) -> bool, i: int)
    requires
        0 <= i <= s.len(),
        forall|k: int| 0 <= k < i ==> !p(s[k]),
        i < s.len() ==> p(s[i]),
    ensures
        find_idx(s, p) == i,
    decreases s.len(),
{
    if s.len() == 0 {
    } else if p(s[0]) {
        assert(i == 0);
    } else {
        assert(i > 0);
        assert forall|k: int| 0 <= k < i - 1 implies !p(s.drop_first()[k]) by {
            assert(s.drop_first()[k] == s[k + 1]);
        }
        if i - 1 < s.drop_first().len() {
            assert(s.drop_first()[i - 1] == s[i]);
        }
        lemma_find_idx_is(s.drop_first(), p, i - 1);
    }
}

/// Remove leading whitespace.
pub open spec fn trim_front(s: Seq<char>) -> Seq<char>
    decreases s.len(),
{
    if s.len() > 0 && is_ws(s[0]) {
        trim_front(s.drop_first())
    } else {
        s
    }
}

/// Remove trailing whitespace.
pub open spec fn trim_back(s: Seq<char>) -> Seq<char>
    decreases s.len(),
{
    if s.len() > 0 && is_ws(s.last()) {
        trim_back(s.drop_last())
    } else {
        s
    }
}

/// Remove whitespace at both ends.
pub open spec fn trim_spec(s: Seq<char>) -> Seq<char> {
    trim_back(trim_front(s))
}

pub proof fn lemma_trim_front_skip(s: Seq<char>, i: int)
    requires
        0 <= i <= s.len(),
        forall|k: int| 0 <= k < i ==> is_ws(s[k]),
    ensures
        trim_front(s) == trim_front(s.skip(i)),
    decreases i,
{
    if i > 0 {
        assert(is_ws(s[0]));
        assert(s.drop_first() =~= s.skip(1));
        assert forall|k: int| 0 <= k < i - 1 implies is_ws(s.drop_first()[k]) by {
            assert(s.drop_first()[k] == s[k + 1]);
        }
        lemma_trim_front_skip(s.drop_first(), i - 1);
        assert(s.drop_first().skip(i - 1) =~= s.skip(i));
    } else {
        assert(s.skip(0) =~= s);
    }
}

pub proof fn lemma_trim_back_take(s: Seq<char>, j: int)
    requires
        0 <= j <= s.len(),
        forall|k: int| j <= k < s.len() ==> is_ws(s[k]),
    ensures
        trim_back(s) == trim_back(s.take(j)),
    decreases s.len() - j,
{
    if j < s.len() {
        assert(is_ws(s.last()));
        assert(s.drop_last() =~= s.take(s.len() - 1));
        lemma_trim_back_take(s.take(s.len() - 1), j);
        assert(s.take(s.len() - 1).take(j) =~= s.take(j));
    } else {
        assert(s.take(j) =~= s);
    }
}

/// Whether `c` is a whitespace character.
pub fn is_ws_char(c: char) -> (r: bool)
    ensures
        r == is_ws(c),
{
    c == ' ' || c == '\t' || c == '\r' || c == '\n'
}

/// Whether a line is a metadata line (`# HELP`, `# TYPE`, or any comment).
pub fn is_meta_line(l: &str) -> (r: bool)
    ensures
        r == is_meta(l@),
{
    if l.unicode_len() == 0 {
        false
    } else {
        l.get_char(0) == '#'
    }
}

/// Copy of `s` with whitespace removed at both ends.
pub fn trim_line(s: &str) -> (r: String)
    ensures
        r@ == trim_spec(s@),
{
    let n = s.unicode_len();
    let mut start: usize = 0;
    while start < n && is_ws_char(s.get_char(start))
        invariant
            start <= n,
            n == s@.len(),
            forall|k: int| 0 <= k < start ==> is_ws(s@[k]),
        decreases n - start,
    {
        start += 1;
    }
    proof {
        lemma_trim_front_skip(s@, start as int);
    }
    if start == n {
        proof {
            assert(s@.skip(n as int) =~= Seq::<char>::empty());
        }
        String::new()
    } else {
        let mut end: usize = n;
        while end > start + 1 && is_ws_char(s.get_char(end - 1))
            invariant
                start < end <= n,
            n == s@.len(),
                !is_ws(s@[start as int]),
                forall|k: int| end <= k < n ==> is_ws(s@[k]),
            decreases end,
        {
            end -= 1;
        }
        let sub = s.substring_char(start, end);
        proof {
            let t = s@.skip(start as int);
            assert(t[0] == s@[start as int]);
            assert(trim_front(t) == t);
            assert forall|k: int| end - start <= k < t.len() implies is_ws(t[k]) by {
                assert(t[k] == s@[k + start]);
            }
            lemma_trim_back_take(t, end - start);
            let u = t.take(end - start);
            assert(u.last() == s@[end - 1]);
            assert(!is_ws(u.last()));
            assert(trim_back(u) == u);
            assert(s@.subrange(start as int, end as int) =~= u);
        }
        sub.to_owned()
    }
}

/// Split on `'\n'`: the segments between newline characters, in order.
pub open spec fn split_nl(s: Seq<char>) -> Seq<Seq<char>>
    decreases s.len(),
{
    let i = find_idx(s, |c: char| c == '\n');
    if i >= s.len() {
        seq![s]
    } else {
        seq![s.take(i as int)] + split_nl(s.skip(i as int + 1))
    }
}

/// The trimmed lines of a raw document.
pub open spec fn lines_of(s: Seq<char>) -> Seq<Seq<char>> {
    split_nl(s).map_values(|l: Seq<char>| trim_spec(l))
}

/// Split a raw document into its lines, each trimmed of surrounding whitespace.
pub fn split_trimmed_lines(s: &str) -> (r: Vec<String>)
    ensures
        views(r@) == lines_of(s@),
{
    let n = s.unicode_len();
    let mut out: Vec<String> = Vec::new();
    let mut start: usize = 0;
    let ghost mut raws: Seq<Seq<char>> = Seq::empty();
    proof {
        assert(s@.skip(0) =~= s@);
        assert(raws + split_nl(s@) =~= split_nl(s@));
    }
    loop
        invariant
            start <= n,
            n == s@.len(),
            out@.len() == raws.len(),
            forall|k: int| 0 <= k < raws.len() ==> out@[k]@ == trim_spec(raws[k]),
            split_nl(s@) == raws + split_nl(s@.skip(start as int)),
        decreases n - start,
    {
        let mut j: usize = start;
        while j < n && s.get_char(j) != '\n'
            invariant
                start <= j <= n,
                n == s@.len(),
                forall|k: int| start <= k < j ==> s@[k] != '\n',
            decreases n - j,
        {
            j += 1;
        }
        let seg = s.substring_char(start, j);
        let line = trim_line(seg);
        proof {
            let t = s@.skip(start as int);
            let p = |c: char| c == '\n';
            assert forall|k: int| 0 <= k < j - start implies !p(t[k]) by {
                assert(t[k] == s@[k + start]);
            }
            if j < n {
                assert(t[j - start] == s@[j as int]);
            }
            lemma_find_idx_is(t, p, j - start);
            assert(t.take(j - start) =~= s@.subrange(start as int, j as int));
            if j < n {
                assert(t.skip(j - start + 1) =~= s@.skip(j as int + 1));
                assert(split_nl(t) == seq![seg@] + split_nl(s@.skip(j as int + 1)));
                assert(raws + split_nl(t) =~= (raws + seq![seg@]) + split_nl(
                    s@.skip(j as int + 1),
                ));
            } else {
                assert(t.take(j - start) =~= t);
                assert(split_nl(t) == seq![seg@]);
            }
            raws = raws + seq![seg@];
        }
        out.push(line);
        if j == n {
            proof {
                assert(split_nl(s@) =~= raws);
                assert(views(out@) =~= split_nl(s@).map_values(|l: Seq<char>| trim_spec(l)));
            }
            return out;
        }
        start = j + 1;
    }
}

/// Strict lexicographic order on character sequences, by code point.
pub open spec fn lex_lt(a: Seq<char>, b: Seq<char>) -> bool
    decreases a.len(),
{
    if b.len() == 0 {
        false
    } else if a.len() == 0 {
        true
    } else if (a[0] as int) < (b[0] as int) {
        true
    } else if a[0] == b[0] {
        lex_lt(a.drop_first(), b.drop_first())
    } else {
        false
    }
}

pub proof fn lemma_lex_irrefl(a: Seq<char>)
    ensures
        !lex_lt(a, a),
    decreases a.len(),
{
    if a.len() > 0 {
        lemma_lex_irrefl(a.drop_first());
    }
}

pub proof fn lemma_lex_trans(a: Seq<char>, b: Seq<char>, c: Seq<char>)
    requires
        lex_lt(a, b),
        lex_lt(b, c),
    ensures
        lex_lt(a, c),
    decreases a.len(),
{
    if a.len() > 0 && c.len() > 0 && b.len() > 0 {
        if a[0] == b[0] && b[0] == c[0] {
            lemma_lex_trans(a.drop_first(), b.drop_first(), c.drop_first());
        }
    }
}

pub proof fn lemma_lex_total(a: Seq<char>, b: Seq<char>)
    ensures
        lex_lt(a, b) || lex_lt(b, a) || a == b,
    decreases a.len(),
{
    if a.len() == 0 || b.len() == 0 {
        if a.len() == 0 && b.len() == 0 {
            assert(a =~= b);
        }
    } else {
        if a[0] == b[0] {
            lemma_lex_total(a.drop_first(), b.drop_first());
            if a.drop_first() == b.drop_first() {
                assert(a.drop_first().len() == a.len() - 1);
                assert(b.drop_first().len() == b.len() - 1);
                assert(a.len() == b.len());
                assert forall|i: int| 0 <= i < a.len() implies a[i] == b[i] by {
                    if i > 0 {
                        assert(a[i] == a.drop_first()[i - 1]);
                        assert(b[i] == b.drop_first()[i - 1]);
                        assert(a.drop_first()[i - 1] == b.drop_first()[i - 1]);
                    }
                }
                assert(a =~= b);
            }
        } else {
            if (a[0] as int) < (b[0] as int) {
                assert(lex_lt(a, b));
            } else if (b[0] as int) < (a[0] as int) {
                assert(lex_lt(b, a));
            } else {
                assert(a[0] as int == b[0] as int);
                assert(a[0] == b[0]);
            }
        }
    }
}

/// Whether `a` comes strictly before `b` in lexicographic order.
pub fn str_lt(a: &str, b: &str) -> (r: bool)
    ensures
        r == lex_lt(a@, b@),
{
    let an = a.unicode_len();
    let bn = b.unicode_len();
    let mut i: usize = 0;
    proof {
        assert(a@.skip(0) =~= a@);
        assert(b@.skip(0) =~= b@);
    }
    loop
        invariant
            i <= an,
            i <= bn,
            an == a@.len(),
            bn == b@.len(),
            lex_lt(a@, b@) == lex_lt(a@.skip(i as int), b@.skip(i as int)),
        decreases an - i,
    {
        if i >= bn {
            return false;
        }
        if i >= an {
            return true;
        }
        let ca = a.get_char(i);
        let cb = b.get_char(i);
        if (ca as u32) < (cb as u32) {
            proof {
                assert((ca as int) < (cb as int));
            }
            return true;
        }
        if (ca as u32) > (cb as u32) {
            proof {
                assert((cb as int) < (ca as int));
            }
            return false;
        }
        proof {
            assert(ca as int == cb as int);
            assert(ca == cb);
            assert(a@.skip(i as int).drop_first() =~= a@.skip(i as int + 1));
            assert(b@.skip(i as int).drop_first() =~= b@.skip(i as int + 1));
        }
        i += 1;
    }
}

/// Strictly sorted: every earlier element is lexicographically below every
/// later one (so in particular no two elements are equal).
pub open spec fn strictly_sorted(s: Seq<Seq<char>>) -> bool {
    forall|i: int, j: int| 0 <= i < j < s.len() ==> lex_lt(s[i], s[j])
}

/// Insert `x` into a sorted sequence, keeping it sorted and duplicate-free.
pub open spec fn insert_uniq(s: Seq<Seq<char>>, x: Seq<char>) -> Seq<Seq<char>>
    decreases s.len(),
{
    if s.len() == 0 {
        seq![x]
    } else if lex_lt(x, s[0]) {
        seq![x] + s
    } else if x == s[0] {
        s
    } else {
        seq![s[0]] + insert_uniq(s.drop_first(), x)
    }
}

pub proof fn lemma_insert_uniq(s: Seq<Seq<char>>, x: Seq<char>)
    requires
        strictly_sorted(s),
    ensures
        strictly_sorted(insert_uniq(s, x)),
        insert_uniq(s, x).contains(x),
        forall|y: Seq<char>| #[trigger] insert_uniq(s, x).contains(y) ==> s.contains(y) || y == x,
        forall|y: Seq<char>| #[trigger] s.contains(y) ==> insert_uniq(s, x).contains(y),
    decreases s.len(),
{
    let r = insert_uniq(s, x);
    if s.len() == 0 {
        assert(r[0] == x);
        assert(r.contains(x));
        assert forall|y: Seq<char>| #[trigger] r.contains(y) implies s.contains(y) || y == x by {
            let i = choose|i: int| 0 <= i < r.len() && r[i] == y;
            assert(i == 0);
        }
    } else if lex_lt(x, s[0]) {
        assert forall|i: int, j: int| 0 <= i < j < r.len() implies lex_lt(r[i], r[j]) by {
            if i == 0 {
                assert(r[j] == s[j - 1]);
                if j > 1 {
                    lemma_lex_trans(x, s[0], s[j - 1]);
                }
            } else {
                assert(r[i] == s[i - 1]);
                assert(r[j] == s[j - 1]);
            }
        }
        assert(r[0] == x);
        assert(r.contains(x));
        assert forall|y: Seq<char>| #[trigger] r.contains(y) implies s.contains(y) || y == x by {
            let i = choose|i: int| 0 <= i < r.len() && r[i] == y;
            if i > 0 {
                assert(s[i - 1] == y);
            }
        }
        assert forall|y: Seq<char>| #[trigger] s.contains(y) implies r.contains(y) by {
            let i = choose|i: int| 0 <= i < s.len() && s[i] == y;
            assert(r[i + 1] == y);
        }
    } else if x == s[0] {
        assert(s.contains(x));
    } else {
        let t = s.drop_first();
        assert forall|a: int, b: int| 0 <= a < b < t.len() implies lex_lt(t[a], t[b]) by {
            assert(t[a] == s[a + 1]);
            assert(t[b] == s[b + 1]);
        }
        lemma_insert_uniq(t, x);
        let rr = insert_uniq(t, x);
        lemma_lex_total(x, s[0]);
        assert(lex_lt(s[0], x));
        assert forall|k: int| 0 <= k < t.len() implies lex_lt(s[0], t[k]) by {
            assert(t[k] == s[k + 1]);
        }
        assert forall|i: int, j: int| 0 <= i < j < r.len() implies lex_lt(r[i], r[j]) by {
            if i == 0 {
                assert(r[j] == rr[j - 1]);
                assert(rr.contains(rr[j - 1]));
                if t.contains(rr[j - 1]) {
                } else {
                    assert(rr[j - 1] == x);
                }
            } else {
                assert(r[i] == rr[i - 1]);
                assert(r[j] == rr[j - 1]);
            }
        }
        assert(rr.contains(x));
        let kx = choose|k: int| 0 <= k < rr.len() && rr[k] == x;
        assert(r[kx + 1] == x);
        assert(r.contains(x));
        assert forall|y: Seq<char>| #[trigger] r.contains(y) implies s.contains(y) || y == x by {
            let i = choose|i: int| 0 <= i < r.len() && r[i] == y;
            if i == 0 {
                assert(s[0] == y);
            } else {
                assert(rr[i - 1] == y);
                assert(rr.contains(y));
                if t.contains(y) {
                    let k = choose|k: int| 0 <= k < t.len() && t[k] == y;
                    assert(s[k + 1] == y);
                }
            }
        }
        assert forall|y: Seq<char>| #[trigger] s.contains(y) implies r.contains(y) by {
            let i = choose|i: int| 0 <= i < s.len() && s[i] == y;
            if i == 0 {
                assert(r[0] == y);
            } else {
                assert(t[i - 1] == y);
                assert(t.contains(y));
                assert(rr.contains(y));
                let k = choose|k: int| 0 <= k < rr.len() && rr[k] == y;
                assert(r[k + 1] == y);
            }
        }
    }
}

/// Sort a sequence of lines and drop exact duplicates.
pub open spec fn sort_dedup(ls: Seq<Seq<char>>) -> Seq<Seq<char>>
    decreases ls.len(),
{
    if ls.len() == 0 {
        Seq::empty()
    } else {
        insert_uniq(sort_dedup(ls.drop_last()), ls.last())
    }
}

pub proof fn lemma_sort_dedup(ls: Seq<Seq<char>>)
    ensures
        strictly_sorted(sort_dedup(ls)),
        forall|y: Seq<char>| #[trigger] sort_dedup(ls).contains(y) ==> ls.contains(y),
        forall|y: Seq<char>| #[trigger] ls.contains(y) ==> sort_dedup(ls).contains(y),
    decreases ls.len(),
{
    if ls.len() > 0 {
        let pre = ls.drop_last();
        lemma_sort_dedup(pre);
        lemma_insert_uniq(sort_dedup(pre), ls.last());
        assert forall|y: Seq<char>| #[trigger] sort_dedup(ls).contains(y) implies ls.contains(
            y,
        ) by {
            assert(insert_uniq(sort_dedup(pre), ls.last()).contains(y));
            if sort_dedup(pre).contains(y) {
                assert(pre.contains(y));
                let i = choose|i: int| 0 <= i < pre.len() && pre[i] == y;
                assert(ls[i] == y);
            } else {
                assert(ls[ls.len() - 1] == y);
            }
        }
        assert forall|y: Seq<char>| #[trigger] ls.contains(y) implies sort_dedup(ls).contains(
            y,
        ) by {
            let i = choose|i: int| 0 <= i < ls.len() && ls[i] == y;
            if i < ls.len() - 1 {
                assert(pre[i] == y);
                assert(pre.contains(y));
                assert(sort_dedup(pre).contains(y));
                assert(insert_uniq(sort_dedup(pre), ls.last()).contains(y));
            } else {
                assert(y == ls.last());
                assert(insert_uniq(sort_dedup(pre), ls.last()).contains(y));
            }
        }
    }
}

/// Two strictly sorted sequences with the same members are equal.
pub proof fn lemma_sorted_unique(s1: Seq<Seq<char>>, s2: Seq<Seq<char>>)
    requires
        strictly_sorted(s1),
        strictly_sorted(s2),
        forall|y: Seq<char>| s1.contains(y) <==> s2.contains(y),
    ensures
        s1 == s2,
    decreases s1.len(),
{
    if s1.len() == 0 {
        if s2.len() > 0 {
            assert(s2.contains(s2[0]));
        }
        assert(s1 =~= s2);
    } else {
        assert(s1.contains(s1[0]));
        assert(s2.contains(s2[0]));
        let i = choose|i: int| 0 <= i < s2.len() && s2[i] == s1[0];
        let j = choose|j: int| 0 <= j < s1.len() && s1[j] == s2[0];
        if i > 0 {
            assert(lex_lt(s2[0], s1[0]));
            if j > 0 {
                assert(lex_lt(s1[0], s2[0]));
                lemma_lex_trans(s1[0], s2[0], s1[0]);
                lemma_lex_irrefl(s1[0]);
            } else {
                lemma_lex_irrefl(s1[0]);
            }
        }
        assert(s1[0] == s2[0]);
        let t1 = s1.drop_first();
        let t2 = s2.drop_first();
        assert forall|y: Seq<char>| t1.contains(y) <==> t2.contains(y) by {
            lemma_tail_members(s1, y);
            lemma_tail_members(s2, y);
            assert(s2[0] == s1[0]);
        }
        assert forall|a: int, b: int| 0 <= a < b < t1.len() implies lex_lt(t1[a], t1[b]) by {
            assert(t1[a] == s1[a + 1]);
            assert(t1[b] == s1[b + 1]);
        }
        assert forall|a: int, b: int| 0 <= a < b < t2.len() implies lex_lt(t2[a], t2[b]) by {
            assert(t2[a] == s2[a + 1]);
            assert(t2[b] == s2[b + 1]);
        }
        lemma_sorted_unique(t1, t2);
        assert forall|i: int| 0 <= i < s1.len() implies s1[i] == s2[i] by {
            if i > 0 {
                assert(t1[i - 1] == t2[i - 1]);
            }
        }
        assert(s1 =~= s2);
    }
}

/// In a strictly sorted nonempty sequence, the tail holds exactly the
/// members other than the head.
proof fn lemma_tail_members(s: Seq<Seq<char>>, y: Seq<char>)
    requires
        strictly_sorted(s),
        s.len() > 0,
    ensures
        s.drop_first().contains(y) <==> (s.contains(y) && y != s[0]),
{
    if s.drop_first().contains(y) {
        let i = choose|i: int| 0 <= i < s.drop_first().len() && s.drop_first()[i] == y;
        assert(s[i + 1] == y);
        assert(lex_lt(s[0], s[i + 1]));
        lemma_lex_irrefl(y);
    }
    if s.contains(y) && y != s[0] {
        let i = choose|i: int| 0 <= i < s.len() && s[i] == y;
        assert(i > 0);
        assert(s.drop_first()[i - 1] == y);
    }
}

/// `sort_dedup` depends only on which lines occur, not on order or
/// multiplicity.
pub proof fn lemma_sort_dedup_same_members(l1: Seq<Seq<char>>, l2: Seq<Seq<char>>)
    requires
        forall|y: Seq<char>| #[trigger] l1.contains(y) <==> #[trigger] l2.contains(y),
    ensures
        sort_dedup(l1) == sort_dedup(l2),
{
    lemma_sort_dedup(l1);
    lemma_sort_dedup(l2);
    assert forall|y: Seq<char>| sort_dedup(l1).contains(y) <==> sort_dedup(l2).contains(y) by {
        if sort_dedup(l1).contains(y) {
            assert(l1.contains(y));
            assert(l2.contains(y));
        }
        if sort_dedup(l2).contains(y) {
            assert(l2.contains(y));
            assert(l1.contains(y));
        }
    }
    lemma_sorted_unique(sort_dedup(l1), sort_dedup(l2));
}

pub proof fn lemma_insert_uniq_at(s: Seq<Seq<char>>, x: Seq<char>, i: int)
    requires
        strictly_sorted(s),
        0 <= i <= s.len(),
        forall|k: int| 0 <= k < i ==> lex_lt(s[k], x),
        i < s.len() ==> !lex_lt(s[i], x),
    ensures
        insert_uniq(s, x) == if i < s.len() && s[i] == x {
            s
        } else {
            s.insert(i, x)
        },
    decreases s.len(),
{
    if s.len() == 0 {
        assert(insert_uniq(s, x) =~= s.insert(0, x));
    } else if i == 0 {
        if lex_lt(x, s[0]) {
            assert(seq![x] + s =~= s.insert(0, x));
        } else if x == s[0] {
        } else {
            lemma_lex_total(x, s[0]);
            assert(false);
        }
    } else {
        lemma_lex_irrefl(s[0]);
        if lex_lt(x, s[0]) {
            lemma_lex_trans(s[0], x, s[0]);
            assert(false);
        }
        assert(x != s[0]);
        let t = s.drop_first();
        assert forall|a: int, b: int| 0 <= a < b < t.len() implies lex_lt(t[a], t[b]) by {
            assert(t[a] == s[a + 1]);
            assert(t[b] == s[b + 1]);
        }
        assert forall|k: int| 0 <= k < i - 1 implies lex_lt(t[k], x) by {
            assert(t[k] == s[k + 1]);
        }
        if i - 1 < t.len() {
            assert(t[i - 1] == s[i]);
        }
        lemma_insert_uniq_at(t, x, i - 1);
        if i < s.len() && s[i] == x {
            assert(t[i - 1] == x);
            assert(insert_uniq(s, x) =~= seq![s[0]] + t);
            assert(seq![s[0]] + t =~= s);
        } else {
            assert(insert_uniq(s, x) =~= seq![s[0]] + t.insert(i - 1, x));
            assert(seq![s[0]] + t.insert(i - 1, x) =~= s.insert(i, x));
        }
    }
}

/// Insert one line into a sorted, duplicate-free vector of lines.
pub fn insert_line(acc: &mut Vec<String>, x: String)
    requires
        strictly_sorted(views(old(acc)@)),
    ensures
        views(final(acc)@) == insert_uniq(views(old(acc)@), x@),
        strictly_sorted(views(final(acc)@)),
{
    let ghost s = views(acc@);
    let mut i: usize = 0;
    while i < acc.len() && str_lt(acc[i].as_str(), x.as_str())
        invariant
            i <= acc.len(),
            s == views(acc@),
            strictly_sorted(s),
            forall|k: int| 0 <= k < i ==> lex_lt(s[k], x@),
        decreases acc.len() - i,
    {
        proof {
            assert(s[i as int] == acc@[i as int]@);
        }
        i += 1;
    }
    proof {
        if i < acc.len() {
            assert(s[i as int] == acc@[i as int]@);
        }
        lemma_insert_uniq_at(s, x@, i as int);
        lemma_insert_uniq(s, x@);
    }
    if i < acc.len() && acc[i] == x {
        proof {
            assert(s[i as int] == x@);
            assert(views(acc@) =~= insert_uniq(s, x@));
        }
    } else {
        proof {
            if i < acc.len() {
                assert(s[i as int] != x@) by {
                    if s[i as int] == x@ {
                        assert(acc@[i as int]@ == x@);
                    }
                }
            }
        }
        acc.insert(i, x);
        proof {
            assert(views(acc@) =~= insert_uniq(s, x@));
        }
    }
}

/// Sorted, duplicate-free copy of the given lines.
pub fn sort_dedup_lines(v: &Vec<String>) -> (r: Vec<String>)
    ensures
        views(r@) == sort_dedup(views(v@)),
        strictly_sorted(views(r@)),
{
    let mut acc: Vec<String> = Vec::new();
    let mut i: usize = 0;
    proof {
        assert(views(v@.take(0)) =~= Seq::<Seq<char>>::empty());
        assert(views(acc@) =~= Seq::<Seq<char>>::empty());
    }
    while i < v.len()
        invariant
            i <= v.len(),
            views(acc@) == sort_dedup(views(v@.take(i as int))),
            strictly_sorted(views(acc@)),
        decreases v.len() - i,
    {
        let x = v[i].clone();
        proof {
            let pre = views(v@.take(i as int));
            let cur = views(v@.take(i as int + 1));
            assert(cur.drop_last() =~= pre);
            assert(cur.last() == v@[i as int]@);
        }
        insert_line(&mut acc, x);
        i += 1;
    }
    proof {
        assert(v@.take(v@.len() as int) =~= v@);
    }
    acc
}

/// Join lines with a separator; empty input gives the empty document.
pub open spec fn join_with(ls: Seq<Seq<char>>, sep: Seq<char>) -> Seq<char>
    decreases ls.len(),
{
    if ls.len() == 0 {
        Seq::empty()
    } else if ls.len() == 1 {
        ls[0]
    } else {
        join_with(ls.drop_last(), sep) + sep + ls.last()
    }
}

/// Join a vector of lines with the given separator text.
pub fn join_lines(v: &Vec<String>, sep: &str) -> (r: String)
    ensures
        r@ == join_with(views(v@), sep@),
{
    let mut out = String::new();
    let mut i: usize = 0;
    proof {
        assert(views(v@.take(0)) =~= Seq::<Seq<char>>::empty());
    }
    while i < v.len()
        invariant
            i <= v.len(),
            out@ == join_with(views(v@.take(i as int)), sep@),
        decreases v.len() - i,
    {
        proof {
            let pre = views(v@.take(i as int));
            let cur = views(v@.take(i as int + 1));
            assert(cur.drop_last() =~= pre);
            assert(cur.last() == v@[i as int]@);
        }
        if i > 0 {
            out.append(sep);
        }
        out.append(v[i].as_str());
        i += 1;
    }
    proof {
        assert(v@.take(v@.len() as int) =~= v@);
    }
    out
}

/// `needle` occurs contiguously inside `hay`.
pub open spec fn contains_sub(hay: Seq<char>, needle: Seq<char>) -> bool {
    exists|k: int|
        0 <= k && k + needle.len() <= hay.len() && #[trigger] hay.subrange(k, k + needle.len())
            == needle
}

pub proof fn lemma_contains_sub_witness(hay: Seq<char>, needle: Seq<char>, k: int)
    requires
        0 <= k,
        k + needle.len() <= hay.len(),
        hay.subrange(k, k + needle.len()) == needle,
    ensures
        contains_sub(hay, needle),
{
}

pub proof fn lemma_contains_sub_prefix(a: Seq<char>, b: Seq<char>, needle: Seq<char>)
    requires
        contains_sub(a, needle),
    ensures
        contains_sub(a + b, needle),
{
    let k = choose|k: int|
        0 <= k && k + needle.len() <= a.len() && #[trigger] a.subrange(k, k + needle.len())
            == needle;
    assert((a + b).subrange(k, k + needle.len()) =~= a.subrange(k, k + needle.len()));
    lemma_contains_sub_witness(a + b, needle, k);
}

pub proof fn lemma_contains_sub_suffix(a: Seq<char>, b: Seq<char>, needle: Seq<char>)
    requires
        contains_sub(b, needle),
    ensures
        contains_sub(a + b, needle),
{
    let k = choose|k: int|
        0 <= k && k + needle.len() <= b.len() && #[trigger] b.subrange(k, k + needle.len())
            == needle;
    assert((a + b).subrange(a.len() + k, a.len() + k + needle.len()) =~= b.subrange(
        k,
        k + needle.len(),
    ));
    lemma_contains_sub_witness(a + b, needle, a.len() + k);
}

/// Every line of `ls` occurs contiguously in the joined document.
pub proof fn lemma_join_contains(ls: Seq<Seq<char>>, sep: Seq<char>, i: int)
    requires
        0 <= i < ls.len(),
    ensures
        contains_sub(join_with(ls, sep), ls[i]),
    decreases ls.len(),
{
    let j = join_with(ls, sep);
    if ls.len() == 1 {
        assert(j.subrange(0, 0 + ls[0].len() as int) =~= ls[0]);
        lemma_contains_sub_witness(j, ls[0], 0);
    } else if i == ls.len() - 1 {
        let pre = join_with(ls.drop_last(), sep) + sep;
        assert(j == pre + ls.last());
        assert(j.subrange(pre.len() as int, pre.len() as int + ls.last().len() as int)
            =~= ls.last());
        lemma_contains_sub_witness(j, ls[i], pre.len() as int);
    } else {
        lemma_join_contains(ls.drop_last(), sep, i);
        assert(ls.drop_last()[i] == ls[i]);
        lemma_contains_sub_prefix(join_with(ls.drop_last(), sep), sep + ls.last(), ls[i]);
        assert((join_with(ls.drop_last(), sep) + sep) + ls.last() =~= join_with(
            ls.drop_last(),
            sep,
        ) + (sep + ls.last()));
    }
}

} // verus!
