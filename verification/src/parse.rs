//! Exposition parser: classify lines, resolve a metric group's name, and
//! split upstream text into blank-line-separated groups or plain lines.

use vstd::prelude::*;

use crate::text::{find_idx, is_ws, lemma_find_idx_is, lines_of, split_trimmed_lines, views};

verus! {

/// `p` is a prefix of `l`.
pub open spec fn starts_with(l: Seq<char>, p: Seq<char>) -> bool {
    l.len() >= p.len() && l.take(p.len() as int) == p
}

pub open spec fn help_prefix() -> Seq<char> {
    seq!['#', ' ', 'H', 'E', 'L', 'P', ' ']
}

pub open spec fn type_prefix() -> Seq<char> {
    seq!['#', ' ', 'T', 'Y', 'P', 'E', ' ']
}

/// The first whitespace-delimited token of `s`, if any.
pub open spec fn first_token(s: Seq<char>) -> Option<Seq<char>> {
    let st = find_idx(s, |c: char| !is_ws(c));
    if st >= s.len() {
        None
    } else {
        let en = st + find_idx(s.skip(st as int), |c: char| is_ws(c));
        Some(s.subrange(st as int, en as int))
    }
}

/// The metric name a single line yields: the token after `# HELP ` or
/// `# TYPE `; for a sample line, the text before the first `{` if present,
/// otherwise before the first space; nothing for other comments or bare
/// tokens.
pub open spec fn name_of_line(l: Seq<char>) -> Option<Seq<char>> {
    if starts_with(l, help_prefix()) || starts_with(l, type_prefix()) {
        first_token(l.skip(7))
    } else if l.len() > 0 && l[0] != '#' {
        let ib = find_idx(l, |c: char| c == '{');
        let isp = find_idx(l, |c: char| c == ' ');
        if ib < l.len() {
            Some(l.take(ib as int))
        } else if isp < l.len() {
            Some(l.take(isp as int))
        } else {
            None
        }
    } else {
        None
    }
}

/// The name of a group: what the first line that yields a name yields.
pub open spec fn group_name(g: Seq<Seq<char>>) -> Option<Seq<char>>
    decreases g.len(),
{
    if g.len() == 0 {
        None
    } else if name_of_line(g[0]) is Some {
        name_of_line(g[0])
    } else {
        group_name(g.drop_first())
    }
}

/// Split trimmed lines into groups: maximal runs of nonempty lines.
pub open spec fn groups_of(ls: Seq<Seq<char>>) -> Seq<Seq<Seq<char>>>
    decreases ls.len(),
{
    if ls.len() == 0 {
        Seq::empty()
    } else {
        let prev = groups_of(ls.drop_last());
        let l = ls.last();
        if l.len() == 0 {
            prev
        } else if ls.len() >= 2 && ls[ls.len() - 2].len() != 0 {
            prev.update(prev.len() - 1, prev.last().push(l))
        } else {
            prev.push(seq![l])
        }
    }
}

/// The nonempty trimmed lines, in order.
pub open spec fn nonblank(ls: Seq<Seq<char>>) -> Seq<Seq<char>>
    decreases ls.len(),
{
    if ls.len() == 0 {
        Seq::empty()
    } else {
        let pre = nonblank(ls.drop_last());
        if ls.last().len() != 0 {
            pre.push(ls.last())
        } else {
            pre
        }
    }
}

/// The views of a sequence of line groups.
pub open spec fn views2(v: Seq<Vec<String>>) -> Seq<Seq<Seq<char>>> {
    v.map_values(|g: Vec<String>| views(g@))
}

/// `p` is a prefix of `l`.
pub fn has_prefix(l: &str, p: &str) -> (r: bool)
    ensures
        r == starts_with(l@, p@),
{
    let pn = p.unicode_len();
    let ln = l.unicode_len();
    if ln < pn {
        proof {
            assert(!starts_with(l@, p@));
        }
        return false;
    }
    let mut i: usize = 0;
    while i < pn
        invariant
            i <= pn <= ln,
            pn == p@.len(),
            ln == l@.len(),
            forall|k: int| 0 <= k < i ==> l@[k] == p@[k],
        decreases pn - i,
    {
        if l.get_char(i) != p.get_char(i) {
            proof {
                assert(l@.take(pn as int)[i as int] != p@[i as int]);
            }
            return false;
        }
        i += 1;
    }
    proof {
        assert(l@.take(pn as int) =~= p@);
    }
    true
}

/// The first whitespace-delimited token of `l` at or after position `from`.
fn first_token_from(l: &str, from: usize) -> (r: Option<String>)
    requires
        from <= l@.len(),
    ensures
        r is Some <==> first_token(l@.skip(from as int)) is Some,
        r is Some ==> r->0@ == first_token(l@.skip(from as int))->0,
{
    let ghost t = l@.skip(from as int);
    let n = l.unicode_len();
    let mut st: usize = from;
    while st < n && is_ws_char_exec(l.get_char(st))
        invariant
            from <= st <= n,
            n == l@.len(),
            forall|k: int| from <= k < st ==> is_ws(l@[k]),
        decreases n - st,
    {
        st += 1;
    }
    proof {
        let non_ws = |c: char| !is_ws(c);
        assert forall|k: int| 0 <= k < st - from implies !non_ws(t[k]) by {
            assert(t[k] == l@[k + from]);
        }
        if st < n {
            assert(t[st - from] == l@[st as int]);
        }
        lemma_find_idx_is(t, non_ws, st - from);
    }
    if st == n {
        return None;
    }
    let mut en: usize = st;
    while en < n && !is_ws_char_exec(l.get_char(en))
        invariant
            st <= en <= n,
            n == l@.len(),
            forall|k: int| st <= k < en ==> !is_ws(l@[k]),
        decreases n - en,
    {
        en += 1;
    }
    proof {
        let ws_pred = |c: char| is_ws(c);
        let u = l@.skip(st as int);
        assert forall|k: int| 0 <= k < en - st implies !ws_pred(u[k]) by {
            assert(u[k] == l@[k + st]);
        }
        if en < n {
            assert(u[en - st] == l@[en as int]);
        }
        lemma_find_idx_is(u, ws_pred, en - st);
        assert(t.skip(st - from) =~= u);
        assert(t.subrange(st - from, en - from) =~= l@.subrange(st as int, en as int));
    }
    Some(l.substring_char(st, en).to_owned())
}

/// Whether `c` is whitespace (forwards to the text model).
fn is_ws_char_exec(c: char) -> (r: bool)
    ensures
        r == is_ws(c),
{
    crate::text::is_ws_char(c)
}

/// The metric name one trimmed line yields, if any.
pub fn line_name(l: &str) -> (r: Option<String>)
    ensures
        r is Some <==> name_of_line(l@) is Some,
        r is Some ==> r->0@ == name_of_line(l@)->0,
{
    let n = l.unicode_len();
    let help = has_prefix(l, "# HELP ");
    let typ = has_prefix(l, "# TYPE ");
    proof {
        reveal_strlit("# HELP ");
        reveal_strlit("# TYPE ");
        assert("# HELP "@ =~= help_prefix());
        assert("# TYPE "@ =~= type_prefix());
    }
    if help || typ {
        proof {
            assert(l@.len() >= 7);
        }
        first_token_from(l, 7)
    } else if n > 0 && l.get_char(0) != '#' {
        let mut ib: usize = 0;
        while ib < n && l.get_char(ib) != '{'
            invariant
                ib <= n,
                n == l@.len(),
                forall|k: int| 0 <= k < ib ==> l@[k] != '{',
            decreases n - ib,
        {
            ib += 1;
        }
        proof {
            let p = |c: char| c == '{';
            if ib < n {
                assert(p(l@[ib as int]));
            }
            lemma_find_idx_is(l@, p, ib as int);
        }
        if ib < n {
            proof {
                assert(l@.subrange(0, ib as int) =~= l@.take(ib as int));
            }
            return Some(l.substring_char(0, ib).to_owned());
        }
        let mut isp: usize = 0;
        while isp < n && l.get_char(isp) != ' '
            invariant
                isp <= n,
                n == l@.len(),
                forall|k: int| 0 <= k < isp ==> l@[k] != ' ',
            decreases n - isp,
        {
            isp += 1;
        }
        proof {
            let p = |c: char| c == ' ';
            if isp < n {
                assert(p(l@[isp as int]));
            }
            lemma_find_idx_is(l@, p, isp as int);
        }
        if isp < n {
            proof {
                assert(l@.subrange(0, isp as int) =~= l@.take(isp as int));
            }
            Some(l.substring_char(0, isp).to_owned())
        } else {
            None
        }
    } else {
        None
    }
}

/// The name of a group of trimmed lines, if any line yields one.
pub fn group_name_exec(g: &Vec<String>) -> (r: Option<String>)
    ensures
        r is Some <==> group_name(views(g@)) is Some,
        r is Some ==> r->0@ == group_name(views(g@))->0,
{
    let mut i: usize = 0;
    proof {
        assert(views(g@).skip(0) =~= views(g@));
    }
    while i < g.len()
        invariant
            i <= g.len(),
            group_name(views(g@)) == group_name(views(g@).skip(i as int)),
            forall|k: int| 0 <= k < i ==> name_of_line(views(g@)[k]) is None,
        decreases g.len() - i,
    {
        proof {
            assert(views(g@).skip(i as int)[0] == g@[i as int]@);
        }
        let r = line_name(g[i].as_str());
        match r {
            Some(name) => {
                return Some(name);
            },
            None => {
                proof {
                    assert(views(g@).skip(i as int).drop_first() =~= views(g@).skip(i as int + 1));
                }
                i += 1;
            },
        }
    }
    proof {
        assert(views(g@).skip(i as int).len() == 0);
    }
    None
}

/// Split upstream text into blank-line-separated groups of trimmed lines.
pub fn parse_groups(text: &str) -> (r: Vec<Vec<String>>)
    ensures
        views2(r@) == groups_of(lines_of(text@)),
{
    let lines = split_trimmed_lines(text);
    let ghost ls = lines_of(text@);
    let mut groups: Vec<Vec<String>> = Vec::new();
    let mut i: usize = 0;
    proof {
        assert(views2(groups@) =~= groups_of(ls.take(0)));
    }
    while i < lines.len()
        invariant
            i <= lines.len(),
            views(lines@) == ls,
            views2(groups@) == groups_of(ls.take(i as int)),
            i > 0 && ls[i - 1].len() != 0 ==> groups@.len() > 0,
        decreases lines.len() - i,
    {
        let ghost pre = groups_of(ls.take(i as int));
        proof {
            assert(ls.take(i as int + 1).drop_last() =~= ls.take(i as int));
            assert(ls.take(i as int + 1).last() == ls[i as int]);
            assert(ls[i as int] == lines@[i as int]@);
            if i > 0 {
                assert(ls.take(i as int + 1)[i - 1] == ls[i - 1]);
            }
        }
        if lines[i].as_str().is_empty() {
            proof {
                assert(views2(groups@) =~= groups_of(ls.take(i as int + 1)));
            }
        } else {
            if i > 0 && !lines[i - 1].as_str().is_empty() {
                let mut g = groups.pop().unwrap();
                g.push(lines[i].clone());
                groups.push(g);
                proof {
                    assert(views(g@).drop_last() =~= pre.last());
                    assert(views(g@) =~= pre.last().push(ls[i as int]));
                    assert(views2(groups@) =~= pre.update(pre.len() - 1, pre.last().push(
                        ls[i as int],
                    )));
                }
            } else {
                let mut g: Vec<String> = Vec::new();
                g.push(lines[i].clone());
                groups.push(g);
                proof {
                    assert(views(g@) =~= seq![ls[i as int]]);
                    assert(views2(groups@) =~= pre.push(seq![ls[i as int]]));
                }
            }
        }
        i += 1;
    }
    proof {
        assert(ls.take(ls.len() as int) =~= ls);
    }
    groups
}

/// The nonempty trimmed lines of upstream text, in order (simple mode).
pub fn parse_sample_lines(text: &str) -> (r: Vec<String>)
    ensures
        views(r@) == nonblank(lines_of(text@)),
{
    let lines = split_trimmed_lines(text);
    let ghost ls = lines_of(text@);
    let mut out: Vec<String> = Vec::new();
    let mut i: usize = 0;
    proof {
        assert(views(out@) =~= nonblank(ls.take(0)));
    }
    while i < lines.len()
        invariant
            i <= lines.len(),
            views(lines@) == ls,
            views(out@) == nonblank(ls.take(i as int)),
        decreases lines.len() - i,
    {
        proof {
            assert(ls.take(i as int + 1).drop_last() =~= ls.take(i as int));
            assert(ls.take(i as int + 1).last() == ls[i as int]);
            assert(ls[i as int] == lines@[i as int]@);
        }
        let ghost vout = views(out@);
        if !lines[i].as_str().is_empty() {
            out.push(lines[i].clone());
            proof {
                assert(views(out@) =~= vout.push(ls[i as int]));
                assert(views(out@) =~= nonblank(ls.take(i as int + 1)));
            }
        } else {
            proof {
                assert(views(out@) =~= nonblank(ls.take(i as int + 1)));
            }
        }
        i += 1;
    }
    proof {
        assert(ls.take(ls.len() as int) =~= ls);
    }
    out
}

} // verus!
