//! Label sets and label injection: a target's key/value labels, kept in
//! canonical (lexicographic) key order, and the rewriting of sample lines to
//! carry them.

use vstd::prelude::*;

use crate::text::{find_idx, is_meta, is_meta_line, join_with, lemma_find_idx_is, lex_lt, str_lt};

verus! {

/// The text `key="value"` for one label pair.
pub open spec fn pair_text(p: (Seq<char>, Seq<char>)) -> Seq<char> {
    p.0 + seq!['=', '"'] + p.1 + seq!['"']
}

/// The serialized form of a label list: pairs joined with commas.
pub open spec fn fmt_labels(ps: Seq<(Seq<char>, Seq<char>)>) -> Seq<char> {
    join_with(ps.map_values(|p: (Seq<char>, Seq<char>)| pair_text(p)), seq![','])
}

/// Keys strictly increase, so they are unique and the serialization is
/// canonical: one label set has exactly one text.
pub open spec fn label_pairs_wf(ps: Seq<(Seq<char>, Seq<char>)>) -> bool {
    forall|i: int, j: int| 0 <= i < j < ps.len() ==> lex_lt(ps[i].0, ps[j].0)
}

/// Insert a pair into a key-sorted pair list, replacing the value if the key
/// is already present.
pub open spec fn insert_label(
    ps: Seq<(Seq<char>, Seq<char>)>,
    k: Seq<char>,
    v: Seq<char>,
) -> Seq<(Seq<char>, Seq<char>)>
    decreases ps.len(),
{
    if ps.len() == 0 {
        seq![(k, v)]
    } else if lex_lt(k, ps[0].0) {
        seq![(k, v)] + ps
    } else if k == ps[0].0 {
        seq![(k, v)] + ps.drop_first()
    } else {
        seq![ps[0]] + insert_label(ps.drop_first(), k, v)
    }
}

/// A target's label set, serialized in lexicographic key order so that
/// repeated runs give byte-identical output.
pub struct LabelSet {
    pairs: Vec<(String, String)>,
}

impl View for LabelSet {
    type V = Seq<(Seq<char>, Seq<char>)>;

    closed spec fn view(&self) -> Seq<(Seq<char>, Seq<char>)> {
        self.pairs@.map_values(|p: (String, String)| (p.0@, p.1@))
    }
}

impl LabelSet {
    /// Canonical order of the stored pairs.
    pub open spec fn wf(&self) -> bool {
        label_pairs_wf(self@)
    }

    /// The empty label set.
    pub fn new() -> (r: LabelSet)
        ensures
            r@ == Seq::<(Seq<char>, Seq<char>)>::empty(),
            r.wf(),
    {
        let r = LabelSet { pairs: Vec::new() };
        proof {
            assert(r@ =~= Seq::<(Seq<char>, Seq<char>)>::empty());
        }
        r
    }

    /// Number of labels.
    pub fn len(&self) -> (n: usize)
        ensures
            n == self@.len(),
    {
        self.pairs.len()
    }

    /// Add one label, keeping keys sorted; an existing value under the same
    /// key is replaced.
    pub fn insert(&mut self, key: String, value: String)
        requires
            old(self).wf(),
        ensures
            final(self)@ == insert_label(old(self)@, key@, value@),
            final(self).wf(),
    {
        let ghost s = self@;
        let mut i: usize = 0;
        while i < self.pairs.len() && str_lt(self.pairs[i].0.as_str(), key.as_str())
            invariant
                i <= self.pairs.len(),
                s == self@,
                label_pairs_wf(s),
                forall|k: int| 0 <= k < i ==> lex_lt(s[k].0, key@),
            decreases self.pairs.len() - i,
        {
            proof {
                assert(s[i as int].0 == self.pairs@[i as int].0@);
            }
            i += 1;
        }
        proof {
            if i < self.pairs.len() {
                assert(s[i as int].0 == self.pairs@[i as int].0@);
            }
        }
        if i < self.pairs.len() && self.pairs[i].0 == key {
            self.pairs.remove(i);
            self.pairs.insert(i, (key, value));
        } else {
            self.pairs.insert(i, (key, value));
        }
        proof {
            lemma_insert_label_at(s, key@, value@, i as int);
            assert(self@ =~= insert_label(s, key@, value@));
            lemma_insert_label_wf(s, key@, value@);
        }
    }

    /// The serialized label list, `k1="v1",k2="v2",...`.
    pub fn label_text(&self) -> (r: String)
        ensures
            r@ == fmt_labels(self@),
    {
        let mut out = String::new();
        let mut i: usize = 0;
        proof {
            assert(self@.take(0).map_values(|p: (Seq<char>, Seq<char>)| pair_text(p))
                =~= Seq::<Seq<char>>::empty());
        }
        while i < self.pairs.len()
            invariant
                i <= self.pairs.len(),
                out@ == fmt_labels(self@.take(i as int)),
            decreases self.pairs.len() - i,
        {
            proof {
                reveal_strlit(",");
                reveal_strlit("=\"");
                reveal_strlit("\"");
                let f = |p: (Seq<char>, Seq<char>)| pair_text(p);
                let pre = self@.take(i as int).map_values(f);
                let cur = self@.take(i as int + 1).map_values(f);
                assert(self@.take(i as int + 1).drop_last() =~= self@.take(i as int));
                assert(cur.drop_last() =~= pre);
                assert(cur.last() == pair_text(self@[i as int]));
                assert(","@ =~= seq![',']);
                assert("=\""@ =~= seq!['=', '"']);
                assert("\""@ =~= seq!['"']);
            }
            if i > 0 {
                out.append(",");
            }
            out.append(self.pairs[i].0.as_str());
            out.append("=\"");
            out.append(self.pairs[i].1.as_str());
            out.append("\"");
            proof {
                assert(self.pairs@[i as int].0@ == self@[i as int].0);
                assert(self.pairs@[i as int].1@ == self@[i as int].1);
                assert(out@ =~= fmt_labels(self@.take(i as int + 1)));
            }
            i += 1;
        }
        proof {
            assert(self@.take(self@.len() as int) =~= self@);
        }
        out
    }
}

proof fn lemma_insert_label_wf(ps: Seq<(Seq<char>, Seq<char>)>, k: Seq<char>, v: Seq<char>)
    requires
        label_pairs_wf(ps),
    ensures
        label_pairs_wf(insert_label(ps, k, v)),
    decreases ps.len(),
{
    let r = insert_label(ps, k, v);
    if ps.len() == 0 {
    } else if lex_lt(k, ps[0].0) {
        assert forall|i: int, j: int| 0 <= i < j < r.len() implies lex_lt(r[i].0, r[j].0) by {
            if i == 0 {
                assert(r[j] == ps[j - 1]);
                if j > 1 {
                    crate::text::lemma_lex_trans(k, ps[0].0, ps[j - 1].0);
                }
            } else {
                assert(r[i] == ps[i - 1]);
                assert(r[j] == ps[j - 1]);
            }
        }
    } else if k == ps[0].0 {
        assert forall|i: int, j: int| 0 <= i < j < r.len() implies lex_lt(r[i].0, r[j].0) by {
            assert(r[j] == ps.drop_first()[j - 1]);
            assert(ps.drop_first()[j - 1] == ps[j]);
            if i > 0 {
                assert(r[i] == ps[i]);
            }
        }
    } else {
        let t = ps.drop_first();
        assert forall|a: int, b: int| 0 <= a < b < t.len() implies lex_lt(t[a].0, t[b].0) by {
            assert(t[a] == ps[a + 1]);
            assert(t[b] == ps[b + 1]);
        }
        lemma_insert_label_wf(t, k, v);
        let rr = insert_label(t, k, v);
        crate::text::lemma_lex_total(k, ps[0].0);
        assert(lex_lt(ps[0].0, k));
        lemma_insert_label_keys(t, k, v);
        assert forall|i: int, j: int| 0 <= i < j < r.len() implies lex_lt(r[i].0, r[j].0) by {
            if i == 0 {
                assert(r[j] == rr[j - 1]);
                if rr[j - 1].0 == k {
                } else {
                    let m = choose|m: int| 0 <= m < t.len() && t[m].0 == rr[j - 1].0;
                    assert(t[m] == ps[m + 1]);
                    assert(lex_lt(ps[0].0, t[m].0));
                }
            } else {
                assert(r[i] == rr[i - 1]);
                assert(r[j] == rr[j - 1]);
            }
        }
    }
}

/// Every key in the inserted list is the new key or one of the old keys.
proof fn lemma_insert_label_keys(ps: Seq<(Seq<char>, Seq<char>)>, k: Seq<char>, v: Seq<char>)
    ensures
        forall|j: int|
            0 <= j < insert_label(ps, k, v).len() ==> (#[trigger] insert_label(ps, k, v)[j].0 == k
                || exists|m: int| 0 <= m < ps.len() && ps[m].0 == insert_label(ps, k, v)[j].0),
    decreases ps.len(),
{
    let r = insert_label(ps, k, v);
    if ps.len() == 0 {
    } else if lex_lt(k, ps[0].0) {
        assert forall|j: int| 0 <= j < r.len() implies (r[j].0 == k || exists|m: int|
            0 <= m < ps.len() && ps[m].0 == r[j].0) by {
            if j > 0 {
                assert(ps[j - 1].0 == r[j].0);
            }
        }
    } else if k == ps[0].0 {
        assert forall|j: int| 0 <= j < r.len() implies (r[j].0 == k || exists|m: int|
            0 <= m < ps.len() && ps[m].0 == r[j].0) by {
            if j > 0 {
                assert(r[j] == ps.drop_first()[j - 1]);
                assert(ps[j].0 == r[j].0);
            }
        }
    } else {
        let t = ps.drop_first();
        lemma_insert_label_keys(t, k, v);
        let rr = insert_label(t, k, v);
        assert forall|j: int| 0 <= j < r.len() implies (r[j].0 == k || exists|m: int|
            0 <= m < ps.len() && ps[m].0 == r[j].0) by {
            if j == 0 {
                assert(ps[0].0 == r[0].0);
            } else {
                assert(r[j] == rr[j - 1]);
                if rr[j - 1].0 == k {
                } else {
                    let m = choose|m: int| 0 <= m < t.len() && t[m].0 == rr[j - 1].0;
                    assert(ps[m + 1].0 == r[j].0);
                }
            }
        }
    }
}

proof fn lemma_insert_label_at(
    ps: Seq<(Seq<char>, Seq<char>)>,
    k: Seq<char>,
    v: Seq<char>,
    i: int,
)
    requires
        label_pairs_wf(ps),
        0 <= i <= ps.len(),
        forall|m: int| 0 <= m < i ==> lex_lt(ps[m].0, k),
        i < ps.len() ==> !lex_lt(ps[i].0, k),
    ensures
        insert_label(ps, k, v) == if i < ps.len() && ps[i].0 == k {
            ps.remove(i).insert(i, (k, v))
        } else {
            ps.insert(i, (k, v))
        },
    decreases ps.len(),
{
    if ps.len() == 0 {
        assert(insert_label(ps, k, v) =~= ps.insert(0, (k, v)));
    } else if i == 0 {
        if lex_lt(k, ps[0].0) {
            assert(seq![(k, v)] + ps =~= ps.insert(0, (k, v)));
        } else if k == ps[0].0 {
            assert(seq![(k, v)] + ps.drop_first() =~= ps.remove(0).insert(0, (k, v)));
        } else {
            crate::text::lemma_lex_total(k, ps[0].0);
            assert(false);
        }
    } else {
        crate::text::lemma_lex_irrefl(ps[0].0);
        if lex_lt(k, ps[0].0) {
            crate::text::lemma_lex_trans(ps[0].0, k, ps[0].0);
            assert(false);
        }
        assert(k != ps[0].0);
        let t = ps.drop_first();
        assert forall|a: int, b: int| 0 <= a < b < t.len() implies lex_lt(t[a].0, t[b].0) by {
            assert(t[a] == ps[a + 1]);
            assert(t[b] == ps[b + 1]);
        }
        assert forall|m: int| 0 <= m < i - 1 implies lex_lt(t[m].0, k) by {
            assert(t[m] == ps[m + 1]);
        }
        if i - 1 < t.len() {
            assert(t[i - 1] == ps[i]);
        }
        lemma_insert_label_at(t, k, v, i - 1);
        if i < ps.len() && ps[i].0 == k {
            assert(insert_label(ps, k, v) =~= ps.remove(i).insert(i, (k, v)));
        } else {
            assert(insert_label(ps, k, v) =~= ps.insert(i, (k, v)));
        }
    }
}

/// What label injection does to one trimmed line: metadata passes through
/// unchanged; a sample line with no value part is dropped as malformed; an
/// empty label set leaves a sample line unchanged; otherwise the labels are
/// spliced into the line's label list (appended to an existing `{...}` list,
/// or a new list is added).
pub open spec fn inject_line(lbls: Seq<(Seq<char>, Seq<char>)>, l: Seq<char>) -> Option<Seq<char>> {
    if is_meta(l) {
        Some(l)
    } else {
        let i = find_idx(l, |c: char| c == ' ');
        if i >= l.len() {
            None
        } else if lbls.len() == 0 {
            Some(l)
        } else {
            let ident = l.take(i as int);
            let value = l.skip(i as int + 1);
            if ident.len() > 0 && ident.last() == '}' {
                Some(ident.drop_last() + seq![','] + fmt_labels(lbls) + seq!['}', ' '] + value)
            } else {
                Some(ident + seq!['{'] + fmt_labels(lbls) + seq!['}', ' '] + value)
            }
        }
    }
}

/// Inject labels into one trimmed line, or drop it as malformed.
pub fn inject_line_exec(labels: &LabelSet, l: &str) -> (r: Option<String>)
    ensures
        r is Some <==> inject_line(labels@, l@) is Some,
        r is Some ==> r->0@ == inject_line(labels@, l@)->0,
{
    let n = l.unicode_len();
    if is_meta_line(l) {
        return Some(l.to_owned());
    }
    let mut i: usize = 0;
    while i < n && l.get_char(i) != ' '
        invariant
            i <= n,
            n == l@.len(),
            forall|k: int| 0 <= k < i ==> l@[k] != ' ',
        decreases n - i,
    {
        i += 1;
    }
    proof {
        let p = |c: char| c == ' ';
        if i < n {
            assert(p(l@[i as int]));
        }
        lemma_find_idx_is(l@, p, i as int);
    }
    if i == n {
        return None;
    }
    if labels.len() == 0 {
        return Some(l.to_owned());
    }
    let fmt = labels.label_text();
    let value = l.substring_char(i + 1, n);
    let ghost ident = l@.take(i as int);
    let mut out: String;
    if i > 0 && l.get_char(i - 1) == '}' {
        out = l.substring_char(0, i - 1).to_owned();
        out.append(",");
        out.append(fmt.as_str());
        out.append("} ");
        out.append(value);
        proof {
            reveal_strlit(",");
            reveal_strlit("} ");
            assert(","@ =~= seq![',']);
            assert("} "@ =~= seq!['}', ' ']);
            assert(ident.last() == l@[i - 1]);
            assert(ident.drop_last() =~= l@.subrange(0, i - 1));
            assert(out@ =~= ident.drop_last() + seq![','] + fmt_labels(labels@) + seq!['}', ' ']
                + l@.skip(i as int + 1));
        }
    } else {
        out = l.substring_char(0, i).to_owned();
        out.append("{");
        out.append(fmt.as_str());
        out.append("} ");
        out.append(value);
        proof {
            reveal_strlit("{");
            reveal_strlit("} ");
            assert("{"@ =~= seq!['{']);
            assert("} "@ =~= seq!['}', ' ']);
            if ident.len() > 0 {
                assert(ident.last() == l@[i - 1]);
            }
            assert(out@ =~= ident + seq!['{'] + fmt_labels(labels@) + seq!['}', ' '] + l@.skip(
                i as int + 1,
            ));
        }
    }
    Some(out)
}

} // verus!
