//! The engine's global guarantees, stated and proved over the same spec
//! functions that the executable functions' contracts use.

use vstd::prelude::*;

use crate::aggregate::{acc_add_group, acc_all, acc_groups, acc_names, assemble_grouped, find_key,
    grouped_document,
    group_doc, inject_group, lemma_find_key, lemma_find_key_is, lookup, ordered_all,
    ordered_target};
use crate::labels::{fmt_labels, inject_line, pair_text};
use crate::parse::{group_name, groups_of, nonblank};
use crate::text::{contains_sub, find_idx, is_meta, join_with, lemma_contains_sub_prefix,
    lemma_contains_sub_suffix, lemma_contains_sub_witness, lemma_join_contains, lemma_lex_irrefl,
    lemma_sort_dedup, lemma_sort_dedup_same_members, lex_lt, lines_of, sort_dedup,
    strictly_sorted};

verus! {

/// No two elements are textually identical.
pub open spec fn no_dups(ls: Seq<Seq<char>>) -> bool {
    forall|i: int, j: int| 0 <= i < j < ls.len() ==> ls[i] != ls[j]
}

pub proof fn lemma_strictly_sorted_no_dups(ls: Seq<Seq<char>>)
    requires
        strictly_sorted(ls),
    ensures
        no_dups(ls),
{
    assert forall|i: int, j: int| 0 <= i < j < ls.len() implies ls[i] != ls[j] by {
        assert(lex_lt(ls[i], ls[j]));
        lemma_lex_irrefl(ls[i]);
    }
}

/// Exact dedup, grouped strategy: in the final document no metric group holds
/// two textually identical lines, whatever the upstream texts were.
pub proof fn lemma_exact_dedup_grouped(
    inputs: Seq<(Seq<(Seq<char>, Seq<char>)>, Seq<char>)>,
    name: Seq<char>,
)
    ensures
        no_dups(sort_dedup(lookup(acc_all(inputs), name))),
{
    lemma_sort_dedup(lookup(acc_all(inputs), name));
    lemma_strictly_sorted_no_dups(sort_dedup(lookup(acc_all(inputs), name)));
}

proof fn lemma_ordered_target_no_dups(
    acc: Seq<Seq<char>>,
    lbls: Seq<(Seq<char>, Seq<char>)>,
    ls: Seq<Seq<char>>,
)
    requires
        no_dups(acc),
    ensures
        no_dups(ordered_target(acc, lbls, ls)),
    decreases ls.len(),
{
    if ls.len() > 0 {
        lemma_ordered_target_no_dups(acc, lbls, ls.drop_last());
        let a2 = ordered_target(acc, lbls, ls.drop_last());
        match inject_line(lbls, ls.last()) {
            None => {},
            Some(x) => {
                if !a2.contains(x) {
                    assert forall|i: int, j: int|
                        0 <= i < j < a2.push(x).len() implies a2.push(x)[i] != a2.push(x)[j] by {
                        if j == a2.len() {
                            assert(a2.push(x)[i] == a2[i]);
                            if a2[i] == x {
                                assert(a2.contains(x));
                            }
                        }
                    }
                }
            },
        }
    }
}

/// Exact dedup, ordered strategy: the whole running document never holds two
/// textually identical lines, whatever the upstream texts were.
pub proof fn lemma_exact_dedup_ordered(inputs: Seq<(Seq<(Seq<char>, Seq<char>)>, Seq<char>)>)
    ensures
        no_dups(ordered_all(inputs)),
    decreases inputs.len(),
{
    if inputs.len() > 0 {
        lemma_exact_dedup_ordered(inputs.drop_last());
        lemma_ordered_target_no_dups(
            ordered_all(inputs.drop_last()),
            inputs.last().0,
            nonblank(lines_of(inputs.last().1)),
        );
    }
}

/// Alphabetical assembly, grouped strategy: the final document is exactly the
/// groups in strictly increasing lexicographic name order, each group's lines
/// themselves strictly increasing, separated by blank lines.
pub proof fn lemma_alphabetical_assembly(inputs: Seq<(Seq<(Seq<char>, Seq<char>)>, Seq<char>)>)
    ensures
        strictly_sorted(sort_dedup(acc_names(acc_all(inputs)))),
        forall|n: Seq<char>| strictly_sorted(sort_dedup(lookup(acc_all(inputs), n))),
        grouped_document(inputs) == join_with(
            sort_dedup(acc_names(acc_all(inputs))).map_values(
                |n: Seq<char>| group_doc(acc_all(inputs), n),
            ),
            seq!['\n', '\n'],
        ),
{
    lemma_sort_dedup(acc_names(acc_all(inputs)));
    assert forall|n: Seq<char>| strictly_sorted(sort_dedup(lookup(acc_all(inputs), n))) by {
        lemma_sort_dedup(lookup(acc_all(inputs), n));
    }
}

/// Metadata lines pass the label injector unchanged.
pub proof fn lemma_metadata_unchanged(lbls: Seq<(Seq<char>, Seq<char>)>, l: Seq<char>)
    requires
        is_meta(l),
    ensures
        inject_line(lbls, l) == Some(l),
{
}

proof fn lemma_find_key_same_keys(
    a1: Seq<(Seq<char>, Seq<Seq<char>>)>,
    a2: Seq<(Seq<char>, Seq<Seq<char>>)>,
    name: Seq<char>,
)
    requires
        a1.len() == a2.len(),
        forall|k: int| 0 <= k < a1.len() ==> a1[k].0 == a2[k].0,
    ensures
        find_key(a1, name) == find_key(a2, name),
{
    lemma_find_key(a1, name);
    lemma_find_key(a2, name);
    let i = find_key(a1, name) as int;
    assert forall|k: int| 0 <= k < i implies a2[k].0 != name by {
        assert(a1[k].0 != name);
    }
    if i < a1.len() {
        assert(a2[i].0 == name);
    }
    lemma_find_key_is(a2, name, i);
}

/// How adding a named group changes the accumulator: the lines under that
/// name are extended, every other name's lines stay, and exactly the one name
/// may join the name list.
proof fn lemma_add_group(
    acc: Seq<(Seq<char>, Seq<Seq<char>>)>,
    n: Seq<char>,
    ls: Seq<Seq<char>>,
)
    ensures
        forall|m: Seq<char>| #[trigger] lookup(acc_add_group(acc, n, ls), m) == if m == n {
            lookup(acc, m) + ls
        } else {
            lookup(acc, m)
        },
        forall|m: Seq<char>| #[trigger]
            acc_names(acc_add_group(acc, n, ls)).contains(m) <==> (acc_names(acc).contains(m)
                || m == n),
{
    let i = find_key(acc, n);
    let r = acc_add_group(acc, n, ls);
    lemma_find_key(acc, n);
    if i < acc.len() {
        assert forall|m: Seq<char>| #[trigger] lookup(r, m) == if m == n {
            lookup(acc, m) + ls
        } else {
            lookup(acc, m)
        } by {
            lemma_find_key_same_keys(acc, r, m);
            lemma_find_key(acc, m);
            lemma_find_key(r, m);
        }
        assert forall|m: Seq<char>| #[trigger]
            acc_names(r).contains(m) <==> (acc_names(acc).contains(m) || m == n) by {
            if acc_names(r).contains(m) {
                let k = choose|k: int| 0 <= k < acc_names(r).len() && acc_names(r)[k] == m;
                if k == i {
                    assert(m == n);
                } else {
                    assert(acc_names(acc)[k] == m);
                }
            }
            if acc_names(acc).contains(m) {
                let k = choose|k: int| 0 <= k < acc_names(acc).len() && acc_names(acc)[k] == m;
                if k == i {
                    assert(acc[i as int].0 == n);
                    assert(acc_names(r)[k] == n);
                    assert(m == n);
                    assert(acc_names(r).contains(m));
                } else {
                    assert(acc_names(r)[k] == m);
                }
            }
            if m == n {
                assert(acc_names(r)[i as int] == n);
            }
        }
    } else {
        assert forall|m: Seq<char>| #[trigger] lookup(r, m) == if m == n {
            lookup(acc, m) + ls
        } else {
            lookup(acc, m)
        } by {
            lemma_find_key(acc, m);
            let j = find_key(acc, m);
            if m == n {
                assert(j == acc.len());
                lemma_find_key_is(r, m, acc.len() as int);
                assert(lookup(acc, m) =~= Seq::<Seq<char>>::empty());
                assert(lookup(acc, m) + ls =~= ls);
            } else {
                if j < acc.len() {
                    assert forall|k: int| 0 <= k < j implies r[k].0 != m by {
                        assert(acc[k].0 != m);
                    }
                    assert(r[j as int].0 == m);
                    lemma_find_key_is(r, m, j as int);
                } else {
                    assert forall|k: int| 0 <= k < r.len() implies r[k].0 != m by {
                        if k < acc.len() {
                            assert(acc[k].0 != m);
                        }
                    }
                    lemma_find_key_is(r, m, r.len() as int);
                }
            }
        }
        assert forall|m: Seq<char>| #[trigger]
            acc_names(r).contains(m) <==> (acc_names(acc).contains(m) || m == n) by {
            if acc_names(r).contains(m) {
                let k = choose|k: int| 0 <= k < acc_names(r).len() && acc_names(r)[k] == m;
                if k < acc.len() {
                    assert(acc_names(acc)[k] == m);
                } else {
                    assert(m == n);
                }
            }
            if acc_names(acc).contains(m) {
                let k = choose|k: int| 0 <= k < acc_names(acc).len() && acc_names(acc)[k] == m;
                assert(acc_names(r)[k] == m);
            }
            if m == n {
                assert(acc_names(r)[acc.len() as int] == n);
            }
        }
    }
}

/// The labeled lines that a sequence of parsed groups contributes under one
/// metric name.
pub open spec fn yields_of(
    lbls: Seq<(Seq<char>, Seq<char>)>,
    gs: Seq<Seq<Seq<char>>>,
    name: Seq<char>,
) -> Seq<Seq<char>>
    decreases gs.len(),
{
    if gs.len() == 0 {
        Seq::empty()
    } else {
        let pre = yields_of(lbls, gs.drop_last(), name);
        if group_name(gs.last()) == Some(name) {
            pre + inject_group(lbls, gs.last())
        } else {
            pre
        }
    }
}

/// The labeled lines one target's raw text contributes under one name.
pub open spec fn target_yields(
    lbls: Seq<(Seq<char>, Seq<char>)>,
    body: Seq<char>,
    name: Seq<char>,
) -> Seq<Seq<char>> {
    yields_of(lbls, groups_of(lines_of(body)), name)
}

/// The labeled lines all targets contribute under one name, in target order.
pub open spec fn all_yields(
    inputs: Seq<(Seq<(Seq<char>, Seq<char>)>, Seq<char>)>,
    name: Seq<char>,
) -> Seq<Seq<char>>
    decreases inputs.len(),
{
    if inputs.len() == 0 {
        Seq::empty()
    } else {
        all_yields(inputs.drop_last(), name) + target_yields(
            inputs.last().0,
            inputs.last().1,
            name,
        )
    }
}

/// Accumulating a target's groups appends, under each name, exactly what the
/// groups yield for that name; a name is present afterwards iff it was
/// present before or some group yields a line for it.
proof fn lemma_acc_groups(
    acc: Seq<(Seq<char>, Seq<Seq<char>>)>,
    lbls: Seq<(Seq<char>, Seq<char>)>,
    gs: Seq<Seq<Seq<char>>>,
)
    ensures
        forall|m: Seq<char>| #[trigger] lookup(acc_groups(acc, lbls, gs), m) == lookup(acc, m)
            + yields_of(lbls, gs, m),
        forall|m: Seq<char>| #[trigger]
            acc_names(acc_groups(acc, lbls, gs)).contains(m) <==> (acc_names(acc).contains(m)
                || yields_of(lbls, gs, m).len() != 0),
    decreases gs.len(),
{
    if gs.len() == 0 {
        assert forall|m: Seq<char>| #[trigger] lookup(acc_groups(acc, lbls, gs), m) == lookup(
            acc,
            m,
        ) + yields_of(lbls, gs, m) by {
            assert(lookup(acc, m) + Seq::<Seq<char>>::empty() =~= lookup(acc, m));
        }
    } else {
        lemma_acc_groups(acc, lbls, gs.drop_last());
        let a2 = acc_groups(acc, lbls, gs.drop_last());
        let g = gs.last();
        let r = acc_groups(acc, lbls, gs);
        match group_name(g) {
            None => {
                assert forall|m: Seq<char>| #[trigger] lookup(r, m) == lookup(acc, m) + yields_of(
                    lbls,
                    gs,
                    m,
                ) by {
                    assert(lookup(a2, m) == lookup(acc, m) + yields_of(lbls, gs.drop_last(), m));
                }
            },
            Some(n) => {
                let inj = inject_group(lbls, g);
                if inj.len() == 0 {
                    assert forall|m: Seq<char>| #[trigger] lookup(r, m) == lookup(acc, m)
                        + yields_of(lbls, gs, m) by {
                        assert(lookup(a2, m) == lookup(acc, m) + yields_of(
                            lbls,
                            gs.drop_last(),
                            m,
                        ));
                        if group_name(g) == Some(m) {
                            assert(yields_of(lbls, gs, m) =~= yields_of(lbls, gs.drop_last(), m));
                        }
                    }
                } else {
                    lemma_add_group(a2, n, inj);
                    assert forall|m: Seq<char>| #[trigger] lookup(r, m) == lookup(acc, m)
                        + yields_of(lbls, gs, m) by {
                        assert(lookup(a2, m) == lookup(acc, m) + yields_of(
                            lbls,
                            gs.drop_last(),
                            m,
                        ));
                        if m == n {
                            assert(lookup(r, m) == lookup(a2, m) + inj);
                            assert((lookup(acc, m) + yields_of(lbls, gs.drop_last(), m)) + inj
                                =~= lookup(acc, m) + (yields_of(lbls, gs.drop_last(), m) + inj));
                        } else {
                            assert(lookup(r, m) == lookup(a2, m));
                        }
                    }
                    assert forall|m: Seq<char>| #[trigger]
                        acc_names(r).contains(m) <==> (acc_names(acc).contains(m) || yields_of(
                            lbls,
                            gs,
                            m,
                        ).len() != 0) by {
                        assert(acc_names(r).contains(m) <==> (acc_names(a2).contains(m) || m
                            == n));
                    }
                }
            },
        }
    }
}

/// The whole accumulator holds, under each name, exactly what the targets
/// yield for that name, in target order; a name is present iff some target
/// yields a line for it.
proof fn lemma_acc_all(inputs: Seq<(Seq<(Seq<char>, Seq<char>)>, Seq<char>)>)
    ensures
        forall|m: Seq<char>| #[trigger] lookup(acc_all(inputs), m) == all_yields(inputs, m),
        forall|m: Seq<char>| #[trigger]
            acc_names(acc_all(inputs)).contains(m) <==> all_yields(inputs, m).len() != 0,
    decreases inputs.len(),
{
    if inputs.len() == 0 {
        assert forall|m: Seq<char>| #[trigger] lookup(acc_all(inputs), m) == all_yields(
            inputs,
            m,
        ) by {
            assert(lookup(acc_all(inputs), m) =~= Seq::<Seq<char>>::empty());
        }
        assert forall|m: Seq<char>| #[trigger]
            acc_names(acc_all(inputs)).contains(m) <==> all_yields(inputs, m).len() != 0 by {
            if acc_names(acc_all(inputs)).contains(m) {
                let k = choose|k: int|
                    0 <= k < acc_names(acc_all(inputs)).len() && acc_names(acc_all(inputs))[k]
                        == m;
            }
        }
    } else {
        lemma_acc_all(inputs.drop_last());
        let prev = acc_all(inputs.drop_last());
        lemma_acc_groups(prev, inputs.last().0, groups_of(lines_of(inputs.last().1)));
        assert forall|m: Seq<char>| #[trigger] lookup(acc_all(inputs), m) == all_yields(
            inputs,
            m,
        ) by {
            assert(lookup(acc_all(inputs), m) == lookup(prev, m) + target_yields(
                inputs.last().0,
                inputs.last().1,
                m,
            ));
        }
    }
}

/// A line stands under a name in the pooled yields iff some target yields it
/// under that name.
proof fn lemma_all_yields_member(
    inputs: Seq<(Seq<(Seq<char>, Seq<char>)>, Seq<char>)>,
    m: Seq<char>,
    x: Seq<char>,
)
    ensures
        all_yields(inputs, m).contains(x) <==> exists|t: int|
            0 <= t < inputs.len() && #[trigger] target_yields(
                inputs[t].0,
                inputs[t].1,
                m,
            ).contains(x),
    decreases inputs.len(),
{
    if inputs.len() > 0 {
        lemma_all_yields_member(inputs.drop_last(), m, x);
        let pre = all_yields(inputs.drop_last(), m);
        let lasty = target_yields(inputs.last().0, inputs.last().1, m);
        let whole = all_yields(inputs, m);
        if whole.contains(x) {
            let k = choose|k: int| 0 <= k < whole.len() && whole[k] == x;
            if k < pre.len() {
                assert(pre[k] == x);
                assert(pre.contains(x));
                let t = choose|t: int|
                    0 <= t < inputs.drop_last().len() && #[trigger] target_yields(
                        inputs.drop_last()[t].0,
                        inputs.drop_last()[t].1,
                        m,
                    ).contains(x);
                assert(inputs.drop_last()[t] == inputs[t]);
                assert(target_yields(inputs[t].0, inputs[t].1, m).contains(x));
            } else {
                assert(lasty[k - pre.len()] == x);
                assert(lasty.contains(x));
                assert(inputs.last() == inputs[inputs.len() - 1]);
                assert(target_yields(
                    inputs[inputs.len() - 1].0,
                    inputs[inputs.len() - 1].1,
                    m,
                ).contains(x));
            }
        }
        if exists|t: int|
            0 <= t < inputs.len() && #[trigger] target_yields(
                inputs[t].0,
                inputs[t].1,
                m,
            ).contains(x) {
            let t = choose|t: int|
                0 <= t < inputs.len() && #[trigger] target_yields(
                    inputs[t].0,
                    inputs[t].1,
                    m,
                ).contains(x);
            if t < inputs.len() - 1 {
                assert(inputs.drop_last()[t] == inputs[t]);
                assert(target_yields(
                    inputs.drop_last()[t].0,
                    inputs.drop_last()[t].1,
                    m,
                ).contains(x));
                assert(pre.contains(x));
                let k = choose|k: int| 0 <= k < pre.len() && pre[k] == x;
                assert(whole[k] == x);
            } else {
                assert(lasty.contains(x));
                let k = choose|k: int| 0 <= k < lasty.len() && lasty[k] == x;
                assert(whole[pre.len() + k] == x);
            }
            assert(whole.contains(x));
        }
    }
}

/// A name has pooled yields iff some target yields a line for it.
proof fn lemma_all_yields_nonempty(
    inputs: Seq<(Seq<(Seq<char>, Seq<char>)>, Seq<char>)>,
    m: Seq<char>,
)
    ensures
        all_yields(inputs, m).len() != 0 <==> exists|t: int|
            0 <= t < inputs.len() && #[trigger] target_yields(inputs[t].0, inputs[t].1, m).len()
                != 0,
    decreases inputs.len(),
{
    if inputs.len() > 0 {
        lemma_all_yields_nonempty(inputs.drop_last(), m);
        let lasty = target_yields(inputs.last().0, inputs.last().1, m);
        if all_yields(inputs, m).len() != 0 {
            if all_yields(inputs.drop_last(), m).len() != 0 {
                let t = choose|t: int|
                    0 <= t < inputs.drop_last().len() && #[trigger] target_yields(
                        inputs.drop_last()[t].0,
                        inputs.drop_last()[t].1,
                        m,
                    ).len() != 0;
                assert(inputs.drop_last()[t] == inputs[t]);
                assert(target_yields(inputs[t].0, inputs[t].1, m).len() != 0);
            } else {
                assert(inputs.last() == inputs[inputs.len() - 1]);
                assert(target_yields(
                    inputs[inputs.len() - 1].0,
                    inputs[inputs.len() - 1].1,
                    m,
                ).len() != 0);
            }
        }
        if exists|t: int|
            0 <= t < inputs.len() && #[trigger] target_yields(inputs[t].0, inputs[t].1, m).len()
                != 0 {
            let t = choose|t: int|
                0 <= t < inputs.len() && #[trigger] target_yields(
                    inputs[t].0,
                    inputs[t].1,
                    m,
                ).len() != 0;
            if t < inputs.len() - 1 {
                assert(inputs.drop_last()[t] == inputs[t]);
                assert(target_yields(
                    inputs.drop_last()[t].0,
                    inputs.drop_last()[t].1,
                    m,
                ).len() != 0);
            }
        }
    }
}

/// Two sequences with the same multiset have the same members.
proof fn lemma_same_multiset_same_members(
    l1: Seq<(Seq<(Seq<char>, Seq<char>)>, Seq<char>)>,
    l2: Seq<(Seq<(Seq<char>, Seq<char>)>, Seq<char>)>,
)
    requires
        l1.to_multiset() == l2.to_multiset(),
    ensures
        forall|e: (Seq<(Seq<char>, Seq<char>)>, Seq<char>)| #[trigger]
            l1.contains(e) <==> #[trigger] l2.contains(e),
{
    broadcast use vstd::seq_lib::group_to_multiset_ensures;

    assert forall|e: (Seq<(Seq<char>, Seq<char>)>, Seq<char>)| #[trigger]
        l1.contains(e) <==> #[trigger] l2.contains(e) by {
        assert(l1.contains(e) <==> l1.to_multiset().count(e) > 0);
        assert(l2.contains(e) <==> l2.to_multiset().count(e) > 0);
    }
}

/// Two accumulators with the same names and, under every name, the same set
/// of lines assemble to the same document.
proof fn lemma_assemble_same(
    a1: Seq<(Seq<char>, Seq<Seq<char>>)>,
    a2: Seq<(Seq<char>, Seq<Seq<char>>)>,
)
    requires
        forall|m: Seq<char>| #[trigger] acc_names(a1).contains(m) <==> #[trigger] acc_names(
            a2,
        ).contains(m),
        forall|m: Seq<char>, x: Seq<char>| #[trigger]
            lookup(a1, m).contains(x) <==> #[trigger] lookup(a2, m).contains(x),
    ensures
        assemble_grouped(a1) == assemble_grouped(a2),
{
    lemma_sort_dedup_same_members(acc_names(a1), acc_names(a2));
    let sn = sort_dedup(acc_names(a1));
    let f1 = |n: Seq<char>| group_doc(a1, n);
    let f2 = |n: Seq<char>| group_doc(a2, n);
    assert forall|k: int| 0 <= k < sn.len() implies sn.map_values(f1)[k] == sn.map_values(
        f2,
    )[k] by {
        let n = sn[k];
        assert forall|x: Seq<char>|
            lookup(a1, n).contains(x) <==> lookup(a2, n).contains(x) by {
            assert(lookup(a1, n).contains(x) <==> lookup(a2, n).contains(x));
        }
        lemma_sort_dedup_same_members(lookup(a1, n), lookup(a2, n));
    }
    assert(sn.map_values(f1) =~= sn.map_values(f2));
}

/// Determinism of the grouped strategy: for a fixed multiset of target
/// outputs, the final document is the same whatever order the targets are
/// listed in.
pub proof fn lemma_grouped_determinism(
    inputs1: Seq<(Seq<(Seq<char>, Seq<char>)>, Seq<char>)>,
    inputs2: Seq<(Seq<(Seq<char>, Seq<char>)>, Seq<char>)>,
)
    requires
        inputs1.to_multiset() == inputs2.to_multiset(),
    ensures
        grouped_document(inputs1) == grouped_document(inputs2),
{
    lemma_acc_all(inputs1);
    lemma_acc_all(inputs2);
    lemma_same_multiset_same_members(inputs1, inputs2);
    assert forall|m: Seq<char>, x: Seq<char>| #[trigger]
        lookup(acc_all(inputs1), m).contains(x) <==> #[trigger] lookup(
        acc_all(inputs2),
        m,
    ).contains(x) by {
        lemma_all_yields_member(inputs1, m, x);
        lemma_all_yields_member(inputs2, m, x);
        if lookup(acc_all(inputs1), m).contains(x) {
            let t = choose|t: int|
                0 <= t < inputs1.len() && #[trigger] target_yields(
                    inputs1[t].0,
                    inputs1[t].1,
                    m,
                ).contains(x);
            assert(inputs1.contains(inputs1[t]));
            assert(inputs2.contains(inputs1[t]));
            let u = choose|u: int| 0 <= u < inputs2.len() && inputs2[u] == inputs1[t];
            assert(target_yields(inputs2[u].0, inputs2[u].1, m).contains(x));
        }
        if lookup(acc_all(inputs2), m).contains(x) {
            let t = choose|t: int|
                0 <= t < inputs2.len() && #[trigger] target_yields(
                    inputs2[t].0,
                    inputs2[t].1,
                    m,
                ).contains(x);
            assert(inputs2.contains(inputs2[t]));
            assert(inputs1.contains(inputs2[t]));
            let u = choose|u: int| 0 <= u < inputs1.len() && inputs1[u] == inputs2[t];
            assert(target_yields(inputs1[u].0, inputs1[u].1, m).contains(x));
        }
    }
    assert forall|m: Seq<char>| #[trigger]
        acc_names(acc_all(inputs1)).contains(m) <==> #[trigger] acc_names(
        acc_all(inputs2),
    ).contains(m) by {
        lemma_all_yields_nonempty(inputs1, m);
        lemma_all_yields_nonempty(inputs2, m);
        if acc_names(acc_all(inputs1)).contains(m) {
            let t = choose|t: int|
                0 <= t < inputs1.len() && #[trigger] target_yields(
                    inputs1[t].0,
                    inputs1[t].1,
                    m,
                ).len() != 0;
            assert(inputs1.contains(inputs1[t]));
            assert(inputs2.contains(inputs1[t]));
            let u = choose|u: int| 0 <= u < inputs2.len() && inputs2[u] == inputs1[t];
            assert(target_yields(inputs2[u].0, inputs2[u].1, m).len() != 0);
        }
        if acc_names(acc_all(inputs2)).contains(m) {
            let t = choose|t: int|
                0 <= t < inputs2.len() && #[trigger] target_yields(
                    inputs2[t].0,
                    inputs2[t].1,
                    m,
                ).len() != 0;
            assert(inputs2.contains(inputs2[t]));
            assert(inputs1.contains(inputs2[t]));
            let u = choose|u: int| 0 <= u < inputs1.len() && inputs1[u] == inputs2[t];
            assert(target_yields(inputs1[u].0, inputs1[u].1, m).len() != 0);
        }
    }
    lemma_assemble_same(acc_all(inputs1), acc_all(inputs2));
}

/// A kept line of a group is among the group's injected lines.
proof fn lemma_inject_group_contains(
    lbls: Seq<(Seq<char>, Seq<char>)>,
    g: Seq<Seq<char>>,
    li: int,
)
    requires
        0 <= li < g.len(),
        inject_line(lbls, g[li]) is Some,
    ensures
        inject_group(lbls, g).contains(inject_line(lbls, g[li])->0),
    decreases g.len(),
{
    let x = inject_line(lbls, g[li])->0;
    let pre = inject_group(lbls, g.drop_last());
    if li == g.len() - 1 {
        assert(g.last() == g[li]);
        assert(inject_group(lbls, g)[pre.len() as int] == x);
    } else {
        assert(g.drop_last()[li] == g[li]);
        lemma_inject_group_contains(lbls, g.drop_last(), li);
        let k = choose|k: int| 0 <= k < pre.len() && pre[k] == x;
        assert(inject_group(lbls, g)[k] == x);
    }
}

/// A line injected in a named group is among the name's yields.
proof fn lemma_yields_contains(
    lbls: Seq<(Seq<char>, Seq<char>)>,
    gs: Seq<Seq<Seq<char>>>,
    gi: int,
    x: Seq<char>,
)
    requires
        0 <= gi < gs.len(),
        group_name(gs[gi]) is Some,
        inject_group(lbls, gs[gi]).contains(x),
    ensures
        yields_of(lbls, gs, group_name(gs[gi])->0).contains(x),
    decreases gs.len(),
{
    let n = group_name(gs[gi])->0;
    let pre = yields_of(lbls, gs.drop_last(), n);
    if gi == gs.len() - 1 {
        assert(gs.last() == gs[gi]);
        let inj = inject_group(lbls, gs[gi]);
        let k = choose|k: int| 0 <= k < inj.len() && inj[k] == x;
        assert(yields_of(lbls, gs, n)[pre.len() + k] == x);
    } else {
        assert(gs.drop_last()[gi] == gs[gi]);
        lemma_yields_contains(lbls, gs.drop_last(), gi, x);
        let k = choose|k: int| 0 <= k < pre.len() && pre[k] == x;
        if group_name(gs.last()) == Some(n) {
            assert(yields_of(lbls, gs, n)[k] == x);
        }
        assert(yields_of(lbls, gs, n).contains(x));
    }
}

proof fn lemma_contains_sub_trans(a: Seq<char>, b: Seq<char>, c: Seq<char>)
    requires
        contains_sub(a, b),
        contains_sub(b, c),
    ensures
        contains_sub(a, c),
{
    let k1 = choose|k: int|
        0 <= k && k + b.len() <= a.len() && #[trigger] a.subrange(k, k + b.len()) == b;
    let k2 = choose|k: int|
        0 <= k && k + c.len() <= b.len() && #[trigger] b.subrange(k, k + c.len()) == c;
    assert forall|i: int| 0 <= i < c.len() implies a[k1 + k2 + i] == c[i] by {
        assert(b[k2 + i] == a.subrange(k1, k1 + b.len())[k2 + i]);
        assert(c[i] == b.subrange(k2, k2 + c.len())[i]);
    }
    assert(a.subrange(k1 + k2, k1 + k2 + c.len()) =~= c);
    lemma_contains_sub_witness(a, c, k1 + k2);
}

/// Metadata passthrough: a `# HELP` or `# TYPE` (or any `#`) line of a group
/// whose name resolves appears, byte-identical after trimming, contiguously
/// in the final grouped document.
pub proof fn lemma_metadata_passthrough(
    inputs: Seq<(Seq<(Seq<char>, Seq<char>)>, Seq<char>)>,
    t: int,
    gi: int,
    li: int,
)
    requires
        0 <= t < inputs.len(),
        0 <= gi < groups_of(lines_of(inputs[t].1)).len(),
        group_name(groups_of(lines_of(inputs[t].1))[gi]) is Some,
        0 <= li < groups_of(lines_of(inputs[t].1))[gi].len(),
        is_meta(groups_of(lines_of(inputs[t].1))[gi][li]),
    ensures
        contains_sub(grouped_document(inputs), groups_of(lines_of(inputs[t].1))[gi][li]),
{
    let lbls = inputs[t].0;
    let gs = groups_of(lines_of(inputs[t].1));
    let g = gs[gi];
    let x = g[li];
    let n = group_name(g)->0;
    lemma_metadata_unchanged(lbls, x);
    lemma_inject_group_contains(lbls, g, li);
    lemma_yields_contains(lbls, gs, gi, x);
    lemma_acc_all(inputs);
    lemma_all_yields_member(inputs, n, x);
    assert(target_yields(inputs[t].0, inputs[t].1, n).contains(x));
    assert(all_yields(inputs, n).contains(x));
    let acc = acc_all(inputs);
    assert(lookup(acc, n).contains(x));
    lemma_all_yields_nonempty(inputs, n);
    assert(target_yields(inputs[t].0, inputs[t].1, n).len() != 0);
    assert(acc_names(acc).contains(n));
    lemma_sort_dedup(lookup(acc, n));
    let gl = sort_dedup(lookup(acc, n));
    assert(gl.contains(x));
    let k = choose|k: int| 0 <= k < gl.len() && gl[k] == x;
    lemma_join_contains(gl, seq!['\n'], k);
    assert(contains_sub(group_doc(acc, n), x));
    lemma_sort_dedup(acc_names(acc));
    let sn = sort_dedup(acc_names(acc));
    assert(sn.contains(n));
    let kn = choose|kn: int| 0 <= kn < sn.len() && sn[kn] == n;
    let f = |m: Seq<char>| group_doc(acc, m);
    lemma_join_contains(sn.map_values(f), seq!['\n', '\n'], kn);
    assert(sn.map_values(f)[kn] == group_doc(acc, n));
    lemma_contains_sub_trans(grouped_document(inputs), group_doc(acc, n), x);
}

/// Label superset: every configured label pair appears, as the exact text
/// `key="value"`, in every sample line the injector keeps; and the line's
/// original identifier text (minus a closing brace) and its value survive as
/// prefix and suffix.
pub proof fn lemma_label_superset(
    lbls: Seq<(Seq<char>, Seq<char>)>,
    l: Seq<char>,
    j: int,
)
    requires
        !is_meta(l),
        find_idx(l, |c: char| c == ' ') < l.len(),
        lbls.len() > 0,
        0 <= j < lbls.len(),
    ensures
        inject_line(lbls, l) is Some,
        contains_sub(inject_line(lbls, l)->0, pair_text(lbls[j])),
        sample_ident_core(l) == inject_line(lbls, l)->0.take(sample_ident_core(l).len() as int),
        sample_value(l) == inject_line(lbls, l)->0.skip(
            inject_line(lbls, l)->0.len() - sample_value(l).len(),
        ),
{
    let i = find_idx(l, |c: char| c == ' ') as int;
    let ident = l.take(i);
    let value = l.skip(i + 1);
    let fmt = fmt_labels(lbls);
    let mapped = lbls.map_values(|p: (Seq<char>, Seq<char>)| pair_text(p));
    lemma_join_contains(mapped, seq![','], j);
    assert(mapped[j] == pair_text(lbls[j]));
    let p = pair_text(lbls[j]);
    let out = inject_line(lbls, l)->0;
    if ident.len() > 0 && ident.last() == '}' {
        let a = ident.drop_last() + seq![','];
        lemma_contains_sub_suffix(a, fmt, p);
        lemma_contains_sub_prefix(a + fmt, seq!['}', ' '], p);
        lemma_contains_sub_prefix(a + fmt + seq!['}', ' '], value, p);
        assert(out == ident.drop_last() + seq![','] + fmt + seq!['}', ' '] + value);
        assert(sample_ident_core(l) =~= out.take(sample_ident_core(l).len() as int));
        assert(sample_value(l) =~= out.skip(out.len() - sample_value(l).len()));
    } else {
        let a = ident + seq!['{'];
        lemma_contains_sub_suffix(a, fmt, p);
        lemma_contains_sub_prefix(a + fmt, seq!['}', ' '], p);
        lemma_contains_sub_prefix(a + fmt + seq!['}', ' '], value, p);
        assert(out == ident + seq!['{'] + fmt + seq!['}', ' '] + value);
        assert(sample_ident_core(l) =~= out.take(sample_ident_core(l).len() as int));
        assert(sample_value(l) =~= out.skip(out.len() - sample_value(l).len()));
    }
}

/// A sample line's identifier text up to (not including) a closing brace: the
/// part, label list included, that injection preserves as a prefix.
pub open spec fn sample_ident_core(l: Seq<char>) -> Seq<char> {
    let ident = l.take(find_idx(l, |c: char| c == ' ') as int);
    if ident.len() > 0 && ident.last() == '}' {
        ident.drop_last()
    } else {
        ident
    }
}

/// A sample line's value text, after the first space.
pub open spec fn sample_value(l: Seq<char>) -> Seq<char> {
    l.skip(find_idx(l, |c: char| c == ' ') as int + 1)
}

} // verus!
