//! The aggregation engine: accumulate each target's labeled groups or lines,
//! then assemble one deduplicated, deterministically ordered document.

use vstd::prelude::*;

use crate::labels::{inject_line, inject_line_exec, LabelSet};
use crate::parse::{group_name, group_name_exec, groups_of, nonblank, parse_groups,
    parse_sample_lines, views2};
use crate::text::{join_lines, join_with, lines_of, sort_dedup, sort_dedup_lines, views};

verus! {

/// Labels applied to one line after another: kept lines in order.
pub open spec fn inject_group(
    lbls: Seq<(Seq<char>, Seq<char>)>,
    g: Seq<Seq<char>>,
) -> Seq<Seq<char>>
    decreases g.len(),
{
    if g.len() == 0 {
        Seq::empty()
    } else {
        let pre = inject_group(lbls, g.drop_last());
        match inject_line(lbls, g.last()) {
            Some(x) => pre.push(x),
            None => pre,
        }
    }
}

/// One target's labeled text: its nonempty trimmed lines, injected, joined.
pub open spec fn labeled_text(lbls: Seq<(Seq<char>, Seq<char>)>, s: Seq<char>) -> Seq<char> {
    join_with(inject_group(lbls, nonblank(lines_of(s))), seq!['\n'])
}

/// Index of the first accumulator entry with this name, or the length.
pub open spec fn find_key(acc: Seq<(Seq<char>, Seq<Seq<char>>)>, name: Seq<char>) -> nat
    decreases acc.len(),
{
    if acc.len() == 0 {
        0
    } else if acc[0].0 == name {
        0
    } else {
        1 + find_key(acc.drop_first(), name)
    }
}

pub proof fn lemma_find_key(acc: Seq<(Seq<char>, Seq<Seq<char>>)>, name: Seq<char>)
    ensures
        find_key(acc, name) <= acc.len(),
        forall|k: int| 0 <= k < find_key(acc, name) ==> acc[k].0 != name,
        find_key(acc, name) < acc.len() ==> acc[find_key(acc, name) as int].0 == name,
    decreases acc.len(),
{
    if acc.len() == 0 {
    } else if acc[0].0 == name {
    } else {
        lemma_find_key(acc.drop_first(), name);
        assert forall|k: int| 0 <= k < find_key(acc, name) implies acc[k].0 != name by {
            if k > 0 {
                assert(acc.drop_first()[k - 1] == acc[k]);
            }
        }
        if find_key(acc, name) < acc.len() {
            assert(acc.drop_first()[find_key(acc.drop_first(), name) as int] == acc[find_key(
                acc,
                name,
            ) as int]);
        }
    }
}

pub proof fn lemma_find_key_is(acc: Seq<(Seq<char>, Seq<Seq<char>>)>, name: Seq<char>, i: int)
    requires
        0 <= i <= acc.len(),
        forall|k: int| 0 <= k < i ==> acc[k].0 != name,
        i < acc.len() ==> acc[i].0 == name,
    ensures
        find_key(acc, name) == i,
    decreases acc.len(),
{
    if acc.len() == 0 {
    } else if acc[0].0 == name {
        assert(i == 0);
    } else {
        assert(i > 0);
        assert forall|k: int| 0 <= k < i - 1 implies acc.drop_first()[k].0 != name by {
            assert(acc.drop_first()[k] == acc[k + 1]);
        }
        if i - 1 < acc.drop_first().len() {
            assert(acc.drop_first()[i - 1] == acc[i]);
        }
        lemma_find_key_is(acc.drop_first(), name, i - 1);
    }
}

/// Append a named group's lines to its accumulator entry, creating the entry
/// if it is absent.
pub open spec fn acc_add_group(
    acc: Seq<(Seq<char>, Seq<Seq<char>>)>,
    name: Seq<char>,
    ls: Seq<Seq<char>>,
) -> Seq<(Seq<char>, Seq<Seq<char>>)> {
    let i = find_key(acc, name);
    if i < acc.len() {
        acc.update(i as int, (name, acc[i as int].1 + ls))
    } else {
        acc.push((name, ls))
    }
}

/// Accumulate a sequence of parsed groups for one target: groups without a
/// resolvable name, and groups none of whose lines survive injection, are
/// dropped.
pub open spec fn acc_groups(
    acc: Seq<(Seq<char>, Seq<Seq<char>>)>,
    lbls: Seq<(Seq<char>, Seq<char>)>,
    gs: Seq<Seq<Seq<char>>>,
) -> Seq<(Seq<char>, Seq<Seq<char>>)>
    decreases gs.len(),
{
    if gs.len() == 0 {
        acc
    } else {
        let a2 = acc_groups(acc, lbls, gs.drop_last());
        let g = gs.last();
        match group_name(g) {
            None => a2,
            Some(n) => {
                let inj = inject_group(lbls, g);
                if inj.len() == 0 {
                    a2
                } else {
                    acc_add_group(a2, n, inj)
                }
            },
        }
    }
}

/// Accumulate one target's raw text under its labels.
pub open spec fn acc_target(
    acc: Seq<(Seq<char>, Seq<Seq<char>>)>,
    lbls: Seq<(Seq<char>, Seq<char>)>,
    body: Seq<char>,
) -> Seq<(Seq<char>, Seq<Seq<char>>)> {
    acc_groups(acc, lbls, groups_of(lines_of(body)))
}

/// The accumulator after all targets, in order.
pub open spec fn acc_all(
    inputs: Seq<(Seq<(Seq<char>, Seq<char>)>, Seq<char>)>,
) -> Seq<(Seq<char>, Seq<Seq<char>>)>
    decreases inputs.len(),
{
    if inputs.len() == 0 {
        Seq::empty()
    } else {
        acc_target(acc_all(inputs.drop_last()), inputs.last().0, inputs.last().1)
    }
}

/// The lines accumulated under a name (empty if the name is absent).
pub open spec fn lookup(
    acc: Seq<(Seq<char>, Seq<Seq<char>>)>,
    name: Seq<char>,
) -> Seq<Seq<char>> {
    let i = find_key(acc, name);
    if i < acc.len() {
        acc[i as int].1
    } else {
        Seq::empty()
    }
}

/// The accumulator's names, in insertion order.
pub open spec fn acc_names(acc: Seq<(Seq<char>, Seq<Seq<char>>)>) -> Seq<Seq<char>> {
    acc.map_values(|e: (Seq<char>, Seq<Seq<char>>)| e.0)
}

/// One finalized group: its distinct lines, sorted, joined with newlines.
pub open spec fn group_doc(acc: Seq<(Seq<char>, Seq<Seq<char>>)>, name: Seq<char>) -> Seq<char> {
    join_with(sort_dedup(lookup(acc, name)), seq!['\n'])
}

/// The final grouped document: groups in lexicographic name order, each
/// sorted and deduplicated, separated by blank lines.
pub open spec fn assemble_grouped(acc: Seq<(Seq<char>, Seq<Seq<char>>)>) -> Seq<char> {
    join_with(
        sort_dedup(acc_names(acc)).map_values(|n: Seq<char>| group_doc(acc, n)),
        seq!['\n', '\n'],
    )
}

/// What the grouped-sorted strategy produces from the targets' outputs.
pub open spec fn grouped_document(
    inputs: Seq<(Seq<(Seq<char>, Seq<char>)>, Seq<char>)>,
) -> Seq<char> {
    assemble_grouped(acc_all(inputs))
}

/// Append a line unless it is already present (first-seen order kept).
pub open spec fn ordered_push(acc: Seq<Seq<char>>, l: Seq<char>) -> Seq<Seq<char>> {
    if acc.contains(l) {
        acc
    } else {
        acc.push(l)
    }
}

/// Accumulate one target's injected lines in arrival order, dropping exact
/// duplicates.
pub open spec fn ordered_target(
    acc: Seq<Seq<char>>,
    lbls: Seq<(Seq<char>, Seq<char>)>,
    ls: Seq<Seq<char>>,
) -> Seq<Seq<char>>
    decreases ls.len(),
{
    if ls.len() == 0 {
        acc
    } else {
        let a2 = ordered_target(acc, lbls, ls.drop_last());
        match inject_line(lbls, ls.last()) {
            None => a2,
            Some(x) => ordered_push(a2, x),
        }
    }
}

/// The running line sequence after all targets, in order.
pub open spec fn ordered_all(
    inputs: Seq<(Seq<(Seq<char>, Seq<char>)>, Seq<char>)>,
) -> Seq<Seq<char>>
    decreases inputs.len(),
{
    if inputs.len() == 0 {
        Seq::empty()
    } else {
        ordered_target(
            ordered_all(inputs.drop_last()),
            inputs.last().0,
            nonblank(lines_of(inputs.last().1)),
        )
    }
}

/// What the ordered-dedup strategy produces from the targets' outputs.
pub open spec fn ordered_document(
    inputs: Seq<(Seq<(Seq<char>, Seq<char>)>, Seq<char>)>,
) -> Seq<char> {
    join_with(ordered_all(inputs), seq!['\n'])
}

/// One target's fetched output: its configured labels and the raw text.
pub struct TargetText {
    pub labels: LabelSet,
    pub body: String,
}

/// The spec-level pairs (label pairs, raw text) of the targets' outputs.
pub open spec fn inputs_view(v: Seq<TargetText>) -> Seq<(Seq<(Seq<char>, Seq<char>)>, Seq<char>)> {
    v.map_values(|t: TargetText| (t.labels@, t.body@))
}

/// Inject a target's labels into every line of one group.
pub fn inject_group_exec(labels: &LabelSet, g: &Vec<String>) -> (r: Vec<String>)
    ensures
        views(r@) == inject_group(labels@, views(g@)),
{
    let mut out: Vec<String> = Vec::new();
    let mut i: usize = 0;
    proof {
        assert(views(out@) =~= inject_group(labels@, views(g@).take(0)));
    }
    while i < g.len()
        invariant
            i <= g.len(),
            views(out@) == inject_group(labels@, views(g@).take(i as int)),
        decreases g.len() - i,
    {
        proof {
            assert(views(g@).take(i as int + 1).drop_last() =~= views(g@).take(i as int));
            assert(views(g@).take(i as int + 1).last() == g@[i as int]@);
        }
        let ghost vout = views(out@);
        match inject_line_exec(labels, g[i].as_str()) {
            Some(x) => {
                out.push(x);
                proof {
                    assert(views(out@) =~= vout.push(
                        inject_line(labels@, g@[i as int]@)->0,
                    ));
                }
            },
            None => {},
        }
        proof {
            assert(views(out@) =~= inject_group(labels@, views(g@).take(i as int + 1)));
        }
        i += 1;
    }
    proof {
        assert(views(g@).take(g@.len() as int) =~= views(g@));
    }
    out
}

/// The grouped-sorted accumulator: one entry of collected labeled lines per
/// metric name, in first-seen name order.
pub struct GroupedAggregator {
    entries: Vec<(String, Vec<String>)>,
}

impl View for GroupedAggregator {
    type V = Seq<(Seq<char>, Seq<Seq<char>>)>;

    closed spec fn view(&self) -> Seq<(Seq<char>, Seq<Seq<char>>)> {
        self.entries@.map_values(|e: (String, Vec<String>)| (e.0@, views(e.1@)))
    }
}

impl GroupedAggregator {
    /// An empty accumulator.
    pub fn new() -> (r: GroupedAggregator)
        ensures
            r@ == Seq::<(Seq<char>, Seq<Seq<char>>)>::empty(),
    {
        let r = GroupedAggregator { entries: Vec::new() };
        proof {
            assert(r@ =~= Seq::<(Seq<char>, Seq<Seq<char>>)>::empty());
        }
        r
    }

    /// Append a named group's surviving lines to the accumulator.
    fn add_group(&mut self, name: String, mut ls: Vec<String>)
        ensures
            final(self)@ == acc_add_group(old(self)@, name@, views(ls@)),
    {
        let ghost acc = self@;
        let ghost lsv = views(ls@);
        let mut i: usize = 0;
        while i < self.entries.len() && !(self.entries[i].0 == name)
            invariant
                i <= self.entries.len(),
                acc == self@,
                lsv == views(ls@),
                forall|k: int| 0 <= k < i ==> acc[k].0 != name@,
            decreases self.entries.len() - i,
        {
            proof {
                assert(acc[i as int].0 == self.entries@[i as int].0@);
            }
            i += 1;
        }
        proof {
            if i < self.entries.len() {
                assert(acc[i as int].0 == self.entries@[i as int].0@);
            }
            lemma_find_key_is(acc, name@, i as int);
        }
        if i < self.entries.len() {
            let ghost entries0 = self.entries@;
            let mut e = self.entries.remove(i);
            proof {
                assert(e == entries0[i as int]);
            }
            e.1.append(&mut ls);
            proof {
                assert(views(e.1@) =~= views(entries0[i as int].1@) + lsv);
            }
            self.entries.insert(i, e);
            proof {
                assert(self.entries@ =~= entries0.update(i as int, e));
                assert(acc[i as int] == (entries0[i as int].0@, views(entries0[i as int].1@)));
                assert(self@ =~= acc.update(i as int, (name@, acc[i as int].1 + lsv)));
            }
        } else {
            self.entries.push((name, ls));
            proof {
                assert(self@ =~= acc.push((name@, lsv)));
            }
        }
    }

    /// Parse one target's raw text, label it, and accumulate its groups.
    pub fn add_target(&mut self, labels: &LabelSet, body: &str)
        ensures
            final(self)@ == acc_target(old(self)@, labels@, body@),
    {
        let ghost acc0 = self@;
        let groups = parse_groups(body);
        let ghost gs = groups_of(lines_of(body@));
        let mut i: usize = 0;
        proof {
            assert(self@ =~= acc_groups(acc0, labels@, gs.take(0)));
        }
        while i < groups.len()
            invariant
                i <= groups.len(),
                views2(groups@) == gs,
                self@ == acc_groups(acc0, labels@, gs.take(i as int)),
            decreases groups.len() - i,
        {
            proof {
                assert(gs.take(i as int + 1).drop_last() =~= gs.take(i as int));
                assert(gs.take(i as int + 1).last() == gs[i as int]);
                assert(gs[i as int] == views(groups@[i as int]@));
            }
            let name = group_name_exec(&groups[i]);
            match name {
                Some(n) => {
                    let inj = inject_group_exec(labels, &groups[i]);
                    if inj.len() > 0 {
                        self.add_group(n, inj);
                    }
                },
                None => {},
            }
            proof {
                assert(self@ =~= acc_groups(acc0, labels@, gs.take(i as int + 1)));
            }
            i += 1;
        }
        proof {
            assert(gs.take(gs.len() as int) =~= gs);
        }
    }

    /// The collected lines under one name (empty if the name is unknown).
    fn lines_for(&self, name: &String) -> (r: Vec<String>)
        ensures
            views(r@) == lookup(self@, name@),
    {
        let ghost acc = self@;
        let mut i: usize = 0;
        while i < self.entries.len() && !(self.entries[i].0 == *name)
            invariant
                i <= self.entries.len(),
                acc == self@,
                forall|k: int| 0 <= k < i ==> acc[k].0 != name@,
            decreases self.entries.len() - i,
        {
            proof {
                assert(acc[i as int].0 == self.entries@[i as int].0@);
            }
            i += 1;
        }
        proof {
            if i < self.entries.len() {
                assert(acc[i as int].0 == self.entries@[i as int].0@);
            }
            lemma_find_key_is(acc, name@, i as int);
        }
        if i < self.entries.len() {
            let r = self.entries[i].1.clone();
            proof {
                assert(views(r@) =~= acc[i as int].1);
            }
            r
        } else {
            let r: Vec<String> = Vec::new();
            proof {
                assert(views(r@) =~= Seq::<Seq<char>>::empty());
            }
            r
        }
    }

    /// Serialize: names sorted, each group's lines sorted and deduplicated,
    /// groups separated by blank lines.
    pub fn finalize(&self) -> (r: String)
        ensures
            r@ == assemble_grouped(self@),
    {
        let ghost acc = self@;
        let mut names: Vec<String> = Vec::new();
        let mut i: usize = 0;
        proof {
            assert(views(names@) =~= acc_names(acc).take(0));
        }
        while i < self.entries.len()
            invariant
                i <= self.entries.len(),
                acc == self@,
                views(names@) == acc_names(acc).take(i as int),
            decreases self.entries.len() - i,
        {
            let ghost vn = views(names@);
            names.push(self.entries[i].0.clone());
            proof {
                assert(acc_names(acc)[i as int] == self.entries@[i as int].0@);
                assert(views(names@) =~= vn.push(acc_names(acc)[i as int]));
                assert(views(names@) =~= acc_names(acc).take(i as int + 1));
            }
            i += 1;
        }
        proof {
            assert(acc_names(acc).take(acc_names(acc).len() as int) =~= acc_names(acc));
        }
        let sorted_names = sort_dedup_lines(&names);
        let ghost sn = sort_dedup(acc_names(acc));
        let ghost f = |n: Seq<char>| group_doc(acc, n);
        let mut parts: Vec<String> = Vec::new();
        let mut j: usize = 0;
        proof {
            assert(views(parts@) =~= sn.map_values(f).take(0));
        }
        while j < sorted_names.len()
            invariant
                j <= sorted_names.len(),
                acc == self@,
                views(sorted_names@) == sn,
                f == (|n: Seq<char>| group_doc(acc, n)),
                views(parts@) == sn.map_values(f).take(j as int),
            decreases sorted_names.len() - j,
        {
            let lines = self.lines_for(&sorted_names[j]);
            let sorted = sort_dedup_lines(&lines);
            let text = join_lines(&sorted, "\n");
            let ghost vp = views(parts@);
            parts.push(text);
            proof {
                reveal_strlit("\n");
                assert("\n"@ =~= seq!['\n']);
                assert(sorted_names@[j as int]@ == sn[j as int]);
                assert(sn.map_values(f)[j as int] == group_doc(acc, sn[j as int]));
                assert(views(parts@) =~= vp.push(sn.map_values(f)[j as int]));
                assert(views(parts@) =~= sn.map_values(f).take(j as int + 1));
            }
            j += 1;
        }
        proof {
            assert(sn.map_values(f).take(sn.map_values(f).len() as int) =~= sn.map_values(f));
        }
        let r = join_lines(&parts, "\n\n");
        proof {
            reveal_strlit("\n\n");
            assert("\n\n"@ =~= seq!['\n', '\n']);
        }
        r
    }
}

/// The ordered-dedup accumulator: one running sequence of distinct lines in
/// first-seen order.
pub struct OrderedAggregator {
    lines: Vec<String>,
}

impl View for OrderedAggregator {
    type V = Seq<Seq<char>>;

    closed spec fn view(&self) -> Seq<Seq<char>> {
        views(self.lines@)
    }
}

impl OrderedAggregator {
    /// An empty accumulator.
    pub fn new() -> (r: OrderedAggregator)
        ensures
            r@ == Seq::<Seq<char>>::empty(),
    {
        let r = OrderedAggregator { lines: Vec::new() };
        proof {
            assert(r@ =~= Seq::<Seq<char>>::empty());
        }
        r
    }

    /// Parse one target's raw text, label it, and append its new lines.
    pub fn add_target(&mut self, labels: &LabelSet, body: &str)
        ensures
            final(self)@ == ordered_target(old(self)@, labels@, nonblank(lines_of(body@))),
    {
        let ghost acc0 = self@;
        let raw = parse_sample_lines(body);
        let ghost ls = nonblank(lines_of(body@));
        let mut i: usize = 0;
        proof {
            assert(self@ =~= ordered_target(acc0, labels@, ls.take(0)));
        }
        while i < raw.len()
            invariant
                i <= raw.len(),
                views(raw@) == ls,
                self@ == ordered_target(acc0, labels@, ls.take(i as int)),
            decreases raw.len() - i,
        {
            proof {
                assert(ls.take(i as int + 1).drop_last() =~= ls.take(i as int));
                assert(ls.take(i as int + 1).last() == ls[i as int]);
                assert(ls[i as int] == raw@[i as int]@);
            }
            match inject_line_exec(labels, raw[i].as_str()) {
                Some(x) => {
                    let dup = self.contains_line(&x);
                    let ghost prev = self@;
                    if !dup {
                        self.lines.push(x);
                        proof {
                            assert(self@ =~= prev.push(
                                inject_line(labels@, ls[i as int])->0,
                            ));
                        }
                    }
                },
                None => {},
            }
            proof {
                assert(self@ =~= ordered_target(acc0, labels@, ls.take(i as int + 1)));
            }
            i += 1;
        }
        proof {
            assert(ls.take(ls.len() as int) =~= ls);
        }
    }

    /// Whether this exact line was already collected.
    fn contains_line(&self, l: &String) -> (r: bool)
        ensures
            r == self@.contains(l@),
    {
        let mut i: usize = 0;
        while i < self.lines.len()
            invariant
                i <= self.lines.len(),
                forall|k: int| 0 <= k < i ==> self@[k] != l@,
            decreases self.lines.len() - i,
        {
            if self.lines[i] == *l {
                proof {
                    assert(self@[i as int] == self.lines@[i as int]@);
                }
                return true;
            }
            proof {
                assert(self@[i as int] == self.lines@[i as int]@);
            }
            i += 1;
        }
        proof {
            if self@.contains(l@) {
                let k = choose|k: int| 0 <= k < self@.len() && self@[k] == l@;
                assert(false);
            }
        }
        false
    }

    /// Serialize: the collected lines in arrival order.
    pub fn finalize(&self) -> (r: String)
        ensures
            r@ == join_with(self@, seq!['\n']),
    {
        let r = join_lines(&self.lines, "\n");
        proof {
            reveal_strlit("\n");
            assert("\n"@ =~= seq!['\n']);
        }
        r
    }
}

/// The two merge strategies the engine supports.
pub enum Strategy {
    /// Group by metric name; sort and deduplicate each group and the group
    /// order itself.
    GroupedSorted,
    /// Keep first-seen line order across targets, dropping exact duplicates.
    OrderedDedup,
}

/// Merge all targets' outputs with the grouped-sorted strategy.
pub fn aggregate_grouped(inputs: &Vec<TargetText>) -> (r: String)
    ensures
        r@ == grouped_document(inputs_view(inputs@)),
{
    let mut agg = GroupedAggregator::new();
    let mut i: usize = 0;
    proof {
        assert(agg@ =~= acc_all(inputs_view(inputs@).take(0)));
    }
    while i < inputs.len()
        invariant
            i <= inputs.len(),
            agg@ == acc_all(inputs_view(inputs@).take(i as int)),
        decreases inputs.len() - i,
    {
        proof {
            let iv = inputs_view(inputs@);
            assert(iv.take(i as int + 1).drop_last() =~= iv.take(i as int));
            assert(iv.take(i as int + 1).last() == iv[i as int]);
            assert(iv[i as int] == (inputs@[i as int].labels@, inputs@[i as int].body@));
        }
        agg.add_target(&inputs[i].labels, inputs[i].body.as_str());
        i += 1;
    }
    proof {
        let iv = inputs_view(inputs@);
        assert(iv.take(iv.len() as int) =~= iv);
    }
    agg.finalize()
}

/// Merge all targets' outputs with the ordered-dedup strategy.
pub fn aggregate_ordered(inputs: &Vec<TargetText>) -> (r: String)
    ensures
        r@ == ordered_document(inputs_view(inputs@)),
{
    let mut agg = OrderedAggregator::new();
    let mut i: usize = 0;
    proof {
        assert(agg@ =~= ordered_all(inputs_view(inputs@).take(0)));
    }
    while i < inputs.len()
        invariant
            i <= inputs.len(),
            agg@ == ordered_all(inputs_view(inputs@).take(i as int)),
        decreases inputs.len() - i,
    {
        proof {
            let iv = inputs_view(inputs@);
            assert(iv.take(i as int + 1).drop_last() =~= iv.take(i as int));
            assert(iv.take(i as int + 1).last() == iv[i as int]);
            assert(iv[i as int] == (inputs@[i as int].labels@, inputs@[i as int].body@));
        }
        agg.add_target(&inputs[i].labels, inputs[i].body.as_str());
        i += 1;
    }
    proof {
        let iv = inputs_view(inputs@);
        assert(iv.take(iv.len() as int) =~= iv);
    }
    agg.finalize()
}

/// Merge all targets' outputs with the chosen strategy.
pub fn aggregate(strategy: &Strategy, inputs: &Vec<TargetText>) -> (r: String)
    ensures
        strategy is GroupedSorted ==> r@ == grouped_document(inputs_view(inputs@)),
        strategy is OrderedDedup ==> r@ == ordered_document(inputs_view(inputs@)),
{
    match strategy {
        Strategy::GroupedSorted => aggregate_grouped(inputs),
        Strategy::OrderedDedup => aggregate_ordered(inputs),
    }
}

/// Label every nonempty line of raw upstream text and join the kept lines:
/// metadata lines pass through trimmed, sample lines get the labels spliced
/// into their label list, malformed sample lines are dropped.
pub fn apply_labels(labels: &LabelSet, metrics: &str) -> (r: String)
    ensures
        r@ == labeled_text(labels@, metrics@),
{
    let lines = parse_sample_lines(metrics);
    let injected = inject_group_exec(labels, &lines);
    let r = join_lines(&injected, "\n");
    proof {
        reveal_strlit("\n");
        assert("\n"@ =~= seq!['\n']);
    }
    r
}

} // verus!
