//! Choosing among the paths that relays offer to the same machine.
use vstd::prelude::*;

use crate::protocol::{ads, AdModel, ChildAd};
use crate::text::{same, texts};

verus! {

/// What a path is ranked by.
#[derive(Debug, Clone, Copy, PartialEq, Eq, Structural)]
pub enum Metric {
    /// The sum of the link latencies on the path.
    ShortestLatency,
}

/// One relay with the children it offers.
#[derive(Debug)]
pub struct RelayReport {
    /// The relay's label.
    pub label: String,
    /// The measured latency to the relay, in microseconds.
    pub latency_us: u64,
    /// The children it built.
    pub children: Vec<ChildAd>,
}

/// A [`RelayReport`] as a mathematical value.
pub struct ReportModel {
    pub label: Seq<char>,
    pub latency_us: u64,
    pub children: Seq<AdModel>,
}

impl View for RelayReport {
    type V = ReportModel;

    open spec fn view(&self) -> ReportModel {
        ReportModel {
            label: self.label@,
            latency_us: self.latency_us,
            children: ads(self.children@),
        }
    }
}

/// Each report in turn as a mathematical value.
pub open spec fn reports(v: Seq<RelayReport>) -> Seq<ReportModel> {
    Seq::new(v.len(), |i: int| v[i]@)
}

impl RelayReport {
    /// Describe a relay.
    pub fn new(label: String, latency_us: u64, children: Vec<ChildAd>) -> (r: RelayReport)
        ensures
            r@ == (ReportModel { label: label@, latency_us, children: ads(children@) }),
    {
        RelayReport { label, latency_us, children }
    }
}

/// The latency of the path through relay `i` to its child `j`.
pub open spec fn cost(relays: Seq<ReportModel>, i: int, j: int) -> int {
    relays[i].latency_us + relays[i].children[j].latency_us
}

/// Whether `(i, j)` names a child.
pub open spec fn offered(relays: Seq<ReportModel>, i: int, j: int) -> bool {
    0 <= i < relays.len() && 0 <= j < relays[i].children.len()
}

/// Whether the path `(i, j)` is better than `(k, l)`: faster, or as fast and
/// offered earlier.
pub open spec fn beats(relays: Seq<ReportModel>, i: int, j: int, k: int, l: int) -> bool {
    ||| cost(relays, i, j) < cost(relays, k, l)
    ||| cost(relays, i, j) == cost(relays, k, l) && (i < k || (i == k && j < l))
}

/// Whether the two paths lead to the same machine.
pub open spec fn same_machine(relays: Seq<ReportModel>, i: int, j: int, k: int, l: int) -> bool {
    relays[i].children[j].id == relays[k].children[l].id
}

/// Whether no other path to the same machine is better than `(i, j)`.
pub open spec fn best(relays: Seq<ReportModel>, i: int, j: int) -> bool {
    forall|k: int, l: int| #[trigger]
        offered(relays, k, l) && same_machine(relays, i, j, k, l) ==> !beats(relays, k, l, i, j)
}

/// The labels of relay `i`'s best-path children among its first `n`, in order.
pub open spec fn chosen_below(relays: Seq<ReportModel>, i: int, n: int) -> Seq<Seq<char>>
    decreases n,
{
    if n <= 0 {
        Seq::empty()
    } else if best(relays, i, n - 1) {
        chosen_below(relays, i, n - 1).push(relays[i].children[n - 1].label)
    } else {
        chosen_below(relays, i, n - 1)
    }
}

/// The labels relay `i` should run: the children it is the best path to.
pub open spec fn chosen(relays: Seq<ReportModel>, i: int) -> Seq<Seq<char>> {
    chosen_below(relays, i, relays[i].children.len() as int)
}

/// Whether relay `i`'s path to its child `j` is the best one to that machine.
fn is_best(relays: &Vec<RelayReport>, i: usize, j: usize) -> (r: bool)
    requires
        offered(reports(relays@), i as int, j as int),
    ensures
        r == best(reports(relays@), i as int, j as int),
{
    let ghost model = reports(relays@);
    assert(model[i as int].children == ads(relays@[i as int].children@));
    let id = relays[i].children[j].id();
    let mine: u128 = relays[i].latency_us as u128 + relays[i].children[j].latency_us() as u128;
    let mut k: usize = 0;
    while k < relays.len()
        invariant
            model == reports(relays@),
            offered(model, i as int, j as int),
            id@ == model[i as int].children[j as int].id,
            mine == cost(model, i as int, j as int),
            k <= relays@.len(),
            forall|a: int, b: int| #[trigger]
                offered(model, a, b) && a < k && same_machine(model, i as int, j as int, a, b)
                    ==> !beats(model, a, b, i as int, j as int),
        decreases relays@.len() - k,
    {
        assert(model[k as int].children == ads(relays@[k as int].children@));
        let mut l: usize = 0;
        while l < relays[k].children.len()
            invariant
                model == reports(relays@),
                offered(model, i as int, j as int),
                id@ == model[i as int].children[j as int].id,
                mine == cost(model, i as int, j as int),
                k < relays@.len(),
                model[k as int].children == ads(relays@[k as int].children@),
                l <= relays@[k as int].children@.len(),
                forall|a: int, b: int| #[trigger]
                    offered(model, a, b) && (a < k || (a == k && b < l)) && same_machine(
                        model,
                        i as int,
                        j as int,
                        a,
                        b,
                    ) ==> !beats(model, a, b, i as int, j as int),
            decreases relays@[k as int].children@.len() - l,
        {
            let child = &relays[k].children[l];
            assert(model[k as int].children[l as int] == child@);
            if same(child.id(), id) {
                let other: u128 = relays[k].latency_us as u128 + child.latency_us() as u128;
                if other < mine || (other == mine && (k < i || (k == i && l < j))) {
                    assert(offered(model, k as int, l as int));
                    assert(beats(model, k as int, l as int, i as int, j as int));
                    return false;
                }
            }
            l += 1;
        }
        k += 1;
    }
    true
}

/// The labels each relay should activate so that every machine runs on its best
/// path alone.
pub fn choose_active(relays: &Vec<RelayReport>, metric: Metric) -> (r: Vec<Vec<String>>)
    ensures
        r@.len() == relays@.len(),
        forall|i: int|
            0 <= i < r@.len() ==> texts((#[trigger] r@[i])@) == match metric {
                Metric::ShortestLatency => chosen(reports(relays@), i),
            },
{
    match metric {
        Metric::ShortestLatency => choose_fastest(relays),
    }
}

/// Per relay, the labels of the children it is the path of shortest latency to.
fn choose_fastest(relays: &Vec<RelayReport>) -> (r: Vec<Vec<String>>)
    ensures
        r@.len() == relays@.len(),
        forall|i: int|
            0 <= i < r@.len() ==> texts((#[trigger] r@[i])@) == chosen(reports(relays@), i),
{
    let ghost model = reports(relays@);
    let mut r: Vec<Vec<String>> = Vec::new();
    let mut i: usize = 0;
    while i < relays.len()
        invariant
            model == reports(relays@),
            i <= relays@.len(),
            r@.len() == i,
            forall|k: int| 0 <= k < i ==> texts((#[trigger] r@[k])@) == chosen(model, k),
        decreases relays@.len() - i,
    {
        assert(model[i as int].children == ads(relays@[i as int].children@));
        let mut labels: Vec<String> = Vec::new();
        let mut j: usize = 0;
        proof {
            assert(texts(labels@) =~= Seq::empty());
        }
        while j < relays[i].children.len()
            invariant
                model == reports(relays@),
                i < relays@.len(),
                model[i as int].children == ads(relays@[i as int].children@),
                j <= relays@[i as int].children@.len(),
                texts(labels@) == chosen_below(model, i as int, j as int),
            decreases relays@[i as int].children@.len() - j,
        {
            assert(offered(model, i as int, j as int));
            if is_best(relays, i, j) {
                let ghost before = labels@;
                labels.push(relays[i].children[j].label().to_owned());
                proof {
                    assert(texts(labels@) =~= texts(before).push(
                        model[i as int].children[j as int].label,
                    ));
                }
            }
            j += 1;
        }
        r.push(labels);
        i += 1;
    }
    r
}

/// A machine's best path is unique.
pub proof fn law_best_path_is_unique(relays: Seq<ReportModel>, i: int, j: int, k: int, l: int)
    requires
        offered(relays, i, j),
        offered(relays, k, l),
        same_machine(relays, i, j, k, l),
        best(relays, i, j),
        best(relays, k, l),
    ensures
        i == k && j == l,
{
    assert(!beats(relays, k, l, i, j));
    assert(!beats(relays, i, j, k, l));
}

/// Better than better is better.
proof fn lemma_beats_transitive(
    relays: Seq<ReportModel>,
    a: (int, int),
    b: (int, int),
    c: (int, int),
)
    requires
        beats(relays, a.0, a.1, b.0, b.1),
        beats(relays, b.0, b.1, c.0, c.1),
    ensures
        beats(relays, a.0, a.1, c.0, c.1),
{
}

/// Among the paths up to `(m, n)` to the machine that `(i, j)` leads to, one is
/// not beaten by any of them.
proof fn lemma_best_up_to(relays: Seq<ReportModel>, i: int, j: int, m: int, n: int) -> (r: (
    int,
    int,
))
    requires
        offered(relays, i, j),
        0 <= m < relays.len(),
        0 <= n <= relays[m].children.len(),
    ensures
        offered(relays, r.0, r.1),
        same_machine(relays, i, j, r.0, r.1),
        forall|k: int, l: int| #[trigger]
            offered(relays, k, l) && (k < m || (k == m && l < n)) && same_machine(
                relays,
                i,
                j,
                k,
                l,
            ) ==> !beats(relays, k, l, r.0, r.1),
    decreases m, n,
{
    if n > 0 {
        let p = lemma_best_up_to(relays, i, j, m, n - 1);
        if same_machine(relays, i, j, m, n - 1) && beats(relays, m, n - 1, p.0, p.1) {
            let r = (m, n - 1);
            assert(offered(relays, m, n - 1));
            assert forall|k: int, l: int| #[trigger]
                offered(relays, k, l) && (k < m || (k == m && l < n)) && same_machine(
                    relays,
                    i,
                    j,
                    k,
                    l,
                ) implies !beats(relays, k, l, r.0, r.1) by {
                if beats(relays, k, l, r.0, r.1) {
                    lemma_beats_transitive(relays, (k, l), r, p);
                }
            }
            r
        } else {
            p
        }
    } else if m > 0 {
        let p = lemma_best_up_to(relays, i, j, m - 1, relays[m - 1].children.len() as int);
        assert forall|k: int, l: int| #[trigger]
            offered(relays, k, l) && k < m && same_machine(relays, i, j, k, l) implies !beats(
            relays,
            k,
            l,
            p.0,
            p.1,
        ) by {
            assert(k < m - 1 || (k == m - 1 && l < relays[m - 1].children.len()));
        }
        p
    } else {
        (i, j)
    }
}

/// Every offered machine has a best path, so deduplication drops no machine:
/// with uniqueness, each runs on exactly one of its paths.
pub proof fn law_every_machine_keeps_a_path(relays: Seq<ReportModel>, i: int, j: int) -> (r: (
    int,
    int,
))
    requires
        offered(relays, i, j),
    ensures
        offered(relays, r.0, r.1),
        same_machine(relays, i, j, r.0, r.1),
        best(relays, r.0, r.1),
{
    let m = relays.len() - 1;
    let r = lemma_best_up_to(relays, i, j, m, relays[m].children.len() as int);
    assert forall|k: int, l: int| #[trigger]
        offered(relays, k, l) && same_machine(relays, r.0, r.1, k, l) implies !beats(
        relays,
        k,
        l,
        r.0,
        r.1,
    ) by {
        assert(k < m || (k == m && l < relays[m].children.len()));
    }
    r
}

/// Whether no relay but `i` offers the machine of its child `j`.
pub open spec fn single_path(relays: Seq<ReportModel>, i: int, j: int) -> bool {
    forall|k: int, l: int| #[trigger]
        offered(relays, k, l) && k != i ==> !same_machine(relays, i, j, k, l)
}

/// The machine ids offered by one relay alone among the first `n` children of
/// relay `i`, in order.
pub open spec fn gaps_in(relays: Seq<ReportModel>, i: int, n: int) -> Seq<Seq<char>>
    decreases n,
{
    if n <= 0 {
        Seq::empty()
    } else if single_path(relays, i, n - 1) {
        gaps_in(relays, i, n - 1).push(relays[i].children[n - 1].id)
    } else {
        gaps_in(relays, i, n - 1)
    }
}

/// The machine ids offered by one relay alone among the first `m` relays.
pub open spec fn gaps_below(relays: Seq<ReportModel>, m: int) -> Seq<Seq<char>>
    decreases m,
{
    if m <= 0 {
        Seq::empty()
    } else {
        gaps_below(relays, m - 1) + gaps_in(relays, m - 1, relays[m - 1].children.len() as int)
    }
}

/// Whether only relay `i` offers the machine of its child `j`.
fn is_single_path(relays: &Vec<RelayReport>, i: usize, j: usize) -> (r: bool)
    requires
        offered(reports(relays@), i as int, j as int),
    ensures
        r == single_path(reports(relays@), i as int, j as int),
{
    let ghost model = reports(relays@);
    assert(model[i as int].children == ads(relays@[i as int].children@));
    let id = relays[i].children[j].id();
    let mut k: usize = 0;
    while k < relays.len()
        invariant
            model == reports(relays@),
            offered(model, i as int, j as int),
            id@ == model[i as int].children[j as int].id,
            k <= relays@.len(),
            forall|a: int, b: int| #[trigger]
                offered(model, a, b) && a < k && a != i ==> !same_machine(
                    model,
                    i as int,
                    j as int,
                    a,
                    b,
                ),
        decreases relays@.len() - k,
    {
        assert(model[k as int].children == ads(relays@[k as int].children@));
        let mut l: usize = 0;
        while l < relays[k].children.len()
            invariant
                model == reports(relays@),
                offered(model, i as int, j as int),
                id@ == model[i as int].children[j as int].id,
                k < relays@.len(),
                model[k as int].children == ads(relays@[k as int].children@),
                l <= relays@[k as int].children@.len(),
                forall|a: int, b: int| #[trigger]
                    offered(model, a, b) && (a < k || (a == k && b < l)) && a != i
                        ==> !same_machine(model, i as int, j as int, a, b),
            decreases relays@[k as int].children@.len() - l,
        {
            let child = &relays[k].children[l];
            assert(model[k as int].children[l as int] == child@);
            if k != i && same(child.id(), id) {
                assert(offered(model, k as int, l as int));
                return false;
            }
            l += 1;
        }
        k += 1;
    }
    true
}

/// The machines reachable through only one relay, in the order they are offered.
pub fn redundancy_gaps(relays: &Vec<RelayReport>) -> (r: Vec<String>)
    ensures
        texts(r@) == gaps_below(reports(relays@), relays@.len() as int),
{
    let ghost model = reports(relays@);
    let mut r: Vec<String> = Vec::new();
    let mut i: usize = 0;
    proof {
        assert(texts(r@) =~= Seq::empty());
    }
    while i < relays.len()
        invariant
            model == reports(relays@),
            i <= relays@.len(),
            texts(r@) == gaps_below(model, i as int),
        decreases relays@.len() - i,
    {
        assert(model[i as int].children == ads(relays@[i as int].children@));
        let ghost base = texts(r@);
        let mut j: usize = 0;
        proof {
            assert(base =~= base + gaps_in(model, i as int, 0));
        }
        while j < relays[i].children.len()
            invariant
                model == reports(relays@),
                i < relays@.len(),
                model[i as int].children == ads(relays@[i as int].children@),
                j <= relays@[i as int].children@.len(),
                texts(r@) == base + gaps_in(model, i as int, j as int),
            decreases relays@[i as int].children@.len() - j,
        {
            assert(offered(model, i as int, j as int));
            if is_single_path(relays, i, j) {
                let ghost before = r@;
                r.push(relays[i].children[j].id().to_owned());
                proof {
                    assert(texts(r@) =~= texts(before).push(
                        model[i as int].children[j as int].id,
                    ));
                    assert(texts(r@) =~= base + gaps_in(model, i as int, j as int + 1));
                }
            }
            j += 1;
        }
        i += 1;
    }
    r
}

proof fn lemma_chosen(relays: Seq<ReportModel>, i: int, n: int)
    requires
        0 <= i < relays.len(),
        0 <= n <= relays[i].children.len(),
    ensures
        forall|label: Seq<char>| #[trigger]
            chosen_below(relays, i, n).contains(label) <==> exists|j: int|
                0 <= j < n && (#[trigger] relays[i].children[j]).label == label && best(
                    relays,
                    i,
                    j,
                ),
    decreases n,
{
    if n > 0 {
        lemma_chosen(relays, i, n - 1);
        let before = chosen_below(relays, i, n - 1);
        let after = chosen_below(relays, i, n);
        let last = relays[i].children[n - 1];
        assert forall|label: Seq<char>| #[trigger] after.contains(label) <==> exists|j: int|
            0 <= j < n && (#[trigger] relays[i].children[j]).label == label && best(relays, i, j) by {
            if best(relays, i, n - 1) {
                assert(after.contains(label) <==> before.contains(label) || label == last.label) by {
                    if before.contains(label) {
                        assert(after[before.index_of(label)] == label);
                    }
                    if label == last.label {
                        assert(after[before.len() as int] == label);
                    }
                    if after.contains(label) && label != last.label {
                        assert(before[after.index_of(label)] == label);
                    }
                }
            }
            if before.contains(label) {
                let j = choose|j: int|
                    0 <= j < n - 1 && (#[trigger] relays[i].children[j]).label == label && best(
                        relays,
                        i,
                        j,
                    );
                assert(0 <= j < n);
            }
            if exists|j: int|
                0 <= j < n && (#[trigger] relays[i].children[j]).label == label && best(
                    relays,
                    i,
                    j,
                ) {
                let j = choose|j: int|
                    0 <= j < n && (#[trigger] relays[i].children[j]).label == label && best(
                        relays,
                        i,
                        j,
                    );
                if j < n - 1 {
                    assert(before.contains(label));
                }
            }
        }
    }
}

/// A relay is told to run exactly the children it is the best path to.
pub proof fn law_a_child_is_chosen_on_its_best_path(
    relays: Seq<ReportModel>,
    i: int,
    label: Seq<char>,
)
    requires
        0 <= i < relays.len(),
    ensures
        chosen(relays, i).contains(label) <==> exists|j: int|
            0 <= j < relays[i].children.len() && (#[trigger] relays[i].children[j]).label == label
                && best(relays, i, j),
{
    lemma_chosen(relays, i, relays[i].children.len() as int);
}

proof fn lemma_gaps_in(relays: Seq<ReportModel>, i: int, n: int)
    requires
        0 <= i < relays.len(),
        0 <= n <= relays[i].children.len(),
    ensures
        gaps_in(relays, i, n).len() == 0 <==> forall|j: int|
            0 <= j < n ==> !(#[trigger] single_path(relays, i, j)),
    decreases n,
{
    if n > 0 {
        lemma_gaps_in(relays, i, n - 1);
        if !single_path(relays, i, n - 1) && gaps_in(relays, i, n - 1).len() == 0 {
            assert forall|j: int| 0 <= j < n implies !(#[trigger] single_path(relays, i, j)) by {}
        }
    }
}

proof fn lemma_gaps_below(relays: Seq<ReportModel>, m: int)
    requires
        0 <= m <= relays.len(),
    ensures
        gaps_below(relays, m).len() == 0 <==> forall|i: int, j: int|
            i < m && #[trigger] offered(relays, i, j) ==> !single_path(relays, i, j),
    decreases m,
{
    if m > 0 {
        lemma_gaps_below(relays, m - 1);
        lemma_gaps_in(relays, m - 1, relays[m - 1].children.len() as int);
        let here = gaps_in(relays, m - 1, relays[m - 1].children.len() as int);
        if gaps_below(relays, m).len() == 0 {
            assert forall|i: int, j: int|
                i < m && #[trigger] offered(relays, i, j) implies !single_path(relays, i, j) by {
                if i == m - 1 {
                    assert(!single_path(relays, m - 1, j));
                }
            }
        }
        if forall|i: int, j: int|
            i < m && #[trigger] offered(relays, i, j) ==> !single_path(relays, i, j) {
            assert forall|j: int| 0 <= j < relays[m - 1].children.len() implies !(
            #[trigger] single_path(relays, m - 1, j)) by {
                assert(offered(relays, m - 1, j));
            }
        }
    }
}

/// A run that requires redundancy starts exactly if every machine behind a relay is
/// offered by another relay too.
pub proof fn law_no_gap_means_two_relays(relays: Seq<ReportModel>)
    ensures
        gaps_below(relays, relays.len() as int).len() == 0 <==> forall|i: int, j: int| #[trigger]
            offered(relays, i, j) ==> exists|k: int, l: int| #[trigger]
                offered(relays, k, l) && k != i && same_machine(relays, i, j, k, l),
{
    lemma_gaps_below(relays, relays.len() as int);
    assert forall|i: int, j: int| #[trigger] offered(relays, i, j) implies (!single_path(
        relays,
        i,
        j,
    ) <==> exists|k: int, l: int| #[trigger]
        offered(relays, k, l) && k != i && same_machine(relays, i, j, k, l)) by {}
    if gaps_below(relays, relays.len() as int).len() == 0 {
        assert forall|i: int, j: int| #[trigger] offered(relays, i, j) implies exists|k: int, l: int|
         #[trigger]
            offered(relays, k, l) && k != i && same_machine(relays, i, j, k, l) by {
            assert(!single_path(relays, i, j));
        }
    }
}

/// A child is chosen on a relay exactly if the way through that relay is the quickest to
/// its machine: the two latencies on it add up to no more than those on any other way,
/// and of equal ways it is the one offered first.
pub proof fn law_the_quickest_way_is_chosen(relays: Seq<ReportModel>, i: int, label: Seq<char>)
    requires
        0 <= i < relays.len(),
    ensures
        chosen(relays, i).contains(label) <==> exists|j: int|
            0 <= j < relays[i].children.len() && (#[trigger] relays[i].children[j]).label == label
                && quickest(relays, i, j),
        chosen(relays, i).len() <= relays[i].children.len(),
{
    law_a_child_is_chosen_on_its_best_path(relays, i, label);
    if chosen(relays, i).contains(label) {
        let j = choose|j: int|
            0 <= j < relays[i].children.len() && (#[trigger] relays[i].children[j]).label == label
                && best(relays, i, j);
        lemma_quickest(relays, i, j);
        assert(relays[i].children[j].label == label);
    }
    if exists|j: int|
        0 <= j < relays[i].children.len() && (#[trigger] relays[i].children[j]).label == label
            && quickest(relays, i, j) {
        let j = choose|j: int|
            0 <= j < relays[i].children.len() && (#[trigger] relays[i].children[j]).label == label
                && quickest(relays, i, j);
        lemma_quickest(relays, i, j);
        assert(relays[i].children[j].label == label);
    }
    lemma_chosen_len(relays, i, relays[i].children.len() as int);
}

/// Whether the way through relay `i` to its child `j` is the quickest to that machine,
/// the first offered of equal ones.
pub open spec fn quickest(relays: Seq<ReportModel>, i: int, j: int) -> bool {
    forall|k: int, l: int|
        0 <= k < relays.len() && 0 <= l < relays[k].children.len() && (
        #[trigger] relays[k].children[l]).id == relays[i].children[j].id ==> {
            let mine = relays[i].latency_us + relays[i].children[j].latency_us;
            let other = relays[k].latency_us + relays[k].children[l].latency_us;
            mine < other || (mine == other && (i < k || (i == k && j <= l)))
        }
}

proof fn lemma_quickest(relays: Seq<ReportModel>, i: int, j: int)
    requires
        0 <= i < relays.len(),
        0 <= j < relays[i].children.len(),
    ensures
        quickest(relays, i, j) <==> best(relays, i, j),
{
    if best(relays, i, j) {
        assert forall|k: int, l: int|
            0 <= k < relays.len() && 0 <= l < relays[k].children.len() && (
            #[trigger] relays[k].children[l]).id == relays[i].children[j].id implies {
            let mine = relays[i].latency_us + relays[i].children[j].latency_us;
            let other = relays[k].latency_us + relays[k].children[l].latency_us;
            mine < other || (mine == other && (i < k || (i == k && j <= l)))
        } by {
            assert(offered(relays, k, l));
        }
    }
    if quickest(relays, i, j) {
        assert forall|k: int, l: int| #[trigger]
            offered(relays, k, l) && same_machine(relays, i, j, k, l) implies !beats(
            relays,
            k,
            l,
            i,
            j,
        ) by {
            assert(relays[k].children[l].id == relays[i].children[j].id);
        }
    }
}

proof fn lemma_chosen_len(relays: Seq<ReportModel>, i: int, n: int)
    requires
        0 <= n,
    ensures
        chosen_below(relays, i, n).len() <= n,
    decreases n,
{
    if n > 0 {
        lemma_chosen_len(relays, i, n - 1);
    }
}

/// Every machine that some relay offers is run by one: the quickest way to it exists and
/// its child is chosen there.
pub proof fn law_every_machine_is_run(relays: Seq<ReportModel>, i: int, j: int) -> (r: (int, int))
    requires
        0 <= i < relays.len(),
        0 <= j < relays[i].children.len(),
    ensures
        0 <= r.0 < relays.len(),
        0 <= r.1 < relays[r.0].children.len(),
        relays[r.0].children[r.1].id == relays[i].children[j].id,
        quickest(relays, r.0, r.1),
        chosen(relays, r.0).contains(relays[r.0].children[r.1].label),
{
    assert(offered(relays, i, j));
    let r = law_every_machine_keeps_a_path(relays, i, j);
    lemma_quickest(relays, r.0, r.1);
    let label = relays[r.0].children[r.1].label;
    law_a_child_is_chosen_on_its_best_path(relays, r.0, label);
    assert(relays[r.0].children[r.1].label == label);
    r
}

/// Whether relay `i` alone offers the machine of its child `j`.
pub open spec fn alone(relays: Seq<ReportModel>, i: int, j: int) -> bool {
    forall|k: int, l: int|
        0 <= k < relays.len() && 0 <= l < relays[k].children.len() && k != i ==> (
        #[trigger] relays[k].children[l]).id != relays[i].children[j].id
}

proof fn lemma_alone(relays: Seq<ReportModel>, i: int, j: int)
    ensures
        alone(relays, i, j) <==> single_path(relays, i, j),
{
    if alone(relays, i, j) {
        assert forall|k: int, l: int| #[trigger] offered(relays, k, l) && k != i implies !same_machine(
            relays,
            i,
            j,
            k,
            l,
        ) by {
            assert(relays[k].children[l].id != relays[i].children[j].id);
        }
    }
    if single_path(relays, i, j) {
        assert forall|k: int, l: int|
            0 <= k < relays.len() && 0 <= l < relays[k].children.len() && k != i implies (
        #[trigger] relays[k].children[l]).id != relays[i].children[j].id by {
            assert(offered(relays, k, l));
        }
    }
}

proof fn lemma_gap_members_in(relays: Seq<ReportModel>, i: int, n: int, id: Seq<char>)
    requires
        0 <= i < relays.len(),
        0 <= n <= relays[i].children.len(),
    ensures
        gaps_in(relays, i, n).contains(id) <==> exists|j: int|
            0 <= j < n && (#[trigger] relays[i].children[j]).id == id && alone(relays, i, j),
    decreases n,
{
    if n > 0 {
        lemma_gap_members_in(relays, i, n - 1, id);
        lemma_alone(relays, i, n - 1);
        let before = gaps_in(relays, i, n - 1);
        let after = gaps_in(relays, i, n);
        let last = relays[i].children[n - 1];
        if single_path(relays, i, n - 1) {
            if before.contains(id) {
                assert(after[before.index_of(id)] == id);
            }
            if last.id == id {
                assert(after[before.len() as int] == id);
            }
            if after.contains(id) && last.id != id {
                assert(before[after.index_of(id)] == id);
            }
        }
        if before.contains(id) {
            let j = choose|j: int|
                0 <= j < n - 1 && (#[trigger] relays[i].children[j]).id == id && alone(relays, i, j);
            assert(relays[i].children[j].id == id);
        }
        if exists|j: int|
            0 <= j < n && (#[trigger] relays[i].children[j]).id == id && alone(relays, i, j) {
            let j = choose|j: int|
                0 <= j < n && (#[trigger] relays[i].children[j]).id == id && alone(relays, i, j);
            if j < n - 1 {
                assert(relays[i].children[j].id == id);
            }
        }
    }
}

/// The machines named as lacking redundancy are exactly those that one relay alone
/// offers.
pub proof fn law_gaps_name_single_ways(relays: Seq<ReportModel>, m: int, id: Seq<char>)
    requires
        0 <= m <= relays.len(),
    ensures
        gaps_below(relays, m).contains(id) <==> exists|i: int, j: int|
            0 <= i < m && 0 <= j < relays[i].children.len() && (
            #[trigger] relays[i].children[j]).id == id && alone(relays, i, j),
    decreases m,
{
    if m > 0 {
        law_gaps_name_single_ways(relays, m - 1, id);
        lemma_gap_members_in(relays, m - 1, relays[m - 1].children.len() as int, id);
        let before = gaps_below(relays, m - 1);
        let here = gaps_in(relays, m - 1, relays[m - 1].children.len() as int);
        let after = gaps_below(relays, m);
        if before.contains(id) {
            assert(after[before.index_of(id)] == id);
            let (i, j) = choose|i: int, j: int|
                0 <= i < m - 1 && 0 <= j < relays[i].children.len() && (
                #[trigger] relays[i].children[j]).id == id && alone(relays, i, j);
            assert(relays[i].children[j].id == id);
        }
        if here.contains(id) {
            assert(after[before.len() + here.index_of(id)] == id);
            let j = choose|j: int|
                0 <= j < relays[m - 1].children.len() && (
                #[trigger] relays[m - 1].children[j]).id == id && alone(relays, m - 1, j);
            assert(relays[m - 1].children[j].id == id);
        }
        if after.contains(id) {
            let k = after.index_of(id);
            if k < before.len() {
                assert(before[k] == id);
            } else {
                assert(here[k - before.len()] == id);
            }
        }
        if exists|i: int, j: int|
            0 <= i < m && 0 <= j < relays[i].children.len() && (
            #[trigger] relays[i].children[j]).id == id && alone(relays, i, j) {
            let (i, j) = choose|i: int, j: int|
                0 <= i < m && 0 <= j < relays[i].children.len() && (
                #[trigger] relays[i].children[j]).id == id && alone(relays, i, j);
            if i < m - 1 {
                assert(relays[i].children[j].id == id);
            } else {
                assert(relays[m - 1].children[j].id == id);
            }
        }
    }
}

} // verus!
