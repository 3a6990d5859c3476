use crate::net::{order_of, KeyOrder, OrderedKey};
use vstd::prelude::*;

verus! {

/// The ranks of a sequence of keys.
pub open spec fn ranks<K: OrderedKey>(keys: Seq<K>) -> Seq<int> {
    keys.map_values(|k: K| k.rank())
}

/// Entry `i` comes before entry `j`: by rank, and by position among equal ranks
/// (the order of a stable sort).
pub open spec fn entry_lt(ranks: Seq<int>, i: int, j: int) -> bool {
    ranks[i] < ranks[j] || (ranks[i] == ranks[j] && i < j)
}

/// Position `x` occurs in `order`.
pub open spec fn lists(order: Seq<usize>, x: int) -> bool {
    exists|k: int| 0 <= k < order.len() && order[k] == x
}

/// `order` lists each of the positions `0..n` once, in `entry_lt` order.
pub open spec fn sorted_prefix(ranks: Seq<int>, order: Seq<usize>, n: int) -> bool {
    &&& order.len() == n
    &&& forall|k: int| 0 <= k < order.len() ==> (#[trigger] order[k] as int) < n
    &&& forall|x: int| 0 <= x < n ==> #[trigger] lists(order, x)
    &&& forall|i: int, j: int|
        #![trigger order[i], order[j]]
        0 <= i < j < order.len() ==> entry_lt(ranks, order[i] as int, order[j] as int)
}

/// `order` is the stable sorting permutation of positions by rank.
pub open spec fn is_sorted_order(ranks: Seq<int>, order: Seq<usize>) -> bool {
    sorted_prefix(ranks, order, ranks.len() as int)
}

/// The stable sorting permutation of `ranks` (unique, see `lemma_sorted_order_unique`).
pub open spec fn canonical_order(ranks: Seq<int>) -> Seq<usize> {
    choose|o: Seq<usize>| is_sorted_order(ranks, o)
}

proof fn lemma_insert_sorted(r: Seq<int>, o: Seq<usize>, n: int, p: int)
    requires
        sorted_prefix(r, o, n),
        0 <= n < r.len(),
        n < usize::MAX,
        0 <= p <= n,
        forall|k: int| 0 <= k < p ==> entry_lt(r, #[trigger] o[k] as int, n),
        p < n ==> !entry_lt(r, o[p] as int, n),
    ensures
        sorted_prefix(r, o.insert(p, n as usize), n + 1),
{
    let o2 = o.insert(p, n as usize);
    assert forall|k: int| 0 <= k < o2.len() implies (#[trigger] o2[k] as int) < n + 1 by {
        if k < p {
            assert(o2[k] == o[k]);
        } else if k > p {
            assert(o2[k] == o[k - 1]);
        }
    }
    assert forall|x: int| 0 <= x < n + 1 implies #[trigger] lists(o2, x) by {
        if x == n {
            assert(o2[p] == x);
        } else {
            assert(lists(o, x));
            let k = choose|k: int| 0 <= k < o.len() && o[k] == x;
            if k < p {
                assert(o2[k] == x);
            } else {
                assert(o2[k + 1] == x);
            }
        }
    }
    assert forall|i: int, j: int|
        #![trigger o2[i], o2[j]]
        0 <= i < j < o2.len() implies entry_lt(r, o2[i] as int, o2[j] as int) by {
        if j < p {
            assert(o2[i] == o[i] && o2[j] == o[j]);
        } else if j == p {
            assert(o2[i] == o[i]);
        } else if i < p {
            assert(o2[i] == o[i] && o2[j] == o[j - 1]);
            assert(entry_lt(r, o[i] as int, o[j - 1] as int));
        } else if i == p {
            assert(o2[j] == o[j - 1]);
            assert((o[p] as int) < n);
            assert(entry_lt(r, n, o[p] as int));
            if j - 1 > p {
                assert(entry_lt(r, o[p] as int, o[j - 1] as int));
            }
        } else {
            assert(o2[i] == o[i - 1] && o2[j] == o[j - 1]);
            assert(entry_lt(r, o[i - 1] as int, o[j - 1] as int));
        }
    }
}

/// Sorts the positions of `keys` by key, keeping equal keys in their original
/// order (a stable sort), and returns the sorted positions.
pub fn sort_order<K: OrderedKey>(keys: &Vec<K>) -> (order: Vec<usize>)
    ensures
        is_sorted_order(ranks(keys@), order@),
{
    let ghost r = ranks(keys@);
    let mut order: Vec<usize> = Vec::new();
    let mut x: usize = 0;
    while x < keys.len()
        invariant
            x <= keys@.len(),
            r == ranks(keys@),
            sorted_prefix(r, order@, x as int),
        decreases keys@.len() - x,
    {
        let mut p: usize = 0;
        loop
            invariant_except_break
                p <= order@.len(),
                forall|k: int| 0 <= k < p ==> entry_lt(r, #[trigger] order@[k] as int, x as int),
            invariant
                x < keys@.len(),
                r == ranks(keys@),
                sorted_prefix(r, order@, x as int),
            ensures
                p <= order@.len(),
                forall|k: int| 0 <= k < p ==> entry_lt(r, #[trigger] order@[k] as int, x as int),
                p < order@.len() ==> !entry_lt(r, order@[p as int] as int, x as int),
            decreases order@.len() - p,
        {
            if p == order.len() {
                break ;
            }
            let at = order[p];
            assert((at as int) < x);
            match keys[at].compare(&keys[x]) {
                KeyOrder::Greater => {
                    break ;
                },
                _ => {
                    p = p + 1;
                },
            }
        }
        proof {
            lemma_insert_sorted(r, order@, x as int, p as int);
        }
        order.insert(p, x);
        x = x + 1;
    }
    order
}

/// Two stable sorting permutations of the same ranks are equal.
pub proof fn lemma_sorted_order_unique(r: Seq<int>, a: Seq<usize>, b: Seq<usize>)
    requires
        is_sorted_order(r, a),
        is_sorted_order(r, b),
    ensures
        a == b,
{
    assert forall|k: int| 0 <= k < a.len() implies a[k] == b[k] by {
        lemma_sorted_prefix_agree(r, a, b, k + 1);
    }
    assert(a =~= b);
}

proof fn lemma_sorted_prefix_agree(r: Seq<int>, a: Seq<usize>, b: Seq<usize>, m: int)
    requires
        is_sorted_order(r, a),
        is_sorted_order(r, b),
        0 <= m <= a.len(),
    ensures
        forall|k: int| 0 <= k < m ==> a[k] == b[k],
    decreases m,
{
    if m > 0 {
        let k = m - 1;
        lemma_sorted_prefix_agree(r, a, b, k);
        let n = r.len() as int;
        assert((a[k] as int) < n && (b[k] as int) < n);
        assert(lists(b, a[k] as int));
        assert(lists(a, b[k] as int));
        let m1 = choose|j: int| 0 <= j < b.len() && b[j] == a[k] as int;
        let m2 = choose|j: int| 0 <= j < a.len() && a[j] == b[k] as int;
        if m1 < k {
            assert(a[m1] == b[m1]);
            assert(entry_lt(r, a[m1] as int, a[k] as int));
        }
        if m2 < k {
            assert(a[m2] == b[m2]);
            assert(entry_lt(r, b[m2] as int, b[k] as int));
        }
        if m1 > k && m2 > k {
            assert(entry_lt(r, b[k] as int, b[m1] as int));
            assert(entry_lt(r, a[k] as int, a[m2] as int));
        }
    }
}

/// One step of bringing a set of live entries (`have`) in line with a wanted
/// set (`want`); indices point into the two input lists.
#[derive(Clone, Copy, Debug, PartialEq, Eq)]
pub enum SyncStep {
    /// Both sides hold the key: keep the live entry, refreshed from the wanted one.
    Keep { have: usize, want: usize },
    /// Only the live side holds the key: close the live entry.
    Close { have: usize },
    /// Only the wanted side holds the key: open a new entry.
    Open { want: usize },
}

/// Merge of two sorted position lists (`ho` into `hr`, `wo` into `wr`) in
/// ascending rank order: equal ranks pair up, a smaller live rank is closed and
/// a smaller wanted rank is opened.
pub open spec fn merge_steps(hr: Seq<int>, ho: Seq<usize>, wr: Seq<int>, wo: Seq<usize>) -> Seq<
    SyncStep,
>
    decreases ho.len() + wo.len(),
{
    if ho.len() == 0 && wo.len() == 0 {
        Seq::empty()
    } else if ho.len() == 0 {
        seq![SyncStep::Open { want: wo[0] }] + merge_steps(hr, ho, wr, wo.drop_first())
    } else if wo.len() == 0 {
        seq![SyncStep::Close { have: ho[0] }] + merge_steps(hr, ho.drop_first(), wr, wo)
    } else if hr[ho[0] as int] == wr[wo[0] as int] {
        seq![SyncStep::Keep { have: ho[0], want: wo[0] }] + merge_steps(
            hr,
            ho.drop_first(),
            wr,
            wo.drop_first(),
        )
    } else if hr[ho[0] as int] < wr[wo[0] as int] {
        seq![SyncStep::Close { have: ho[0] }] + merge_steps(hr, ho.drop_first(), wr, wo)
    } else {
        seq![SyncStep::Open { want: wo[0] }] + merge_steps(hr, ho, wr, wo.drop_first())
    }
}

/// All entries of `order` are positions below `n`.
pub open spec fn indices_below(order: Seq<usize>, n: int) -> bool {
    forall|k: int| 0 <= k < order.len() ==> (#[trigger] order[k] as int) < n
}

/// Walks the live keys in the order `have_order` and the wanted keys in the
/// order `want_order` side by side and lists the steps of `merge_steps`.
pub fn merge_sorted<K: OrderedKey>(
    have: &Vec<K>,
    have_order: &Vec<usize>,
    want: &Vec<K>,
    want_order: &Vec<usize>,
) -> (steps: Vec<SyncStep>)
    requires
        indices_below(have_order@, have@.len() as int),
        indices_below(want_order@, want@.len() as int),
    ensures
        steps@ == merge_steps(ranks(have@), have_order@, ranks(want@), want_order@),
{
    let ghost hr = ranks(have@);
    let ghost wr = ranks(want@);
    let mut steps: Vec<SyncStep> = Vec::new();
    let mut i: usize = 0;
    let mut j: usize = 0;
    assert(have_order@.skip(0) =~= have_order@);
    assert(want_order@.skip(0) =~= want_order@);
    assert(steps@ + merge_steps(hr, have_order@, wr, want_order@) =~= merge_steps(
        hr,
        have_order@,
        wr,
        want_order@,
    ));
    while i < have_order.len() || j < want_order.len()
        invariant
            i <= have_order@.len(),
            j <= want_order@.len(),
            hr == ranks(have@),
            wr == ranks(want@),
            indices_below(have_order@, have@.len() as int),
            indices_below(want_order@, want@.len() as int),
            steps@ + merge_steps(hr, have_order@.skip(i as int), wr, want_order@.skip(j as int))
                == merge_steps(hr, have_order@, wr, want_order@),
        decreases (have_order@.len() - i) + (want_order@.len() - j),
    {
        let ghost hs = have_order@.skip(i as int);
        let ghost ws = want_order@.skip(j as int);
        assert(i < have_order@.len() ==> hs.drop_first() =~= have_order@.skip(i + 1));
        assert(j < want_order@.len() ==> ws.drop_first() =~= want_order@.skip(j + 1));
        let ghost before = steps@;
        if i < have_order.len() && j < want_order.len() {
            let h = have_order[i];
            let w = want_order[j];
            assert(hs[0] == h && ws[0] == w);
            match have[h].compare(&want[w]) {
                KeyOrder::Equal => {
                    steps.push(SyncStep::Keep { have: h, want: w });
                    i = i + 1;
                    j = j + 1;
                },
                KeyOrder::Less => {
                    steps.push(SyncStep::Close { have: h });
                    i = i + 1;
                },
                KeyOrder::Greater => {
                    steps.push(SyncStep::Open { want: w });
                    j = j + 1;
                },
            }
        } else if i < have_order.len() {
            let h = have_order[i];
            assert(hs[0] == h && ws.len() == 0);
            steps.push(SyncStep::Close { have: h });
            i = i + 1;
        } else {
            let w = want_order[j];
            assert(ws[0] == w && hs.len() == 0);
            steps.push(SyncStep::Open { want: w });
            j = j + 1;
        }
        assert(steps@ + merge_steps(hr, have_order@.skip(i as int), wr, want_order@.skip(j as int))
            =~= before + merge_steps(hr, hs, wr, ws));
    }
    assert(have_order@.skip(i as int) =~= Seq::<usize>::empty());
    assert(want_order@.skip(j as int) =~= Seq::<usize>::empty());
    assert(steps@ =~= steps@ + Seq::<SyncStep>::empty());
    steps
}

/// The reconciliation plan of live keys `have` against wanted keys `want`:
/// the merge of both, each sorted by key (stably).
pub open spec fn sync_plan<K: OrderedKey>(have: Seq<K>, want: Seq<K>) -> Seq<SyncStep> {
    merge_steps(
        ranks(have),
        canonical_order(ranks(have)),
        ranks(want),
        canonical_order(ranks(want)),
    )
}

/// Plans how to bring the live keys `have` in line with the wanted keys
/// `want`: both lists are sorted by key and merged.
pub fn plan_sync<K: OrderedKey>(have: &Vec<K>, want: &Vec<K>) -> (steps: Vec<SyncStep>)
    ensures
        steps@ == sync_plan(have@, want@),
{
    let have_order = sort_order(have);
    let want_order = sort_order(want);
    proof {
        lemma_sorted_order_unique(
            ranks(have@),
            have_order@,
            canonical_order(ranks(have@)),
        );
        lemma_sorted_order_unique(
            ranks(want@),
            want_order@,
            canonical_order(ranks(want@)),
        );
    }
    merge_sorted(have, &have_order, want, &want_order)
}

/// The live position that a step handles, if any.
pub open spec fn step_have(s: SyncStep) -> Option<usize> {
    match s {
        SyncStep::Keep { have, .. } => Some(have),
        SyncStep::Close { have } => Some(have),
        SyncStep::Open { .. } => None,
    }
}

/// The wanted position that a step handles, if any.
pub open spec fn step_want(s: SyncStep) -> Option<usize> {
    match s {
        SyncStep::Keep { want, .. } => Some(want),
        SyncStep::Close { .. } => None,
        SyncStep::Open { want } => Some(want),
    }
}

/// No position occurs twice in `order`.
pub open spec fn distinct_positions(order: Seq<usize>) -> bool {
    forall|i: int, j: int| 0 <= i < j < order.len() ==> order[i] != order[j]
}

proof fn lemma_merge_members(hr: Seq<int>, ho: Seq<usize>, wr: Seq<int>, wo: Seq<usize>)
    ensures
        forall|k: int|
            0 <= k < merge_steps(hr, ho, wr, wo).len() && #[trigger] step_have(
                merge_steps(hr, ho, wr, wo)[k],
            ) is Some ==> ho.contains(step_have(merge_steps(hr, ho, wr, wo)[k])->0),
        forall|k: int|
            0 <= k < merge_steps(hr, ho, wr, wo).len() && #[trigger] step_want(
                merge_steps(hr, ho, wr, wo)[k],
            ) is Some ==> wo.contains(step_want(merge_steps(hr, ho, wr, wo)[k])->0),
    decreases ho.len() + wo.len(),
{
    let plan = merge_steps(hr, ho, wr, wo);
    if ho.len() == 0 && wo.len() == 0 {
    } else {
        let (h2, w2) = if ho.len() == 0 {
            (ho, wo.drop_first())
        } else if wo.len() == 0 {
            (ho.drop_first(), wo)
        } else if hr[ho[0] as int] == wr[wo[0] as int] {
            (ho.drop_first(), wo.drop_first())
        } else if hr[ho[0] as int] < wr[wo[0] as int] {
            (ho.drop_first(), wo)
        } else {
            (ho, wo.drop_first())
        };
        let rest = merge_steps(hr, h2, wr, w2);
        lemma_merge_members(hr, h2, wr, w2);
        assert(plan == seq![plan[0]] + rest);
        assert forall|k: int| 0 <= k < plan.len() && #[trigger] step_have(plan[k]) is Some implies ho.contains(
            step_have(plan[k])->0,
        ) by {
            if k == 0 {
                assert(ho[0] == step_have(plan[0])->0);
            } else {
                assert(plan[k] == rest[k - 1]);
                assert(step_have(rest[k - 1]) is Some);
                let x = step_have(rest[k - 1])->0;
                assert(h2.contains(x));
                let m = choose|m: int| 0 <= m < h2.len() && h2[m] == x;
                if h2 != ho {
                    assert(ho[m + 1] == x);
                }
            }
        }
        assert forall|k: int| 0 <= k < plan.len() && #[trigger] step_want(plan[k]) is Some implies wo.contains(
            step_want(plan[k])->0,
        ) by {
            if k == 0 {
                assert(wo[0] == step_want(plan[0])->0);
            } else {
                assert(plan[k] == rest[k - 1]);
                assert(step_want(rest[k - 1]) is Some);
                let x = step_want(rest[k - 1])->0;
                assert(w2.contains(x));
                let m = choose|m: int| 0 <= m < w2.len() && w2[m] == x;
                if w2 != wo {
                    assert(wo[m + 1] == x);
                }
            }
        }
    }
}

/// The two position lists that remain after the first step of a merge.
pub open spec fn merge_tail(hr: Seq<int>, ho: Seq<usize>, wr: Seq<int>, wo: Seq<usize>) -> (
    Seq<usize>,
    Seq<usize>,
) {
    if ho.len() == 0 {
        (ho, wo.drop_first())
    } else if wo.len() == 0 {
        (ho.drop_first(), wo)
    } else if hr[ho[0] as int] == wr[wo[0] as int] {
        (ho.drop_first(), wo.drop_first())
    } else if hr[ho[0] as int] < wr[wo[0] as int] {
        (ho.drop_first(), wo)
    } else {
        (ho, wo.drop_first())
    }
}

proof fn lemma_merge_unfold(hr: Seq<int>, ho: Seq<usize>, wr: Seq<int>, wo: Seq<usize>)
    requires
        ho.len() + wo.len() > 0,
    ensures
        ({
            let plan = merge_steps(hr, ho, wr, wo);
            let (h2, w2) = merge_tail(hr, ho, wr, wo);
            &&& plan == seq![plan[0]] + merge_steps(hr, h2, wr, w2)
            &&& h2.len() + w2.len() < ho.len() + wo.len()
            &&& step_have(plan[0]) is Some ==> ho.len() > 0 && step_have(plan[0]) == Some(ho[0])
                && h2 == ho.drop_first()
            &&& step_have(plan[0]) is None ==> h2 == ho
            &&& step_want(plan[0]) is Some ==> wo.len() > 0 && step_want(plan[0]) == Some(wo[0])
                && w2 == wo.drop_first()
            &&& step_want(plan[0]) is None ==> w2 == wo
            &&& (plan[0] is Keep ==> hr[ho[0] as int] == wr[wo[0] as int])
            &&& (plan[0] is Close ==> wo.len() == 0 || hr[ho[0] as int] < wr[wo[0] as int])
            &&& (plan[0] is Open ==> ho.len() == 0 || wr[wo[0] as int] < hr[ho[0] as int])
        }),
{
}

proof fn lemma_merge_covers(hr: Seq<int>, ho: Seq<usize>, wr: Seq<int>, wo: Seq<usize>)
    ensures
        forall|m: int|
            #![trigger ho[m]]
            0 <= m < ho.len() ==> exists|k: int|
                0 <= k < merge_steps(hr, ho, wr, wo).len() && #[trigger] step_have(
                    merge_steps(hr, ho, wr, wo)[k],
                ) == Some(ho[m]),
        forall|m: int|
            #![trigger wo[m]]
            0 <= m < wo.len() ==> exists|k: int|
                0 <= k < merge_steps(hr, ho, wr, wo).len() && #[trigger] step_want(
                    merge_steps(hr, ho, wr, wo)[k],
                ) == Some(wo[m]),
    decreases ho.len() + wo.len(),
{
    if ho.len() + wo.len() > 0 {
        let plan = merge_steps(hr, ho, wr, wo);
        lemma_merge_unfold(hr, ho, wr, wo);
        let (h2, w2) = merge_tail(hr, ho, wr, wo);
        let rest = merge_steps(hr, h2, wr, w2);
        lemma_merge_covers(hr, h2, wr, w2);
        assert forall|m: int| #![trigger ho[m]] 0 <= m < ho.len() implies exists|k: int|
            0 <= k < plan.len() && #[trigger] step_have(plan[k]) == Some(ho[m]) by {
            if step_have(plan[0]) is Some && m == 0 {
                assert(step_have(plan[0]) == Some(ho[m]));
            } else {
                let m2 = if step_have(plan[0]) is Some {
                    m - 1
                } else {
                    m
                };
                assert(h2[m2] == ho[m]);
                let k = choose|k: int| 0 <= k < rest.len() && #[trigger] step_have(rest[k]) == Some(h2[m2]);
                assert(plan[k + 1] == rest[k]);
                assert(step_have(plan[k + 1]) == Some(ho[m]));
            }
        }
        assert forall|m: int| #![trigger wo[m]] 0 <= m < wo.len() implies exists|k: int|
            0 <= k < plan.len() && #[trigger] step_want(plan[k]) == Some(wo[m]) by {
            if step_want(plan[0]) is Some && m == 0 {
                assert(step_want(plan[0]) == Some(wo[m]));
            } else {
                let m2 = if step_want(plan[0]) is Some {
                    m - 1
                } else {
                    m
                };
                assert(w2[m2] == wo[m]);
                let k = choose|k: int| 0 <= k < rest.len() && #[trigger] step_want(rest[k]) == Some(w2[m2]);
                assert(plan[k + 1] == rest[k]);
                assert(step_want(plan[k + 1]) == Some(wo[m]));
            }
        }
    }
}

proof fn lemma_merge_distinct(hr: Seq<int>, ho: Seq<usize>, wr: Seq<int>, wo: Seq<usize>)
    requires
        distinct_positions(ho),
        distinct_positions(wo),
    ensures
        forall|k1: int, k2: int|
            #![trigger step_have(merge_steps(hr, ho, wr, wo)[k1]), step_have(merge_steps(hr, ho, wr, wo)[k2])]
            0 <= k1 < k2 < merge_steps(hr, ho, wr, wo).len() && step_have(
                merge_steps(hr, ho, wr, wo)[k1],
            ) is Some ==> step_have(merge_steps(hr, ho, wr, wo)[k1]) != step_have(
                merge_steps(hr, ho, wr, wo)[k2],
            ),
        forall|k1: int, k2: int|
            #![trigger step_want(merge_steps(hr, ho, wr, wo)[k1]), step_want(merge_steps(hr, ho, wr, wo)[k2])]
            0 <= k1 < k2 < merge_steps(hr, ho, wr, wo).len() && step_want(
                merge_steps(hr, ho, wr, wo)[k1],
            ) is Some ==> step_want(merge_steps(hr, ho, wr, wo)[k1]) != step_want(
                merge_steps(hr, ho, wr, wo)[k2],
            ),
    decreases ho.len() + wo.len(),
{
    if ho.len() + wo.len() > 0 {
        let plan = merge_steps(hr, ho, wr, wo);
        lemma_merge_unfold(hr, ho, wr, wo);
        let (h2, w2) = merge_tail(hr, ho, wr, wo);
        let rest = merge_steps(hr, h2, wr, w2);
        assert(distinct_positions(h2) && distinct_positions(w2)) by {
            assert forall|i: int, j: int| 0 <= i < j < h2.len() implies h2[i] != h2[j] by {
                if h2 != ho {
                    assert(h2[i] == ho[i + 1] && h2[j] == ho[j + 1]);
                }
            }
            assert forall|i: int, j: int| 0 <= i < j < w2.len() implies w2[i] != w2[j] by {
                if w2 != wo {
                    assert(w2[i] == wo[i + 1] && w2[j] == wo[j + 1]);
                }
            }
        }
        lemma_merge_distinct(hr, h2, wr, w2);
        lemma_merge_members(hr, h2, wr, w2);
        assert forall|k1: int, k2: int|
            #![trigger step_have(plan[k1]), step_have(plan[k2])]
            0 <= k1 < k2 < plan.len() && step_have(plan[k1]) is Some implies step_have(plan[k1])
            != step_have(plan[k2]) by {
            assert(plan[k2] == rest[k2 - 1]);
            if k1 == 0 {
                if step_have(rest[k2 - 1]) is Some {
                    let x = step_have(rest[k2 - 1])->0;
                    assert(h2.contains(x));
                    let m = choose|m: int| 0 <= m < h2.len() && h2[m] == x;
                    assert(ho[m + 1] == x);
                    assert(ho[0] != ho[m + 1]);
                }
            } else {
                assert(plan[k1] == rest[k1 - 1]);
            }
        }
        assert forall|k1: int, k2: int|
            #![trigger step_want(plan[k1]), step_want(plan[k2])]
            0 <= k1 < k2 < plan.len() && step_want(plan[k1]) is Some implies step_want(plan[k1])
            != step_want(plan[k2]) by {
            assert(plan[k2] == rest[k2 - 1]);
            if k1 == 0 {
                if step_want(rest[k2 - 1]) is Some {
                    let x = step_want(rest[k2 - 1])->0;
                    assert(w2.contains(x));
                    let m = choose|m: int| 0 <= m < w2.len() && w2[m] == x;
                    assert(wo[m + 1] == x);
                    assert(wo[0] != wo[m + 1]);
                }
            } else {
                assert(plan[k1] == rest[k1 - 1]);
            }
        }
    }
}

proof fn lemma_merge_keep_ranks(hr: Seq<int>, ho: Seq<usize>, wr: Seq<int>, wo: Seq<usize>)
    ensures
        forall|k: int|
            0 <= k < merge_steps(hr, ho, wr, wo).len() && (#[trigger] merge_steps(
                hr,
                ho,
                wr,
                wo,
            )[k]) is Keep ==> hr[step_have(merge_steps(hr, ho, wr, wo)[k])->0 as int]
                == wr[step_want(merge_steps(hr, ho, wr, wo)[k])->0 as int],
    decreases ho.len() + wo.len(),
{
    if ho.len() + wo.len() > 0 {
        let plan = merge_steps(hr, ho, wr, wo);
        lemma_merge_unfold(hr, ho, wr, wo);
        let (h2, w2) = merge_tail(hr, ho, wr, wo);
        let rest = merge_steps(hr, h2, wr, w2);
        lemma_merge_keep_ranks(hr, h2, wr, w2);
        assert forall|k: int| 0 <= k < plan.len() && (#[trigger] plan[k]) is Keep implies hr[step_have(
            plan[k],
        )->0 as int] == wr[step_want(plan[k])->0 as int] by {
            if k > 0 {
                assert(plan[k] == rest[k - 1]);
            }
        }
    }
}

/// Ranks strictly increase along `order`.
pub open spec fn strictly_sorted(r: Seq<int>, order: Seq<usize>) -> bool {
    forall|i: int, j: int|
        #![trigger order[i], order[j]]
        0 <= i < j < order.len() ==> r[order[i] as int] < r[order[j] as int]
}

proof fn lemma_strictly_sorted_drop(r: Seq<int>, order: Seq<usize>)
    requires
        strictly_sorted(r, order),
        order.len() > 0,
    ensures
        strictly_sorted(r, order.drop_first()),
        forall|m: int| 0 <= m < order.len() ==> r[order[0] as int] <= r[#[trigger] order[m] as int],
{
    let d = order.drop_first();
    assert forall|i: int, j: int| #![trigger d[i], d[j]] 0 <= i < j < d.len() implies r[d[i] as int]
        < r[d[j] as int] by {
        assert(d[i] == order[i + 1] && d[j] == order[j + 1]);
    }
    assert forall|m: int| 0 <= m < order.len() implies r[order[0] as int] <= r[#[trigger] order[m] as int] by {
        if m > 0 {
            assert(r[order[0] as int] < r[order[m] as int]);
        }
    }
}

proof fn lemma_merge_exclusive(hr: Seq<int>, ho: Seq<usize>, wr: Seq<int>, wo: Seq<usize>)
    requires
        strictly_sorted(hr, ho),
        strictly_sorted(wr, wo),
    ensures
        forall|k: int, m: int|
            #![trigger merge_steps(hr, ho, wr, wo)[k], wo[m]]
            0 <= k < merge_steps(hr, ho, wr, wo).len() && merge_steps(hr, ho, wr, wo)[k] is Close
                && 0 <= m < wo.len() ==> wr[wo[m] as int] != hr[step_have(
                merge_steps(hr, ho, wr, wo)[k],
            )->0 as int],
        forall|k: int, m: int|
            #![trigger merge_steps(hr, ho, wr, wo)[k], ho[m]]
            0 <= k < merge_steps(hr, ho, wr, wo).len() && merge_steps(hr, ho, wr, wo)[k] is Open
                && 0 <= m < ho.len() ==> hr[ho[m] as int] != wr[step_want(
                merge_steps(hr, ho, wr, wo)[k],
            )->0 as int],
    decreases ho.len() + wo.len(),
{
    if ho.len() + wo.len() > 0 {
        let plan = merge_steps(hr, ho, wr, wo);
        lemma_merge_unfold(hr, ho, wr, wo);
        let (h2, w2) = merge_tail(hr, ho, wr, wo);
        let rest = merge_steps(hr, h2, wr, w2);
        if ho.len() > 0 {
            lemma_strictly_sorted_drop(hr, ho);
        }
        if wo.len() > 0 {
            lemma_strictly_sorted_drop(wr, wo);
        }
        lemma_merge_exclusive(hr, h2, wr, w2);
        lemma_merge_members(hr, h2, wr, w2);
        assert forall|k: int, m: int|
            #![trigger plan[k], wo[m]]
            0 <= k < plan.len() && plan[k] is Close && 0 <= m < wo.len() implies wr[wo[m] as int]
            != hr[step_have(plan[k])->0 as int] by {
            if k > 0 {
                assert(plan[k] == rest[k - 1]);
                let h = step_have(rest[k - 1])->0;
                assert(h2.contains(h));
                let m1 = choose|m1: int| 0 <= m1 < h2.len() && h2[m1] == h;
                if w2 == wo {
                    assert(wr[w2[m] as int] != hr[h as int]);
                } else if m > 0 {
                    assert(w2[m - 1] == wo[m]);
                    assert(wr[w2[m - 1] as int] != hr[h as int]);
                } else if h2 == ho {
                    assert(hr[ho[0] as int] <= hr[ho[m1] as int]);
                } else {
                    assert(ho[m1 + 1] == h);
                    assert(hr[ho[0] as int] < hr[ho[m1 + 1] as int]);
                }
            }
        }
        assert forall|k: int, m: int|
            #![trigger plan[k], ho[m]]
            0 <= k < plan.len() && plan[k] is Open && 0 <= m < ho.len() implies hr[ho[m] as int]
            != wr[step_want(plan[k])->0 as int] by {
            if k > 0 {
                assert(plan[k] == rest[k - 1]);
                let w = step_want(rest[k - 1])->0;
                assert(w2.contains(w));
                let m1 = choose|m1: int| 0 <= m1 < w2.len() && w2[m1] == w;
                if h2 == ho {
                    assert(hr[h2[m] as int] != wr[w as int]);
                } else if m > 0 {
                    assert(h2[m - 1] == ho[m]);
                    assert(hr[h2[m - 1] as int] != wr[w as int]);
                } else if w2 == wo {
                    assert(wr[wo[0] as int] <= wr[wo[m1] as int]);
                } else {
                    assert(wo[m1 + 1] == w);
                    assert(wr[wo[0] as int] < wr[wo[m1 + 1] as int]);
                }
            }
        }
    }
}

proof fn insertion_point(r: Seq<int>, o: Seq<usize>, x: int, p0: int) -> (p: int)
    requires
        0 <= p0 <= o.len(),
        forall|k: int| 0 <= k < p0 ==> entry_lt(r, #[trigger] o[k] as int, x),
    ensures
        p0 <= p <= o.len(),
        forall|k: int| 0 <= k < p ==> entry_lt(r, #[trigger] o[k] as int, x),
        p < o.len() ==> !entry_lt(r, o[p] as int, x),
    decreases o.len() - p0,
{
    if p0 == o.len() || !entry_lt(r, o[p0] as int, x) {
        p0
    } else {
        insertion_point(r, o, x, p0 + 1)
    }
}

proof fn sorted_prefix_witness(r: Seq<int>, n: int) -> (o: Seq<usize>)
    requires
        0 <= n <= r.len(),
        r.len() <= usize::MAX,
    ensures
        sorted_prefix(r, o, n),
    decreases n,
{
    if n == 0 {
        Seq::empty()
    } else {
        let o = sorted_prefix_witness(r, n - 1);
        let p = insertion_point(r, o, n - 1, 0);
        lemma_insert_sorted(r, o, n - 1, p);
        o.insert(p, (n - 1) as usize)
    }
}

/// Every rank sequence has a stable sorting permutation, and it lists each
/// position once.
pub proof fn lemma_canonical_order(r: Seq<int>)
    requires
        r.len() <= usize::MAX,
    ensures
        is_sorted_order(r, canonical_order(r)),
        distinct_positions(canonical_order(r)),
        indices_below(canonical_order(r), r.len() as int),
{
    let w = sorted_prefix_witness(r, r.len() as int);
    assert(is_sorted_order(r, w));
    let o = canonical_order(r);
    assert(is_sorted_order(r, o));
    assert forall|i: int, j: int| 0 <= i < j < o.len() implies o[i] != o[j] by {
        assert(entry_lt(r, o[i] as int, o[j] as int));
    }
}

/// Keys with no repeats, such as the keys of a map.
pub open spec fn no_duplicate_keys<K>(keys: Seq<K>) -> bool {
    forall|i: int, j: int| 0 <= i < j < keys.len() ==> keys[i] != keys[j]
}

proof fn lemma_distinct_keys_strictly_sorted<K: OrderedKey>(keys: Seq<K>, o: Seq<usize>)
    requires
        no_duplicate_keys(keys),
        is_sorted_order(ranks(keys), o),
    ensures
        strictly_sorted(ranks(keys), o),
{
    let r = ranks(keys);
    assert forall|i: int, j: int| #![trigger o[i], o[j]] 0 <= i < j < o.len() implies r[o[i] as int]
        < r[o[j] as int] by {
        let (a, b) = (o[i] as int, o[j] as int);
        assert(entry_lt(r, a, b));
        if r[a] == r[b] {
            keys[a].lemma_rank_injective(&keys[b]);
            assert(a < b);
            assert(keys[a] != keys[b]);
        }
    }
}

/// Some step of `plan` handles live position `h`.
pub open spec fn handles_have(plan: Seq<SyncStep>, h: int) -> bool {
    exists|k: int| 0 <= k < plan.len() && #[trigger] step_have(plan[k]) == Some(h as usize)
}

/// Some step of `plan` handles wanted position `w`.
pub open spec fn handles_want(plan: Seq<SyncStep>, w: int) -> bool {
    exists|k: int| 0 <= k < plan.len() && #[trigger] step_want(plan[k]) == Some(w as usize)
}

/// The key that is live after a step: the kept live key or the opened wanted key.
pub open spec fn live_key<K>(have: Seq<K>, want: Seq<K>, s: SyncStep) -> Option<K> {
    match s {
        SyncStep::Keep { have: h, .. } => Some(have[h as int]),
        SyncStep::Close { .. } => None,
        SyncStep::Open { want: w } => Some(want[w as int]),
    }
}

/// The keys that are live once all steps of `plan` have been carried out.
pub open spec fn keys_after<K>(have: Seq<K>, want: Seq<K>, plan: Seq<SyncStep>) -> Set<K> {
    Set::new(
        |x: K|
            exists|k: int| 0 <= k < plan.len() && #[trigger] live_key(have, want, plan[k]) == Some(x),
    )
}

/// Reconciliation: the plan handles every live and every wanted entry exactly
/// once, keeps only entries whose keys match, and afterwards the live keys are
/// exactly the wanted keys.
pub proof fn lemma_sync_plan_reconciles<K: OrderedKey>(have: Seq<K>, want: Seq<K>)
    requires
        have.len() <= usize::MAX,
        want.len() <= usize::MAX,
    ensures
        forall|h: int| 0 <= h < have.len() ==> #[trigger] handles_have(sync_plan(have, want), h),
        forall|w: int| 0 <= w < want.len() ==> #[trigger] handles_want(sync_plan(have, want), w),
        forall|k: int|
            0 <= k < sync_plan(have, want).len() && (#[trigger] step_have(
                sync_plan(have, want)[k],
            )) is Some ==> (step_have(sync_plan(have, want)[k])->0 as int) < have.len(),
        forall|k: int|
            0 <= k < sync_plan(have, want).len() && (#[trigger] step_want(
                sync_plan(have, want)[k],
            )) is Some ==> (step_want(sync_plan(have, want)[k])->0 as int) < want.len(),
        forall|k1: int, k2: int|
            #![trigger step_have(sync_plan(have, want)[k1]), step_have(sync_plan(have, want)[k2])]
            0 <= k1 < k2 < sync_plan(have, want).len() && step_have(sync_plan(have, want)[k1]) is Some
                ==> step_have(sync_plan(have, want)[k1]) != step_have(sync_plan(have, want)[k2]),
        forall|k1: int, k2: int|
            #![trigger step_want(sync_plan(have, want)[k1]), step_want(sync_plan(have, want)[k2])]
            0 <= k1 < k2 < sync_plan(have, want).len() && step_want(sync_plan(have, want)[k1]) is Some
                ==> step_want(sync_plan(have, want)[k1]) != step_want(sync_plan(have, want)[k2]),
        forall|k: int|
            0 <= k < sync_plan(have, want).len() && (#[trigger] sync_plan(have, want)[k]) is Keep
                ==> have[step_have(sync_plan(have, want)[k])->0 as int] == want[step_want(
                sync_plan(have, want)[k],
            )->0 as int],
        keys_after(have, want, sync_plan(have, want)) == want.to_set(),
{
    let (hr, wr) = (ranks(have), ranks(want));
    let (ho, wo) = (canonical_order(hr), canonical_order(wr));
    let plan = sync_plan(have, want);
    lemma_canonical_order(hr);
    lemma_canonical_order(wr);
    lemma_merge_members(hr, ho, wr, wo);
    lemma_merge_covers(hr, ho, wr, wo);
    lemma_merge_distinct(hr, ho, wr, wo);
    lemma_merge_keep_ranks(hr, ho, wr, wo);
    assert forall|h: int| 0 <= h < have.len() implies #[trigger] handles_have(plan, h) by {
        assert(lists(ho, h));
        let m = choose|m: int| 0 <= m < ho.len() && ho[m] == h;
        assert(ho[m] == h as usize);
    }
    assert forall|w: int| 0 <= w < want.len() implies #[trigger] handles_want(plan, w) by {
        assert(lists(wo, w));
        let m = choose|m: int| 0 <= m < wo.len() && wo[m] == w;
        assert(wo[m] == w as usize);
    }
    assert forall|k: int| 0 <= k < plan.len() && (#[trigger] step_have(plan[k])) is Some implies (
    step_have(plan[k])->0 as int) < have.len() by {
        let m = choose|m: int| 0 <= m < ho.len() && ho[m] == step_have(plan[k])->0;
        assert((ho[m] as int) < hr.len());
    }
    assert forall|k: int| 0 <= k < plan.len() && (#[trigger] step_want(plan[k])) is Some implies (
    step_want(plan[k])->0 as int) < want.len() by {
        let m = choose|m: int| 0 <= m < wo.len() && wo[m] == step_want(plan[k])->0;
        assert((wo[m] as int) < wr.len());
    }
    assert forall|k: int| 0 <= k < plan.len() && (#[trigger] plan[k]) is Keep implies have[step_have(
        plan[k],
    )->0 as int] == want[step_want(plan[k])->0 as int] by {
        let h = step_have(plan[k])->0 as int;
        let w = step_want(plan[k])->0 as int;
        assert(step_have(plan[k]) is Some && step_want(plan[k]) is Some);
        assert(hr[h] == wr[w]);
        have[h].lemma_rank_injective(&want[w]);
    }
    let after = keys_after(have, want, plan);
    assert forall|x: K| after.contains(x) implies want.to_set().contains(x) by {
        let k = choose|k: int| 0 <= k < plan.len() && #[trigger] live_key(have, want, plan[k]) == Some(x);
        assert(step_want(plan[k]) is Some);
        let w = step_want(plan[k])->0 as int;
        assert(want[w] == x);
        assert(want.contains(x));
    }
    assert forall|x: K| want.to_set().contains(x) implies after.contains(x) by {
        assert(want.contains(x));
        let w = choose|w: int| 0 <= w < want.len() && want[w] == x;
        assert(handles_want(plan, w));
        let k = choose|k: int| 0 <= k < plan.len() && #[trigger] step_want(plan[k]) == Some(w as usize);
        assert(live_key(have, want, plan[k]) == Some(x));
    }
    assert(after =~= want.to_set());
}

/// With no repeated keys on either side (keys of maps), a closed entry's key
/// is not wanted and an opened entry's key is not live.
pub proof fn lemma_sync_plan_exclusive<K: OrderedKey>(have: Seq<K>, want: Seq<K>)
    requires
        have.len() <= usize::MAX,
        want.len() <= usize::MAX,
        no_duplicate_keys(have),
        no_duplicate_keys(want),
    ensures
        forall|k: int|
            0 <= k < sync_plan(have, want).len() && (#[trigger] sync_plan(have, want)[k]) is Close
                ==> !want.contains(have[step_have(sync_plan(have, want)[k])->0 as int]),
        forall|k: int|
            0 <= k < sync_plan(have, want).len() && (#[trigger] sync_plan(have, want)[k]) is Open
                ==> !have.contains(want[step_want(sync_plan(have, want)[k])->0 as int]),
{
    let (hr, wr) = (ranks(have), ranks(want));
    let (ho, wo) = (canonical_order(hr), canonical_order(wr));
    let plan = sync_plan(have, want);
    lemma_sync_plan_reconciles(have, want);
    lemma_canonical_order(hr);
    lemma_canonical_order(wr);
    lemma_distinct_keys_strictly_sorted(have, ho);
    lemma_distinct_keys_strictly_sorted(want, wo);
    lemma_merge_exclusive(hr, ho, wr, wo);
    assert forall|k: int| 0 <= k < plan.len() && (#[trigger] plan[k]) is Close implies !want.contains(
        have[step_have(plan[k])->0 as int],
    ) by {
        let h = step_have(plan[k])->0 as int;
        assert(step_have(plan[k]) is Some);
        if want.contains(have[h]) {
            let w = choose|w: int| 0 <= w < want.len() && want[w] == have[h];
            assert(lists(wo, w));
            let m = choose|m: int| 0 <= m < wo.len() && wo[m] == w;
            assert(wr[wo[m] as int] != hr[h]);
        }
    }
    assert forall|k: int| 0 <= k < plan.len() && (#[trigger] plan[k]) is Open implies !have.contains(
        want[step_want(plan[k])->0 as int],
    ) by {
        let w = step_want(plan[k])->0 as int;
        assert(step_want(plan[k]) is Some);
        if have.contains(want[w]) {
            let h = choose|h: int| 0 <= h < have.len() && have[h] == want[w];
            assert(lists(ho, h));
            let m = choose|m: int| 0 <= m < ho.len() && ho[m] == h;
            assert(hr[ho[m] as int] != wr[w]);
        }
    }
}

/// Idempotence: when the live keys already are the wanted keys (no key
/// repeated on either side), as they are once a plan has been carried out,
/// the plan keeps every entry and closes and opens nothing.
pub proof fn lemma_sync_plan_idempotent<K: OrderedKey>(have: Seq<K>, want: Seq<K>)
    requires
        have.len() <= usize::MAX,
        want.len() <= usize::MAX,
        no_duplicate_keys(have),
        no_duplicate_keys(want),
        have.to_set() == want.to_set(),
    ensures
        forall|k: int|
            0 <= k < sync_plan(have, want).len() ==> (#[trigger] sync_plan(have, want)[k]) is Keep,
{
    let plan = sync_plan(have, want);
    lemma_sync_plan_reconciles(have, want);
    lemma_sync_plan_exclusive(have, want);
    assert forall|k: int| 0 <= k < plan.len() implies (#[trigger] plan[k]) is Keep by {
        if plan[k] is Close {
            assert(step_have(plan[k]) is Some);
            let h = step_have(plan[k])->0 as int;
            assert(have.to_set().contains(have[h]));
            assert(want.to_set().contains(have[h]));
        } else if plan[k] is Open {
            assert(step_want(plan[k]) is Some);
            let w = step_want(plan[k])->0 as int;
            assert(want.to_set().contains(want[w]));
            assert(have.to_set().contains(want[w]));
        }
    }
}

} // verus!
