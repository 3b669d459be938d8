use vstd::prelude::*;

verus! {

/// How a value was built from pushed values: one pushed value, or the
/// combiner applied to two smaller combinations, the older one first.
pub enum Tree<T> {
    Leaf(T),
    Node(Box<Tree<T>>, Box<Tree<T>>),
}

/// Two to the power `e`: the number of pushes that an entry of rank `e` holds.
pub open spec fn exp2(e: nat) -> nat
    decreases e,
{
    if e == 0 {
        1
    } else {
        2 * exp2((e - 1) as nat)
    }
}

/// `v` is a value that evaluating `t` with the combiner `f` can give.
pub open spec fn evaluates_to<T, F: Fn(T, T) -> T>(f: F, t: Tree<T>, v: T) -> bool
    decreases t,
{
    match t {
        Tree::Leaf(x) => v == x,
        Tree::Node(l, r) => exists|a: T, b: T|
            evaluates_to(f, *l, a) && evaluates_to(f, *r, b) && #[trigger] call_ensures(
                f,
                (a, b),
                v,
            ),
    }
}

/// The combiner gives at most one result for each pair of arguments.
pub open spec fn is_functional<T, F: Fn(T, T) -> T>(f: F) -> bool {
    forall|a: T, b: T, x: T, y: T|
        call_ensures(f, (a, b), x) && call_ensures(f, (a, b), y) ==> x == y
}

/// The stack `s` with the tree `t` of rank `r` placed on top: while the top
/// entry has the same rank, the two are merged into one of the next rank.
pub open spec fn settle<T>(s: Seq<(Tree<T>, nat)>, t: Tree<T>, r: nat) -> Seq<(Tree<T>, nat)>
    decreases s.len(),
{
    if s.len() > 0 && s.last().1 == r {
        settle(s.drop_last(), Tree::Node(Box::new(s.last().0), Box::new(t)), r + 1)
    } else {
        s.push((t, r))
    }
}

/// The stack of (tree, rank) entries after pushing `vals` in order onto an
/// empty stack.
pub open spec fn stack_of<T>(vals: Seq<T>) -> Seq<(Tree<T>, nat)>
    decreases vals.len(),
{
    if vals.len() == 0 {
        Seq::empty()
    } else {
        settle(stack_of(vals.drop_last()), Tree::Leaf(vals.last()), 0)
    }
}

/// The final combination of a non-empty stack: the newest entry is the seed,
/// and each older entry is combined in as the second argument, front entry last.
pub open spec fn fold_entries<T>(s: Seq<(Tree<T>, nat)>) -> Tree<T>
    recommends
        s.len() > 0,
    decreases s.len(),
{
    if s.len() <= 1 {
        s[0].0
    } else {
        Tree::Node(Box::new(fold_entries(s.drop_first())), Box::new(s[0].0))
    }
}

/// The tree that folding the structure builds after `vals` were pushed.
pub open spec fn fold_tree<T>(vals: Seq<T>) -> Tree<T> {
    fold_entries(stack_of(vals))
}

/// The final combination of the non-empty sequence of values `vs`: the last
/// value is the seed, and each earlier value is combined in as the second
/// argument, the first value last.
pub open spec fn fold_values<T>(vs: Seq<T>) -> Tree<T>
    recommends
        vs.len() > 0,
    decreases vs.len(),
{
    if vs.len() <= 1 {
        Tree::Leaf(vs[0])
    } else {
        Tree::Node(Box::new(fold_values(vs.drop_first())), Box::new(Tree::Leaf(vs[0])))
    }
}

/// The combination that a push of `v` makes when it merges with the top `k`
/// values of `vs`: `v` is the seed, and going down the stack each stored value
/// is combined in as the first argument.
pub open spec fn carry_tree<T>(vs: Seq<T>, k: nat, v: T) -> Tree<T>
    decreases k,
{
    if k == 0 {
        Tree::Leaf(v)
    } else {
        Tree::Node(
            Box::new(Tree::Leaf(vs[vs.len() - k])),
            Box::new(carry_tree(vs, (k - 1) as nat, v)),
        )
    }
}

/// The number of pushes that the entries of `s` stand for.
pub open spec fn total_weight<T>(s: Seq<(Tree<T>, nat)>) -> nat
    decreases s.len(),
{
    if s.len() == 0 {
        0
    } else {
        total_weight(s.drop_last()) + exp2(s.last().1)
    }
}

/// No two neighbouring entries of `s` have the same rank.
pub open spec fn ranks_alternate<T>(s: Seq<(Tree<T>, nat)>) -> bool {
    forall|i: int| 0 <= i < s.len() - 1 ==> #[trigger] s[i].1 != s[i + 1].1
}

pub proof fn lemma_exp2_positive(e: nat)
    ensures
        exp2(e) >= 1,
    decreases e,
{
    if e > 0 {
        lemma_exp2_positive((e - 1) as nat);
    }
}

pub proof fn lemma_exp2_monotonic(a: nat, b: nat)
    requires
        a <= b,
    ensures
        exp2(a) <= exp2(b),
    decreases b,
{
    if a < b {
        lemma_exp2_monotonic(a, (b - 1) as nat);
        lemma_exp2_positive((b - 1) as nat);
    }
}

/// A rank whose weight fits in a `usize` is below 64.
pub proof fn lemma_rank_bound(e: nat)
    requires
        exp2(e) <= usize::MAX,
    ensures
        e < 64,
{
    if e >= 64 {
        reveal_with_fuel(exp2, 65);
        assert(exp2(64) == 0x1_0000_0000_0000_0000nat);
        lemma_exp2_monotonic(64, e);
    }
}

/// Placing a tree of rank `r` on a stack adds `2^r` to its weight, merges included.
pub proof fn lemma_settle_weight<T>(s: Seq<(Tree<T>, nat)>, t: Tree<T>, r: nat)
    ensures
        total_weight(settle(s, t, r)) == total_weight(s) + exp2(r),
    decreases s.len(),
{
    if s.len() > 0 && s.last().1 == r {
        lemma_settle_weight(s.drop_last(), Tree::Node(Box::new(s.last().0), Box::new(t)), r + 1);
    } else {
        assert(s.push((t, r)).drop_last() =~= s);
    }
}

/// The entries after any sequence of pushes stand for exactly as many pushes.
pub proof fn lemma_stack_weight<T>(vals: Seq<T>)
    ensures
        total_weight(stack_of(vals)) == vals.len(),
    decreases vals.len(),
{
    if vals.len() > 0 {
        lemma_stack_weight(vals.drop_last());
        lemma_settle_weight(stack_of(vals.drop_last()), Tree::Leaf(vals.last()), 0);
    }
}

pub proof fn lemma_weight_prefix<T>(s: Seq<(Tree<T>, nat)>, i: int)
    requires
        0 <= i <= s.len(),
    ensures
        total_weight(s.take(i)) <= total_weight(s),
        i < s.len() ==> total_weight(s.take(i + 1)) == total_weight(s.take(i)) + exp2(s[i].1),
    decreases s.len(),
{
    if i < s.len() {
        assert(s.take(i + 1).drop_last() =~= s.take(i));
        if i + 1 < s.len() {
            lemma_weight_prefix(s.drop_last(), i + 1);
            assert(s.drop_last().take(i + 1) =~= s.take(i + 1));
        } else {
            assert(s.take(i + 1) =~= s);
        }
    } else {
        assert(s.take(i) =~= s);
    }
}

/// Weight zero means no entries.
pub proof fn lemma_weight_zero<T>(s: Seq<(Tree<T>, nat)>)
    ensures
        total_weight(s) == 0 <==> s.len() == 0,
{
    if s.len() > 0 {
        lemma_exp2_positive(s.last().1);
    }
}

/// Placing a tree on top of any stack whose neighbouring ranks differ, with
/// the merges that follow, leaves a stack whose neighbouring ranks differ.
pub proof fn lemma_settle_alternates<T>(s: Seq<(Tree<T>, nat)>, t: Tree<T>, r: nat)
    requires
        ranks_alternate(s),
    ensures
        ranks_alternate(settle(s, t, r)),
    decreases s.len(),
{
    if s.len() > 0 && s.last().1 == r {
        let p = s.drop_last();
        assert forall|i: int| 0 <= i < p.len() - 1 implies #[trigger] p[i].1 != p[i + 1].1 by {
            assert(s[i].1 != s[i + 1].1);
        }
        lemma_settle_alternates(p, Tree::Node(Box::new(s.last().0), Box::new(t)), r + 1);
    } else {
        let q = s.push((t, r));
        assert forall|i: int| 0 <= i < q.len() - 1 implies #[trigger] q[i].1 != q[i + 1].1 by {
            if i < s.len() - 1 {
                assert(s[i].1 != s[i + 1].1);
            }
        }
    }
}

/// After any sequence of pushes, no two neighbouring entries share a rank.
pub proof fn lemma_stack_ranks_alternate<T>(vals: Seq<T>)
    ensures
        ranks_alternate(stack_of(vals)),
    decreases vals.len(),
{
    if vals.len() > 0 {
        lemma_stack_ranks_alternate(vals.drop_last());
        lemma_settle_alternates(stack_of(vals.drop_last()), Tree::Leaf(vals.last()), 0);
    }
}

/// The pushed values that `t` combines, oldest first.
pub open spec fn leaves<T>(t: Tree<T>) -> Seq<T>
    decreases t,
{
    match t {
        Tree::Leaf(x) => seq![x],
        Tree::Node(l, r) => leaves(*l) + leaves(*r),
    }
}

/// The pushed values that the entries of `s` combine, front entry first.
pub open spec fn flatten<T>(s: Seq<(Tree<T>, nat)>) -> Seq<T>
    decreases s.len(),
{
    if s.len() == 0 {
        Seq::empty()
    } else {
        flatten(s.drop_last()) + leaves(s.last().0)
    }
}

/// Each entry of rank `r` combines exactly `2^r` pushed values.
pub open spec fn sizes_match_ranks<T>(s: Seq<(Tree<T>, nat)>) -> bool {
    forall|i: int| 0 <= i < s.len() ==> (#[trigger] leaves(s[i].0)).len() == exp2(s[i].1)
}

pub proof fn lemma_settle_leaves<T>(s: Seq<(Tree<T>, nat)>, t: Tree<T>, r: nat)
    requires
        sizes_match_ranks(s),
        leaves(t).len() == exp2(r),
    ensures
        flatten(settle(s, t, r)) == flatten(s) + leaves(t),
        sizes_match_ranks(settle(s, t, r)),
    decreases s.len(),
{
    if s.len() > 0 && s.last().1 == r {
        let p = s.drop_last();
        let n = Tree::Node(Box::new(s.last().0), Box::new(t));
        assert forall|i: int| 0 <= i < p.len() implies (#[trigger] leaves(p[i].0)).len() == exp2(
            p[i].1,
        ) by {
            assert(p[i] == s[i]);
        }
        assert(leaves(s[s.len() - 1].0).len() == exp2(s[s.len() - 1].1));
        lemma_settle_leaves(p, n, r + 1);
        assert(flatten(p) + leaves(n) =~= flatten(s) + leaves(t));
    } else {
        let q = s.push((t, r));
        assert(q.drop_last() =~= s);
        assert forall|i: int| 0 <= i < q.len() implies (#[trigger] leaves(q[i].0)).len() == exp2(
            q[i].1,
        ) by {
            if i < s.len() {
                assert(q[i] == s[i]);
            }
        }
    }
}

/// After any sequence of pushes, the entries hold the pushed values in the
/// order they were pushed, and an entry of rank `r` holds exactly `2^r` of them.
pub proof fn lemma_stack_leaves<T>(vals: Seq<T>)
    ensures
        flatten(stack_of(vals)) == vals,
        sizes_match_ranks(stack_of(vals)),
    decreases vals.len(),
{
    if vals.len() > 0 {
        lemma_stack_leaves(vals.drop_last());
        lemma_settle_leaves(stack_of(vals.drop_last()), Tree::Leaf(vals.last()), 0);
        assert(vals.drop_last() + seq![vals.last()] =~= vals);
    } else {
        assert(flatten(stack_of(vals)) =~= vals);
    }
}

/// With a functional combiner, a tree evaluates to at most one value.
pub proof fn lemma_evaluation_unique<T, F: Fn(T, T) -> T>(f: F, t: Tree<T>, v1: T, v2: T)
    requires
        is_functional(f),
        evaluates_to(f, t, v1),
        evaluates_to(f, t, v2),
    ensures
        v1 == v2,
    decreases t,
{
    if let Tree::Node(l, r) = t {
        let (a1, b1) = choose|a: T, b: T|
            evaluates_to(f, *l, a) && evaluates_to(f, *r, b) && #[trigger] call_ensures(
                f,
                (a, b),
                v1,
            );
        let (a2, b2) = choose|a: T, b: T|
            evaluates_to(f, *l, a) && evaluates_to(f, *r, b) && #[trigger] call_ensures(
                f,
                (a, b),
                v2,
            );
        lemma_evaluation_unique(f, *l, a1, a2);
        lemma_evaluation_unique(f, *r, b1, b2);
    }
}

/// With a functional combiner, the same pushes always fold to the same value.
pub proof fn lemma_fold_deterministic<T, F: Fn(T, T) -> T>(f: F, vals: Seq<T>, v1: T, v2: T)
    requires
        is_functional(f),
        evaluates_to(f, fold_tree(vals), v1),
        evaluates_to(f, fold_tree(vals), v2),
    ensures
        v1 == v2,
{
    lemma_evaluation_unique(f, fold_tree(vals), v1, v2);
}

} // verus!
