use vstd::prelude::*;

use crate::model::{
    carry_tree, evaluates_to, exp2, fold_entries, fold_tree, fold_values, lemma_exp2_monotonic, lemma_rank_bound,
    lemma_stack_ranks_alternate, lemma_stack_weight, lemma_weight_prefix, lemma_weight_zero,
    ranks_alternate, settle, stack_of, total_weight, Tree,
};

verus! {

/// A structure that folds over `T` in a way similar to the game 2048.
///
/// Each pushed `T` enters the stack with rank 0. Whenever the two top entries
/// have the same rank, they are combined with `F` (older first) into one entry
/// of the next rank, so an entry of rank `r` stands for `2^r` pushes.
///
/// `F` does not see the ranks, so combining two values of equal rank is the
/// same call as combining two values of very different ranks.
#[verifier::reject_recursive_types(T)]
#[verifier::reject_recursive_types(F)]
pub struct MergeFold<T, F> where F: Fn(T, T) -> T {
    vec: Vec<(T, u8)>,
    f: F,
    trees: Ghost<Seq<Tree<T>>>,
    pushed: Ghost<Seq<T>>,
}

impl<T, F> MergeFold<T, F> where F: Fn(T, T) -> T {
    /// The values pushed so far, oldest first.
    pub closed spec fn pushed(&self) -> Seq<T> {
        self.pushed@
    }

    /// The combining function.
    pub closed spec fn combiner(&self) -> F {
        self.f
    }

    /// The stack, front first: each entry's tree of pushed values and its rank.
    pub closed spec fn entries(&self) -> Seq<(Tree<T>, nat)> {
        Seq::new(self.vec@.len(), |i: int| (self.trees@[i], self.vec@[i].1 as nat))
    }

    /// The values stored in the stack, front first.
    pub closed spec fn stored(&self) -> Seq<T> {
        Seq::new(self.vec@.len(), |i: int| self.vec@[i].0)
    }

    /// The stack is the one that the pushes build, each stored value is a
    /// result of its tree, and the combiner accepts any two values.
    pub closed spec fn wf(&self) -> bool {
        &&& forall|a: T, b: T| call_requires(self.f, (a, b))
        &&& self.trees@.len() == self.vec@.len()
        &&& self.entries() == stack_of(self.pushed@)
        &&& forall|i: int|
            0 <= i < self.vec@.len() ==> evaluates_to(
                self.f,
                #[trigger] self.trees@[i],
                self.vec@[i].0,
            )
        &&& self.pushed@.len() <= usize::MAX
    }

    /// Creates an empty structure that combines with `fold`.
    pub fn new(fold: F) -> (r: MergeFold<T, F>)
        requires
            forall|a: T, b: T| call_requires(fold, (a, b)),
        ensures
            r.wf(),
            r.pushed() == Seq::<T>::empty(),
            r.entries() == Seq::<(Tree<T>, nat)>::empty(),
            r.stored() == Seq::<T>::empty(),
            r.combiner() == fold,
    {
        let r = MergeFold {
            vec: Vec::new(),
            f: fold,
            trees: Ghost(Seq::empty()),
            pushed: Ghost(Seq::empty()),
        };
        assert(r.entries() =~= Seq::empty());
        assert(r.stored() =~= Seq::empty());
        r
    }

    /// Counts the number of pushes done, as the sum of `2^rank` over the entries.
    pub fn count(&self) -> (r: usize)
        requires
            self.wf(),
        ensures
            r == self.pushed().len(),
            r == total_weight(self.entries()),
    {
        let ghost s = self.entries();
        proof {
            lemma_stack_weight(self.pushed@);
        }
        let mut total: usize = 0;
        let mut i: usize = 0;
        while i < self.vec.len()
            invariant
                self.wf(),
                s == self.entries(),
                total_weight(s) == self.pushed@.len(),
                i <= self.vec@.len(),
                total == total_weight(s.take(i as int)),
            decreases self.vec@.len() - i,
        {
            proof {
                lemma_weight_prefix(s, i as int);
                lemma_weight_prefix(s, i as int + 1);
            }
            let rank = self.vec[i].1;
            total = total + rank_weight(rank);
            i = i + 1;
        }
        proof {
            assert(s.take(i as int) =~= s);
        }
        total
    }

    /// Pushes `value` at rank 0, merging equal-rank entries at the top.
    pub fn push(&mut self, value: T)
        requires
            old(self).wf(),
            old(self).pushed().len() < usize::MAX,
        ensures
            final(self).wf(),
            final(self).pushed() == old(self).pushed().push(value),
            final(self).combiner() == old(self).combiner(),
            final(self).entries() == stack_of(final(self).pushed()),
            ranks_alternate(final(self).entries()),
            final(self).stored().len() == final(self).entries().len(),
            forall|i: int|
                0 <= i < final(self).stored().len() ==> evaluates_to(
                    final(self).combiner(),
                    #[trigger] final(self).entries()[i].0,
                    final(self).stored()[i],
                ),
            1 <= final(self).stored().len() <= old(self).stored().len() + 1,
            forall|i: int|
                0 <= i < final(self).stored().len() - 1 ==> #[trigger] final(self).stored()[i]
                    == old(self).stored()[i],
            final(self).entries().last().1 + final(self).stored().len() == old(
                self,
            ).stored().len() + 1,
            evaluates_to(
                final(self).combiner(),
                carry_tree(
                    old(self).stored(),
                    (old(self).stored().len() + 1 - final(self).stored().len()) as nat,
                    value,
                ),
                final(self).stored().last(),
            ),
    {
        let ghost vals = self.pushed@.push(value);
        let ghost old_vec = self.vec@;
        let ghost old_vs = self.stored();
        let ghost v0 = value;
        proof {
            assert(vals.drop_last() =~= self.pushed@);
            lemma_stack_weight(self.pushed@);
            lemma_stack_ranks_alternate(vals);
        }
        let mut value = value;
        let mut rank: u8 = 0;
        let ghost mut tree = Tree::Leaf(value);
        while self.vec.len() > 0 && self.vec[self.vec.len() - 1].1 == rank
            invariant
                self.f == old(self).f,
                self.pushed == old(self).pushed,
                forall|a: T, b: T| call_requires(self.f, (a, b)),
                self.trees@.len() == self.vec@.len(),
                forall|i: int|
                    0 <= i < self.vec@.len() ==> evaluates_to(
                        self.f,
                        #[trigger] self.trees@[i],
                        self.vec@[i].0,
                    ),
                evaluates_to(self.f, tree, value),
                settle(self.entries(), tree, rank as nat) == stack_of(vals),
                total_weight(self.entries()) + exp2(rank as nat) == vals.len(),
                vals.len() <= usize::MAX,
                self.vec@.len() <= old_vec.len(),
                rank as nat == old_vec.len() - self.vec@.len(),
                forall|i: int| 0 <= i < self.vec@.len() ==> #[trigger] self.vec@[i] == old_vec[i],
                old_vs.len() == old_vec.len(),
                forall|i: int| 0 <= i < old_vec.len() ==> #[trigger] old_vs[i] == old_vec[i].0,
                evaluates_to(self.f, carry_tree(old_vs, rank as nat, v0), value),
            decreases self.vec@.len(),
        {
            let ghost s = self.entries();
            let ghost older = self.trees@.last();
            let ghost newer = tree;
            proof {
                assert(s.last() == (older, rank as nat));
                assert(settle(s, newer, rank as nat) == settle(
                    s.drop_last(),
                    Tree::Node(Box::new(older), Box::new(newer)),
                    rank as nat + 1,
                ));
                assert(exp2(rank as nat + 1) == 2 * exp2(rank as nat));
            }
            let (last_value, _) = self.vec.pop().unwrap();
            proof {
                assert(self.entries() =~= s.drop_last());
                lemma_rank_bound(rank as nat + 1);
            }
            self.trees = Ghost(self.trees@.drop_last());
            let ghost a = last_value;
            let ghost b = value;
            let ghost j = self.vec@.len() as int;
            value = (self.f)(last_value, value);
            proof {
                assert(a == old_vs[old_vs.len() - (rank as nat + 1)]);
                assert(evaluates_to(self.f, Tree::Leaf(a), a));
                assert(evaluates_to(
                    self.f,
                    carry_tree(old_vs, rank as nat + 1, v0),
                    value,
                ));
                tree = Tree::Node(Box::new(older), Box::new(tree));
                assert(evaluates_to(self.f, older, a));
                assert(evaluates_to(self.f, tree, value));
            }
            rank = rank + 1;
            proof {
                assert(self.entries() =~= s.drop_last());
            }
        }
        let ghost s = self.entries();
        self.vec.push((value, rank));
        self.trees = Ghost(self.trees@.push(tree));
        self.pushed = Ghost(vals);
        proof {
            assert(self.entries() =~= s.push((tree, rank as nat)));
        }
    }

    /// In a well-formed structure, each stored value is what the combiner
    /// gives on the tree of its entry.
    pub proof fn lemma_stored_values(&self)
        requires
            self.wf(),
        ensures
            self.stored().len() == self.entries().len(),
            forall|i: int|
                0 <= i < self.stored().len() ==> evaluates_to(
                    self.combiner(),
                    #[trigger] self.entries()[i].0,
                    self.stored()[i],
                ),
    {
    }

    /// Folds the whole stack, newest entry first: the newest value seeds the
    /// result, and each older value is combined in as the second argument.
    /// Gives `None` when nothing was pushed.
    pub fn fold(self) -> (r: Option<T>)
        requires
            self.wf(),
        ensures
            r is None <==> self.pushed().len() == 0,
            r matches Some(v) ==> evaluates_to(self.combiner(), fold_tree(self.pushed()), v),
            self.pushed().len() == 1 ==> r == Some(self.pushed()[0]),
            r is None <==> self.stored().len() == 0,
            r matches Some(v) ==> evaluates_to(self.combiner(), fold_values(self.stored()), v),
            self.stored().len() == 1 ==> r == Some(self.stored()[0]),
    {
        let ghost s = self.entries();
        let ghost vs = self.stored();
        let ghost f0 = self.f;
        proof {
            lemma_stack_weight(self.pushed@);
            lemma_weight_zero(s);
        }
        let MergeFold { vec, f, trees, pushed } = self;
        let mut vec = vec;
        let ghost k = vec@.len() as int;
        let ghost trees0 = trees@;
        let ghost vec0 = vec@;
        let first = vec.pop();
        let mut acc = match first {
            Some(e) => e.0,
            None => {
                return None;
            },
        };
        proof {
            let rest = s.subrange(k - 1, k);
            assert(rest.len() == 1);
            assert(rest[0] == s[k - 1]);
            assert(evaluates_to(f, trees0[k - 1], vec0[k - 1].0));
            assert(vs.subrange(k - 1, k)[0] == vec0[k - 1].0);
        }
        while vec.len() > 0
            invariant
                f == f0,
                forall|a: T, b: T| call_requires(f, (a, b)),
                s.len() == k,
                k == trees0.len(),
                k == vec0.len(),
                0 <= vec@.len() < k,
                forall|i: int| 0 <= i < vec@.len() ==> #[trigger] vec@[i] == vec0[i],
                forall|i: int|
                    0 <= i < k ==> #[trigger] s[i] == (trees0[i], vec0[i].1 as nat),
                forall|i: int|
                    0 <= i < k ==> evaluates_to(f, #[trigger] trees0[i], vec0[i].0),
                evaluates_to(f, fold_entries(s.subrange(vec@.len() as int, k)), acc),
                vs.len() == k,
                forall|i: int| 0 <= i < k ==> #[trigger] vs[i] == vec0[i].0,
                evaluates_to(f, fold_values(vs.subrange(vec@.len() as int, k)), acc),
            decreases vec@.len(),
        {
            let ghost j = vec@.len() - 1;
            let ghost before = acc;
            let (next, _) = vec.pop().unwrap();
            let ghost nv = next;
            acc = f(acc, next);
            proof {
                let sub = s.subrange(j, k);
                assert(sub.drop_first() =~= s.subrange(j + 1, k));
                assert(nv == vec0[j].0);
                assert(evaluates_to(f, trees0[j], nv));
                assert(sub[0].0 == trees0[j]);
                assert(evaluates_to(f, fold_entries(sub), acc));
                let vsub = vs.subrange(j, k);
                assert(vsub.drop_first() =~= vs.subrange(j + 1, k));
                assert(vsub[0] == nv);
                assert(evaluates_to(f, Tree::Leaf(nv), nv));
                assert(evaluates_to(f, fold_values(vsub), acc));
            }
        }
        proof {
            assert(s.subrange(0, k) =~= s);
            assert(vs.subrange(0, k) =~= vs);
            if pushed@.len() == 1 {
                assert(pushed@.drop_last() =~= Seq::<T>::empty());
                assert(stack_of(Seq::<T>::empty()) =~= Seq::empty());
                assert(settle(Seq::empty(), Tree::Leaf(pushed@[0]), 0) =~= seq![
                    (Tree::Leaf(pushed@[0]), 0nat),
                ]);
                assert(stack_of(pushed@) =~= seq![(Tree::Leaf(pushed@[0]), 0nat)]);
            }
        }
        Some(acc)
    }
}

/// `2^rank`, the number of pushes that an entry of rank `rank` stands for.
fn rank_weight(rank: u8) -> (r: usize)
    requires
        exp2(rank as nat) <= usize::MAX,
    ensures
        r == exp2(rank as nat),
{
    let mut p: usize = 1;
    let mut j: u8 = 0;
    while j < rank
        invariant
            j <= rank,
            p == exp2(j as nat),
            exp2(rank as nat) <= usize::MAX,
        decreases rank - j,
    {
        proof {
            lemma_exp2_monotonic(j as nat + 1, rank as nat);
        }
        p = p * 2;
        j = j + 1;
    }
    p
}

} // verus!
