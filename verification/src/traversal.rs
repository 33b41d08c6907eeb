//! Concurrency-limited unfolding of an implicit tree into its outputs.
//!
//! An [`Unfold`] turns one input into an output and the inputs of its
//! children; [`bounded_traversal_stream`] drives it over a whole tree
//! through an explicit [`BoundedScheduler`]: a queue of not-yet-started
//! inputs and an admitted set capped at the given bound, so that at most
//! that many unfoldings are ever admitted at once. Each node contributes
//! exactly one output; the first failed unfolding fails the traversal.

use vstd::prelude::*;

use vstd::multiset::Multiset;

verus! {

broadcast use vstd::multiset::group_multiset_axioms;

/// The total weight of a list of inputs under a weight assignment.
pub open spec fn weights_by<In>(f: spec_fn(In) -> nat, s: Seq<In>) -> nat
    decreases s.len(),
{
    if s.len() == 0 {
        0
    } else {
        f(s.first()) + weights_by(f, s.drop_first())
    }
}

/// Splitting off the last element splits the total weight.
pub proof fn lemma_weights_by_last<In>(f: spec_fn(In) -> nat, s: Seq<In>)
    requires
        s.len() > 0,
    ensures
        weights_by(f, s) == weights_by(f, s.drop_last()) + f(s.last()),
    decreases s.len(),
{
    if s.len() == 1 {
        assert(s.drop_first() =~= Seq::<In>::empty());
        assert(s.drop_last() =~= Seq::<In>::empty());
    } else {
        lemma_weights_by_last(f, s.drop_first());
        assert(s.drop_first().drop_last() =~= s.drop_last().drop_first());
        assert(s.drop_first().last() == s.last());
        assert(s.drop_last().first() == s.first());
    }
}

/// Concatenation adds total weights.
pub proof fn lemma_weights_by_concat<In>(f: spec_fn(In) -> nat, a: Seq<In>, b: Seq<In>)
    ensures
        weights_by(f, a + b) == weights_by(f, a) + weights_by(f, b),
    decreases a.len(),
{
    if a.len() == 0 {
        assert(a + b =~= b);
    } else {
        lemma_weights_by_concat(f, a.drop_first(), b);
        assert((a + b).drop_first() =~= a.drop_first() + b);
        assert((a + b).first() == a.first());
    }
}

/// The unfolding of one node of an implicit tree: its output and the
/// inputs of its children, with a weight that bounds the subtree.
pub trait Unfold<In, Out, E>: Sized {
    /// The weight of an input: a bound on the work below it.
    spec fn weight(&self, i: In) -> nat;

    /// The output this input unfolds to.
    spec fn spec_output(&self, i: In) -> Out;

    /// The child inputs this input unfolds to.
    spec fn spec_children(&self, i: In) -> Seq<In>;

    /// The children of an input together weigh less than the input, under
    /// any assignment that agrees with `weight`.
    proof fn child_weights_law(&self, i: In, f: spec_fn(In) -> nat)
        requires
            forall|j: In| #[trigger] f(j) == self.weight(j),
        ensures
            weights_by(f, self.spec_children(i)) < self.weight(i),
    ;

    /// Unfold one input into its output and children.
    fn unfold(&self, i: In) -> (r: Result<(Out, Vec<In>), E>)
        ensures
            r matches Ok((out, children)) ==> out == self.spec_output(i) && children@
                == self.spec_children(i),
    ;
}

/// The outputs of the whole implicit tree below `i`, one per node.
pub open spec fn tree_outputs<In, Out, E, U: Unfold<In, Out, E>>(u: &U, i: In) -> Multiset<Out>
    decreases u.weight(i) + 1nat, 0nat,
{
    Multiset::singleton(u.spec_output(i)).add(
        tree_outputs_seq(u, u.spec_children(i), u.weight(i)),
    )
}

/// The outputs of the trees below each input of a list whose weight lies
/// below the bound `b`.
pub open spec fn tree_outputs_seq<In, Out, E, U: Unfold<In, Out, E>>(
    u: &U,
    s: Seq<In>,
    b: nat,
) -> Multiset<Out>
    decreases b, s.len(),
{
    if s.len() == 0 {
        Multiset::empty()
    } else if u.weight(s.first()) < b {
        tree_outputs(u, s.first()).add(tree_outputs_seq(u, s.drop_first(), b))
    } else {
        tree_outputs_seq(u, s.drop_first(), b)
    }
}

/// The outputs still owed for a list of pending inputs.
pub open spec fn pending_outputs<In, Out, E, U: Unfold<In, Out, E>>(u: &U, s: Seq<In>) -> Multiset<
    Out,
>
    decreases s.len(),
{
    if s.len() == 0 {
        Multiset::empty()
    } else {
        tree_outputs(u, s.first()).add(pending_outputs(u, s.drop_first()))
    }
}

/// The outputs of the whole tree below `i` in depth-first preorder: the
/// node's own output, then each child's subtree in order.
pub open spec fn preorder_outputs<In, Out, E, U: Unfold<In, Out, E>>(u: &U, i: In) -> Seq<Out>
    decreases u.weight(i) + 1nat, 0nat,
{
    seq![u.spec_output(i)] + preorder_outputs_seq(u, u.spec_children(i), u.weight(i))
}

/// The preorder outputs of the trees below each input of a list whose
/// weight lies below the bound `b`.
pub open spec fn preorder_outputs_seq<In, Out, E, U: Unfold<In, Out, E>>(
    u: &U,
    s: Seq<In>,
    b: nat,
) -> Seq<Out>
    decreases b, s.len(),
{
    if s.len() == 0 {
        Seq::empty()
    } else if u.weight(s.first()) < b {
        preorder_outputs(u, s.first()) + preorder_outputs_seq(u, s.drop_first(), b)
    } else {
        preorder_outputs_seq(u, s.drop_first(), b)
    }
}

/// The preorder outputs owed for a list of pending inputs, in order.
pub open spec fn preorder_pending<In, Out, E, U: Unfold<In, Out, E>>(u: &U, s: Seq<In>) -> Seq<
    Out,
>
    decreases s.len(),
{
    if s.len() == 0 {
        Seq::empty()
    } else {
        preorder_outputs(u, s.first()) + preorder_pending(u, s.drop_first())
    }
}

/// The emission order of a stack of pending inputs processed from its
/// back: the last input's whole subtree first.
pub open spec fn stack_outputs<In, Out, E, U: Unfold<In, Out, E>>(u: &U, s: Seq<In>) -> Seq<Out>
    decreases s.len(),
{
    if s.len() == 0 {
        Seq::empty()
    } else {
        preorder_outputs(u, s.last()) + stack_outputs(u, s.drop_last())
    }
}

/// Below a strict bound on its total weight, the bounded form of a list's
/// preorder outputs agrees with the owed preorder outputs.
proof fn lemma_preorder_seq_is_pending<In, Out, E, U: Unfold<In, Out, E>>(
    u: &U,
    f: spec_fn(In) -> nat,
    s: Seq<In>,
    b: nat,
)
    requires
        forall|j: In| #[trigger] f(j) == u.weight(j),
        weights_by(f, s) < b,
    ensures
        preorder_outputs_seq(u, s, b) == preorder_pending(u, s),
    decreases s.len(),
{
    if s.len() > 0 {
        assert(weights_by(f, s) == f(s.first()) + weights_by(f, s.drop_first()));
        lemma_preorder_seq_is_pending(u, f, s.drop_first(), b);
        assert(u.weight(s.first()) < b);
    }
}

/// A tree's preorder outputs are its own output followed by its
/// children's trees' preorder outputs.
proof fn lemma_preorder_unfold<In, Out, E, U: Unfold<In, Out, E>>(
    u: &U,
    f: spec_fn(In) -> nat,
    i: In,
)
    requires
        forall|j: In| #[trigger] f(j) == u.weight(j),
        weights_by(f, u.spec_children(i)) < u.weight(i),
    ensures
        preorder_outputs(u, i) == seq![u.spec_output(i)] + preorder_pending(
            u,
            u.spec_children(i),
        ),
    decreases u.weight(i),
{
    lemma_preorder_seq_is_pending(u, f, u.spec_children(i), u.weight(i));
}

/// Appending a list's reverse to a stack owes that list's preorder
/// outputs, in the list's own order, before the stack's.
proof fn lemma_stack_outputs_append_rev<In, Out, E, U: Unfold<In, Out, E>>(
    u: &U,
    a: Seq<In>,
    ch: Seq<In>,
)
    ensures
        stack_outputs(u, a + ch.reverse()) == preorder_pending(u, ch) + stack_outputs(u, a),
    decreases ch.len(),
{
    if ch.len() == 0 {
        assert(a + ch.reverse() =~= a);
        assert(preorder_pending(u, ch) + stack_outputs(u, a) =~= stack_outputs(u, a));
    } else {
        let c0 = ch.first();
        let rest = ch.drop_first();
        assert(ch.reverse() =~= rest.reverse().push(c0));
        assert(a + ch.reverse() =~= (a + rest.reverse()).push(c0));
        assert((a + rest.reverse()).push(c0).last() == c0);
        assert((a + rest.reverse()).push(c0).drop_last() =~= a + rest.reverse());
        lemma_stack_outputs_append_rev(u, a, rest);
        assert(stack_outputs(u, a + ch.reverse()) == preorder_outputs(u, c0) + (
        preorder_pending(u, rest) + stack_outputs(u, a)));
        assert(preorder_outputs(u, c0) + (preorder_pending(u, rest) + stack_outputs(u, a))
            =~= (preorder_outputs(u, c0) + preorder_pending(u, rest)) + stack_outputs(u, a));
        assert(preorder_pending(u, ch) == preorder_outputs(u, c0) + preorder_pending(u, rest));
    }
}

/// The work queue of a bounded traversal: inputs not yet admitted and the
/// admitted set, never larger than the configured bound.
pub struct BoundedScheduler<In> {
    unscheduled: Vec<In>,
    scheduled: Vec<In>,
    scheduled_max: usize,
}

impl<In> BoundedScheduler<In> {
    /// The configured bound on admitted inputs.
    pub closed spec fn max(&self) -> nat {
        self.scheduled_max as nat
    }

    /// The inputs not yet admitted.
    pub closed spec fn queued(&self) -> Seq<In> {
        self.unscheduled@
    }

    /// The admitted inputs.
    pub closed spec fn admitted(&self) -> Seq<In> {
        self.scheduled@
    }

    /// The bound is respected: never more admitted inputs than the bound.
    pub open spec fn inv(&self) -> bool {
        self.admitted().len() <= self.max()
    }

    /// A queue holding one root, nothing admitted yet.
    pub fn new(scheduled_max: usize, init: In) -> (r: Self)
        requires
            1 <= scheduled_max,
        ensures
            r.inv(),
            r.max() == scheduled_max,
            r.queued() =~= seq![init],
            r.admitted() =~= Seq::<In>::empty(),
    {
        let mut unscheduled: Vec<In> = Vec::new();
        unscheduled.push(init);
        BoundedScheduler { unscheduled, scheduled: Vec::new(), scheduled_max }
    }

    /// Admit queued inputs while capacity remains; the bound still holds.
    pub fn fill(&mut self)
        requires
            old(self).inv(),
        ensures
            final(self).inv(),
            final(self).max() == old(self).max(),
            final(self).queued().to_multiset().add(final(self).admitted().to_multiset()) == old(
                self,
            ).queued().to_multiset().add(old(self).admitted().to_multiset()),
            final(self).queued().len() + final(self).admitted().len() == old(self).queued().len()
                + old(self).admitted().len(),
            final(self).admitted().len() == final(self).max() || final(self).queued().len() == 0,
            old(self).max() == 1 && old(self).admitted().len() == 0 && old(self).queued().len()
                > 0 ==> final(self).admitted() =~= seq![old(self).queued().last()]
                && final(self).queued() =~= old(self).queued().drop_last(),
    {
        while self.scheduled.len() < self.scheduled_max && self.unscheduled.len() > 0
            invariant
                self.scheduled@.len() <= self.scheduled_max,
                self.scheduled_max == old(self).max(),
                self.unscheduled@.to_multiset().add(self.scheduled@.to_multiset()) == old(
                    self,
                ).queued().to_multiset().add(old(self).admitted().to_multiset()),
                self.unscheduled@.len() + self.scheduled@.len() == old(self).queued().len() + old(
                    self,
                ).admitted().len(),
                old(self).max() == 1 && old(self).admitted().len() == 0 && old(
                    self,
                ).queued().len() > 0 ==> (self.scheduled@ =~= old(self).admitted()
                    && self.unscheduled@ =~= old(self).queued()) || (self.scheduled@ =~= seq![
                    old(self).queued().last(),
                ] && self.unscheduled@ =~= old(self).queued().drop_last()),
            decreases self.unscheduled@.len(),
        {
            let ghost before_u = self.unscheduled@;
            let ghost before_s = self.scheduled@;
            let item = self.unscheduled.pop();
            match item {
                Some(x) => {
                    let ghost xg = x;
                    self.scheduled.push(x);
                    proof {
                        assert(before_u =~= self.unscheduled@.push(xg));
                        assert(self.scheduled@ =~= before_s.push(xg));
                        lemma_to_multiset_push(self.unscheduled@, xg);
                        lemma_to_multiset_push(before_s, xg);
                    }
                },
                None => {
                    proof {
                        assert(false);
                    }
                },
            }
        }
    }

    /// Take one admitted input for unfolding.
    pub fn take_admitted(&mut self) -> (r: Option<In>)
        requires
            old(self).inv(),
        ensures
            final(self).inv(),
            final(self).max() == old(self).max(),
            final(self).queued() == old(self).queued(),
            match r {
                Some(x) => old(self).admitted().len() > 0 && x == old(self).admitted().last()
                    && final(self).admitted() == old(self).admitted().drop_last(),
                None => old(self).admitted().len() == 0 && final(self).admitted() == old(
                    self,
                ).admitted(),
            },
    {
        self.scheduled.pop()
    }

    /// Queue the children discovered by one unfolding, the first child
    /// nearest the taking end, so that a single-slot schedule descends
    /// into children in their given order.
    pub fn queue_children(&mut self, children: Vec<In>)
        requires
            old(self).inv(),
        ensures
            final(self).inv(),
            final(self).max() == old(self).max(),
            final(self).admitted() == old(self).admitted(),
            final(self).queued() =~= old(self).queued() + children@.reverse(),
    {
        let mut children = children;
        let ghost cv = children@;
        proof {
            assert(children@ =~= cv.subrange(0, children@.len() as int));
            assert(cv.subrange(cv.len() as int, cv.len() as int).reverse() =~= Seq::<In>::empty());
            assert(self.unscheduled@ =~= old(self).queued() + cv.subrange(
                cv.len() as int,
                cv.len() as int,
            ).reverse());
        }
        while children.len() > 0
            invariant
                children@.len() <= cv.len(),
                children@ =~= cv.subrange(0, children@.len() as int),
                self.scheduled@ == old(self).admitted(),
                self.scheduled_max == old(self).max(),
                self.scheduled@.len() <= self.scheduled_max,
                self.unscheduled@ =~= old(self).queued() + cv.subrange(
                    children@.len() as int,
                    cv.len() as int,
                ).reverse(),
            decreases children@.len(),
        {
            let ghost before = children@;
            let c = match children.pop() {
                Some(c) => c,
                None => {
                    proof {
                        assert(false);
                    }
                    return ;
                },
            };
            self.unscheduled.push(c);
            proof {
                let k = children@.len() as int;
                let n = cv.len() as int;
                assert(children@ =~= before.drop_last());
                assert forall|t: int| 0 <= t < k implies children@[t] == cv[t] by {
                    assert(before[t] == cv.subrange(0, k + 1)[t]);
                }
                assert(children@ =~= cv.subrange(0, k));
                assert(before.last() == cv.subrange(0, k + 1)[k]);
                assert(before.last() == cv[k]);
                assert(cv.subrange(k, n).reverse() =~= cv.subrange(k + 1, n).reverse().push(
                    cv[k],
                )) by {
                    assert(cv.subrange(k, n).reverse().len() == n - k);
                    assert forall|t: int| 0 <= t < n - k implies cv.subrange(k, n).reverse()[t]
                        == cv.subrange(k + 1, n).reverse().push(cv[k])[t] by {
                        assert(cv.subrange(k, n).reverse()[t] == cv.subrange(k, n)[n - k - 1
                            - t]);
                        assert(cv.subrange(k, n)[n - k - 1 - t] == cv[n - 1 - t]);
                        if t < n - k - 1 {
                            assert(cv.subrange(k + 1, n).reverse()[t] == cv.subrange(k + 1, n)[n
                                - k - 2 - t]);
                            assert(cv.subrange(k + 1, n)[n - k - 2 - t] == cv[n - 1 - t]);
                        }
                    }
                }
                assert(self.unscheduled@ =~= old(self).queued() + cv.subrange(k, n).reverse());
            }
        }
        proof {
            assert(cv.subrange(0, cv.len() as int) =~= cv);
            assert(self.unscheduled@ =~= old(self).queued() + cv.reverse());
        }
    }

    /// True when nothing is queued or admitted.
    pub fn is_done(&self) -> (r: bool)
        ensures
            r == (self.queued().len() == 0 && self.admitted().len() == 0),
    {
        self.unscheduled.len() == 0 && self.scheduled.len() == 0
    }
}

/// Pushing one element adds it to a list's multiset.
pub proof fn lemma_to_multiset_push<In>(s: Seq<In>, x: In)
    ensures
        s.push(x).to_multiset() == s.to_multiset().insert(x),
{
    s.to_multiset_ensures();
}

/// Removing element `k` removes one occurrence from the multiset.
proof fn lemma_to_multiset_remove<In>(s: Seq<In>, k: int)
    requires
        0 <= k < s.len(),
    ensures
        s.remove(k).to_multiset() == s.to_multiset().remove(s[k]),
{
    s.to_multiset_ensures();
}

/// Unfold the whole implicit tree below `init`, keeping at most
/// `scheduled_max` inputs admitted at any point, and hand back one output
/// per node, in an order the scheduling decides. With a single slot the
/// traversal is fully sequential depth-first: the outputs come in
/// preorder, each node before its descendants and each subtree
/// contiguous. The first failed unfolding fails the traversal.
pub fn bounded_traversal_stream<In, Out, E, U: Unfold<In, Out, E>>(
    scheduled_max: usize,
    init: In,
    unfold: &U,
) -> (r: Result<Vec<Out>, E>)
    requires
        1 <= scheduled_max,
    ensures
        r matches Ok(outs) ==> outs@.to_multiset() == tree_outputs(unfold, init),
        scheduled_max == 1 ==> (r matches Ok(outs) ==> outs@ == preorder_outputs(unfold, init)),
{
    let ghost wf: spec_fn(In) -> nat = |j: In| unfold.weight(j);
    let ghost target = tree_outputs(unfold, init);
    let mut sched = BoundedScheduler::new(scheduled_max, init);
    let mut outs: Vec<Out> = Vec::new();
    proof {
        outs@.to_multiset_ensures();
        assert(outs@.to_multiset() =~= Multiset::<Out>::empty());
        lemma_pending_outputs_one(unfold, init);
        assert(sched.queued() + sched.admitted() =~= seq![init]);
        assert(seq![init].drop_last() =~= Seq::<In>::empty());
        assert(seq![init].last() == init);
        assert(sched.queued() =~= seq![init]);
        assert(stack_outputs(unfold, seq![init]) == preorder_outputs(unfold, init)
            + stack_outputs(unfold, seq![init].drop_last()));
        assert(stack_outputs(unfold, Seq::<In>::empty()) == Seq::<Out>::empty());
        assert(outs@ =~= Seq::<Out>::empty());
        assert(preorder_outputs(unfold, init) + Seq::<Out>::empty() =~= preorder_outputs(
            unfold,
            init,
        ));
        assert(Seq::<Out>::empty() + preorder_outputs(unfold, init) =~= preorder_outputs(
            unfold,
            init,
        ));
        assert(outs@ + stack_outputs(unfold, sched.queued()) == preorder_outputs(unfold, init));
    }
    loop
        invariant
            1 <= scheduled_max,
            sched.inv(),
            sched.max() == scheduled_max,
            wf == (|j: In| unfold.weight(j)),
            target == tree_outputs(unfold, init),
            outs@.to_multiset().add(pending_outputs(unfold, sched.queued() + sched.admitted()))
                == target,
            scheduled_max == 1 ==> sched.admitted().len() == 0,
            scheduled_max == 1 ==> outs@ + stack_outputs(unfold, sched.queued())
                == preorder_outputs(unfold, init),
        decreases weights_by(wf, sched.queued() + sched.admitted()),
    {
        if sched.is_done() {
            proof {
                assert(sched.queued() + sched.admitted() =~= Seq::<In>::empty());
                assert(outs@.to_multiset().add(Multiset::<Out>::empty()) =~= outs@.to_multiset());
                if scheduled_max == 1 {
                    assert(sched.queued() =~= Seq::<In>::empty());
                    assert(outs@ + Seq::<Out>::empty() =~= outs@);
                }
            }
            return Ok(outs);
        }
        let ghost bq = sched.queued();
        let ghost ba = sched.admitted();
        let ghost before_pending = bq + ba;
        sched.fill();
        proof {
            vstd::seq_lib::lemma_multiset_commutative(bq, ba);
            vstd::seq_lib::lemma_multiset_commutative(sched.queued(), sched.admitted());
            assert(before_pending.to_multiset() == (sched.queued()
                + sched.admitted()).to_multiset());
            lemma_pending_outputs_permutation(
                unfold,
                before_pending,
                sched.queued() + sched.admitted(),
            );
            lemma_weights_by_permutation(wf, before_pending, sched.queued() + sched.admitted());
        }
        let ghost filled_pending = sched.queued() + sched.admitted();
        let item = match sched.take_admitted() {
            Some(x) => x,
            None => {
                proof {
                    assert(false);
                }
                return Ok(outs);
            },
        };
        let ghost ig = item;
        let ghost after_take = sched.queued() + sched.admitted();
        proof {
            assert(filled_pending.to_multiset() == after_take.to_multiset().insert(ig)) by {
                vstd::seq_lib::lemma_multiset_commutative(sched.queued(), sched.admitted());
                let fq = sched.queued();
                let fa = sched.admitted();
                lemma_to_multiset_push(fa, ig);
                vstd::seq_lib::lemma_multiset_commutative(fq, fa.push(ig));
                assert(fq + fa.push(ig) =~= filled_pending);
                vstd::seq_lib::lemma_multiset_commutative(fq, fa);
            }
        }
        match unfold.unfold(item) {
            Err(e) => {
                return Err(e);
            },
            Ok((out, children)) => {
                let ghost outg = out;
                let ghost chv = children@;
                let ghost q1 = sched.queued();
                let ghost a1 = sched.admitted();
                let ghost outs_before = outs@;
                outs.push(out);
                sched.queue_children(children);
                proof {
                    unfold.child_weights_law(ig, wf);
                    assert(sched.queued() == q1 + chv.reverse());
                    assert(sched.admitted() == a1);
                    assert(after_take =~= q1 + a1);
                    assert((sched.queued() + sched.admitted()).to_multiset()
                        == after_take.to_multiset().add(chv.to_multiset())) by {
                        lemma_queue_children_multiset(
                            sched.queued(),
                            a1,
                            chv.reverse(),
                            after_take,
                        );
                        chv.lemma_reverse_to_multiset();
                    }
                    lemma_loop_step(
                        unfold,
                        wf,
                        filled_pending,
                        after_take,
                        sched.queued() + sched.admitted(),
                        ig,
                        chv,
                    );
                    lemma_to_multiset_push(outs_before, outg);
                    assert(outs@ =~= outs_before.push(outg));
                    let aq = sched.queued() + sched.admitted();
                    assert(outs@.to_multiset().add(pending_outputs(unfold, aq))
                        =~= outs_before.to_multiset().add(
                        Multiset::singleton(outg).add(pending_outputs(unfold, aq)),
                    ));
                    if scheduled_max == 1 {
                        // the single slot took the back of the stack; its
                        // children now sit there in order, so the emission
                        // stays a preorder walk
                        assert(ba =~= Seq::<In>::empty());
                        assert(bq.len() > 0);
                        assert(q1 =~= bq.drop_last());
                        assert(ig == bq.last());
                        lemma_preorder_unfold(unfold, wf, ig);
                        lemma_stack_outputs_append_rev(unfold, q1, chv);
                        assert(stack_outputs(unfold, bq) == preorder_outputs(unfold, ig)
                            + stack_outputs(unfold, q1));
                        assert(preorder_outputs(unfold, ig) == seq![outg] + preorder_pending(
                            unfold,
                            chv,
                        ));
                        assert(stack_outputs(unfold, sched.queued()) == preorder_pending(
                            unfold,
                            chv,
                        ) + stack_outputs(unfold, q1));
                        assert(outs_before + stack_outputs(unfold, bq) == preorder_outputs(
                            unfold,
                            init,
                        ));
                        assert(outs@ =~= outs_before + seq![outg]);
                        assert(outs@ + stack_outputs(unfold, sched.queued()) =~= (outs_before
                            + seq![outg]) + (preorder_pending(unfold, chv) + stack_outputs(
                            unfold,
                            q1,
                        )));
                        assert(outs_before + stack_outputs(unfold, bq) =~= outs_before + ((seq![
                            outg,
                        ] + preorder_pending(unfold, chv)) + stack_outputs(unfold, q1)));
                        assert((outs_before + seq![outg]) + (preorder_pending(unfold, chv)
                            + stack_outputs(unfold, q1)) =~= outs_before + ((seq![outg]
                            + preorder_pending(unfold, chv)) + stack_outputs(unfold, q1)));
                        assert((outs_before + seq![outg]) + (preorder_pending(unfold, chv)
                            + stack_outputs(unfold, q1)) == preorder_outputs(unfold, init));
                        assert(outs@ + stack_outputs(unfold, sched.queued())
                            == preorder_outputs(unfold, init));
                    }
                }
            },
        }
    }
}

/// Appending children to the queue adds their multiset to the pending set.
proof fn lemma_queue_children_multiset<In>(
    new_queued: Seq<In>,
    admitted: Seq<In>,
    children: Seq<In>,
    after_take: Seq<In>,
)
    requires
        exists|old_queued: Seq<In>|
            new_queued == #[trigger] (old_queued + children) && after_take.to_multiset() == (
            old_queued + admitted).to_multiset(),
    ensures
        (new_queued + admitted).to_multiset() == after_take.to_multiset().add(
            children.to_multiset(),
        ),
{
    let old_queued = choose|old_queued: Seq<In>|
        new_queued == #[trigger] (old_queued + children) && after_take.to_multiset() == (old_queued
            + admitted).to_multiset();
    vstd::seq_lib::lemma_multiset_commutative(old_queued, children);
    vstd::seq_lib::lemma_multiset_commutative(old_queued, admitted);
    vstd::seq_lib::lemma_multiset_commutative(new_queued, admitted);
    assert((new_queued + admitted).to_multiset() =~= after_take.to_multiset().add(
        children.to_multiset(),
    ));
}

/// The owed outputs of a single input are its tree's outputs.
proof fn lemma_pending_outputs_one<In, Out, E, U: Unfold<In, Out, E>>(u: &U, i: In)
    ensures
        pending_outputs(u, seq![i]) == tree_outputs(u, i),
{
    assert(seq![i].drop_first() =~= Seq::<In>::empty());
    assert(seq![i].first() == i);
    assert(pending_outputs(u, seq![i].drop_first()) == Multiset::<Out>::empty());
    assert(tree_outputs(u, i).add(Multiset::<Out>::empty()) =~= tree_outputs(u, i));
}

/// The owed outputs of a list do not depend on its order.
proof fn lemma_pending_outputs_permutation<In, Out, E, U: Unfold<In, Out, E>>(
    u: &U,
    a: Seq<In>,
    b: Seq<In>,
)
    requires
        a.to_multiset() == b.to_multiset(),
    ensures
        pending_outputs(u, a) == pending_outputs(u, b),
    decreases a.len(),
{
    a.to_multiset_ensures();
    b.to_multiset_ensures();
    if a.len() == 0 {
        assert(b.len() == 0);
    } else {
        let x = a.first();
        assert(a.to_multiset().contains(x)) by {
            assert(a.contains(x));
        }
        assert(b.to_multiset().contains(x));
        assert(b.contains(x));
        let k = choose|k: int| 0 <= k < b.len() && b[k] == x;
        lemma_to_multiset_remove(b, k);
        lemma_to_multiset_remove(a, 0);
        assert(a.remove(0) =~= a.drop_first());
        lemma_pending_outputs_permutation(u, a.drop_first(), b.remove(k));
        lemma_pending_outputs_extract(u, b, k);
        assert(pending_outputs(u, a) =~= pending_outputs(u, b));
    }
}

/// Removing element `k` takes exactly its tree's outputs away.
proof fn lemma_pending_outputs_extract<In, Out, E, U: Unfold<In, Out, E>>(u: &U, s: Seq<In>, k: int)
    requires
        0 <= k < s.len(),
    ensures
        pending_outputs(u, s) == tree_outputs(u, s[k]).add(pending_outputs(u, s.remove(k))),
    decreases s.len(),
{
    if k == 0 {
        assert(s.remove(0) =~= s.drop_first());
    } else {
        lemma_pending_outputs_extract(u, s.drop_first(), k - 1);
        assert(s.remove(k).drop_first() =~= s.drop_first().remove(k - 1));
        assert(s.remove(k).first() == s.first());
        assert(s.drop_first()[k - 1] == s[k]);
        assert(pending_outputs(u, s) =~= tree_outputs(u, s[k]).add(
            pending_outputs(u, s.remove(k)),
        ));
    }
}

/// Total weight is permutation-invariant.
proof fn lemma_weights_by_permutation<In>(f: spec_fn(In) -> nat, a: Seq<In>, b: Seq<In>)
    requires
        a.to_multiset() == b.to_multiset(),
    ensures
        weights_by(f, a) == weights_by(f, b),
    decreases a.len(),
{
    a.to_multiset_ensures();
    b.to_multiset_ensures();
    if a.len() == 0 {
        assert(b.len() == 0);
    } else {
        let x = a.first();
        assert(a.to_multiset().contains(x)) by {
            assert(a.contains(x));
        }
        assert(b.contains(x));
        let k = choose|k: int| 0 <= k < b.len() && b[k] == x;
        lemma_to_multiset_remove(b, k);
        lemma_to_multiset_remove(a, 0);
        assert(a.remove(0) =~= a.drop_first());
        lemma_weights_by_permutation(f, a.drop_first(), b.remove(k));
        lemma_weights_by_extract(f, b, k);
    }
}

/// Removing element `k` takes exactly its weight away.
proof fn lemma_weights_by_extract<In>(f: spec_fn(In) -> nat, s: Seq<In>, k: int)
    requires
        0 <= k < s.len(),
    ensures
        weights_by(f, s) == f(s[k]) + weights_by(f, s.remove(k)),
    decreases s.len(),
{
    if k == 0 {
        assert(s.remove(0) =~= s.drop_first());
    } else {
        lemma_weights_by_extract(f, s.drop_first(), k - 1);
        assert(s.remove(k).drop_first() =~= s.drop_first().remove(k - 1));
        assert(s.remove(k).first() == s.first());
        assert(s.drop_first()[k - 1] == s[k]);
    }
}

/// One loop step of the traversal: taking one admitted input and queueing
/// its children keeps the owed outputs aligned and shrinks the total
/// weight.
proof fn lemma_loop_step<In, Out, E, U: Unfold<In, Out, E>>(
    u: &U,
    f: spec_fn(In) -> nat,
    before: Seq<In>,
    after_take: Seq<In>,
    after_queue: Seq<In>,
    taken: In,
    children: Seq<In>,
)
    requires
        forall|j: In| #[trigger] f(j) == u.weight(j),
        before.to_multiset() == after_take.to_multiset().insert(taken),
        after_queue.to_multiset() == after_take.to_multiset().add(children.to_multiset()),
        children == u.spec_children(taken),
        weights_by(f, u.spec_children(taken)) < u.weight(taken),
    ensures
        pending_outputs(u, before) == Multiset::singleton(u.spec_output(taken)).add(
            pending_outputs(u, after_queue),
        ),
        weights_by(f, after_queue) < weights_by(f, before),
{
    // the owed outputs, via permutation witnesses
    lemma_to_multiset_push(after_take, taken);
    lemma_pending_outputs_permutation(u, before, after_take.push(taken));
    lemma_pending_outputs_extract(u, after_take.push(taken), after_take.len() as int);
    assert(after_take.push(taken).remove(after_take.len() as int) =~= after_take);
    assert(after_take.push(taken)[after_take.len() as int] == taken);
    vstd::seq_lib::lemma_multiset_commutative(after_take, children);
    lemma_pending_outputs_permutation(u, after_queue, after_take + children);
    lemma_pending_outputs_concat(u, after_take, children);
    lemma_tree_outputs_unfold(u, f, taken);
    assert(pending_outputs(u, before) =~= Multiset::singleton(u.spec_output(taken)).add(
        pending_outputs(u, after_queue),
    ));
    // the total weight, via the same witnesses
    lemma_weights_by_permutation(f, before, after_take.push(taken));
    lemma_weights_by_last(f, after_take.push(taken));
    assert(after_take.push(taken).drop_last() =~= after_take);
    lemma_weights_by_permutation(f, after_queue, after_take + children);
    lemma_weights_by_concat(f, after_take, children);
}

/// Concatenation adds owed outputs.
proof fn lemma_pending_outputs_concat<In, Out, E, U: Unfold<In, Out, E>>(
    u: &U,
    a: Seq<In>,
    b: Seq<In>,
)
    ensures
        pending_outputs(u, a + b) == pending_outputs(u, a).add(pending_outputs(u, b)),
    decreases a.len(),
{
    if a.len() == 0 {
        assert(a + b =~= b);
        assert(pending_outputs(u, a).add(pending_outputs(u, b)) =~= pending_outputs(u, b));
    } else {
        lemma_pending_outputs_concat(u, a.drop_first(), b);
        assert((a + b).drop_first() =~= a.drop_first() + b);
        assert((a + b).first() == a.first());
        assert(pending_outputs(u, a + b) =~= pending_outputs(u, a).add(pending_outputs(u, b)));
    }
}

/// A tree's outputs are its own output plus its children's trees' outputs.
proof fn lemma_tree_outputs_unfold<In, Out, E, U: Unfold<In, Out, E>>(
    u: &U,
    f: spec_fn(In) -> nat,
    i: In,
)
    requires
        forall|j: In| #[trigger] f(j) == u.weight(j),
        weights_by(f, u.spec_children(i)) < u.weight(i),
    ensures
        tree_outputs(u, i) == Multiset::singleton(u.spec_output(i)).add(
            pending_outputs(u, u.spec_children(i)),
        ),
{
    lemma_tree_outputs_seq_is_pending(u, f, u.spec_children(i), u.weight(i));
}

/// Below a strict bound on its total weight, the bounded form of a list's
/// outputs agrees with the owed outputs.
proof fn lemma_tree_outputs_seq_is_pending<In, Out, E, U: Unfold<In, Out, E>>(
    u: &U,
    f: spec_fn(In) -> nat,
    s: Seq<In>,
    b: nat,
)
    requires
        forall|j: In| #[trigger] f(j) == u.weight(j),
        weights_by(f, s) < b,
    ensures
        tree_outputs_seq(u, s, b) == pending_outputs(u, s),
    decreases s.len(),
{
    if s.len() > 0 {
        assert(weights_by(f, s) == f(s.first()) + weights_by(f, s.drop_first()));
        lemma_tree_outputs_seq_is_pending(u, f, s.drop_first(), b);
        assert(u.weight(s.first()) < b);
    }
}


/// An explicit in-memory tree: one value and its subtrees.
pub struct TreeNode {
    /// The value this node yields when unfolded.
    pub value: u64,
    /// The node's subtrees.
    pub children: Vec<TreeNode>,
}

/// The number of nodes of a tree.
pub open spec fn tree_size(t: TreeNode) -> nat
    decreases t,
{
    1 + tree_list_size(t.children@)
}

/// The number of nodes of a list of trees.
pub open spec fn tree_list_size(s: Seq<TreeNode>) -> nat
    decreases s,
{
    if s.len() == 0 {
        0
    } else {
        tree_size(s.first()) + tree_list_size(s.drop_first())
    }
}

/// A weight assignment agreeing with `tree_size` totals to the list size.
proof fn lemma_tree_list_size_weights(f: spec_fn(TreeNode) -> nat, s: Seq<TreeNode>)
    requires
        forall|j: TreeNode| #[trigger] f(j) == tree_size(j),
    ensures
        weights_by(f, s) == tree_list_size(s),
    decreases s.len(),
{
    if s.len() > 0 {
        lemma_tree_list_size_weights(f, s.drop_first());
    }
}

/// The unfolding of an explicit in-memory tree: each node yields its value
/// and hands over its subtrees.
pub struct TreeUnfold;

impl Unfold<TreeNode, u64, ()> for TreeUnfold {
    open spec fn weight(&self, i: TreeNode) -> nat {
        tree_size(i)
    }

    open spec fn spec_output(&self, i: TreeNode) -> u64 {
        i.value
    }

    open spec fn spec_children(&self, i: TreeNode) -> Seq<TreeNode> {
        i.children@
    }

    proof fn child_weights_law(&self, i: TreeNode, f: spec_fn(TreeNode) -> nat) {
        lemma_tree_list_size_weights(f, i.children@);
    }

    fn unfold(&self, i: TreeNode) -> (r: Result<(u64, Vec<TreeNode>), ()>) {
        let TreeNode { value, children } = i;
        Ok((value, children))
    }
}

} // verus!
