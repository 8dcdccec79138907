//! Dataflow combinators for the staged indexing pipeline.
//!
//! * `OffThreadExt` — the off-thread adapter.  At runtime the adapter hands a
//!   stage's items to a dedicated worker over a bounded channel; its whole
//!   observable contract is that the consumer sees the same items in the same
//!   order, which is what the verified sequence-level form states.  The
//!   thread and channel plumbing lives with the program driver, outside the
//!   verified core.
//! * `ErrorsTo` — the error side-channel: failures are forwarded to a shared
//!   sink exactly once, successful values continue in their original order.
//! * `ConditionAccmulator` — the threshold accumulator: a fold whose state is
//!   emitted and reset whenever a caller-supplied predicate fires, with a
//!   guaranteed flush of the final partial state at end of input.

use vstd::prelude::*;

verus! {

/// What the threshold accumulator yields at each step: either a flushed
/// accumulator value, or a marker saying "still accumulating".
#[derive(Debug)]
pub enum AccValue<T> {
    Empty,
    Value(T),
}

/// A fold-with-early-emit step function, together with the mathematical
/// model that its contract is stated over.
///
/// `step` must fold the item into the accumulator and, exactly when the
/// triggering predicate fires on the combined value, move the accumulator out
/// (leaving a fresh empty one behind) and return it.
pub trait Reducer<T>: Sized {
    /// The mathematical content of an accumulator value.
    type Model;

    /// The model of a carried value.
    spec fn model_of(&self, t: T) -> Self::Model;

    /// Well-formedness of a carried value.
    spec fn inv(&self, t: T) -> bool;

    /// How folding an item into an accumulator combines their models.
    spec fn combine(&self, a: Self::Model, b: Self::Model) -> Self::Model;

    /// The triggering predicate, decided on the combined model.
    spec fn fires(&self, m: Self::Model) -> bool;

    /// The model of a fresh accumulator.
    spec fn empty_model(&self) -> Self::Model;

    /// A fresh accumulator value.
    fn fresh(&self) -> (t: T)
        ensures
            self.inv(t),
            self.model_of(t) == self.empty_model(),
    ;

    /// One fold step: combine `item` into `acc`; emit and reset exactly when
    /// the predicate fires on the combined value.
    fn step(&self, acc: &mut T, item: T) -> (r: Option<T>)
        requires
            self.inv(*old(acc)),
            self.inv(item),
        ensures
            self.inv(*final(acc)),
            ({
                let c = self.combine(self.model_of(*old(acc)), self.model_of(item));
                if self.fires(c) {
                    r matches Some(v) && self.inv(v) && self.model_of(v) == c && self.model_of(
                        *final(acc),
                    ) == self.empty_model()
                } else {
                    r is None && self.model_of(*final(acc)) == c
                }
            }),
    ;
}

/// The models of a sequence of carried values.
pub open spec fn models<T, R: Reducer<T>>(r: R, s: Seq<T>) -> Seq<R::Model> {
    s.map_values(|t: T| r.model_of(t))
}

/// Every value of the sequence is well formed.
pub open spec fn items_inv<T, R: Reducer<T>>(r: R, s: Seq<T>) -> bool {
    forall|i: int| 0 <= i < s.len() ==> r.inv(#[trigger] s[i])
}

/// The exact sequence the threshold accumulator yields on input `s`, starting
/// from an accumulator with model `acc`: one `AccValue` per input item, and a
/// final forced flush whenever the last step did not itself emit.
pub open spec fn outputs<T, R: Reducer<T>>(r: R, acc: R::Model, s: Seq<R::Model>) -> Seq<
    AccValue<R::Model>,
>
    decreases s.len(),
{
    if s.len() == 0 {
        seq![AccValue::Value(acc)]
    } else {
        let c = r.combine(acc, s[0]);
        if s.len() == 1 {
            seq![AccValue::Value(c)]
        } else if r.fires(c) {
            seq![AccValue::Value(c)] + outputs(r, r.empty_model(), s.drop_first())
        } else {
            seq![AccValue::Empty] + outputs(r, c, s.drop_first())
        }
    }
}

/// The emitted values of an output sequence, markers filtered out.
pub open spec fn emitted_models<M>(outs: Seq<AccValue<M>>) -> Seq<M>
    decreases outs.len(),
{
    if outs.len() == 0 {
        Seq::empty()
    } else {
        let rest = emitted_models(outs.drop_first());
        match outs[0] {
            AccValue::Value(m) => seq![m] + rest,
            AccValue::Empty => rest,
        }
    }
}

/// Folding a sequence of models from a seed.
pub open spec fn fold_combine<T, R: Reducer<T>>(r: R, acc: R::Model, s: Seq<R::Model>) -> R::Model
    decreases s.len(),
{
    if s.len() == 0 {
        acc
    } else {
        fold_combine(r, r.combine(acc, s[0]), s.drop_first())
    }
}

/// The reducer's combine operation is associative on models.
pub open spec fn combine_assoc<T, R: Reducer<T>>(r: R) -> bool {
    forall|a: R::Model, b: R::Model, c: R::Model|
        #[trigger] r.combine(r.combine(a, b), c) == r.combine(a, r.combine(b, c))
}

/// The model of a fresh accumulator is a two-sided identity for combine.
pub open spec fn combine_identity<T, R: Reducer<T>>(r: R) -> bool {
    &&& forall|m: R::Model| #[trigger] r.combine(r.empty_model(), m) == m
    &&& forall|m: R::Model| #[trigger] r.combine(m, r.empty_model()) == m
}

pub proof fn lemma_fold_combine_push<T, R: Reducer<T>>(
    r: R,
    acc: R::Model,
    s: Seq<R::Model>,
    m: R::Model,
)
    ensures
        fold_combine(r, acc, s.push(m)) == r.combine(fold_combine(r, acc, s), m),
    decreases s.len(),
{
    if s.len() == 0 {
        assert(s.push(m)[0] == m);
        assert(s.push(m).drop_first() =~= Seq::<R::Model>::empty());
        lemma_fold_empty(r, r.combine(acc, m));
    } else {
        assert(s.push(m)[0] == s[0]);
        assert(s.push(m).drop_first() =~= s.drop_first().push(m));
        lemma_fold_combine_push(r, r.combine(acc, s[0]), s.drop_first(), m);
    }
}

proof fn lemma_fold_empty<T, R: Reducer<T>>(r: R, acc: R::Model)
    ensures
        fold_combine(r, acc, Seq::<R::Model>::empty()) == acc,
{
}

proof fn lemma_fold_single<T, R: Reducer<T>>(r: R, acc: R::Model, m: R::Model)
    ensures
        fold_combine(r, acc, seq![m]) == r.combine(acc, m),
{
    let s = seq![m];
    assert(s.drop_first() =~= Seq::<R::Model>::empty());
    lemma_fold_empty(r, r.combine(acc, m));
    assert(fold_combine(r, acc, s) == fold_combine(r, r.combine(acc, s[0]), s.drop_first()));
}

proof fn lemma_emitted_empty<M>()
    ensures
        emitted_models(Seq::<AccValue<M>>::empty()) == Seq::<M>::empty(),
{
}

proof fn lemma_emitted_cons<M>(av: AccValue<M>, rest: Seq<AccValue<M>>)
    ensures
        emitted_models(seq![av] + rest) == match av {
            AccValue::Value(m) => seq![m] + emitted_models(rest),
            AccValue::Empty => emitted_models(rest),
        },
{
    let outs = seq![av] + rest;
    assert(outs.len() > 0);
    assert(outs[0] == av);
    assert(outs.drop_first() =~= rest);
}

proof fn lemma_emitted_single_value<M>(m: M)
    ensures
        emitted_models(seq![AccValue::Value(m)]) == seq![m],
{
    lemma_emitted_empty::<M>();
    lemma_emitted_cons(AccValue::Value(m), Seq::<AccValue<M>>::empty());
    assert(seq![AccValue::Value(m)] + Seq::<AccValue<M>>::empty() =~= seq![
        AccValue::Value(m),
    ]);
    assert(seq![m] + Seq::<M>::empty() =~= seq![m]);
}

proof fn lemma_flatten_cons<A>(x: Seq<A>, rest: Seq<Seq<A>>)
    ensures
        (seq![x] + rest).flatten() == x + rest.flatten(),
{
    let s = seq![x] + rest;
    assert(s.len() > 0);
    assert(s.first() == x);
    assert(s.drop_first() =~= rest);
}

/// Folding from a seed equals combining the seed with the fold from empty.
pub proof fn lemma_fold_combine_from<T, R: Reducer<T>>(r: R, acc: R::Model, s: Seq<R::Model>)
    requires
        combine_assoc(r),
        combine_identity(r),
    ensures
        fold_combine(r, acc, s) == r.combine(acc, fold_combine(r, r.empty_model(), s)),
    decreases s.len(),
{
    if s.len() == 0 {
    } else {
        let c = r.combine(acc, s[0]);
        lemma_fold_combine_from(r, c, s.drop_first());
        lemma_fold_combine_from(r, s[0], s.drop_first());
        assert(fold_combine(r, r.empty_model(), s) == fold_combine(r, s[0], s.drop_first()));
    }
}

/// If the triggering predicate never fires, exactly one value is emitted, at
/// end of input, and it is the fold of the whole sequence.
pub proof fn lemma_flush_without_fire<T, R: Reducer<T>>(r: R, acc: R::Model, s: Seq<R::Model>)
    requires
        forall|i: int|
            1 <= i <= s.len() ==> !r.fires(#[trigger] fold_combine(r, acc, s.take(i))),
    ensures
        emitted_models(outputs(r, acc, s)) == seq![fold_combine(r, acc, s)],
    decreases s.len(),
{
    if s.len() == 0 {
        lemma_emitted_single_value(acc);
    } else {
        let c = r.combine(acc, s[0]);
        assert(s.take(1)[0] == s[0]);
        assert(s.take(1).drop_first() =~= Seq::<R::Model>::empty());
        lemma_fold_empty(r, c);
        assert(fold_combine(r, acc, s.take(1)) == fold_combine(
            r,
            r.combine(acc, s.take(1)[0]),
            s.take(1).drop_first(),
        ));
        assert(!r.fires(c)) by {
            assert(!r.fires(fold_combine(r, acc, s.take(1))));
        }
        if s.len() == 1 {
            assert(s.take(1) =~= s);
            lemma_emitted_single_value(c);
        } else {
            let rest = s.drop_first();
            assert forall|i: int| 1 <= i <= rest.len() implies !r.fires(
                #[trigger] fold_combine(r, c, rest.take(i)),
            ) by {
                assert(s.take(i + 1)[0] == s[0]);
                assert(s.take(i + 1).drop_first() =~= rest.take(i));
                assert(fold_combine(r, acc, s.take(i + 1)) == fold_combine(
                    r,
                    r.combine(acc, s.take(i + 1)[0]),
                    s.take(i + 1).drop_first(),
                ));
                assert(!r.fires(fold_combine(r, acc, s.take(i + 1))));
            }
            lemma_flush_without_fire(r, c, rest);
            let sub_outs = outputs(r, c, rest);
            assert(outputs(r, acc, s) == seq![AccValue::<R::Model>::Empty] + sub_outs);
            lemma_emitted_cons(AccValue::<R::Model>::Empty, sub_outs);
        }
    }
}

/// Whether `parts` partitions `s` into the consecutive chunks whose folds are
/// exactly the emitted values: the first chunk folds from the seed, every
/// later chunk from a fresh accumulator.
pub open spec fn chunk_folds_ok<T, R: Reducer<T>>(
    r: R,
    seed: R::Model,
    s: Seq<R::Model>,
    parts: Seq<Seq<R::Model>>,
    emitted: Seq<R::Model>,
) -> bool {
    &&& parts.len() == emitted.len()
    &&& parts.flatten() == s
    &&& emitted.len() >= 1
    &&& emitted[0] == fold_combine(r, seed, parts[0])
    &&& forall|i: int|
        1 <= i < parts.len() ==> emitted[i] == fold_combine(
            r,
            r.empty_model(),
            #[trigger] parts[i],
        )
}

/// For any finite input and any reducer, the emitted values are the folds of
/// a partition of the input into consecutive chunks: no item is counted
/// twice, and none is dropped.
pub proof fn lemma_emitted_values_partition<T, R: Reducer<T>>(
    r: R,
    seed: R::Model,
    s: Seq<R::Model>,
) -> (parts: Seq<Seq<R::Model>>)
    ensures
        chunk_folds_ok(r, seed, s, parts, emitted_models(outputs(r, seed, s))),
    decreases s.len(),
{
    if s.len() == 0 {
        let parts = seq![Seq::<R::Model>::empty()];
        lemma_flatten_cons(Seq::<R::Model>::empty(), Seq::<Seq<R::Model>>::empty());
        assert(seq![Seq::<R::Model>::empty()] + Seq::<Seq<R::Model>>::empty() =~= parts);
        assert(Seq::<Seq<R::Model>>::empty().flatten() =~= Seq::<R::Model>::empty());
        assert(parts.flatten() =~= s);
        lemma_emitted_single_value(seed);
        lemma_fold_empty(r, seed);
        parts
    } else {
        let c = r.combine(seed, s[0]);
        let head = seq![s[0]];
        lemma_fold_single(r, seed, s[0]);
        if s.len() == 1 {
            let parts = seq![s];
            lemma_flatten_cons(s, Seq::<Seq<R::Model>>::empty());
            assert(seq![s] + Seq::<Seq<R::Model>>::empty() =~= parts);
            assert(Seq::<Seq<R::Model>>::empty().flatten() =~= Seq::<R::Model>::empty());
            assert(parts.flatten() =~= s);
            assert(s =~= head);
            lemma_emitted_single_value(c);
            parts
        } else {
            let rest = s.drop_first();
            if r.fires(c) {
                let sub = lemma_emitted_values_partition(r, r.empty_model(), rest);
                let parts = seq![head] + sub;
                let sub_outs = outputs(r, r.empty_model(), rest);
                assert(outputs(r, seed, s) == seq![AccValue::<R::Model>::Value(c)] + sub_outs);
                lemma_emitted_cons(AccValue::<R::Model>::Value(c), sub_outs);
                lemma_flatten_cons(head, sub);
                assert(head + sub.flatten() =~= s);
                let emitted = emitted_models(outputs(r, seed, s));
                assert(emitted == seq![c] + emitted_models(sub_outs));
                assert(parts[0] == head);
                assert forall|i: int| 1 <= i < parts.len() implies emitted[i] == fold_combine(
                    r,
                    r.empty_model(),
                    #[trigger] parts[i],
                ) by {
                    assert(parts[i] == sub[i - 1]);
                    assert(emitted[i] == emitted_models(sub_outs)[i - 1]);
                    if i - 1 == 0 {
                        assert(emitted_models(sub_outs)[0] == fold_combine(
                            r,
                            r.empty_model(),
                            sub[0],
                        ));
                    }
                }
                parts
            } else {
                let sub = lemma_emitted_values_partition(r, c, rest);
                let first = head + sub[0];
                let parts = seq![first] + sub.drop_first();
                let sub_outs = outputs(r, c, rest);
                assert(outputs(r, seed, s) == seq![AccValue::<R::Model>::Empty] + sub_outs);
                lemma_emitted_cons(AccValue::<R::Model>::Empty, sub_outs);
                let emitted = emitted_models(outputs(r, seed, s));
                assert(emitted == emitted_models(sub_outs));
                assert(first[0] == s[0]);
                assert(first.drop_first() =~= sub[0]);
                assert(fold_combine(r, seed, first) == fold_combine(
                    r,
                    r.combine(seed, first[0]),
                    first.drop_first(),
                ));
                lemma_flatten_cons(first, sub.drop_first());
                lemma_flatten_cons(sub[0], sub.drop_first());
                assert(seq![sub[0]] + sub.drop_first() =~= sub);
                assert(first + sub.drop_first().flatten() =~= head + (sub[0]
                    + sub.drop_first().flatten()));
                assert(head + sub.flatten() =~= s);
                assert(parts.flatten() =~= s);
                assert forall|i: int| 1 <= i < parts.len() implies emitted[i] == fold_combine(
                    r,
                    r.empty_model(),
                    #[trigger] parts[i],
                ) by {
                    assert(parts[i] == sub[i]);
                }
                parts
            }
        }
    }
}

/// For a reducer whose combine is associative with a fresh accumulator as
/// identity, folding the emitted values together re-yields the fold of the
/// whole input.
pub proof fn lemma_emitted_fold<T, R: Reducer<T>>(r: R, acc: R::Model, s: Seq<R::Model>)
    requires
        combine_assoc(r),
        combine_identity(r),
    ensures
        fold_combine(r, r.empty_model(), emitted_models(outputs(r, acc, s))) == fold_combine(
            r,
            acc,
            s,
        ),
    decreases s.len(),
{
    if s.len() == 0 {
        lemma_emitted_single_value(acc);
        lemma_fold_single(r, r.empty_model(), acc);
    } else {
        let c = r.combine(acc, s[0]);
        let rest = s.drop_first();
        if s.len() == 1 {
            lemma_emitted_single_value(c);
            lemma_fold_single(r, r.empty_model(), c);
            lemma_fold_empty(r, c);
            assert(fold_combine(r, acc, s) == fold_combine(r, c, rest));
            assert(rest =~= Seq::<R::Model>::empty());
        } else if r.fires(c) {
            let sub_outs = outputs(r, r.empty_model(), rest);
            assert(outputs(r, acc, s) == seq![AccValue::<R::Model>::Value(c)] + sub_outs);
            lemma_emitted_cons(AccValue::<R::Model>::Value(c), sub_outs);
            let sub = emitted_models(sub_outs);
            let e = seq![c] + sub;
            assert(e[0] == c);
            assert(e.drop_first() =~= sub);
            assert(fold_combine(r, r.empty_model(), e) == fold_combine(
                r,
                r.combine(r.empty_model(), c),
                e.drop_first(),
            ));
            lemma_emitted_fold(r, r.empty_model(), rest);
            lemma_fold_combine_from(r, c, sub);
            lemma_fold_combine_from(r, c, rest);
        } else {
            let sub_outs = outputs(r, c, rest);
            assert(outputs(r, acc, s) == seq![AccValue::<R::Model>::Empty] + sub_outs);
            lemma_emitted_cons(AccValue::<R::Model>::Empty, sub_outs);
            lemma_emitted_fold(r, c, rest);
        }
    }
}

/// Whether an output item carries the given model.
pub open spec fn out_matches<T, R: Reducer<T>>(
    r: R,
    av: AccValue<T>,
    m: AccValue<R::Model>,
) -> bool {
    match av {
        AccValue::Empty => m is Empty,
        AccValue::Value(v) => m matches AccValue::Value(mv) && r.inv(v) && r.model_of(v) == mv,
    }
}

/// The threshold accumulator: folds its input into `acc` one item at a time,
/// emitting and resetting whenever the reducer's predicate fires.  A one-item
/// lookahead (`current`) detects end of input before the step that consumes
/// the last item, so the final partial state is flushed rather than dropped.
pub struct ConditionAccmulator<R: Reducer<T>, T> {
    input: Vec<T>,
    acc: T,
    done: bool,
    current: Option<T>,
    reducer: R,
}

impl<R: Reducer<T>, T> ConditionAccmulator<R, T> {
    /// The items not yet folded, lookahead first.
    pub closed spec fn pending(self) -> Seq<T> {
        match self.current {
            Some(v) => seq![v] + self.input@,
            None => self.input@,
        }
    }

    /// The reducer this accumulator runs.
    pub closed spec fn spec_reducer(self) -> R {
        self.reducer
    }

    pub closed spec fn wf(self) -> bool {
        &&& self.reducer.inv(self.acc)
        &&& items_inv(self.reducer, self.pending())
    }

    /// Everything this accumulator will still yield, by model.
    pub closed spec fn future(self) -> Seq<AccValue<R::Model>> {
        if self.done {
            Seq::empty()
        } else {
            outputs(
                self.reducer,
                self.reducer.model_of(self.acc),
                models(self.reducer, self.pending()),
            )
        }
    }

    /// Yield the next output: a flushed value, a marker, or nothing once the
    /// input is exhausted and the final flush has been delivered.
    pub fn next(&mut self) -> (r: Option<AccValue<T>>)
        requires
            old(self).wf(),
        ensures
            final(self).wf(),
            final(self).spec_reducer() == old(self).spec_reducer(),
            old(self).future().len() == 0 ==> r is None && final(self).future().len() == 0,
            old(self).future().len() > 0 ==> (r matches Some(av) && out_matches(
                old(self).spec_reducer(),
                av,
                old(self).future()[0],
            ) && final(self).future() == old(self).future().drop_first()),
    {
        if self.done {
            return None;
        }
        let ghost p = old(self).pending();
        let ghost rd = self.reducer;
        let ghost ms = models(rd, p);
        let nxt: Option<T> = match self.current.take() {
            Some(v) => Some(v),
            None => {
                if self.input.len() > 0 {
                    Some(self.input.remove(0))
                } else {
                    None
                }
            },
        };
        match nxt {
            None => {
                proof {
                    assert(p.len() == 0);
                    assert(ms.len() == 0);
                }
                self.done = true;
                let mut flushed = self.reducer.fresh();
                core::mem::swap(&mut self.acc, &mut flushed);
                proof {
                    assert(old(self).future() =~= seq![
                        AccValue::Value(rd.model_of(old(self).acc)),
                    ]);
                }
                Some(AccValue::Value(flushed))
            },
            Some(val) => {
                proof {
                    assert(p.len() > 0);
                    assert(val == p[0]);
                    assert(self.input@ =~= p.drop_first());
                    assert(ms[0] == rd.model_of(val));
                }
                if self.input.len() > 0 {
                    let lookahead = self.input.remove(0);
                    self.current = Some(lookahead);
                } else {
                    self.done = true;
                }
                proof {
                    if !self.done {
                        assert(self.pending() =~= p.drop_first());
                    }
                    assert(models(rd, p.drop_first()) =~= ms.drop_first());
                }
                let res = self.reducer.step(&mut self.acc, val);
                proof {
                    let c = rd.combine(rd.model_of(old(self).acc), ms[0]);
                    if ms.len() == 1 {
                        assert(old(self).future() =~= seq![AccValue::Value(c)]);
                    } else if rd.fires(c) {
                        assert(old(self).future() =~= seq![AccValue::Value(c)] + outputs(
                            rd,
                            rd.empty_model(),
                            ms.drop_first(),
                        ));
                    } else {
                        assert(old(self).future() =~= seq![AccValue::Empty] + outputs(
                            rd,
                            c,
                            ms.drop_first(),
                        ));
                    }
                }
                match res {
                    Some(v) => {
                        proof {
                            assert(final(self).future() =~= old(self).future().drop_first());
                        }
                        Some(AccValue::Value(v))
                    },
                    None => {
                        if !self.done {
                            proof {
                                assert(final(self).future() =~= old(self).future().drop_first());
                            }
                            Some(AccValue::Empty)
                        } else {
                            let mut flushed = self.reducer.fresh();
                            core::mem::swap(&mut self.acc, &mut flushed);
                            Some(AccValue::Value(flushed))
                        }
                    },
                }
            },
        }
    }

    /// Drain the accumulator, keeping the flushed values and dropping the
    /// markers.
    pub fn collect_values(self) -> (r: Vec<T>)
        requires
            self.wf(),
        ensures
            models(self.spec_reducer(), r@) == emitted_models(self.future()),
            items_inv(self.spec_reducer(), r@),
    {
        let mut me = self;
        let mut out: Vec<T> = Vec::new();
        proof {
            assert(models(self.spec_reducer(), out@) + emitted_models(me.future())
                =~= emitted_models(self.future()));
        }
        loop
            invariant
                me.wf(),
                me.spec_reducer() == self.spec_reducer(),
                models(self.spec_reducer(), out@) + emitted_models(me.future()) == emitted_models(
                    self.future(),
                ),
                items_inv(self.spec_reducer(), out@),
            ensures
                models(self.spec_reducer(), out@) == emitted_models(self.future()),
                items_inv(self.spec_reducer(), out@),
            decreases me.future().len(),
        {
            let ghost pre = me.future();
            let ghost pre_out = out@;
            let step = me.next();
            match step {
                None => {
                    proof {
                        assert(models(self.spec_reducer(), out@) + emitted_models(me.future())
                            =~= models(self.spec_reducer(), out@));
                    }
                    break ;
                },
                Some(av) => {
                    proof {
                        assert(pre.len() > 0);
                        assert(emitted_models(pre) == emitted_models(
                            seq![pre[0]] + pre.drop_first(),
                        )) by {
                            assert(seq![pre[0]] + pre.drop_first() =~= pre);
                        }
                        assert((seq![pre[0]] + pre.drop_first()).drop_first() =~= pre.drop_first());
                    }
                    match av {
                        AccValue::Value(v) => {
                            out.push(v);
                            proof {
                                let rd = self.spec_reducer();
                                let mv = rd.model_of(v);
                                assert(models(rd, out@) =~= models(rd, pre_out).push(mv));
                                assert(models(rd, pre_out).push(mv) + emitted_models(
                                    pre.drop_first(),
                                ) =~= models(rd, pre_out) + (seq![mv] + emitted_models(
                                    pre.drop_first(),
                                )));
                            }
                        },
                        AccValue::Empty => {},
                    }
                },
            }
        }
        out
    }
}

/// Extension hook that runs the threshold accumulator over a sequence.
pub trait ConditionAccmulatorExt<T>: Sized {
    fn condition_reduce<R: Reducer<T>>(self, reducer: R) -> ConditionAccmulator<R, T>;
}

impl<T> ConditionAccmulatorExt<T> for Vec<T> {
    /// Start the accumulator over this sequence with a fresh fold state.
    fn condition_reduce<R: Reducer<T>>(self, reducer: R) -> (r: ConditionAccmulator<R, T>)
        ensures
            r.spec_reducer() == reducer,
            items_inv(reducer, self@) ==> r.wf() && r.future() == outputs(
                reducer,
                reducer.empty_model(),
                models(reducer, self@),
            ),
    {
        let acc = reducer.fresh();
        ConditionAccmulator { input: self, acc, done: false, current: None, reducer }
    }
}

/// The off-thread adapter.  At runtime the adapted stage runs on its own
/// worker, feeding a bounded channel; the items seen downstream are exactly
/// the items put in, in the same order, which is all this contract states.
pub trait OffThreadExt: Sized {
    fn off_thread(self) -> Self;
}

impl<T> OffThreadExt for Vec<T> {
    /// Moving production onto a worker changes neither the items, nor their
    /// multiset, nor their order.
    fn off_thread(self) -> (r: Vec<T>)
        ensures
            r@ == self@,
            r@.to_multiset() == self@.to_multiset(),
    {
        self
    }
}

/// The shared failure sink: a thread-safe handle to one logical stream of
/// error entries, appended to by every pipeline stage that filters failures.
pub struct ErrorSink<E> {
    errors: Vec<E>,
}

impl<E> View for ErrorSink<E> {
    type V = Seq<E>;

    closed spec fn view(&self) -> Seq<E> {
        self.errors@
    }
}

impl<E> ErrorSink<E> {
    pub fn new() -> (r: ErrorSink<E>)
        ensures
            r@ == Seq::<E>::empty(),
    {
        ErrorSink { errors: Vec::new() }
    }

    /// Forward one failure to the sink.
    pub fn send(&mut self, e: E)
        ensures
            final(self)@ == old(self)@.push(e),
    {
        self.errors.push(e);
    }

    /// The failures received, in arrival order.
    pub fn into_errors(self) -> (r: Vec<E>)
        ensures
            r@ == self@,
    {
        self.errors
    }
}

/// The successful values of a sequence of results, in order.
pub open spec fn result_oks<T, E>(s: Seq<Result<T, E>>) -> Seq<T>
    decreases s.len(),
{
    if s.len() == 0 {
        Seq::empty()
    } else {
        let rest = result_oks(s.drop_last());
        match s.last() {
            Ok(v) => rest.push(v),
            Err(_) => rest,
        }
    }
}

/// The failures of a sequence of results, in order.
pub open spec fn result_errs<T, E>(s: Seq<Result<T, E>>) -> Seq<E>
    decreases s.len(),
{
    if s.len() == 0 {
        Seq::empty()
    } else {
        let rest = result_errs(s.drop_last());
        match s.last() {
            Ok(_) => rest,
            Err(e) => rest.push(e),
        }
    }
}

/// Every input is either a continued value or a forwarded failure: nothing is
/// dropped and nothing is seen twice.
pub proof fn lemma_side_channel_conservation<T, E>(s: Seq<Result<T, E>>)
    ensures
        result_oks(s).len() + result_errs(s).len() == s.len(),
    decreases s.len(),
{
    if s.len() > 0 {
        lemma_side_channel_conservation(s.drop_last());
    }
}

/// Over a sequence of successes nothing is forwarded and every value
/// continues.
pub proof fn lemma_all_ok<T, E>(s: Seq<Result<T, E>>)
    requires
        forall|i: int| 0 <= i < s.len() ==> (#[trigger] s[i]) is Ok,
    ensures
        result_errs(s) == Seq::<E>::empty(),
        result_oks(s).len() == s.len(),
        forall|i: int| 0 <= i < s.len() ==> result_oks(s)[i] == (#[trigger] s[i])->Ok_0,
    decreases s.len(),
{
    if s.len() > 0 {
        lemma_all_ok(s.drop_last());
        assert(s[s.len() - 1] is Ok);
        assert forall|i: int| 0 <= i < s.len() implies result_oks(s)[i] == (
        #[trigger] s[i])->Ok_0 by {
            if i < s.len() - 1 {
                assert(s.drop_last()[i] == s[i]);
                assert(result_oks(s.drop_last())[i] == s.drop_last()[i]->Ok_0);
            }
        }
    }
}

/// The error side-channel: keep the successful values, forward each failure
/// to the shared sink exactly once.
pub trait ErrorsTo<T, E>: Sized {
    fn errors_to(self, error_sender: &mut ErrorSink<E>) -> Vec<T>;
}

impl<T, E> ErrorsTo<T, E> for Vec<Result<T, E>> {
    /// Pure filter-and-forward: values continue in their original relative
    /// order, failures reach the sink in theirs, and together they account
    /// for every input.
    fn errors_to(self, error_sender: &mut ErrorSink<E>) -> (r: Vec<T>)
        ensures
            r@ == result_oks(self@),
            final(error_sender)@ == old(error_sender)@ + result_errs(self@),
            r@.len() + result_errs(self@).len() == self@.len(),
    {
        let ghost sink0 = error_sender@;
        let mut me = self;
        let total: usize = me.len();
        let mut out: Vec<T> = Vec::new();
        let mut k: usize = 0;
        proof {
            assert(self@.take(0) =~= Seq::<Result<T, E>>::empty());
            assert(me@ =~= self@.skip(0));
            assert(sink0 + result_errs(self@.take(0)) =~= sink0);
        }
        while me.len() > 0
            invariant
                total as int == self@.len(),
                k <= self@.len(),
                me@ == self@.skip(k as int),
                out@ == result_oks(self@.take(k as int)),
                error_sender@ == sink0 + result_errs(self@.take(k as int)),
                out@.len() + result_errs(self@.take(k as int)).len() == k,
            decreases me@.len(),
        {
            let item = me.remove(0);
            proof {
                assert(item == self@[k as int]);
                assert(me@ =~= self@.skip(k as int + 1));
                assert(self@.take(k as int + 1).drop_last() =~= self@.take(k as int));
                assert(self@.take(k as int + 1).last() == self@[k as int]);
            }
            match item {
                Ok(v) => {
                    out.push(v);
                },
                Err(e) => {
                    error_sender.send(e);
                    proof {
                        assert(sink0 + result_errs(self@.take(k as int)).push(e) =~= (sink0
                            + result_errs(self@.take(k as int))).push(e));
                    }
                },
            }
            k = k + 1;
        }
        proof {
            assert(self@.take(self@.len() as int) =~= self@);
        }
        out
    }
}


/// Clipped addition on 64-bit counters.
pub open spec fn sat_add_u64(a: u64, b: u64) -> u64 {
    if a + b > u64::MAX {
        u64::MAX
    } else {
        (a + b) as u64
    }
}

/// A reducer that sums numbers, emitting the running total and resetting it
/// once it reaches the threshold; sums clip at the counter's maximum.
pub struct SumReducer {
    pub threshold: u64,
}

impl Reducer<u64> for SumReducer {
    type Model = u64;

    open spec fn model_of(&self, t: u64) -> u64 {
        t
    }

    open spec fn inv(&self, t: u64) -> bool {
        true
    }

    open spec fn combine(&self, a: u64, b: u64) -> u64 {
        sat_add_u64(a, b)
    }

    open spec fn fires(&self, m: u64) -> bool {
        m >= self.threshold
    }

    open spec fn empty_model(&self) -> u64 {
        0
    }

    fn fresh(&self) -> (t: u64) {
        0
    }

    fn step(&self, acc: &mut u64, item: u64) -> (r: Option<u64>) {
        if u64::MAX - *acc < item {
            *acc = u64::MAX;
        } else {
            *acc = *acc + item;
        }
        if *acc >= self.threshold {
            let result = *acc;
            *acc = 0;
            Some(result)
        } else {
            None
        }
    }
}

} // verus!
