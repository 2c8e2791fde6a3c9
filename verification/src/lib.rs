//! Short-circuiting aggregation of a sequence of fallible values.
//!
//! A lazy sequence produces elements that are each either a success carrying
//! a value or a failure carrying an error. The `try_collect` operation pulls
//! elements one at a time, in order, and produces a single aggregate result:
//! all values in order if every element succeeded, or the first error
//! encountered, in which case no element past that failure is ever pulled.

use vstd::prelude::*;

verus! {

/// One element of a fallible sequence: either a value or an error.
#[derive(PartialEq, Eq, Debug)]
pub enum FallibleValue<T, E> {
    Success(T),
    Failure(E),
}

/// The aggregate outcome of draining a fallible sequence: an ordered
/// container of every value, or the first error encountered.
pub enum AggregateResult<C, E> {
    Success(C),
    Failure(E),
}

/// The value carried by a successful element.
pub open spec fn success_value<T, E>(v: FallibleValue<T, E>) -> T
    recommends
        v is Success,
{
    v->Success_0
}

/// The error carried by a failed element.
pub open spec fn failure_error<T, E>(v: FallibleValue<T, E>) -> E
    recommends
        v is Failure,
{
    v->Failure_0
}

/// The position of the first failure in `s`, or `s.len()` if every element
/// is a success.
pub open spec fn first_failure_index<T, E>(s: Seq<FallibleValue<T, E>>) -> int
    decreases s.len(),
{
    if s.len() == 0 {
        0
    } else if s[0] is Failure {
        0
    } else {
        1 + first_failure_index(s.skip(1))
    }
}

/// The values carried by the elements of `s`, position by position.
pub open spec fn success_values<T, E>(s: Seq<FallibleValue<T, E>>) -> Seq<T> {
    s.map_values(|v: FallibleValue<T, E>| success_value(v))
}

/// What `try_collect` produces from the sequence `s`: every value in order
/// if no element fails, else the error of the first failure.
pub open spec fn try_collect_spec<T, E>(s: Seq<FallibleValue<T, E>>) -> AggregateResult<
    Seq<T>,
    E,
> {
    let k = first_failure_index(s);
    if k == s.len() {
        AggregateResult::Success(success_values(s))
    } else {
        AggregateResult::Failure(failure_error(s[k]))
    }
}

/// How many elements `try_collect` pulls from the sequence `s`: the whole
/// sequence if no element fails, else everything up to and including the
/// first failure.
pub open spec fn pulls_from<T, E>(s: Seq<FallibleValue<T, E>>) -> int {
    let k = first_failure_index(s);
    if k == s.len() {
        k
    } else {
        k + 1
    }
}

/// `first_failure_index` lies between 0 and the length, every element before
/// it is a success, and the element at it (if any) is a failure.
pub proof fn lemma_first_failure_index<T, E>(s: Seq<FallibleValue<T, E>>)
    ensures
        0 <= first_failure_index(s) <= s.len(),
        forall|i: int| 0 <= i < first_failure_index(s) ==> s[i] is Success,
        first_failure_index(s) < s.len() ==> s[first_failure_index(s)] is Failure,
    decreases s.len(),
{
    if s.len() == 0 {
    } else if s[0] is Failure {
    } else {
        lemma_first_failure_index(s.skip(1));
        assert forall|i: int| 0 <= i < first_failure_index(s) implies s[i] is Success by {
            if i > 0 {
                assert(s.skip(1)[i - 1] is Success);
            }
        }
        if first_failure_index(s) < s.len() {
            assert(s.skip(1)[first_failure_index(s) - 1] is Failure);
        }
    }
}

/// A prefix of successes pushes the first failure at least that far out.
pub proof fn lemma_first_failure_index_at_least<T, E>(s: Seq<FallibleValue<T, E>>, j: int)
    requires
        0 <= j <= s.len(),
        forall|i: int| 0 <= i < j ==> s[i] is Success,
    ensures
        first_failure_index(s) >= j,
    decreases j,
{
    lemma_first_failure_index(s);
    if j > 0 {
        assert forall|i: int| 0 <= i < j - 1 implies s.skip(1)[i] is Success by {
            assert(s[i + 1] is Success);
        }
        lemma_first_failure_index_at_least(s.skip(1), j - 1);
    }
}

/// Law: a sequence whose elements are all successes aggregates to a success
/// holding every carried value, equal in order and length to the sequence of
/// unwrapped values.
pub proof fn lemma_try_collect_all_success<T, E>(s: Seq<FallibleValue<T, E>>)
    requires
        forall|i: int| 0 <= i < s.len() ==> s[i] is Success,
    ensures
        try_collect_spec(s) == AggregateResult::<Seq<T>, E>::Success(success_values(s)),
        success_values(s).len() == s.len(),
        forall|i: int| 0 <= i < s.len() ==> success_values(s)[i] == success_value(s[i]),
        pulls_from(s) == s.len(),
{
    lemma_first_failure_index(s);
    lemma_first_failure_index_at_least(s, s.len() as int);
}

/// Law: a sequence holding at least one failure aggregates to exactly the
/// error of its first failure, however many failures follow and whatever
/// they carry.
pub proof fn lemma_try_collect_first_failure<T, E>(s: Seq<FallibleValue<T, E>>)
    requires
        exists|i: int| 0 <= i < s.len() && s[i] is Failure,
    ensures
        0 <= first_failure_index(s) < s.len(),
        s[first_failure_index(s)] is Failure,
        forall|i: int| 0 <= i < first_failure_index(s) ==> s[i] is Success,
        try_collect_spec(s) == AggregateResult::<Seq<T>, E>::Failure(
            failure_error(s[first_failure_index(s)]),
        ),
{
    lemma_first_failure_index(s);
    if first_failure_index(s) == s.len() {
        let i = choose|i: int| 0 <= i < s.len() && s[i] is Failure;
        assert(s[i] is Success);
    }
}

/// Law: when the first failure sits at position `k`, exactly `k + 1`
/// elements are pulled, and every element past position `k` is left in the
/// sequence, never pulled.
pub proof fn lemma_short_circuit<T, E>(s: Seq<FallibleValue<T, E>>)
    requires
        exists|i: int| 0 <= i < s.len() && s[i] is Failure,
    ensures
        pulls_from(s) == first_failure_index(s) + 1,
        s.skip(pulls_from(s)).len() == s.len() - first_failure_index(s) - 1,
        forall|i: int|
            first_failure_index(s) < i < s.len() ==> s.skip(pulls_from(s))[i
                - first_failure_index(s) - 1] == s[i],
{
    lemma_try_collect_first_failure(s);
}

/// Law: the aggregate result is a function of the sequence's contents alone,
/// so repeating the operation on a fresh sequence with identical contents
/// yields an equal result.
pub proof fn lemma_try_collect_deterministic<T, E>(
    s1: Seq<FallibleValue<T, E>>,
    s2: Seq<FallibleValue<T, E>>,
)
    requires
        s1 == s2,
    ensures
        try_collect_spec(s1) == try_collect_spec(s2),
        pulls_from(s1) == pulls_from(s2),
{
}

impl<C, E> AggregateResult<C, E> {
    /// Whether this is the success variant.
    pub fn is_success(&self) -> (b: bool)
        ensures
            b == (self is Success),
    {
        match self {
            AggregateResult::Success(_) => true,
            AggregateResult::Failure(_) => false,
        }
    }

    /// Whether this is the failure variant.
    pub fn is_failure(&self) -> (b: bool)
        ensures
            b == (self is Failure),
    {
        match self {
            AggregateResult::Success(_) => false,
            AggregateResult::Failure(_) => true,
        }
    }

    /// The container of a success, or nothing for a failure.
    pub fn into_success(self) -> (r: Option<C>)
        ensures
            self matches AggregateResult::Success(c) ==> r == Some(c),
            self is Failure ==> r is None,
    {
        match self {
            AggregateResult::Success(c) => Some(c),
            AggregateResult::Failure(_) => None,
        }
    }

    /// The error of a failure, or nothing for a success.
    pub fn into_failure(self) -> (r: Option<E>)
        ensures
            self matches AggregateResult::Failure(e) ==> r == Some(e),
            self is Success ==> r is None,
    {
        match self {
            AggregateResult::Success(_) => None,
            AggregateResult::Failure(e) => Some(e),
        }
    }
}

/// A pull-based sequence of fallible values. Elements are produced one at a
/// time, only as requested, and each is handed out exactly once. The number
/// of elements pulled so far is observable, so a caller can check that a
/// consumer stopped pulling where it promised to.
pub struct LazySeq<T, E> {
    /// The elements not yet pulled, stored in reverse so that a pull is a pop.
    rev: Vec<FallibleValue<T, E>>,
    /// How many elements have been pulled since construction.
    pulled: usize,
}

impl<T, E> LazySeq<T, E> {
    /// The elements not yet pulled, in the order they will be produced.
    pub closed spec fn remaining(self) -> Seq<FallibleValue<T, E>> {
        Seq::new(self.rev@.len(), |i: int| self.rev@[self.rev@.len() - 1 - i])
    }

    /// How many elements have been pulled since construction.
    pub closed spec fn pulled_count(self) -> nat {
        self.pulled as nat
    }

    /// The pull counter can always account for every remaining element.
    pub closed spec fn wf(self) -> bool {
        self.pulled + self.rev@.len() <= usize::MAX
    }

    /// A sequence that will produce the elements of `items` in order.
    pub fn from_vec(mut items: Vec<FallibleValue<T, E>>) -> (s: Self)
        ensures
            s.wf(),
            s.remaining() == items@,
            s.pulled_count() == 0,
    {
        let ghost orig = items@;
        let total: usize = items.len();
        let mut rev: Vec<FallibleValue<T, E>> = Vec::new();
        while items.len() > 0
            invariant
                orig.len() == total,
                rev@.len() + items@.len() == orig.len(),
                items@ == orig.take(items@.len() as int),
                forall|i: int| 0 <= i < rev@.len() ==> rev@[i] == orig[orig.len() - 1 - i],
            decreases items@.len(),
        {
            let v = items.pop().unwrap();
            rev.push(v);
        }
        let s = LazySeq { rev, pulled: 0 };
        assert forall|i: int| 0 <= i < orig.len() implies s.remaining()[i] == orig[i] by {
            assert(rev@[orig.len() - 1 - i] == orig[i]);
        }
        assert(s.remaining() =~= orig);
        s
    }

    /// How many elements have been pulled so far.
    pub fn pulled(&self) -> (n: usize)
        ensures
            n == self.pulled_count(),
    {
        self.pulled
    }

    /// Whether any element remains to be pulled.
    pub fn has_remaining(&self) -> (b: bool)
        ensures
            b == (self.remaining().len() > 0),
    {
        self.rev.len() > 0
    }

    /// Pull the next element, if any. The element is moved out: it can never
    /// be produced a second time.
    pub fn next(&mut self) -> (r: Option<FallibleValue<T, E>>)
        requires
            old(self).wf(),
        ensures
            final(self).wf(),
            old(self).remaining().len() == 0 ==> {
                &&& r is None
                &&& final(self).remaining() == old(self).remaining()
                &&& final(self).pulled_count() == old(self).pulled_count()
            },
            old(self).remaining().len() > 0 ==> {
                &&& r == Some(old(self).remaining()[0])
                &&& final(self).remaining() == old(self).remaining().skip(1)
                &&& final(self).pulled_count() == old(self).pulled_count() + 1
            },
    {
        match self.rev.pop() {
            None => {
                assert(self.remaining() =~= old(self).remaining());
                None
            },
            Some(v) => {
                self.pulled = self.pulled + 1;
                assert(self.remaining() =~= old(self).remaining().skip(1));
                Some(v)
            },
        }
    }
}

/// The mathematical value of an aggregate result whose container is a `Vec`.
pub open spec fn agg_view<T, E>(r: AggregateResult<Vec<T>, E>) -> AggregateResult<Seq<T>, E> {
    match r {
        AggregateResult::Success(c) => AggregateResult::Success(c@),
        AggregateResult::Failure(e) => AggregateResult::Failure(e),
    }
}

/// A pull-based source of fallible values that can be drained into one
/// aggregate result. `try_collect` pulls elements in order and stops at the
/// first failure: elements past it are left in place, never pulled.
pub trait TryCollectExt<T, E>: Sized {
    /// The elements not yet pulled, in the order they will be produced.
    spec fn remaining(&self) -> Seq<FallibleValue<T, E>>;

    /// How many elements have been pulled since construction.
    spec fn pulled_count(&self) -> nat;

    /// Whether the source is in a state `try_collect` accepts.
    spec fn wf(&self) -> bool;

    /// Drain the source into one aggregate result: every value in order if
    /// no element fails, else the error of the first failure. Pulling stops
    /// at the first failure; the elements after it remain unpulled.
    fn try_collect(&mut self) -> (r: AggregateResult<Vec<T>, E>)
        requires
            old(self).wf(),
        ensures
            final(self).wf(),
            agg_view(r) == try_collect_spec(old(self).remaining()),
            final(self).pulled_count() == old(self).pulled_count() + pulls_from(
                old(self).remaining(),
            ),
            final(self).remaining() == old(self).remaining().skip(
                pulls_from(old(self).remaining()),
            ),
    ;
}

impl<T, E> TryCollectExt<T, E> for LazySeq<T, E> {
    open spec fn remaining(&self) -> Seq<FallibleValue<T, E>> {
        LazySeq::remaining(*self)
    }

    open spec fn pulled_count(&self) -> nat {
        LazySeq::pulled_count(*self)
    }

    open spec fn wf(&self) -> bool {
        LazySeq::wf(*self)
    }

    #[verifier::loop_isolation(false)]
    fn try_collect(&mut self) -> (r: AggregateResult<Vec<T>, E>) {
        let ghost orig = LazySeq::remaining(*self);
        let ghost pulled0 = LazySeq::pulled_count(*self);
        proof {
            lemma_first_failure_index(orig);
        }
        let mut out: Vec<T> = Vec::new();
        loop
            invariant
                LazySeq::wf(*self),
                out@.len() <= orig.len(),
                out@.len() <= first_failure_index(orig),
                LazySeq::remaining(*self) == orig.skip(out@.len() as int),
                LazySeq::pulled_count(*self) == pulled0 + out@.len(),
                forall|i: int| 0 <= i < out@.len() ==> orig[i] is Success,
                out@ == success_values(orig.take(out@.len() as int)),
            decreases orig.len() - out@.len(),
        {
            let ghost n = out@.len() as int;
            match self.next() {
                None => {
                    proof {
                        assert(orig.skip(n).len() == 0);
                        assert(orig.take(n) =~= orig);
                        assert(first_failure_index(orig) == orig.len());
                    }
                    return AggregateResult::Success(out);
                },
                Some(FallibleValue::Success(v)) => {
                    proof {
                        assert(orig.skip(n)[0] == orig[n]);
                        lemma_first_failure_index_at_least(orig, n + 1);
                        assert(orig.skip(n).skip(1) =~= orig.skip(n + 1));
                        assert(success_values(orig.take(n + 1)) =~= success_values(
                            orig.take(n),
                        ).push(success_value(orig[n])));
                    }
                    out.push(v);
                },
                Some(FallibleValue::Failure(e)) => {
                    proof {
                        assert(orig.skip(n)[0] == orig[n]);
                        assert(first_failure_index(orig) == n);
                        assert(orig.skip(n).skip(1) =~= orig.skip(n + 1));
                    }
                    return AggregateResult::Failure(e);
                },
            }
        }
    }
}

} // verus!
