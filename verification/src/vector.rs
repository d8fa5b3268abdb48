use vstd::prelude::*;

use crate::error::NoallocError;

verus! {

use vstd::std_specs::cmp::PartialEqSpec;

/// The relation that a well-behaved `PartialEq` implementation decides:
/// two elements are related exactly when `eq_spec` holds of them.
pub open spec fn eq_rel<T: PartialEq>() -> spec_fn(T, T) -> bool {
    |x: T, y: T| x.eq_spec(&y)
}

/// Holds when every key the callable `f` can return for a borrowed
/// element agrees with `q` on that element.
pub open spec fn keyed_by<T, K, F: Fn(&T) -> K>(f: F, q: spec_fn(T) -> K) -> bool {
    forall|x: &T, kx: K| #[trigger] call_ensures(f, (x,), kx) ==> kx == q(*x)
}

/// The bucket relation induced by a key function: two elements are
/// related when their keys are equal under `eq_spec`.
pub open spec fn key_rel<T, K: PartialEq>(q: spec_fn(T) -> K) -> spec_fn(T, T) -> bool {
    |x: T, y: T| q(x).eq_spec(&q(y))
}

/// The part of `s` that deduplication retains when `prev` is the most
/// recently retained element: each element is dropped when `p` relates it
/// to the element retained just before it, so only consecutive runs
/// collapse.
pub open spec fn dedup_keep<T>(s: Seq<T>, prev: T, p: spec_fn(T, T) -> bool) -> Seq<T>
    decreases s.len(),
{
    if s.len() == 0 {
        Seq::<T>::empty()
    } else if p(s[0], prev) {
        dedup_keep(s.drop_first(), prev, p)
    } else {
        seq![s[0]] + dedup_keep(s.drop_first(), s[0], p)
    }
}

/// Collapses every run of consecutive elements that `p` relates to the
/// run's first occurrence into that first occurrence, preserving order.
/// Non-adjacent duplicates are retained.
pub open spec fn dedup_with<T>(s: Seq<T>, p: spec_fn(T, T) -> bool) -> Seq<T> {
    if s.len() == 0 {
        s
    } else {
        seq![s[0]] + dedup_keep(s.drop_first(), s[0], p)
    }
}

proof fn lemma_dedup_keep_snoc<T>(t: Seq<T>, x: T, prev: T, p: spec_fn(T, T) -> bool)
    ensures
        ({
            let kept = dedup_keep(t, prev, p);
            let lk = if kept.len() == 0 {
                prev
            } else {
                kept.last()
            };
            dedup_keep(t.push(x), prev, p) == if p(x, lk) {
                kept
            } else {
                kept.push(x)
            }
        }),
    decreases t.len(),
{
    if t.len() == 0 {
        let s1 = t.push(x);
        assert(s1.len() == 1 && s1[0] == x);
        assert(s1.drop_first() =~= Seq::<T>::empty());
        assert(dedup_keep(Seq::<T>::empty(), prev, p) == Seq::<T>::empty());
        assert(dedup_keep(Seq::<T>::empty(), x, p) == Seq::<T>::empty());
        assert(dedup_keep(t, prev, p) == Seq::<T>::empty());
        if p(x, prev) {
            assert(dedup_keep(s1, prev, p) == dedup_keep(s1.drop_first(), prev, p));
        } else {
            assert(dedup_keep(s1, prev, p) == seq![x] + dedup_keep(s1.drop_first(), x, p));
            assert(seq![x] + Seq::<T>::empty() =~= Seq::<T>::empty().push(x));
        }
    } else {
        assert(t.push(x)[0] == t[0]);
        assert(t.push(x).drop_first() =~= t.drop_first().push(x));
        if p(t[0], prev) {
            lemma_dedup_keep_snoc(t.drop_first(), x, prev, p);
            assert(dedup_keep(t, prev, p) == dedup_keep(t.drop_first(), prev, p));
            assert(dedup_keep(t.push(x), prev, p) == dedup_keep(t.drop_first().push(x), prev, p));
        } else {
            lemma_dedup_keep_snoc(t.drop_first(), x, t[0], p);
            let k2 = dedup_keep(t.drop_first(), t[0], p);
            let kept = dedup_keep(t, prev, p);
            assert(kept == seq![t[0]] + k2);
            assert(dedup_keep(t.push(x), prev, p) == seq![t[0]] + dedup_keep(
                t.drop_first().push(x),
                t[0],
                p,
            ));
            let lk = if kept.len() == 0 {
                prev
            } else {
                kept.last()
            };
            let lk2 = if k2.len() == 0 {
                t[0]
            } else {
                k2.last()
            };
            assert(lk == lk2);
            if !p(x, lk2) {
                assert(seq![t[0]] + k2.push(x) =~= (seq![t[0]] + k2).push(x));
            }
        }
    }
}

proof fn lemma_dedup_with_step<T>(s: Seq<T>, k: int, p: spec_fn(T, T) -> bool)
    requires
        1 <= k < s.len(),
    ensures
        dedup_with(s.take(k), p).len() >= 1,
        p(s[k], dedup_with(s.take(k), p).last()) ==> dedup_with(s.take(k + 1), p) == dedup_with(
            s.take(k),
            p,
        ),
        !p(s[k], dedup_with(s.take(k), p).last()) ==> dedup_with(s.take(k + 1), p) == dedup_with(
            s.take(k),
            p,
        ).push(s[k]),
{
    let a = s.take(k);
    let b = s.take(k + 1);
    assert(a[0] == s[0] && b[0] == s[0]);
    assert(b.drop_first() =~= a.drop_first().push(s[k]));
    lemma_dedup_keep_snoc(a.drop_first(), s[k], s[0], p);
    let kept = dedup_keep(a.drop_first(), s[0], p);
    let da = dedup_with(a, p);
    assert(da == seq![s[0]] + kept);
    let lk = if kept.len() == 0 {
        s[0]
    } else {
        kept.last()
    };
    assert(da.last() == lk);
    if !p(s[k], lk) {
        assert(seq![s[0]] + kept.push(s[k]) =~= (seq![s[0]] + kept).push(s[k]));
    }
}

/// Holds when every answer the callable `f` can give on a pair of borrowed
/// elements agrees with the predicate `p` on those elements.
pub open spec fn decided_by<T, F: Fn(&T, &T) -> bool>(f: F, p: spec_fn(T, T) -> bool) -> bool {
    forall|x: &T, y: &T, r: bool| #[trigger] call_ensures(f, (x, y), r) ==> r == p(*x, *y)
}

/// A sequence container whose capacity is fixed at `N` slots.
///
/// Slots `[0, len())` are live; the container never holds more than `N`
/// elements, and every operation that would push the length past `N`
/// fails with [`NoallocError::LengthExceed`] without mutating anything.
pub struct Vec<T, const N: usize> {
    data: std::vec::Vec<T>,
}

impl<T, const N: usize> View for Vec<T, N> {
    type V = Seq<T>;

    closed spec fn view(&self) -> Seq<T> {
        self.data@
    }
}

impl<T, const N: usize> Vec<T, N> {
    /// The container invariant: the live length never exceeds the capacity.
    pub open spec fn wf(&self) -> bool {
        self@.len() <= N
    }

    /// Returns an empty container with all `N` slots free.
    pub fn new() -> (r: Self)
        ensures
            r@ == Seq::<T>::empty(),
            r.wf(),
    {
        Vec { data: std::vec::Vec::new() }
    }

    /// Returns the fixed capacity `N`.
    pub fn capacity(&self) -> (r: usize)
        ensures
            r == N,
    {
        N
    }

    /// Returns the number of live elements.
    pub fn len(&self) -> (r: usize)
        ensures
            r == self@.len(),
    {
        self.data.len()
    }

    /// Returns whether the container holds no live elements.
    pub fn is_empty(&self) -> (r: bool)
        ensures
            r <==> self@.len() == 0,
    {
        self.data.is_empty()
    }

    /// Drops every live element and resets the length to zero.
    pub fn clear(&mut self)
        ensures
            final(self)@ == Seq::<T>::empty(),
            final(self).wf(),
    {
        self.data.clear();
    }

    /// Moves every live element of `other` onto the end of `self`,
    /// preserving their order.
    ///
    /// Fails with [`NoallocError::LengthExceed`] when the combined length
    /// would exceed this container's capacity, leaving both containers
    /// unchanged.  On success `other` is left empty: ownership of the moved
    /// elements transfers, it is never duplicated.
    pub fn append<const O: usize>(&mut self, other: &mut Vec<T, O>) -> (r: Result<
        (),
        NoallocError,
    >)
        requires
            old(self).wf(),
            old(other).wf(),
        ensures
            final(self).wf(),
            final(other).wf(),
            old(self)@.len() + old(other)@.len() > N ==> {
                &&& r == Err::<(), NoallocError>(NoallocError::LengthExceed)
                &&& final(self)@ == old(self)@
                &&& final(other)@ == old(other)@
            },
            old(self)@.len() + old(other)@.len() <= N ==> {
                &&& r == Ok::<(), NoallocError>(())
                &&& final(self)@ == old(self)@ + old(other)@
                &&& final(other)@ == Seq::<T>::empty()
            },
    {
        if other.data.len() > N - self.data.len() {
            Err(NoallocError::LengthExceed)
        } else {
            self.data.append(&mut other.data);
            Ok(())
        }
    }

    /// Removes the suffix `[at, len())` and returns it as a new container
    /// of capacity `O`, leaving `self` with the prefix `[0, at)`.
    ///
    /// `at` must address the live range, and the removed suffix must fit in
    /// the target capacity.
    pub fn split_off<const O: usize>(&mut self, at: usize) -> (r: Vec<T, O>)
        requires
            old(self).wf(),
            at <= old(self)@.len(),
            old(self)@.len() - at <= O,
        ensures
            final(self).wf(),
            r.wf(),
            final(self)@ == old(self)@.subrange(0, at as int),
            r@ == old(self)@.subrange(at as int, old(self)@.len() as int),
    {
        let tail = self.data.split_off(at);
        Vec { data: tail }
    }

    /// Reduces the length to `new_len`, dropping every element in
    /// `[new_len, len())`.  `new_len` must not exceed the current length.
    pub fn truncate(&mut self, new_len: usize)
        requires
            old(self).wf(),
            new_len <= old(self)@.len(),
        ensures
            final(self).wf(),
            final(self)@ == old(self)@.subrange(0, new_len as int),
    {
        self.data.truncate(new_len);
    }

    /// Removes and returns the element at `index`, shifting every later
    /// element one slot to the left.  `index` must address a live slot.
    pub fn remove(&mut self, index: usize) -> (r: T)
        requires
            old(self).wf(),
            index < old(self)@.len(),
        ensures
            final(self).wf(),
            r == old(self)@[index as int],
            final(self)@ == old(self)@.remove(index as int),
    {
        self.data.remove(index)
    }

    /// Collapses consecutive runs of elements that `same_bucket` places in
    /// one bucket into the run's first element, keeping the surrounding
    /// order; only adjacent elements are ever merged.
    ///
    /// `same_bucket` is handed the incoming element first and the most
    /// recently retained element second, and the incoming element is
    /// dropped when it answers `true`.  For every predicate `p` that the
    /// callable decides, the result is exactly [`dedup_with`] of the old
    /// contents under `p`.
    pub fn dedup_by<F: Fn(&T, &T) -> bool>(&mut self, same_bucket: F)
        requires
            old(self).wf(),
            forall|x: &T, y: &T| #[trigger] call_requires(same_bucket, (x, y)),
        ensures
            final(self).wf(),
            final(self)@.len() <= old(self)@.len(),
            forall|p: spec_fn(T, T) -> bool| #[trigger]
                decided_by(same_bucket, p) ==> final(self)@ == dedup_with(old(self)@, p),
    {
        let ghost orig = self@;
        if self.data.len() == 0 {
            return ;
        }
        let mut i: usize = 1;
        let ghost mut k: int = 1;
        proof {
            assert(orig.take(1) =~= seq![orig[0]]);
            assert(seq![orig[0]].drop_first() =~= Seq::<T>::empty());
            assert forall|p: spec_fn(T, T) -> bool|
                dedup_with(orig.take(1), p) == self.data@.subrange(0, 1) by {
                assert(dedup_keep(Seq::<T>::empty(), orig[0], p) == Seq::<T>::empty());
                assert(seq![orig[0]] + Seq::<T>::empty() =~= seq![orig[0]]);
                assert(self.data@.subrange(0, 1) =~= seq![orig[0]]);
            }
            assert(self.data@ =~= self.data@.subrange(0, 1) + orig.subrange(1, orig.len() as int));
        }
        while i < self.data.len()
            invariant
                forall|x: &T, y: &T| #[trigger] call_requires(same_bucket, (x, y)),
                1 <= i <= self.data@.len(),
                i <= k <= orig.len(),
                self.data@.len() - i == orig.len() - k,
                orig.len() <= N,
                self.data@ == self.data@.subrange(0, i as int) + orig.subrange(
                    k,
                    orig.len() as int,
                ),
                forall|p: spec_fn(T, T) -> bool| #[trigger]
                    decided_by(same_bucket, p) ==> self.data@.subrange(0, i as int) == dedup_with(
                        orig.take(k),
                        p,
                    ),
            decreases self.data@.len() - i,
        {
            let ghost pre = self.data@;
            let dup = same_bucket(&self.data[i], &self.data[i - 1]);
            proof {
                assert(pre[i as int] == orig[k]) by {
                    assert(pre[i as int] == (pre.subrange(0, i as int) + orig.subrange(
                        k,
                        orig.len() as int,
                    ))[i as int]);
                }
            }
            if dup {
                self.data.remove(i);
                proof {
                    assert forall|p: spec_fn(T, T) -> bool| #[trigger]
                        decided_by(same_bucket, p) implies self.data@.subrange(0, i as int)
                        == dedup_with(orig.take(k + 1), p) && self.data@ == self.data@.subrange(
                        0,
                        i as int,
                    ) + orig.subrange(k + 1, orig.len() as int) by {
                        lemma_dedup_with_step(orig, k, p);
                        assert(pre.subrange(0, i as int) == dedup_with(orig.take(k), p));
                        assert(pre[i as int - 1] == dedup_with(orig.take(k), p).last());
                        assert(dup == p(orig[k], pre[i as int - 1]));
                        assert(self.data@.subrange(0, i as int) =~= pre.subrange(0, i as int));
                        assert(self.data@ =~= self.data@.subrange(0, i as int) + orig.subrange(
                            k + 1,
                            orig.len() as int,
                        ));
                    }
                    assert(self.data@.subrange(0, i as int) =~= pre.subrange(0, i as int));
                    assert(self.data@ =~= self.data@.subrange(0, i as int) + orig.subrange(
                        k + 1,
                        orig.len() as int,
                    ));
                    k = k + 1;
                }
            } else {
                i = i + 1;
                proof {
                    assert forall|p: spec_fn(T, T) -> bool| #[trigger]
                        decided_by(same_bucket, p) implies self.data@.subrange(0, i as int)
                        == dedup_with(orig.take(k + 1), p) by {
                        lemma_dedup_with_step(orig, k, p);
                        assert(pre.subrange(0, i as int - 1) == dedup_with(orig.take(k), p));
                        assert(pre[i as int - 2] == dedup_with(orig.take(k), p).last());
                        assert(dup == p(orig[k], pre[i as int - 2]));
                        assert(self.data@.subrange(0, i as int) =~= pre.subrange(
                            0,
                            i as int - 1,
                        ).push(orig[k]));
                    }
                    assert(self.data@ =~= self.data@.subrange(0, i as int) + orig.subrange(
                        k + 1,
                        orig.len() as int,
                    ));
                    k = k + 1;
                }
            }
        }
        proof {
            assert(self.data@ =~= self.data@.subrange(0, i as int));
            assert(orig.take(k) =~= orig);
        }
    }

    /// Behaves as [`Vec::dedup_by`] with the bucket relation
    /// `key(a) == key(b)`: consecutive elements with equal keys collapse
    /// into the first of the run.
    pub fn dedup_by_key<F: Fn(&T) -> K, K: PartialEq>(&mut self, key: F)
        requires
            old(self).wf(),
            forall|x: &T| #[trigger] call_requires(key, (x,)),
        ensures
            final(self).wf(),
            final(self)@.len() <= old(self)@.len(),
            forall|q: spec_fn(T) -> K|
                K::obeys_eq_spec() && #[trigger] keyed_by(key, q) ==> final(self)@ == dedup_with(
                    old(self)@,
                    key_rel(q),
                ),
    {
        let keyf: &F = &key;
        let gkey: Ghost<F> = Ghost(*keyf);
        let same = |a: &T, b: &T| -> (r: bool)
            requires
                call_requires(gkey@, (a,)),
                call_requires(gkey@, (b,)),
            ensures
                exists|ka: K, kb: K|
                    #![trigger call_ensures(gkey@, (a,), ka), call_ensures(gkey@, (b,), kb)]
                    {
                        &&& call_ensures(gkey@, (a,), ka)
                        &&& call_ensures(gkey@, (b,), kb)
                        &&& (K::obeys_eq_spec() ==> r == ka.eq_spec(&kb))
                    },
            {
                let ka = (*keyf)(a);
                let kb = (*keyf)(b);
                ka.eq(&kb)
            };
        proof {
            assert forall|q: spec_fn(T) -> K|
                K::obeys_eq_spec() && #[trigger] keyed_by(key, q) implies decided_by(
                same,
                key_rel(q),
            ) by {
                assert forall|x: &T, y: &T, r: bool| #[trigger]
                    call_ensures(same, (x, y), r) implies r == key_rel(q)(*x, *y) by {
                    let (ka, kb) = choose|ka: K, kb: K|
                        #![trigger call_ensures(key, (x,), ka), call_ensures(key, (y,), kb)]
                        {
                            &&& call_ensures(key, (x,), ka)
                            &&& call_ensures(key, (y,), kb)
                            &&& (K::obeys_eq_spec() ==> r == ka.eq_spec(&kb))
                        };
                    assert(ka == q(*x));
                    assert(kb == q(*y));
                }
            }
        }
        self.dedup_by(same);
    }

    /// Removes and returns the first element equal to `item`, closing the
    /// gap as [`Vec::remove`] does; returns `None` and leaves the
    /// container untouched when no element matches.
    pub fn remove_item<V>(&mut self, item: &V) -> (r: Option<T>) where T: PartialEq<V>
        requires
            old(self).wf(),
        ensures
            final(self).wf(),
            match r {
                Some(v) => exists|j: int|
                    {
                        &&& 0 <= j < old(self)@.len()
                        &&& v == old(self)@[j]
                        &&& final(self)@ == old(self)@.remove(j)
                    },
                None => final(self)@ == old(self)@,
            },
            T::obeys_eq_spec() ==> match r {
                Some(v) => exists|j: int|
                    {
                        &&& 0 <= j < old(self)@.len()
                        &&& old(self)@[j].eq_spec(item)
                        &&& forall|m: int| 0 <= m < j ==> !(#[trigger] old(self)@[m]).eq_spec(item)
                        &&& v == old(self)@[j]
                        &&& final(self)@ == old(self)@.remove(j)
                    },
                None => {
                    &&& final(self)@ == old(self)@
                    &&& forall|j: int|
                        0 <= j < old(self)@.len() ==> !(#[trigger] old(self)@[j]).eq_spec(item)
                },
            },
    {
        let mut i: usize = 0;
        while i < self.data.len()
            invariant
                old(self).wf(),
                self.data@ == old(self)@,
                i <= old(self)@.len(),
                T::obeys_eq_spec() ==> forall|m: int|
                    0 <= m < i ==> !(#[trigger] old(self)@[m]).eq_spec(item),
            decreases old(self)@.len() - i,
        {
            let x = &self.data[i];
            if x.eq(item) {
                let v = self.data.remove(i);
                return Some(v);
            }
            i = i + 1;
        }
        None
    }
}

impl<T: PartialEq, const N: usize> Vec<T, N> {
    /// Collapses consecutive runs of equal elements into the run's first
    /// occurrence; non-adjacent duplicates are retained.
    ///
    /// When the element type's equality obeys its specification, the
    /// result is exactly [`dedup_with`] of the old contents under that
    /// equality.
    pub fn dedup(&mut self)
        requires
            old(self).wf(),
        ensures
            final(self).wf(),
            final(self)@.len() <= old(self)@.len(),
            T::obeys_eq_spec() ==> final(self)@ == dedup_with(old(self)@, eq_rel::<T>()),
    {
        let same = |a: &T, b: &T| -> (r: bool)
            ensures
                T::obeys_eq_spec() ==> r == a.eq_spec(b),
            { a.eq(b) };
        proof {
            if T::obeys_eq_spec() {
                assert forall|x: &T, y: &T, r: bool| #[trigger]
                    call_ensures(same, (x, y), r) implies r == (eq_rel::<T>())(*x, *y) by {}
                assert(decided_by(same, eq_rel::<T>()));
            }
        }
        self.dedup_by(same);
    }
}

impl<T: Clone, const N: usize> Vec<T, N> {
    /// Sets the length to `new_len`: shrinking drops the excess elements
    /// exactly as [`Vec::truncate`] does, growing fills the slots
    /// `[len(), new_len)` with independent clones of `fill`.
    ///
    /// Fails with [`NoallocError::LengthExceed`] when `new_len` exceeds the
    /// capacity, without mutating anything.
    pub fn resize(&mut self, new_len: usize, fill: T) -> (r: Result<(), NoallocError>)
        requires
            old(self).wf(),
        ensures
            final(self).wf(),
            new_len > N ==> {
                &&& r == Err::<(), NoallocError>(NoallocError::LengthExceed)
                &&& final(self)@ == old(self)@
            },
            new_len <= N ==> r == Ok::<(), NoallocError>(()),
            new_len <= N && new_len <= old(self)@.len() ==> final(self)@ == old(self)@.subrange(
                0,
                new_len as int,
            ),
            new_len <= N && new_len > old(self)@.len() ==> {
                &&& final(self)@.len() == new_len
                &&& final(self)@.subrange(0, old(self)@.len() as int) == old(self)@
                &&& forall|i: int|
                    old(self)@.len() <= i < new_len ==> cloned::<T>(fill, #[trigger] final(self)@[i])
            },
    {
        if new_len > N {
            Err(NoallocError::LengthExceed)
        } else {
            self.data.resize(new_len, fill);
            Ok(())
        }
    }

    /// Appends a clone of every element of `other`, in order.  The combined
    /// length must fit within the capacity.
    pub fn extend_from_slice(&mut self, other: &[T])
        requires
            old(self).wf(),
            old(self)@.len() + other@.len() <= N,
        ensures
            final(self).wf(),
            final(self)@.len() == old(self)@.len() + other@.len(),
            final(self)@.subrange(0, old(self)@.len() as int) == old(self)@,
            forall|i: int|
                0 <= i < other@.len() ==> cloned::<T>(
                    other@[i],
                    #[trigger] final(self)@[old(self)@.len() + i],
                ),
    {
        self.data.extend_from_slice(other);
        proof {
            assert(final(self)@.subrange(0, old(self)@.len() as int) =~= old(self)@);
        }
    }
}

impl<T: Default + Clone, const N: usize> Vec<T, N> {
    /// Behaves as [`Vec::resize`] with `T::default()` as the fill
    /// value.
    pub fn resize_default(&mut self, new_len: usize) -> (r: Result<(), NoallocError>)
        requires
            old(self).wf(),
        ensures
            final(self).wf(),
            new_len > N ==> {
                &&& r == Err::<(), NoallocError>(NoallocError::LengthExceed)
                &&& final(self)@ == old(self)@
            },
            new_len <= N ==> r == Ok::<(), NoallocError>(()),
            new_len <= N && new_len <= old(self)@.len() ==> final(self)@ == old(self)@.subrange(
                0,
                new_len as int,
            ),
            new_len <= N && new_len > old(self)@.len() ==> {
                &&& final(self)@.len() == new_len
                &&& final(self)@.subrange(0, old(self)@.len() as int) == old(self)@
                &&& exists|d: T|
                    call_ensures(T::default, (), d) && forall|i: int|
                        old(self)@.len() <= i < new_len ==> cloned::<T>(
                            d,
                            #[trigger] final(self)@[i],
                        )
            },
    {
        self.resize(new_len, T::default())
    }
}

impl<T, const N: usize> Vec<T, N> {
    /// Exposes the live elements `[0, len())` as a contiguous read-only
    /// slice; the free slots past the length are never part of the view.
    pub fn as_slice(&self) -> (r: &[T])
        ensures
            r@ == self@,
    {
        self.data.as_slice()
    }

    /// Exposes the live elements `[0, len())` as a contiguous mutable
    /// slice.  Writes through it replace live elements one for one; the
    /// length, and therefore the invariant, cannot change through it.
    pub fn as_mut_slice(&mut self) -> (r: &mut [T])
        requires
            old(self).wf(),
        ensures
            r@ == old(self)@,
            final(r)@ == final(self)@,
            final(r)@.len() == old(self)@.len() ==> final(self).wf(),
    {
        self.data.as_mut_slice()
    }

    /// Borrows the live element at `index`.
    pub fn get(&self, index: usize) -> (r: &T)
        requires
            index < self@.len(),
        ensures
            *r == self@[index as int],
    {
        &self.data[index]
    }

    /// Overwrites the live element at `index` with `value`, dropping the
    /// previous element.
    pub fn set(&mut self, index: usize, value: T)
        requires
            old(self).wf(),
            index < old(self)@.len(),
        ensures
            final(self).wf(),
            final(self)@ == old(self)@.update(index as int, value),
    {
        self.data[index] = value;
    }

    /// Decomposes the container into its backing storage, live length and
    /// capacity, for hand-off to code that manages the slots itself.
    pub fn into_raw_parts(self) -> (r: (std::vec::Vec<T>, usize, usize))
        requires
            self.wf(),
        ensures
            r.0@ == self@,
            r.1 == self@.len(),
            r.2 == N,
    {
        let Vec { data } = self;
        let length: usize = data.len();
        (data, length, N)
    }

    /// Rebuilds a container from a storage/length/capacity triple, without
    /// any runtime validation: the caller must hand back a triple whose
    /// storage holds exactly `length` live elements and whose capacity is
    /// the target capacity `N`.
    pub fn from_row_parts(data: std::vec::Vec<T>, length: usize, capacity: usize) -> (r: Self)
        requires
            data@.len() == length,
            length <= capacity,
            capacity == N,
        ensures
            r@ == data@,
            r.wf(),
    {
        Vec { data }
    }

    /// Exporting a container through [`Vec::into_raw_parts`] and
    /// importing the triple back at the same capacity reproduces an
    /// observably identical container: the exported triple always meets the
    /// import obligation, and the live element sequence survives the round
    /// trip unchanged.
    pub fn raw_parts_round_trip(self) -> (r: Self)
        requires
            self.wf(),
        ensures
            r@ == self@,
            r.wf(),
    {
        let (data, length, capacity) = self.into_raw_parts();
        Vec::<T, N>::from_row_parts(data, length, capacity)
    }
}

} // verus!
