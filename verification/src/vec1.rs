//! A vector that always holds at least one element. Every operation that
//! could empty it is offered only in a fallible form returning `Size0Error`.

use vstd::prelude::*;
use vstd::pervasive::cloned;

verus! {

/// The error returned by any `Vec1` operation that would have left the
/// vector empty.
#[derive(Debug, Hash, PartialEq, Eq, Structural, Copy, Clone)]
pub struct Size0Error;

/// A `Vec` wrapper whose well-formedness invariant is that it is never empty.
#[derive(Debug, Clone)]
pub struct Vec1<T>(Vec<T>);

impl<T> View for Vec1<T> {
    type V = Seq<T>;

    closed spec fn view(&self) -> Seq<T> {
        self.0@
    }
}

/// Relies on std's `Vec::capacity`: a vector's capacity is at least its
/// length.
#[verifier::external_body]
fn vec_capacity<T>(v: &Vec<T>) -> (r: usize)
    ensures
        r >= v@.len(),
{
    v.capacity()
}

/// Relies on std's `Vec::reserve_exact`: reserving space changes only the
/// capacity, never the contents.
#[verifier::external_body]
fn vec_reserve_exact<T>(v: &mut Vec<T>, additional: usize)
    ensures
        final(v)@ == old(v)@,
{
    v.reserve_exact(additional)
}

/// Relies on std's `Vec::shrink_to_fit`: shrinking changes only the
/// capacity, never the contents.
#[verifier::external_body]
fn vec_shrink_to_fit<T>(v: &mut Vec<T>)
    ensures
        final(v)@ == old(v)@,
{
    v.shrink_to_fit()
}

impl<T> Vec1<T> {
    /// The invariant every constructor establishes and every method
    /// preserves: the vector is never empty.
    pub open spec fn wf(&self) -> bool {
        self@.len() >= 1
    }

    pub fn new(first: T) -> (r: Self)
        ensures
            r@ =~= seq![first],
            r.wf(),
    {
        let mut v: Vec<T> = Vec::new();
        v.push(first);
        Vec1(v)
    }

    pub fn from_vec(vec: Vec<T>) -> (r: Result<Self, Vec<T>>)
        ensures
            vec@.len() > 0 <==> r is Ok,
            r matches Ok(v1) ==> v1@ == vec@ && v1.wf(),
            r matches Err(v) ==> v@ == vec@,
    {
        if vec.len() > 0 {
            Ok(Vec1(vec))
        } else {
            Err(vec)
        }
    }

    pub fn with_capacity(first: T, capacity: usize) -> (r: Self)
        ensures
            r@ =~= seq![first],
            r.wf(),
    {
        let mut v: Vec<T> = Vec::with_capacity(capacity);
        v.push(first);
        Vec1(v)
    }

    pub fn into_vec(self) -> (r: Vec<T>)
        ensures
            r@ == self@,
    {
        self.0
    }

    /// A reference to the last element; as the vector is never empty there
    /// always is one.
    pub fn last(&self) -> (r: &T)
        requires
            self.wf(),
        ensures
            *r == self@.last(),
    {
        let i = self.0.len() - 1;
        &self.0[i]
    }

    /// A mutable reference to the last element.
    pub fn last_mut(&mut self) -> (r: &mut T)
        requires
            old(self).wf(),
        ensures
            *r == old(self)@.last(),
            final(self)@ == old(self)@.update(old(self)@.len() - 1, *final(r)),
            final(self).wf(),
    {
        let i = self.0.len() - 1;
        &mut self.0[i]
    }

    /// Truncate to `len` elements; truncating to zero is refused.
    pub fn try_truncate(&mut self, len: usize) -> (r: Result<(), Size0Error>)
        requires
            old(self).wf(),
        ensures
            r is Ok <==> len > 0,
            len == 0 ==> final(self)@ == old(self)@,
            0 < len <= old(self)@.len() ==> final(self)@ == old(self)@.subrange(0, len as int),
            len > old(self)@.len() ==> final(self)@ == old(self)@,
            final(self).wf(),
    {
        if len > 0 {
            self.0.truncate(len);
            Ok(())
        } else {
            Err(Size0Error)
        }
    }

    /// Swap-remove the element at `index`; refused when only one element is
    /// left.
    pub fn try_swap_remove(&mut self, index: usize) -> (r: Result<T, Size0Error>)
        requires
            old(self).wf(),
            old(self)@.len() > 1 ==> index < old(self)@.len(),
        ensures
            r is Ok <==> old(self)@.len() > 1,
            r matches Ok(t) ==> t == old(self)@[index as int] && final(self)@ == old(self)@.update(
                index as int,
                old(self)@.last(),
            ).drop_last(),
            r is Err ==> final(self)@ == old(self)@,
            final(self).wf(),
    {
        if self.0.len() > 1 {
            Ok(self.0.swap_remove(index))
        } else {
            Err(Size0Error)
        }
    }

    /// Remove the element at `index`; refused when only one element is left.
    pub fn try_remove(&mut self, index: usize) -> (r: Result<T, Size0Error>)
        requires
            old(self).wf(),
            old(self)@.len() > 1 ==> index < old(self)@.len(),
        ensures
            r is Ok <==> old(self)@.len() > 1,
            r matches Ok(t) ==> t == old(self)@[index as int] && final(self)@ == old(
                self,
            )@.remove(index as int),
            r is Err ==> final(self)@ == old(self)@,
            final(self).wf(),
    {
        if self.0.len() > 1 {
            Ok(self.0.remove(index))
        } else {
            Err(Size0Error)
        }
    }

    /// Split off the tail starting at `at`; refused when either side would
    /// be empty.
    pub fn try_split_off(&mut self, at: usize) -> (r: Result<Vec1<T>, Size0Error>)
        requires
            old(self).wf(),
        ensures
            r is Ok <==> 0 < at < old(self)@.len(),
            r matches Ok(tail) ==> final(self)@ == old(self)@.subrange(0, at as int) && tail@
                == old(self)@.subrange(at as int, old(self)@.len() as int) && tail.wf(),
            r is Err ==> final(self)@ == old(self)@,
            final(self).wf(),
    {
        if at == 0 {
            Err(Size0Error)
        } else if at >= self.0.len() {
            Err(Size0Error)
        } else {
            let out = self.0.split_off(at);
            Ok(Vec1(out))
        }
    }

    /// Pop the last element, but only while more than one element is left.
    pub fn pop(&mut self) -> (r: Option<T>)
        requires
            old(self).wf(),
        ensures
            r is Some <==> old(self)@.len() > 1,
            r matches Some(t) ==> t == old(self)@.last() && final(self)@ == old(self)@.drop_last(),
            r is None ==> final(self)@ == old(self)@,
            final(self).wf(),
    {
        if self.0.len() > 1 {
            self.0.pop()
        } else {
            None
        }
    }

    pub fn as_vec(&self) -> (r: &Vec<T>)
        ensures
            r@ == self@,
    {
        &self.0
    }

    pub fn reserve(&mut self, additional: usize)
        ensures
            final(self)@ == old(self)@,
    {
        self.0.reserve(additional)
    }

    pub fn reserve_exact(&mut self, additional: usize)
        ensures
            final(self)@ == old(self)@,
    {
        vec_reserve_exact(&mut self.0, additional)
    }

    pub fn shrink_to_fit(&mut self)
        ensures
            final(self)@ == old(self)@,
    {
        vec_shrink_to_fit(&mut self.0)
    }

    pub fn as_slice(&self) -> (r: &[T])
        ensures
            r@ == self@,
    {
        self.0.as_slice()
    }

    pub fn as_mut_slice(&mut self) -> (r: &mut [T])
        ensures
            r@ == old(self)@,
            final(self)@ == final(r)@,
    {
        self.0.as_mut_slice()
    }

    pub fn push(&mut self, value: T)
        ensures
            final(self)@ == old(self)@.push(value),
    {
        self.0.push(value)
    }

    /// Move every element of `other` to the end, leaving `other` empty.
    pub fn append(&mut self, other: &mut Vec<T>)
        ensures
            final(self)@ == old(self)@ + old(other)@,
            final(other)@ == Seq::<T>::empty(),
    {
        self.0.append(other)
    }

    pub fn insert(&mut self, idx: usize, val: T)
        requires
            idx <= old(self)@.len(),
        ensures
            final(self)@ == old(self)@.insert(idx as int, val),
    {
        self.0.insert(idx, val)
    }

    pub fn len(&self) -> (r: usize)
        ensures
            r == self@.len(),
    {
        self.0.len()
    }

    pub fn capacity(&self) -> (r: usize)
        ensures
            r >= self@.len(),
    {
        vec_capacity(&self.0)
    }

    /// Remove, of each run of consecutive elements that `same_bucket` judges
    /// to belong together, all but the first. The first element always stays,
    /// so the vector stays non-empty.
    pub fn dedup_by<F: Fn(&T, &T) -> bool>(&mut self, same_bucket: F)
        requires
            old(self).wf(),
            forall|a: &T, b: &T| call_requires(same_bucket, (a, b)),
        ensures
            final(self).wf(),
            final(self)@.len() <= old(self)@.len(),
            final(self)@[0] == old(self)@[0],
            forall|i: int| 0 <= i < final(self)@.len() ==> old(self)@.contains(final(self)@[i]),
            forall|i: int|
                1 <= i < final(self)@.len() ==> #[trigger] call_ensures(
                    same_bucket,
                    (&final(self)@[i], &final(self)@[i - 1]),
                    false,
                ),
    {
        let ghost orig = self@;
        let mut i: usize = 1;
        while i < self.0.len()
            invariant
                1 <= i,
                self.0@.len() >= 1,
                self.0@.len() <= orig.len(),
                self.0@[0] == orig[0],
                forall|a: &T, b: &T| call_requires(same_bucket, (a, b)),
                forall|j: int| 0 <= j < self.0@.len() ==> orig.contains(self.0@[j]),
                forall|j: int|
                    1 <= j < i ==> #[trigger] call_ensures(
                        same_bucket,
                        (&self.0@[j], &self.0@[j - 1]),
                        false,
                    ),
            decreases self.0@.len() - i,
        {
            if same_bucket(&self.0[i], &self.0[i - 1]) {
                self.0.remove(i);
            } else {
                i = i + 1;
            }
        }
        proof {
            assert(forall|j: int| 0 <= j < self@.len() ==> orig.contains(self@[j]));
        }
    }

    /// Deduplicate consecutive elements that map to equal keys.
    pub fn dedup_by_key<F: Fn(&T) -> K, K: PartialEq>(&mut self, key: F)
        requires
            old(self).wf(),
            forall|a: &T| call_requires(key, (a,)),
        ensures
            final(self).wf(),
            final(self)@.len() <= old(self)@.len(),
            final(self)@[0] == old(self)@[0],
            forall|i: int| 0 <= i < final(self)@.len() ==> old(self)@.contains(final(self)@[i]),
    {
        let ghost orig = self@;
        let mut i: usize = 1;
        while i < self.0.len()
            invariant
                1 <= i,
                self.0@.len() >= 1,
                self.0@.len() <= orig.len(),
                self.0@[0] == orig[0],
                forall|a: &T| call_requires(key, (a,)),
                forall|j: int| 0 <= j < self.0@.len() ==> orig.contains(self.0@[j]),
            decreases self.0@.len() - i,
        {
            let ka = key(&self.0[i]);
            let kb = key(&self.0[i - 1]);
            if ka == kb {
                self.0.remove(i);
            } else {
                i = i + 1;
            }
        }
    }
}

impl<T: Clone> Vec1<T> {
    /// Resize to `new_len` elements, cloning `value` into new slots;
    /// resizing to zero is refused.
    pub fn try_resize(&mut self, new_len: usize, value: T) -> (r: Result<(), Size0Error>)
        requires
            old(self).wf(),
        ensures
            r is Ok <==> new_len >= 1,
            new_len == 0 ==> final(self)@ == old(self)@,
            1 <= new_len <= old(self)@.len() ==> final(self)@ == old(self)@.subrange(
                0,
                new_len as int,
            ),
            new_len > old(self)@.len() ==> {
                &&& final(self)@.len() == new_len
                &&& final(self)@.subrange(0, old(self)@.len() as int) == old(self)@
                &&& forall|i: int|
                    #![all_triggers]
                    old(self)@.len() <= i < new_len ==> cloned::<T>(value, final(self)@[i])
            },
            final(self).wf(),
    {
        if new_len >= 1 {
            self.0.resize(new_len, value);
            Ok(())
        } else {
            Err(Size0Error)
        }
    }

    pub fn extend_from_slice(&mut self, other: &[T])
        ensures
            final(self)@.len() == old(self)@.len() + other@.len(),
            forall|i: int|
                #![trigger final(self)@[i]]
                0 <= i < final(self)@.len() ==> if i < old(self)@.len() {
                    final(self)@[i] == old(self)@[i]
                } else {
                    cloned::<T>(other@[i - old(self)@.len()], final(self)@[i])
                },
    {
        self.0.extend_from_slice(other)
    }
}

impl<T: PartialEq> Vec1<T> {
    /// Deduplicate consecutive equal elements (misspelt historical name,
    /// kept alongside `dedup`).
    pub fn dedub(&mut self)
        requires
            old(self).wf(),
        ensures
            final(self).wf(),
            final(self)@.len() <= old(self)@.len(),
            final(self)@[0] == old(self)@[0],
            forall|i: int| 0 <= i < final(self)@.len() ==> old(self)@.contains(final(self)@[i]),
    {
        self.dedup()
    }

    /// Deduplicate consecutive equal elements.
    pub fn dedup(&mut self)
        requires
            old(self).wf(),
        ensures
            final(self).wf(),
            final(self)@.len() <= old(self)@.len(),
            final(self)@[0] == old(self)@[0],
            forall|i: int| 0 <= i < final(self)@.len() ==> old(self)@.contains(final(self)@[i]),
    {
        let ghost orig = self@;
        let mut i: usize = 1;
        while i < self.0.len()
            invariant
                1 <= i,
                self.0@.len() >= 1,
                self.0@.len() <= orig.len(),
                self.0@[0] == orig[0],
                forall|j: int| 0 <= j < self.0@.len() ==> orig.contains(self.0@[j]),
            decreases self.0@.len() - i,
        {
            if self.0[i] == self.0[i - 1] {
                self.0.remove(i);
            } else {
                i = i + 1;
            }
        }
    }
}

} // verus!
