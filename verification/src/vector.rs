//! The vectors both towers write: scaled to unit length, so that a dot
//! product of two of them is a cosine.

use vstd::prelude::*;

verus! {

/// Whether `scaled` is `vector` with each of its values divided by the
/// vector's length, or the vector itself where it has none.
pub open spec fn scales<T, L: Fn(&Vec<T>) -> Option<T>, D: Fn(T, T) -> T>(
    vector: Vec<T>,
    scaled: Seq<T>,
    length: L,
    divide: D,
) -> bool {
    exists|by: Option<T>|
        {
            &&& #[trigger] call_ensures(length, (&vector,), by)
            &&& match by {
                None => scaled == vector@,
                Some(by) => {
                    &&& scaled.len() == vector@.len()
                    &&& forall|i: int|
                        0 <= i < scaled.len() ==> call_ensures(
                            divide,
                            (vector@[i], by),
                            #[trigger] scaled[i],
                        )
                },
            }
        }
}

/// The vector scaled to unit length. `length` is how long a vector is, and
/// nothing for one that is not longer than zero: it has no direction and is
/// left alone.
pub fn normalize<T: Copy, L: Fn(&Vec<T>) -> Option<T>, D: Fn(T, T) -> T>(
    vector: Vec<T>,
    length: &L,
    divide: &D,
) -> (scaled: Vec<T>)
    requires
        call_requires(*length, (&vector,)),
        forall|value: T, by: T| call_requires(*divide, (value, by)),
    ensures
        scales(vector, scaled@, *length, *divide),
{
    match length(&vector) {
        None => vector,
        Some(by) => {
            let mut scaled: Vec<T> = Vec::new();
            let mut i: usize = 0;
            while i < vector.len()
                invariant
                    i <= vector@.len(),
                    scaled@.len() == i,
                    forall|value: T, by: T| call_requires(*divide, (value, by)),
                    forall|k: int|
                        0 <= k < i ==> call_ensures(
                            *divide,
                            (vector@[k], by),
                            #[trigger] scaled@[k],
                        ),
                decreases vector@.len() - i,
            {
                scaled.push(divide(vector[i], by));
                i = i + 1;
            }
            scaled
        },
    }
}

/// Scaling keeps every value in its place: where division has one answer, the
/// value at a place is the vector's own value there divided by the length of
/// the whole vector, and a vector without a length is left as it is.
pub proof fn law_each_value_is_divided_by_the_length<
    T,
    L: Fn(&Vec<T>) -> Option<T>,
    D: Fn(T, T) -> T,
>(
    vector: Vec<T>,
    scaled: Seq<T>,
    length: L,
    divide: D,
    long: Option<T>,
    divided: spec_fn(T, T) -> T,
)
    requires
        scales(vector, scaled, length, divide),
        forall|to: Option<T>| #[trigger] call_ensures(length, (&vector,), to) ==> to == long,
        forall|value: T, by: T, to: T| #[trigger]
            call_ensures(divide, (value, by), to) ==> to == divided(value, by),
    ensures
        scaled.len() == vector@.len(),
        long is None ==> scaled == vector@,
        long matches Some(by) ==> forall|i: int|
            0 <= i < scaled.len() ==> (#[trigger] scaled[i]) == divided(vector@[i], by),
{
}

} // verus!
