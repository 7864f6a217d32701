//! Small shared utilities: ordering helpers, rounding to a multiple, and the
//! derivative-style transform that drops the first and last sample of each
//! sequence.

use vstd::prelude::*;

verus! {

/// The smaller of two indices.
pub fn min(x: usize, y: usize) -> (r: usize)
    ensures
        r == (if x < y { x } else { y }),
{
    if x < y {
        x
    } else {
        y
    }
}

/// The larger of two indices.
pub fn max(x: usize, y: usize) -> (r: usize)
    ensures
        r == (if x > y { x } else { y }),
{
    if x > y {
        x
    } else {
        y
    }
}

/// The least multiple of `n` that is not smaller than `x`.
pub fn next_multiple_of_n(x: usize, n: usize) -> (r: usize)
    requires
        1 <= n,
        x + n - 1 <= usize::MAX,
    ensures
        r % n == 0,
        x <= r < x + n,
{
    let q: usize = x / n;
    let rem: usize = x % n;
    proof {
        vstd::arithmetic::div_mod::lemma_fundamental_div_mod(x as int, n as int);
    }
    if rem == 0 {
        x
    } else {
        proof {
            assert((q + 1) * (n as int) == n * q + n) by (nonlinear_arith);
            assert((q + 1) * (n as int) == x - rem + n);
            vstd::arithmetic::div_mod::lemma_mod_multiples_basic(q as int + 1, n as int);
        }
        (q + 1) * n
    }
}

/// Applies a three-point rule to every interior sample of every sequence of
/// a collection, dropping the first and last sample: each transformed
/// sequence is exactly two samples shorter than its source, and its entry
/// `j` is an admissible output of the rule on the source window starting at
/// `j`.  The derivative rule itself is a closure supplied by the caller.
#[verifier::loop_isolation(false)]
pub fn derivate<E: Copy, U, F>(x: &Vec<Vec<E>>, rule: F) -> (r: Vec<Vec<U>>) where
    F: Fn(E, E, E) -> U,
    requires
        forall|k: int| 0 <= k < x@.len() ==> #[trigger] x@[k]@.len() >= 2,
        forall|a: E, b: E, c: E| #[trigger] call_requires(rule, (a, b, c)),
    ensures
        r@.len() == x@.len(),
        forall|k: int| 0 <= k < x@.len() ==> #[trigger] r@[k]@.len() == x@[k]@.len() - 2,
        forall|k: int, j: int|
            0 <= k < x@.len() && 0 <= j < x@[k]@.len() - 2 ==> call_ensures(
                rule,
                (x@[k]@[j], x@[k]@[j + 1], x@[k]@[j + 2]),
                #[trigger] r@[k]@[j],
            ),
{
    let mut r: Vec<Vec<U>> = Vec::new();
    let mut k: usize = 0;
    while k < x.len()
        invariant
            k <= x@.len(),
            r@.len() == k,
            forall|k2: int| 0 <= k2 < k ==> #[trigger] r@[k2]@.len() == x@[k2]@.len() - 2,
            forall|k2: int, j2: int|
                0 <= k2 < k && 0 <= j2 < x@[k2]@.len() - 2 ==> call_ensures(
                    rule,
                    (x@[k2]@[j2], x@[k2]@[j2 + 1], x@[k2]@[j2 + 2]),
                    #[trigger] r@[k2]@[j2],
                ),
        decreases x@.len() - k,
    {
        let item: &Vec<E> = &x[k];
        let mut row: Vec<U> = Vec::new();
        let mut j: usize = 0;
        while j < item.len() - 2
            invariant
                j <= item@.len() - 2,
                row@.len() == j,
                forall|j2: int|
                    0 <= j2 < j ==> call_ensures(
                        rule,
                        (item@[j2], item@[j2 + 1], item@[j2 + 2]),
                        #[trigger] row@[j2],
                    ),
            decreases item@.len() - 2 - j,
        {
            let v: U = rule(item[j], item[j + 1], item[j + 2]);
            row.push(v);
            j = j + 1;
        }
        r.push(row);
        k = k + 1;
    }
    r
}

/// A vector of `len` copies of `val`.
pub fn filled<T: Copy>(len: usize, val: T) -> (v: Vec<T>)
    ensures
        v@.len() == len,
        forall|k: int| 0 <= k < len ==> v@[k] == val,
{
    let mut v: Vec<T> = Vec::new();
    let mut k: usize = 0;
    while k < len
        invariant
            k <= len,
            v@.len() == k,
            forall|t: int| 0 <= t < k ==> v@[t] == val,
        decreases len - k,
    {
        v.push(val);
        k = k + 1;
    }
    v
}

} // verus!
