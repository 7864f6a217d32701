//! Pairwise matrix orchestration: the error type shared by every distance
//! operation, the device selector, and the generic pairwise matrix driver.

use vstd::prelude::*;

verus! {

/// Error type for distance computation: a caller-supplied parameter violated
/// its documented constraint, or the accelerated backend failed internally.
#[derive(Debug, Clone)]
pub enum DistanceError {
    InvalidParameter(String),
    ComputationError(String),
}

/// The backend that executes a metric invocation.
#[derive(Debug, Clone, Copy, PartialEq, Eq, Structural)]
pub enum Device {
    Cpu,
    Gpu,
}

/// Parses the string-valued device selector: exactly `"cpu"` and `"gpu"` are
/// accepted, and any other string is an invalid parameter.
pub fn parse_device(device: &str) -> (r: Result<Device, DistanceError>)
    ensures
        device@ == "cpu"@ ==> r == Ok::<Device, DistanceError>(Device::Cpu),
        device@ == "gpu"@ ==> r == Ok::<Device, DistanceError>(Device::Gpu),
        device@ != "cpu"@ && device@ != "gpu"@ ==> (r matches Err(
            DistanceError::InvalidParameter(msg),
        ) && msg@ == "Device must be either 'cpu' or 'gpu'"@),
{
    proof {
        reveal_strlit("cpu");
        reveal_strlit("gpu");
        // The two selectors differ in their first character.
        assert("cpu"@[0] == 'c' && "gpu"@[0] == 'g');
        assert("cpu"@ != "gpu"@);
    }
    let d: String = device.to_owned();
    if d == "cpu".to_owned() {
        Ok(Device::Cpu)
    } else if d == "gpu".to_owned() {
        Ok(Device::Gpu)
    } else {
        Err(
            DistanceError::InvalidParameter(
                "Device must be either 'cpu' or 'gpu'".to_owned(),
            ),
        )
    }
}

/// The scalar distance function was applied to the pair `(a, b)` of
/// sequences, shorter sequence first, and `v` is an admissible result.
pub open spec fn pair_value<E, T, F>(distance: F, a: &Vec<E>, b: &Vec<E>, v: T) -> bool where
    F: Fn(&Vec<E>, &Vec<E>) -> T
 {
    if a@.len() > b@.len() {
        call_ensures(distance, (b, a), v)
    } else {
        call_ensures(distance, (a, b), v)
    }
}

/// Mirrors a strict-lower-triangle table of pairwise values into a full
/// square matrix: row `i` of `rows` holds the `i` values below the diagonal,
/// the diagonal is exactly `zero`, and the upper triangle is the mirror
/// image of the lower one, so the result is symmetric by construction.
#[verifier::loop_isolation(false)]
pub fn mirror_lower_triangle<T: Copy>(rows: &Vec<Vec<T>>, zero: T) -> (mat: Vec<Vec<T>>)
    requires
        forall|i: int| 0 <= i < rows@.len() ==> #[trigger] rows@[i]@.len() == i,
    ensures
        mat@.len() == rows@.len(),
        forall|i: int| 0 <= i < mat@.len() ==> #[trigger] mat@[i]@.len() == mat@.len(),
        forall|i: int| 0 <= i < mat@.len() ==> #[trigger] mat@[i]@[i] == zero,
        forall|i: int, j: int|
            0 <= i < mat@.len() && 0 <= j < mat@.len() ==> #[trigger] mat@[i]@[j] == mat@[j]@[i],
        forall|i: int, j: int| 0 <= j < i < mat@.len() ==> #[trigger] mat@[i]@[j] == rows@[i]@[j],
{
    let k: usize = rows.len();
    let mut mat: Vec<Vec<T>> = Vec::new();
    let mut i: usize = 0;
    while i < k
        invariant
            i <= k,
            mat@.len() == i,
            forall|i2: int| 0 <= i2 < i ==> #[trigger] mat@[i2]@.len() == k,
            forall|i2: int, j2: int|
                0 <= i2 < i && 0 <= j2 < k ==> #[trigger] mat@[i2]@[j2] == (if j2 < i2 {
                    rows@[i2]@[j2]
                } else if j2 == i2 {
                    zero
                } else {
                    rows@[j2]@[i2]
                }),
        decreases k - i,
    {
        let mut row: Vec<T> = Vec::new();
        let mut j: usize = 0;
        while j < k
            invariant
                j <= k,
                row@.len() == j,
                forall|j2: int|
                    0 <= j2 < j ==> #[trigger] row@[j2] == (if j2 < i as int {
                        rows@[i as int]@[j2]
                    } else if j2 == i as int {
                        zero
                    } else {
                        rows@[j2]@[i as int]
                    }),
            decreases k - j,
        {
            let v: T = if j < i {
                rows[i][j]
            } else if j == i {
                zero
            } else {
                rows[j][i]
            };
            row.push(v);
            j = j + 1;
        }
        mat.push(row);
        i = i + 1;
    }
    mat
}

/// Computes the pairwise distance matrix between two collections of
/// sequences, or of one collection against itself.
///
/// With a second collection the full `|x1| x |x2|` grid is computed, one
/// scalar distance call per cell, handing the shorter sequence of each pair
/// to the distance function first.  Without one, only the strict lower
/// triangle is computed; the diagonal is exactly `zero` and the upper
/// triangle mirrors the lower one, so the result is square and symmetric by
/// construction.
#[verifier::loop_isolation(false)]
#[verifier::rlimit(60)]
pub fn compute_distance<E, T: Copy, F>(
    distance: F,
    x1: &Vec<Vec<E>>,
    x2: Option<&Vec<Vec<E>>>,
    zero: T,
) -> (mat: Vec<Vec<T>>) where F: Fn(&Vec<E>, &Vec<E>) -> T
    requires
        forall|i: int, j: int|
            0 <= i < x1@.len() && 0 <= j < x1@.len() ==> #[trigger] call_requires(
                distance,
                (&x1[i], &x1[j]),
            ),
        x2 matches Some(y) ==> forall|i: int, j: int|
            0 <= i < x1@.len() && 0 <= j < y@.len() ==> #[trigger] call_requires(
                distance,
                (&x1[i], &y[j]),
            ),
        x2 matches Some(y) ==> forall|i: int, j: int|
            0 <= i < x1@.len() && 0 <= j < y@.len() ==> #[trigger] call_requires(
                distance,
                (&y[j], &x1[i]),
            ),
    ensures
        mat@.len() == x1@.len(),
        x2 matches Some(y) ==> forall|i: int|
            0 <= i < x1@.len() ==> #[trigger] mat@[i]@.len() == y@.len(),
        x2 matches Some(y) ==> forall|i: int, j: int|
            0 <= i < x1@.len() && 0 <= j < y@.len() ==> pair_value(
                distance,
                &x1[i],
                &y[j],
                #[trigger] mat@[i]@[j],
            ),
        x2 is None ==> forall|i: int| 0 <= i < x1@.len() ==> #[trigger] mat@[i]@.len() == x1@.len(),
        x2 is None ==> forall|i: int| 0 <= i < x1@.len() ==> #[trigger] mat@[i]@[i] == zero,
        x2 is None ==> forall|i: int, j: int|
            0 <= i < x1@.len() && 0 <= j < x1@.len() ==> #[trigger] mat@[i]@[j] == mat@[j]@[i],
        x2 is None ==> forall|i: int, j: int|
            0 <= j < i < x1@.len() ==> pair_value(distance, &x1[i], &x1[j], #[trigger] mat@[i]@[j]),
{
    let k: usize = x1.len();
    match x2 {
        Some(y) => {
            let mut mat: Vec<Vec<T>> = Vec::new();
            let mut i: usize = 0;
            while i < k
                invariant
                    i <= k,
                    mat@.len() == i,
                    forall|i2: int| 0 <= i2 < i ==> #[trigger] mat@[i2]@.len() == y@.len(),
                    forall|i2: int, j2: int|
                        0 <= i2 < i && 0 <= j2 < y@.len() ==> pair_value(
                            distance,
                            &x1[i2],
                            &y[j2],
                            #[trigger] mat@[i2]@[j2],
                        ),
                decreases k - i,
            {
                let mut row: Vec<T> = Vec::new();
                let mut j: usize = 0;
                while j < y.len()
                    invariant
                        j <= y@.len(),
                        row@.len() == j,
                        forall|j2: int|
                            0 <= j2 < j ==> pair_value(
                                distance,
                                &x1[i as int],
                                &y[j2],
                                #[trigger] row@[j2],
                            ),
                    decreases y@.len() - j,
                {
                    let v: T = if x1[i].len() > y[j].len() {
                        distance(&y[j], &x1[i])
                    } else {
                        distance(&x1[i], &y[j])
                    };
                    row.push(v);
                    j = j + 1;
                }
                mat.push(row);
                i = i + 1;
            }
            mat
        },
        None => {
            // Strict lower triangle: row `i` holds the distances to the
            // `i` earlier sequences.
            let mut rows: Vec<Vec<T>> = Vec::new();
            let mut i: usize = 0;
            while i < k
                invariant
                    i <= k,
                    rows@.len() == i,
                    forall|i2: int| 0 <= i2 < i ==> #[trigger] rows@[i2]@.len() == i2,
                    forall|i2: int, j2: int|
                        0 <= j2 < i2 < i ==> pair_value(
                            distance,
                            &x1[i2],
                            &x1[j2],
                            #[trigger] rows@[i2]@[j2],
                        ),
                decreases k - i,
            {
                let mut row: Vec<T> = Vec::new();
                let mut j: usize = 0;
                while j < i
                    invariant
                        j <= i,
                        row@.len() == j,
                        forall|j2: int|
                            0 <= j2 < j ==> pair_value(
                                distance,
                                &x1[i as int],
                                &x1[j2],
                                #[trigger] row@[j2],
                            ),
                    decreases i - j,
                {
                    let v: T = if x1[i].len() > x1[j].len() {
                        distance(&x1[j], &x1[i])
                    } else {
                        distance(&x1[i], &x1[j])
                    };
                    row.push(v);
                    j = j + 1;
                }
                rows.push(row);
                i = i + 1;
            }

            // Mirror the lower triangle into a full square matrix with an
            // explicit zero diagonal.
            mirror_lower_triangle(&rows, zero)
        },
    }
}

} // verus!
