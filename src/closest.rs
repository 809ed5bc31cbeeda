use vstd::prelude::*;

verus! {

/// The distance of a number from zero.
pub open spec fn dist(x: int) -> int {
    if x < 0 {
        -x
    } else {
        x
    }
}

/// `x` is at least as close to zero as `y`, counting a positive number as
/// closer than the negative number at the same distance.
pub open spec fn at_least_as_close(x: int, y: int) -> bool {
    dist(x) < dist(y) || (dist(x) == dist(y) && x >= y)
}

fn distance(x: i32) -> (r: i64)
    ensures
        r == dist(x as int),
{
    if x < 0 {
        -(x as i64)
    } else {
        x as i64
    }
}

/// The element of the list closest to zero; of two at the same distance the
/// positive one. `None` for an empty list.
pub fn to_zero(list: &Vec<i32>) -> (r: Option<i32>)
    ensures
        r is None <==> list@.len() == 0,
        r matches Some(x) ==> list@.contains(x) && forall|i: int|
            0 <= i < list@.len() ==> at_least_as_close(x as int, #[trigger] list@[i] as int),
{
    if list.len() == 0 {
        return None;
    }
    let mut closest: i32 = list[0];
    let mut closest_dist: i64 = distance(closest);
    let mut k: usize = 1;
    while k < list.len()
        invariant
            1 <= k <= list@.len(),
            list@.contains(closest),
            closest_dist == dist(closest as int),
            forall|i: int| 0 <= i < k ==> at_least_as_close(closest as int, #[trigger] list@[i] as int),
        decreases list@.len() - k,
    {
        let n = list[k];
        let d = distance(n);
        if d < closest_dist || (d == closest_dist && n > closest) {
            closest = n;
            closest_dist = d;
            proof {
                assert(list@[k as int] == n);
            }
        }
        k += 1;
    }
    Some(closest)
}

} // verus!
