use vstd::prelude::*;

verus! {

/// `keys[i]` is the smallest non-negative key, and no earlier key is as small.
pub open spec fn is_hit(keys: Seq<i64>, i: int) -> bool {
    &&& 0 <= i < keys.len()
    &&& keys[i] >= 0
    &&& forall|j: int| 0 <= j < keys.len() && keys[j] >= 0 ==> keys[i] <= #[trigger] keys[j]
    &&& forall|j: int| 0 <= j < i && keys[j] >= 0 ==> keys[i] < #[trigger] keys[j]
}

/// Picks the hit among intersections: the nearest one in front of the ray.
///
/// Each key stands for an intersection's parameter `t`: keys are ordered as the
/// parameters are, and a key is negative exactly where its parameter is. The result
/// is the position of the first smallest non-negative key, or `None` where every key
/// is negative (or there is none).
pub fn hit_index(keys: &Vec<i64>) -> (r: Option<usize>)
    ensures
        r.is_none() <==> forall|j: int| 0 <= j < keys@.len() ==> #[trigger] keys@[j] < 0,
        r matches Some(i) ==> is_hit(keys@, i as int),
{
    let mut best: Option<usize> = None;
    let mut i: usize = 0;
    while i < keys.len()
        invariant
            i <= keys@.len(),
            best.is_none() <==> forall|j: int| 0 <= j < i ==> #[trigger] keys@[j] < 0,
            best matches Some(b) ==> is_hit(keys@.take(i as int), b as int),
        decreases keys@.len() - i,
    {
        let k = keys[i];
        if k >= 0 {
            match best {
                None => {
                    best = Some(i);
                },
                Some(b) => {
                    if k < keys[b] {
                        best = Some(i);
                    }
                },
            }
        }
        proof {
            let prev = keys@.take(i as int);
            let next = keys@.take(i + 1);
            assert(next =~= prev.push(k));
            if let Some(b) = best {
                assert forall|j: int| 0 <= j < next.len() && next[j] >= 0 implies next[b as int]
                    <= #[trigger] next[j] by {
                    if j < i {
                        assert(next[j] == prev[j]);
                    }
                }
                assert forall|j: int| 0 <= j < b && next[j] >= 0 implies next[b as int]
                    < #[trigger] next[j] by {
                    assert(next[j] == prev[j]);
                }
            }
        }
        i = i + 1;
    }
    proof {
        assert(keys@.take(keys@.len() as int) =~= keys@);
    }
    best
}

} // verus!
