//! The arrival matrix: which container arrives at which inbound lane, and
//! in which order.

use vstd::prelude::*;
use vstd::set_lib::lemma_int_range;
use vstd::set_lib::lemma_len_subset;
use vstd::set_lib::lemma_subset_equality;
use vstd::set_lib::set_int_range;

verus! {

/// `a` is the arrival matrix of an `n`-lane yard: `n * n` container ids,
/// row-major by inbound lane and arrival rank, each below `n * n`, no id
/// twice.
pub open spec fn valid_arrivals(n: nat, a: Seq<usize>) -> bool {
    &&& n >= 1
    &&& a.len() == n * n
    &&& forall|k: int| 0 <= k < a.len() ==> (#[trigger] a[k]) < n * n
    &&& forall|j: int, k: int| 0 <= j < k < a.len() ==> a[j] != a[k]
}

/// The place of container `id` in the arrival matrix.
pub open spec fn slot_of(a: Seq<usize>, id: int) -> int {
    choose|k: int| 0 <= k < a.len() && a[k] == id
}

/// In a valid arrival matrix every id below `n * n` occurs, and `slot_of`
/// finds the one place where it does.
pub proof fn lemma_every_id_arrives(n: nat, a: Seq<usize>, id: int)
    requires
        valid_arrivals(n, a),
        0 <= id < n * n,
    ensures
        0 <= slot_of(a, id) < a.len(),
        a[slot_of(a, id)] == id,
        forall|k: int| 0 <= k < a.len() && a[k] == id ==> k == slot_of(a, id),
{
    let ids = Seq::new(a.len(), |k: int| a[k] as int);
    let all = set_int_range(0, (n * n) as int);
    assert(ids.no_duplicates()) by {
        assert forall|j: int, k: int|
            0 <= j < ids.len() && 0 <= k < ids.len() && j != k implies ids[j] != ids[k] by {
            if j < k {
                assert(a[j] != a[k]);
            } else {
                assert(a[k] != a[j]);
            }
        }
    }
    ids.unique_seq_to_set();
    lemma_int_range(0, (n * n) as int);
    assert(ids.to_set().subset_of(all)) by {
        assert forall|x: int| ids.to_set().contains(x) implies all.contains(x) by {
            let k = choose|k: int| 0 <= k < ids.len() && ids[k] == x;
            assert(a[k] < n * n);
        }
    }
    lemma_len_subset(ids.to_set(), all);
    lemma_subset_equality(ids.to_set(), all);
    assert(all.contains(id));
    assert(ids.to_set().contains(id));
    let k = choose|k: int| 0 <= k < ids.len() && ids[k] == id;
    assert(0 <= k < a.len() && a[k] == id);
    assert forall|k2: int| 0 <= k2 < a.len() && a[k2] == id implies k2 == slot_of(a, id) by {
        let s = slot_of(a, id);
        if k2 < s {
            assert(a[k2] != a[s]);
        } else if s < k2 {
            assert(a[s] != a[k2]);
        }
    }
}

/// What the yard is built from: the number of lanes and the arrival matrix.
#[derive(Clone)]
pub struct Input {
    pub n: usize,
    pub a: Vec<usize>,
}

impl Input {
    /// The input describes a yard: see [`valid_arrivals`].
    pub open spec fn valid(&self) -> bool {
        valid_arrivals(self.n as nat, self.a@)
    }

    /// Tells whether the input describes a yard.
    pub fn is_valid(&self) -> (ok: bool)
        ensures
            ok == self.valid(),
    {
        let n = self.n;
        if n == 0 {
            return false;
        }
        let len = self.a.len();
        let product = n.checked_mul(n);
        if product.is_none() {
            assert(len < n * n);
            return false;
        }
        let cells: usize = product.unwrap();
        if len != cells {
            return false;
        }
        let mut seen: Vec<bool> = vec![false; cells];
        let mut k: usize = 0;
        while k < cells
            invariant
                k <= cells,
                cells == n * n,
                self.a.len() == cells,
                seen.len() == cells,
                forall|j: int| 0 <= j < k ==> (#[trigger] self.a[j]) < cells,
                forall|i: int, j: int| 0 <= i < j < k ==> self.a[i] != self.a[j],
                forall|id: int|
                    0 <= id < cells ==> (#[trigger] seen[id] <==> exists|j: int|
                        0 <= j < k && self.a[j] == id),
            decreases cells - k,
        {
            let id = self.a[k];
            if id >= cells {
                return false;
            }
            if seen[id] {
                proof {
                    let j = choose|j: int| 0 <= j < k && self.a[j] == id;
                    assert(self.a[j] == self.a[k as int]);
                }
                return false;
            }
            let ghost before = seen@;
            seen[id] = true;
            proof {
                assert forall|x: int| 0 <= x < cells implies (#[trigger] seen[x] <==> exists|j: int|
                    0 <= j < k + 1 && self.a[j] == x) by {
                    if x == id {
                        assert(self.a[k as int] == x);
                    } else {
                        assert(seen[x] == before[x]);
                        if before[x] {
                            let j = choose|j: int| 0 <= j < k && self.a[j] == x;
                            assert(0 <= j < k + 1 && self.a[j] == x);
                        }
                    }
                }
                assert forall|i: int, j: int| 0 <= i < j < k + 1 implies self.a[i] != self.a[j] by {
                    if j == k && self.a[i] == id {
                        assert(before[id as int]);
                    }
                }
            }
            k = k + 1;
        }
        true
    }
}

} // verus!
