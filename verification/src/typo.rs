//! Bounded edit-distance typo detection: `near_match` decides whether two
//! strings are exactly one edit (substitution, insertion or deletion) apart.

use vstd::prelude::*;

use crate::text::chars_of;

verus! {

/// `a` and `b` have equal length and differ in exactly one position.
pub open spec fn one_substitution(a: Seq<char>, b: Seq<char>) -> bool {
    &&& a.len() == b.len()
    &&& exists|k: int|
        0 <= k < a.len() && a[k] != b[k] && (forall|j: int|
            0 <= j < a.len() && j != k ==> a[j] == b[j])
}

/// `longer` is `shorter` with exactly one extra character inserted.
pub open spec fn one_deletion(longer: Seq<char>, shorter: Seq<char>) -> bool {
    &&& longer.len() == shorter.len() + 1
    &&& exists|k: int|
        0 <= k < longer.len() && longer.subrange(0, k) + longer.subrange(
            k + 1,
            longer.len() as int,
        ) == shorter
}

/// `a` and `b` are exactly one edit apart: one substitution, one insertion
/// or one deletion. Equal strings are not near matches.
pub open spec fn near(a: Seq<char>, b: Seq<char>) -> bool {
    ||| one_substitution(a, b)
    ||| one_deletion(a, b)
    ||| one_deletion(b, a)
}

/// The near-match relation is symmetric.
pub proof fn lemma_near_symmetric(a: Seq<char>, b: Seq<char>)
    ensures
        near(a, b) == near(b, a),
{
    if one_substitution(a, b) {
        let k = choose|k: int|
            0 <= k < a.len() && a[k] != b[k] && (forall|j: int|
                0 <= j < a.len() && j != k ==> a[j] == b[j]);
        assert(0 <= k < b.len() && b[k] != a[k] && (forall|j: int|
            0 <= j < b.len() && j != k ==> b[j] == a[j]));
    }
    if one_substitution(b, a) {
        let k = choose|k: int|
            0 <= k < b.len() && b[k] != a[k] && (forall|j: int|
                0 <= j < b.len() && j != k ==> b[j] == a[j]);
        assert(0 <= k < a.len() && a[k] != b[k] && (forall|j: int|
            0 <= j < a.len() && j != k ==> a[j] == b[j]));
    }
}

/// Whether `short` can be obtained from `long` by deleting exactly one
/// character: a first-mismatch scan followed by an exact suffix comparison.
fn is_one_deletion(long: &Vec<char>, short: &Vec<char>) -> (r: bool)
    requires
        long@.len() == short@.len() + 1,
    ensures
        r == one_deletion(long@, short@),
{
    let n = short.len();
    let mut k: usize = 0;
    while k < n && long[k] == short[k]
        invariant
            long@.len() == short@.len() + 1,
            n == short@.len(),
            k <= n,
            forall|j: int| 0 <= j < k ==> long@[j] == short@[j],
        decreases n - k,
    {
        k += 1;
    }
    if k == n {
        // No mismatch: `long` is `short` plus one trailing character.
        proof {
            assert(long@.subrange(0, n as int) + long@.subrange(
                n + 1 as int,
                long@.len() as int,
            ) =~= short@);
        }
        return true;
    }
    // First mismatch at k: deleting long[k] must make the rest line up.
    let mut j: usize = k;
    while j < n
        invariant
            long@.len() == short@.len() + 1,
            n == short@.len(),
            k < n,
            long@[k as int] != short@[k as int],
            forall|t: int| 0 <= t < k ==> long@[t] == short@[t],
            k <= j <= n,
            forall|t: int| k <= t < j ==> long@[t + 1] == short@[t],
        decreases n - j,
    {
        if long[j + 1] != short[j] {
            proof {
                let jj = j as int;
                let kk = k as int;
                let ln = long@.len() as int;
                assert forall|p: int| 0 <= p < ln implies long@.subrange(0, p) + long@.subrange(
                    p + 1,
                    ln,
                ) != short@ by {
                    let cand = long@.subrange(0, p) + long@.subrange(p + 1, ln);
                    if p <= kk {
                        assert(cand[jj] == long@[jj + 1]);
                        assert(cand[jj] != short@[jj]);
                    } else {
                        assert(cand[kk] == long@[kk]);
                        assert(cand[kk] != short@[kk]);
                    }
                }
            }
            return false;
        }
        j += 1;
    }
    proof {
        assert(long@.subrange(0, k as int) + long@.subrange(
            k + 1 as int,
            long@.len() as int,
        ) =~= short@);
    }
    true
}

/// Whether `a` and `b` have equal length and differ in exactly one position.
fn is_one_substitution(a: &Vec<char>, b: &Vec<char>) -> (r: bool)
    requires
        a@.len() == b@.len(),
    ensures
        r == one_substitution(a@, b@),
{
    let n = a.len();
    let mut count: usize = 0;
    let ghost mut k0: int = 0;
    let ghost mut k1: int = 0;
    let mut i: usize = 0;
    while i < n
        invariant
            a@.len() == b@.len(),
            n == a@.len(),
            i <= n,
            count <= i,
            count == 0 ==> forall|j: int| 0 <= j < i ==> a@[j] == b@[j],
            count == 1 ==> 0 <= k0 < i && a@[k0] != b@[k0] && (forall|j: int|
                0 <= j < i && j != k0 ==> a@[j] == b@[j]),
            count >= 2 ==> 0 <= k0 < k1 < i && a@[k0] != b@[k0] && a@[k1] != b@[k1],
        decreases n - i,
    {
        if a[i] != b[i] {
            if count == 0 {
                proof {
                    k0 = i as int;
                }
            } else if count == 1 {
                proof {
                    k1 = i as int;
                }
            }
            count += 1;
            if count > 1 {
                // Two distinct mismatches rule a single substitution out.
                proof {
                    assert forall|k: int|
                        !(0 <= k < a@.len() && a@[k] != b@[k] && (forall|j: int|
                            0 <= j < a@.len() && j != k ==> a@[j] == b@[j])) by {
                        if 0 <= k < a@.len() && a@[k] != b@[k] {
                            if k != k0 {
                                assert(a@[k0] != b@[k0]);
                            } else {
                                assert(a@[k1] != b@[k1]);
                            }
                        }
                    }
                }
                return false;
            }
        }
        i += 1;
    }
    count == 1
}

/// Pure bounded near-match test between two strings: true exactly when the
/// two are one substitution, one insertion or one deletion apart.
pub fn near_match(a: &str, b: &str) -> (r: bool)
    ensures
        r == near(a@, b@),
{
    let ac = chars_of(a);
    let bc = chars_of(b);
    if ac.len() == bc.len() {
        is_one_substitution(&ac, &bc)
    } else if ac.len() > bc.len() && ac.len() - bc.len() == 1 {
        is_one_deletion(&ac, &bc)
    } else if bc.len() > ac.len() && bc.len() - ac.len() == 1 {
        is_one_deletion(&bc, &ac)
    } else {
        false
    }
}

} // verus!
