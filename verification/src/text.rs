//! Substring search over character sequences, used to recognise marked
//! stop-area names.

use vstd::prelude::*;

verus! {

/// `p` occurs in `s` starting at position `i`.
pub open spec fn occurs_at(s: Seq<char>, p: Seq<char>, i: int) -> bool {
    0 <= i && i + p.len() <= s.len() && forall|l: int| 0 <= l < p.len() ==> s[i + l] == #[trigger] p[l]
}

/// `p` occurs somewhere in `s`.
pub open spec fn has_substr(s: Seq<char>, p: Seq<char>) -> bool {
    exists|i: int| has_substr_at(s, p, i)
}

/// Trigger-friendly wrapper around `occurs_at`.
pub open spec fn has_substr_at(s: Seq<char>, p: Seq<char>, i: int) -> bool {
    occurs_at(s, p, i)
}

/// Whether `p` occurs in `s`, by direct scan.
pub fn contains_sub(s: &str, p: &str) -> (r: bool)
    ensures
        r == has_substr(s@, p@),
{
    let n = s.unicode_len();
    let m = p.unicode_len();
    if m > n {
        proof {
            assert forall|i: int| !has_substr_at(s@, p@, i) by {}
        }
        return false;
    }
    let mut i: usize = 0;
    while i <= n - m
        invariant
            m <= n == s@.len(),
            m == p@.len(),
            i <= n - m + 1,
            forall|j: int| 0 <= j < i ==> !has_substr_at(s@, p@, j),
        decreases n - m + 1 - i,
    {
        let mut k: usize = 0;
        let mut matches = true;
        while k < m
            invariant
                m <= n == s@.len(),
                m == p@.len(),
                i + m <= n,
                k <= m,
                matches == (forall|l: int| 0 <= l < k ==> s@[i + l] == #[trigger] p@[l]),
            decreases m - k,
        {
            let sc = s.get_char(i + k);
            let pc = p.get_char(k);
            if sc != pc {
                proof {
                    assert(s@[i + k as int] != p@[k as int]);
                }
                matches = false;
            } else {
                proof {
                    if matches {
                        assert forall|l: int| 0 <= l < k + 1 implies s@[i + l] == #[trigger] p@[l] by {
                            if l < k {
                            } else {
                                assert(s@[i + k as int] == p@[k as int]);
                            }
                        }
                    }
                }
            }
            k = k + 1;
        }
        if matches {
            proof {
                assert(has_substr_at(s@, p@, i as int));
            }
            return true;
        }
        proof {
            assert(!has_substr_at(s@, p@, i as int));
        }
        i = i + 1;
    }
    proof {
        assert forall|j: int| !has_substr_at(s@, p@, j) by {
            if 0 <= j && j + p@.len() <= s@.len() {
                assert(j < i);
            }
        }
    }
    false
}

} // verus!
