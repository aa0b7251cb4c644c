//! What a search returns: every index at which the pattern begins, in
//! increasing order.
use vstd::prelude::*;

verus! {

/// The pattern a search looks for: `first`, followed by `second` where one is
/// given.
pub open spec fn pattern_of(first: u8, second: Option<u8>) -> Seq<u8> {
    match second {
        None => seq![first],
        Some(s) => seq![first, s],
    }
}

/// Whether `pattern` begins at index `i` of `data` and lies wholly inside it.
pub open spec fn occurs_at(data: Seq<u8>, pattern: Seq<u8>, i: int) -> bool {
    &&& 0 <= i
    &&& i + pattern.len() <= data.len()
    &&& forall|j: int| 0 <= j < pattern.len() ==> data[i + j] == #[trigger] pattern[j]
}

/// The indices below `n` at which `pattern` begins in `data`, in increasing
/// order.
pub open spec fn starts_before(data: Seq<u8>, pattern: Seq<u8>, n: nat) -> Seq<usize>
    decreases n,
{
    if n == 0 {
        seq![]
    } else {
        let earlier = starts_before(data, pattern, (n - 1) as nat);
        if occurs_at(data, pattern, n - 1) {
            earlier.push((n - 1) as usize)
        } else {
            earlier
        }
    }
}

/// Every index at which `pattern` begins in `data`, in increasing order.
pub open spec fn match_positions(data: Seq<u8>, pattern: Seq<u8>) -> Seq<usize> {
    starts_before(data, pattern, data.len())
}

/// The one- and two-byte patterns begin at `i` exactly when `first` stands
/// there and, for two bytes, `second` stands right after it.
pub proof fn lemma_occurs_at_short_pattern(data: Seq<u8>, first: u8, second: Option<u8>, i: int)
    ensures
        occurs_at(data, pattern_of(first, second), i) <==> (0 <= i < data.len() && data[i] == first
            && match second {
            None => true,
            Some(s) => i + 1 < data.len() && data[i + 1] == s,
        }),
{
    let p = pattern_of(first, second);
    if occurs_at(data, p, i) {
        assert(data[i + 0] == p[0]);
        if second is Some {
            assert(data[i + 1] == p[1]);
        }
    }
}

/// Indices without an occurrence add nothing: if the pattern begins nowhere in
/// `[lo, hi)`, the starts below `hi` are those below `lo`.
pub proof fn lemma_starts_before_skip(data: Seq<u8>, pattern: Seq<u8>, lo: nat, hi: nat)
    requires
        lo <= hi,
        forall|i: int| lo <= i < hi ==> !#[trigger] occurs_at(data, pattern, i),
    ensures
        starts_before(data, pattern, hi) == starts_before(data, pattern, lo),
    decreases hi,
{
    if hi > lo {
        assert(!occurs_at(data, pattern, hi - 1));
        lemma_starts_before_skip(data, pattern, lo, (hi - 1) as nat);
    }
}

/// The starts below `n` are exactly the indices below `n` at which the pattern
/// begins, each once, in strictly increasing order.
pub proof fn lemma_starts_before_exact(data: Seq<u8>, pattern: Seq<u8>, n: nat)
    requires
        n <= usize::MAX + 1,
    ensures
        forall|a: int, b: int|
            0 <= a < b < starts_before(data, pattern, n).len() ==> starts_before(data, pattern, n)[a]
                < starts_before(data, pattern, n)[b],
        forall|p: usize|
            #[trigger] starts_before(data, pattern, n).contains(p) <==> (p < n && occurs_at(
                data,
                pattern,
                p as int,
            )),
    decreases n,
{
    if n > 0 {
        let m = (n - 1) as nat;
        lemma_starts_before_exact(data, pattern, m);
        let earlier = starts_before(data, pattern, m);
        let now = starts_before(data, pattern, n);
        assert forall|a: int| 0 <= a < earlier.len() implies earlier[a] < m by {
            assert(earlier.contains(earlier[a]));
        }
        assert forall|p: usize| now.contains(p) <==> (p < n && occurs_at(data, pattern, p as int)) by {
            if occurs_at(data, pattern, m as int) {
                if now.contains(p) {
                    let k = choose|k: int| 0 <= k < now.len() && now[k] == p;
                    if k < earlier.len() {
                        assert(earlier.contains(p));
                    }
                }
                if p < n && occurs_at(data, pattern, p as int) && p != m {
                    assert(earlier.contains(p));
                    let k = choose|k: int| 0 <= k < earlier.len() && earlier[k] == p;
                    assert(now[k] == p);
                }
                if p == m {
                    assert(now[now.len() - 1] == p);
                }
            }
        }
    }
}

/// The law of a search: what it returns holds every index at which the
/// pattern begins in the data, and no other, each once and in increasing
/// order.
pub proof fn lemma_match_positions_exact(data: Seq<u8>, pattern: Seq<u8>)
    requires
        data.len() <= usize::MAX,
    ensures
        forall|a: int, b: int|
            0 <= a < b < match_positions(data, pattern).len() ==> match_positions(data, pattern)[a]
                < match_positions(data, pattern)[b],
        forall|p: usize|
            #[trigger] match_positions(data, pattern).contains(p) <==> (p < data.len() && occurs_at(
                data,
                pattern,
                p as int,
            )),
{
    lemma_starts_before_exact(data, pattern, data.len());
}

/// Whether the byte after `index` completes the pattern: always for a
/// one-byte pattern, and for two bytes when a byte follows and equals
/// `second`.
pub(crate) fn pattern_continues(data: &[u8], index: usize, second: Option<u8>) -> (r: bool)
    requires
        index < data.len(),
    ensures
        r == match second {
            None => true,
            Some(s) => index + 1 < data.len() && data@[index + 1] == s,
        },
{
    match second {
        None => true,
        Some(s) => index + 1 < data.len() && data[index + 1] == s,
    }
}

} // verus!
