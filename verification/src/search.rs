//! Search for the first occurrence of a pattern in an email body.
use vstd::prelude::*;
use vstd::string::*;

verus! {

/// `pattern` occurs in `body` starting at position `i`.
pub open spec fn occurs_at(body: Seq<u8>, pattern: Seq<u8>, i: int) -> bool {
    &&& 0 <= i
    &&& i + pattern.len() <= body.len()
    &&& body.subrange(i, i + pattern.len()) == pattern
}

/// The first position at or after `i` where `pattern` occurs in `body`.
pub open spec fn first_occurrence_from(body: Seq<u8>, pattern: Seq<u8>, i: int) -> Option<int>
    decreases body.len() + 1 - i,
{
    if i < 0 || i + pattern.len() > body.len() {
        None
    } else if occurs_at(body, pattern, i) {
        Some(i)
    } else {
        first_occurrence_from(body, pattern, i + 1)
    }
}

/// The position that `find_index_in_body` reports: that of the first
/// occurrence of a non-empty `pattern` in `body`, and 0 where there is no
/// body, the pattern is empty, or it does not occur.
pub open spec fn index_in_body(body: Option<Seq<u8>>, pattern: Seq<u8>) -> int {
    match body {
        None => 0,
        Some(b) => if pattern.len() == 0 {
            0
        } else {
            match first_occurrence_from(b, pattern, 0) {
                Some(i) => i,
                None => 0,
            }
        },
    }
}

/// The search from `i` finds an occurrence with none before it, or finds none
/// because there is none from `i` on.
pub proof fn lemma_first_occurrence_from(body: Seq<u8>, pattern: Seq<u8>, i: int)
    requires
        0 <= i,
    ensures
        first_occurrence_from(body, pattern, i) matches Some(k) ==> {
            &&& i <= k
            &&& occurs_at(body, pattern, k)
            &&& forall|j: int| i <= j < k ==> !occurs_at(body, pattern, j)
        },
        first_occurrence_from(body, pattern, i) is None ==> forall|j: int|
            i <= j ==> !occurs_at(body, pattern, j),
    decreases body.len() + 1 - i,
{
    if i + pattern.len() > body.len() {
    } else if occurs_at(body, pattern, i) {
    } else {
        lemma_first_occurrence_from(body, pattern, i + 1);
    }
}

/// For a body and a non-empty pattern, the reported index is that of an
/// occurrence with no occurrence before it, or 0 when the pattern does not occur.
pub proof fn law_index_in_body(body: Seq<u8>, pattern: Seq<u8>)
    requires
        pattern.len() > 0,
    ensures
        ({
            let r = index_in_body(Some(body), pattern);
            ||| occurs_at(body, pattern, r) && forall|j: int| 0 <= j < r ==> !occurs_at(body, pattern, j)
            ||| r == 0 && forall|j: int| 0 <= j ==> !occurs_at(body, pattern, j)
        }),
{
    lemma_first_occurrence_from(body, pattern, 0);
}

/// Finds the index of the first occurrence of `pattern` in `body`; returns 0
/// when there is no body, the pattern is empty, or it does not occur.
pub fn find_index_in_body(body: Option<&Vec<u8>>, pattern: &str) -> (res: usize)
    ensures
        res as int == index_in_body(
            match body {
                Some(b) => Some(b@),
                None => None,
            },
            pattern.spec_bytes(),
        ),
{
    let pat = pattern.as_bytes();
    let plen = pat.len();
    match body {
        None => 0,
        Some(b) => {
            if plen == 0 {
                return 0;
            }
            let blen = b.len();
            if plen > blen {
                return 0;
            }
            let mut i: usize = 0;
            while i <= blen - plen
                invariant
                    plen == pat@.len(),
                    blen == b@.len(),
                    0 < plen <= blen,
                    i <= blen - plen + 1,
                    pat@ == pattern.spec_bytes(),
                    body == Some(b),
                    first_occurrence_from(b@, pat@, i as int) == first_occurrence_from(b@, pat@, 0),
                decreases blen - plen + 1 - i,
            {
                let mut k: usize = 0;
                let mut same = true;
                while k < plen
                    invariant
                        plen == pat@.len(),
                        blen == b@.len(),
                        i + plen <= blen,
                        0 <= k <= plen,
                        same <==> forall|m: int| 0 <= m < k ==> b@[i + m] == pat@[m],
                    decreases plen - k,
                {
                    if b[i + k] != pat[k] {
                        same = false;
                    }
                    k = k + 1;
                }
                if same {
                    assert(b@.subrange(i as int, i + plen) =~= pat@);
                    assert(occurs_at(b@, pat@, i as int));
                    assert(first_occurrence_from(b@, pat@, i as int) == Some(i as int));
                    return i;
                }
                assert(!occurs_at(b@, pat@, i as int)) by {
                    if b@.subrange(i as int, i + plen) == pat@ {
                        assert forall|m: int| 0 <= m < plen implies b@[i + m] == pat@[m] by {
                            assert(b@.subrange(i as int, i + plen)[m] == b@[i + m]);
                        }
                    }
                }
                i = i + 1;
            }
            0
        },
    }
}

} // verus!
