//! Where a pattern stands in a sequence.

use crate::ascii::{CR, LF};
use vstd::prelude::*;

verus! {

/// Whether `pat` stands in `s` at `at`.
pub open spec fn occurs_at<T>(s: Seq<T>, pat: Seq<T>, at: int) -> bool {
    &&& 0 <= at
    &&& at + pat.len() <= s.len()
    &&& s.subrange(at, at + pat.len()) == pat
}

/// Whether `at` is the first place of `pat` in `s`.
pub open spec fn first_occurs_at<T>(s: Seq<T>, pat: Seq<T>, at: int) -> bool {
    &&& occurs_at(s, pat, at)
    &&& forall|i: int| 0 <= i < at ==> !occurs_at(s, pat, i)
}

/// Whether `at` is the last place of `pat` in `s`.
pub open spec fn last_occurs_at<T>(s: Seq<T>, pat: Seq<T>, at: int) -> bool {
    &&& occurs_at(s, pat, at)
    &&& forall|i: int| at < i ==> !occurs_at(s, pat, i)
}

/// The first place of `pat` in `s`, if there is one.
#[verifier::opaque]
pub open spec fn first_occurrence<T>(s: Seq<T>, pat: Seq<T>) -> Option<int> {
    if exists|at: int| first_occurs_at(s, pat, at) {
        Some(choose|at: int| first_occurs_at(s, pat, at))
    } else {
        None
    }
}

/// The last place of `pat` in `s`, if there is one.
#[verifier::opaque]
pub open spec fn last_occurrence<T>(s: Seq<T>, pat: Seq<T>) -> Option<int> {
    if exists|at: int| last_occurs_at(s, pat, at) {
        Some(choose|at: int| last_occurs_at(s, pat, at))
    } else {
        None
    }
}

/// The end of a line: carriage return and line feed.
pub open spec fn crlf() -> Seq<u8> {
    seq![CR, LF]
}

/// There is at most one first place.
pub proof fn lemma_first_occurrence<T>(s: Seq<T>, pat: Seq<T>, at: int)
    requires
        first_occurs_at(s, pat, at),
    ensures
        first_occurrence(s, pat) == Some(at),
{
    reveal(first_occurrence);
    let found = choose|i: int| first_occurs_at(s, pat, i);
    assert(first_occurs_at(s, pat, found));
    assert(found == at);
}

/// There is at most one last place.
pub proof fn lemma_last_occurrence<T>(s: Seq<T>, pat: Seq<T>, at: int)
    requires
        last_occurs_at(s, pat, at),
    ensures
        last_occurrence(s, pat) == Some(at),
{
    reveal(last_occurrence);
    let found = choose|i: int| last_occurs_at(s, pat, i);
    assert(last_occurs_at(s, pat, found));
    assert(found == at);
}

/// The first place is a place, and there is none before it.
pub proof fn lemma_first_found<T>(s: Seq<T>, pat: Seq<T>)
    ensures
        match first_occurrence(s, pat) {
            Some(at) => first_occurs_at(s, pat, at),
            None => forall|i: int| !first_occurs_at(s, pat, i),
        },
{
    reveal(first_occurrence);
}

/// The last place is a place, and there is none behind it.
pub proof fn lemma_last_found<T>(s: Seq<T>, pat: Seq<T>)
    ensures
        match last_occurrence(s, pat) {
            Some(at) => last_occurs_at(s, pat, at),
            None => forall|i: int| !last_occurs_at(s, pat, i),
        },
{
    reveal(last_occurrence);
}

/// A pattern that stands anywhere has a first place.
pub proof fn lemma_has_first<T>(s: Seq<T>, pat: Seq<T>, at: int)
    requires
        occurs_at(s, pat, at),
    ensures
        first_occurrence(s, pat) is Some,
        first_occurs_at(s, pat, first_occurrence(s, pat)->0),
        first_occurrence(s, pat)->0 <= at,
    decreases at,
{
    if forall|i: int| 0 <= i < at ==> !occurs_at(s, pat, i) {
        assert(first_occurs_at(s, pat, at));
        lemma_first_occurrence(s, pat, at);
    } else {
        let i = choose|i: int| 0 <= i < at && occurs_at(s, pat, i);
        lemma_has_first(s, pat, i);
    }
}

/// What is appended to a sequence moves no first place in it.
pub proof fn lemma_first_in_longer<T>(s: Seq<T>, more: Seq<T>, pat: Seq<T>)
    requires
        first_occurrence(s, pat) is Some,
    ensures
        first_occurrence(s + more, pat) == first_occurrence(s, pat),
{
    let at = first_occurrence(s, pat)->0;
    lemma_first_found(s, pat);
    let all = s + more;
    assert(all.subrange(at, at + pat.len()) =~= s.subrange(at, at + pat.len()));
    assert forall|i: int| 0 <= i < at implies !occurs_at(all, pat, i) by {
        assert(all.subrange(i, i + pat.len()) =~= s.subrange(i, i + pat.len()));
        assert(!occurs_at(s, pat, i));
    }
    assert(first_occurs_at(all, pat, at));
    lemma_first_occurrence(all, pat, at);
}

/// The first place of a line end in `data[start..end]`, counted from `start`.
pub fn find_crlf(data: &[u8], start: usize, end: usize) -> (found: Option<usize>)
    requires
        start <= end <= data@.len(),
    ensures
        match found {
            Some(at) => first_occurrence(data@.subrange(start as int, end as int), crlf()) == Some(
                at as int,
            ),
            None => first_occurrence(data@.subrange(start as int, end as int), crlf()) is None,
        },
{
    let ghost part = data@.subrange(start as int, end as int);
    let len: usize = end - start;
    let mut i: usize = 0;
    while i < len
        invariant
            start <= end <= data@.len(),
            len == end - start,
            i <= len,
            part == data@.subrange(start as int, end as int),
            forall|j: int| 0 <= j < i ==> !occurs_at(part, crlf(), j),
        decreases len - i,
    {
        if len - i >= 2 && data[start + i] == CR && data[start + i + 1] == LF {
            proof {
                assert(part.subrange(i as int, i + 2) =~= crlf());
                lemma_first_occurrence(part, crlf(), i as int);
            }
            return Some(i);
        }
        proof {
            if occurs_at(part, crlf(), i as int) {
                let here = part.subrange(i as int, i + 2);
                assert(here[0] == data@[start + i] && here[1] == data@[start + i + 1]);
            }
        }
        i += 1;
    }
    proof {
        lemma_first_found(part, crlf());
    }
    None
}

/// The first place of `c` in `chars[start..end]`, counted from the beginning of `chars`.
pub fn find_char(chars: &Vec<char>, start: usize, end: usize, c: char) -> (found: Option<usize>)
    requires
        start <= end <= chars@.len(),
    ensures
        match found {
            Some(at) => start <= at && first_occurrence(
                chars@.subrange(start as int, end as int),
                seq![c],
            ) == Some(at - start),
            None => first_occurrence(chars@.subrange(start as int, end as int), seq![c]) is None,
        },
{
    let ghost part = chars@.subrange(start as int, end as int);
    let mut i: usize = start;
    while i < end
        invariant
            start <= i <= end <= chars@.len(),
            part == chars@.subrange(start as int, end as int),
            forall|j: int| 0 <= j < i - start ==> !occurs_at(part, seq![c], j),
        decreases end - i,
    {
        if chars[i] == c {
            proof {
                assert(part.subrange(i - start, i - start + 1) =~= seq![c]);
                lemma_first_occurrence(part, seq![c], i - start);
            }
            return Some(i);
        }
        proof {
            if occurs_at(part, seq![c], i - start) {
                assert(part.subrange(i - start, i - start + 1)[0] == chars@[i as int]);
            }
        }
        i += 1;
    }
    proof {
        lemma_first_found(part, seq![c]);
    }
    None
}

/// The last place of `c` in `chars[start..end]`, counted from the beginning of `chars`.
pub fn find_last_char(chars: &Vec<char>, start: usize, end: usize, c: char) -> (found: Option<
    usize,
>)
    requires
        start <= end <= chars@.len(),
    ensures
        match found {
            Some(at) => start <= at && last_occurrence(
                chars@.subrange(start as int, end as int),
                seq![c],
            ) == Some(at - start),
            None => last_occurrence(chars@.subrange(start as int, end as int), seq![c]) is None,
        },
{
    let ghost part = chars@.subrange(start as int, end as int);
    let mut i: usize = end;
    while i > start
        invariant
            start <= i <= end <= chars@.len(),
            part == chars@.subrange(start as int, end as int),
            forall|j: int| i - start <= j ==> !occurs_at(part, seq![c], j),
        decreases i,
    {
        i -= 1;
        if chars[i] == c {
            proof {
                assert(part.subrange(i - start, i - start + 1) =~= seq![c]);
                lemma_last_occurrence(part, seq![c], i - start);
            }
            return Some(i);
        }
        proof {
            if occurs_at(part, seq![c], i - start) {
                assert(part.subrange(i - start, i - start + 1)[0] == chars@[i as int]);
            }
        }
    }
    proof {
        lemma_last_found(part, seq![c]);
    }
    None
}

/// Whether `pat` stands in `s` at `at`, element by element.
pub open spec fn matches_at<T>(s: Seq<T>, pat: Seq<T>, at: int) -> bool {
    &&& 0 <= at <= s.len() - pat.len()
    &&& forall|i: int| 0 <= i < pat.len() ==> #[trigger] pat[i] == s[at + i]
}

/// The first place is where the pattern stands and stands nowhere before, and there is none
/// just where it stands nowhere.
pub proof fn law_first_place<T>(s: Seq<T>, pat: Seq<T>, at: int)
    ensures
        first_occurrence(s, pat) == Some(at) <==> matches_at(s, pat, at) && forall|i: int|
            i < at ==> !matches_at(s, pat, i),
        first_occurrence(s, pat) is None <==> forall|i: int| !matches_at(s, pat, i),
{
    assert forall|i: int| #[trigger] matches_at(s, pat, i) == occurs_at(s, pat, i) by {
        lemma_matches(s, pat, i);
    }
    lemma_first_found(s, pat);
    if matches_at(s, pat, at) && forall|i: int| i < at ==> !matches_at(s, pat, i) {
        assert forall|i: int| 0 <= i < at implies !occurs_at(s, pat, i) by {
            assert(!matches_at(s, pat, i));
        }
        lemma_first_occurrence(s, pat, at);
    }
    if let Some(found) = first_occurrence(s, pat) {
        assert(matches_at(s, pat, found));
    } else {
        assert forall|i: int| !matches_at(s, pat, i) by {
            if matches_at(s, pat, i) {
                lemma_has_first(s, pat, i);
            }
        }
    }
}

/// The last place is where the pattern stands and stands nowhere behind.
pub proof fn law_last_place<T>(s: Seq<T>, pat: Seq<T>, at: int)
    ensures
        last_occurrence(s, pat) == Some(at) <==> matches_at(s, pat, at) && forall|i: int|
            at < i ==> !matches_at(s, pat, i),
{
    assert forall|i: int| #[trigger] matches_at(s, pat, i) == occurs_at(s, pat, i) by {
        lemma_matches(s, pat, i);
    }
    lemma_last_found(s, pat);
    if matches_at(s, pat, at) && forall|i: int| at < i ==> !matches_at(s, pat, i) {
        assert forall|i: int| at < i implies !occurs_at(s, pat, i) by {
            assert(!matches_at(s, pat, i));
        }
        lemma_last_occurrence(s, pat, at);
    }
    if let Some(found) = last_occurrence(s, pat) {
        assert(matches_at(s, pat, found));
    }
}

/// To stand somewhere is to stand there element by element.
proof fn lemma_matches<T>(s: Seq<T>, pat: Seq<T>, at: int)
    ensures
        matches_at(s, pat, at) == occurs_at(s, pat, at),
{
    if matches_at(s, pat, at) {
        assert(s.subrange(at, at + pat.len()) =~= pat);
    }
    if occurs_at(s, pat, at) {
        assert forall|i: int| 0 <= i < pat.len() implies #[trigger] pat[i] == s[at + i] by {
            assert(s.subrange(at, at + pat.len())[i] == s[at + i]);
        }
    }
}

} // verus!
