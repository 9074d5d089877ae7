//! Refractive-media bookkeeping.
//!
//! When a ray crosses shape surfaces, shading needs the refractive indices
//! on both sides of the hit under consideration: the medium the ray is
//! leaving and the medium it is entering. Both are found by replaying the
//! sorted hit list up to the hit while maintaining a stack of the
//! transparent shapes the ray is currently inside of: meeting a shape for
//! the first time enters it, meeting it again leaves it. The medium before
//! the hit is the innermost shape of the stack just before the hit is
//! processed, the medium after is the innermost one just after; an empty
//! stack stands for the surrounding vacuum.

use vstd::prelude::*;

verus! {

/// The sequence `s` with every occurrence of `id` removed, order kept.
pub open spec fn without_id(s: Seq<u128>, id: u128) -> Seq<u128>
    decreases s.len(),
{
    if s.len() == 0 {
        s
    } else {
        let rest = without_id(s.drop_last(), id);
        if s.last() == id {
            rest
        } else {
            rest.push(s.last())
        }
    }
}

/// One step of the media walk over the stack `s`: leave `id` if the ray
/// is already inside that shape, enter it otherwise.
pub open spec fn toggled(s: Seq<u128>, id: u128) -> Seq<u128> {
    if s.contains(id) {
        without_id(s, id)
    } else {
        s.push(id)
    }
}

/// The stack of media the ray is inside of after the first `k` records of
/// a sorted hit list, described by the identifiers of the shapes hit.
pub open spec fn media_after(ids: Seq<u128>, k: int) -> Seq<u128>
    decreases k,
{
    if k <= 0 {
        Seq::empty()
    } else {
        toggled(media_after(ids, k - 1), ids[k - 1])
    }
}

/// The innermost medium of a stack: the most recently entered shape still
/// surrounding the ray, or `None` for the surrounding vacuum.
pub open spec fn innermost(s: Seq<u128>) -> Option<u128> {
    if s.len() == 0 {
        None
    } else {
        Some(s.last())
    }
}

/// Appending one record to the stack steps `without_id` one step.
proof fn lemma_without_id_push(s: Seq<u128>, x: u128, id: u128)
    ensures
        without_id(s.push(x), id) == if x == id {
            without_id(s, id)
        } else {
            without_id(s, id).push(x)
        },
{
    assert(s.push(x).drop_last() =~= s);
    assert(s.push(x).last() == x);
}

/// Removing an identifier that does not occur leaves the stack unchanged.
proof fn lemma_without_id_absent(s: Seq<u128>, id: u128)
    requires
        !s.contains(id),
    ensures
        without_id(s, id) == s,
    decreases s.len(),
{
    if s.len() > 0 {
        assert(forall|i: int| 0 <= i < s.len() - 1 ==> s.drop_last()[i] == s[i]);
        assert(!s.drop_last().contains(id));
        lemma_without_id_absent(s.drop_last(), id);
        assert(s.drop_last().push(s.last()) =~= s);
    }
}

/// `without_id` is the filter that drops exactly the occurrences of `id`.
proof fn lemma_without_id_is_filter(s: Seq<u128>, id: u128)
    ensures
        without_id(s, id) == s.filter(|y: u128| y != id),
    decreases s.len(),
{
    reveal(Seq::filter);
    if s.len() > 0 {
        lemma_without_id_is_filter(s.drop_last(), id);
    }
}

/// Appending a fresh element keeps a stack free of duplicates.
proof fn lemma_push_no_dup(s: Seq<u128>, x: u128)
    requires
        s.no_duplicates(),
        !s.contains(x),
    ensures
        s.push(x).no_duplicates(),
{
    assert forall|i: int, j: int|
        0 <= i < j < s.push(x).len() implies s.push(x)[i] != s.push(x)[j] by {
        if j == s.len() {
            if s[i] == x {
                assert(s.contains(x));
            }
        }
    }
}

/// Filtering keeps a stack free of duplicates.
proof fn lemma_filter_no_dup(s: Seq<u128>, p: spec_fn(u128) -> bool)
    requires
        s.no_duplicates(),
    ensures
        s.filter(p).no_duplicates(),
    decreases s.len(),
{
    reveal(Seq::filter);
    if s.len() > 0 {
        let rest = s.drop_last();
        assert(forall|i: int| 0 <= i < rest.len() ==> rest[i] == s[i]);
        lemma_filter_no_dup(rest, p);
        if p(s.last()) {
            if rest.filter(p).contains(s.last()) {
                rest.lemma_filter_contains_rev(p, s.last());
                let i = choose|i: int| 0 <= i < rest.len() && rest[i] == s.last();
                assert(s[i] == s[s.len() - 1]);
            }
            lemma_push_no_dup(rest.filter(p), s.last());
        }
    }
}

/// One step of the media walk flips whether the ray is inside the shape
/// it met, and leaves every other membership alone.
pub proof fn lemma_toggled_membership(s: Seq<u128>, id: u128, x: u128)
    ensures
        toggled(s, id).contains(id) == !s.contains(id),
        x != id ==> toggled(s, id).contains(x) == s.contains(x),
{
    lemma_without_id_is_filter(s, id);
    let p = |y: u128| y != id;
    if s.contains(id) {
        // Leaving: every occurrence of `id` goes, the rest stays.
        if s.filter(p).contains(id) {
            s.lemma_filter_pred(p, choose|i: int| 0 <= i < s.filter(p).len() && s.filter(p)[i] == id);
        }
        if x != id {
            if s.contains(x) {
                let i = choose|i: int| 0 <= i < s.len() && s[i] == x;
                s.lemma_filter_contains(p, i);
            }
            if s.filter(p).contains(x) {
                s.lemma_filter_contains_rev(p, x);
            }
        }
    } else {
        // Entering: `id` is appended, the rest is untouched.
        assert(s.push(id)[s.len() as int] == id);
        if x != id {
            if s.contains(x) {
                let i = choose|i: int| 0 <= i < s.len() && s[i] == x;
                assert(s.push(id)[i] == x);
            }
            if s.push(id).contains(x) {
                let i = choose|i: int| 0 <= i < s.push(id).len() && s.push(id)[i] == x;
                assert(s[i] == x);
            }
        }
    }
}

/// The media stack never holds a shape twice: replaying any prefix of a
/// hit list leaves each medium on the stack at most once.
pub proof fn lemma_media_distinct(ids: Seq<u128>, k: int)
    ensures
        media_after(ids, k).no_duplicates(),
    decreases k,
{
    if k > 0 {
        lemma_media_distinct(ids, k - 1);
        let s = media_after(ids, k - 1);
        let id = ids[k - 1];
        if s.contains(id) {
            lemma_without_id_is_filter(s, id);
            lemma_filter_no_dup(s, |y: u128| y != id);
        } else {
            lemma_push_no_dup(s, id);
        }
    }
}

/// Entering a medium and meeting the same shape again restores the stack:
/// passing through a closed shape leaves the media bookkeeping exactly
/// where it started.
pub proof fn lemma_enter_then_leave(s: Seq<u128>, id: u128)
    requires
        !s.contains(id),
    ensures
        toggled(toggled(s, id), id) == s,
{
    assert(s.push(id).contains(id)) by {
        assert(s.push(id)[s.len() as int] == id);
    }
    lemma_without_id_push(s, id, id);
    lemma_without_id_absent(s, id);
}

/// Whether `id` occurs in the stack held as a vector.
fn stack_contains(media: &Vec<u128>, id: u128) -> (r: bool)
    ensures
        r == media@.contains(id),
{
    let mut j: usize = 0;
    while j < media.len()
        invariant
            j <= media@.len(),
            forall|t: int| 0 <= t < j ==> media@[t] != id,
        decreases media@.len() - j,
    {
        if media[j] == id {
            return true;
        }
        j = j + 1;
    }
    proof {
        assert(!media@.contains(id));
    }
    false
}

/// Apply one media step to the stack held as a vector.
fn toggle(media: &mut Vec<u128>, id: u128)
    ensures
        final(media)@ == toggled(old(media)@, id),
{
    if stack_contains(media, id) {
        let mut out: Vec<u128> = Vec::new();
        let mut j: usize = 0;
        while j < media.len()
            invariant
                media@ == old(media)@,
                j <= media@.len(),
                out@ == without_id(media@.take(j as int), id),
            decreases media@.len() - j,
        {
            let v: u128 = media[j];
            proof {
                media@.lemma_take_succ_push(j as int);
                lemma_without_id_push(media@.take(j as int), media@[j as int], id);
            }
            if v != id {
                out.push(v);
            }
            j = j + 1;
        }
        proof {
            assert(media@.take(media@.len() as int) =~= media@);
        }
        *media = out;
    } else {
        media.push(id);
    }
}

/// The innermost medium of the stack held as a vector.
fn innermost_of(media: &Vec<u128>) -> (r: Option<u128>)
    ensures
        r == innermost(media@),
{
    if media.len() == 0 {
        None
    } else {
        Some(media[media.len() - 1])
    }
}

/// For the hit at position `hit` of a sorted hit list, the shape whose
/// medium the ray is leaving (`r.0`) and the one it is entering (`r.1`),
/// each `None` when that side is the surrounding vacuum. Found by
/// replaying the list up to and including the hit.
pub fn refraction_media(ids: &Vec<u128>, hit: usize) -> (r: (Option<u128>, Option<u128>))
    requires
        hit < ids@.len(),
    ensures
        r.0 == innermost(media_after(ids@, hit as int)),
        r.1 == innermost(media_after(ids@, hit as int + 1)),
{
    let mut media: Vec<u128> = Vec::new();
    let mut k: usize = 0;
    while k < hit
        invariant
            k <= hit,
            hit < ids@.len(),
            media@ == media_after(ids@, k as int),
        decreases hit - k,
    {
        toggle(&mut media, ids[k]);
        k = k + 1;
    }
    let before = innermost_of(&media);
    toggle(&mut media, ids[hit]);
    let after = innermost_of(&media);
    (before, after)
}

} // verus!
