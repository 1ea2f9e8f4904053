//! The transform facade: validates ranges, builds scopes, runs the machine
//! over in-scope regions only, and concatenates the result in original order.
//!
//! The caller-supplied ranges mark regions to *exclude* from transformation:
//! the partitioner takes them as in scope, and the facade then inverts the
//! scopes, so the ranged regions end up out of scope and are copied through
//! byte-identically, while everything between them is transformed.
//!
//! Ranges are half-open character-index ranges, so every range is aligned to
//! a character boundary by construction. Overlapping ranges are rejected (the
//! [`TransformError::OverlappingRanges`] policy of this crate); ranges out of
//! bounds or reversed are rejected with [`TransformError::InvalidRange`].

use vstd::prelude::*;

use crate::german::DigraphPolicy;
use crate::german::Direction;
use crate::german::transform_region;
use crate::german::transformed_region;
use crate::scope::ROScope;
use crate::scope::ROScopes;
use crate::scope::RWScope;
use crate::scope::RWScopes;
use crate::scope::Scope;
use crate::scope::ScopeView;
use crate::scope::invert_views;
use crate::scope::lemma_sort_by_start_contains;
use crate::scope::partition_from;
use crate::scope::partition_spec;
use crate::scope::range_ok;
use crate::scope::ranges_wf;
use crate::scope::ro_views;
use crate::scope::rw_views;
use crate::scope::sort_by_start;
use crate::scope::sort_ranges;

verus! {

/// Why a transformation call was rejected.
///
/// Every error is local to a single call: no partial output is returned.
#[derive(Debug, Clone, Copy, PartialEq, Eq, Structural)]
pub enum TransformError {
    /// A supplied range is out of bounds for the text or reversed.
    InvalidRange,
    /// Two supplied ranges overlap; this crate rejects overlapping ranges.
    OverlappingRanges,
}

/// What one scope contributes to the output: an in-scope region is
/// transformed, an out-of-scope region is copied through unchanged.
pub open spec fn transformed_scope(sv: ScopeView, dir: Direction, pol: DigraphPolicy) -> Seq<
    char,
> {
    match sv {
        ScopeView::In(c) => transformed_region(c, dir, pol),
        ScopeView::Out(c) => c,
    }
}

/// The concatenation of every scope's contribution, in original order.
pub open spec fn transformed_scopes(ss: Seq<ScopeView>, dir: Direction, pol: DigraphPolicy) -> Seq<
    char,
>
    decreases ss.len(),
{
    if ss.len() == 0 {
        Seq::empty()
    } else {
        transformed_scope(ss[0], dir, pol) + transformed_scopes(ss.drop_first(), dir, pol)
    }
}

/// The whole pipeline on views: sort the ranges, partition the text (ranges in
/// scope, gaps out of scope), invert the scopes so the ranges are excluded,
/// transform what is in scope, and concatenate.
pub open spec fn transformed_text(
    text: Seq<char>,
    ranges: Seq<(usize, usize)>,
    dir: Direction,
    pol: DigraphPolicy,
) -> Seq<char> {
    transformed_scopes(invert_views(partition_spec(text, sort_by_start(ranges))), dir, pol)
}

/// Full coverage: in sorted order, the ranges tile `[lo, len)` exactly, each
/// one starting where the one before it ended.
pub open spec fn covers_exactly(rs: Seq<(usize, usize)>, lo: int, len: int) -> bool
    decreases rs.len(),
{
    if rs.len() == 0 {
        lo == len
    } else {
        &&& rs[0].0 == lo
        &&& lo <= rs[0].1 <= len
        &&& covers_exactly(rs.drop_first(), rs[0].1 as int, len)
    }
}

proof fn lemma_transformed_scopes_cons(
    x: ScopeView,
    rest: Seq<ScopeView>,
    dir: Direction,
    pol: DigraphPolicy,
)
    ensures
        transformed_scopes(seq![x] + rest, dir, pol) == transformed_scope(x, dir, pol)
            + transformed_scopes(rest, dir, pol),
{
    assert((seq![x] + rest).drop_first() =~= rest);
    assert((seq![x] + rest)[0] == x);
}

proof fn lemma_covered_partition_identity(
    text: Seq<char>,
    rs: Seq<(usize, usize)>,
    lo: int,
    dir: Direction,
    pol: DigraphPolicy,
)
    requires
        0 <= lo <= text.len(),
        covers_exactly(rs, lo, text.len() as int),
    ensures
        transformed_scopes(invert_views(partition_from(text, rs, lo)), dir, pol) == text.subrange(
            lo,
            text.len() as int,
        ),
    decreases rs.len(),
{
    let len = text.len() as int;
    if rs.len() == 0 {
        assert(text.subrange(lo, len) =~= Seq::<char>::empty());
        assert(invert_views(partition_from(text, rs, lo)) =~= Seq::<ScopeView>::empty());
    } else {
        let e = rs[0].1 as int;
        lemma_covered_partition_identity(text, rs.drop_first(), e, dir, pol);
        let rest = partition_from(text, rs.drop_first(), e);
        if lo < e {
            let inner = ScopeView::In(text.subrange(lo, e));
            assert(partition_from(text, rs, lo) =~= seq![inner] + rest);
            assert(invert_views(seq![inner] + rest) =~= seq![ScopeView::Out(text.subrange(lo, e))]
                + invert_views(rest));
            lemma_transformed_scopes_cons(
                ScopeView::Out(text.subrange(lo, e)),
                invert_views(rest),
                dir,
                pol,
            );
            assert(text.subrange(lo, len) =~= text.subrange(lo, e) + text.subrange(e, len));
        } else {
            assert(partition_from(text, rs, lo) =~= rest);
        }
    }
}

/// No-op on out-of-scope-only input: when the supplied ranges cover the whole
/// text, the transformation returns the text unchanged, regardless of
/// direction and policy.
pub proof fn lemma_full_cover_no_op(
    text: Seq<char>,
    ranges: Seq<(usize, usize)>,
    dir: Direction,
    pol: DigraphPolicy,
)
    requires
        covers_exactly(sort_by_start(ranges), 0, text.len() as int),
    ensures
        transformed_text(text, ranges, dir, pol) == text,
{
    lemma_covered_partition_identity(text, sort_by_start(ranges), 0, dir, pol);
    assert(text.subrange(0, text.len() as int) =~= text);
}

/// Copy a vector of ranges.
fn copy_ranges(rs: &Vec<(usize, usize)>) -> (r: Vec<(usize, usize)>)
    ensures
        r@ == rs@,
{
    let mut r: Vec<(usize, usize)> = Vec::new();
    let mut i: usize = 0;
    while i < rs.len()
        invariant
            i <= rs@.len(),
            r@ == rs@.subrange(0, i as int),
        decreases rs@.len() - i,
    {
        r.push(rs[i]);
        proof {
            assert(r@ =~= rs@.subrange(0, i + 1));
        }
        i = i + 1;
    }
    proof {
        assert(r@ =~= rs@);
    }
    r
}

/// Check that every range lies within a text of length `len` and is not
/// reversed.
fn check_bounds(rs: &Vec<(usize, usize)>, len: usize) -> (r: bool)
    ensures
        r <==> (forall|i: int| 0 <= i < rs@.len() ==> range_ok(#[trigger] rs@[i], len as nat)),
{
    let mut k: usize = 0;
    while k < rs.len()
        invariant
            k <= rs@.len(),
            forall|t: int| 0 <= t < k ==> range_ok(#[trigger] rs@[t], len as nat),
        decreases rs@.len() - k,
    {
        let (a, b) = rs[k];
        if b > len || a > b {
            return false;
        }
        k = k + 1;
    }
    true
}

/// Check that no range starts before its sorted predecessor's end.
fn check_chained(rs: &Vec<(usize, usize)>) -> (r: bool)
    ensures
        r <==> (forall|i: int| 0 < i < rs@.len() ==> (#[trigger] rs@[i]).0 >= rs@[i - 1].1),
{
    let mut k: usize = 1;
    while k < rs.len()
        invariant
            1 <= k,
            forall|t: int| 0 < t < k ==> (#[trigger] rs@[t]).0 >= rs@[t - 1].1,
        decreases rs@.len() - k,
    {
        let (a, _) = rs[k];
        let (_, pb) = rs[k - 1];
        if a < pb {
            return false;
        }
        k = k + 1;
    }
    true
}

/// Transform `text` in the given direction, leaving the ranged regions
/// untouched, with an explicit digraph resolution policy for the restore
/// direction.
///
/// Returns the transformed text, or an error when a range is out of bounds or
/// reversed, or when two ranges overlap; exactly the well-formed range sets
/// are accepted.
#[verifier::rlimit(50)]
pub fn transform_with_policy(
    text: &Vec<char>,
    ranges: &Vec<(usize, usize)>,
    direction: Direction,
    policy: DigraphPolicy,
) -> (r: Result<Vec<char>, TransformError>)
    ensures
        r is Ok <==> ranges_wf(sort_by_start(ranges@), text@.len()),
        match r {
            Ok(out) => out@ == transformed_text(text@, ranges@, direction, policy),
            Err(e) => match e {
                TransformError::InvalidRange => exists|i: int|
                    0 <= i < ranges@.len() && !range_ok(#[trigger] ranges@[i], text@.len()),
                TransformError::OverlappingRanges => (forall|i: int|
                    0 <= i < ranges@.len() ==> range_ok(#[trigger] ranges@[i], text@.len()))
                    && exists|i: int|
                    0 < i < sort_by_start(ranges@).len() && (
                    #[trigger] sort_by_start(ranges@)[i]).0 < sort_by_start(ranges@)[i - 1].1,
            },
        },
{
    let ghost srt = sort_by_start(ranges@);
    // Bounds validation on the ranges as supplied.
    if !check_bounds(ranges, text.len()) {
        proof {
            let t = choose|t: int|
                0 <= t < ranges@.len() && !range_ok(#[trigger] ranges@[t], text@.len());
            assert(ranges@.contains(ranges@[t]));
            lemma_sort_by_start_contains(ranges@, ranges@[t]);
            let i = choose|i: int| 0 <= i < srt.len() && srt[i] == ranges@[t];
            assert(!range_ok(srt[i], text@.len()));
        }
        return Err(TransformError::InvalidRange);
    }
    // Every range of the sorted sequence is a range of the input, so bounds
    // carry over.
    proof {
        assert forall|i: int| 0 <= i < srt.len() implies range_ok(
            #[trigger] srt[i],
            text@.len(),
        ) by {
            assert(srt.contains(srt[i]));
            lemma_sort_by_start_contains(ranges@, srt[i]);
            let t = choose|t: int| 0 <= t < ranges@.len() && ranges@[t] == srt[i];
            assert(range_ok(ranges@[t], text@.len()));
        }
    }
    // Overlap validation on the sorted sequence.
    let sorted = sort_ranges(copy_ranges(ranges));
    if !check_chained(&sorted) {
        return Err(TransformError::OverlappingRanges);
    }
    assert(ranges_wf(srt, text@.len()));
    // Partition, then invert: the supplied ranges end up out of scope.
    let scopes = ROScopes::from_raw_ranges(text, copy_ranges(ranges));
    let inverted = scopes.invert();
    let ghost ivs = inverted@;
    // Materialize the read-only scopes as read-write scopes.
    let mut v = inverted.0;
    let mut rws: Vec<RWScope> = Vec::new();
    while v.len() > 0
        invariant
            rw_views(rws@) + ro_views(v@) == ivs,
        decreases v@.len(),
    {
        let ghost pre_rws = rw_views(rws@);
        let ghost pre_v = ro_views(v@);
        let sc = v.remove(0);
        rws.push(RWScope::from(sc));
        proof {
            assert(rw_views(rws@) =~= pre_rws.push(sc@));
            assert(ro_views(v@) =~= pre_v.drop_first());
            assert(rw_views(rws@) + ro_views(v@) =~= pre_rws + pre_v);
        }
    }
    proof {
        assert(rw_views(rws@) + Seq::<ScopeView>::empty() =~= rw_views(rws@));
        assert(rw_views(rws@) =~= ivs);
    }
    let materialized = RWScopes(rws);
    // Process each scope: in-scope payloads are replaced by their
    // transformation, out-of-scope payloads are appended verbatim.
    let mut q = materialized.0;
    let mut out: Vec<char> = Vec::new();
    while q.len() > 0
        invariant
            out@ + transformed_scopes(rw_views(q@), direction, policy) == transformed_scopes(
                ivs,
                direction,
                policy,
            ),
        decreases q@.len(),
    {
        let ghost pre_q = rw_views(q@);
        let ghost pre_out = out@;
        let sc = q.remove(0);
        proof {
            assert(rw_views(q@) =~= pre_q.drop_first());
            assert(pre_q[0] == sc@);
        }
        match sc.0 {
            Scope::In(p) => {
                let mut piece = transform_region(&p, direction, policy);
                out.append(&mut piece);
            },
            Scope::Out(p) => {
                let mut p = p;
                out.append(&mut p);
            },
        }
        proof {
            assert(out@ =~= pre_out + transformed_scope(sc@, direction, policy));
            assert(pre_out + (transformed_scope(sc@, direction, policy) + transformed_scopes(
                rw_views(q@),
                direction,
                policy,
            )) =~= out@ + transformed_scopes(rw_views(q@), direction, policy));
        }
    }
    proof {
        assert(out@ + Seq::<char>::empty() =~= out@);
    }
    Ok(out)
}

/// Transform `text` in the given direction, leaving the ranged regions
/// untouched.
///
/// The default digraph resolution policy is [`DigraphPolicy::PreferNative`]:
/// every candidate digraph is restored to its native glyph.
pub fn transform(
    text: &Vec<char>,
    ranges: &Vec<(usize, usize)>,
    direction: Direction,
) -> (r: Result<Vec<char>, TransformError>)
    ensures
        r is Ok <==> ranges_wf(sort_by_start(ranges@), text@.len()),
        match r {
            Ok(out) => out@ == transformed_text(
                text@,
                ranges@,
                direction,
                DigraphPolicy::PreferNative,
            ),
            Err(e) => match e {
                TransformError::InvalidRange => exists|i: int|
                    0 <= i < ranges@.len() && !range_ok(#[trigger] ranges@[i], text@.len()),
                TransformError::OverlappingRanges => (forall|i: int|
                    0 <= i < ranges@.len() ==> range_ok(#[trigger] ranges@[i], text@.len()))
                    && exists|i: int|
                    0 < i < sort_by_start(ranges@).len() && (
                    #[trigger] sort_by_start(ranges@)[i]).0 < sort_by_start(ranges@)[i - 1].1,
            },
        },
{
    transform_with_policy(text, ranges, direction, DigraphPolicy::PreferNative)
}

} // verus!
