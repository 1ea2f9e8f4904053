//! The scope model: a text is partitioned into an ordered, gap-filled sequence
//! of regions, each either in scope for processing or out of scope (view-only).
//!
//! Text is handled as a sequence of characters, and caller-supplied ranges are
//! half-open character-index ranges into it. The partitioner sorts the ranges
//! by start (stably), fills the gaps with out-of-scope regions, and drops
//! empty regions; concatenating the payloads in order reproduces the text
//! exactly.

use vstd::prelude::*;

verus! {

use vstd::multiset::Multiset;
use vstd::seq_lib::group_to_multiset_ensures;
use vstd::seq_lib::lemma_multiset_commutative;

/// Indicates whether a given text part is in scope.
#[derive(Debug, Clone, PartialEq, Eq)]
pub enum Scope {
    /// The given part is in scope for processing.
    In(Vec<char>),
    /// The given part is out of scope for processing.
    ///
    /// Treated as immutable, view-only.
    Out(Vec<char>),
}

/// The mathematical view of a [`Scope`]: the classification together with the
/// characters of the region.
pub enum ScopeView {
    In(Seq<char>),
    Out(Seq<char>),
}

impl View for Scope {
    type V = ScopeView;

    open spec fn view(&self) -> ScopeView {
        match self {
            Scope::In(p) => ScopeView::In(p@),
            Scope::Out(p) => ScopeView::Out(p@),
        }
    }
}

/// The characters of a scope, regardless of its classification.
pub open spec fn scope_chars(s: ScopeView) -> Seq<char> {
    match s {
        ScopeView::In(c) => c,
        ScopeView::Out(c) => c,
    }
}

/// Concatenation of the payloads of a scope sequence, in order.
pub open spec fn concat_scopes(ss: Seq<ScopeView>) -> Seq<char>
    decreases ss.len(),
{
    if ss.len() == 0 {
        Seq::empty()
    } else {
        scope_chars(ss[0]) + concat_scopes(ss.drop_first())
    }
}

/// A read-only scope.
#[derive(Debug, Clone, PartialEq, Eq)]
pub struct ROScope(pub Scope);

/// Multiple read-only scopes.
#[derive(Debug, Clone, PartialEq, Eq)]
pub struct ROScopes(pub Vec<ROScope>);

/// A read-write scope.
///
/// Its in-scope payload may be replaced wholesale; an out-of-scope payload is
/// never touched by any code path of this crate.
#[derive(Debug, Clone, PartialEq, Eq)]
pub struct RWScope(pub Scope);

/// Multiple read-write scopes.
#[derive(Debug, Clone, PartialEq, Eq)]
pub struct RWScopes(pub Vec<RWScope>);

impl View for ROScope {
    type V = ScopeView;

    open spec fn view(&self) -> ScopeView {
        self.0@
    }
}

/// The views of a sequence of read-only scopes.
pub open spec fn ro_views(v: Seq<ROScope>) -> Seq<ScopeView> {
    v.map_values(|s: ROScope| s@)
}

impl View for ROScopes {
    type V = Seq<ScopeView>;

    open spec fn view(&self) -> Seq<ScopeView> {
        ro_views(self.0@)
    }
}

impl View for RWScope {
    type V = ScopeView;

    open spec fn view(&self) -> ScopeView {
        self.0@
    }
}

/// The views of a sequence of read-write scopes.
pub open spec fn rw_views(v: Seq<RWScope>) -> Seq<ScopeView> {
    v.map_values(|s: RWScope| s@)
}

impl View for RWScopes {
    type V = Seq<ScopeView>;

    open spec fn view(&self) -> Seq<ScopeView> {
        rw_views(self.0@)
    }
}

impl ROScope {
    /// Check whether the scope is empty.
    ///
    /// A scope is empty exactly when its underlying view has zero length.
    pub fn is_empty(&self) -> (r: bool)
        ensures
            r <==> scope_chars(self@).len() == 0,
    {
        let s: &Vec<char> = self.as_chars();
        s.len() == 0
    }

    /// Get the underlying characters.
    ///
    /// Both variants contain such a payload, so this is a convenient method.
    pub fn as_chars(&self) -> (r: &Vec<char>)
        ensures
            r@ == scope_chars(self@),
    {
        match &self.0 {
            Scope::In(p) => p,
            Scope::Out(p) => p,
        }
    }
}

impl RWScope {
    /// Get the underlying characters.
    ///
    /// Both variants contain such a payload, so this is a convenient method.
    pub fn as_chars(&self) -> (r: &Vec<char>)
        ensures
            r@ == scope_chars(self@),
    {
        match &self.0 {
            Scope::In(p) => p,
            Scope::Out(p) => p,
        }
    }
}

/// A half-open character-index range `(start, end)` that lies within a text
/// of the given length and is not reversed.
pub open spec fn range_ok(r: (usize, usize), len: nat) -> bool {
    r.0 <= r.1 && r.1 <= len
}

/// Ranges in sorted order whose neighbours do not overlap, all within a text
/// of the given length.
pub open spec fn ranges_wf(rs: Seq<(usize, usize)>, len: nat) -> bool {
    &&& forall|i: int| 0 <= i < rs.len() ==> range_ok(#[trigger] rs[i], len)
    &&& forall|i: int| 0 < i < rs.len() ==> (#[trigger] rs[i]).0 >= rs[i - 1].1
}

/// Stable insertion of a range into a sequence sorted by start: the new
/// element goes before the first strictly later start, and before equal
/// starts, so earlier-listed ranges keep their place on ties.
pub open spec fn insert_by_start(x: (usize, usize), s: Seq<(usize, usize)>) -> Seq<(usize, usize)>
    decreases s.len(),
{
    if s.len() == 0 {
        seq![x]
    } else if x.0 <= s[0].0 {
        seq![x] + s
    } else {
        seq![s[0]] + insert_by_start(x, s.drop_first())
    }
}

/// Stable sort of ranges by ascending start (ties keep original order).
pub open spec fn sort_by_start(s: Seq<(usize, usize)>) -> Seq<(usize, usize)>
    decreases s.len(),
{
    if s.len() == 0 {
        Seq::empty()
    } else {
        insert_by_start(s[0], sort_by_start(s.drop_first()))
    }
}

/// Starts appear in nondecreasing order.
pub open spec fn starts_sorted(rs: Seq<(usize, usize)>) -> bool {
    forall|i: int, j: int| 0 <= i < j < rs.len() ==> (#[trigger] rs[i]).0 <= (#[trigger] rs[j]).0
}

/// Stable insertion keeps the starts in nondecreasing order.
pub proof fn lemma_insert_by_start_sorted(x: (usize, usize), s: Seq<(usize, usize)>)
    requires
        starts_sorted(s),
    ensures
        starts_sorted(insert_by_start(x, s)),
    decreases s.len(),
{
    broadcast use group_to_multiset_ensures;

    if s.len() == 0 {
        assert(starts_sorted(seq![x]));
    } else if x.0 <= s[0].0 {
        let r = seq![x] + s;
        assert(forall|j: int| 1 <= j < r.len() ==> r[j] == s[j - 1]);
        assert(starts_sorted(r));
    } else {
        let t = s.drop_first();
        assert(forall|i: int| 0 <= i < t.len() ==> t[i] == s[i + 1]);
        lemma_insert_by_start_sorted(x, t);
        let ins = insert_by_start(x, t);
        let r = seq![s[0]] + ins;
        lemma_insert_by_start_multiset(x, t);
        assert forall|k: int| 1 <= k < r.len() implies (#[trigger] r[k]).0 >= s[0].0 by {
            let y = r[k];
            assert(ins[k - 1] == y);
            assert(ins.contains(y));
            assert(ins.to_multiset().count(y) > 0);
            assert(t.to_multiset().insert(x).count(y) > 0);
            if y == x {
                assert(y.0 >= s[0].0);
            } else {
                assert(t.to_multiset().count(y) > 0);
                assert(t.contains(y));
                let m = choose|m: int| 0 <= m < t.len() && t[m] == y;
                assert(s[m + 1] == y);
                assert(y.0 >= s[0].0);
            }
        }
        assert(forall|i: int| 1 <= i < r.len() ==> r[i] == ins[i - 1]);
        assert(starts_sorted(r));
    }
}

/// The sort's output has its starts in nondecreasing order.
pub proof fn lemma_sort_by_start_sorted(s: Seq<(usize, usize)>)
    ensures
        starts_sorted(sort_by_start(s)),
    decreases s.len(),
{
    if s.len() == 0 {
    } else {
        lemma_sort_by_start_sorted(s.drop_first());
        lemma_insert_by_start_sorted(s[0], sort_by_start(s.drop_first()));
    }
}

/// Insertion adds exactly the inserted range to the sequence's contents.
pub proof fn lemma_insert_by_start_multiset(x: (usize, usize), s: Seq<(usize, usize)>)
    ensures
        insert_by_start(x, s).to_multiset() == s.to_multiset().insert(x),
    decreases s.len(),
{
    broadcast use vstd::seq_lib::group_to_multiset_ensures;

    if s.len() == 0 {
        assert(insert_by_start(x, s) =~= Seq::empty().push(x));
        assert(Seq::<(usize, usize)>::empty().push(x).to_multiset() =~= s.to_multiset().insert(x));
    } else if x.0 <= s[0].0 {
        assert(insert_by_start(x, s) =~= seq![x] + s);
        assert((seq![x] + s) =~= s.insert(0, x));
        vstd::seq_lib::lemma_multiset_commutative(seq![x], s);
        assert(seq![x].to_multiset() =~= Multiset::empty().insert(x));
        assert((seq![x] + s).to_multiset() =~= s.to_multiset().insert(x));
    } else {
        lemma_insert_by_start_multiset(x, s.drop_first());
        vstd::seq_lib::lemma_multiset_commutative(seq![s[0]], insert_by_start(x, s.drop_first()));
        vstd::seq_lib::lemma_multiset_commutative(seq![s[0]], s.drop_first());
        assert(s =~= seq![s[0]] + s.drop_first());
        assert(insert_by_start(x, s).to_multiset() =~= s.to_multiset().insert(x));
    }
}

/// The sorted sequence is a permutation of the input.
pub proof fn lemma_sort_by_start_multiset(s: Seq<(usize, usize)>)
    ensures
        sort_by_start(s).to_multiset() == s.to_multiset(),
    decreases s.len(),
{
    broadcast use vstd::seq_lib::group_to_multiset_ensures;

    if s.len() == 0 {
    } else {
        lemma_sort_by_start_multiset(s.drop_first());
        lemma_insert_by_start_multiset(s[0], sort_by_start(s.drop_first()));
        assert(s =~= seq![s[0]] + s.drop_first());
        vstd::seq_lib::lemma_multiset_commutative(seq![s[0]], s.drop_first());
        assert(sort_by_start(s).to_multiset() =~= s.to_multiset());
    }
}

/// A range occurs in the input exactly when it occurs in the sorted output.
pub proof fn lemma_sort_by_start_contains(s: Seq<(usize, usize)>, x: (usize, usize))
    ensures
        sort_by_start(s).contains(x) <==> s.contains(x),
{
    broadcast use group_to_multiset_ensures;

    lemma_sort_by_start_multiset(s);
    assert(sort_by_start(s).contains(x) <==> sort_by_start(s).to_multiset().count(x) > 0);
    assert(s.contains(x) <==> s.to_multiset().count(x) > 0);
}

/// Executable stable insertion, mirroring [`insert_by_start`].
fn insert_by_start_exec(x: (usize, usize), s: Vec<(usize, usize)>) -> (r: Vec<(usize, usize)>)
    ensures
        r@ == insert_by_start(x, s@),
    decreases s@.len(),
{
    let ghost orig = s@;
    let mut s = s;
    if s.len() == 0 {
        s.push(x);
        proof {
            assert(orig =~= Seq::<(usize, usize)>::empty());
            assert(s@ =~= seq![x]);
        }
        s
    } else if x.0 <= s[0].0 {
        s.insert(0, x);
        proof {
            assert(s@ =~= seq![x] + orig);
        }
        s
    } else {
        let h = s.remove(0);
        let ghost tail = s@;
        let mut r = insert_by_start_exec(x, s);
        r.insert(0, h);
        proof {
            assert(r@ =~= seq![h] + insert_by_start(x, tail));
        }
        r
    }
}

/// Executable stable sort by start, mirroring [`sort_by_start`].
pub fn sort_ranges(rs: Vec<(usize, usize)>) -> (r: Vec<(usize, usize)>)
    ensures
        r@ == sort_by_start(rs@),
        r@.to_multiset() == rs@.to_multiset(),
        starts_sorted(r@),
    decreases rs@.len(),
{
    proof {
        lemma_sort_by_start_multiset(rs@);
        lemma_sort_by_start_sorted(rs@);
    }
    let mut rs = rs;
    if rs.len() == 0 {
        rs
    } else {
        let h = rs.remove(0);
        let ghost tail = rs@;
        let sorted = sort_ranges(rs);
        insert_by_start_exec(h, sorted)
    }
}

/// Ranges in sorted order, pairwise non-overlapping, within a text of length
/// `len`, the first one starting no earlier than `lo`.
pub open spec fn ranges_wf_from(rs: Seq<(usize, usize)>, lo: int, len: nat) -> bool {
    &&& forall|i: int| 0 <= i < rs.len() ==> range_ok(#[trigger] rs[i], len)
    &&& forall|i: int| 0 < i < rs.len() ==> (#[trigger] rs[i]).0 >= rs[i - 1].1
    &&& rs.len() > 0 ==> rs[0].0 >= lo
}

/// The partition of `text` from position `last_end` on, according to the
/// sorted ranges `rs`: an out-of-scope gap before each range, the range
/// itself in scope, a trailing out-of-scope suffix, and no empty scopes.
pub open spec fn partition_from(text: Seq<char>, rs: Seq<(usize, usize)>, last_end: int) -> Seq<
    ScopeView,
>
    decreases rs.len(),
{
    if rs.len() == 0 {
        if last_end < text.len() {
            seq![ScopeView::Out(text.subrange(last_end, text.len() as int))]
        } else {
            Seq::empty()
        }
    } else {
        let s = rs[0].0 as int;
        let e = rs[0].1 as int;
        (if last_end < s {
            seq![ScopeView::Out(text.subrange(last_end, s))]
        } else {
            Seq::empty()
        }) + (if s < e {
            seq![ScopeView::In(text.subrange(s, e))]
        } else {
            Seq::empty()
        }) + partition_from(text, rs.drop_first(), e)
    }
}

/// The partition of a whole text according to sorted, non-overlapping ranges.
pub open spec fn partition_spec(text: Seq<char>, rs: Seq<(usize, usize)>) -> Seq<ScopeView> {
    partition_from(text, rs, 0)
}

proof fn lemma_concat_scopes_cons(x: ScopeView, rest: Seq<ScopeView>)
    ensures
        concat_scopes(seq![x] + rest) == scope_chars(x) + concat_scopes(rest),
{
    assert((seq![x] + rest).drop_first() =~= rest);
    assert((seq![x] + rest)[0] == x);
}

/// Reconstruction: concatenating the partition's payloads in order yields the
/// partitioned part of the text exactly.
pub proof fn lemma_partition_reconstructs(text: Seq<char>, rs: Seq<(usize, usize)>, last_end: int)
    requires
        0 <= last_end <= text.len(),
        ranges_wf_from(rs, last_end, text.len() as nat),
    ensures
        concat_scopes(partition_from(text, rs, last_end)) == text.subrange(
            last_end,
            text.len() as int,
        ),
    decreases rs.len(),
{
    let len = text.len() as int;
    if rs.len() == 0 {
        if last_end < len {
            lemma_concat_scopes_cons(ScopeView::Out(text.subrange(last_end, len)), Seq::empty());
            assert(seq![ScopeView::Out(text.subrange(last_end, len))] =~= seq![
                ScopeView::Out(text.subrange(last_end, len)),
            ] + Seq::<ScopeView>::empty());
            assert(text.subrange(last_end, len) + Seq::<char>::empty() =~= text.subrange(
                last_end,
                len,
            ));
        } else {
            assert(text.subrange(last_end, len) =~= Seq::<char>::empty());
        }
    } else {
        let s = rs[0].0 as int;
        let e = rs[0].1 as int;
        let tail = rs.drop_first();
        assert(ranges_wf_from(tail, e, text.len() as nat)) by {
            assert(forall|i: int| 0 <= i < tail.len() ==> tail[i] == rs[i + 1]);
        }
        lemma_partition_reconstructs(text, tail, e);
        let rest = partition_from(text, tail, e);
        let gap = ScopeView::Out(text.subrange(last_end, s));
        let inner = ScopeView::In(text.subrange(s, e));
        if last_end < s && s < e {
            assert((seq![gap] + seq![inner]) + rest =~= seq![gap] + (seq![inner] + rest));
            lemma_concat_scopes_cons(inner, rest);
            lemma_concat_scopes_cons(gap, seq![inner] + rest);
        } else if last_end < s {
            assert((seq![gap] + Seq::<ScopeView>::empty()) + rest =~= seq![gap] + rest);
            lemma_concat_scopes_cons(gap, rest);
        } else if s < e {
            assert((Seq::<ScopeView>::empty() + seq![inner]) + rest =~= seq![inner] + rest);
            lemma_concat_scopes_cons(inner, rest);
        } else {
            assert((Seq::<ScopeView>::empty() + Seq::<ScopeView>::empty()) + rest =~= rest);
        }
        assert(text.subrange(last_end, len) =~= text.subrange(last_end, s) + text.subrange(s, e)
            + text.subrange(e, len));
    }
}

/// Emptiness: the partitioner never emits a scope whose view has zero length.
pub proof fn lemma_partition_no_empty(text: Seq<char>, rs: Seq<(usize, usize)>, last_end: int)
    requires
        0 <= last_end <= text.len(),
        ranges_wf_from(rs, last_end, text.len() as nat),
    ensures
        forall|i: int|
            0 <= i < partition_from(text, rs, last_end).len() ==> scope_chars(
                #[trigger] partition_from(text, rs, last_end)[i],
            ).len() > 0,
    decreases rs.len(),
{
    let len = text.len() as int;
    if rs.len() == 0 {
    } else {
        let s = rs[0].0 as int;
        let e = rs[0].1 as int;
        let tail = rs.drop_first();
        assert(ranges_wf_from(tail, e, text.len() as nat)) by {
            assert(forall|i: int| 0 <= i < tail.len() ==> tail[i] == rs[i + 1]);
        }
        lemma_partition_no_empty(text, tail, e);
        let rest = partition_from(text, tail, e);
        let head = (if last_end < s {
            seq![ScopeView::Out(text.subrange(last_end, s))]
        } else {
            Seq::<ScopeView>::empty()
        }) + (if s < e {
            seq![ScopeView::In(text.subrange(s, e))]
        } else {
            Seq::<ScopeView>::empty()
        });
        assert(partition_from(text, rs, last_end) =~= head + rest);
        assert(forall|i: int|
            0 <= i < head.len() ==> scope_chars(#[trigger] head[i]).len() > 0);
    }
}

/// Copy the characters of `input` in positions `[start, end)`.
fn copy_range(input: &Vec<char>, start: usize, end: usize) -> (r: Vec<char>)
    requires
        start <= end <= input@.len(),
    ensures
        r@ == input@.subrange(start as int, end as int),
{
    let mut r: Vec<char> = Vec::new();
    let mut i: usize = start;
    while i < end
        invariant
            start <= i <= end <= input@.len(),
            r@ == input@.subrange(start as int, i as int),
        decreases end - i,
    {
        r.push(input[i]);
        proof {
            assert(r@ =~= input@.subrange(start as int, i + 1));
        }
        i = i + 1;
    }
    r
}

impl ROScopes {
    /// Construct a new instance from the given raw ranges.
    ///
    /// The given `input` is traversed according to `ranges`: all listed ranges
    /// are taken as in scope, everything not covered by a range is out of
    /// scope. Ranges need not arrive sorted; they are sorted by start first,
    /// stably. Empty scopes are dropped. Concatenating every scope's payload
    /// in order reproduces `input` exactly, and no emitted scope is empty.
    pub fn from_raw_ranges(input: &Vec<char>, ranges: Vec<(usize, usize)>) -> (r: ROScopes)
        requires
            ranges_wf(sort_by_start(ranges@), input@.len()),
        ensures
            r@ == partition_spec(input@, sort_by_start(ranges@)),
            concat_scopes(r@) == input@,
            forall|i: int| 0 <= i < r@.len() ==> scope_chars(#[trigger] r@[i]).len() > 0,
    {
        let ghost rsv = sort_by_start(ranges@);
        let sorted = sort_ranges(ranges);
        let mut scopes: Vec<ROScope> = Vec::new();
        let mut last_end: usize = 0;
        let mut k: usize = 0;
        proof {
            assert(sorted@.skip(0) =~= sorted@);
        }
        while k < sorted.len()
            invariant
                k <= sorted@.len(),
                sorted@ == rsv,
                ranges_wf(rsv, input@.len()),
                last_end <= input@.len(),
                k > 0 ==> last_end == sorted@[k - 1].1,
                k == 0 ==> last_end == 0,
                ro_views(scopes@) + partition_from(input@, sorted@.skip(k as int), last_end as int)
                    == partition_from(input@, sorted@, 0),
            decreases sorted@.len() - k,
        {
            let ghost pre_views = ro_views(scopes@);
            let ghost suffix = sorted@.skip(k as int);
            let (s, e) = sorted[k];
            proof {
                assert(suffix[0] == sorted@[k as int]);
                assert(forall|i: int| 0 <= i < suffix.len() ==> suffix[i] == sorted@[i + k]);
            }
            if last_end < s {
                let gap = copy_range(input, last_end, s);
                scopes.push(ROScope(Scope::Out(gap)));
            }
            if s < e {
                let inner = copy_range(input, s, e);
                scopes.push(ROScope(Scope::In(inner)));
            }
            proof {
                let gap_part = if (last_end as int) < s as int {
                    seq![ScopeView::Out(input@.subrange(last_end as int, s as int))]
                } else {
                    Seq::<ScopeView>::empty()
                };
                let in_part = if (s as int) < e as int {
                    seq![ScopeView::In(input@.subrange(s as int, e as int))]
                } else {
                    Seq::<ScopeView>::empty()
                };
                assert(ro_views(scopes@) =~= pre_views + gap_part + in_part);
                assert(suffix.drop_first() =~= sorted@.skip(k + 1));
                assert(partition_from(input@, suffix, last_end as int) == (gap_part + in_part)
                    + partition_from(input@, sorted@.skip(k + 1), e as int));
                assert(ro_views(scopes@) + partition_from(input@, sorted@.skip(k + 1), e as int)
                    =~= pre_views + ((gap_part + in_part) + partition_from(
                    input@,
                    sorted@.skip(k + 1),
                    e as int,
                )));
            }
            last_end = e;
            k = k + 1;
        }
        proof {
            assert(sorted@.skip(k as int) =~= Seq::<(usize, usize)>::empty());
        }
        if last_end < input.len() {
            let tail = copy_range(input, last_end, input.len());
            let ghost pre_views = ro_views(scopes@);
            scopes.push(ROScope(Scope::Out(tail)));
            proof {
                assert(ro_views(scopes@) =~= pre_views + seq![
                    ScopeView::Out(input@.subrange(last_end as int, input@.len() as int)),
                ]);
            }
        } else {
            proof {
                assert(ro_views(scopes@) + Seq::<ScopeView>::empty() =~= ro_views(scopes@));
            }
        }
        proof {
            lemma_partition_reconstructs(input@, rsv, 0);
            lemma_partition_no_empty(input@, rsv, 0);
            assert(input@.subrange(0, input@.len() as int) =~= input@);
        }
        ROScopes(scopes)
    }
}

/// The inversion of a single scope's view: in becomes out, and vice versa,
/// payload untouched.
pub open spec fn invert_view(s: ScopeView) -> ScopeView {
    match s {
        ScopeView::In(c) => ScopeView::Out(c),
        ScopeView::Out(c) => ScopeView::In(c),
    }
}

/// The inversion of a scope sequence's view.
pub open spec fn invert_views(ss: Seq<ScopeView>) -> Seq<ScopeView> {
    ss.map_values(|s: ScopeView| invert_view(s))
}

/// Inversion involution: inverting a scope sequence twice yields the original
/// sequence.
pub proof fn lemma_invert_involution(ss: Seq<ScopeView>)
    ensures
        invert_views(invert_views(ss)) == ss,
{
    assert forall|i: int| 0 <= i < ss.len() implies invert_views(invert_views(ss))[i] == ss[i] by {
        assert(invert_view(invert_view(ss[i])) == ss[i]);
    }
    assert(invert_views(invert_views(ss)) =~= ss);
}

impl ROScopes {
    /// Inverts the scopes: what was previously in scope is now out of scope,
    /// and vice versa, each payload untouched.
    pub fn invert(self) -> (r: ROScopes)
        ensures
            r@ == invert_views(self@),
    {
        let ghost orig = self.0@;
        let mut v = self.0;
        let mut out: Vec<ROScope> = Vec::new();
        while v.len() > 0
            invariant
                out@.len() + v@.len() == orig.len(),
                v@ == orig.skip(out@.len() as int),
                forall|i: int|
                    0 <= i < out@.len() ==> (#[trigger] out@[i])@ == invert_view(orig[i]@),
            decreases v@.len(),
        {
            let ghost pre = v@;
            let sc = v.remove(0);
            let flipped = match sc.0 {
                Scope::In(p) => ROScope(Scope::Out(p)),
                Scope::Out(p) => ROScope(Scope::In(p)),
            };
            out.push(flipped);
            proof {
                assert(pre.remove(0) =~= orig.skip(out@.len() as int));
            }
        }
        proof {
            assert(ro_views(out@) =~= invert_views(ro_views(orig)));
        }
        ROScopes(out)
    }
}

impl From<ROScope> for RWScope {
    /// Materialize a read-only scope as a read-write scope with the same
    /// classification and the same characters.
    fn from(s: ROScope) -> (r: RWScope) {
        RWScope(s.0)
    }
}

impl vstd::std_specs::convert::FromSpecImpl<ROScope> for RWScope {
    open spec fn obeys_from_spec() -> bool {
        true
    }

    open spec fn from_spec(s: ROScope) -> RWScope {
        RWScope(s.0)
    }
}

} // verus!
