//! Merging tagged items by position.
//!
//! Readers that decode parts of one stream tag what they find with the
//! position behind it. A stable sort by position merges what several
//! readers found into the order of the stream.

use vstd::prelude::*;

verus! {

/// `s` with `x` put behind the last element whose position is not greater.
pub open spec fn insert_by_position<T>(s: Seq<(usize, T)>, x: (usize, T)) -> Seq<(usize, T)>
    decreases s.len(),
{
    if s.len() == 0 || s.last().0 <= x.0 {
        s.push(x)
    } else {
        insert_by_position(s.drop_last(), x).push(s.last())
    }
}

/// The stable sort of `s` by position: ascending positions, and events of
/// one position in the order in which `s` holds them.
pub open spec fn sorted_by_position<T>(s: Seq<(usize, T)>) -> Seq<(usize, T)>
    decreases s.len(),
{
    if s.len() == 0 {
        s
    } else {
        insert_by_position(sorted_by_position(s.drop_last()), s.last())
    }
}

/// The items without their positions.
pub open spec fn untagged<T>(s: Seq<(usize, T)>) -> Seq<T> {
    Seq::new(s.len(), |i: int| s[i].1)
}

/// `<[T]>::sort_by_key` with the position as the key. The sort is stable: it
/// puts the pairs in ascending order of position and keeps pairs of one
/// position in their order.
#[verifier::external_body]
pub(crate) fn sort_by_position<T>(items: &mut Vec<(usize, T)>)
    ensures
        final(items)@ == sorted_by_position(old(items)@),
{
    items.sort_by_key(|pair| pair.0);
}

/// Drops the positions.
pub fn strip_positions<T: Copy>(items: Vec<(usize, T)>) -> (r: Vec<T>)
    ensures
        r@ == untagged(items@),
{
    let mut out: Vec<T> = Vec::with_capacity(items.len());
    let mut i: usize = 0;
    while i < items.len()
        invariant
            i <= items.len(),
            out@ == untagged(items@.take(i as int)),
        decreases items.len() - i,
    {
        out.push(items[i].1);
        i += 1;
        assert(out@ =~= untagged(items@.take(i as int)));
    }
    assert(items@.take(i as int) =~= items@);
    out
}

/// Merges what several readers found into stream order: a stable sort by
/// position, after which the positions are dropped.
pub fn merge_events<T: Copy>(items: Vec<(usize, T)>) -> (r: Vec<T>)
    ensures
        r@ == untagged(sorted_by_position(items@)),
{
    let mut items = items;
    sort_by_position(&mut items);
    strip_positions(items)
}

/// What the reader of a frame found: its items, or the error that ended it.
pub type Found<T, E> = Result<Seq<(usize, T)>, E>;

/// The items of the frames that did not fail, frame after frame.
pub open spec fn flattened<T, E>(frames: Seq<Found<T, E>>) -> Seq<(usize, T)>
    decreases frames.len(),
{
    if frames.len() == 0 {
        Seq::empty()
    } else {
        match frames[0] {
            Ok(items) => items + flattened(frames.skip(1)),
            Err(e) => flattened(frames.skip(1)),
        }
    }
}

/// The error of the first frame that failed.
pub open spec fn first_error<T, E>(frames: Seq<Found<T, E>>) -> Option<E>
    decreases frames.len(),
{
    if frames.len() == 0 {
        None
    } else {
        match frames[0] {
            Ok(items) => first_error(frames.skip(1)),
            Err(e) => Some(e),
        }
    }
}

/// What joining the readers gives. One failed frame voids the items of all
/// readers: the outcome is then the error of the first frame that failed.
/// Without a failure it is all items, merged by position.
pub open spec fn joined<T, E>(inline: Seq<(usize, T)>, frames: Seq<Found<T, E>>) -> Result<
    Seq<T>,
    E,
> {
    match first_error(frames) {
        Some(e) => Err(e),
        None => Ok(untagged(sorted_by_position(inline + flattened(frames)))),
    }
}

/// The results of the frames' readers as sequences.
pub open spec fn found_in<T, E>(frames: Seq<Result<Vec<(usize, T)>, E>>) -> Seq<Found<T, E>> {
    Seq::new(
        frames.len(),
        |i: int|
            match frames[i] {
                Ok(items) => Ok(items@),
                Err(e) => Err(e),
            },
    )
}

/// A frame more adds its items behind those of the frames before it.
pub proof fn lemma_flattened_push<T, E>(frames: Seq<Found<T, E>>, last: Found<T, E>)
    ensures
        flattened(frames.push(last)) == match last {
            Ok(items) => flattened(frames) + items,
            Err(e) => flattened(frames),
        },
        first_error(frames.push(last)) == match first_error(frames) {
            Some(e) => Some(e),
            None => match last {
                Ok(items) => None,
                Err(e) => Some(e),
            },
        },
    decreases frames.len(),
{
    let none = Seq::<(usize, T)>::empty();
    if frames.len() == 0 {
        assert(frames.push(last).skip(1) =~= frames);
        if last is Ok {
            assert(last->Ok_0 + none =~= none + last->Ok_0);
        }
    } else {
        assert(frames.push(last).skip(1) =~= frames.skip(1).push(last));
        lemma_flattened_push(frames.skip(1), last);
        if frames[0] is Ok && last is Ok {
            let head = frames[0]->Ok_0;
            assert(head + (flattened(frames.skip(1)) + last->Ok_0) =~= (head + flattened(
                frames.skip(1),
            )) + last->Ok_0);
        }
    }
}

/// Joins what the main reader and the readers of the frames found. The
/// frames come in the order in which they lie in the stream. The first
/// frame that failed gives its error, and no items come out; without a
/// failure all items are merged into stream order.
pub fn join_frames<T: Copy, E>(inline: Vec<(usize, T)>, frames: Vec<Result<Vec<(usize, T)>, E>>) -> (r:
    Result<Vec<T>, E>)
    ensures
        match r {
            Ok(items) => joined(inline@, found_in(frames@)) == Ok::<Seq<T>, E>(items@),
            Err(e) => joined(inline@, found_in(frames@)) == Err::<Seq<T>, E>(e),
        },
{
    let mut results = frames;
    let mut items = inline;
    let ghost all = found_in(frames@);
    let count: usize = results.len();
    let mut i: usize = 0;
    while i < count
        invariant
            i <= count,
            count == results@.len(),
            all == found_in(results@),
            all == found_in(frames@),
            first_error(all.take(i as int)) is None,
            items@ == inline@ + flattened(all.take(i as int)),
        decreases count - i,
    {
        proof {
            lemma_flattened_push(all.take(i as int), all[i as int]);
            assert(all.take(i as int).push(all[i as int]) =~= all.take(i + 1));
        }
        let failed: bool = match &results[i] {
            Ok(found) => {
                let ghost before = items@;
                let mut j: usize = 0;
                while j < found.len()
                    invariant
                        j <= found.len(),
                        items@ == before + found@.take(j as int),
                    decreases found.len() - j,
                {
                    items.push(found[j]);
                    j += 1;
                    assert(items@ =~= before + found@.take(j as int));
                }
                assert(found@.take(j as int) =~= found@);
                assert(items@ =~= inline@ + (flattened(all.take(i as int)) + found@));
                false
            },
            Err(e) => true,
        };
        if failed {
            proof {
                lemma_first_error_in(all, i as int);
            }
            match results.swap_remove(i) {
                Err(e) => {
                    assert(all[i as int] == Err::<Seq<(usize, T)>, E>(e));
                    return Err(e);
                },
                Ok(found) => {
                    assert(false);
                },
            }
        }
        i += 1;
    }
    assert(all.take(i as int) =~= all);
    Ok(merge_events(items))
}

/// The first error lies in the first frames, if one of them failed.
pub proof fn lemma_first_error_in<T, E>(frames: Seq<Found<T, E>>, i: int)
    requires
        0 <= i < frames.len(),
        first_error(frames.take(i)) is None,
        frames[i] is Err,
    ensures
        first_error(frames) == Some(frames[i]->Err_0),
    decreases i,
{
    if i > 0 {
        assert(frames.take(i)[0] == frames[0]);
        assert(frames.take(i).skip(1) =~= frames.skip(1).take(i - 1));
        lemma_first_error_in(frames.skip(1), i - 1);
    }
}

/// Every position in `s` is greater than `p`.
pub open spec fn above<T>(s: Seq<(usize, T)>, p: int) -> bool {
    forall|i: int| 0 <= i < s.len() ==> (#[trigger] s[i]).0 > p
}

/// No position in `s` is greater than `p`.
pub open spec fn up_to<T>(s: Seq<(usize, T)>, p: int) -> bool {
    forall|i: int| 0 <= i < s.len() ==> (#[trigger] s[i]).0 <= p
}

/// The positions in `s` grow from each element to the next.
pub open spec fn ascending<T>(s: Seq<(usize, T)>) -> bool {
    forall|i: int, j: int| 0 <= i < j < s.len() ==> (#[trigger] s[i]).0 < (#[trigger] s[j]).0
}

proof fn lemma_insert_above<T>(t: Seq<(usize, T)>, y: (usize, T), p: int)
    requires
        above(t, p),
        y.0 > p,
    ensures
        above(insert_by_position(t, y), p),
    decreases t.len(),
{
    if t.len() == 0 || t.last().0 <= y.0 {
    } else {
        assert forall|i: int| 0 <= i < t.drop_last().len() implies (#[trigger] t.drop_last()[i]).0
            > p by {
            assert(t.drop_last()[i] == t[i]);
        }
        lemma_insert_above(t.drop_last(), y, p);
        assert(t.last() == t[t.len() - 1]);
    }
}

proof fn lemma_sorted_above<T>(u: Seq<(usize, T)>, p: int)
    requires
        above(u, p),
    ensures
        above(sorted_by_position(u), p),
    decreases u.len(),
{
    if u.len() > 0 {
        assert forall|i: int| 0 <= i < u.drop_last().len() implies (#[trigger] u.drop_last()[i]).0
            > p by {
            assert(u.drop_last()[i] == u[i]);
        }
        lemma_sorted_above(u.drop_last(), p);
        assert(u.last() == u[u.len() - 1]);
        lemma_insert_above(sorted_by_position(u.drop_last()), u.last(), p);
    }
}

/// Inserting goes past nothing that is not greater.
proof fn lemma_insert_behind<T>(w: Seq<(usize, T)>, t: Seq<(usize, T)>, y: (usize, T))
    requires
        up_to(w, y.0 as int),
    ensures
        insert_by_position(w + t, y) == w + insert_by_position(t, y),
    decreases t.len(),
{
    if t.len() == 0 {
        assert(w + t =~= w);
        if w.len() > 0 {
            assert(w.last() == w[w.len() - 1]);
        }
        assert(w.push(y) =~= w + insert_by_position(t, y));
    } else {
        assert((w + t).last() == t.last());
        if t.last().0 <= y.0 {
            assert((w + t).push(y) =~= w + t.push(y));
        } else {
            assert((w + t).drop_last() =~= w + t.drop_last());
            lemma_insert_behind(w, t.drop_last(), y);
            assert((w + insert_by_position(t.drop_last(), y)).push(t.last()) =~= w
                + insert_by_position(t.drop_last(), y).push(t.last()));
        }
    }
}

/// Inserting goes past everything that is greater.
proof fn lemma_insert_before<T>(t: Seq<(usize, T)>, z: (usize, T))
    requires
        above(t, z.0 as int),
    ensures
        insert_by_position(t, z) == seq![z] + t,
    decreases t.len(),
{
    if t.len() == 0 {
        assert(t.push(z) =~= seq![z] + t);
    } else {
        assert(t.last() == t[t.len() - 1]);
        assert forall|i: int| 0 <= i < t.drop_last().len() implies (#[trigger] t.drop_last()[i]).0
            > z.0 by {
            assert(t.drop_last()[i] == t[i]);
        }
        lemma_insert_before(t.drop_last(), z);
        assert((seq![z] + t.drop_last()).push(t.last()) =~= seq![z] + t);
    }
}

/// Sorting leaves an ascending run where it is, in front of what is
/// greater.
proof fn lemma_sorted_run_first<T>(u: Seq<(usize, T)>, w: Seq<(usize, T)>, p: int)
    requires
        ascending(w),
        up_to(w, p),
        above(u, p),
    ensures
        sorted_by_position(u + w) == w + sorted_by_position(u),
    decreases w.len(),
{
    if w.len() == 0 {
        assert(u + w =~= u);
        assert(w + sorted_by_position(u) =~= sorted_by_position(u));
    } else {
        let w1 = w.drop_last();
        let z = w.last();
        assert(z == w[w.len() - 1]);
        assert((u + w).drop_last() =~= u + w1);
        assert((u + w).last() == z);
        assert forall|i: int, j: int| 0 <= i < j < w1.len() implies (#[trigger] w1[i]).0 < (
        #[trigger] w1[j]).0 by {
            assert(w1[i] == w[i] && w1[j] == w[j]);
        }
        assert forall|i: int| 0 <= i < w1.len() implies (#[trigger] w1[i]).0 <= p by {
            assert(w1[i] == w[i]);
        }
        lemma_sorted_run_first(u, w1, p);
        assert forall|i: int| 0 <= i < w1.len() implies (#[trigger] w1[i]).0 <= z.0 by {
            assert(w1[i] == w[i]);
        }
        assert forall|i: int| 0 <= i < u.len() implies (#[trigger] u[i]).0 > z.0 by {}
        lemma_sorted_above(u, z.0 as int);
        lemma_insert_behind(w1, sorted_by_position(u), z);
        lemma_insert_before(sorted_by_position(u), z);
        assert(w1 + (seq![z] + sorted_by_position(u)) =~= w + sorted_by_position(u));
    }
}

/// Sorting moves an ascending run to the front of what is greater: where
/// all of `w` lies below all of `u` and `v`, the stable sort of `u + w + v`
/// is `w` and then the stable sort of `u + v`.
pub proof fn lemma_sorted_run<T>(u: Seq<(usize, T)>, w: Seq<(usize, T)>, v: Seq<(usize, T)>, p: int)
    requires
        ascending(w),
        up_to(w, p),
        above(u, p),
        above(v, p),
    ensures
        sorted_by_position(u + w + v) == w + sorted_by_position(u + v),
    decreases v.len(),
{
    if v.len() == 0 {
        assert(u + w + v =~= u + w);
        assert(u + v =~= u);
        lemma_sorted_run_first(u, w, p);
    } else {
        let v1 = v.drop_last();
        let y = v.last();
        assert(y == v[v.len() - 1]);
        assert forall|i: int| 0 <= i < v1.len() implies (#[trigger] v1[i]).0 > p by {
            assert(v1[i] == v[i]);
        }
        lemma_sorted_run(u, w, v1, p);
        assert((u + w + v).drop_last() =~= u + w + v1);
        assert((u + w + v).last() == y);
        assert((u + v).drop_last() =~= u + v1);
        assert((u + v).last() == y);
        assert forall|i: int| 0 <= i < w.len() implies (#[trigger] w[i]).0 <= y.0 by {}
        lemma_insert_behind(w, sorted_by_position(u + v1), y);
    }
}

/// The positions in `s` never fall from an element to the next.
pub open spec fn ordered<T>(s: Seq<(usize, T)>) -> bool {
    forall|i: int, j: int| 0 <= i < j < s.len() ==> (#[trigger] s[i]).0 <= (#[trigger] s[j]).0
}

/// The test that picks the items at position `p`.
pub open spec fn at_position<T>(p: usize) -> spec_fn((usize, T)) -> bool {
    |x: (usize, T)| x.0 == p
}

proof fn lemma_insert_up_to<T>(t: Seq<(usize, T)>, y: (usize, T), p: int)
    requires
        up_to(t, p),
        y.0 <= p,
    ensures
        up_to(insert_by_position(t, y), p),
    decreases t.len(),
{
    if t.len() == 0 || t.last().0 <= y.0 {
    } else {
        assert forall|i: int| 0 <= i < t.drop_last().len() implies (#[trigger] t.drop_last()[i]).0
            <= p by {
            assert(t.drop_last()[i] == t[i]);
        }
        lemma_insert_up_to(t.drop_last(), y, p);
        assert(t.last() == t[t.len() - 1]);
    }
}

proof fn lemma_insert_ordered<T>(t: Seq<(usize, T)>, y: (usize, T))
    requires
        ordered(t),
    ensures
        ordered(insert_by_position(t, y)),
    decreases t.len(),
{
    if t.len() == 0 {
    } else if t.last().0 <= y.0 {
        assert(t.last() == t[t.len() - 1]);
    } else {
        let t1 = t.drop_last();
        let last = t.last();
        assert(last == t[t.len() - 1]);
        assert forall|i: int, j: int| 0 <= i < j < t1.len() implies (#[trigger] t1[i]).0 <= (
        #[trigger] t1[j]).0 by {
            assert(t1[i] == t[i] && t1[j] == t[j]);
        }
        assert forall|i: int| 0 <= i < t1.len() implies (#[trigger] t1[i]).0 <= last.0 by {
            assert(t1[i] == t[i]);
        }
        lemma_insert_ordered(t1, y);
        lemma_insert_up_to(t1, y, last.0 as int);
    }
}

/// The stable sort puts the positions in order.
pub proof fn lemma_sorted_ordered<T>(s: Seq<(usize, T)>)
    ensures
        ordered(sorted_by_position(s)),
    decreases s.len(),
{
    if s.len() > 0 {
        lemma_sorted_ordered(s.drop_last());
        lemma_insert_ordered(sorted_by_position(s.drop_last()), s.last());
    }
}

proof fn lemma_insert_permutes<T>(t: Seq<(usize, T)>, y: (usize, T))
    ensures
        insert_by_position(t, y).to_multiset() == t.to_multiset().insert(y),
    decreases t.len(),
{
    broadcast use vstd::multiset::group_multiset_axioms;

    if t.len() == 0 || t.last().0 <= y.0 {
        vstd::seq_lib::to_multiset_build(t, y);
    } else {
        let t1 = t.drop_last();
        lemma_insert_permutes(t1, y);
        vstd::seq_lib::to_multiset_build(insert_by_position(t1, y), t.last());
        vstd::seq_lib::to_multiset_build(t1, t.last());
        assert(t1.push(t.last()) =~= t);
        assert(t1.to_multiset().insert(y).insert(t.last()) =~= t1.to_multiset().insert(
            t.last(),
        ).insert(y));
    }
}

/// The stable sort drops nothing and adds nothing: it holds each item as
/// often as the sequence that was sorted.
pub proof fn lemma_sorted_permutes<T>(s: Seq<(usize, T)>)
    ensures
        sorted_by_position(s).to_multiset() == s.to_multiset(),
    decreases s.len(),
{
    if s.len() > 0 {
        lemma_sorted_permutes(s.drop_last());
        lemma_insert_permutes(sorted_by_position(s.drop_last()), s.last());
        vstd::seq_lib::to_multiset_build(s.drop_last(), s.last());
        assert(s.drop_last().push(s.last()) =~= s);
    }
}

proof fn lemma_insert_stable<T>(t: Seq<(usize, T)>, y: (usize, T), p: usize)
    ensures
        insert_by_position(t, y).filter(at_position(p)) == if y.0 == p {
            t.filter(at_position(p)).push(y)
        } else {
            t.filter(at_position(p))
        },
    decreases t.len(),
{
    let pick = at_position::<T>(p);
    if t.len() == 0 || t.last().0 <= y.0 {
        t.lemma_filter_push(y, pick);
    } else {
        let t1 = t.drop_last();
        lemma_insert_stable(t1, y, p);
        insert_by_position(t1, y).lemma_filter_push(t.last(), pick);
        t1.lemma_filter_push(t.last(), pick);
        assert(t1.push(t.last()) =~= t);
    }
}

/// The sort is stable: the items of one position come out in the order in
/// which they went in.
pub proof fn lemma_sorted_stable<T>(s: Seq<(usize, T)>, p: usize)
    ensures
        sorted_by_position(s).filter(at_position(p)) == s.filter(at_position(p)),
    decreases s.len(),
{
    if s.len() > 0 {
        lemma_sorted_stable(s.drop_last(), p);
        lemma_insert_stable(sorted_by_position(s.drop_last()), s.last(), p);
        s.drop_last().lemma_filter_push(s.last(), at_position(p));
        assert(s.drop_last().push(s.last()) =~= s);
    }
}

/// What is in order already is left as it is.
pub proof fn lemma_sorted_fixes_ordered<T>(s: Seq<(usize, T)>)
    requires
        ordered(s),
    ensures
        sorted_by_position(s) == s,
    decreases s.len(),
{
    if s.len() > 0 {
        let s1 = s.drop_last();
        assert forall|i: int, j: int| 0 <= i < j < s1.len() implies (#[trigger] s1[i]).0 <= (
        #[trigger] s1[j]).0 by {
            assert(s1[i] == s[i] && s1[j] == s[j]);
        }
        lemma_sorted_fixes_ordered(s1);
        if s1.len() > 0 {
            assert(s1.last() == s[s.len() - 2]);
            assert(s.last() == s[s.len() - 1]);
        }
        assert(s1.push(s.last()) =~= s);
    }
}

} // verus!
