//! Views of sequences, element by element.

use vstd::prelude::*;

verus! {

/// The models of a sequence of values, in order.
pub open spec fn of<T: View>(items: Seq<T>) -> Seq<T::V> {
    items.map_values(|t: T| t@)
}

/// The values that `f` makes of `items`, in order, leaving out those it makes nothing of.
pub open spec fn pick<A, B>(items: Seq<A>, f: spec_fn(A) -> Option<B>) -> Seq<B>
    decreases items.len(),
{
    if items.len() == 0 {
        Seq::empty()
    } else {
        let rest = pick(items.drop_last(), f);
        match f(items.last()) {
            Some(b) => rest.push(b),
            None => rest,
        }
    }
}

/// One more item adds what `f` makes of it.
pub proof fn pick_step<A, B>(items: Seq<A>, i: int, f: spec_fn(A) -> Option<B>)
    requires
        0 <= i < items.len(),
    ensures
        pick(items.take(i + 1), f) == match f(items[i]) {
            Some(b) => pick(items.take(i), f).push(b),
            None => pick(items.take(i), f),
        },
{
    let head = items.take(i + 1);
    assert(head.drop_last() =~= items.take(i));
    assert(head.last() == items[i]);
}

/// Picking from all of the items is picking from their full prefix.
pub proof fn pick_whole<A, B>(items: Seq<A>, f: spec_fn(A) -> Option<B>)
    ensures
        pick(items.take(items.len() as int), f) == pick(items, f),
{
    assert(items.take(items.len() as int) =~= items);
}

/// What is picked first was made of an item that stands first.
pub proof fn pick_origins<A, B>(items: Seq<A>, f: spec_fn(A) -> Option<B>, j: int, k: int) -> (r: (
    int,
    int,
))
    requires
        0 <= j < k < pick(items, f).len(),
    ensures
        0 <= r.0 < r.1 < items.len(),
        f(items[r.0]) == Some(pick(items, f)[j]),
        f(items[r.1]) == Some(pick(items, f)[k]),
    decreases items.len(),
{
    let head = items.drop_last();
    if k < pick(head, f).len() {
        pick_origins(head, f, j, k)
    } else {
        (pick_origin(head, f, j), items.len() - 1)
    }
}

/// Everything picked was made of some item.
pub proof fn pick_origin<A, B>(items: Seq<A>, f: spec_fn(A) -> Option<B>, k: int) -> (i: int)
    requires
        0 <= k < pick(items, f).len(),
    ensures
        0 <= i < items.len(),
        f(items[i]) == Some(pick(items, f)[k]),
    decreases items.len(),
{
    let rest = pick(items.drop_last(), f);
    if k < rest.len() {
        pick_origin(items.drop_last(), f, k)
    } else {
        items.len() - 1
    }
}

/// Whatever `f` makes of an item is among the picked values.
pub proof fn pick_holds<A, B>(items: Seq<A>, f: spec_fn(A) -> Option<B>, i: int) -> (k: int)
    requires
        0 <= i < items.len(),
        f(items[i]) is Some,
    ensures
        0 <= k < pick(items, f).len(),
        f(items[i]) == Some(pick(items, f)[k]),
    decreases items.len(),
{
    let rest = pick(items.drop_last(), f);
    if i == items.len() - 1 {
        rest.len() as int
    } else {
        let k = pick_holds(items.drop_last(), f, i);
        k
    }
}

/// No more values are picked than there are items.
pub proof fn pick_is_no_longer<A, B>(items: Seq<A>, f: spec_fn(A) -> Option<B>)
    ensures
        pick(items, f).len() <= items.len(),
    decreases items.len(),
{
    if items.len() > 0 {
        pick_is_no_longer(items.drop_last(), f);
    }
}

/// Picking is keeping the items that something is made of, in order, and making it of each.
pub proof fn law_picking_keeps_and_makes<A, B>(items: Seq<A>, f: spec_fn(A) -> Option<B>)
    ensures
        pick(items, f) == items.filter(|a: A| f(a) is Some).map_values(|a: A| f(a)->0),
    decreases items.len(),
{
    reveal(Seq::filter);
    let keep = |a: A| f(a) is Some;
    let make = |a: A| f(a)->0;
    if items.len() > 0 {
        let head = items.drop_last();
        law_picking_keeps_and_makes(head, f);
        if f(items.last()) is Some {
            assert(head.filter(keep).push(items.last()).map_values(make) =~= head.filter(
                keep,
            ).map_values(make).push(make(items.last())));
        }
        assert(pick(items, f) =~= items.filter(keep).map_values(make));
    } else {
        assert(pick(items, f) =~= items.filter(keep).map_values(make));
    }
}

/// As many are picked as items pass a test that agrees with what something is made of.
pub proof fn picked_as_many<A, B>(
    items: Seq<A>,
    f: spec_fn(A) -> Option<B>,
    test: spec_fn(A) -> bool,
)
    requires
        forall|a: A| #[trigger] test(a) <==> f(a) is Some,
    ensures
        pick(items, f).len() == items.filter(test).len(),
    decreases items.len(),
{
    reveal(Seq::filter);
    if items.len() > 0 {
        picked_as_many(items.drop_last(), f, test);
        assert(test(items.last()) <==> f(items.last()) is Some);
    }
}

/// As many are picked from what was picked as items pass a test that agrees with both.
pub proof fn picked_twice<A, B, C>(
    items: Seq<A>,
    f: spec_fn(A) -> Option<B>,
    g: spec_fn(B) -> Option<C>,
    test: spec_fn(A) -> bool,
)
    requires
        forall|a: A| #[trigger] test(a) <==> (f(a) matches Some(b) && g(b) is Some),
    ensures
        pick(pick(items, f), g).len() == items.filter(test).len(),
    decreases items.len(),
{
    reveal(Seq::filter);
    if items.len() > 0 {
        let head = items.drop_last();
        picked_twice(head, f, g, test);
        assert(test(items.last()) <==> (f(items.last()) matches Some(b) && g(b) is Some));
        if let Some(b) = f(items.last()) {
            assert(pick(items, f).drop_last() =~= pick(head, f));
        }
    }
}

/// Fewer items pass a test that asks for more.
pub proof fn stricter_tests_keep_fewer<A>(
    items: Seq<A>,
    strict: spec_fn(A) -> bool,
    lax: spec_fn(A) -> bool,
)
    requires
        forall|a: A| #[trigger] strict(a) ==> lax(a),
    ensures
        items.filter(strict).len() <= items.filter(lax).len() <= items.len(),
    decreases items.len(),
{
    reveal(Seq::filter);
    if items.len() > 0 {
        stricter_tests_keep_fewer(items.drop_last(), strict, lax);
        assert(strict(items.last()) ==> lax(items.last()));
    }
}

/// As many of what was picked pass a test as items that agree with both.
pub proof fn picked_then_tested<A, B>(
    items: Seq<A>,
    f: spec_fn(A) -> Option<B>,
    kept: spec_fn(B) -> bool,
    test: spec_fn(A) -> bool,
)
    requires
        forall|a: A| #[trigger] test(a) <==> (f(a) matches Some(b) && kept(b)),
    ensures
        pick(items, f).filter(kept).len() == items.filter(test).len(),
    decreases items.len(),
{
    reveal(Seq::filter);
    if items.len() > 0 {
        let head = items.drop_last();
        picked_then_tested(head, f, kept, test);
        assert(test(items.last()) <==> (f(items.last()) matches Some(b) && kept(b)));
        if let Some(b) = f(items.last()) {
            assert(pick(items, f).drop_last() =~= pick(head, f));
        }
    }
}

/// As many items pass a test as there are places of such items.
pub proof fn tested_as_many_as_places<A>(items: Seq<A>, test: spec_fn(A) -> bool)
    ensures
        Set::new(|i: int| 0 <= i < items.len() && test(items[i])).finite(),
        items.filter(test).len() == Set::new(
            |i: int| 0 <= i < items.len() && test(items[i]),
        ).len(),
    decreases items.len(),
{
    reveal(Seq::filter);
    let places = Set::new(|i: int| 0 <= i < items.len() && test(items[i]));
    if items.len() > 0 {
        let head = items.drop_last();
        let before = Set::new(|i: int| 0 <= i < head.len() && test(head[i]));
        tested_as_many_as_places(head, test);
        if test(items.last()) {
            assert(places =~= before.insert(items.len() - 1));
        } else {
            assert(places =~= before);
        }
    } else {
        assert(places =~= Set::empty());
    }
}

} // verus!
