//! Bringing statics into drawing order.

use vstd::prelude::*;
use crate::entity::statich::Static;

verus! {

/// The test "lies in layer `layer`".
pub open spec fn on_layer(layer: int) -> spec_fn(Static) -> bool {
    |s: Static| s.layer() == layer
}

/// The statics of `items` that lie in `layer`, in the order they have in
/// `items`.
pub open spec fn layer_of(items: Seq<Static>, layer: int) -> Seq<Static> {
    items.filter(on_layer(layer))
}

/// `items` with the terrain first, then the roads, then the stones; within a
/// layer the order of `items` is kept.
#[verifier::opaque]
pub open spec fn layered(items: Seq<Static>) -> Seq<Static> {
    layer_of(items, 0) + layer_of(items, 1) + layer_of(items, 2)
}

/// Whether no static of `items` comes before one of a lower layer.
pub open spec fn in_layer_order(items: Seq<Static>) -> bool {
    forall|i: int, j: int|
        0 <= i < j < items.len() ==> (#[trigger] items[i]).layer() <= (#[trigger] items[j]).layer()
}

/// In a list in layer order all terrain comes before all roads, and all
/// roads before all stones: what follows terrain is anything, what follows a
/// road is no terrain, and what follows a stone is a stone.
pub proof fn lemma_terrain_roads_stones(items: Seq<Static>, i: int, j: int)
    requires
        in_layer_order(items),
        0 <= i < j < items.len(),
    ensures
        items[j] is Terrain ==> items[i] is Terrain,
        items[i] is Road ==> !(items[j] is Terrain),
        items[i] is Stone ==> items[j] is Stone,
{
    assert(items[i].layer() <= items[j].layer());
}

/// Every static of a layer's list lies in that layer.
pub proof fn lemma_layer_members(items: Seq<Static>, layer: int)
    ensures
        forall|i: int|
            0 <= i < layer_of(items, layer).len() ==> (#[trigger] layer_of(items, layer)[i]).layer()
                == layer,
{
    assert forall|i: int| 0 <= i < layer_of(items, layer).len() implies (#[trigger] layer_of(
        items,
        layer,
    )[i]).layer() == layer by {
        items.lemma_filter_pred(on_layer(layer), i);
    }
}

/// A list whose statics all lie in `layer` is that layer's list, and the
/// lists of the other layers are empty.
pub proof fn lemma_layer_of_uniform(items: Seq<Static>, layer: int, other: int)
    requires
        forall|i: int| 0 <= i < items.len() ==> (#[trigger] items[i]).layer() == layer,
        other != layer,
    ensures
        layer_of(items, layer) == items,
        layer_of(items, other) == Seq::<Static>::empty(),
    decreases items.len(),
{
    reveal(Seq::filter);
    if items.len() > 0 {
        lemma_layer_of_uniform(items.drop_last(), layer, other);
        assert(items.drop_last().push(items.last()) =~= items);
    } else {
        assert(layer_of(items, layer) =~= items);
    }
}

/// Sorting into layers is in layer order and keeps each layer's list.
pub proof fn lemma_layered(items: Seq<Static>)
    ensures
        in_layer_order(layered(items)),
        layer_of(layered(items), 0) == layer_of(items, 0),
        layer_of(layered(items), 1) == layer_of(items, 1),
        layer_of(layered(items), 2) == layer_of(items, 2),
        layered(items).len() == items.len(),
        layered(items).to_multiset() == items.to_multiset(),
{
    reveal(layered);
    let l0 = layer_of(items, 0);
    let l1 = layer_of(items, 1);
    let l2 = layer_of(items, 2);
    lemma_layer_members(items, 0);
    lemma_layer_members(items, 1);
    lemma_layer_members(items, 2);
    let all = layered(items);
    assert forall|i: int, j: int| 0 <= i < j < all.len() implies (#[trigger] all[i]).layer() <= (
    #[trigger] all[j]).layer() by {
        if i < l0.len() {
            assert(all[i] == l0[i]);
        } else if i < l0.len() + l1.len() {
            assert(all[i] == l1[i - l0.len()]);
        } else {
            assert(all[i] == l2[i - l0.len() - l1.len()]);
        }
        if j < l0.len() {
            assert(all[j] == l0[j]);
        } else if j < l0.len() + l1.len() {
            assert(all[j] == l1[j - l0.len()]);
        } else {
            assert(all[j] == l2[j - l0.len() - l1.len()]);
        }
    }
    Seq::filter_distributes_over_add(l0 + l1, l2, on_layer(0));
    Seq::filter_distributes_over_add(l0, l1, on_layer(0));
    Seq::filter_distributes_over_add(l0 + l1, l2, on_layer(1));
    Seq::filter_distributes_over_add(l0, l1, on_layer(1));
    Seq::filter_distributes_over_add(l0 + l1, l2, on_layer(2));
    Seq::filter_distributes_over_add(l0, l1, on_layer(2));
    lemma_layer_of_uniform(l0, 0, 1);
    lemma_layer_of_uniform(l0, 0, 2);
    lemma_layer_of_uniform(l1, 1, 0);
    lemma_layer_of_uniform(l1, 1, 2);
    lemma_layer_of_uniform(l2, 2, 0);
    lemma_layer_of_uniform(l2, 2, 1);
    assert(layer_of(all, 0) =~= l0);
    assert(layer_of(all, 1) =~= l1);
    assert(layer_of(all, 2) =~= l2);
    lemma_layers_partition(items);
}

/// The three layers' lists together hold exactly the statics of `items`.
pub proof fn lemma_layers_partition(items: Seq<Static>)
    ensures
        layered(items).len() == items.len(),
        layered(items).to_multiset() == items.to_multiset(),
    decreases items.len(),
{
    broadcast use vstd::seq_lib::group_to_multiset_ensures;

    reveal(layered);
    if items.len() == 0 {
        reveal(Seq::filter);
        assert(layered(items) =~= items);
    } else {
        let rest = items.drop_last();
        let last = items.last();
        lemma_layers_partition(rest);
        assert(rest.push(last) =~= items);
        rest.lemma_filter_push(last, on_layer(0));
        rest.lemma_filter_push(last, on_layer(1));
        rest.lemma_filter_push(last, on_layer(2));
        let r0 = layer_of(rest, 0);
        let r1 = layer_of(rest, 1);
        let r2 = layer_of(rest, 2);
        vstd::seq_lib::lemma_multiset_commutative(r0 + r1, r2);
        vstd::seq_lib::lemma_multiset_commutative(r0, r1);
        if last.layer() == 0 {
            vstd::seq_lib::lemma_multiset_commutative(r0.push(last) + r1, r2);
            vstd::seq_lib::lemma_multiset_commutative(r0.push(last), r1);
        } else if last.layer() == 1 {
            vstd::seq_lib::lemma_multiset_commutative(r0 + r1.push(last), r2);
            vstd::seq_lib::lemma_multiset_commutative(r0, r1.push(last));
        } else {
            vstd::seq_lib::lemma_multiset_commutative(r0 + r1, r2.push(last));
        }
        assert(layered(items).to_multiset() =~= layered(rest).to_multiset().insert(last));
    }
}

/// Brings `items` into drawing order: terrain, then roads, then stones. Within
/// a layer the statics keep the order they had.
pub fn sort_by_layer(items: &Vec<Static>) -> (sorted: Vec<Static>)
    ensures
        sorted@ == layered(items@),
{
    let mut sorted: Vec<Static> = Vec::new();
    let mut layer: u8 = 0;
    proof {
        reveal(layered);
        reveal(Seq::filter);
        assert(items@.take(0).filter(on_layer(0)) =~= Seq::<Static>::empty());
    }
    while layer < 3
        invariant
            layer <= 3,
            layer == 0 ==> sorted@ == Seq::<Static>::empty(),
            layer == 1 ==> sorted@ == layer_of(items@, 0),
            layer == 2 ==> sorted@ == layer_of(items@, 0) + layer_of(items@, 1),
            layer == 3 ==> sorted@ == layered(items@),
        decreases 3 - layer,
    {
        let ghost done = sorted@;
        let mut i: usize = 0;
        proof {
            reveal(layered);
            reveal(Seq::filter);
            assert(layer_of(items@.take(0), layer as int) =~= Seq::<Static>::empty());
            assert(done + Seq::<Static>::empty() =~= done);
        }
        while i < items.len()
            invariant
                i <= items@.len(),
                layer < 3,
                sorted@ == done + layer_of(items@.take(i as int), layer as int),
            decreases items@.len() - i,
        {
            let item = items[i];
            proof {
                assert(items@.take(i as int + 1) =~= items@.take(i as int).push(item));
                items@.take(i as int).lemma_filter_push(item, on_layer(layer as int));
            }
            if item.rank() == layer {
                sorted.push(item);
                assert(sorted@ =~= done + layer_of(items@.take(i as int + 1), layer as int));
            }
            i += 1;
        }
        proof {
            reveal(layered);
            assert(items@.take(i as int) =~= items@);
            assert(Seq::<Static>::empty() + layer_of(items@, 0) =~= layer_of(items@, 0));
        }
        layer += 1;
    }
    sorted
}

} // verus!
