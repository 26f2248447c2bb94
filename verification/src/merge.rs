//! Deep merge of trees: objects blend key by key, everything else is replaced.

use crate::tree::{items_model, ObjectMap, Tree, TreeModel};
use vstd::prelude::*;

verus! {

/// The merge of `overlay` on top of `base`. Two objects give the object over
/// the union of their keys: a key of both holds the merge of its two members,
/// a key of one holds that member. In every other pairing the overlay stands
/// alone.
pub open spec fn merge_model(base: TreeModel, overlay: TreeModel) -> TreeModel
    decreases base,
{
    match (base, overlay) {
        (TreeModel::Object(b), TreeModel::Object(o)) => TreeModel::Object(
            Map::new(
                |k: Seq<char>| b.dom().contains(k) || o.dom().contains(k),
                |k: Seq<char>|
                    if b.dom().contains(k) && o.dom().contains(k) {
                        merge_model(b[k], o[k])
                    } else if o.dom().contains(k) {
                        o[k]
                    } else {
                        b[k]
                    },
            ),
        ),
        _ => overlay,
    }
}

/// The trees merged from left to right onto the empty object: each one is the
/// overlay on all that came before it.
pub open spec fn merge_all_model(trees: Seq<TreeModel>) -> TreeModel
    decreases trees.len(),
{
    if trees.len() == 0 {
        TreeModel::empty_object()
    } else {
        merge_model(merge_all_model(trees.drop_last()), trees.last())
    }
}

/// Merges `overlay` on top of `base`.
pub fn merge(base: Tree, overlay: Tree) -> (merged: Tree)
    ensures
        merged@ == merge_model(base@, overlay@),
    decreases base,
{
    match (base, overlay) {
        (Tree::Object(below), Tree::Object(above)) => {
            let ghost b = below@;
            let ghost o = above@;
            let ghost target = merge_model(TreeModel::Object(b), TreeModel::Object(o))->Object_0;
            let entries = below.into_entries();
            let ghost all = entries@;
            let mut rest = above;
            let mut result = ObjectMap::new();
            for entry in it: entries.into_iter()
                invariant
                    target == merge_model(TreeModel::Object(b), TreeModel::Object(o))->Object_0,
                    it.seq() == all,
                    decreases_to!(base => entries),
                    entries@ == all,
                    forall|i: int, j: int|
                        0 <= i < j < all.len() ==> (#[trigger] all[i]).0@ != (#[trigger] all[j]).0@,
                    forall|i: int|
                        0 <= i < all.len() ==> b.dom().contains((#[trigger] all[i]).0@)
                            && b[all[i].0@] == all[i].1@,
                    forall|i: int|
                        0 <= i < it.index() ==> result@.dom().contains((#[trigger] all[i]).0@),
                    forall|i: int|
                        it.index() <= i < all.len() ==> !result@.dom().contains(
                            (#[trigger] all[i]).0@,
                        ),
                    forall|k: Seq<char>|
                        #![trigger result@.dom().contains(k)]
                        result@.dom().contains(k) ==> b.dom().contains(k) && result@[k]
                            == target[k],
                    forall|k: Seq<char>|
                        #![trigger rest@.dom().contains(k)]
                        rest@.dom().contains(k) ==> o.dom().contains(k) && rest@[k] == o[k]
                            && !result@.dom().contains(k),
                    forall|k: Seq<char>|
                        #![trigger o.dom().contains(k)]
                        o.dom().contains(k) ==> rest@.dom().contains(k) || result@.dom().contains(
                            k,
                        ),
            {
                let ghost n = it.index() as int;
                let ghost rest_before = rest@;
                let ghost result_before = result@;
                assert(entry == all[n]);
                let (key, under) = entry;
                let blended = match rest.remove(key.as_str()) {
                    Some(over) => {
                        proof {
                            vstd::std_specs::vec::axiom_vec_index_decreases(entries, n);
                        }
                        merge(under, over)
                    },
                    None => under,
                };
                result.insert(key, blended);
                proof {
                    assert forall|i: int| 0 <= i < n + 1 implies result@.dom().contains(
                        (#[trigger] all[i]).0@,
                    ) by {
                        if i < n {
                            assert(result_before.dom().contains(all[i].0@));
                        }
                    }
                    assert forall|i: int| n + 1 <= i < all.len() implies !result@.dom().contains(
                        (#[trigger] all[i]).0@,
                    ) by {
                        assert(!result_before.dom().contains(all[i].0@));
                        assert(all[n].0@ != all[i].0@);
                    }
                    assert forall|k: Seq<char>|
                        #![trigger result@.dom().contains(k)]
                        result@.dom().contains(k) implies b.dom().contains(k) && result@[k]
                        == target[k] by {
                        if k != key@ {
                            assert(result_before.dom().contains(k));
                        }
                    }
                    assert forall|k: Seq<char>|
                        #![trigger rest@.dom().contains(k)]
                        rest@.dom().contains(k) implies o.dom().contains(k) && rest@[k] == o[k]
                        && !result@.dom().contains(k) by {
                        assert(rest_before.dom().contains(k));
                    }
                    assert forall|k: Seq<char>|
                        #![trigger o.dom().contains(k)]
                        o.dom().contains(k) implies rest@.dom().contains(k)
                        || result@.dom().contains(k) by {
                        assert(rest_before.dom().contains(k) || result_before.dom().contains(k));
                    }
                }
            }
            assert forall|k: Seq<char>| b.dom().contains(k) implies result@.dom().contains(k) by {
                let i = choose|i: int| 0 <= i < all.len() && (#[trigger] all[i]).0@ == k;
                assert(result@.dom().contains(all[i].0@));
            }
            loop
                invariant
                    target == merge_model(TreeModel::Object(b), TreeModel::Object(o))->Object_0,
                    forall|k: Seq<char>|
                        #![trigger rest@.dom().contains(k)]
                        rest@.dom().contains(k) ==> o.dom().contains(k) && rest@[k] == o[k]
                            && !b.dom().contains(k),
                    forall|k: Seq<char>|
                        #![trigger result@.dom().contains(k)]
                        result@.dom().contains(k) <==> b.dom().contains(k) || (o.dom().contains(k)
                            && !rest@.dom().contains(k)),
                    forall|k: Seq<char>|
                        #![trigger result@[k]]
                        result@.dom().contains(k) ==> result@[k] == target[k],
                ensures
                    rest@ == Map::<Seq<char>, TreeModel>::empty(),
                decreases rest@.dom().len(),
            {
                let ghost rest_before = rest@;
                let ghost result_before = result@;
                proof {
                    rest.lemma_finite();
                }
                match rest.pop() {
                    Some((key, over)) => {
                        assert(rest_before.dom().contains(key@));
                        result.insert(key, over);
                        proof {
                            assert forall|k: Seq<char>|
                                #![trigger rest@.dom().contains(k)]
                                rest@.dom().contains(k) implies o.dom().contains(k) && rest@[k]
                                == o[k] && !b.dom().contains(k) by {
                                assert(rest_before.dom().contains(k));
                            }
                            assert forall|k: Seq<char>|
                                #![trigger result@.dom().contains(k)]
                                result@.dom().contains(k) <==> b.dom().contains(k) || (
                                o.dom().contains(k) && !rest@.dom().contains(k)) by {
                                assert(result_before.dom().contains(k) <==> b.dom().contains(k)
                                    || (o.dom().contains(k) && !rest_before.dom().contains(k)));
                            }
                            assert forall|k: Seq<char>|
                                #![trigger result@[k]]
                                result@.dom().contains(k) implies result@[k] == target[k] by {
                                if k != key@ {
                                    assert(result_before.dom().contains(k));
                                    assert(result@[k] == result_before[k]);
                                }
                            }
                        }
                    },
                    None => {
                        break ;
                    },
                }
            }
            assert(result@ =~= target);
            Tree::Object(result)
        },
        (_, overlay) => overlay,
    }
}

/// Merges the trees from left to right onto the empty object.
pub fn merge_all(trees: Vec<Tree>) -> (merged: Tree)
    ensures
        merged@ == merge_all_model(items_model(trees@)),
{
    let ghost all = trees@;
    let ghost models = items_model(all);
    let mut merged = Tree::empty_object();
    assert(models.take(0) =~= Seq::<TreeModel>::empty());
    for tree in it: trees.into_iter()
        invariant
            it.seq() == all,
            models == items_model(all),
            merged@ == merge_all_model(models.take(it.index() as int)),
    {
        proof {
            let n = it.index() as int;
            assert(models.take(n + 1).drop_last() =~= models.take(n));
            assert(models.take(n + 1).last() == tree@);
        }
        merged = merge(merged, tree);
    }
    assert(models.take(all.len() as int) =~= models);
    merged
}

/// Merging the empty object on top of an object changes nothing.
pub proof fn lemma_merge_empty_overlay(tree: TreeModel)
    requires
        tree is Object,
    ensures
        merge_model(tree, TreeModel::empty_object()) == tree,
{
    let merged = merge_model(tree, TreeModel::empty_object());
    assert(merged->Object_0 =~= tree->Object_0);
}

/// Merging any tree on top of the empty object gives that tree.
pub proof fn lemma_merge_onto_empty(tree: TreeModel)
    ensures
        merge_model(TreeModel::empty_object(), tree) == tree,
{
    if tree is Object {
        let merged = merge_model(TreeModel::empty_object(), tree);
        assert(merged->Object_0 =~= tree->Object_0);
    }
}

/// An overlay that is no object stands alone, an array as much as a scalar:
/// nothing of the base is left.
pub proof fn lemma_overlay_replaces(base: TreeModel, overlay: TreeModel)
    requires
        !(overlay is Object),
    ensures
        merge_model(base, overlay) == overlay,
{
}

/// Precedence: where the overlay holds something that is no object under a
/// path, the merged tree holds the same under that path, whatever the base
/// holds.
pub proof fn lemma_overlay_wins(base: TreeModel, overlay: TreeModel, path: Seq<Seq<char>>)
    requires
        overlay.lookup(path) matches Some(found) && !(found is Object),
    ensures
        merge_model(base, overlay).lookup(path) == overlay.lookup(path),
    decreases path.len(),
{
    if path.len() > 0 {
        if let TreeModel::Object(b) = base {
            let o = overlay->Object_0;
            if b.dom().contains(path[0]) {
                lemma_overlay_wins(b[path[0]], o[path[0]], path.drop_first());
            }
        }
    }
}

/// Union, overlay's side: a path that only the overlay holds is kept with
/// what the overlay holds there.
pub proof fn lemma_overlay_only(base: TreeModel, overlay: TreeModel, path: Seq<Seq<char>>)
    requires
        overlay.lookup(path) is Some,
        base.lookup(path) is None,
    ensures
        merge_model(base, overlay).lookup(path) == overlay.lookup(path),
    decreases path.len(),
{
    if path.len() > 0 {
        if let TreeModel::Object(b) = base {
            let o = overlay->Object_0;
            if b.dom().contains(path[0]) {
                lemma_overlay_only(b[path[0]], o[path[0]], path.drop_first());
            }
        }
    }
}

/// Whether `overlay` leaves the way down `path` open: it is an object at
/// every step of the path that it holds.
pub open spec fn leaves_open(overlay: TreeModel, path: Seq<Seq<char>>) -> bool
    decreases path.len(),
{
    match overlay {
        TreeModel::Object(members) => path.len() == 0 || !members.dom().contains(path[0])
            || leaves_open(members[path[0]], path.drop_first()),
        _ => false,
    }
}

/// Union, base's side: a path that only the base holds is kept with what the
/// base holds there, as long as the overlay leaves the way down the path open.
pub proof fn lemma_base_only(base: TreeModel, overlay: TreeModel, path: Seq<Seq<char>>)
    requires
        base.lookup(path) is Some,
        overlay.lookup(path) is None,
        leaves_open(overlay, path),
    ensures
        merge_model(base, overlay).lookup(path) == base.lookup(path),
    decreases path.len(),
{
    if path.len() > 0 {
        let b = base->Object_0;
        let o = overlay->Object_0;
        if o.dom().contains(path[0]) {
            lemma_base_only(b[path[0]], o[path[0]], path.drop_first());
        }
    }
}

/// Two trees merged from left to right: the second on top of the first.
pub proof fn lemma_merge_all_pair(first: TreeModel, second: TreeModel)
    ensures
        merge_all_model(seq![first, second]) == merge_model(first, second),
{
    let both = seq![first, second];
    assert(both.drop_last() =~= seq![first]);
    assert(seq![first].drop_last() =~= Seq::<TreeModel>::empty());
    reveal_with_fuel(merge_all_model, 3);
    lemma_merge_onto_empty(first);
}

} // verus!
