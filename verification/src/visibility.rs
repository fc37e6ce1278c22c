//! What the list of visible nodes holds, and in which order: the nodes whose ancestors
//! are all open, ordered as a walk through the tree meets them.

use vstd::prelude::*;
use crate::flatten::{visible, visible_from, Entry};
use crate::item::TreeItem;

verus! {

/// The node that an identifier addresses among `items` and below them, if there is one.
pub open spec fn node_at(items: Seq<TreeItem>, identifier: Seq<usize>) -> Option<TreeItem>
    decreases identifier.len(),
{
    if identifier.len() == 0 || identifier[0] >= items.len() {
        None
    } else if identifier.len() == 1 {
        Some(items[identifier[0] as int])
    } else {
        node_at(items[identifier[0] as int].children@, identifier.drop_first())
    }
}

/// Whether the ancestors of the node with the given identifier are open, as far as
/// their identifiers are longer than `above`.
pub open spec fn open_above(opened: Set<Seq<usize>>, identifier: Seq<usize>, above: int) -> bool {
    forall|n: int| above < n < identifier.len() ==> opened.contains(#[trigger] identifier.take(n))
}

/// Whether all ancestors of the node with the given identifier are open.
pub open spec fn is_shown(opened: Set<Seq<usize>>, identifier: Seq<usize>) -> bool {
    open_above(opened, identifier, 0)
}

/// Whether `one` comes before `other` where a node comes before its descendants, and
/// they before its next sibling.
pub open spec fn comes_before(one: Seq<usize>, other: Seq<usize>) -> bool {
    exists|n: int|
        0 <= n <= one.len() && n < other.len() && #[trigger] one.take(n) == other.take(n) && (n
            == one.len() || one[n] < other[n])
}

/// What holds of the nodes that are visible among `items[from..]` and below, where
/// `items` are the children of the node `prefix`.
pub open spec fn listed(
    opened: Set<Seq<usize>>,
    items: Seq<TreeItem>,
    prefix: Seq<usize>,
    from: nat,
    entry: Entry,
) -> bool {
    &&& entry.identifier.len() > prefix.len()
    &&& entry.identifier.take(prefix.len() as int) == prefix
    &&& entry.identifier[prefix.len() as int] >= from
    &&& node_at(items, entry.identifier.skip(prefix.len() as int)) == Some(entry.item)
    &&& open_above(opened, entry.identifier, prefix.len() as int)
}

proof fn lemma_visible_from_listed(
    opened: Set<Seq<usize>>,
    items: Seq<TreeItem>,
    prefix: Seq<usize>,
    from: nat,
)
    requires
        items.len() <= usize::MAX,
    ensures
        forall|k: int|
            0 <= k < visible_from(opened, items, prefix, from).len() ==> listed(
                opened,
                items,
                prefix,
                from,
                #[trigger] visible_from(opened, items, prefix, from)[k],
            ),
    decreases items, items.len() - from,
{
    let list = visible_from(opened, items, prefix, from);
    let depth = prefix.len() as int;
    if from < items.len() {
        let identifier = prefix.push(from as usize);
        let node = items[from as int];
        let below = if opened.contains(identifier) {
            visible_from(opened, node.children@, identifier, 0)
        } else {
            Seq::empty()
        };
        let rest = visible_from(opened, items, prefix, from + 1);
        if opened.contains(identifier) {
            assert(node.children@.len() <= usize::MAX) by {
                assert(node.children.len() == node.children@.len());
            }
            lemma_visible_from_listed(opened, node.children@, identifier, 0);
        }
        lemma_visible_from_listed(opened, items, prefix, from + 1);
        assert forall|k: int| 0 <= k < list.len() implies listed(
            opened,
            items,
            prefix,
            from,
            #[trigger] list[k],
        ) by {
            let entry = list[k];
            let found = entry.identifier;
            if k == 0 {
                assert(found == identifier);
                assert(found.take(depth) =~= prefix);
                assert(found.skip(depth) =~= seq![from as usize]);
            } else if k < 1 + below.len() {
                assert(entry == below[k - 1]);
                assert(listed(opened, node.children@, identifier, 0, entry));
                assert(found.take(depth + 1) == identifier);
                assert(found.take(depth) =~= identifier.take(depth));
                assert(identifier.take(depth) =~= prefix);
                assert(found[depth] == identifier[depth]);
                let relative = found.skip(depth);
                assert(relative[0] == from);
                assert(relative.drop_first() =~= found.skip(depth + 1));
                assert(relative.len() > 1);
                assert forall|n: int| depth < n < found.len() implies opened.contains(
                    #[trigger] found.take(n),
                ) by {
                    if n == depth + 1 {
                        assert(found.take(n) == identifier);
                    }
                }
            } else {
                assert(entry == rest[k - 1 - below.len()]);
                assert(listed(opened, items, prefix, from + 1, entry));
            }
        }
    }
}

/// Every visible node is the node that its identifier addresses, and all its ancestors
/// are open.
pub proof fn lemma_visible_nodes_are_shown(opened: Set<Seq<usize>>, roots: Seq<TreeItem>)
    requires
        roots.len() <= usize::MAX,
    ensures
        forall|k: int|
            0 <= k < visible(opened, roots).len() ==> {
                let entry = #[trigger] visible(opened, roots)[k];
                &&& node_at(roots, entry.identifier) == Some(entry.item)
                &&& is_shown(opened, entry.identifier)
            },
{
    lemma_visible_from_listed(opened, roots, Seq::empty(), 0);
    assert forall|k: int| 0 <= k < visible(opened, roots).len() implies {
        let entry = #[trigger] visible(opened, roots)[k];
        &&& node_at(roots, entry.identifier) == Some(entry.item)
        &&& is_shown(opened, entry.identifier)
    } by {
        let entry = visible(opened, roots)[k];
        assert(listed(opened, roots, Seq::empty(), 0, entry));
        assert(entry.identifier.skip(0) =~= entry.identifier);
    }
}

proof fn lemma_shown_is_listed(
    opened: Set<Seq<usize>>,
    items: Seq<TreeItem>,
    prefix: Seq<usize>,
    from: nat,
    relative: Seq<usize>,
) -> (at: int)
    requires
        relative.len() > 0,
        relative[0] >= from,
        node_at(items, relative).is_some(),
        open_above(opened, prefix + relative, prefix.len() as int),
    ensures
        0 <= at < visible_from(opened, items, prefix, from).len(),
        visible_from(opened, items, prefix, from)[at].identifier == prefix + relative,
    decreases items, items.len() - from,
{
    let list = visible_from(opened, items, prefix, from);
    let depth = prefix.len() as int;
    let whole = prefix + relative;
    assert(from < items.len());
    let identifier = prefix.push(from as usize);
    let node = items[from as int];
    let below = if opened.contains(identifier) {
        visible_from(opened, node.children@, identifier, 0)
    } else {
        Seq::empty()
    };
    let rest = visible_from(opened, items, prefix, from + 1);
    if relative[0] == from {
        if relative.len() == 1 {
            assert(whole =~= identifier);
            0
        } else {
            assert(whole.take(depth + 1) =~= identifier);
            assert(opened.contains(identifier));
            let deeper = relative.drop_first();
            assert(identifier + deeper =~= whole);
            let at = lemma_shown_is_listed(opened, node.children@, identifier, 0, deeper);
            assert(list[1 + at] == below[at]);
            1 + at
        }
    } else {
        let at = lemma_shown_is_listed(opened, items, prefix, from + 1, relative);
        assert(list[1 + below.len() + at] == rest[at]);
        1 + below.len() + at
    }
}

/// Every node whose ancestors are all open is visible.
pub proof fn lemma_shown_nodes_are_visible(
    opened: Set<Seq<usize>>,
    roots: Seq<TreeItem>,
    identifier: Seq<usize>,
) -> (at: int)
    requires
        node_at(roots, identifier).is_some(),
        is_shown(opened, identifier),
    ensures
        0 <= at < visible(opened, roots).len(),
        visible(opened, roots)[at].identifier == identifier,
{
    assert(Seq::<usize>::empty() + identifier =~= identifier);
    lemma_shown_is_listed(opened, roots, Seq::empty(), 0, identifier)
}

proof fn lemma_visible_from_in_order(
    opened: Set<Seq<usize>>,
    items: Seq<TreeItem>,
    prefix: Seq<usize>,
    from: nat,
)
    requires
        items.len() <= usize::MAX,
    ensures
        forall|k: int, l: int|
            0 <= k < l < visible_from(opened, items, prefix, from).len() ==> comes_before(
                (#[trigger] visible_from(opened, items, prefix, from)[k]).identifier,
                (#[trigger] visible_from(opened, items, prefix, from)[l]).identifier,
            ),
    decreases items, items.len() - from,
{
    let list = visible_from(opened, items, prefix, from);
    let depth = prefix.len() as int;
    if from < items.len() {
        let identifier = prefix.push(from as usize);
        let node = items[from as int];
        let below = if opened.contains(identifier) {
            visible_from(opened, node.children@, identifier, 0)
        } else {
            Seq::empty()
        };
        let rest = visible_from(opened, items, prefix, from + 1);
        assert(node.children.len() == node.children@.len());
        if opened.contains(identifier) {
            lemma_visible_from_in_order(opened, node.children@, identifier, 0);
            lemma_visible_from_listed(opened, node.children@, identifier, 0);
        }
        lemma_visible_from_in_order(opened, items, prefix, from + 1);
        lemma_visible_from_listed(opened, items, prefix, from + 1);
        assert forall|k: int, l: int| 0 <= k < l < list.len() implies comes_before(
            (#[trigger] list[k]).identifier,
            (#[trigger] list[l]).identifier,
        ) by {
            let one = list[k].identifier;
            let other = list[l].identifier;
            if l < 1 + below.len() {
                assert(list[l] == below[l - 1]);
                assert(listed(opened, node.children@, identifier, 0, below[l - 1]));
                if k == 0 {
                    assert(one == identifier);
                    assert(one.take(depth + 1) =~= one);
                    assert(one.take(depth + 1) == other.take(depth + 1));
                } else {
                    assert(list[k] == below[k - 1]);
                }
            } else {
                assert(list[l] == rest[l - 1 - below.len()]);
                assert(listed(opened, items, prefix, from + 1, rest[l - 1 - below.len()]));
                if k == 0 {
                    assert(one == identifier);
                    assert(one.take(depth) =~= prefix);
                    assert(one.take(depth) == other.take(depth));
                    assert(one[depth] < other[depth]);
                } else if k < 1 + below.len() {
                    assert(list[k] == below[k - 1]);
                    assert(listed(opened, node.children@, identifier, 0, below[k - 1]));
                    assert(one.take(depth) =~= one.take(depth + 1).take(depth));
                    assert(identifier.take(depth) =~= prefix);
                    assert(one.take(depth) == other.take(depth));
                    assert(one[depth] == one.take(depth + 1)[depth]);
                    assert(one[depth] < other[depth]);
                } else {
                    assert(list[k] == rest[k - 1 - below.len()]);
                }
            }
        }
    }
}

/// The visible nodes are listed in the order in which a walk through the tree meets
/// them: a node before its descendants, and they before its next sibling. So no node is
/// listed twice.
pub proof fn lemma_visible_in_order(opened: Set<Seq<usize>>, roots: Seq<TreeItem>)
    requires
        roots.len() <= usize::MAX,
    ensures
        forall|k: int, l: int|
            0 <= k < l < visible(opened, roots).len() ==> comes_before(
                (#[trigger] visible(opened, roots)[k]).identifier,
                (#[trigger] visible(opened, roots)[l]).identifier,
            ) && visible(opened, roots)[k].identifier != visible(opened, roots)[l].identifier,
{
    lemma_visible_from_in_order(opened, roots, Seq::empty(), 0);
    assert forall|k: int, l: int| 0 <= k < l < visible(opened, roots).len() implies visible(
        opened,
        roots,
    )[k].identifier != visible(opened, roots)[l].identifier by {
        let one = visible(opened, roots)[k].identifier;
        let other = visible(opened, roots)[l].identifier;
        assert(comes_before(one, other));
    }
}

} // verus!
