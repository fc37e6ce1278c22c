//! The list of the nodes that are visible, in the order in which they are shown.

use vstd::prelude::*;
use crate::identifier::child_identifier;
use crate::item::TreeItem;

verus! {

/// A visible node: its identifier and the node itself.
pub struct Flattened<'a> {
    pub identifier: Vec<usize>,
    pub item: &'a TreeItem,
}

/// What a `Flattened` stands for in contracts.
pub struct Entry {
    pub identifier: Seq<usize>,
    pub item: TreeItem,
}

impl<'a> View for Flattened<'a> {
    type V = Entry;

    open spec fn view(&self) -> Entry {
        Entry { identifier: self.identifier@, item: *self.item }
    }
}

impl<'a> Flattened<'a> {
    pub fn identifier(&self) -> (identifier: &Vec<usize>)
        ensures
            identifier@ == self@.identifier,
    {
        &self.identifier
    }

    pub fn item(&self) -> (item: &'a TreeItem)
        ensures
            *item == self@.item,
    {
        self.item
    }

    /// The number of ancestors of the node.
    pub fn depth(&self) -> (depth: usize)
        requires
            self@.identifier.len() > 0,
        ensures
            depth == self@.identifier.len() - 1,
    {
        self.identifier.len() - 1
    }
}

/// The identifiers that a list of open identifiers holds.
pub open spec fn opened_set(opened: Seq<Vec<usize>>) -> Set<Seq<usize>> {
    Set::new(|identifier: Seq<usize>| exists|i: int| 0 <= i < opened.len() && #[trigger] opened[i]@ == identifier)
}

/// The visible nodes among `items[from..]` and below them, where `items` are the children of
/// the node `prefix` (the roots, where `prefix` is empty): each node, followed by what is
/// visible below it if it is open, before its next sibling.
pub open spec fn visible_from(
    opened: Set<Seq<usize>>,
    items: Seq<TreeItem>,
    prefix: Seq<usize>,
    from: nat,
) -> Seq<Entry>
    decreases items, items.len() - from,
{
    if from >= items.len() {
        Seq::empty()
    } else {
        let identifier = prefix.push(from as usize);
        let below = if opened.contains(identifier) {
            visible_from(opened, items[from as int].children@, identifier, 0)
        } else {
            Seq::empty()
        };
        seq![Entry { identifier, item: items[from as int] }] + below + visible_from(
            opened,
            items,
            prefix,
            from + 1,
        )
    }
}

/// The visible nodes of a tree with the given roots.
pub open spec fn visible(opened: Set<Seq<usize>>, roots: Seq<TreeItem>) -> Seq<Entry> {
    visible_from(opened, roots, Seq::empty(), 0)
}

/// The views of a list of entries.
pub open spec fn entries(list: Seq<Flattened>) -> Seq<Entry> {
    Seq::new(list.len(), |i: int| list[i]@)
}

fn contains_identifier(opened: &[Vec<usize>], identifier: &Vec<usize>) -> (found: bool)
    ensures
        found == opened_set(opened@).contains(identifier@),
{
    let mut i: usize = 0;
    while i < opened.len()
        invariant
            i <= opened.len(),
            forall|j: int| 0 <= j < i ==> opened[j]@ != identifier@,
        decreases opened.len() - i,
    {
        if same_identifier(opened[i].as_slice(), identifier.as_slice()) {
            return true;
        }
        i += 1;
    }
    false
}

/// Whether two identifiers are equal.
pub fn same_identifier(a: &[usize], b: &[usize]) -> (same: bool)
    ensures
        same == (a@ == b@),
{
    if a.len() != b.len() {
        return false;
    }
    let mut i: usize = 0;
    while i < a.len()
        invariant
            a.len() == b.len(),
            i <= a.len(),
            forall|j: int| 0 <= j < i ==> a[j] == b[j],
        decreases a.len() - i,
    {
        if a[i] != b[i] {
            return false;
        }
        i += 1;
    }
    proof {
        assert(a@ =~= b@);
    }
    true
}

fn internal<'a>(opened: &[Vec<usize>], items: &'a [TreeItem], current: &[usize]) -> (result: Vec<
    Flattened<'a>,
>)
    ensures
        entries(result@) == visible_from(opened_set(opened@), items@, current@, 0),
    decreases items@,
{
    let mut result: Vec<Flattened<'a>> = Vec::new();
    let ghost open = opened_set(opened@);
    let mut index: usize = 0;
    while index < items.len()
        invariant
            index <= items.len(),
            open == opened_set(opened@),
            entries(result@) + visible_from(open, items@, current@, index as nat) == visible_from(
                open,
                items@,
                current@,
                0,
            ),
        decreases items.len() - index,
    {
        let ghost before = entries(result@);
        let child_identifier = child_identifier(current, index);
        let is_open = contains_identifier(opened, &child_identifier);
        let item = &items[index];
        let ghost entry = Entry { identifier: child_identifier@, item: *item };
        if is_open {
            let copy = child_identifier.clone();
            result.push(Flattened { identifier: copy, item });
            let mut child_result = internal(opened, item.children(), child_identifier.as_slice());
            let ghost below = entries(child_result@);
            result.append(&mut child_result);
            proof {
                assert(entries(result@) =~= before + seq![entry] + below);
            }
        } else {
            result.push(Flattened { identifier: child_identifier, item });
            proof {
                assert(entries(result@) =~= before + seq![entry]);
            }
        }
        proof {
            let rest = visible_from(open, items@, current@, (index + 1) as nat);
            let below = if open.contains(entry.identifier) {
                visible_from(open, items@[index as int].children@, entry.identifier, 0)
            } else {
                Seq::empty()
            };
            assert(visible_from(open, items@, current@, index as nat) == seq![entry] + below + rest);
            assert(entries(result@) + rest =~= before + (seq![entry] + below + rest));
        }
        index += 1;
    }
    proof {
        assert(entries(result@) + Seq::<Entry>::empty() =~= entries(result@));
    }
    result
}

/// The visible nodes of the tree with the given roots, in the order in which they are shown.
///
/// A root is always visible. Another node is visible where its parent is visible and open.
/// A node comes before its children, and they come before its next sibling.
pub fn flatten<'a>(opened: &[Vec<usize>], items: &'a [TreeItem]) -> (result: Vec<Flattened<'a>>)
    ensures
        entries(result@) == visible(opened_set(opened@), items@),
        forall|i: int| 0 <= i < result@.len() ==> (#[trigger] result@[i])@.identifier.len() > 0,
{
    let current: Vec<usize> = Vec::new();
    let result = internal(opened, items, current.as_slice());
    proof {
        lemma_visible_is_identified(opened_set(opened@), items@);
        assert forall|i: int| 0 <= i < result@.len() implies (#[trigger] result@[i])@.identifier.len()
            > 0 by {
            assert(entries(result@)[i] == result@[i]@);
            assert(visible(opened_set(opened@), items@)[i] == result@[i]@);
        }
    }
    result
}

/// The identifiers of a list of visible nodes.
pub open spec fn identifiers(list: Seq<Entry>) -> Seq<Seq<usize>> {
    Seq::new(list.len(), |i: int| list[i].identifier)
}

/// The index of the first of `list` that equals `identifier`; the length of `list` where
/// none does.
pub open spec fn position(list: Seq<Seq<usize>>, identifier: Seq<usize>) -> int
    decreases list.len(),
{
    if list.len() == 0 {
        0
    } else if list[0] == identifier {
        0
    } else {
        1 + position(list.drop_first(), identifier)
    }
}

/// The index in `list` of the first node with the given identifier; the length of
/// `list` where there is none.
pub fn position_of(list: &Vec<Flattened>, identifier: &[usize]) -> (at: usize)
    ensures
        at == position(identifiers(entries(list@)), identifier@),
        at <= list@.len(),
{
    let ghost all = identifiers(entries(list@));
    let mut i: usize = 0;
    proof {
        assert(all.skip(0) =~= all);
    }
    while i < list.len()
        invariant
            i <= list.len(),
            all == identifiers(entries(list@)),
            position(all, identifier@) == i + position(all.skip(i as int), identifier@),
        decreases list.len() - i,
    {
        proof {
            assert(all.skip(i as int)[0] == list@[i as int]@.identifier);
            assert(all.skip(i as int).drop_first() =~= all.skip(i + 1));
        }
        if same_identifier(list[i].identifier().as_slice(), identifier) {
            return i;
        }
        i += 1;
    }
    i
}

/// The identifier of every node that is visible below a node starts with the identifier
/// of that node, and goes on.
pub proof fn lemma_visible_below_prefix(
    opened: Set<Seq<usize>>,
    items: Seq<TreeItem>,
    prefix: Seq<usize>,
    from: nat,
)
    ensures
        forall|k: int|
            0 <= k < visible_from(opened, items, prefix, from).len() ==> {
                let identifier = (#[trigger] visible_from(opened, items, prefix, from)[k]).identifier;
                &&& identifier.len() > prefix.len()
                &&& identifier.take(prefix.len() as int) == prefix
            },
    decreases items, items.len() - from,
{
    let list = visible_from(opened, items, prefix, from);
    if from < items.len() {
        let identifier = prefix.push(from as usize);
        let below = if opened.contains(identifier) {
            visible_from(opened, items[from as int].children@, identifier, 0)
        } else {
            Seq::empty()
        };
        let rest = visible_from(opened, items, prefix, from + 1);
        if opened.contains(identifier) {
            lemma_visible_below_prefix(opened, items[from as int].children@, identifier, 0);
        }
        lemma_visible_below_prefix(opened, items, prefix, from + 1);
        assert forall|k: int| 0 <= k < list.len() implies {
            let found = (#[trigger] list[k]).identifier;
            &&& found.len() > prefix.len()
            &&& found.take(prefix.len() as int) == prefix
        } by {
            let found = list[k].identifier;
            if k == 0 {
                assert(found == identifier);
                assert(identifier.take(prefix.len() as int) =~= prefix);
            } else if k < 1 + below.len() {
                assert(list[k] == below[k - 1]);
                assert(found.take(identifier.len() as int) == identifier);
                assert(found.take(prefix.len() as int) =~= found.take(identifier.len() as int).take(
                    prefix.len() as int,
                ));
                assert(identifier.take(prefix.len() as int) =~= prefix);
            } else {
                assert(list[k] == rest[k - 1 - below.len()]);
            }
        }
    }
}

/// No visible node has the empty identifier.
pub proof fn lemma_visible_is_identified(opened: Set<Seq<usize>>, roots: Seq<TreeItem>)
    ensures
        forall|k: int|
            0 <= k < visible(opened, roots).len() ==> (#[trigger] visible(
                opened,
                roots,
            )[k]).identifier.len() > 0,
{
    lemma_visible_below_prefix(opened, roots, Seq::empty(), 0);
}

} // verus!
