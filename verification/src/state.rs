//! What is selected and what is open in a tree, and how the keys change both.

use vstd::prelude::*;
use vstd::slice::slice_to_vec;
use crate::flatten::{
    entries, flatten, identifiers, opened_set, position, position_of, same_identifier, visible,
    Flattened,
};
use crate::identifier::get_without_leaf;
use crate::item::TreeItem;

verus! {

/// Keeps what is currently selected and which nodes are open.
#[derive(Debug, Clone)]
pub struct TreeState {
    offset: usize,
    opened: Vec<Vec<usize>>,
    selected: Vec<usize>,
}

/// What a `TreeState` stands for in contracts.
pub struct TreeStateView {
    /// The index of the first visible node that is shown.
    pub offset: nat,
    /// The identifiers of the open nodes.
    pub opened: Set<Seq<usize>>,
    /// The identifier of the selected node; empty where nothing is selected.
    pub selected: Seq<usize>,
}

impl View for TreeState {
    type V = TreeStateView;

    closed spec fn view(&self) -> TreeStateView {
        TreeStateView {
            offset: self.offset as nat,
            opened: opened_set(self.opened@),
            selected: self.selected@,
        }
    }
}

/// The identifier that the up key selects: the one before the selected one, the first one
/// where the first one is selected or the selected one is not in the list, none where
/// the list is empty.
pub open spec fn identifier_above(list: Seq<Seq<usize>>, selected: Seq<usize>) -> Seq<usize> {
    let at = position(list, selected);
    if list.len() == 0 {
        Seq::empty()
    } else if at >= list.len() || at == 0 {
        list[0]
    } else {
        list[at - 1]
    }
}

/// The identifier that the down key selects: the one after the selected one, the last one
/// where the last one is selected, the first one where the selected one is not in the
/// list, none where the list is empty.
pub open spec fn identifier_below(list: Seq<Seq<usize>>, selected: Seq<usize>) -> Seq<usize> {
    let at = position(list, selected);
    if list.len() == 0 {
        Seq::empty()
    } else if at >= list.len() {
        list[0]
    } else if at + 1 >= list.len() {
        list[list.len() - 1]
    } else {
        list[at + 1]
    }
}

impl Default for TreeState {
    /// Nothing is open, nothing is selected.
    fn default() -> (state: TreeState)
        ensures
            state.wf(),
            state@.offset == 0,
            state@.opened == Set::<Seq<usize>>::empty(),
            state@.selected == Seq::<usize>::empty(),
    {
        let state = TreeState { offset: 0, opened: Vec::new(), selected: Vec::new() };
        proof {
            assert(state@.opened =~= Set::<Seq<usize>>::empty());
        }
        state
    }
}

impl TreeState {
    /// No identifier is held twice, and the empty identifier is not held.
    pub closed spec fn wf(&self) -> bool {
        &&& forall|i: int| 0 <= i < self.opened@.len() ==> (#[trigger] self.opened@[i])@.len() > 0
        &&& forall|i: int, j: int|
            0 <= i < j < self.opened@.len() ==> (#[trigger] self.opened@[i])@ != (
            #[trigger] self.opened@[j])@
    }

    #[must_use]
    pub fn get_offset(&self) -> (offset: usize)
        ensures
            offset == self@.offset,
    {
        self.offset
    }

    /// The identifiers of the open nodes, each once, in no particular order.
    #[must_use]
    pub fn get_all_opened(&self) -> (opened: Vec<Vec<usize>>)
        requires
            self.wf(),
        ensures
            opened_set(opened@) == self@.opened,
            forall|i: int, j: int|
                0 <= i < j < opened@.len() ==> (#[trigger] opened@[i])@ != (#[trigger] opened@[j])@,
    {
        let mut opened: Vec<Vec<usize>> = Vec::new();
        let mut i: usize = 0;
        while i < self.opened.len()
            invariant
                i <= self.opened.len(),
                opened@.len() == i,
                forall|j: int| 0 <= j < i ==> (#[trigger] opened@[j])@ == self.opened@[j]@,
            decreases self.opened.len() - i,
        {
            opened.push(slice_to_vec(self.opened[i].as_slice()));
            i += 1;
        }
        proof {
            assert forall|identifier: Seq<usize>|
                opened_set(opened@).contains(identifier) == self@.opened.contains(identifier) by {
                if opened_set(opened@).contains(identifier) {
                    let j = choose|j: int| 0 <= j < opened@.len() && #[trigger] opened@[j]@ == identifier;
                    assert(self.opened@[j]@ == identifier);
                }
                if self@.opened.contains(identifier) {
                    let j = choose|j: int|
                        0 <= j < self.opened@.len() && #[trigger] self.opened@[j]@ == identifier;
                    assert(opened@[j]@ == identifier);
                }
            }
            assert(opened_set(opened@) =~= self@.opened);
        }
        opened
    }

    /// The identifier of the selected node; empty where nothing is selected.
    #[must_use]
    pub fn selected(&self) -> (selected: Vec<usize>)
        ensures
            selected@ == self@.selected,
    {
        slice_to_vec(self.selected.as_slice())
    }

    /// Selects the node with the given identifier. To select nothing, with the empty
    /// identifier, also scrolls back to the top.
    pub fn select(&mut self, identifier: Vec<usize>)
        ensures
            final(self)@.selected == identifier@,
            final(self)@.opened == old(self)@.opened,
            final(self)@.offset == (if identifier@.len() == 0 {
                0
            } else {
                old(self)@.offset
            }),
            old(self).wf() ==> final(self).wf(),
    {
        self.selected = identifier;
        if self.selected.len() == 0 {
            self.offset = 0;
        }
    }

    fn index_of(&self, identifier: &[usize]) -> (at: usize)
        requires
            self.wf(),
        ensures
            at <= self.opened@.len(),
            at < self.opened@.len() ==> self.opened@[at as int]@ == identifier@,
            at == self.opened@.len() ==> !self@.opened.contains(identifier@),
    {
        let mut i: usize = 0;
        while i < self.opened.len()
            invariant
                i <= self.opened.len(),
                forall|j: int| 0 <= j < i ==> self.opened@[j]@ != identifier@,
            decreases self.opened.len() - i,
        {
            if same_identifier(self.opened[i].as_slice(), identifier) {
                return i;
            }
            i += 1;
        }
        i
    }

    /// Shows the list of visible nodes from the one at `offset` on.
    pub fn scroll_to(&mut self, offset: usize)
        ensures
            final(self)@.offset == offset,
            final(self)@.opened == old(self)@.opened,
            final(self)@.selected == old(self)@.selected,
            old(self).wf() ==> final(self).wf(),
    {
        self.offset = offset;
    }

    /// Whether the node with the given identifier is open.
    pub fn is_open(&self, identifier: &[usize]) -> (open: bool)
        requires
            self.wf(),
        ensures
            open == self@.opened.contains(identifier@),
    {
        self.index_of(identifier) < self.opened.len()
    }

    /// Opens a node. Returns `true` if the node was closed and has been opened, `false` if
    /// it was already open. The empty identifier is never opened.
    pub fn open(&mut self, identifier: Vec<usize>) -> (opened: bool)
        requires
            old(self).wf(),
        ensures
            final(self).wf(),
            opened == (identifier@.len() > 0 && !old(self)@.opened.contains(identifier@)),
            !opened ==> final(self)@.opened == old(self)@.opened,
            final(self)@.opened == (if identifier@.len() > 0 {
                old(self)@.opened.insert(identifier@)
            } else {
                old(self)@.opened
            }),
            final(self)@.selected == old(self)@.selected,
            final(self)@.offset == old(self)@.offset,
    {
        if identifier.len() == 0 {
            return false;
        }
        let at = self.index_of(identifier.as_slice());
        if at < self.opened.len() {
            proof {
                assert(self@.opened =~= self@.opened.insert(identifier@));
            }
            return false;
        }
        let ghost before = self.opened@;
        self.opened.push(identifier);
        proof {
            assert forall|other: Seq<usize>|
                self@.opened.contains(other) == opened_set(before).insert(identifier@).contains(
                    other,
                ) by {
                if self@.opened.contains(other) {
                    let j = choose|j: int|
                        0 <= j < self.opened@.len() && #[trigger] self.opened@[j]@ == other;
                    if j < before.len() {
                        assert(before[j]@ == other);
                    }
                }
                if opened_set(before).contains(other) {
                    let j = choose|j: int| 0 <= j < before.len() && #[trigger] before[j]@ == other;
                    assert(self.opened@[j]@ == other);
                }
                if other == identifier@ {
                    assert(self.opened@[before.len() as int]@ == other);
                }
            }
            assert(self@.opened =~= opened_set(before).insert(identifier@));
        }
        true
    }

    /// Closes a node. Returns `true` if the node was open and has been closed, `false` if
    /// it was already closed.
    pub fn close(&mut self, identifier: &[usize]) -> (closed: bool)
        requires
            old(self).wf(),
        ensures
            final(self).wf(),
            closed == old(self)@.opened.contains(identifier@),
            !closed ==> final(self)@.opened == old(self)@.opened,
            final(self)@.opened == old(self)@.opened.remove(identifier@),
            final(self)@.selected == old(self)@.selected,
            final(self)@.offset == old(self)@.offset,
    {
        let at = self.index_of(identifier);
        if at >= self.opened.len() {
            proof {
                assert(self@.opened =~= self@.opened.remove(identifier@));
            }
            return false;
        }
        let ghost before = self.opened@;
        self.opened.remove(at);
        proof {
            assert(self.opened@ == before.remove(at as int));
            assert forall|other: Seq<usize>|
                self@.opened.contains(other) == opened_set(before).remove(identifier@).contains(
                    other,
                ) by {
                if self@.opened.contains(other) {
                    let j = choose|j: int|
                        0 <= j < self.opened@.len() && #[trigger] self.opened@[j]@ == other;
                    if j < at {
                        assert(before[j]@ == other);
                    } else {
                        assert(before[j + 1]@ == other);
                    }
                }
                if opened_set(before).contains(other) && other != identifier@ {
                    let j = choose|j: int| 0 <= j < before.len() && #[trigger] before[j]@ == other;
                    if j < at {
                        assert(self.opened@[j]@ == other);
                    } else {
                        assert(self.opened@[j - 1]@ == other);
                    }
                }
            }
            assert(self@.opened =~= opened_set(before).remove(identifier@));
        }
        true
    }

    /// Closes the node if it is open, opens it otherwise.
    pub fn toggle(&mut self, identifier: Vec<usize>)
        requires
            old(self).wf(),
        ensures
            final(self).wf(),
            final(self)@.opened == (if old(self)@.opened.contains(identifier@) {
                old(self)@.opened.remove(identifier@)
            } else if identifier@.len() > 0 {
                old(self)@.opened.insert(identifier@)
            } else {
                old(self)@.opened
            }),
            final(self)@.selected == old(self)@.selected,
            final(self)@.offset == old(self)@.offset,
    {
        let at = self.index_of(identifier.as_slice());
        if at < self.opened.len() {
            self.close(identifier.as_slice());
        } else {
            self.open(identifier);
        }
    }

    /// Toggles the selected node.
    pub fn toggle_selected(&mut self)
        requires
            old(self).wf(),
        ensures
            final(self).wf(),
            final(self)@.opened == (if old(self)@.opened.contains(old(self)@.selected) {
                old(self)@.opened.remove(old(self)@.selected)
            } else if old(self)@.selected.len() > 0 {
                old(self)@.opened.insert(old(self)@.selected)
            } else {
                old(self)@.opened
            }),
            final(self)@.selected == old(self)@.selected,
            final(self)@.offset == old(self)@.offset,
    {
        let selected = self.selected();
        self.toggle(selected);
    }

    /// Closes every node. The selection stays.
    pub fn close_all(&mut self)
        ensures
            final(self).wf(),
            final(self)@.opened == Set::<Seq<usize>>::empty(),
            final(self)@.selected == old(self)@.selected,
            final(self)@.offset == old(self)@.offset,
    {
        self.opened.clear();
        proof {
            assert(self@.opened =~= Set::<Seq<usize>>::empty());
        }
    }

    /// Selects the first root.
    pub fn select_first(&mut self)
        ensures
            final(self)@.selected == seq![0usize],
            final(self)@.opened == old(self)@.opened,
            final(self)@.offset == old(self)@.offset,
            old(self).wf() ==> final(self).wf(),
    {
        let mut first: Vec<usize> = Vec::new();
        first.push(0);
        proof {
            assert(first@ =~= seq![0usize]);
        }
        self.select(first);
    }

    /// Selects the last visible node; nothing where the tree is empty.
    pub fn select_last(&mut self, items: &[TreeItem])
        requires
            old(self).wf(),
        ensures
            final(self).wf(),
            final(self)@.opened == old(self)@.opened,
            ({
                let list = identifiers(visible(old(self)@.opened, items@));
                final(self)@.selected == (if list.len() == 0 {
                    Seq::empty()
                } else {
                    list.last()
                })
            }),
            final(self)@.offset == (if final(self)@.selected.len() == 0 {
                0
            } else {
                old(self)@.offset
            }),
    {
        let opened = self.get_all_opened();
        let list = flatten(opened.as_slice(), items);
        let new_identifier = if list.len() == 0 {
            Vec::new()
        } else {
            assert(entries(list@)[list.len() - 1] == list@[list.len() - 1]@);
            slice_to_vec(list[list.len() - 1].identifier().as_slice())
        };
        self.select(new_identifier);
    }

    /// Selects the node of `list` at `index`; nothing where `list` is that short.
    fn select_at(&mut self, list: &Vec<Flattened>, index: usize)
        ensures
            final(self)@.selected == (if index < list@.len() {
                identifiers(entries(list@))[index as int]
            } else {
                Seq::empty()
            }),
            final(self)@.opened == old(self)@.opened,
            final(self)@.offset == (if final(self)@.selected.len() == 0 {
                0
            } else {
                old(self)@.offset
            }),
            old(self).wf() ==> final(self).wf(),
    {
        let new_identifier = if index < list.len() {
            slice_to_vec(list[index].identifier().as_slice())
        } else {
            Vec::new()
        };
        self.select(new_identifier);
    }

    /// Handles the up arrow key: selects the visible node before the selected one.
    ///
    /// Where the selected node is the first one, it stays selected. Where it is not
    /// visible, or nothing is selected, the first visible node is selected. Where no node
    /// is visible, nothing is selected.
    pub fn key_up(&mut self, items: &[TreeItem])
        requires
            old(self).wf(),
        ensures
            final(self).wf(),
            final(self)@.opened == old(self)@.opened,
            final(self)@.selected == identifier_above(
                identifiers(visible(old(self)@.opened, items@)),
                old(self)@.selected,
            ),
            final(self)@.offset == (if final(self)@.selected.len() == 0 {
                0
            } else {
                old(self)@.offset
            }),
    {
        let opened = self.get_all_opened();
        let list = flatten(opened.as_slice(), items);
        let current_index = position_of(&list, self.selected.as_slice());
        let new_index: usize = if current_index >= list.len() || current_index == 0 {
            0
        } else {
            current_index - 1
        };
        self.select_at(&list, new_index);
    }

    /// Handles the down arrow key: selects the visible node after the selected one.
    ///
    /// Where the selected node is the last one, it stays selected. Where it is not
    /// visible, or nothing is selected, the first visible node is selected. Where no node
    /// is visible, nothing is selected.
    pub fn key_down(&mut self, items: &[TreeItem])
        requires
            old(self).wf(),
        ensures
            final(self).wf(),
            final(self)@.opened == old(self)@.opened,
            final(self)@.selected == identifier_below(
                identifiers(visible(old(self)@.opened, items@)),
                old(self)@.selected,
            ),
            final(self)@.offset == (if final(self)@.selected.len() == 0 {
                0
            } else {
                old(self)@.offset
            }),
    {
        let opened = self.get_all_opened();
        let list = flatten(opened.as_slice(), items);
        let current_index = position_of(&list, self.selected.as_slice());
        let new_index: usize = if current_index >= list.len() {
            0
        } else if current_index + 1 >= list.len() {
            list.len() - 1
        } else {
            current_index + 1
        };
        self.select_at(&list, new_index);
    }

    /// Handles the left arrow key: closes the selected node if it is open, selects its
    /// parent otherwise. The parent of a root is no node: nothing is selected then.
    pub fn key_left(&mut self)
        requires
            old(self).wf(),
        ensures
            final(self).wf(),
            final(self)@.opened == old(self)@.opened.remove(old(self)@.selected),
            final(self)@.selected == (if old(self)@.opened.contains(old(self)@.selected)
                || old(self)@.selected.len() == 0 {
                old(self)@.selected
            } else {
                old(self)@.selected.drop_last()
            }),
            final(self)@.offset == (if final(self)@.selected.len() == 0
                && !old(self)@.opened.contains(old(self)@.selected) {
                0
            } else {
                old(self)@.offset
            }),
    {
        let selected = self.selected();
        if !self.close(selected.as_slice()) {
            let (head, _) = get_without_leaf(selected.as_slice());
            proof {
                if selected@.len() == 0 {
                    assert(head@ =~= selected@);
                }
            }
            self.select(head);
        }
    }

    /// Handles the right arrow key: opens the selected node.
    pub fn key_right(&mut self)
        requires
            old(self).wf(),
        ensures
            final(self).wf(),
            final(self)@.opened == (if old(self)@.selected.len() > 0 {
                old(self)@.opened.insert(old(self)@.selected)
            } else {
                old(self)@.opened
            }),
            final(self)@.selected == old(self)@.selected,
            final(self)@.offset == old(self)@.offset,
    {
        let selected = self.selected();
        self.open(selected);
    }
}

/// The empty identifier is never among the open ones, whatever was done to the state.
pub proof fn lemma_root_is_never_open(state: TreeState)
    requires
        state.wf(),
    ensures
        !state@.opened.contains(Seq::empty()),
{
    if state@.opened.contains(Seq::empty()) {
        let i = choose|i: int|
            0 <= i < state.opened@.len() && #[trigger] state.opened@[i]@ == Seq::<usize>::empty();
        assert(state.opened@[i]@.len() > 0);
    }
}

/// The position of an identifier is an index of the list, or the length of the list.
pub proof fn lemma_position_in_range(list: Seq<Seq<usize>>, identifier: Seq<usize>)
    ensures
        0 <= position(list, identifier) <= list.len(),
        position(list, identifier) < list.len() ==> list[position(list, identifier)] == identifier,
    decreases list.len(),
{
    if list.len() > 0 && list[0] != identifier {
        lemma_position_in_range(list.drop_first(), identifier);
    }
}

/// The arrow keys never select anything but a visible node: what they select is in the
/// list of visible nodes, whatever was selected before; where nothing is visible, they
/// select nothing.
pub proof fn lemma_moves_stay_in_list(list: Seq<Seq<usize>>, selected: Seq<usize>)
    ensures
        list.len() > 0 ==> list.contains(identifier_above(list, selected)) && list.contains(
            identifier_below(list, selected),
        ),
        list.len() == 0 ==> identifier_above(list, selected).len() == 0 && identifier_below(
            list,
            selected,
        ).len() == 0,
{
    lemma_position_in_range(list, selected);
    if list.len() > 0 {
        let at = position(list, selected);
        assert(list[0] == list[0]);
        if 0 < at < list.len() {
            assert(list[at - 1] == identifier_above(list, selected));
        }
        if at + 1 < list.len() {
            assert(list[at + 1] == identifier_below(list, selected));
        } else {
            assert(list[list.len() - 1] == list.last());
        }
    }
}

/// The up key leaves the first visible node selected, however often it is pressed.
pub proof fn lemma_up_stays_on_first(list: Seq<Seq<usize>>)
    requires
        list.len() > 0,
    ensures
        identifier_above(list, list[0]) == list[0],
{
}

} // verus!
