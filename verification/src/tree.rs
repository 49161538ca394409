use vstd::prelude::*;

verus! {

/// The number of nodes that a tree has room for.
pub const MAX_TREE_SIZE: usize = 50;

/// A node with room for `N` children, each named by its place in the tree.
#[derive(Debug, Clone, Copy)]
pub struct Node<const N: usize> {
    pub evaluation: i32,
    pub children: [Option<usize>; N],
}

/// A tree of nodes with `N` children each, kept in one block of
/// `MAX_TREE_SIZE` nodes; `head` counts the places that have been given out.
pub struct Tree<const N: usize> {
    pub data: [Node<N>; 50],
    pub head: usize,
}

impl<const N: usize> Tree<N> {
    /// A tree whose nodes have no children, with no place given out.
    pub fn new() -> (tree: Tree<N>)
        ensures
            tree.head == 0,
            forall|i: int, j: int|
                0 <= i < MAX_TREE_SIZE && 0 <= j < N ==> (#[trigger] tree.data@[i].children@[j])
                    is None,
            forall|i: int| 0 <= i < MAX_TREE_SIZE ==> (#[trigger] tree.data@[i]).evaluation == 0,
    {
        Tree { data: [Node { evaluation: 0, children: [None;N] };50], head: 0 }
    }

    /// Gives out the next place, for a root. The count of places starts again
    /// at zero when it has run through all numbers.
    pub fn create_root(&mut self) -> (place: usize)
        ensures
            place == old(self).head,
            final(self).head == (if old(self).head == usize::MAX {
                0
            } else {
                old(self).head + 1
            }),
            final(self).data == old(self).data,
    {
        self.reserve()
    }

    /// The place of the `child_index`-th child of the node at `index`, if
    /// there is such a node and it has such a child.
    pub fn get_child(&self, index: Option<usize>, child_index: usize) -> (child: Option<usize>)
        requires
            index matches Some(place) ==> place < MAX_TREE_SIZE,
            index is Some ==> child_index < N,
        ensures
            child == (match index {
                Some(place) => self.data@[place as int].children@[child_index as int],
                None => None,
            }),
    {
        match index {
            Some(x) => self.data[x].children[child_index],
            None => None,
        }
    }

    /// Gives out the next place.
    fn reserve(&mut self) -> (place: usize)
        ensures
            place == old(self).head,
            final(self).head == (if old(self).head == usize::MAX {
                0
            } else {
                old(self).head + 1
            }),
            final(self).data == old(self).data,
    {
        let place = self.head;
        if self.head == usize::MAX {
            self.head = 0;
        } else {
            self.head += 1;
        }
        place
    }

    /// Gives out the next place to the `child_index`-th child of `parent`.
    pub fn add(&mut self, parent: &mut Node<N>, child_index: usize)
        requires
            child_index < N,
        ensures
            final(parent).children@ == old(parent).children@.update(
                child_index as int,
                Some(old(self).head),
            ),
            final(parent).evaluation == old(parent).evaluation,
            final(self).head == (if old(self).head == usize::MAX {
                0
            } else {
                old(self).head + 1
            }),
            final(self).data == old(self).data,
    {
        let memory_index = self.reserve();
        parent.children[child_index] = Some(memory_index);
    }

    /// The node at `index`, to read or to change.
    pub fn get(&mut self, index: usize) -> (node: &mut Node<N>)
        requires
            index < MAX_TREE_SIZE,
        ensures
            *node == old(self).data@[index as int],
            final(self).data@ == old(self).data@.update(index as int, *final(node)),
            final(self).head == old(self).head,
    {
        &mut self.data[index]
    }
}

} // verus!
