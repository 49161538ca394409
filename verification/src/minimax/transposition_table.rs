use crate::minimax::game_state::GameLaws;
use std::collections::HashMap;
use vstd::prelude::*;

verus! {

/// One side of what is known of a state's value: the value is at least (or at
/// most) `bound`, as a search of `depth` remaining plies found.
#[derive(Clone, Copy, Debug)]
pub struct Bound {
    pub bound: i32,
    pub depth: u32,
}

/// What is known of a state's value: a bound from below and a bound from
/// above.
#[derive(Clone, Copy, Debug)]
pub struct TranspositionTableElement {
    pub lower_bound: Bound,
    pub upper_bound: Bound,
}

impl TranspositionTableElement {
    /// The element that knows nothing: both bounds are as wide as the score's
    /// type and come from no search at all.
    pub open spec fn unknown() -> TranspositionTableElement {
        TranspositionTableElement {
            lower_bound: Bound { bound: i32::MIN, depth: 0 },
            upper_bound: Bound { bound: i32::MAX, depth: 0 },
        }
    }

    /// The element with which a state enters the table.
    pub fn default() -> (element: Self)
        ensures
            element == Self::unknown(),
    {
        TranspositionTableElement {
            lower_bound: Bound { bound: i32::MIN, depth: 0 },
            upper_bound: Bound { bound: i32::MAX, depth: 0 },
        }
    }
}

/// A state with what the table knows of it.
#[derive(Clone, Debug)]
pub struct TableSlot<T> {
    pub state: T,
    pub element: TranspositionTableElement,
}

/// The place of `state` among `slots`, if it is there.
pub open spec fn slot_of<T>(slots: Seq<TableSlot<T>>, state: T) -> int {
    choose|i: int| 0 <= i < slots.len() && slots[i].state == state
}

/// `state` is among `slots`.
pub open spec fn has_slot<T>(slots: Seq<TableSlot<T>>, state: T) -> bool {
    exists|i: int| 0 <= i < slots.len() && #[trigger] slots[i].state == state
}

/// No state is twice among `slots`, and all of them are filed under `code`.
pub open spec fn slots_wf<T: GameLaws>(slots: Seq<TableSlot<T>>, code: u64) -> bool {
    &&& forall|i: int| 0 <= i < slots.len() ==> (#[trigger] slots[i]).state.spec_hash_code() == code
    &&& forall|i: int, j: int|
        0 <= i < slots.len() && 0 <= j < slots.len() && i != j ==> (#[trigger] slots[i]).state != (
        #[trigger] slots[j]).state
}

/// What the buckets `data` hold, as a map from states to elements.
pub open spec fn table_view<T: GameLaws>(data: Map<u64, Vec<TableSlot<T>>>) -> Map<
    T,
    TranspositionTableElement,
> {
    Map::new(
        |state: T|
            data.contains_key(state.spec_hash_code()) && has_slot(
                data[state.spec_hash_code()]@,
                state,
            ),
        |state: T|
            {
                let slots = data[state.spec_hash_code()]@;
                slots[slot_of(slots, state)].element
            },
    )
}

/// Every bucket of `data` holds the states of its code, each once.
pub open spec fn table_wf<T: GameLaws>(data: Map<u64, Vec<TableSlot<T>>>) -> bool {
    forall|code: u64| #[trigger] data.contains_key(code) ==> slots_wf(data[code]@, code)
}

/// A map from states to what is known of their values, kept for the states
/// near the root of a search.
///
/// The states are filed in buckets by the code that they give of themselves;
/// within a bucket a state is found by comparing.
#[derive(Clone)]
pub struct TranspositionTable<T: GameLaws> {
    pub data: HashMap<u64, Vec<TableSlot<T>>>,
    pub max_depth: u32,
}

impl<T: GameLaws> View for TranspositionTable<T> {
    type V = Map<T, TranspositionTableElement>;

    open spec fn view(&self) -> Map<T, TranspositionTableElement> {
        table_view(self.data@)
    }
}

impl<T: GameLaws> TranspositionTable<T> {
    /// Every bucket holds the states of its code, each once.
    pub open spec fn wf(&self) -> bool {
        table_wf(self.data@)
    }

    /// An empty table for the states at most `max_depth` plies from the root.
    pub fn new(max_depth: u32) -> (table: TranspositionTable<T>)
        ensures
            table.wf(),
            table@ == Map::<T, TranspositionTableElement>::empty(),
            table.max_depth == max_depth,
    {
        let table = TranspositionTable::<T> { data: HashMap::new(), max_depth };
        assert(table@ =~= Map::<T, TranspositionTableElement>::empty());
        table
    }

    /// An empty table with room for `capacity` buckets.
    pub fn with_capacity(capacity: usize, max_depth: u32) -> (table: TranspositionTable<T>)
        ensures
            table.wf(),
            table@ == Map::<T, TranspositionTableElement>::empty(),
            table.max_depth == max_depth,
    {
        let table = TranspositionTable::<T> { data: HashMap::with_capacity(capacity), max_depth };
        assert(table@ =~= Map::<T, TranspositionTableElement>::empty());
        table
    }

    /// What the table knows of `game_state`, if anything.
    pub fn lookup(&self, game_state: &T) -> (found: Option<&TranspositionTableElement>)
        requires
            self.wf(),
        ensures
            match found {
                Some(element) => self@.contains_key(*game_state) && *element == self@[*game_state],
                None => !self@.contains_key(*game_state),
            },
    {
        let code = game_state.hash_code();
        match self.data.get(&code) {
            Some(bucket) => {
                let mut i: usize = 0;
                while i < bucket.len()
                    invariant
                        i <= bucket@.len(),
                        self.data@.contains_key(code),
                        self.data@[code] == *bucket,
                        slots_wf(bucket@, code),
                        code == game_state.spec_hash_code(),
                        forall|j: int| 0 <= j < i ==> (#[trigger] bucket@[j]).state != *game_state,
                    decreases bucket@.len() - i,
                {
                    if bucket[i].state.same_state(game_state) {
                        proof {
                            lemma_slot_of(bucket@, code, i as int);
                        }
                        return Some(&bucket[i].element);
                    }
                    i += 1;
                }
                assert(!has_slot(bucket@, *game_state));
                None
            },
            None => None,
        }
    }

    /// What the table knows of `state`; nothing, if it does not hold it.
    pub open spec fn known(&self, state: T) -> TranspositionTableElement {
        if self@.contains_key(state) {
            self@[state]
        } else {
            TranspositionTableElement::unknown()
        }
    }

    /// The element of `game_state`, to read or to change; a state that the
    /// table did not hold enters it with the element that knows nothing.
    pub fn get(&mut self, game_state: &T) -> (element: &mut TranspositionTableElement)
        requires
            old(self).wf(),
        ensures
            *element == old(self).known(*game_state),
            final(self).wf(),
            final(self)@ == old(self)@.insert(*game_state, *final(element)),
            final(self).max_depth == old(self).max_depth,
    {
        let code = game_state.hash_code();
        let ghost before = self.data@;
        let bucket = self.data.entry(code).or_insert(Vec::new());
        let ghost slots = bucket@;
        let mut i: usize = 0;
        while i < bucket.len()
            invariant
                i <= bucket@.len(),
                bucket@ == slots,
                forall|j: int| 0 <= j < i ==> (#[trigger] slots[j]).state != *game_state,
            ensures
                i <= bucket@.len(),
                bucket@ == slots,
                i < slots.len() ==> slots[i as int].state == *game_state,
                i == slots.len() ==> !has_slot(slots, *game_state),
            decreases bucket@.len() - i,
        {
            if bucket[i].state.same_state(game_state) {
                break;
            }
            i += 1;
        }
        if i == bucket.len() {
            bucket.push(TableSlot { state: *game_state, element: TranspositionTableElement::default() });
        }
        let ghost filled = bucket@;
        proof {
            if before.contains_key(code) {
                assert(slots_wf(before[code]@, code));
                assert(slots == before[code]@);
                if i < slots.len() {
                    lemma_slot_of(slots, code, i as int);
                }
            } else {
                assert(slots.len() == 0);
            }
            assert forall|last: Vec<TableSlot<T>>|
                last@.len() == filled.len() && last@[i as int].state == *game_state && (forall|
                    j: int,
                |
                    0 <= j < filled.len() && j != i ==> #[trigger] last@[j] == filled[j]) implies {
                    &&& table_wf(#[trigger] before.insert(code, last))
                    &&& table_view(before.insert(code, last)) == table_view(before).insert(
                        *game_state,
                        last@[i as int].element,
                    )
                } by {
                lemma_put(before, code, slots, last, i as int, *game_state);
            }
        }
        let slot = &mut bucket[i];
        let element = &mut slot.element;
        element
    }
}

/// Filing a state in its bucket, or changing its element there, changes the
/// map at that state alone.
pub proof fn lemma_put<T: GameLaws>(
    before: Map<u64, Vec<TableSlot<T>>>,
    code: u64,
    slots: Seq<TableSlot<T>>,
    bucket: Vec<TableSlot<T>>,
    i: int,
    state: T,
)
    requires
        table_wf(before),
        code == state.spec_hash_code(),
        before.contains_key(code) ==> slots == before[code]@,
        !before.contains_key(code) ==> slots.len() == 0,
        0 <= i <= slots.len(),
        i < slots.len() ==> slots[i].state == state,
        i == slots.len() ==> !has_slot(slots, state),
        bucket@.len() == (if i < slots.len() {
            slots.len()
        } else {
            slots.len() + 1
        }),
        bucket@[i].state == state,
        forall|j: int| 0 <= j < slots.len() && j != i ==> #[trigger] bucket@[j] == slots[j],
    ensures
        table_wf(before.insert(code, bucket)),
        table_view(before.insert(code, bucket)) == table_view(before).insert(
            state,
            bucket@[i].element,
        ),
{
    let after = before.insert(code, bucket);
    let last = bucket@;
    if before.contains_key(code) {
        assert(slots_wf(before[code]@, code));
    }
    assert(slots_wf(last, code)) by {
        assert forall|a: int, b: int| 0 <= a < last.len() && 0 <= b < last.len() && a != b implies (
        #[trigger] last[a]).state != (#[trigger] last[b]).state by {
            if a == i {
                if last[b].state == state {
                    assert(slots[b].state == state);
                }
            } else if b == i {
                if last[a].state == state {
                    assert(slots[a].state == state);
                }
            } else {
                assert(slots[a].state != slots[b].state);
            }
        }
        assert forall|a: int| 0 <= a < last.len() implies (#[trigger] last[a]).state.spec_hash_code()
            == code by {
            if a != i {
                assert(slots[a].state.spec_hash_code() == code);
            }
        }
    }
    assert forall|other: u64| #[trigger] after.contains_key(other) implies slots_wf(
        after[other]@,
        other,
    ) by {
        if other != code {
            assert(before.contains_key(other));
        }
    }
    lemma_slot_of(last, code, i);
    let goal = table_view(before).insert(state, bucket@[i].element);
    assert forall|other: T| table_view(after).contains_key(other) <==> #[trigger] goal.contains_key(
        other,
    ) by {
        if other.spec_hash_code() == code && other != state {
            if has_slot(last, other) {
                let j = choose|j: int| 0 <= j < last.len() && #[trigger] last[j].state == other;
                assert(slots[j].state == other);
            }
            if before.contains_key(code) && has_slot(slots, other) {
                let j = choose|j: int| 0 <= j < slots.len() && #[trigger] slots[j].state == other;
                assert(last[j].state == other);
            }
        }
    }
    assert forall|other: T| #[trigger] table_view(after).contains_key(other) implies table_view(
        after,
    )[other] == goal[other] by {
        if other.spec_hash_code() == code && other != state {
            let j = choose|j: int| 0 <= j < last.len() && #[trigger] last[j].state == other;
            assert(slots[j].state == other);
            lemma_slot_of(last, code, j);
            lemma_slot_of(slots, code, j);
        }
    }
    assert(table_view(after) =~= goal);
}

/// Within a bucket a state has one place.
pub proof fn lemma_slot_of<T: GameLaws>(slots: Seq<TableSlot<T>>, code: u64, i: int)
    requires
        slots_wf(slots, code),
        0 <= i < slots.len(),
    ensures
        has_slot(slots, slots[i].state),
        slot_of(slots, slots[i].state) == i,
{
    let j = slot_of(slots, slots[i].state);
    assert(0 <= j < slots.len() && slots[j].state == slots[i].state);
}

} // verus!
