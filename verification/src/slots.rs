use vstd::prelude::*;

verus! {

/// The contents of a [`Slots`]: its entries by index, and the vacant indices in
/// the order in which they were vacated.
#[verifier::ext_equal]
pub struct SlotsView<T> {
    pub entries: Seq<Option<T>>,
    pub free: Seq<usize>,
}

impl<T> SlotsView<T> {
    pub open spec fn empty() -> Self {
        SlotsView { entries: Seq::empty(), free: Seq::empty() }
    }

    /// Something is kept under index `i`.
    pub open spec fn live(self, i: int) -> bool {
        0 <= i < self.entries.len() && self.entries[i] is Some
    }

    /// What is kept under index `i`.
    pub open spec fn at(self, i: int) -> T
        recommends
            self.live(i),
    {
        self.entries[i]->0
    }

    /// The number of things kept.
    pub open spec fn count(self) -> int {
        self.entries.len() - self.free.len()
    }

    /// The index that the next value gets: the one vacated last, or the one just
    /// past the end where no index is vacant.
    pub open spec fn next(self) -> int {
        if self.free.len() == 0 {
            self.entries.len() as int
        } else {
            self.free.last() as int
        }
    }

    pub open spec fn insert(self, value: T) -> Self {
        if self.free.len() == 0 {
            SlotsView { entries: self.entries.push(Some(value)), free: self.free }
        } else {
            SlotsView {
                entries: self.entries.update(self.next(), Some(value)),
                free: self.free.drop_last(),
            }
        }
    }

    pub open spec fn set(self, i: int, value: T) -> Self {
        SlotsView { entries: self.entries.update(i, Some(value)), free: self.free }
    }

    pub open spec fn remove(self, i: int) -> Self {
        SlotsView { entries: self.entries.update(i, None), free: self.free.push(i as usize) }
    }

    /// The vacant indices are exactly the indices without a value, each listed once.
    pub open spec fn wf(self) -> bool {
        &&& self.entries.len() <= usize::MAX
        &&& self.free.no_duplicates()
        &&& forall|k: int|
            0 <= k < self.free.len() ==> (#[trigger] self.free[k]) < self.entries.len()
                && self.entries[self.free[k] as int] is None
        &&& forall|i: int|
            0 <= i < self.entries.len() && (#[trigger] self.entries[i]) is None
                ==> self.free.contains(i as usize)
    }
}

/// Keeping one more value leaves the table well formed.
pub(crate) proof fn lemma_insert_wf<T>(slots: SlotsView<T>, value: T)
    requires
        slots.wf(),
        slots.insert(value).entries.len() <= usize::MAX,
    ensures
        slots.insert(value).wf(),
{
    let after = slots.insert(value);
    assert forall|i: int|
        0 <= i < after.entries.len() && (#[trigger] after.entries[i]) is None implies after.free.contains(
        i as usize,
    ) by {
        assert(slots.entries[i] is None);
        let k = choose|k: int| 0 <= k < slots.free.len() && slots.free[k] == i as usize;
        if slots.free.len() > 0 {
            assert(k != slots.free.len() - 1);
            assert(after.free[k] == i as usize);
        }
    }
}

/// Giving up a used index leaves the table well formed.
pub(crate) proof fn lemma_remove_wf<T>(slots: SlotsView<T>, i: int)
    requires
        slots.wf(),
        slots.live(i),
    ensures
        slots.remove(i).wf(),
{
    let after = slots.remove(i);
    assert forall|j: int|
        0 <= j < after.entries.len() && (#[trigger] after.entries[j]) is None implies after.free.contains(
        j as usize,
    ) by {
        if j == i {
            assert(after.free[slots.free.len() as int] == j as usize);
        } else {
            assert(slots.entries[j] is None);
            let k = choose|k: int| 0 <= k < slots.free.len() && slots.free[k] == j as usize;
            assert(after.free[k] == j as usize);
        }
    }
}

/// The used indices of a well-formed table are as many as its count says.
pub proof fn law_count_is_number_of_live<T>(slots: SlotsView<T>)
    requires
        slots.wf(),
    ensures
        Set::new(|i: int| slots.live(i)).finite(),
        Set::new(|i: int| slots.live(i)).len() == slots.count(),
{
    let used = Set::new(|i: int| slots.live(i));
    let vacant = slots.free.map_values(|i: usize| i as int);
    let all = vstd::set_lib::set_int_range(0, slots.entries.len() as int);
    vstd::set_lib::lemma_int_range(0, slots.entries.len() as int);
    assert(vacant.no_duplicates());
    vacant.unique_seq_to_set();
    assert forall|i: int| #[trigger] all.difference(vacant.to_set()).contains(i) == used.contains(i) by {
        if all.contains(i) && slots.entries[i] is None {
            let k = choose|k: int| 0 <= k < slots.free.len() && slots.free[k] == i as usize;
            assert(vacant[k] == i);
        }
        if vacant.contains(i) {
            let k = choose|k: int| 0 <= k < vacant.len() && vacant[k] == i;
            assert(slots.entries[slots.free[k] as int] is None);
        }
    }
    assert(all.difference(vacant.to_set()) =~= used);
    assert forall|i: int| #[trigger] vacant.to_set().contains(i) implies all.contains(i) by {
        let k = choose|k: int| 0 <= k < vacant.len() && vacant[k] == i;
        assert(slots.free[k] < slots.entries.len());
    }
    assert(all.intersect(vacant.to_set()) =~= vacant.to_set());
    vstd::set_lib::lemma_set_intersect_union_lens(all, vacant.to_set());
    vstd::set_lib::lemma_set_difference_len(all, vacant.to_set());
}

/// Giving up an index undoes its reuse.
pub proof fn law_remove_undoes_reuse<T>(slots: SlotsView<T>, value: T)
    requires
        slots.wf(),
        slots.free.len() > 0,
    ensures
        slots.insert(value).remove(slots.next()) == slots,
{
    assert(slots.entries[slots.free.last() as int] is None);
    assert(slots.insert(value).remove(slots.next()) =~= slots);
}

/// A value is kept under an index that was vacant, and is found there; what is kept under other
/// indices stays. There is one value more.
pub proof fn law_kept_value_is_found<T>(slots: SlotsView<T>, value: T, i: int)
    requires
        slots.wf(),
    ensures
        ({
            let after = slots.insert(value);
            &&& !slots.live(slots.next())
            &&& after.live(slots.next())
            &&& after.at(slots.next()) == value
            &&& i != slots.next() ==> (after.live(i) <==> slots.live(i)) && (slots.live(i)
                ==> after.at(i) == slots.at(i))
            &&& after.count() == slots.count() + 1
        }),
{
}

/// An index that is given up is vacant, and is the next to be used; what is kept under other
/// indices stays. There is one value less.
pub proof fn law_given_up_index_is_vacant<T>(slots: SlotsView<T>, index: int, i: int)
    requires
        slots.wf(),
        slots.live(index),
    ensures
        ({
            let after = slots.remove(index);
            &&& !after.live(index)
            &&& after.next() == index
            &&& i != index ==> (after.live(i) <==> slots.live(i)) && (slots.live(i) ==> after.at(i)
                == slots.at(i))
            &&& after.count() == slots.count() - 1
        }),
{
}

/// Reuse of an index that was given up changes the value that is kept under it, and nothing
/// else.
pub proof fn law_reuse_changes_one_value<T>(slots: SlotsView<T>, index: int, value: T, i: int)
    requires
        slots.wf(),
        slots.live(index),
    ensures
        slots.remove(index).insert(value) == slots.set(index, value),
        slots.set(index, value).live(i) <==> slots.live(i),
        slots.set(index, value).at(index) == value,
        i != index && slots.live(i) ==> slots.set(index, value).at(i) == slots.at(i),
        slots.set(index, value).next() == slots.next(),
{
    assert(slots.remove(index).insert(value) =~= slots.set(index, value));
}

/// A table in which every index is used grows by one index, past those that it has.
pub proof fn law_full_table_grows_by_one<T>(slots: SlotsView<T>, value: T)
    requires
        slots.wf(),
        forall|i: int| 0 <= i < slots.entries.len() ==> #[trigger] slots.live(i),
    ensures
        slots.next() == slots.entries.len(),
        slots.insert(value).entries.len() == slots.entries.len() + 1,
        slots.count() == slots.entries.len(),
{
    if slots.free.len() > 0 {
        assert(slots.live(slots.free[0] as int));
    }
}

/// One use of a table.
pub enum SlotsOp<T> {
    Insert(T),
    Remove(int),
}

/// The table that a series of uses makes out of an empty one.
pub open spec fn slots_after<T>(ops: Seq<SlotsOp<T>>) -> SlotsView<T>
    decreases ops.len(),
{
    if ops.len() == 0 {
        SlotsView::empty()
    } else {
        let before = slots_after(ops.drop_last());
        match ops.last() {
            SlotsOp::Insert(value) => before.insert(value),
            SlotsOp::Remove(i) => before.remove(i),
        }
    }
}

/// Every index given up in the series was in use then, and every value found an index.
pub open spec fn slots_ops_valid<T>(ops: Seq<SlotsOp<T>>) -> bool
    decreases ops.len(),
{
    ops.len() == 0 || {
        &&& slots_ops_valid(ops.drop_last())
        &&& match ops.last() {
            SlotsOp::Insert(value) => slots_after(ops).entries.len() <= usize::MAX,
            SlotsOp::Remove(i) => slots_after(ops.drop_last()).live(i),
        }
    }
}

/// The most values that were kept at once in the course of a series.
pub open spec fn slots_peak<T>(ops: Seq<SlotsOp<T>>) -> int
    decreases ops.len(),
{
    if ops.len() == 0 {
        0
    } else {
        let before = slots_peak(ops.drop_last());
        let now = slots_after(ops).count();
        if before < now {
            now
        } else {
            before
        }
    }
}

/// However a table is used, it never has more entries than values were ever kept in
/// it at once.
pub proof fn law_table_grows_to_peak<T>(ops: Seq<SlotsOp<T>>)
    requires
        slots_ops_valid(ops),
    ensures
        slots_after(ops).wf(),
        slots_after(ops).entries.len() == slots_peak(ops),
    decreases ops.len(),
{
    if ops.len() > 0 {
        let before = slots_after(ops.drop_last());
        law_table_grows_to_peak(ops.drop_last());
        law_count_is_number_of_live(before);
        match ops.last() {
            SlotsOp::Insert(value) => {
                lemma_insert_wf(before, value);
            },
            SlotsOp::Remove(i) => {
                lemma_remove_wf(before, i);
            },
        }
    }
}

/// A table of values under stable indices. A vacated index is handed out again
/// before the table grows.
pub struct Slots<T> {
    entries: Vec<Option<T>>,
    free: Vec<usize>,
}

impl<T> Slots<T> {
    pub closed spec fn view(&self) -> SlotsView<T> {
        SlotsView { entries: self.entries@, free: self.free@ }
    }

    pub fn new() -> (slots: Self)
        ensures
            slots@ == SlotsView::<T>::empty(),
            slots@.wf(),
    {
        Slots { entries: Vec::new(), free: Vec::new() }
    }

    /// The index that the next value gets.
    pub fn next(&self) -> (i: usize)
        ensures
            i == self@.next(),
    {
        let n: usize = self.free.len();
        if n == 0 {
            self.entries.len()
        } else {
            self.free[n - 1]
        }
    }

    /// Keeps `value` and returns its index.
    pub fn insert(&mut self, value: T) -> (i: usize)
        requires
            old(self)@.wf(),
        ensures
            i == old(self)@.next(),
            !old(self)@.live(i as int),
            final(self)@ == old(self)@.insert(value),
            final(self)@.wf(),
    {
        let len: usize = self.entries.len();
        let i: usize = self.free.pop().unwrap_or(len);
        if i == len {
            self.entries.push(Some(value));
        } else {
            self.entries.set(i, Some(value));
        }
        proof {
            assert(self@.entries.len() == self.entries.len());
            lemma_insert_wf(old(self)@, value);
        }
        i
    }

    /// Gives up index `i` and hands out what was kept there.
    pub fn remove(&mut self, i: usize) -> (value: T)
        requires
            old(self)@.wf(),
            old(self)@.live(i as int),
        ensures
            value == old(self)@.at(i as int),
            final(self)@ == old(self)@.remove(i as int),
            final(self)@.wf(),
    {
        let value = self.entries[i].take().unwrap();
        self.free.push(i);
        proof {
            lemma_remove_wf(old(self)@, i as int);
        }
        value
    }

    pub fn is_live(&self, i: usize) -> (b: bool)
        ensures
            b == self@.live(i as int),
    {
        i < self.entries.len() && self.entries[i].is_some()
    }

    pub fn get(&self, i: usize) -> (value: &T)
        requires
            self@.live(i as int),
        ensures
            *value == self@.at(i as int),
    {
        self.entries[i].as_ref().unwrap()
    }

    pub fn get_mut(&mut self, i: usize) -> (value: &mut T)
        requires
            old(self)@.wf(),
            old(self)@.live(i as int),
        ensures
            *value == old(self)@.at(i as int),
            final(self)@ == old(self)@.set(i as int, *final(value)),
            final(self)@.wf(),
    {
        self.entries[i].as_mut().unwrap()
    }

    /// The number of values kept.
    pub fn count(&self) -> (n: usize)
        requires
            self@.wf(),
        ensures
            n == self@.count(),
    {
        proof {
            law_count_is_number_of_live(self@);
        }
        self.entries.len() - self.free.len()
    }
}

} // verus!
