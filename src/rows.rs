use vstd::prelude::*;

verus! {

/// Why a finished row could not be taken, or the image could not be closed.
#[derive(Copy, Clone, Debug, PartialEq, Eq, Structural)]
pub enum RowError {
    /// The row index is not below the image height.
    OutOfRange,
    /// A row with this index was already taken.
    Duplicate,
    /// Some row never arrived.
    Missing,
}

/// Every slot holds a row.
pub open spec fn all_present<T>(slots: Seq<Option<T>>) -> bool {
    forall|k: int| 0 <= k < slots.len() ==> (#[trigger] slots[k]) is Some
}

/// The rows held by the slots, in slot order.
pub open spec fn present_rows<T>(slots: Seq<Option<T>>) -> Seq<T> {
    slots.map_values(|o: Option<T>| o->0)
}

/// Gathers rows that finish in any order into their places, top to bottom.
pub struct RowCollector<T> {
    slots: Vec<Option<T>>,
}

impl<T> View for RowCollector<T> {
    type V = Seq<Option<T>>;

    closed spec fn view(&self) -> Seq<Option<T>> {
        self.slots@
    }
}

impl<T> RowCollector<T> {
    /// An empty collector for an image `height` rows tall.
    pub fn new(height: usize) -> (r: Self)
        ensures
            r@ == Seq::new(height as nat, |k: int| None::<T>),
    {
        let mut slots: Vec<Option<T>> = Vec::new();
        let mut k: usize = 0;
        while k < height
            invariant
                k <= height,
                slots@ == Seq::new(k as nat, |j: int| None::<T>),
            decreases height - k,
        {
            slots.push(None);
            k = k + 1;
            assert(slots@ =~= Seq::new(k as nat, |j: int| None::<T>));
        }
        RowCollector { slots }
    }

    /// The number of rows of the image.
    pub fn height(&self) -> (r: usize)
        ensures
            r == self@.len(),
    {
        self.slots.len()
    }

    /// Takes the finished row `index`.
    pub fn accept(&mut self, index: usize, data: T) -> (r: Result<(), RowError>)
        ensures
            index >= old(self)@.len() ==> r == Err::<(), RowError>(RowError::OutOfRange)
                && final(self)@ == old(self)@,
            index < old(self)@.len() && old(self)@[index as int] is Some ==> r == Err::<
                (),
                RowError,
            >(RowError::Duplicate) && final(self)@ == old(self)@,
            index < old(self)@.len() && old(self)@[index as int] is None ==> r is Ok
                && final(self)@ == old(self)@.update(index as int, Some(data)),
    {
        if index >= self.slots.len() {
            return Err(RowError::OutOfRange);
        }
        if self.slots[index].is_some() {
            return Err(RowError::Duplicate);
        }
        self.slots[index] = Some(data);
        Ok(())
    }

    /// Whether every row has arrived.
    pub fn is_complete(&self) -> (r: bool)
        ensures
            r == all_present(self@),
    {
        let mut k: usize = 0;
        while k < self.slots.len()
            invariant
                k <= self.slots@.len(),
                forall|j: int| 0 <= j < k ==> (#[trigger] self.slots@[j]) is Some,
            decreases self.slots@.len() - k,
        {
            if self.slots[k].is_none() {
                return false;
            }
            k = k + 1;
        }
        true
    }

    /// The rows from top to bottom, once all have arrived.
    pub fn into_rows(self) -> (r: Result<Vec<T>, RowError>)
        ensures
            (r is Ok) <==> all_present(self@),
            r is Err ==> r == Err::<Vec<T>, RowError>(RowError::Missing),
            r matches Ok(v) ==> v@ == present_rows(self@),
    {
        unwrap_all(self.slots)
    }
}

/// The contents of every slot, or `Missing` where one is empty.
fn unwrap_all<T>(cells: Vec<Option<T>>) -> (r: Result<Vec<T>, RowError>)
    ensures
        (r is Ok) <==> all_present(cells@),
        r is Err ==> r == Err::<Vec<T>, RowError>(RowError::Missing),
        r matches Ok(v) ==> v@ == present_rows(cells@),
{
    let ghost orig = cells@;
    let mut slots = cells;
    let mut out: Vec<T> = Vec::new();
    let mut k: usize = 0;
    while k < slots.len()
        invariant
            k <= slots@.len(),
            orig == cells@,
            slots@.len() == orig.len(),
            forall|j: int| k <= j < orig.len() ==> slots@[j] == orig[j],
            forall|j: int| 0 <= j < k ==> (#[trigger] orig[j]) is Some,
            out@ =~= present_rows(orig).subrange(0, k as int),
        decreases slots@.len() - k,
    {
        let taken = slots[k].take();
        match taken {
            Some(row) => {
                out.push(row);
            },
            None => {
                assert(orig[k as int] is None);
                return Err(RowError::Missing);
            },
        }
        k = k + 1;
    }
    assert(out@ =~= present_rows(orig));
    Ok(out)
}

/// Every part's index is below `height`, no two parts share an index, and
/// every index below `height` comes with some part.
pub open spec fn spans_rows<T>(parts: Seq<(usize, T)>, height: nat) -> bool {
    &&& forall|i: int| 0 <= i < parts.len() ==> (#[trigger] parts[i]).0 < height
    &&& forall|i: int, j: int|
        0 <= i < j < parts.len() ==> (#[trigger] parts[i]).0 != (#[trigger] parts[j]).0
    &&& forall|k: int| 0 <= k < height ==> #[trigger] has_index(parts, k)
}

/// Some part comes with row index `k`.
pub open spec fn has_index<T>(parts: Seq<(usize, T)>, k: int) -> bool {
    exists|i: int| 0 <= i < parts.len() && (#[trigger] parts[i]).0 == k
}

/// The data that came with row index `k`.
pub open spec fn row_with_index<T>(parts: Seq<(usize, T)>, k: int) -> T {
    parts[choose|i: int| 0 <= i < parts.len() && (#[trigger] parts[i]).0 == k].1
}

/// The data of the parts, ordered by row index.
pub open spec fn in_row_order<T>(parts: Seq<(usize, T)>, height: nat) -> Seq<T> {
    Seq::new(height, |k: int| row_with_index(parts, k))
}

/// Puts rows that arrived in any order into their places: `Some` exactly when the
/// indices of `parts` are `0 .. height`, each once, and then row `k` is the data
/// that came with index `k`.
pub fn reassemble_rows<T>(parts: Vec<(usize, T)>, height: usize) -> (r: Option<Vec<T>>)
    ensures
        (r is Some) <==> spans_rows(parts@, height as nat),
        r matches Some(v) ==> v@ == in_row_order(parts@, height as nat),
{
    let ghost all = parts@;
    let mut rest = parts;
    let mut collector: RowCollector<T> = RowCollector::new(height);
    while rest.len() > 0
        invariant
            all == parts@,
            rest@.len() <= all.len(),
            rest@ == all.subrange(0, rest@.len() as int),
            collector@.len() == height,
            forall|i: int|
                rest@.len() <= i < all.len() ==> (#[trigger] all[i]).0 < height && collector@[all[i].0 as int]
                    == Some(all[i].1),
            forall|i: int, j: int|
                rest@.len() <= i < j < all.len() ==> (#[trigger] all[i]).0 != (#[trigger] all[j]).0,
            forall|k: int|
                0 <= k < height ==> ((#[trigger] collector@[k]) is Some <==> exists|i: int|
                    rest@.len() <= i < all.len() && (#[trigger] all[i]).0 == k),
        decreases rest@.len(),
    {
        let ghost n = rest@.len() - 1;
        let (index, data) = rest.pop().unwrap();
        assert(all[n] == (index, data));
        let accepted = collector.accept(index, data);
        if accepted.is_err() {
            proof {
                if index < height {
                    let i = choose|i: int| rest@.len() + 1 <= i < all.len() && (#[trigger] all[i]).0 == index;
                    assert(all[n].0 == all[i].0);
                }
            }
            return None;
        }
        proof {
            assert forall|k: int|
                0 <= k < height implies ((#[trigger] collector@[k]) is Some <==> exists|i: int|
                    rest@.len() <= i < all.len() && (#[trigger] all[i]).0 == k) by {
                if k == index {
                    assert(all[n].0 == k);
                }
            }
        }
    }
    assert(all.subrange(0, 0) =~= Seq::<(usize, T)>::empty());
    let rows = collector.into_rows();
    match rows {
        Ok(v) => {
            proof {
                assert forall|k: int| 0 <= k < height implies #[trigger] has_index(all, k) by {
                    assert(collector@[k] is Some);
                }
                assert forall|k: int| 0 <= k < height implies v@[k] == #[trigger] row_with_index(all, k) by {
                    assert(collector@[k] is Some);
                    let i = choose|i: int| 0 <= i < all.len() && (#[trigger] all[i]).0 == k;
                    assert(collector@[all[i].0 as int] == Some(all[i].1));
                }
                assert(v@ =~= in_row_order(all, height as nat));
            }
            Some(v)
        },
        Err(_) => {
            proof {
                let k = choose|k: int| 0 <= k < height && !((#[trigger] collector@[k]) is Some);
                assert(!has_index(all, k));
            }
            None
        },
    }
}

/// With distinct indices, distinct parts.
proof fn lemma_spans_no_duplicates<T>(parts: Seq<(usize, T)>, height: nat)
    requires
        spans_rows(parts, height),
    ensures
        parts.no_duplicates(),
{
    assert forall|i: int, j: int| 0 <= i < parts.len() && 0 <= j < parts.len() && i != j implies parts[i] != parts[j] by {
        if i < j {
            assert(parts[i].0 != parts[j].0);
        } else {
            assert(parts[j].0 != parts[i].0);
        }
    }
}

/// Reassembly does not depend on the order in which rows arrive: where `b`
/// holds the same parts as `a` in another order and `a` carries each index of
/// `0 .. height` once, so does `b`, both give the same rows, and in those rows
/// each part's data stands at its own index.
pub proof fn lemma_reassembly_ignores_arrival_order<T>(
    a: Seq<(usize, T)>,
    b: Seq<(usize, T)>,
    height: nat,
)
    requires
        spans_rows(a, height),
        a.to_multiset() == b.to_multiset(),
    ensures
        spans_rows(b, height),
        in_row_order(a, height) == in_row_order(b, height),
        forall|i: int| 0 <= i < a.len() ==> in_row_order(a, height)[(#[trigger] a[i]).0 as int] == a[i].1,
{
    a.to_multiset_ensures();
    b.to_multiset_ensures();
    lemma_spans_no_duplicates(a, height);
    a.lemma_multiset_has_no_duplicates();
    assert forall|x: (usize, T)| b.to_multiset().contains(x) implies b.to_multiset().count(x) == 1 by {
        assert(a.to_multiset().contains(x));
    }
    b.lemma_multiset_has_no_duplicates_conv();
    // every part of b is a part of a
    assert forall|j: int| 0 <= j < b.len() implies a.contains(#[trigger] b[j]) by {
        assert(b.contains(b[j]));
        assert(a.to_multiset().count(b[j]) > 0);
    }
    assert forall|j: int| 0 <= j < b.len() implies (#[trigger] b[j]).0 < height by {
        let i = choose|i: int| 0 <= i < a.len() && (#[trigger] a[i]) == b[j];
        assert(a[i].0 < height);
    }
    assert forall|p: int, q: int| 0 <= p < q < b.len() implies (#[trigger] b[p]).0 != (#[trigger] b[q]).0 by {
        let i = choose|i: int| 0 <= i < a.len() && (#[trigger] a[i]) == b[p];
        let j = choose|j: int| 0 <= j < a.len() && (#[trigger] a[j]) == b[q];
        assert(b[p] != b[q]);
        if i < j {
            assert(a[i].0 != a[j].0);
        } else if j < i {
            assert(a[j].0 != a[i].0);
        }
    }
    assert forall|k: int| 0 <= k < height implies #[trigger] has_index(b, k) by {
        assert(has_index(a, k));
        let i = choose|i: int| 0 <= i < a.len() && (#[trigger] a[i]).0 == k;
        assert(a.contains(a[i]));
        assert(b.to_multiset().count(a[i]) > 0);
        assert(b.contains(a[i]));
        let j = choose|j: int| 0 <= j < b.len() && b[j] == a[i];
        assert(b[j].0 == k);
    }
    assert forall|k: int| 0 <= k < height implies row_with_index(a, k) == row_with_index(b, k) by {
        assert(has_index(a, k));
        assert(has_index(b, k));
        let i = choose|i: int| 0 <= i < a.len() && (#[trigger] a[i]).0 == k;
        let j = choose|j: int| 0 <= j < b.len() && (#[trigger] b[j]).0 == k;
        let p = choose|p: int| 0 <= p < a.len() && (#[trigger] a[p]) == b[j];
        if p < i {
            assert(a[p].0 != a[i].0);
        } else if i < p {
            assert(a[i].0 != a[p].0);
        }
    }
    assert(in_row_order(a, height) =~= in_row_order(b, height));
    assert forall|i: int| 0 <= i < a.len() implies in_row_order(a, height)[(#[trigger] a[i]).0 as int] == a[i].1 by {
        let k = a[i].0 as int;
        assert(has_index(a, k));
        let c = choose|c: int| 0 <= c < a.len() && (#[trigger] a[c]).0 == k;
        if c < i {
            assert(a[c].0 != a[i].0);
        } else if i < c {
            assert(a[i].0 != a[c].0);
        }
    }
}

} // verus!
