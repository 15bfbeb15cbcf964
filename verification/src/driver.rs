//! The playback driver's session state and the algorithm dispatch.

use vstd::prelude::*;
use rand::Rng;
use crate::algorithms::insertion_sort::insertion_sort;
use crate::algorithms::merge_sort::merge_sort;
use crate::algorithms::quick_sort::quick_sort;
use crate::fault::SortError;
use crate::order::SortOrd;
use crate::order::inversions;
use crate::order::sorted;
use crate::order::with_key;

verus! {

/// The selectable sorting algorithms. A value carries no data, only its
/// identity and a display label.
#[derive(Clone, Copy, Debug, PartialEq, Eq, Structural)]
pub enum Algorithm {
    InsertionSort,
    MergeSort,
    QuickSort,
}

impl Algorithm {
    /// The human-readable label of the algorithm.
    pub fn label(&self) -> (r: &'static str)
        ensures
            *self == Algorithm::InsertionSort ==> r@ == "Insertion Sort"@,
            *self == Algorithm::MergeSort ==> r@ == "Merge Sort"@,
            *self == Algorithm::QuickSort ==> r@ == "Quick Sort"@,
    {
        match self {
            Algorithm::InsertionSort => "Insertion Sort",
            Algorithm::MergeSort => "Merge Sort",
            Algorithm::QuickSort => "Quick Sort",
        }
    }
}

/// Runs the selected algorithm on `data` and returns its freshly produced
/// step log. This is the sole dispatch point: adding an algorithm means
/// adding one selector variant and one routine with the same contract.
/// Insertion sort and merge sort always succeed and never touch a sorted
/// sequence; the quick-sort placeholder always signals the
/// unimplemented-operation fault and leaves the sequence unchanged.
pub fn run_algorithm<T: SortOrd>(algorithm: &Algorithm, data: &mut Vec<T>) -> (r: Result<
    Vec<Vec<T>>,
    SortError,
>)
    ensures
        *algorithm == Algorithm::QuickSort ==> r is Err && r->Err_0 == SortError::Unimplemented
            && final(data)@ == old(data)@,
        *algorithm != Algorithm::QuickSort ==> r is Ok && sorted(final(data)@)
            && final(data)@.len() == old(data)@.len()
            && final(data)@.to_multiset() == old(data)@.to_multiset()
            && (forall|k: int| #[trigger] with_key(final(data)@, k) == with_key(old(data)@, k))
            && (forall|m: int|
                0 <= m < r->Ok_0@.len() ==> (#[trigger] r->Ok_0@[m])@.len() == old(data)@.len())
            && (r->Ok_0@.len() > 0 ==> r->Ok_0@.last()@ == final(data)@),
        *algorithm == Algorithm::InsertionSort ==> r->Ok_0@.len() == inversions(old(data)@),
        *algorithm == Algorithm::InsertionSort && sorted(old(data)@) ==> final(data)@ == old(data)@
            && r->Ok_0@.len() == 0,
        *algorithm == Algorithm::MergeSort && old(data)@.len() <= 1 ==> final(data)@ == old(data)@
            && r->Ok_0@.len() == 0,
        *algorithm == Algorithm::MergeSort && old(data)@.len() >= 2 ==> r->Ok_0@.len() > 0
            && r->Ok_0@[0]@ == old(data)@,
        *algorithm == Algorithm::MergeSort && sorted(old(data)@) ==> final(data)@ == old(data)@ && (
        forall|m: int| 0 <= m < r->Ok_0@.len() ==> (#[trigger] r->Ok_0@[m])@ == old(data)@),
{
    match algorithm {
        Algorithm::InsertionSort => {
            let mut steps: Vec<Vec<T>> = Vec::new();
            insertion_sort(data, &mut steps);
            Ok(steps)
        },
        Algorithm::MergeSort => {
            let mut steps: Vec<Vec<T>> = Vec::new();
            merge_sort(data, &mut steps);
            Ok(steps)
        },
        Algorithm::QuickSort => {
            let mut steps: Vec<Vec<T>> = Vec::new();
            match quick_sort(data, &mut steps) {
                Err(fault) => Err(fault),
                Ok(_) => Ok(steps),
            }
        },
    }
}

/// The playback driver's session state: the live value buffer and the
/// selected algorithm, passed around explicitly rather than held as ambient
/// global state. The sorting routines themselves stay free of it.
pub struct App {
    /// The data being sorted and displayed.
    pub data: Vec<u64>,
    /// The algorithm the next tick runs.
    pub current: Algorithm,
    /// Every selectable algorithm, in display order.
    pub available_algorithms: Vec<Algorithm>,
}

impl App {
    /// Creates a session over `size` values drawn uniformly below `range`,
    /// with merge sort selected.
    pub fn new(size: usize, range: u64) -> (app: App)
        requires
            range >= 1,
        ensures
            app.data@.len() == size,
            forall|m: int| 0 <= m < size ==> (#[trigger] app.data@[m]) < range,
            app.current == Algorithm::MergeSort,
            app.available_algorithms@ == seq![
                Algorithm::InsertionSort,
                Algorithm::MergeSort,
                Algorithm::QuickSort,
            ],
    {
        let mut data: Vec<u64> = Vec::new();
        while data.len() < size
            invariant
                data@.len() <= size,
                range >= 1,
                forall|m: int| 0 <= m < data@.len() ==> (#[trigger] data@[m]) < range,
            decreases size - data@.len(),
        {
            data.push(sample_below(range));
        }
        let mut available_algorithms: Vec<Algorithm> = Vec::new();
        available_algorithms.push(Algorithm::InsertionSort);
        available_algorithms.push(Algorithm::MergeSort);
        available_algorithms.push(Algorithm::QuickSort);
        proof {
            assert(available_algorithms@ =~= seq![
                Algorithm::InsertionSort,
                Algorithm::MergeSort,
                Algorithm::QuickSort,
            ]);
        }
        App { data, current: Algorithm::MergeSort, available_algorithms }
    }

    /// Selects the algorithm the next tick runs.
    pub fn _set_algorithm(&mut self, algorithm: Algorithm)
        ensures
            final(self).current == algorithm,
            final(self).data == old(self).data,
            final(self).available_algorithms == old(self).available_algorithms,
    {
        self.current = algorithm;
    }

    /// Runs the selected algorithm over the session's data and hands back
    /// the freshly recorded step log.
    pub fn run_algorithm_tick(&mut self) -> (r: Result<Vec<Vec<u64>>, SortError>)
        ensures
            final(self).current == old(self).current,
            final(self).available_algorithms == old(self).available_algorithms,
            old(self).current == Algorithm::QuickSort ==> r is Err && r->Err_0
                == SortError::Unimplemented && final(self).data@ == old(self).data@,
            old(self).current != Algorithm::QuickSort ==> r is Ok && sorted(final(self).data@)
                && final(self).data@.to_multiset() == old(self).data@.to_multiset()
                && (forall|k: int|
                    #[trigger] with_key(final(self).data@, k) == with_key(old(self).data@, k))
                && (r->Ok_0@.len() > 0 ==> r->Ok_0@.last()@ == final(self).data@),
    {
        let algorithm = self.current;
        run_algorithm(&algorithm, &mut self.data)
    }

    /// Advances the session by one timer tick.
    pub fn on_tick(&mut self) -> (r: Result<Vec<Vec<u64>>, SortError>)
        ensures
            final(self).current == old(self).current,
            final(self).available_algorithms == old(self).available_algorithms,
            old(self).current == Algorithm::QuickSort ==> r is Err && r->Err_0
                == SortError::Unimplemented && final(self).data@ == old(self).data@,
            old(self).current != Algorithm::QuickSort ==> r is Ok && sorted(final(self).data@)
                && final(self).data@.to_multiset() == old(self).data@.to_multiset()
                && (forall|k: int|
                    #[trigger] with_key(final(self).data@, k) == with_key(old(self).data@, k))
                && (r->Ok_0@.len() > 0 ==> r->Ok_0@.last()@ == final(self).data@),
    {
        self.run_algorithm_tick()
    }
}

/// Relies on rand's `Rng::sample` over `Uniform::new(0, range)`: the drawn
/// value is uniformly distributed over the half-open range `[0, range)`, so
/// every outcome is strictly below `range`. `Uniform::new` panics on an
/// empty range, which the precondition rules out.
#[verifier::external_body]
fn sample_below(range: u64) -> (r: u64)
    requires
        range >= 1,
    ensures
        r < range,
{
    rand::thread_rng().sample(rand::distributions::Uniform::new(0u64, range))
}

} // verus!
