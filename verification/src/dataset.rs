use vstd::prelude::*;
use vstd::multiset::Multiset;
use rand::rngs::StdRng;
use rand::seq::SliceRandom;
use rand::RngCore;

verus! {

/// The class label attached to one dataset record.
#[derive(Debug, Clone, PartialEq, Eq, Structural)]
pub enum Class {
    Normal,
    Faint,
    Seizure,
}

impl Class {
    /// The class stored under a small integer label.
    pub open spec fn from_i8_spec(i: i8) -> Class
        recommends
            0 <= i <= 2,
    {
        if i == 0 {
            Class::Normal
        } else if i == 1 {
            Class::Faint
        } else {
            Class::Seizure
        }
    }

    /// The integer index of this class, used to select the target entry.
    pub open spec fn to_usize_spec(self) -> usize {
        match self {
            Class::Normal => 0,
            Class::Faint => 1,
            Class::Seizure => 2,
        }
    }

    pub fn from_i8(i: i8) -> (c: Class)
        requires
            0 <= i <= 2,
        ensures
            c == Self::from_i8_spec(i),
    {
        match i {
            0 => Class::Normal,
            1 => Class::Faint,
            _ => Class::Seizure,
        }
    }

    pub fn to_usize(&self) -> (u: usize)
        ensures
            u == self.to_usize_spec(),
            u <= 2,
    {
        match self {
            Class::Normal => 0,
            Class::Faint => 1,
            Class::Seizure => 2,
        }
    }
}

/// Round trip between a class and its integer label: every valid label is
/// recovered exactly from the class it names.
pub proof fn lemma_class_label_round_trip(i: i8)
    requires
        0 <= i <= 2,
    ensures
        Class::from_i8_spec(i).to_usize_spec() == i,
{
}

/// One dataset record: a vector of 8-bit features and its class label.
pub type Sample = (Vec<i8>, Class);

#[verifier::external_type_specification]
#[verifier::external_body]
pub struct ExStdRng(StdRng);

/// Relies on rand's `SliceRandom::shuffle` for slices: a Fisher-Yates pass
/// that only swaps elements of the slice in place, so afterwards the slice
/// holds a permutation of what it held before.
#[verifier::external_body]
fn shuffle_samples(data: &mut Vec<Sample>, rng: &mut StdRng)
    ensures
        final(data)@.to_multiset() == old(data)@.to_multiset(),
        final(data)@.len() == old(data)@.len(),
{
    data.shuffle(rng);
}

/// Relies on rand's `RngCore::next_u64` for `StdRng`: hands back the
/// generator's next 64-bit draw. Nothing is assumed of the value.
#[verifier::external_body]
fn next_random(rng: &mut StdRng) -> (r: u64)
{
    rng.next_u64()
}

/// The records of a list of datasets, taken together as a multiset.
pub open spec fn datasets_multiset(ds: Seq<Vec<Sample>>) -> Multiset<Sample>
    decreases ds.len(),
{
    if ds.len() == 0 {
        Multiset::empty()
    } else {
        ds[0]@.to_multiset().add(datasets_multiset(ds.drop_first()))
    }
}

/// The total record count of a list of datasets.
pub open spec fn datasets_len(ds: Seq<Vec<Sample>>) -> int
    decreases ds.len(),
{
    if ds.len() == 0 {
        0
    } else {
        ds[0]@.len() + datasets_len(ds.drop_first())
    }
}

proof fn lemma_datasets_multiset_len(ds: Seq<Vec<Sample>>)
    ensures
        datasets_multiset(ds).len() == datasets_len(ds),
    decreases ds.len(),
{
    broadcast use vstd::seq_lib::group_to_multiset_ensures;

    if ds.len() > 0 {
        lemma_datasets_multiset_len(ds.drop_first());
    }
}

/// Concatenates the given datasets and shuffles the result in place with the
/// given generator. The result holds exactly the records of the inputs, in
/// some order.
pub fn merge_and_shuffle_datasets(datasets: Vec<Vec<Sample>>, rng: &mut StdRng) -> (r: Vec<
    Sample,
>)
    ensures
        r@.to_multiset() == datasets_multiset(datasets@),
        r@.len() == datasets_len(datasets@),
{
    broadcast use vstd::seq_lib::group_to_multiset_ensures;

    let ghost all = datasets@;
    let mut rest = datasets;
    let mut output: Vec<Sample> = Vec::new();

    while rest.len() > 0
        invariant
            output@.to_multiset().add(datasets_multiset(rest@)) == datasets_multiset(all),
            output@.len() + datasets_len(rest@) == datasets_len(all),
        decreases rest.len(),
    {
        let ghost rest0 = rest@;
        let ghost out0 = output@;
        let mut d = rest.remove(0);
        let ghost d0 = d@;
        output.append(&mut d);
        proof {
            assert(rest@ =~= rest0.drop_first());
            assert(output@ =~= out0 + d0);
            lemma_concat_multiset(out0, d0);
            assert(output@.to_multiset().add(datasets_multiset(rest@)) =~= datasets_multiset(
                all,
            ));
        }
    }
    proof {
        assert(output@.to_multiset().add(datasets_multiset(rest@)) =~= output@.to_multiset());
        lemma_datasets_multiset_len(datasets@);
        vstd::seq_lib::to_multiset_len(output@);
    }
    shuffle_samples(&mut output, rng);
    proof {
        vstd::seq_lib::to_multiset_len(output@);
    }
    output
}

/// The multiset of a concatenation is the sum of the parts' multisets.
proof fn lemma_concat_multiset(a: Seq<Sample>, b: Seq<Sample>)
    ensures
        (a + b).to_multiset() == a.to_multiset().add(b.to_multiset()),
    decreases b.len(),
{
    broadcast use vstd::seq_lib::group_to_multiset_ensures;

    if b.len() == 0 {
        assert(a + b =~= a);
        assert((a + b).to_multiset() =~= a.to_multiset().add(b.to_multiset()));
    } else {
        let b1 = b.drop_last();
        lemma_concat_multiset(a, b1);
        assert(a + b =~= (a + b1).push(b.last()));
        assert(b =~= b1.push(b.last()));
        assert((a + b).to_multiset() =~= a.to_multiset().add(b.to_multiset()));
    }
}

/// Removes `test_size` records from the dataset at positions drawn from the
/// given generator and returns them. Whatever positions are drawn, no record
/// is lost or invented: the removed records and the remainder together are
/// exactly the old dataset.
pub fn pick_test_data(dataset: &mut Vec<Sample>, test_size: usize, rng: &mut StdRng) -> (r: Vec<
    Sample,
>)
    requires
        test_size <= old(dataset)@.len(),
    ensures
        final(dataset)@.len() == old(dataset)@.len() - test_size,
        r@.len() == test_size,
        r@.to_multiset().add(final(dataset)@.to_multiset()) == old(dataset)@.to_multiset(),
{
    broadcast use vstd::seq_lib::group_to_multiset_ensures;

    let ghost all = dataset@;
    let mut test_data: Vec<Sample> = Vec::new();
    let mut k: usize = 0;
    while k < test_size
        invariant
            k <= test_size,
            test_size <= all.len(),
            test_data@.len() == k,
            dataset@.len() == all.len() - k,
            test_data@.to_multiset().add(dataset@.to_multiset()) == all.to_multiset(),
        decreases test_size - k,
    {
        let ghost data0 = dataset@;
        let ghost test0 = test_data@;
        let draw = next_random(rng);
        let index = (#[verifier::truncate] (draw as usize)) % dataset.len();
        let picked = dataset.remove(index);
        test_data.push(picked);
        proof {
            assert(picked == data0[index as int]);
            vstd::seq_lib::to_multiset_remove(data0, index as int);
            vstd::seq_lib::to_multiset_build(test0, picked);
            assert(data0.contains(picked));
            vstd::seq_lib::to_multiset_contains(data0, picked);
            assert(data0.to_multiset().count(picked) > 0);
            assert(dataset@ == data0.remove(index as int));
            assert(test_data@ == test0.push(picked));
            assert(test_data@.to_multiset().add(dataset@.to_multiset()) =~= all.to_multiset());
        }
        k = k + 1;
    }
    test_data
}

} // verus!
