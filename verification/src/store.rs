//! The vectors of a run, by dense index: the approximate index together
//! with the signatures it was given.
use crate::cli::Executable;
use crate::extraction::SignatureToCompare;
use crate::formatting::joined;
use crate::formatting::name_views;
use crate::index::candidate;
use crate::index::collides;
use crate::index::key_views;
use crate::index::second_indices;
use crate::index::ApproxIndex;
use crate::index::IndexError;
use crate::index::Insertion;
use crate::shared::in_range;
use crate::shared::is_grouping;
use crate::shared::make_groups_and_exec;
use crate::shared::report_members;
use crate::shared::reports_group;
use crate::shared::CompareTask;
use crate::shared::GroupReport;
use crate::shared::Pairing;
use crate::similarity::comparable;
use crate::similarity::cosine_exceeds;
use crate::similarity::dot_product;
use crate::similarity::verify_pair;
use vstd::prelude::*;

verus! {

/// An append-only store of signatures.  A signature gets its dense index
/// when it is stored, keeps it, and is never changed or removed.
pub struct VectorStore {
    index: ApproxIndex,
    vectors: Vec<SignatureToCompare>,
}

impl View for VectorStore {
    type V = Seq<SignatureToCompare>;

    /// The signatures stored, by dense index.
    closed spec fn view(&self) -> Seq<SignatureToCompare> {
        self.vectors@
    }
}

impl VectorStore {
    /// The bucket keys of the signatures stored, by dense index.
    pub closed spec fn keys(&self) -> Seq<Seq<Seq<i8>>> {
        self.index@
    }

    /// The number of tables of the index.
    pub closed spec fn table_count(&self) -> nat {
        self.index.table_count()
    }

    /// The index knows exactly the signatures stored.
    pub closed spec fn wf(&self) -> bool {
        &&& self.index.wf()
        &&& self.vectors@.len() == self.index@.len()
    }

    /// `task` names two stored signatures whose similarity lies strictly
    /// above `threshold` percent.
    pub open spec fn accepts(&self, task: CompareTask, threshold: u8) -> bool {
        &&& task.index1 < self@.len()
        &&& task.index2 < self@.len()
        &&& comparable(self@[task.index1 as int].signature@, self@[task.index2 as int].signature@)
        &&& cosine_exceeds(
            self@[task.index1 as int].signature@,
            self@[task.index2 as int].signature@,
            threshold as int,
        )
    }

    /// An empty store whose index has `n_tables` tables.
    pub fn new(n_tables: usize) -> (store: VectorStore)
        ensures
            store.wf(),
            store.table_count() == n_tables,
            store@ == Seq::<SignatureToCompare>::empty(),
            store.keys() == Seq::<Seq<Seq<i8>>>::empty(),
    {
        VectorStore { index: ApproxIndex::new(n_tables), vectors: Vec::new() }
    }

    /// The number of signatures stored, which is the next dense index.
    pub fn len(&self) -> (count: usize)
        ensures
            count == self@.len(),
    {
        self.vectors.len()
    }

    /// Stores a signature that has the bucket keys `keys`, and names the
    /// signatures stored before it that it is to be compared with.
    ///
    /// What was stored before stays as it is.  A signature that is refused
    /// is not stored.
    pub fn insert_and_query(&mut self, image: SignatureToCompare, keys: &Vec<Vec<i8>>) -> (result:
        Result<Insertion, IndexError>)
        requires
            old(self).wf(),
        ensures
            final(self).wf(),
            final(self).table_count() == old(self).table_count(),
            match result {
                Ok(insertion) => {
                    &&& insertion.index == old(self)@.len()
                    &&& final(self)@ == old(self)@.push(image)
                    &&& final(self).keys() == old(self).keys().push(key_views(keys@))
                    &&& second_indices(insertion.tasks@).no_duplicates()
                    &&& forall|j: int|
                        0 <= j < insertion.tasks@.len() ==> candidate(
                            old(self).keys(),
                            key_views(keys@),
                            #[trigger] insertion.tasks@[j],
                        )
                    &&& forall|i: usize|
                        i < old(self)@.len() && collides(old(self).keys()[i as int], key_views(keys@))
                            ==> #[trigger] second_indices(insertion.tasks@).contains(i)
                },
                Err(IndexError::KeyCount) => {
                    &&& keys@.len() != old(self).table_count()
                    &&& final(self)@ == old(self)@
                    &&& final(self).keys() == old(self).keys()
                },
                Err(IndexError::Full) => {
                    &&& keys@.len() == old(self).table_count()
                    &&& old(self)@.len() == usize::MAX
                    &&& final(self)@ == old(self)@
                    &&& final(self).keys() == old(self).keys()
                },
            },
    {
        match self.index.insert_and_query(keys) {
            Ok(insertion) => {
                self.vectors.push(image);
                Ok(insertion)
            },
            Err(error) => Err(error),
        }
    }

    /// The signature with the dense index `index`, where one is stored.
    pub fn get(&self, index: usize) -> (found: Option<&SignatureToCompare>)
        ensures
            found is Some <==> index < self@.len(),
            found matches Some(image) ==> *image == self@[index as int],
    {
        if index < self.vectors.len() {
            Some(&self.vectors[index])
        } else {
            None
        }
    }

    /// Compares the two signatures that `task` names and accepts the pair
    /// where their similarity lies strictly above `threshold` percent.
    ///
    /// A task that names a signature that is not stored is rejected.
    pub fn verify(&self, task: &CompareTask, threshold: u8) -> (result: Option<Pairing>)
        ensures
            result is Some <==> self.accepts(*task, threshold),
            result matches Some(pairing) ==> {
                &&& pairing.index1 == task.index1
                &&& pairing.index2 == task.index2
                &&& pairing.score.dot() == dot_product(
                    self@[task.index1 as int].signature@,
                    self@[task.index2 as int].signature@,
                )
                &&& pairing.score.norm1() == dot_product(
                    self@[task.index1 as int].signature@,
                    self@[task.index1 as int].signature@,
                )
                &&& pairing.score.norm2() == dot_product(
                    self@[task.index2 as int].signature@,
                    self@[task.index2 as int].signature@,
                )
            },
    {
        if task.index1 < self.vectors.len() && task.index2 < self.vectors.len() {
            verify_pair(
                task,
                &self.vectors[task.index1].signature,
                &self.vectors[task.index2].signature,
                threshold,
            )
        } else {
            None
        }
    }

    /// Groups the accepted pairs and writes each group out by the paths of
    /// the signatures stored.  `None` where a pair names a signature that is
    /// not stored.
    pub fn report_groups(&self, pairings: Vec<Pairing>, executable: &Option<Executable>) -> (result:
        Option<Vec<GroupReport>>)
        ensures
            result is Some <==> in_range(pairings@, self@.len()),
            result matches Some(reports) ==> {
                &&& is_grouping(pairings@, report_members(reports@))
                &&& forall|g: int, j: int|
                    0 <= g < reports@.len() && 0 <= j < reports@[g].members@.len() ==> {
                        &&& (#[trigger] reports@[g].members@[j]) < self@.len()
                        &&& reports@[g].names@[j] == self@[reports@[g].members@[j] as int].path
                    }
                &&& forall|g: int|
                    0 <= g < reports@.len() ==> {
                        &&& (#[trigger] reports@[g]).names@.len() == reports@[g].members@.len()
                        &&& reports@[g].line@ == joined(name_views(reports@[g].names@), seq![' '])
                        &&& match *executable {
                            Some(program) => reports@[g].arguments matches Some(arguments)
                                && arguments@ == program.arguments@ + reports@[g].names@,
                            None => reports@[g].arguments is None,
                        }
                    }
            },
    {
        let mut i: usize = 0;
        while i < pairings.len()
            invariant
                0 <= i <= pairings@.len(),
                in_range(pairings@.take(i as int), self@.len()),
            decreases pairings@.len() - i,
        {
            if pairings[i].index1 >= self.vectors.len() || pairings[i].index2 >= self.vectors.len() {
                proof {
                    if in_range(pairings@, self@.len()) {
                        assert(pairings@[i as int].index1 < self@.len());
                    }
                }
                return None;
            }
            proof {
                assert forall|k: int| 0 <= k < pairings@.take(i + 1).len() implies (
                #[trigger] pairings@.take(i + 1)[k]).index1 < self@.len() && pairings@.take(i + 1)[k].index2
                    < self@.len() by {
                    if k < i {
                        assert(pairings@.take(i as int)[k] == pairings@.take(i + 1)[k]);
                    }
                }
            }
            i += 1;
        }
        proof {
            assert(pairings@.take(pairings@.len() as int) =~= pairings@);
        }
        let names = self.paths();
        let reports = make_groups_and_exec(&names, pairings, executable);
        proof {
            assert forall|g: int, j: int|
                0 <= g < reports@.len() && 0 <= j < reports@[g].members@.len() implies {
                &&& (#[trigger] reports@[g].members@[j]) < self@.len()
                &&& reports@[g].names@[j] == self@[reports@[g].members@[j] as int].path
            } by {
                assert(reports_group(reports@[g], names@, *executable));
                let member = reports@[g].members@[j];
                assert(reports@[g].names@[j] == names@[member as int]);
                assert(names@[member as int] == self@[member as int].path);
            }
            assert forall|g: int| 0 <= g < reports@.len() implies {
                &&& (#[trigger] reports@[g]).names@.len() == reports@[g].members@.len()
                &&& reports@[g].line@ == joined(name_views(reports@[g].names@), seq![' '])
                &&& match *executable {
                    Some(program) => reports@[g].arguments matches Some(arguments) && arguments@
                        == program.arguments@ + reports@[g].names@,
                    None => reports@[g].arguments is None,
                }
            } by {
                assert(reports_group(reports@[g], names@, *executable));
            }
        }
        Some(reports)
    }

    /// The path of every signature stored, by dense index.
    pub fn paths(&self) -> (names: Vec<String>)
        ensures
            names@.len() == self@.len(),
            forall|i: int| 0 <= i < names@.len() ==> #[trigger] names@[i] == self@[i].path,
    {
        let mut names: Vec<String> = Vec::with_capacity(self.vectors.len());
        let mut i: usize = 0;
        while i < self.vectors.len()
            invariant
                0 <= i <= self.vectors@.len(),
                names@.len() == i,
                forall|j: int| 0 <= j < i ==> #[trigger] names@[j] == self.vectors@[j].path,
            decreases self.vectors@.len() - i,
        {
            names.push(self.vectors[i].path.clone());
            i += 1;
        }
        names
    }
}

} // verus!
