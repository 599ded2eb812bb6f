use crate::consult_option::ConsultOption;
use crate::consult_result::{ConsultResult, ConsultResultView};
use crate::dictionary::{answers_of, Dictionary};
use crate::sd_error::SdError;
use rayon::iter::{IntoParallelRefIterator, ParallelIterator};
use vstd::prelude::*;

verus! {

/// The dictionaries among the outcomes of loading some, in their order. A
/// dictionary that failed to load leaves no trace.
pub open spec fn successes(loads: Seq<Result<Dictionary, SdError>>) -> Seq<Dictionary>
    decreases loads.len(),
{
    if loads.len() == 0 {
        Seq::empty()
    } else {
        match loads.last() {
            Ok(dictionary) => successes(loads.drop_last()).push(dictionary),
            Err(_) => successes(loads.drop_last()),
        }
    }
}

/// What each of the dictionaries answers to a query, dictionary by
/// dictionary.
pub open spec fn consulted_each(dicts: Seq<Dictionary>, query: Seq<char>, option: ConsultOption)
    -> Seq<Seq<ConsultResultView>> {
    dicts.map_values(|dictionary: Dictionary| dictionary.consulted(query, option))
}

/// The answers of all the dictionaries to a query, in one row: those of
/// the first dictionary, then those of the second, and so on.
pub open spec fn consulted_all(dicts: Seq<Dictionary>, query: Seq<char>, option: ConsultOption)
    -> Seq<ConsultResultView> {
    consulted_each(dicts, query, option).flatten()
}

/// `rayon` hands each dictionary to a worker that consults it, and
/// `collect` puts what the workers found into one vector, in the order of the
/// dictionaries and not in the order in which the workers finished.
#[verifier::external_body]
fn consult_in_parallel<'a>(dicts: &'a Vec<Dictionary>, word: &str, option: &ConsultOption) -> (results:
    Vec<ConsultResult<'a>>)
    ensures
        answers_of(results@) == consulted_all(dicts@, word@, *option),
{
    dicts.par_iter().flat_map_iter(|dictionary| dictionary.consult(word, option)).collect()
}

/// The dictionaries that a query is put to.
#[derive(Debug)]
pub struct Library {
    dicts: Vec<Dictionary>,
}

impl Library {
    /// The dictionaries of the library, in the order in which they were
    /// loaded.
    pub closed spec fn dicts(&self) -> Seq<Dictionary> {
        self.dicts@
    }

    /// The answers of the library to a query: those of its dictionaries, one
    /// dictionary after the other.
    pub open spec fn consulted(&self, query: Seq<char>, option: ConsultOption) -> Seq<
        ConsultResultView,
    > {
        consulted_all(self.dicts(), query, option)
    }

    /// Makes a library of the outcomes of loading its dictionaries. The
    /// dictionaries that loaded are kept, in their order; one that failed is
    /// dropped without a word, and does not stand in the way of the others.
    pub fn new(loads: Vec<Result<Dictionary, SdError>>) -> (library: Self)
        ensures
            library.dicts() == successes(loads@),
    {
        let ghost all = loads@;
        let mut dicts: Vec<Dictionary> = Vec::new();
        for load in it: loads
            invariant
                it.seq() == all,
                dicts@ == successes(all.take(it.index() as int)),
        {
            proof {
                assert(all.take(it.index() + 1).drop_last() =~= all.take(it.index() as int));
            }
            match load {
                Ok(dictionary) => {
                    dicts.push(dictionary);
                },
                Err(_) => {},
            }
        }
        assert(all.take(all.len() as int) =~= all);
        Library { dicts }
    }

    /// The number of dictionaries that loaded.
    pub fn dict_count(&self) -> (count: usize)
        ensures
            count == self.dicts().len(),
    {
        self.dicts.len()
    }

    /// Puts a query to every dictionary and hands out all their answers: those
    /// of the first dictionary, then those of the second, and so on. A library
    /// without dictionaries answers with nothing.
    ///
    /// With `option.parallel` the dictionaries are consulted at the same time,
    /// else one after the other. The answers are the same.
    pub fn consult<'a>(&'a self, word: &str, option: &ConsultOption) -> (results: Vec<
        ConsultResult<'a>,
    >)
        ensures
            answers_of(results@) == self.consulted(word@, *option),
    {
        if option.parallel {
            consult_in_parallel(&self.dicts, word, option)
        } else {
            let mut results: Vec<ConsultResult<'a>> = Vec::new();
            let mut i: usize = 0;
            assert(answers_of(results@) =~= consulted_all(self.dicts@.take(0), word@, *option));
            while i < self.dicts.len()
                invariant
                    i <= self.dicts@.len(),
                    answers_of(results@) == consulted_all(
                        self.dicts@.take(i as int),
                        word@,
                        *option,
                    ),
                decreases self.dicts@.len() - i,
            {
                let mut found = self.dicts[i].consult(word, option);
                proof {
                    let before = self.dicts@.take(i as int);
                    let each = consulted_each(before, word@, *option);
                    let answer = self.dicts@[i as int].consulted(word@, *option);
                    assert(self.dicts@.take(i + 1) =~= before.push(self.dicts@[i as int]));
                    assert(consulted_each(self.dicts@.take(i + 1), word@, *option) =~= each.push(
                        answer,
                    ));
                    each.lemma_flatten_push(answer);
                    assert(answers_of(results@ + found@) =~= answers_of(results@) + answers_of(
                        found@,
                    ));
                }
                results.append(&mut found);
                i += 1;
            }
            assert(self.dicts@.take(self.dicts@.len() as int) =~= self.dicts@);
            results
        }
    }
}

/// Whether the dictionaries are consulted at the same time or one after
/// the other makes no difference to what a query is answered: the same
/// answers, as many of them, in the same order.
pub proof fn lemma_parallel_answers_alike(
    library: Library,
    query: Seq<char>,
    sequential: ConsultOption,
    parallel: ConsultOption,
)
    requires
        !sequential.parallel,
        parallel.parallel,
        sequential.fuzzy == parallel.fuzzy,
        sequential.max_dist == parallel.max_dist,
        sequential.max_item == parallel.max_item,
    ensures
        library.consulted(query, parallel) == library.consulted(query, sequential),
        library.consulted(query, parallel).to_multiset() == library.consulted(
            query,
            sequential,
        ).to_multiset(),
        library.consulted(query, parallel).len() == library.consulted(query, sequential).len(),
{
    assert(consulted_each(library.dicts(), query, parallel) =~= consulted_each(
        library.dicts(),
        query,
        sequential,
    ));
}

/// A query has one answer: put again to a library that has not changed, it
/// is answered with the same row of answers in the same order.
pub proof fn lemma_consult_repeatable(
    library: Library,
    query: Seq<char>,
    option: ConsultOption,
    first: Seq<ConsultResultView>,
    second: Seq<ConsultResultView>,
)
    requires
        first == library.consulted(query, option),
        second == library.consulted(query, option),
    ensures
        first == second,
{
}

/// A library without dictionaries answers every query with nothing.
pub proof fn lemma_empty_library_is_silent(library: Library, query: Seq<char>, option: ConsultOption)
    requires
        library.dicts().len() == 0,
    ensures
        library.consulted(query, option).len() == 0,
{
    assert(consulted_each(library.dicts(), query, option) =~= Seq::empty());
}

} // verus!
