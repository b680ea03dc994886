//! Continuing a DAG from its unspent outputs: one forward build for each of
//! them, and the DAGs that those builds bring in merged into the first.
//!
//! The builds run elsewhere, side by side. The continuation says where they
//! start, takes in what each of them ends with, and says at the end whether
//! the whole succeeded.

use vstd::prelude::*;
use crate::dag::{is_utxo, merged, SpendDag};
use crate::error::BuildError;
use crate::keys::{addresses_view, SpendAddress};

verus! {

/// A continuation as a mathematical value.
#[verifier::ext_equal]
pub struct ContinuationView {
    /// The addresses at which the builds start.
    pub roots: Seq<Seq<u8>>,
    /// Whether a build has come in.
    pub completed: bool,
    /// The errors of the builds that failed, in the order they came in.
    pub failures: Seq<BuildError>,
    /// Whether a build was lost: it ended without an outcome.
    pub lost: bool,
}

/// How a continuation ends. A lost build is a hard error. Failed builds are
/// an error only if no build came in at all.
pub open spec fn conclusion(c: ContinuationView) -> Result<(), BuildError> {
    if c.lost || (c.failures.len() > 0 && !c.completed) {
        Err(BuildError::FailedToGetSpend)
    } else {
        Ok(())
    }
}

/// The continuation after the outcome of one build.
pub open spec fn absorbed_outcome(c: ContinuationView, failure: Option<BuildError>) -> ContinuationView {
    match failure {
        None => ContinuationView { completed: true, ..c },
        Some(e) => ContinuationView { failures: c.failures.push(e), ..c },
    }
}

/// A continuation in progress.
pub struct Continuation {
    roots: Vec<SpendAddress>,
    completed: bool,
    failures: Vec<BuildError>,
    lost: bool,
}

impl View for Continuation {
    type V = ContinuationView;

    closed spec fn view(&self) -> ContinuationView {
        ContinuationView {
            roots: addresses_view(self.roots@),
            completed: self.completed,
            failures: self.failures@,
            lost: self.lost,
        }
    }
}

impl Continuation {
    /// Begins a continuation of `dag`: one build is to start at each of its
    /// unspent outputs.
    pub fn begin(dag: &SpendDag) -> (c: Continuation)
        requires
            dag.wf(),
        ensures
            c@.roots.no_duplicates(),
            forall|a: Seq<u8>|
                #![trigger c@.roots.contains(a)]
                #![trigger is_utxo(dag@, a)]
                c@.roots.contains(a) <==> is_utxo(dag@, a),
            !c@.completed,
            c@.failures.len() == 0,
            !c@.lost,
    {
        Continuation { roots: dag.get_utxos(), completed: false, failures: Vec::new(), lost: false }
    }

    /// The addresses at which the builds start.
    pub fn roots(&self) -> (roots: &Vec<SpendAddress>)
        ensures
            addresses_view(roots@) == self@.roots,
    {
        &self.roots
    }

    /// The errors of the builds that failed so far.
    pub fn failures(&self) -> (failures: &Vec<BuildError>)
        ensures
            failures@ == self@.failures,
    {
        &self.failures
    }

    /// Takes in the outcome of one build. A DAG is merged into `dag`. A
    /// failure is kept for the report and changes nothing else: the other
    /// builds go on.
    pub fn absorb(&mut self, dag: &mut SpendDag, outcome: Result<SpendDag, BuildError>)
        requires
            old(dag).wf(),
            outcome is Ok ==> outcome->Ok_0.wf(),
        ensures
            final(dag).wf(),
            match outcome {
                Ok(sub) => final(dag)@ == merged(old(dag)@, sub@) && final(dag).root_view() == (
                if old(dag).root_view() is Some {
                    old(dag).root_view()
                } else {
                    sub.root_view()
                }) && final(self)@ == absorbed_outcome(old(self)@, None),
                Err(e) => final(dag)@ == old(dag)@ && final(dag).root_view() == old(
                    dag,
                ).root_view() && final(self)@ == absorbed_outcome(old(self)@, Some(e)),
            },
    {
        match outcome {
            Ok(sub) => {
                dag.merge(sub);
                self.completed = true;
            },
            Err(e) => {
                self.failures.push(e);
            },
        }
    }

    /// Notes that a build ended without an outcome.
    pub fn build_lost(&mut self)
        ensures
            final(self)@ == (ContinuationView { lost: true, ..old(self)@ }),
    {
        self.lost = true;
    }

    /// How the continuation ends.
    pub fn conclude(&self) -> (r: Result<(), BuildError>)
        ensures
            r == conclusion(self@),
    {
        if self.lost || (self.failures.len() > 0 && !self.completed) {
            Err(BuildError::FailedToGetSpend)
        } else {
            Ok(())
        }
    }
}

} // verus!
