//! Secret sharing under a monotone access formula.

use vstd::prelude::*;

use crate::field::Fp;
use crate::zo_sss::dimacs::DIMACS;
use crate::zo_sss::mbf::{
    combined_ok,
    mbf_combine,
    mbf_share,
    party_names,
    projections_ok,
    sat_spec,
    sel_ok,
    w_ok,
};
use crate::RingElement;
use crate::SchemeError;

pub mod dimacs;
pub mod mbf;
pub mod share_matrix;

verus! {

/// A party: its variable index (`name`, counting from 1) and, per
/// shared secret, the share values it holds.
#[derive(Clone)]
pub struct Party<R: RingElement> {
    pub name: u8,
    pub shares: Vec<Vec<R>>,
}

/// A secret sharing scheme over the ring `R`.
pub trait SecretSharingScheme<R: RingElement>: Sized {
    /// The scheme instance is usable.
    spec fn wf(&self) -> bool;

    /// A party set acceptable to `combine`: non-empty, every party
    /// holding one share vector per secret.
    spec fn parties_wf(&self, parties: &Vec<Party<R>>) -> bool;

    fn share(&self, secrets: Vec<R>) -> (r: Vec<Party<R>>)
        requires
            self.wf(),
    ;

    fn combine(&self, parties: Vec<Party<R>>, is_minimal: bool) -> (r: Result<
        Vec<R>,
        SchemeError,
    >)
        requires
            self.wf(),
            self.parties_wf(&parties),
        ensures
            r matches Err(e) ==> e == SchemeError::NoAuthorizedCoalition,
    ;
}

/// Secret sharing via a monotone boolean formula access structure,
/// fully defined by its [`DIMACS`] description.
pub struct MBF {
    pub dimacs: DIMACS,
}

impl SecretSharingScheme<Fp> for MBF {
    open spec fn wf(&self) -> bool {
        self.dimacs.wf()
    }

    open spec fn parties_wf(&self, parties: &Vec<Party<Fp>>) -> bool {
        &&& parties@.len() >= 1
        &&& forall|p: int|
            0 <= p < parties@.len() ==> (#[trigger] parties@[p].shares)@.len()
                == parties@[0].shares@.len()
    }

    fn share(&self, secrets: Vec<Fp>) -> (r: Vec<Party<Fp>>)
        ensures
            r@.len() == self.dimacs.num_var,
            exists|wm: Seq<Vec<Fp>>|
                #[trigger] w_ok(wm, secrets@, self.dimacs.num_clauses as nat)
                    && projections_ok(r@, wm, self.dimacs.partitions@),
    {
        mbf_share(secrets, &self.dimacs)
    }

    fn combine(&self, parties: Vec<Party<Fp>>, is_minimal: bool) -> (r: Result<
        Vec<Fp>,
        SchemeError,
    >)
        ensures
            is_minimal ==> r is Ok,
            !is_minimal ==> (r is Ok <==> sat_spec(party_names(parties@), self.dimacs.clauses@)),
            r matches Ok(v) ==> exists|sel: Seq<Party<Fp>>|
                {
                    &&& #[trigger] sel_ok(sel, parties@, is_minimal, self.dimacs.clauses@)
                    &&& sel.len() >= 1
                    &&& v@.len() == parties@[0].shares@.len()
                    &&& forall|k: int| 0 <= k < v@.len() ==> combined_ok(v@[k], sel, k)
                },
    {
        mbf_combine(parties, is_minimal, &self.dimacs)
    }
}

} // verus!
