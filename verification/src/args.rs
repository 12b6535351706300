//! The run configuration a command line fills in.

use crate::problem::Ricerca;
use vstd::prelude::*;

verus! {

/// What a run of the search program needs: the dataset file, the two
/// states, whether to run every strategy or a chosen one, and the depth
/// limit for the bounded strategies.
#[derive(Debug)]
pub struct Args {
    pub file: Option<String>,
    pub stato_iniziale: Option<u32>,
    pub stato_finale: Option<u32>,
    pub all: bool,
    pub limite: usize,
    pub ricerca: Option<Ricerca>,
}

impl Default for Args {
    /// The stock configuration: the bundled dataset, states 46 and 73,
    /// every strategy enabled, limit 10, bidirectional as the single pick.
    fn default() -> (r: Args)
        ensures
            match r.file {
                Some(f) => f@ == "email-Enron.txt.gz"@,
                None => false,
            },
            r.stato_iniziale == Some(46u32),
            r.stato_finale == Some(73u32),
            r.all == true,
            r.limite == 10,
            r.ricerca == Some(Ricerca::BiDirectional),
    {
        Args {
            file: Some("email-Enron.txt.gz".to_owned()),
            stato_iniziale: Some(46),
            stato_finale: Some(73),
            all: true,
            limite: 10,
            ricerca: Some(Ricerca::BiDirectional),
        }
    }
}

} // verus!
