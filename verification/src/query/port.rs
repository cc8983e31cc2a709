//! The interface of a query language.

use crate::model::error::{GraphError, GraphErrorView};
use crate::ports::query_context::{settles, DatabaseContext};
use crate::query::ast::{CommandView, QueryCommand};
use crate::query::executor::{answered, reads_nothing, refusal, relays};
use crate::query::planner::plan_of;
use crate::query::result::QueryResult;
use vstd::prelude::*;

verus! {

/// A language in which queries are written.
pub trait QueryLanguagePort {
    /// The name of the language.
    spec fn name(&self) -> Seq<char>;

    /// The command that a query stands for, or the error it is answered with.
    spec fn command(&self, query: Seq<char>) -> Result<CommandView, GraphErrorView>;

    /// The name of the language.
    fn language_name(&self) -> (r: &str)
        ensures
            r@ == self.name(),
    ;

    /// Reads a query.
    fn read_command(&self, query: &str) -> (r: Result<QueryCommand, GraphError>)
        ensures
            match (r, self.command(query@)) {
                (Ok(c), Ok(v)) => c@ == v,
                (Err(e), Err(m)) => e@ == m,
                _ => false,
            },
    ;

    /// Reads a query and runs it against a database.
    fn execute<C: DatabaseContext>(&self, query: &str, context: &mut C) -> (r: Result<
        QueryResult,
        GraphError,
    >)
        requires
            old(context).valid(),
        ensures
            final(context).valid(),
            final(context).only_read_since(old(context)),
            final(context).contents().structure == old(context).contents().structure,
            final(context).unfailing() == old(context).unfailing(),
            final(context).scan_refusal() == old(context).scan_refusal(),
            old(context).steady() ==> final(context).steady() && final(context).contents() == old(
                context,
            ).contents(),
            match self.command(query@) {
                Err(e) => {
                    &&& r matches Err(x) && x@ == e
                    &&& *final(context) == *old(context)
                },
                Ok(c) => {
                    let plan = plan_of(c, old(context).contents().stats());
                    &&& relays(old(context), final(context), plan, r)
                    &&& r matches Ok(res) ==> answered(
                        old(context).steady(),
                        old(context).contents(),
                        plan,
                        res,
                    )
                    &&& reads_nothing(plan) ==> r is Ok
                    &&& settles(
                        refusal(old(context).contents(), old(context).scan_refusal(), plan),
                        old(context).unfailing(),
                        r,
                    )
                },
            },
    ;
}

} // verus!
