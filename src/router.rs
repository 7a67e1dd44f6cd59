//! The router: a validated table and the upstreams it may query.
use crate::engine::{finalize, is_servfail_for, servfail};
use crate::message::Message;
use crate::table::{Table, TableBuilder, TableError, table_uses, valid_table};
use crate::text::{lists, str_equal};
use vstd::prelude::*;

verus! {

/// Errors found when building a router.
pub enum RouterError {
    /// The table queries an upstream that is not declared.
    MissingUpstream(String),
    /// The table's rule graph is not valid.
    Table(TableError),
}

/// A routing table together with the tags of the declared upstreams.
pub struct Router {
    table: Table,
    upstreams: Vec<String>,
}

impl Router {
    pub closed spec fn table_view(&self) -> Table {
        self.table
    }

    pub closed spec fn upstreams_view(&self) -> Seq<String> {
        self.upstreams@
    }

    /// The table is valid and every upstream it queries is declared.
    pub closed spec fn wf(&self) -> bool {
        &&& self.table.wf()
        &&& forall|u: Seq<char>| table_uses(self.table.rules(), u) ==> #[trigger] lists(self.upstreams@, u)
    }

    /// Builds a router, checking that every upstream the table queries is declared.
    pub fn new(table: Table, upstreams: Vec<String>) -> (r: Result<Router, RouterError>)
        requires
            table.wf(),
        ensures
            r is Ok <==> forall|u: Seq<char>| table_uses(table.rules(), u) ==> #[trigger] lists(upstreams@, u),
            match r {
                Ok(router) => router.wf() && router.table_view() == table && router.upstreams_view() == upstreams@,
                Err(RouterError::MissingUpstream(u)) => table_uses(table.rules(), u@) && !lists(upstreams@, u@),
                Err(RouterError::Table(_)) => false,
            },
    {
        let used = table.used_upstreams();
        let mut i: usize = 0;
        while i < used.len()
            invariant
                i <= used@.len(),
                table.wf(),
                used@ == table.upstreams_view(),
                forall|u: Seq<char>| table_uses(table.rules(), u) <==> #[trigger] lists(used@, u),
                forall|j: int| 0 <= j < i ==> lists(upstreams@, (#[trigger] used@[j])@),
            decreases used@.len() - i,
        {
            let mut found = false;
            let mut k: usize = 0;
            while k < upstreams.len()
                invariant
                    i < used@.len(),
                    k <= upstreams@.len(),
                    found == exists|x: int| 0 <= x < k && #[trigger] upstreams@[x]@ == used@[i as int]@,
                decreases upstreams@.len() - k,
            {
                if str_equal(upstreams[k].as_str(), used[i].as_str()) {
                    found = true;
                }
                k = k + 1;
            }
            if !found {
                let u = used[i].clone();
                assert(lists(used@, u@));
                assert(!lists(upstreams@, u@));
                assert(table_uses(table.rules(), u@));
                return Err(RouterError::MissingUpstream(u));
            }
            i = i + 1;
        }
        assert forall|u: Seq<char>| table_uses(table.rules(), u) implies #[trigger] lists(upstreams@, u) by {
            assert(lists(used@, u));
            let j = choose|j: int| 0 <= j < used@.len() && #[trigger] used@[j]@ == u;
            assert(lists(upstreams@, used@[j]@));
        }
        Ok(Router { table, upstreams })
    }

    pub fn table(&self) -> (r: &Table)
        requires
            self.wf(),
        ensures
            *r == self.table_view(),
            r.wf(),
    {
        &self.table
    }

    /// The reply to a query that has no question: a server failure, sent without routing.
    /// `None` when the query has a question and is to be routed.
    pub fn reject_empty(query: &Message) -> (r: Option<Message>)
        ensures
            r is Some <==> query.queries@.len() == 0,
            match r {
                Some(m) => is_servfail_for(m, *query),
                None => true,
            },
    {
        if query.queries.len() == 0 {
            Some(servfail(query))
        } else {
            None
        }
    }

    /// The reply to `query` once routing is over: the routed response under a header that
    /// answers the query, or a server failure with the query's identifier and operation
    /// code when routing failed.
    pub fn reply<E>(query: &Message, routed: Result<Message, E>) -> (r: Message)
        ensures
            r.id == query.id,
            r.opcode == query.opcode,
            r.qr,
            match routed {
                Ok(resp) => r.rd == query.rd && r.rcode == resp.rcode && r.queries == resp.queries
                    && r.answers == resp.answers,
                Err(_) => is_servfail_for(r, *query),
            },
    {
        match routed {
            Ok(resp) => finalize(query, resp),
            Err(_) => servfail(query),
        }
    }
}

/// The rules of a table and the tags of the declared upstreams, to build a router from.
pub struct RouterBuilder {
    table: TableBuilder,
    upstreams: Vec<String>,
}

impl RouterBuilder {
    pub closed spec fn table_view(&self) -> TableBuilder {
        self.table
    }

    /// The tags of the declared upstreams.
    pub closed spec fn upstreams_view(&self) -> Seq<String> {
        self.upstreams@
    }

    pub fn new(table: TableBuilder, upstreams: Vec<String>) -> (r: Self)
        ensures
            r.table_view() == table,
            r.upstreams_view() == upstreams@,
    {
        RouterBuilder { table, upstreams }
    }

    /// Builds the table, then the router (see `Table::new` and `Router::new`).
    pub fn build(self) -> (r: Result<Router, RouterError>)
        requires
            self.table_view().wf(),
        ensures
            r is Ok <==> (valid_table(self.table_view()@) && forall|u: Seq<char>|
                table_uses(self.table_view()@, u) ==> #[trigger] lists(self.upstreams_view(), u)),
            !valid_table(self.table_view()@) <==> r matches Err(RouterError::Table(_)),
            r matches Err(RouterError::MissingUpstream(u)) ==> table_uses(self.table_view()@, u@)
                && !lists(self.upstreams_view(), u@),
            r matches Ok(router) ==> router.wf() && router.table_view().rules() == self.table_view()@
                && router.upstreams_view() == self.upstreams_view(),
    {
        let ghost rules = self.table_view()@;
        let ghost ups = self.upstreams_view();
        assert(ups == self.upstreams@);
        let built = self.table.build();
        assert(built is Ok <==> valid_table(rules));
        proof {
            if !valid_table(rules) {
                assert(built is Err);
            }
        }
        match built {
            Ok(t) => {
                assert(valid_table(rules));
                let r = Router::new(t, self.upstreams);
                assert(t.rules() == rules);
                proof {
                    match &r {
                        Ok(_) => {
                            assert forall|u: Seq<char>| table_uses(rules, u) implies #[trigger] lists(ups, u) by {
                                assert(table_uses(t.rules(), u));
                            }
                        },
                        Err(RouterError::MissingUpstream(x)) => {
                            assert(table_uses(rules, x@) && !lists(ups, x@));
                        },
                        Err(RouterError::Table(_)) => {},
                    }
                }
                r
            },
            Err(e) => Err(RouterError::Table(e)),
        }
    }
}

} // verus!
