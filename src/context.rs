//! The per-request context handed to every resolver, and the holder of the
//! current realm tree snapshot from which contexts are made.
use std::sync::Arc;
use vstd::prelude::*;

use crate::realm::{build_error, RealmRow, Tree, TreeError, TreeView};

verus! {

/// Relies on Arc::clone: the new handle shares the value of the old one.
#[verifier::external_body]
fn share(a: &Arc<Tree>) -> (r: Arc<Tree>)
    ensures
        r == *a,
{
    Arc::clone(a)
}

/// The context that is accessible to every resolver of the API: the
/// database connection pool `P` and the realm tree snapshot that was current
/// when the request began.
///
/// A context is never refreshed. Rebuilds install new snapshots in the
/// `TreeStore` and leave this one untouched, so a long-lived subscription
/// keeps the tree as it was when its stream opened; it sees later changes
/// only through a new context.
pub struct Context<P> {
    db: P,
    realm_tree: Arc<Tree>,
}

impl<P> Context<P> {
    /// The pool this context hands to resolvers.
    pub closed spec fn pool(&self) -> P {
        self.db
    }

    /// The snapshot this context reads; fixed for the context's lifetime.
    pub closed spec fn tree_view(&self) -> TreeView {
        (*self.realm_tree)@
    }

    /// A context on `db` that reads the snapshot `realm_tree`. Nothing is
    /// loaded: the snapshot is shared, not copied.
    pub fn new(db: P, realm_tree: Arc<Tree>) -> (r: Context<P>)
        ensures
            r.tree_view() == (*realm_tree)@,
            r.pool() == db,
    {
        Context { db, realm_tree }
    }

    /// The pool through which resolvers reach the database.
    pub fn db(&self) -> (r: &P)
        ensures
            *r == self.pool(),
    {
        &self.db
    }

    /// The realm tree snapshot this context was made with.
    pub fn realm_tree(&self) -> (r: &Tree)
        ensures
            r@ == self.tree_view(),
    {
        &*self.realm_tree
    }
}

/// Holds the realm tree snapshot that new contexts are made with. A rebuild
/// installs a new snapshot; snapshots already handed out are never changed.
pub struct TreeStore {
    current: Arc<Tree>,
}

impl TreeStore {
    /// The snapshot that new contexts get.
    pub closed spec fn current_view(&self) -> TreeView {
        (*self.current)@
    }

    /// A store whose current snapshot is `tree`.
    pub fn new(tree: Tree) -> (r: TreeStore)
        ensures
            r.current_view() == tree@,
    {
        TreeStore { current: Arc::new(tree) }
    }

    /// A shared handle to the current snapshot.
    pub fn snapshot(&self) -> (r: Arc<Tree>)
        ensures
            (*r)@ == self.current_view(),
    {
        share(&self.current)
    }

    /// A context on `db` that reads the current snapshot.
    pub fn context<P>(&self, db: P) -> (r: Context<P>)
        ensures
            r.tree_view() == self.current_view(),
            r.pool() == db,
    {
        Context::new(db, self.snapshot())
    }

    /// Makes `tree` the snapshot that later contexts get.
    pub fn install(&mut self, tree: Tree)
        ensures
            final(self).current_view() == tree@,
    {
        self.current = Arc::new(tree);
    }

    /// Builds a new tree from `rows` and installs it. When the rows are not a
    /// tree, the error is returned and the current snapshot stays in effect.
    pub fn rebuild(&mut self, rows: &Vec<RealmRow>) -> (r: Result<(), TreeError>)
        ensures
            r is Err <==> build_error(rows@) is Some,
            r is Err ==> build_error(rows@) == Some(r->Err_0) && final(self).current_view()
                == old(self).current_view(),
            r is Ok ==> final(self).current_view().wf() && final(self).current_view().built_from(
                rows@,
            ),
    {
        match Tree::build(rows) {
            Ok(tree) => {
                self.install(tree);
                Ok(())
            },
            Err(e) => Err(e),
        }
    }
}

} // verus!
