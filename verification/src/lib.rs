//! A path-based request router built on a compact per-method radix tree.
//!
//! Patterns are normalized (leading slash, collapsed duplicate slashes,
//! trailing slash) and stored in a prefix tree whose nodes own literal
//! segments.  `:name` tokens match exactly one path segment and `*name`
//! tokens match all remaining path text; both bind the matched text under
//! the token's name.

use vstd::prelude::*;

pub mod errors;
pub mod node;
pub mod path;
pub mod tree;
pub mod wildcard;

use crate::errors::RouterError;
use crate::path::clean_path_spec;
use crate::tree::{
    distinct_names, empty_root_model, insert_spec, lemma_insert_err_unchanged, lookup_spec,
    params_map, Route, Tree,
};

verus! {

/// Index of the first entry whose method name reads `m`, or -1.
pub open spec fn tree_index(s: Seq<(String, Tree)>, m: Seq<char>) -> int
    decreases s.len(),
{
    if s.len() == 0 {
        -1
    } else if s[0].0@ == m {
        0
    } else if tree_index(s.skip(1), m) == -1 {
        -1
    } else {
        tree_index(s.skip(1), m) + 1
    }
}

/// A scan that saw no entry for `m` through index `n` has determined
/// `tree_index`.
pub proof fn lemma_tree_index_is(s: Seq<(String, Tree)>, m: Seq<char>, n: int)
    requires
        0 <= n <= s.len(),
        forall|i: int| 0 <= i < n ==> (#[trigger] s[i]).0@ != m,
        n < s.len() ==> s[n].0@ == m,
    ensures
        tree_index(s, m) == if n == s.len() {
            -1int
        } else {
            n
        },
    decreases n,
{
    if n > 0 {
        assert forall|i: int| 0 <= i < n - 1 implies (#[trigger] s.skip(1)[i]).0@ != m by {
            assert(s.skip(1)[i] == s[i + 1]);
        }
        assert(n - 1 < s.skip(1).len() ==> s.skip(1)[n - 1] == s[n]);
        lemma_tree_index_is(s.skip(1), m, n - 1);
    }
}

/// What `tree_index` says of the entries when it finds an index or
/// reports that there is none.
pub proof fn lemma_tree_index_props(s: Seq<(String, Tree)>, m: Seq<char>)
    ensures
        tree_index(s, m) == -1 ==> forall|i: int| 0 <= i < s.len() ==> (#[trigger] s[i]).0@ != m,
        tree_index(s, m) != -1 ==> 0 <= tree_index(s, m) < s.len() && s[tree_index(s, m)].0@ == m
            && forall|i: int| 0 <= i < tree_index(s, m) ==> (#[trigger] s[i]).0@ != m,
    decreases s.len(),
{
    if s.len() == 0 {
    } else if s[0].0@ == m {
    } else {
        lemma_tree_index_props(s.skip(1), m);
        assert forall|i: int|
            0 <= i < s.len() && (tree_index(s, m) == -1 || i < tree_index(s, m)) implies (
        #[trigger] s[i]).0@ != m by {
            if i > 0 {
                assert(s.skip(1)[i - 1] == s[i]);
            }
        }
    }
}

/// The router: one radix tree per HTTP method, the trees created lazily
/// on first registration.  Method names are case-sensitive and unique.
pub struct Router {
    pub routes: Vec<(String, Tree)>,
}

impl Router {
    /// The router invariant: every tree is well formed and method names
    /// are unique.
    pub open spec fn wf(self) -> bool {
        &&& forall|i: int| 0 <= i < self.routes@.len() ==> (#[trigger] self.routes@[i]).1.wf()
        &&& forall|i: int, j: int|
            0 <= i < j < self.routes@.len() ==> self.routes@[i].0@ != self.routes@[j].0@
    }

    pub fn new() -> (r: Router)
        ensures
            r.wf(),
            r.routes@.len() == 0,
    {
        Router { routes: Vec::new() }
    }

    /// Find the position of the tree registered for `method`, scanning in
    /// insertion order.
    fn position(&self, method: &String) -> (r: usize)
        ensures
            r <= self.routes@.len(),
            r == self.routes@.len() ==> tree_index(self.routes@, method@) == -1,
            r < self.routes@.len() ==> tree_index(self.routes@, method@) == r,
    {
        let n = self.routes.len();
        let mut i: usize = 0;
        while i < n && !self.routes[i].0.eq(method)
            invariant
                n == self.routes@.len(),
                i <= n,
                forall|j: int| 0 <= j < i ==> (#[trigger] self.routes@[j]).0@ != method@,
            decreases n - i,
        {
            i = i + 1;
        }
        proof {
            lemma_tree_index_is(self.routes@, method@, i as int);
        }
        i
    }

    /// Register `pattern` under `method`, creating that method's tree on
    /// first use.  The outcome and the tree afterwards are exactly those
    /// of `insert_spec` on the normalized pattern; no other method's
    /// entry changes, and a failed registration leaves the method's tree
    /// as it was (an entry created for the occasion stays empty).
    pub fn add(&mut self, method: String, path: String, handles: u64) -> (r: Result<
        (),
        RouterError,
    >)
        requires
            old(self).wf(),
        ensures
            final(self).wf(),
            ({
                let ti = tree_index(old(self).routes@, method@);
                let cleaned = clean_path_spec(path@);
                if ti == -1 {
                    &&& r == insert_spec(empty_root_model(), cleaned, handles).0
                    &&& final(self).routes@.len() == old(self).routes@.len() + 1
                    &&& final(self).routes@.take(old(self).routes@.len() as int) == old(
                        self,
                    ).routes@
                    &&& final(self).routes@.last().0@ == method@
                    &&& final(self).routes@.last().1.root@ == insert_spec(
                        empty_root_model(),
                        cleaned,
                        handles,
                    ).1
                    &&& r is Err ==> final(self).routes@.last().1.root@ == empty_root_model()
                } else {
                    &&& r == insert_spec(old(self).routes@[ti].1.root@, cleaned, handles).0
                    &&& final(self).routes@.len() == old(self).routes@.len()
                    &&& (forall|j: int|
                        0 <= j < old(self).routes@.len() && j != ti ==> final(self).routes@[j]
                            == old(self).routes@[j])
                    &&& final(self).routes@[ti].0@ == method@
                    &&& final(self).routes@[ti].1.root@ == insert_spec(
                        old(self).routes@[ti].1.root@,
                        cleaned,
                        handles,
                    ).1
                    &&& r is Err ==> final(self).routes@[ti].1.root@ == old(
                        self,
                    ).routes@[ti].1.root@
                }
            }),
    {
        let i = self.position(&method);
        if i < self.routes.len() {
            let (name, mut tree) = self.routes.remove(i);
            let r = tree.add(path, handles);
            let ghost pair_v = (name, tree);
            self.routes.insert(i, (name, tree));
            proof {
                lemma_tree_index_props(old(self).routes@, method@);
                assert(self.routes@ =~= old(self).routes@.update(i as int, pair_v));
                lemma_insert_err_unchanged(
                    old(self).routes@[i as int].1.root@,
                    clean_path_spec(path@),
                    handles,
                );
            }
            r
        } else {
            let mut tree = Tree::new();
            let r = tree.add(path, handles);
            self.routes.push((method, tree));
            proof {
                assert(self.routes@.take(old(self).routes@.len() as int) =~= old(self).routes@);
                lemma_tree_index_props(old(self).routes@, self.routes@.last().0@);
                lemma_insert_err_unchanged(empty_root_model(), clean_path_spec(path@), handles);
            }
            r
        }
    }

    /// Match `path` against the tree registered for `method`.  An
    /// unregistered method yields `None` with no error; otherwise the
    /// result is exactly that of `lookup_spec` on the normalized path.
    pub fn find(&self, method: String, path: String) -> (r: Result<Option<Route>, RouterError>)
        requires
            self.wf(),
        ensures
            r is Ok,
            ({
                let ti = tree_index(self.routes@, method@);
                if ti == -1 {
                    r matches Ok(o) && o is None
                } else {
                    match lookup_spec(
                        self.routes@[ti].1.root@,
                        clean_path_spec(path@),
                        Map::empty(),
                    ) {
                        Some(ans) => {
                            &&& r matches Ok(Some(rt))
                            &&& params_map(rt.parameters@) == ans.0
                            &&& distinct_names(rt.parameters@)
                            &&& rt.handles == ans.1
                        },
                        None => r matches Ok(o) && o is None,
                    }
                }
            }),
    {
        let i = self.position(&method);
        if i < self.routes.len() {
            let pair = &self.routes[i];
            pair.1.lookup(path)
        } else {
            Ok(None)
        }
    }
}

/// A pattern registered under one method never affects another method:
/// after `add` under `method` (which either appends that method's fresh
/// entry or rewrites that method's entry in place), the entry `find`
/// consults for any other method is the entry it consulted before.
pub proof fn lemma_method_isolation(
    before: Seq<(String, Tree)>,
    after: Seq<(String, Tree)>,
    method: Seq<char>,
    other: Seq<char>,
)
    requires
        other != method,
        ({
            let ti = tree_index(before, method);
            ||| (ti == -1 && after.len() == before.len() + 1 && after.take(before.len() as int)
                == before && after.last().0@ == method)
            ||| (0 <= ti < before.len() && after.len() == before.len() && (forall|j: int|
                0 <= j < before.len() && j != ti ==> after[j] == before[j]) && after[ti].0@
                == method)
        }),
    ensures
        tree_index(after, other) == tree_index(before, other),
        tree_index(before, other) >= 0 ==> after[tree_index(before, other)] == before[tree_index(
            before,
            other,
        )],
{
    lemma_tree_index_props(before, other);
    lemma_tree_index_props(before, method);
    let ti = tree_index(before, method);
    let oi = tree_index(before, other);
    if ti == -1 {
        assert(forall|j: int| 0 <= j < before.len() ==> after[j] == before[j]);
        if oi == -1 {
            lemma_tree_index_is(after, other, after.len() as int);
        } else {
            lemma_tree_index_is(after, other, oi);
        }
    } else {
        assert(forall|j: int|
            0 <= j < after.len() ==> ((#[trigger] after[j]).0@ == other <==> before[j].0@
                == other));
        if oi == -1 {
            lemma_tree_index_is(after, other, after.len() as int);
        } else {
            assert(oi != ti);
            lemma_tree_index_is(after, other, oi);
        }
    }
}

} // verus!
