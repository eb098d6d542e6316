//! The per-method radix tree: insertion with common-prefix splitting and
//! the lookup/match algorithm.

use vstd::prelude::*;
use crate::errors::RouterError;
use crate::node::{
    char_index, create_node, find_relatable_node_index, insert_node, lemma_char_index_props,
    split_model, split_node, wf_model, Kind, Node, NodeModel,
};
use crate::path::{
    clean_path, clean_path_spec, common_len, find_common, lemma_clean_path_spec_clean,
    lemma_common_len_bounds, norm_from,
};
use crate::wildcard::{
    extract_parameter, find_wildcard, first_slash, first_sigil, first_stop, fw_end, fw_err,
    fw_has, fw_kind, fw_prefix, fw_start, fw_stop, fw_suffix, fw_token, is_sigil, is_stop,
    lemma_first_sigil_is, lemma_first_sigil_props, lemma_first_slash_props,
    lemma_first_stop_props,
};
use crate::node::lemma_char_index_is;

verus! {

/// A successful match: the extracted parameter bindings, in the order the
/// tree bound them, and the stored handler payload.
pub struct Route {
    pub parameters: Vec<(String, String)>,
    pub handles: u64,
}

/// The mapping a parameter list denotes: later bindings of a name win.
pub open spec fn params_map(s: Seq<(String, String)>) -> Map<Seq<char>, Seq<char>>
    decreases s.len(),
{
    if s.len() == 0 {
        Map::empty()
    } else {
        params_map(s.drop_last()).insert(s.last().0@, s.last().1@)
    }
}

/// What looking a path up under a node yields: the final parameter mapping
/// (on top of the bindings `acc` accumulated so far) and the handler, or
/// nothing.  The path must begin with the node's segment; after stripping
/// it, static children are tried by first character, then the wildcard
/// child.  A parameter child consumes one segment, a catch-all child all
/// remaining text save the final slash.
pub open spec fn lookup_spec(
    m: NodeModel,
    path: Seq<char>,
    acc: Map<Seq<char>, Seq<char>>,
) -> Option<(Map<Seq<char>, Seq<char>>, u64)>
    decreases path.len(),
{
    if m.path.len() == 0 || !m.path.is_prefix_of(path) {
        None
    } else {
        let rest = path.skip(m.path.len() as int);
        if rest.len() == 0 {
            match m.route {
                Some(h) => Some((acc, h)),
                None => None,
            }
        } else {
            let ci = char_index(m.indices, rest[0]);
            if 0 <= ci < m.children.len() {
                lookup_spec(m.children[ci], rest, acc)
            } else if ci >= 0 {
                None
            } else {
                match m.wild {
                    Some(w) => lookup_wild_spec(*w, rest, acc),
                    None => None,
                }
            }
        }
    }
}

/// The wildcard step of lookup: bind the child's name to the text it
/// matches, stop there if that consumes the path, else continue below a
/// static grandchild.
pub open spec fn lookup_wild_spec(
    w: NodeModel,
    rest: Seq<char>,
    acc: Map<Seq<char>, Seq<char>>,
) -> Option<(Map<Seq<char>, Seq<char>>, u64)>
    decreases rest.len(),
{
    let name = w.path.subrange(1, w.path.len() - 1);
    if w.kind == Kind::Parameter {
        let fs = first_slash(rest);
        if fs < 0 || fs + 1 > rest.len() {
            None
        } else {
            let value = rest.take(fs);
            let acc2 = acc.insert(name, value);
            if rest.len() == fs + 1 {
                match w.route {
                    Some(h) => Some((acc2, h)),
                    None => None,
                }
            } else {
                let rest2 = rest.skip(fs + 1);
                let ci2 = char_index(w.indices, rest2[0]);
                if 0 <= ci2 < w.children.len() {
                    lookup_spec(w.children[ci2], rest2, acc2)
                } else {
                    None
                }
            }
        }
    } else if w.kind == Kind::CatchAll {
        let value = rest.take(rest.len() - 1);
        let acc2 = acc.insert(name, value);
        match w.route {
            Some(h) => Some((acc2, h)),
            None => None,
        }
    } else {
        None
    }
}

/// What registering a pattern under a node yields: the outcome and the
/// node afterwards.  On an error the node is handed back unchanged: no
/// failed registration leaves any trace in the tree.
pub open spec fn insert_spec(m: NodeModel, path: Seq<char>, handler: u64) -> (Result<
    (),
    RouterError,
>, NodeModel)
    decreases path.len(), 0int,
{
    let cl = common_len(path, m.path) as int;
    if path.len() == 0 || cl == 0 || cl > path.len() {
        (Ok(()), m)  // the entry segment always shares its first character
    } else {
        let m1 = if cl < m.path.len() {
            split_model(m, cl)
        } else {
            m
        };
        let excess = path.skip(cl);
        if excess.len() == 0 {
            if m1.route is Some {
                (Err(RouterError::DuplicateRoute), m)
            } else {
                (Ok(()), NodeModel { route: Some(handler), ..m1 })
            }
        } else {
            let ci = char_index(m1.indices, excess[0]);
            if 0 <= ci < m1.children.len() {
                let r = insert_spec(m1.children[ci], excess, handler);
                if r.0 is Err {
                    (r.0, m)
                } else {
                    (r.0, NodeModel { children: m1.children.update(ci, r.1), ..m1 })
                }
            } else if ci >= 0 {
                (Ok(()), m1)  // indices longer than children: never well-formed
            } else if fw_err(excess) {
                (Err(RouterError::MultipleWildcardSegments), m)
            } else if fw_has(excess) {
                let prefix = fw_prefix(excess);
                let token = fw_token(excess);
                let suffix = fw_suffix(excess);
                if token.len() + suffix.len() >= path.len() {
                    (Ok(()), m1)  // never: the token lies within the excess
                } else if prefix.len() > 0 {
                    let fresh = NodeModel {
                        kind: Kind::Static,
                        path: prefix,
                        route: None,
                        indices: Seq::<char>::empty(),
                        children: Seq::<NodeModel>::empty(),
                        wild: None,
                    };
                    let r = insert_wild_spec(fresh, token, fw_kind(excess), suffix, handler);
                    if r.0 is Err {
                        (r.0, m)
                    } else {
                        (
                            r.0,
                            NodeModel {
                                indices: m1.indices.push(prefix[0]),
                                children: m1.children.push(r.1),
                                ..m1
                            },
                        )
                    }
                } else {
                    let r = insert_wild_spec(m1, token, fw_kind(excess), suffix, handler);
                    if r.0 is Err {
                        (r.0, m)
                    } else {
                        r
                    }
                }
            } else {
                let fresh = NodeModel {
                    kind: Kind::Static,
                    path: excess,
                    route: Some(handler),
                    indices: Seq::<char>::empty(),
                    children: Seq::<NodeModel>::empty(),
                    wild: None,
                };
                (
                    Ok(()),
                    NodeModel {
                        indices: m1.indices.push(excess[0]),
                        children: m1.children.push(fresh),
                        ..m1
                    },
                )
            }
        }
    }
}

/// The wildcard step of insertion at node `x`: reuse or create the
/// wildcard child for `token`, reject a differing one, reject pattern text
/// after a catch-all, and descend when a suffix follows a parameter.  All
/// rejections come before any change, so an error hands `x` back as it
/// was.
pub open spec fn insert_wild_spec(
    x: NodeModel,
    token: Seq<char>,
    kindc: Kind,
    suffix: Seq<char>,
    handler: u64,
) -> (Result<(), RouterError>, NodeModel)
    decreases token.len() + suffix.len(), 1int,
{
    if x.wild is Some && (*x.wild.unwrap()).path != token {
        (Err(RouterError::DuplicateParameter), x)
    } else if suffix.len() > 0 && kindc == Kind::CatchAll {
        (Err(RouterError::RouteAfterCatchAll), x)
    } else {
        let w = if x.wild is Some {
            *x.wild.unwrap()
        } else {
            NodeModel {
                kind: kindc,
                path: token,
                route: None,
                indices: Seq::<char>::empty(),
                children: Seq::<NodeModel>::empty(),
                wild: None,
            }
        };
        if suffix.len() > 0 {
            let r = insert_spec(w, token + suffix, handler);
            if r.0 is Err {
                (r.0, x)
            } else {
                (r.0, NodeModel { wild: Some(Box::new(r.1)), ..x })
            }
        } else {
            if w.route is Some {
                (Err(RouterError::DuplicateRoute), x)
            } else {
                (
                    Ok(()),
                    NodeModel { wild: Some(Box::new(NodeModel { route: Some(handler), ..w })), ..x },
                )
            }
        }
    }
}

/// One method's tree: the root node and the entry points for mutation and
/// matching.
pub struct Tree {
    pub root: Node,
}

/// The root of a tree with nothing registered yet.
pub open spec fn empty_root_model() -> NodeModel {
    NodeModel {
        kind: Kind::Root,
        path: seq!['/'],
        route: None,
        indices: Seq::<char>::empty(),
        children: Seq::<NodeModel>::empty(),
        wild: None,
    }
}

impl Tree {
    /// The tree invariant: a well-formed node structure under a root node
    /// that owns exactly the segment `/`.
    pub open spec fn wf(self) -> bool {
        &&& wf_model(self.root@)
        &&& self.root@.kind == Kind::Root
        &&& self.root@.path == seq!['/']
    }

    pub fn new() -> (t: Tree)
        ensures
            t.wf(),
            t.root@ == empty_root_model(),
    {
        proof {
            reveal_strlit("/");
            assert("/"@ =~= seq!['/']);
        }
        Tree { root: create_node("/", Kind::Root) }
    }

    /// Register `path` (normalized first) with its handler payload.  The
    /// result and the tree afterwards are exactly those of `insert_spec`
    /// on the normalized pattern; a failed registration leaves the tree
    /// unchanged.
    pub fn add(&mut self, path: String, handles: u64) -> (r: Result<(), RouterError>)
        requires
            old(self).wf(),
        ensures
            final(self).wf(),
            r == insert_spec(old(self).root@, clean_path_spec(path@), handles).0,
            final(self).root@ == insert_spec(old(self).root@, clean_path_spec(path@), handles).1,
            r is Err ==> final(self).root@ == old(self).root@,
    {
        let cleaned = clean_path(path);
        let mut tmp = create_node("/", Kind::Root);
        proof {
            reveal_strlit("/");
        }
        core::mem::swap(&mut self.root, &mut tmp);
        proof {
            assert(cleaned@[0] == '/');
            assert(old(self).root@.path.is_prefix_of(cleaned@)) by {
                assert(cleaned@.take(1) =~= seq!['/']);
            }
        }
        let (st, newroot) = insert_at(tmp, cleaned, handles);
        self.root = newroot;
        proof {
            assert(final(self).root@.path =~= seq!['/']) by {
                let cl = common_len(clean_path_spec(path@), old(self).root@.path);
                lemma_common_len_bounds(clean_path_spec(path@), old(self).root@.path);
                assert(cl == 1);
                assert(clean_path_spec(path@).take(1) =~= seq!['/']);
            }
        }
        st
    }

    /// Match `path` (normalized first) against the tree.  Lookup never
    /// produces an error; its result is exactly that of `lookup_spec` on
    /// the normalized path with no bindings accumulated.
    pub fn lookup(&self, path: String) -> (r: Result<Option<Route>, RouterError>)
        requires
            self.wf(),
        ensures
            r is Ok,
            match lookup_spec(self.root@, clean_path_spec(path@), Map::empty()) {
                Some(ans) => {
                    &&& r matches Ok(Some(rt))
                    &&& params_map(rt.parameters@) == ans.0
                    &&& distinct_names(rt.parameters@)
                    &&& rt.handles == ans.1
                },
                None => r matches Ok(o) && o is None,
            },
    {
        let cleaned = clean_path(path);
        let mut parameters: Vec<(String, String)> = Vec::new();
        proof {
            assert(params_map(parameters@) =~= Map::<Seq<char>, Seq<char>>::empty());
        }
        match lookup_at(&self.root, cleaned.as_str(), &mut parameters) {
            Some(h) => Ok(Some(Route { parameters, handles: h })),
            None => Ok(None),
        }
    }
}

/// Registration, running from one node down: split the node if its segment
/// overshoots the pattern, then descend into a matching static child, the
/// wildcard machinery, or a fresh static child.
#[verifier::rlimit(100)]
fn insert_at(node: Node, path: String, handler: u64) -> (res: (Result<(), RouterError>, Node))
    requires
        wf_model(node@),
        node@.kind != Kind::CatchAll,
        node@.path.len() >= 1,
        path@.len() >= 1,
        path@[path@.len() - 1] == '/',
        path@[0] == node@.path[0],
        node@.kind != Kind::Static ==> node@.path.is_prefix_of(path@),
    ensures
        res.0 == insert_spec(node@, path@, handler).0,
        res.1@ == insert_spec(node@, path@, handler).1,
        wf_model(res.1@),
        res.1@.kind == node@.kind,
        res.1@.path.len() >= 1,
        res.1@.path[0] == node@.path[0],
        res.0 is Ok ==> res.1@.path == path@.take(common_len(path@, node@.path) as int),
        res.0 is Err ==> res.1@ == node@,
    decreases path@.len(), 0int,
{
    let mut node = node;
    let ghost m0 = node@;
    let parsed = find_common(path.clone(), node.path.clone());
    let ghost cl = common_len(path@, m0.path) as int;
    proof {
        lemma_common_len_bounds(path@, m0.path);
        assert(cl >= 1);
    }
    let did_split = parsed.node_excess.as_str().unicode_len() > 0;
    if did_split {
        proof {
            assert(parsed.common@.is_prefix_of(node.path@)) by {
                assert(parsed.common@ =~= node.path@.take(cl));
            }
        }
        split_node(&mut node, &parsed.common);
    }
    let ghost m1 = node@;
    proof {
        if cl < m0.path.len() {
            assert(m1 == split_model(m0, cl));
            lemma_split_wf(m0, cl, path@);
        }
        assert(m1.path =~= path@.take(cl));
    }
    let excess_len = parsed.target_excess.as_str().unicode_len();
    if excess_len > 0 {
        let ghost excess = path@.skip(cl);
        proof {
            assert(excess[excess.len() - 1] == path@[path@.len() - 1]);
            lemma_char_index_props(m1.indices, excess[0]);
        }
        if let Some(index) = find_relatable_node_index(&node, &parsed.target_excess) {
            proof {
                assert(index < node@.children.len());
                assert(node.children@.len() == node@.children.len());
            }
            let ghost cv = node.children@;
            let child = node.children.remove(index);
            proof {
                assert(child@ == m1.children[index as int]);
                assert(excess[0] == child@.path[0]);
            }
            let (st, child2) = insert_at(child, parsed.target_excess, handler);
            node.children.insert(index, child2);
            proof {
                assert(node.children@ =~= cv.update(index as int, child2));
                assert forall|i: int| 0 <= i < node@.children.len() implies node@.children[i]
                    == m1.children.update(index as int, child2@)[i] by {
                    if i != index {
                        assert(node.children@[i] == cv[i]);
                    }
                }
                assert(node@.children =~= m1.children.update(index as int, child2@));
                assert(!did_split) by {
                    if cl < m0.path.len() {
                        assert(m1.indices =~= seq![m0.path[cl]]);
                        assert(m0.path[cl] != path@[cl]);
                        assert(m1.indices.skip(1) =~= Seq::<char>::empty());
                        assert(char_index(m1.indices, excess[0]) == -1);
                    }
                }
                if st is Err {
                    assert(child2@ == m1.children[index as int]);
                    assert(m1.children.update(index as int, child2@) =~= m1.children);
                    assert(node@ =~= m0);
                } else {
                    assert(node@ =~= (NodeModel {
                        children: m1.children.update(
                            index as int,
                            insert_spec(m1.children[index as int], excess, handler).1,
                        ),
                        ..m1
                    }));
                }
                assert(wf_model(node@)) by {
                    assert(forall|i: int|
                        0 <= i < node@.children.len() && i != index ==> node@.children[i]
                            == m1.children[i]);
                }
            }
            (st, node)
        } else {
            match find_wildcard(parsed.target_excess.clone()) {
                Err(e) => {
                    let mut node = node;
                    if did_split {
                        node = restore_split(node);
                    }
                    proof {
                        assert(node@ =~= m0);
                    }
                    (Err(e), node)
                },
                Ok(None) => {
                    let mut child = create_node(parsed.target_excess.as_str(), Kind::Static);
                    child.route = Some(handler);
                    insert_node(&mut node, child);
                    proof {
                        assert(node@ =~= insert_spec(m0, path@, handler).1);
                        assert(wf_model(node@)) by {
                            assert(forall|i: int|
                                0 <= i < m1.children.len() ==> node@.children[i]
                                    == m1.children[i]);
                            assert(node@.children.last() == child@);
                            assert(wf_model(child@));
                            assert(forall|i: int|
                                0 <= i < m1.indices.len() ==> m1.indices[i] != excess[0]);
                            assert forall|i: int, j: int|
                                0 <= i < j < node@.indices.len() implies node@.indices[i]
                                != node@.indices[j] by {
                                if j == m1.indices.len() {
                                    assert(node@.indices[i] == m1.indices[i]);
                                }
                            }
                        }
                    }
                    (Ok(()), node)
                },
                Ok(Some(w)) => {
                    proof {
                        lemma_token_shape(excess);
                        assert(fw_token(excess).len() + fw_suffix(excess).len() < path@.len());
                    }
                    if w.prefix.as_str().unicode_len() > 0 {
                        let fresh = create_node(w.prefix.as_str(), Kind::Static);
                        let (st, x2) = insert_wild(fresh, w.wildcard, w.kind, w.suffix, handler);
                        match st {
                            Err(e) => {
                                let mut node = node;
                                if did_split {
                                    node = restore_split(node);
                                }
                                proof {
                                    assert(node@ =~= m0);
                                }
                                (Err(e), node)
                            },
                            Ok(u) => {
                                insert_node(&mut node, x2);
                                proof {
                                    assert(node@ =~= insert_spec(m0, path@, handler).1);
                                    assert(wf_model(node@)) by {
                                        assert(forall|i: int|
                                            0 <= i < m1.children.len() ==> node@.children[i]
                                                == m1.children[i]);
                                        assert(fw_prefix(excess)[0] == excess[0]);
                                    }
                                }
                                (Ok(u), node)
                            },
                        }
                    } else {
                        proof {
                            assert(fw_token(excess)[0] == excess[0]) by {
                                assert(fw_prefix(excess).len() == 0);
                            }
                        }
                        let (st, node2) = insert_wild(node, w.wildcard, w.kind, w.suffix, handler);
                        match st {
                            Err(e) => {
                                let mut node2 = node2;
                                proof {
                                    assert(node2@ == m1);
                                }
                                if did_split {
                                    node2 = restore_split(node2);
                                }
                                proof {
                                    assert(node2@ =~= m0);
                                }
                                (Err(e), node2)
                            },
                            Ok(u) => (Ok(u), node2),
                        }
                    }
                },
            }
        }
    } else {
        if node.route.is_some() {
            proof {
                assert(!did_split);
                assert(node@ =~= m0);
            }
            (Err(RouterError::DuplicateRoute), node)
        } else {
            node.route = Some(handler);
            proof {
                assert(node@ =~= (NodeModel { route: Some(handler), ..m1 }));
            }
            (Ok(()), node)
        }
    }
}

/// A split node stays well formed: the demoted identity keeps every
/// invariant, and the new parent holds it as its only child.
proof fn lemma_split_wf(m: NodeModel, cl: int, path: Seq<char>)
    requires
        wf_model(m),
        m.kind == Kind::Static || m.path.is_prefix_of(path),
        0 < cl < m.path.len(),
        common_len(path, m.path) == cl,
        path.len() >= cl,
    ensures
        wf_model(split_model(m, cl)),
        split_model(m, cl).kind == Kind::Static,
{
    lemma_common_len_bounds(path, m.path);
    assert(m.kind == Kind::Static) by {
        if m.kind != Kind::Static {
            crate::path::lemma_common_len_prefix(path, m.path);
        }
    }
    let d = split_model(m, cl).children[0];
    assert(wf_model(d));
}

/// Undo a split that an error made moot: merge the single demoted child
/// back into the node, so it reads exactly as it did before the split.
fn restore_split(node: Node) -> (r: Node)
    requires
        node@.children.len() == 1,
        node@.indices.len() == 1,
    ensures
        r@ == (NodeModel {
            kind: node@.children[0].kind,
            path: node@.path + node@.children[0].path,
            route: node@.children[0].route,
            indices: node@.children[0].indices,
            children: node@.children[0].children,
            wild: node@.children[0].wild,
        }),
{
    let ghost n0 = node@;
    let mut node = node;
    let mut child = node.children.pop().unwrap();
    proof {
        assert(child@ == n0.children[0]);
    }
    let ghost c0 = child@;
    let combined = node.path.clone().concat(child.path.as_str());
    child.path = combined;
    proof {
        assert(child@ =~= (NodeModel { path: n0.path + c0.path, ..c0 }));
    }
    child
}

/// A failed registration hands the node back unchanged: every error
/// branch of `insert_spec` returns the node it started from.
pub proof fn lemma_insert_err_unchanged(m: NodeModel, path: Seq<char>, handler: u64)
    ensures
        insert_spec(m, path, handler).0 is Err ==> insert_spec(m, path, handler).1 == m,
{
}

/// In a normalized fragment that ends with `/`, a wildcard token always
/// closes at a `/`, so the token ends with `/`, is at least two characters
/// long, and opens with its sigil.
proof fn lemma_token_shape(excess: Seq<char>)
    requires
        excess.len() >= 1,
        excess[excess.len() - 1] == '/',
        fw_has(excess),
        !fw_err(excess),
    ensures
        fw_token(excess).len() >= 2,
        fw_token(excess)[0] == excess[fw_start(excess)],
        is_sigil(fw_token(excess)[0]),
        fw_token(excess)[fw_token(excess).len() - 1] == '/',
        fw_suffix(excess).len() > 0 ==> fw_suffix(excess)[fw_suffix(excess).len() - 1] == '/',
        fw_prefix(excess).len() > 0 ==> fw_prefix(excess)[0] == excess[0],
        fw_prefix(excess).len() == 0 ==> fw_token(excess)[0] == excess[0],
        fw_prefix(excess).len() + fw_token(excess).len() + fw_suffix(excess).len()
            == excess.len(),
        fw_prefix(excess).len() == fw_start(excess),
        fw_suffix(excess).len() > 0 ==> fw_suffix(excess)[0] == excess[fw_end(excess)],
{
    lemma_first_sigil_props(excess);
    let st = fw_start(excess);
    assert(st != excess.len() - 1) by {
        assert(excess[excess.len() - 1] == '/');
    }
    let tail = excess.skip(st + 1);
    lemma_first_stop_props(tail);
    assert(tail.len() >= 1);
    assert(tail[tail.len() - 1] == excess[excess.len() - 1]);
    assert(first_stop(tail) != -1) by {
        if first_stop(tail) == -1 {
            assert(!is_stop(tail[tail.len() - 1]));
        }
    }
    let fst = first_stop(tail);
    assert(fw_stop(excess) == st + 1 + fst);
    assert(excess[fw_stop(excess)] == tail[fst]);
    assert(is_stop(excess[fw_stop(excess)]));
    assert(excess[fw_stop(excess)] == '/');
    assert(fw_end(excess) == fw_stop(excess) + 1);
    assert(fw_token(excess)[fw_token(excess).len() - 1] == excess[fw_stop(excess)]);
    assert(fw_token(excess)[0] == excess[st]);
    if fw_prefix(excess).len() > 0 {
        assert(fw_prefix(excess)[0] == excess[0]);
    } else {
        assert(st == 0);
    }
}

/// The wildcard step of registration at an owned node.
fn insert_wild(x: Node, token: String, kindc: Kind, suffix: String, handler: u64) -> (res: (
    Result<(), RouterError>,
    Node,
))
    requires
        wf_model(x@),
        x@.kind != Kind::CatchAll,
        token@.len() >= 2,
        is_sigil(token@[0]),
        token@[0] == ':' <==> kindc == Kind::Parameter,
        token@[0] == '*' <==> kindc == Kind::CatchAll,
        token@[token@.len() - 1] == '/',
        suffix@.len() > 0 ==> suffix@[suffix@.len() - 1] == '/',
    ensures
        res.0 == insert_wild_spec(x@, token@, kindc, suffix@, handler).0,
        res.1@ == insert_wild_spec(x@, token@, kindc, suffix@, handler).1,
        wf_model(res.1@),
        res.1@.kind == x@.kind,
        res.1@.path == x@.path,
    decreases token@.len() + suffix@.len(), 1int,
{
    let mut x = x;
    let ghost x0 = x@;
    let had = x.wild_child.is_some();
    let taken = x.wild_child.take();
    let mut w_node: Node;
    match taken {
        Some(b) => {
            let inner = *b;
            if !inner.path.eq(&token) {
                x.wild_child = Some(Box::new(inner));
                proof {
                    assert(x@ =~= x0);
                    assert(x0.wild is Some);
                    assert(*x0.wild.unwrap() == inner@);
                    assert(inner@.path != token@);
                    assert(insert_wild_spec(x0, token@, kindc, suffix@, handler) == (
                        Err::<(), RouterError>(RouterError::DuplicateParameter),
                        x0,
                    ));
                    assert(wf_model(x@));
                }
                return (Err(RouterError::DuplicateParameter), x);
            }
            w_node = inner;
        },
        None => {
            w_node = create_node(token.as_str(), kindc);
        },
    }
    let ghost wm = w_node@;
    proof {
        assert(wm.path == token@);
        assert(wm.kind == kindc);
        assert(wf_model(wm));
        assert(had ==> x0.wild == Some(Box::new(wm)));
    }
    let suffix_len = suffix.as_str().unicode_len();
    if suffix_len > 0 && kindc == Kind::CatchAll {
        if had {
            x.wild_child = Some(Box::new(w_node));
        }
        proof {
            assert(x@ =~= x0);
        }
        return (Err(RouterError::RouteAfterCatchAll), x);
    }
    if suffix_len > 0 {
        let combined = token.concat(suffix.as_str());
        proof {
            assert(combined@[0] == token@[0]);
            assert(combined@[combined@.len() - 1] == suffix@[suffix@.len() - 1]);
            assert(wm.path.is_prefix_of(combined@)) by {
                assert(combined@.take(token@.len() as int) =~= token@);
            }
        }
        let (st, w2) = insert_at(w_node, combined, handler);
        proof {
            assert(w2@.path =~= token@) by {
                if st is Err {
                } else {
                    lemma_common_len_bounds(token@ + suffix@, token@);
                    assert(common_len(token@ + suffix@, token@) == token@.len());
                    assert((token@ + suffix@).take(token@.len() as int) =~= token@);
                }
            }
        }
        match st {
            Err(e) => {
                if had {
                    x.wild_child = Some(Box::new(w2));
                }
                proof {
                    assert(w2@ == wm);
                    assert(x@ =~= x0);
                }
                (Err(e), x)
            },
            Ok(u) => {
                x.wild_child = Some(Box::new(w2));
                proof {
                    assert(x@ =~= (NodeModel {
                        wild: Some(Box::new(insert_spec(wm, token@ + suffix@, handler).1)),
                        ..x0
                    }));
                }
                (Ok(u), x)
            },
        }
    } else {
        if w_node.route.is_some() {
            x.wild_child = Some(Box::new(w_node));
            proof {
                assert(had);
                assert(x@ =~= x0);
            }
            (Err(RouterError::DuplicateRoute), x)
        } else {
            w_node.route = Some(handler);
            proof {
                assert(w_node@ =~= (NodeModel { route: Some(handler), ..wm }));
                assert(wf_model(w_node@));
            }
            x.wild_child = Some(Box::new(w_node));
            proof {
                assert(x@ =~= (NodeModel {
                    wild: Some(Box::new(NodeModel { route: Some(handler), ..wm })),
                    ..x0
                }));
            }
            (Ok(()), x)
        }
    }
}

/// Parameter names pairwise distinct, as the match result requires.
pub open spec fn distinct_names(s: Seq<(String, String)>) -> bool {
    forall|i: int, j: int| 0 <= i < j < s.len() ==> s[i].0@ != s[j].0@
}

/// Rebinding the one entry that holds a name denotes the same mapping as
/// inserting that name afresh.
proof fn lemma_params_map_update(s: Seq<(String, String)>, i: int, p: (String, String))
    requires
        0 <= i < s.len(),
        s[i].0@ == p.0@,
        distinct_names(s),
    ensures
        params_map(s.update(i, p)) == params_map(s).insert(p.0@, p.1@),
    decreases s.len(),
{
    let t = s.update(i, p);
    if i == s.len() - 1 {
        assert(t.drop_last() =~= s.drop_last());
        assert(t.last() == p);
        assert(s.last().0@ == p.0@);
        assert(params_map(s.drop_last()).insert(s.last().0@, s.last().1@).insert(p.0@, p.1@)
            =~= params_map(s.drop_last()).insert(p.0@, p.1@));
    } else {
        assert(t.drop_last() =~= s.drop_last().update(i, p));
        assert(s.drop_last()[i] == s[i]);
        assert(distinct_names(s.drop_last())) by {
            assert(forall|a: int, b: int|
                0 <= a < b < s.drop_last().len() ==> s.drop_last()[a] == s[a]
                    && s.drop_last()[b] == s[b]);
        }
        lemma_params_map_update(s.drop_last(), i, p);
        assert(t.last() == s.last());
        assert(s.last().0@ != p.0@) by {
            assert(s[i].0@ != s[s.len() - 1].0@);
        }
        assert(params_map(s.drop_last()).insert(p.0@, p.1@).insert(s.last().0@, s.last().1@)
            =~= params_map(s.drop_last()).insert(s.last().0@, s.last().1@).insert(p.0@, p.1@));
    }
}

/// Bind `name` to `value`: overwrite the entry already holding the name,
/// else append.  The denoted mapping gains exactly this binding and names
/// stay pairwise distinct.
fn bind_parameter(parameters: &mut Vec<(String, String)>, name: String, value: String)
    requires
        distinct_names(old(parameters)@),
    ensures
        params_map(final(parameters)@) == params_map(old(parameters)@).insert(name@, value@),
        distinct_names(final(parameters)@),
{
    let n = parameters.len();
    let mut i: usize = 0;
    while i < n && !parameters[i].0.eq(&name)
        invariant
            n == parameters@.len(),
            i <= n,
            parameters@ == old(parameters)@,
            forall|j: int| 0 <= j < i ==> (#[trigger] parameters@[j]).0@ != name@,
        decreases n - i,
    {
        i = i + 1;
    }
    if i < n {
        let pair = (name, value);
        let ghost p = pair;
        parameters[i] = pair;
        proof {
            assert(parameters@ == old(parameters)@.update(i as int, p));
            lemma_params_map_update(old(parameters)@, i as int, p);
            assert forall|a: int, b: int|
                0 <= a < b < parameters@.len() implies parameters@[a].0@ != parameters@[b].0@ by {
                if a != i && b != i {
                    assert(parameters@[a] == old(parameters)@[a]);
                    assert(parameters@[b] == old(parameters)@[b]);
                }
            }
        }
    } else {
        let pair = (name, value);
        let ghost p = pair;
        parameters.push(pair);
        proof {
            assert(parameters@.drop_last() =~= old(parameters)@);
            assert(parameters@.last() == p);
            assert forall|a: int, b: int|
                0 <= a < b < parameters@.len() implies parameters@[a].0@ != parameters@[b].0@ by {
                if b < old(parameters)@.len() {
                    assert(parameters@[a] == old(parameters)@[a]);
                    assert(parameters@[b] == old(parameters)@[b]);
                } else {
                    assert(parameters@[a] == old(parameters)@[a]);
                    assert(parameters@[b].0@ == name@);
                }
            }
        }
    }
}

/// Matching, running from one node down: require the path to begin with
/// the node's segment, strip it, and descend into a static child or the
/// wildcard child, binding parameters along the way.
fn lookup_at(node: &Node, path: &str, parameters: &mut Vec<(String, String)>) -> (r: Option<u64>)
    requires
        wf_model(node@),
        node@.path.len() >= 1,
        path@.len() >= 1,
        path@[path@.len() - 1] == '/',
        distinct_names(old(parameters)@),
    ensures
        match lookup_spec(node@, path@, params_map(old(parameters)@)) {
            Some(ans) => r == Some(ans.1) && params_map(final(parameters)@) == ans.0,
            None => r is None,
        },
        distinct_names(final(parameters)@),
    decreases path@.len(),
{
    let ghost acc = params_map(parameters@);
    let plen = node.path.as_str().unicode_len();
    let slen = path.unicode_len();
    if plen > slen {
        proof {
            assert(!node@.path.is_prefix_of(path@));
        }
        return None;
    }
    let head = path.substring_char(0, plen).to_owned();
    if !head.eq(&node.path) {
        proof {
            assert(!node@.path.is_prefix_of(path@)) by {
                assert(head@ == path@.take(plen as int));
            }
        }
        return None;
    }
    proof {
        assert(node@.path.is_prefix_of(path@)) by {
            assert(path@.take(plen as int) == head@);
        }
    }
    if plen == slen {
        proof {
            assert(path@.skip(plen as int) =~= Seq::<char>::empty());
        }
        return node.route;
    }
    let rest = path.substring_char(plen, slen);
    proof {
        assert(rest@ == path@.skip(plen as int));
        assert(rest@[rest@.len() - 1] == path@[path@.len() - 1]);
        lemma_char_index_props(node@.indices, rest@[0]);
    }
    let rest_string = rest.to_owned();
    if let Some(index) = find_relatable_node_index(node, &rest_string) {
        proof {
            assert(index < node@.children.len());
            assert(node.children@.len() == node@.children.len());
        }
        let child = &node.children[index];
        proof {
            assert(child@ == node@.children[index as int]);
        }
        return lookup_at(child, rest, parameters);
    }
    match &node.wild_child {
        Some(w) => {
            let wref: &Node = w;
            proof {
                assert(node@.wild matches Some(b) && *b == wref@);
                assert(wf_model(wref@));
            }
            let wplen = wref.path.as_str().unicode_len();
            let name = wref.path.as_str().substring_char(1, wplen - 1).to_owned();
            proof {
                if wref.kind == Kind::Parameter {
                    lemma_first_slash_props(rest@);
                    if first_slash(rest@) == -1 {
                        assert(rest@[rest@.len() - 1] == '/');
                        assert(false);
                    }
                }
            }
            let value = extract_parameter(rest.to_owned(), wref.kind);
            let vlen = value.as_str().unicode_len();
            let ghost name_s = wref@.path.subrange(1, wref@.path.len() - 1);
            bind_parameter(parameters, name, value);
            proof {
                assert(params_map(parameters@) == acc.insert(name_s, rest@.take(vlen as int)));
            }
            let rlen = rest.unicode_len();
            if rlen == vlen + 1 {
                proof {
                    assert(lookup_spec(node@, path@, acc) == lookup_wild_spec(
                        wref@,
                        rest@,
                        acc,
                    ));
                    assert(lookup_wild_spec(wref@, rest@, acc) == match wref@.route {
                        Some(h) => Some((params_map(parameters@), h)),
                        None => None::<(Map<Seq<char>, Seq<char>>, u64)>,
                    });
                }
                return wref.route;
            }
            proof {
                assert(wref@.kind == Kind::Parameter);
                assert(vlen + 1 < rlen) by {
                    lemma_first_slash_props(rest@);
                }
            }
            let rest2 = rest.substring_char(vlen + 1, rlen);
            proof {
                assert(rest2@ == rest@.skip(vlen + 1));
                assert(rest2@[rest2@.len() - 1] == rest@[rest@.len() - 1]);
                lemma_char_index_props(wref@.indices, rest2@[0]);
            }
            let rest2_string = rest2.to_owned();
            if let Some(i2) = find_relatable_node_index(wref, &rest2_string) {
                proof {
                    assert(i2 < wref@.children.len());
                    assert(wref.children@.len() == wref@.children.len());
                    assert(lookup_spec(node@, path@, acc) == lookup_spec(
                        wref@.children[i2 as int],
                        rest2@,
                        params_map(parameters@),
                    ));
                }
                let gc = &wref.children[i2];
                proof {
                    assert(gc@ == wref@.children[i2 as int]);
                }
                return lookup_at(gc, rest2, parameters);
            }
            proof {
                assert(lookup_spec(node@, path@, acc) == lookup_wild_spec(wref@, rest@, acc));
                assert(lookup_wild_spec(wref@, rest@, acc) is None);
            }
            None
        },
        None => None,
    }
}

/// Normalization introduces no `:` or `*`: every character of the result
/// is a `/` or a character of the input.
proof fn lemma_norm_no_sigil(s: Seq<char>, acc: Seq<char>, last: char)
    requires
        forall|i: int| 0 <= i < acc.len() ==> !is_sigil(#[trigger] acc[i]),
        forall|i: int| 0 <= i < s.len() ==> !is_sigil(#[trigger] s[i]),
    ensures
        forall|i: int|
            0 <= i < norm_from(s, acc, last).len() ==> !is_sigil(
                #[trigger] norm_from(s, acc, last)[i],
            ),
    decreases s.len(),
{
    if s.len() == 0 {
        if last != '/' {
            assert forall|i: int| 0 <= i < acc.push('/').len() implies !is_sigil(
                #[trigger] acc.push('/')[i],
            ) by {
                if i < acc.len() {
                    assert(acc.push('/')[i] == acc[i]);
                } else {
                    assert(acc.push('/')[i] == '/');
                }
            }
        }
    } else if s[0] == '/' && last == '/' {
        assert forall|i: int| 0 <= i < s.skip(1).len() implies !is_sigil(
            #[trigger] s.skip(1)[i],
        ) by {
            assert(s.skip(1)[i] == s[i + 1]);
        }
        lemma_norm_no_sigil(s.skip(1), acc, last);
        assert(norm_from(s, acc, last) == norm_from(s.skip(1), acc, last));
    } else {
        assert forall|i: int| 0 <= i < s.skip(1).len() implies !is_sigil(
            #[trigger] s.skip(1)[i],
        ) by {
            assert(s.skip(1)[i] == s[i + 1]);
        }
        assert forall|i: int| 0 <= i < acc.push(s[0]).len() implies !is_sigil(
            #[trigger] acc.push(s[0])[i],
        ) by {
            if i < acc.len() {
                assert(acc.push(s[0])[i] == acc[i]);
            } else {
                assert(acc.push(s[0])[i] == s[0]);
            }
        }
        lemma_norm_no_sigil(s.skip(1), acc.push(s[0]), s[0]);
        assert(norm_from(s, acc, last) == norm_from(s.skip(1), acc.push(s[0]), s[0]));
    }
}

/// The heart of the static round trip: on a wildcard-free normalized
/// path, a successful insertion leaves a tree in which looking the same
/// path up finds exactly the handler just stored, with no bindings added.
proof fn lemma_insert_lookup_static(
    m: NodeModel,
    path: Seq<char>,
    h: u64,
    acc: Map<Seq<char>, Seq<char>>,
)
    requires
        wf_model(m),
        m.kind != Kind::CatchAll,
        m.path.len() >= 1,
        path.len() >= 1,
        path[path.len() - 1] == '/',
        path[0] == m.path[0],
        m.kind != Kind::Static ==> m.path.is_prefix_of(path),
        forall|i: int| 0 <= i < path.len() ==> !is_sigil(#[trigger] path[i]),
        insert_spec(m, path, h).0 is Ok,
    ensures
        lookup_spec(insert_spec(m, path, h).1, path, acc) == Some((acc, h)),
    decreases path.len(),
{
    lemma_common_len_bounds(path, m.path);
    let cl = common_len(path, m.path) as int;
    assert(cl >= 1);
    let m1 = if cl < m.path.len() {
        split_model(m, cl)
    } else {
        m
    };
    if cl < m.path.len() {
        lemma_split_wf(m, cl, path);
    }
    assert(m1.path =~= path.take(cl));
    let excess = path.skip(cl);
    assert forall|i: int| 0 <= i < excess.len() implies !is_sigil(#[trigger] excess[i]) by {
        assert(excess[i] == path[cl + i]);
    }
    assert(first_sigil(excess) == -1) by {
        lemma_first_sigil_is(excess, excess.len() as int);
    }
    let mr = insert_spec(m, path, h).1;
    assert(mr.path == m1.path);
    assert(mr.path.is_prefix_of(path)) by {
        assert(path.take(mr.path.len() as int) =~= mr.path);
    }
    if excess.len() == 0 {
        assert(m1.route is None);
        assert(mr == (NodeModel { route: Some(h), ..m1 }));
        assert(path.skip(mr.path.len() as int).len() == 0);
    } else {
        assert(excess[excess.len() - 1] == path[path.len() - 1]);
        let ci = char_index(m1.indices, excess[0]);
        lemma_char_index_props(m1.indices, excess[0]);
        assert(path.skip(mr.path.len() as int) =~= excess);
        if 0 <= ci < m1.children.len() {
            let child = m1.children[ci];
            assert(excess[0] == child.path[0]);
            lemma_insert_lookup_static(child, excess, h, acc);
            assert(mr == (NodeModel {
                children: m1.children.update(ci, insert_spec(child, excess, h).1),
                ..m1
            }));
            assert(char_index(mr.indices, excess[0]) == ci);
            assert(mr.children[ci] == insert_spec(child, excess, h).1);
        } else {
            assert(ci == -1);
            assert(!fw_has(excess) && !fw_err(excess));
            let fresh = NodeModel {
                kind: Kind::Static,
                path: excess,
                route: Some(h),
                indices: Seq::<char>::empty(),
                children: Seq::<NodeModel>::empty(),
                wild: None,
            };
            assert(mr == (NodeModel {
                indices: m1.indices.push(excess[0]),
                children: m1.children.push(fresh),
                ..m1
            }));
            assert(char_index(mr.indices, excess[0]) == m1.indices.len()) by {
                assert(forall|j: int|
                    0 <= j < m1.indices.len() ==> #[trigger] mr.indices[j] != excess[0]);
                assert(mr.indices[m1.indices.len() as int] == excess[0]);
                lemma_char_index_is(mr.indices, excess[0], m1.indices.len() as int);
            }
            assert(mr.children[m1.indices.len() as int] == fresh);
            assert(lookup_spec(fresh, excess, acc) == Some((acc, h))) by {
                assert(fresh.path.is_prefix_of(excess));
                assert(excess.skip(fresh.path.len() as int).len() == 0);
            }
        }
    }
}

/// A pattern with no wildcards, once registered, is found again: looking
/// up the normalized pattern in the tree that a successful registration
/// produced yields exactly the registered handler and an empty parameter
/// mapping.  Since lookup normalizes its input and normalization is
/// idempotent, the same holds for the raw pattern and for its normalized
/// form alike.
pub proof fn lemma_static_round_trip(root: NodeModel, pattern: Seq<char>, h: u64)
    requires
        wf_model(root),
        root.kind == Kind::Root,
        root.path == seq!['/'],
        forall|i: int| 0 <= i < pattern.len() ==> !is_sigil(#[trigger] pattern[i]),
        insert_spec(root, clean_path_spec(pattern), h).0 is Ok,
    ensures
        lookup_spec(
            insert_spec(root, clean_path_spec(pattern), h).1,
            clean_path_spec(pattern),
            Map::<Seq<char>, Seq<char>>::empty(),
        ) == Some((Map::<Seq<char>, Seq<char>>::empty(), h)),
{
    let c = clean_path_spec(pattern);
    lemma_clean_path_spec_clean(pattern);
    assert(forall|i: int| 0 <= i < seq!['/'].len() ==> !is_sigil(#[trigger] seq!['/'][i]));
    lemma_norm_no_sigil(pattern, seq!['/'], '/');
    assert(root.path.is_prefix_of(c)) by {
        assert(c.take(1) =~= seq!['/']);
    }
    lemma_insert_lookup_static(root, c, h, Map::<Seq<char>, Seq<char>>::empty());
}

} // verus!
