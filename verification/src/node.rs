//! Tree nodes: one literal path segment each, with static children keyed by
//! first character and at most one wildcard child.

use vstd::prelude::*;

verus! {

/// The role a node plays in the tree.
#[derive(Clone, Copy, Debug, PartialEq, Eq, Structural)]
pub enum Kind {
    Root,
    Static,
    Parameter,
    CatchAll,
}

/// A segment of a registered path.  `indices` mirrors the first character
/// of each static child, position by position; `wild_child` is the at most
/// one `Parameter`/`CatchAll` child; `route` is the opaque handler payload
/// of a fully registered pattern, stored verbatim.
pub struct Node {
    pub kind: Kind,
    pub path: String,
    pub route: Option<u64>,
    pub indices: String,
    pub children: Vec<Node>,
    pub wild_child: Option<Box<Node>>,
}

/// The mathematical shape of a node: the same tree with every string read
/// as a character sequence.
#[verifier::ext_equal]
pub ghost struct NodeModel {
    pub kind: Kind,
    pub path: Seq<char>,
    pub route: Option<u64>,
    pub indices: Seq<char>,
    pub children: Seq<NodeModel>,
    pub wild: Option<Box<NodeModel>>,
}

pub open spec fn node_model(n: Node) -> NodeModel
    decreases n,
{
    NodeModel {
        kind: n.kind,
        path: n.path@,
        route: n.route,
        indices: n.indices@,
        children: Seq::new(
            n.children@.len(),
            |i: int|
                if 0 <= i < n.children@.len() {
                    node_model(n.children@[i])
                } else {
                    arbitrary()
                },
        ),
        wild: match n.wild_child {
            Some(w) => Some(Box::new(node_model(*w))),
            None => None,
        },
    }
}

impl View for Node {
    type V = NodeModel;

    open spec fn view(&self) -> NodeModel {
        node_model(*self)
    }
}

/// Index of the first occurrence of `c` in `s`, or -1 if there is none.
pub open spec fn char_index(s: Seq<char>, c: char) -> int
    decreases s.len(),
{
    if s.len() == 0 {
        -1
    } else if s[0] == c {
        0
    } else if char_index(s.skip(1), c) == -1 {
        -1
    } else {
        char_index(s.skip(1), c) + 1
    }
}

/// A scan that saw no `c` through index `n` has determined `char_index`.
pub proof fn lemma_char_index_is(s: Seq<char>, c: char, n: int)
    requires
        0 <= n <= s.len(),
        forall|i: int| 0 <= i < n ==> s[i] != c,
        n < s.len() ==> s[n] == c,
    ensures
        char_index(s, c) == if n == s.len() { -1int } else { n },
    decreases n,
{
    if n > 0 {
        assert forall|i: int| 0 <= i < n - 1 implies s.skip(1)[i] != c by {
            assert(s.skip(1)[i] == s[i + 1]);
        }
        assert(n - 1 < s.skip(1).len() ==> s.skip(1)[n - 1] == c);
        lemma_char_index_is(s.skip(1), c, n - 1);
    }
}

/// What `char_index` says of the string when it finds an index or reports
/// that there is none.
pub proof fn lemma_char_index_props(s: Seq<char>, c: char)
    ensures
        char_index(s, c) == -1 ==> forall|i: int| 0 <= i < s.len() ==> s[i] != c,
        char_index(s, c) != -1 ==> 0 <= char_index(s, c) < s.len() && s[char_index(s, c)] == c
            && forall|i: int| 0 <= i < char_index(s, c) ==> s[i] != c,
    decreases s.len(),
{
    if s.len() == 0 {
    } else if s[0] == c {
    } else {
        lemma_char_index_props(s.skip(1), c);
        assert forall|i: int| 0 <= i < s.len() && (char_index(s, c) == -1
            || i < char_index(s, c)) implies s[i] != c by {
            if i > 0 {
                assert(s.skip(1)[i - 1] == s[i]);
            }
        }
    }
}

/// The structural invariant of the tree.  Static children are keyed by
/// their first character, first characters are unique among siblings, a
/// wildcard child carries its sigil and closing slash, and a catch-all
/// node terminates its branch.
pub open spec fn wf_model(m: NodeModel) -> bool
    decreases m,
{
    &&& m.indices.len() == m.children.len()
    &&& forall|i: int| 0 <= i < m.children.len() ==> (#[trigger] m.children[i]).path.len() >= 1
    &&& forall|i: int| 0 <= i < m.children.len() ==> (#[trigger] m.children[i]).path[0]
        == m.indices[i]
    &&& forall|i: int| 0 <= i < m.children.len() ==> (#[trigger] m.children[i]).kind
        == Kind::Static
    &&& forall|i: int, j: int| 0 <= i < j < m.indices.len() ==> m.indices[i] != m.indices[j]
    &&& forall|i: int| 0 <= i < m.children.len() ==> wf_model(#[trigger] m.children[i])
    &&& match m.wild {
        Some(w) => {
            &&& (w.kind == Kind::Parameter || w.kind == Kind::CatchAll)
            &&& w.path.len() >= 2
            &&& (w.path[0] == ':' <==> w.kind == Kind::Parameter)
            &&& (w.path[0] == '*' <==> w.kind == Kind::CatchAll)
            &&& w.path[w.path.len() - 1] == '/'
            &&& wf_model(*w)
        },
        None => true,
    }
    &&& m.kind == Kind::CatchAll ==> m.children.len() == 0 && m.wild is None
}

/// Create a fresh node holding the given segment: no children, no wildcard
/// child, no handler.
pub fn create_node(path: &str, kind: Kind) -> (n: Node)
    ensures
        n@ == (NodeModel {
            kind,
            path: path@,
            route: None,
            indices: Seq::<char>::empty(),
            children: Seq::<NodeModel>::empty(),
            wild: None,
        }),
{
    let n = Node {
        path: path.to_owned(),
        route: None,
        kind,
        indices: String::new(),
        children: Vec::new(),
        wild_child: None,
    };
    proof {
        assert(n@.children =~= Seq::<NodeModel>::empty());
        assert(n@ =~= (NodeModel {
            kind,
            path: path@,
            route: None,
            indices: Seq::<char>::empty(),
            children: Seq::<NodeModel>::empty(),
            wild: None,
        }));
    }
    n
}

/// The model of a node after a split at `k`: a fresh static node holding
/// the first `k` characters of the segment, whose only child is the
/// original node demoted and shortened by those characters.
pub open spec fn split_model(m: NodeModel, k: int) -> NodeModel {
    NodeModel {
        kind: Kind::Static,
        path: m.path.take(k),
        route: None,
        indices: seq![m.path[k]],
        children: seq![
            NodeModel {
                kind: m.kind,
                path: m.path.skip(k),
                route: m.route,
                indices: m.indices,
                children: m.children,
                wild: m.wild,
            }
        ],
        wild: None,
    }
}

/// Split a node at `prefix`: the node's identity (kind, shortened segment,
/// children, wildcard child, handler) is demoted to a child of a new
/// static node that holds exactly the prefix.
pub fn split_node(node: &mut Node, prefix: &String)
    requires
        prefix@.is_prefix_of(old(node).path@),
        prefix@.len() < old(node).path@.len(),
    ensures
        final(node)@ == split_model(old(node)@, prefix@.len() as int),
{
    let plen = prefix.as_str().unicode_len();
    let mut swap_value = create_node(prefix.as_str(), Kind::Static);
    core::mem::swap(node, &mut swap_value);
    let full_len = swap_value.path.as_str().unicode_len();
    swap_value.path = swap_value.path.as_str().substring_char(plen, full_len).to_owned();
    node.indices = swap_value.path.as_str().substring_char(0, 1).to_owned();
    proof {
        assert(node.indices@ =~= seq![old(node).path@[plen as int]]);
        assert(swap_value@ == (NodeModel {
            kind: old(node)@.kind,
            path: old(node)@.path.skip(plen as int),
            route: old(node)@.route,
            indices: old(node)@.indices,
            children: old(node)@.children,
            wild: old(node)@.wild,
        }));
    }
    node.children.push(swap_value);
    proof {
        assert(final(node)@.children =~= split_model(old(node)@, plen as int).children);
        assert(final(node)@ =~= split_model(old(node)@, plen as int));
    }
}

/// Position of the static child whose segment starts with the first
/// character of `path`, if any.
pub fn find_relatable_node_index(node: &Node, path: &String) -> (r: Option<usize>)
    requires
        path@.len() >= 1,
    ensures
        r matches Some(i) ==> char_index(node@.indices, path@[0]) == i,
        r is None ==> char_index(node@.indices, path@[0]) == -1,
{
    let c = path.as_str().get_char(0);
    let s = node.indices.as_str();
    let n = s.unicode_len();
    let mut i: usize = 0;
    while i < n && s.get_char(i) != c
        invariant
            n == s@.len(),
            i <= n,
            c == path@[0],
            forall|j: int| 0 <= j < i ==> s@[j] != c,
        decreases n - i,
    {
        i = i + 1;
    }
    proof {
        lemma_char_index_is(s@, c, i as int);
    }
    if i == n {
        None
    } else {
        Some(i)
    }
}

/// Append `child` as a new static child, recording its first character in
/// `indices`; returns the child's position.
pub fn insert_node(node: &mut Node, child: Node) -> (r: usize)
    requires
        child.path@.len() >= 1,
    ensures
        final(node)@ == (NodeModel {
            indices: old(node)@.indices.push(child.path@[0]),
            children: old(node)@.children.push(child@),
            ..old(node)@
        }),
        r == old(node)@.children.len(),
{
    let first = child.path.as_str().substring_char(0, 1);
    node.indices.append(first);
    let r = node.children.len();
    node.children.push(child);
    proof {
        assert(final(node)@.indices =~= old(node)@.indices.push(child.path@[0]));
        assert(final(node)@.children =~= old(node)@.children.push(child@));
        assert(final(node)@ =~= (NodeModel {
            indices: old(node)@.indices.push(child.path@[0]),
            children: old(node)@.children.push(child@),
            ..old(node)@
        }));
    }
    r
}

} // verus!
