//! Path normalization and common-prefix splitting.

use vstd::prelude::*;

verus! {

/// Result of comparing a target path against a node's stored segment:
/// the longest shared prefix and the two remainders.
pub struct Path {
    pub common: String,
    pub node_excess: String,
    pub target_excess: String,
}

/// Length of the longest common prefix of two character sequences.
pub open spec fn common_len(a: Seq<char>, b: Seq<char>) -> nat
    decreases a.len(),
{
    if a.len() == 0 || b.len() == 0 || a[0] != b[0] {
        0
    } else {
        (1 + common_len(a.skip(1), b.skip(1))) as nat
    }
}

pub proof fn lemma_common_len_bounds(a: Seq<char>, b: Seq<char>)
    ensures
        common_len(a, b) <= a.len(),
        common_len(a, b) <= b.len(),
        forall|i: int| 0 <= i < common_len(a, b) ==> a[i] == b[i],
        common_len(a, b) < a.len() && common_len(a, b) < b.len() ==> a[common_len(a, b) as int]
            != b[common_len(a, b) as int],
    decreases a.len(),
{
    if a.len() == 0 || b.len() == 0 || a[0] != b[0] {
    } else {
        lemma_common_len_bounds(a.skip(1), b.skip(1));
        assert forall|i: int| 0 <= i < common_len(a, b) implies a[i] == b[i] by {
            if i > 0 {
                assert(a.skip(1)[i - 1] == b.skip(1)[i - 1]);
            }
        }
        let cl = common_len(a, b) as int;
        if cl < a.len() && cl < b.len() {
            assert(a.skip(1)[cl - 1] == a[cl]);
            assert(b.skip(1)[cl - 1] == b[cl]);
        }
    }
}

/// A scan that stops at the first mismatch (or either end) has found
/// exactly the longest common prefix.
pub proof fn lemma_common_len_is(a: Seq<char>, b: Seq<char>, n: nat)
    requires
        n <= a.len(),
        n <= b.len(),
        forall|i: int| 0 <= i < n ==> a[i] == b[i],
        n < a.len() && n < b.len() ==> a[n as int] != b[n as int],
    ensures
        common_len(a, b) == n,
    decreases n,
{
    if n == 0 {
    } else {
        assert(a[0] == b[0]);
        assert forall|i: int| 0 <= i < n - 1 implies a.skip(1)[i] == b.skip(1)[i] by {
            assert(a[i + 1] == b[i + 1]);
        }
        lemma_common_len_is(a.skip(1), b.skip(1), (n - 1) as nat);
    }
}

/// When one string is a prefix of the other, the whole prefix is common.
pub proof fn lemma_common_len_prefix(a: Seq<char>, b: Seq<char>)
    requires
        b.is_prefix_of(a),
    ensures
        common_len(a, b) == b.len(),
    decreases b.len(),
{
    if b.len() > 0 {
        assert(b[0] == a[0]);
        assert(b.skip(1) =~= a.skip(1).take(b.len() - 1));
        assert(b.skip(1).is_prefix_of(a.skip(1)));
        lemma_common_len_prefix(a.skip(1), b.skip(1));
    }
}

/// Longest-common-prefix split: `common` is the maximal run of equal
/// characters from the start of both strings, and the two excess strings
/// are the respective remainders.
pub fn find_common(target_path: String, node_path: String) -> (r: Path)
    ensures
        r.common@ == target_path@.take(common_len(target_path@, node_path@) as int),
        r.common@ == node_path@.take(common_len(target_path@, node_path@) as int),
        r.target_excess@ == target_path@.skip(common_len(target_path@, node_path@) as int),
        r.node_excess@ == node_path@.skip(common_len(target_path@, node_path@) as int),
{
    let a = target_path.as_str();
    let b = node_path.as_str();
    let a_len = a.unicode_len();
    let b_len = b.unicode_len();
    let mut n: usize = 0;
    while n < a_len && n < b_len && a.get_char(n) == b.get_char(n)
        invariant
            a_len == a@.len(),
            b_len == b@.len(),
            n <= a_len,
            n <= b_len,
            forall|i: int| 0 <= i < n ==> a@[i] == b@[i],
        decreases a_len - n,
    {
        n = n + 1;
    }
    proof {
        lemma_common_len_is(a@, b@, n as nat);
    }
    Path {
        common: a.substring_char(0, n).to_owned(),
        node_excess: b.substring_char(n, b_len).to_owned(),
        target_excess: a.substring_char(n, a_len).to_owned(),
    }
}

/// One step of normalization: consume `s`, appending to `acc`, where `last`
/// is the character most recently appended; duplicate slashes are dropped
/// and a final slash is guaranteed.
pub open spec fn norm_from(s: Seq<char>, acc: Seq<char>, last: char) -> Seq<char>
    decreases s.len(),
{
    if s.len() == 0 {
        if last != '/' {
            acc.push('/')
        } else {
            acc
        }
    } else if s[0] == '/' && last == '/' {
        norm_from(s.skip(1), acc, last)
    } else {
        norm_from(s.skip(1), acc.push(s[0]), s[0])
    }
}

/// The canonical form of a path: starts with `/`, no two consecutive `/`,
/// ends with `/`.
pub open spec fn clean_path_spec(s: Seq<char>) -> Seq<char> {
    norm_from(s, seq!['/'], '/')
}

/// Shape of every normalized path.
pub open spec fn is_clean(s: Seq<char>) -> bool {
    &&& s.len() >= 1
    &&& s[0] == '/'
    &&& s[s.len() - 1] == '/'
    &&& forall|i: int| 0 < i < s.len() ==> !((#[trigger] s[i]) == '/' && s[i - 1] == '/')
}

pub proof fn lemma_norm_from_clean(s: Seq<char>, acc: Seq<char>, last: char)
    requires
        acc.len() >= 1,
        acc[0] == '/',
        acc[acc.len() - 1] == last,
        forall|i: int| 0 < i < acc.len() ==> !((#[trigger] acc[i]) == '/' && acc[i - 1] == '/'),
    ensures
        is_clean(norm_from(s, acc, last)),
        acc.is_prefix_of(norm_from(s, acc, last)),
    decreases s.len(),
{
    if s.len() == 0 {
        if last != '/' {
            assert(acc.is_prefix_of(acc.push('/')));
        }
    } else if s[0] == '/' && last == '/' {
        lemma_norm_from_clean(s.skip(1), acc, last);
    } else {
        lemma_norm_from_clean(s.skip(1), acc.push(s[0]), s[0]);
        assert(acc.is_prefix_of(acc.push(s[0])));
    }
}

/// Every normalized path has the canonical shape.
pub proof fn lemma_clean_path_spec_clean(s: Seq<char>)
    ensures
        is_clean(clean_path_spec(s)),
        clean_path_spec(s)[0] == '/',
{
    lemma_norm_from_clean(s, seq!['/'], '/');
}

/// Normalizing an already-canonical remainder appends it verbatim.
proof fn lemma_norm_from_already(s: Seq<char>, acc: Seq<char>, last: char)
    requires
        acc.len() >= 1,
        acc[acc.len() - 1] == last,
        forall|i: int| 0 < i < s.len() ==> !((#[trigger] s[i]) == '/' && s[i - 1] == '/'),
        s.len() > 0 ==> !(last == '/' && s[0] == '/'),
        s.len() > 0 ==> s[s.len() - 1] == '/',
        s.len() == 0 ==> last == '/',
    ensures
        norm_from(s, acc, last) == acc + s,
    decreases s.len(),
{
    if s.len() == 0 {
        assert(norm_from(s, acc, last) =~= acc + s);
    } else {
        assert(!(s[0] == '/' && last == '/'));
        lemma_norm_from_already(s.skip(1), acc.push(s[0]), s[0]);
        assert(acc.push(s[0]) + s.skip(1) =~= acc + s);
    }
}

/// Normalization is idempotent: a normalized path normalizes to itself.
pub proof fn lemma_clean_path_idempotent(p: Seq<char>)
    ensures
        clean_path_spec(clean_path_spec(p)) == clean_path_spec(p),
{
    let c = clean_path_spec(p);
    lemma_clean_path_spec_clean(p);
    let t = c.skip(1);
    assert forall|i: int| 0 < i < t.len() implies !((#[trigger] t[i]) == '/' && t[i - 1] == '/') by {
        assert(c[i + 1] == t[i] && c[i] == t[i - 1]);
    }
    if t.len() > 0 {
        assert(t[0] == c[1]);
        assert(t[t.len() - 1] == c[c.len() - 1]);
    }
    lemma_norm_from_already(t, seq!['/'], '/');
    assert(clean_path_spec(c) == norm_from(t, seq!['/'], '/')) by {
        assert(c[0] == '/');
    }
    assert(seq!['/'] + t =~= c);
}

/// Normalize a raw path into canonical form: emit a leading `/`, drop any
/// `/` that directly follows another, and guarantee a trailing `/`.
pub fn clean_path(path: String) -> (r: String)
    ensures
        r@ == clean_path_spec(path@),
        is_clean(r@),
{
    proof {
        reveal_strlit("/");
        lemma_clean_path_spec_clean(path@);
    }
    let s = path.as_str();
    let n = s.unicode_len();
    let mut parsed_string = "/".to_owned();
    let mut last_char: char = '/';
    let mut i: usize = 0;
    proof {
        assert(parsed_string@ =~= seq!['/']);
        assert(s@.skip(0) =~= s@);
    }
    while i < n
        invariant
            n == s@.len(),
            i <= n,
            parsed_string@.len() >= 1,
            parsed_string@[parsed_string@.len() - 1] == last_char,
            clean_path_spec(s@) == norm_from(s@.skip(i as int), parsed_string@, last_char),
        decreases n - i,
    {
        let c = s.get_char(i);
        proof {
            assert(s@.skip(i as int)[0] == s@[i as int]);
            assert(s@.skip(i as int).skip(1) =~= s@.skip(i as int + 1));
        }
        if !(c == '/' && last_char == '/') {
            let piece = s.substring_char(i, i + 1);
            proof {
                assert(parsed_string@ + piece@ =~= parsed_string@.push(c));
            }
            parsed_string.append(piece);
            last_char = c;
        }
        i = i + 1;
    }
    proof {
        assert(s@.skip(n as int) =~= Seq::<char>::empty());
    }
    if last_char != '/' {
        proof {
            assert(parsed_string@ + "/"@ =~= parsed_string@.push('/'));
        }
        parsed_string.append("/");
    }
    parsed_string
}

} // verus!
