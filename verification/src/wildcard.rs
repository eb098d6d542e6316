//! Scanning a path fragment for a `:name` or `*name` token, and extracting
//! the text such a token matched during lookup.

use vstd::prelude::*;
use crate::errors::RouterError;
use crate::node::Kind;

verus! {

/// Result of scanning a fragment: the literal text before the token, the
/// token itself (sigil included, and the closing `/` when one closes it),
/// and the literal text after it.
pub struct Wildcard {
    pub kind: Kind,
    pub prefix: String,
    pub wildcard: String,
    pub suffix: String,
}

/// A character that opens a wildcard token.
pub open spec fn is_sigil(c: char) -> bool {
    c == ':' || c == '*'
}

/// A character that closes an open wildcard token, or illegally re-opens one.
pub open spec fn is_stop(c: char) -> bool {
    is_sigil(c) || c == '/'
}

/// Index of the first sigil in `s`, or -1 if there is none.
pub open spec fn first_sigil(s: Seq<char>) -> int
    decreases s.len(),
{
    if s.len() == 0 {
        -1
    } else if is_sigil(s[0]) {
        0
    } else if first_sigil(s.skip(1)) == -1 {
        -1
    } else {
        first_sigil(s.skip(1)) + 1
    }
}

/// Index of the first sigil or slash in `s`, or -1 if there is none.
pub open spec fn first_stop(s: Seq<char>) -> int
    decreases s.len(),
{
    if s.len() == 0 {
        -1
    } else if is_stop(s[0]) {
        0
    } else if first_stop(s.skip(1)) == -1 {
        -1
    } else {
        first_stop(s.skip(1)) + 1
    }
}

/// Index of the first slash in `s`, or -1 if there is none.
pub open spec fn first_slash(s: Seq<char>) -> int
    decreases s.len(),
{
    if s.len() == 0 {
        -1
    } else if s[0] == '/' {
        0
    } else if first_slash(s.skip(1)) == -1 {
        -1
    } else {
        first_slash(s.skip(1)) + 1
    }
}

/// A scan that saw no sigil through index `n` has determined `first_sigil`.
pub proof fn lemma_first_sigil_is(s: Seq<char>, n: int)
    requires
        0 <= n <= s.len(),
        forall|i: int| 0 <= i < n ==> !is_sigil(s[i]),
        n < s.len() ==> is_sigil(s[n]),
    ensures
        first_sigil(s) == if n == s.len() { -1int } else { n },
    decreases n,
{
    if n > 0 {
        assert forall|i: int| 0 <= i < n - 1 implies !is_sigil(s.skip(1)[i]) by {
            assert(s.skip(1)[i] == s[i + 1]);
        }
        assert(n - 1 < s.skip(1).len() ==> is_sigil(s.skip(1)[n - 1]));
        lemma_first_sigil_is(s.skip(1), n - 1);
    }
}

pub proof fn lemma_first_stop_is(s: Seq<char>, n: int)
    requires
        0 <= n <= s.len(),
        forall|i: int| 0 <= i < n ==> !is_stop(s[i]),
        n < s.len() ==> is_stop(s[n]),
    ensures
        first_stop(s) == if n == s.len() { -1int } else { n },
    decreases n,
{
    if n > 0 {
        assert forall|i: int| 0 <= i < n - 1 implies !is_stop(s.skip(1)[i]) by {
            assert(s.skip(1)[i] == s[i + 1]);
        }
        assert(n - 1 < s.skip(1).len() ==> is_stop(s.skip(1)[n - 1]));
        lemma_first_stop_is(s.skip(1), n - 1);
    }
}

/// What `first_sigil` says of the string when it finds an index or reports
/// that there is none.
pub proof fn lemma_first_sigil_props(s: Seq<char>)
    ensures
        first_sigil(s) == -1 ==> forall|i: int| 0 <= i < s.len() ==> !is_sigil(s[i]),
        first_sigil(s) != -1 ==> 0 <= first_sigil(s) < s.len() && is_sigil(s[first_sigil(s)])
            && forall|i: int| 0 <= i < first_sigil(s) ==> !is_sigil(s[i]),
    decreases s.len(),
{
    if s.len() == 0 {
    } else if is_sigil(s[0]) {
    } else {
        lemma_first_sigil_props(s.skip(1));
        assert forall|i: int| 0 <= i < s.len() && (first_sigil(s) == -1
            || i < first_sigil(s)) implies !is_sigil(s[i]) by {
            if i > 0 {
                assert(s.skip(1)[i - 1] == s[i]);
            }
        }
    }
}

pub proof fn lemma_first_stop_props(s: Seq<char>)
    ensures
        first_stop(s) == -1 ==> forall|i: int| 0 <= i < s.len() ==> !is_stop(s[i]),
        first_stop(s) != -1 ==> 0 <= first_stop(s) < s.len() && is_stop(s[first_stop(s)])
            && forall|i: int| 0 <= i < first_stop(s) ==> !is_stop(s[i]),
    decreases s.len(),
{
    if s.len() == 0 {
    } else if is_stop(s[0]) {
    } else {
        lemma_first_stop_props(s.skip(1));
        assert forall|i: int| 0 <= i < s.len() && (first_stop(s) == -1
            || i < first_stop(s)) implies !is_stop(s[i]) by {
            if i > 0 {
                assert(s.skip(1)[i - 1] == s[i]);
            }
        }
    }
}

pub proof fn lemma_first_slash_props(s: Seq<char>)
    ensures
        first_slash(s) == -1 ==> forall|i: int| 0 <= i < s.len() ==> s[i] != '/',
        first_slash(s) != -1 ==> 0 <= first_slash(s) < s.len() && s[first_slash(s)] == '/'
            && forall|i: int| 0 <= i < first_slash(s) ==> s[i] != '/',
    decreases s.len(),
{
    if s.len() == 0 {
    } else if s[0] == '/' {
    } else {
        lemma_first_slash_props(s.skip(1));
        assert forall|i: int| 0 <= i < s.len() && (first_slash(s) == -1
            || i < first_slash(s)) implies s[i] != '/' by {
            if i > 0 {
                assert(s.skip(1)[i - 1] == s[i]);
            }
        }
    }
}

/// Whether the fragment contains a wildcard token at all.
pub open spec fn fw_has(s: Seq<char>) -> bool {
    first_sigil(s) >= 0
}

/// Where the token opens.
pub open spec fn fw_start(s: Seq<char>) -> int {
    first_sigil(s)
}

/// Index of the first sigil or slash after the opening sigil, or -1.
pub open spec fn fw_stop(s: Seq<char>) -> int {
    if first_stop(s.skip(fw_start(s) + 1)) == -1 {
        -1
    } else {
        fw_start(s) + 1 + first_stop(s.skip(fw_start(s) + 1))
    }
}

/// A second sigil re-opens a token before the first one closes.
pub open spec fn fw_err(s: Seq<char>) -> bool {
    fw_has(s) && fw_stop(s) != -1 && is_sigil(s[fw_stop(s)])
}

/// Where the token ends (exclusive); the closing `/`, if any, is included.
pub open spec fn fw_end(s: Seq<char>) -> int {
    if fw_stop(s) == -1 {
        s.len() as int
    } else {
        fw_stop(s) + 1
    }
}

pub open spec fn fw_kind(s: Seq<char>) -> Kind {
    if s[fw_start(s)] == ':' {
        Kind::Parameter
    } else {
        Kind::CatchAll
    }
}

pub open spec fn fw_prefix(s: Seq<char>) -> Seq<char> {
    s.take(fw_start(s))
}

pub open spec fn fw_token(s: Seq<char>) -> Seq<char> {
    s.subrange(fw_start(s), fw_end(s))
}

pub open spec fn fw_suffix(s: Seq<char>) -> Seq<char> {
    s.skip(fw_end(s))
}

/// Slice the scanned fragment into the three parts around its token.
pub fn create_wildcard(path: &str, start: usize, end: usize, kind: Kind) -> (w: Wildcard)
    requires
        start <= end <= path@.len(),
    ensures
        w.kind == kind,
        w.prefix@ == path@.take(start as int),
        w.wildcard@ == path@.subrange(start as int, end as int),
        w.suffix@ == path@.skip(end as int),
{
    let len = path.unicode_len();
    Wildcard {
        kind,
        prefix: path.substring_char(0, start).to_owned(),
        wildcard: path.substring_char(start, end).to_owned(),
        suffix: path.substring_char(end, len).to_owned(),
    }
}

/// Scan a fragment left to right for a wildcard token.  The first `:` or
/// `*` opens the token and fixes its kind; the token closes at the next
/// `/` (included in the token) or at the end of the fragment.  A second
/// sigil before the token closes is an error.
pub fn find_wildcard(path: String) -> (r: Result<Option<Wildcard>, RouterError>)
    ensures
        r is Err <==> fw_err(path@),
        r matches Err(e) ==> e == RouterError::MultipleWildcardSegments,
        r == Ok::<Option<Wildcard>, RouterError>(None::<Wildcard>) <==> !fw_has(path@),
        r matches Ok(Some(w)) ==> {
            &&& fw_has(path@)
            &&& !fw_err(path@)
            &&& w.kind == fw_kind(path@)
            &&& w.prefix@ == fw_prefix(path@)
            &&& w.wildcard@ == fw_token(path@)
            &&& w.suffix@ == fw_suffix(path@)
        },
{
    let s = path.as_str();
    let n = s.unicode_len();
    let mut i: usize = 0;
    while i < n && !(s.get_char(i) == ':' || s.get_char(i) == '*')
        invariant
            n == s@.len(),
            i <= n,
            forall|j: int| 0 <= j < i ==> !is_sigil(s@[j]),
        decreases n - i,
    {
        i = i + 1;
    }
    proof {
        lemma_first_sigil_is(s@, i as int);
    }
    if i == n {
        return Ok(None);
    }
    let start = i;
    let kind = if s.get_char(start) == ':' {
        Kind::Parameter
    } else {
        Kind::CatchAll
    };
    let ghost tail = s@.skip(start as int + 1);
    let mut j: usize = start + 1;
    while j < n && !(s.get_char(j) == ':' || s.get_char(j) == '*' || s.get_char(j) == '/')
        invariant
            n == s@.len(),
            start < j <= n,
            tail == s@.skip(start as int + 1),
            forall|k: int| start < k < j ==> !is_stop(s@[k]),
        decreases n - j,
    {
        j = j + 1;
    }
    proof {
        assert forall|k: int| 0 <= k < j - start - 1 implies !is_stop(tail[k]) by {
            assert(tail[k] == s@[start + 1 + k]);
        }
        if j < n {
            assert(tail[j - start - 1] == s@[j as int]);
        }
        lemma_first_stop_is(tail, j - start - 1);
    }
    if j == n {
        return Ok(Some(create_wildcard(s, start, n, kind)));
    }
    let c = s.get_char(j);
    if c == '/' {
        Ok(Some(create_wildcard(s, start, j + 1, kind)))
    } else {
        Err(RouterError::MultipleWildcardSegments)
    }
}

/// Recover the text a wildcard node matched: for a parameter, the path text
/// up to (excluding) the next `/`; for a catch-all, the whole remaining
/// path with the normalizer's final `/` removed.
pub fn extract_parameter(path: String, kind: Kind) -> (r: String)
    requires
        kind == Kind::Parameter || kind == Kind::CatchAll,
        kind == Kind::Parameter ==> first_slash(path@) >= 0,
        kind == Kind::CatchAll ==> path@.len() >= 1,
    ensures
        kind == Kind::Parameter ==> r@ == path@.take(first_slash(path@)),
        kind == Kind::CatchAll ==> r@ == path@.take(path@.len() - 1),
{
    let s = path.as_str();
    let n = s.unicode_len();
    if kind == Kind::Parameter {
        proof {
            lemma_first_slash_props(path@);
        }
        let ghost fs = first_slash(path@);
        let mut i: usize = 0;
        while s.get_char(i) != '/'
            invariant
                n == s@.len(),
                0 <= fs < n,
                s@[fs] == '/',
                forall|k: int| 0 <= k < fs ==> s@[k] != '/',
                i <= fs,
            decreases fs - i,
        {
            i = i + 1;
        }
        s.substring_char(0, i).to_owned()
    } else {
        s.substring_char(0, n - 1).to_owned()
    }
}

} // verus!
