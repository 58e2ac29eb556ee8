//! Gitignore-style matching of a manifest pattern against a
//! repository-relative path.
//!
//! A pattern ending in `/` names a directory and matches only paths that
//! lie inside it. A pattern whose body contains `/` is anchored to the
//! manifest root; one without `/` matches its named component at any
//! depth. Within the body, `*` matches any run of characters that stays
//! inside one path segment, and `**` matches any run of characters
//! across segment boundaries. A pattern never matches by raw string
//! prefix: after the body is consumed, the path must end or continue
//! with a `/`, so `/src` matches `/src` and `/src/a.rs` but never
//! `/src-legacy/a.rs`.

use vstd::prelude::*;

use crate::chars_of;

verus! {

/// Core matching of a pattern body against a path, both as character
/// sequences. When the body is exhausted, the path must either be
/// exhausted too (the path is exactly the pattern's target) or continue
/// with `/` (the path lies inside the target); with `dir_only`, only
/// paths inside the target match.
pub open spec fn match_core(p: Seq<char>, s: Seq<char>, dir_only: bool) -> bool
    decreases p.len() + s.len(),
{
    if p.len() == 0 {
        if dir_only {
            s.len() > 0 && s[0] == '/'
        } else {
            s.len() == 0 || s[0] == '/'
        }
    } else if p.len() >= 2 && p[0] == '*' && p[1] == '*' {
        ||| match_core(p.skip(2), s, dir_only)
        ||| (p.len() >= 3 && p[2] == '/' && match_core(p.skip(3), s, dir_only))
        ||| (s.len() > 0 && match_core(p, s.skip(1), dir_only))
    } else if p[0] == '*' {
        ||| match_core(p.skip(1), s, dir_only)
        ||| (s.len() > 0 && s[0] != '/' && match_core(p, s.skip(1), dir_only))
    } else {
        s.len() > 0 && p[0] == s[0] && match_core(p.skip(1), s.skip(1), dir_only)
    }
}

/// The pattern names a directory: it ends with `/`.
pub open spec fn is_dir_pattern(p: Seq<char>) -> bool {
    p.len() > 0 && p.last() == '/'
}

/// The pattern without its directory marker, if any.
pub open spec fn pattern_body(p: Seq<char>) -> Seq<char> {
    if is_dir_pattern(p) {
        p.drop_last()
    } else {
        p
    }
}

pub open spec fn has_slash(p: Seq<char>) -> bool {
    exists|i: int| 0 <= i < p.len() && p[i] == '/'
}

/// A path in canonical form: a leading `./` is replaced by `/`, and a
/// leading `/` is added where none is present.
pub open spec fn norm_path(s: Seq<char>) -> Seq<char> {
    if s.len() >= 2 && s[0] == '.' && s[1] == '/' {
        s.skip(1)
    } else if s.len() >= 1 && s[0] == '/' {
        s
    } else {
        seq!['/'].add(s)
    }
}

/// A pattern body anchored to the manifest root: a leading `/` is added
/// where none is present.
pub open spec fn anchor(p: Seq<char>) -> Seq<char> {
    if p.len() >= 1 && p[0] == '/' {
        p
    } else {
        seq!['/'].add(p)
    }
}

/// Whether `pattern` matches the path `path`, with `path` already in
/// canonical form. An anchored body (one containing `/`) must match from
/// the root; an unanchored body may match starting at any path segment.
pub open spec fn pattern_matches(pattern: Seq<char>, path: Seq<char>) -> bool {
    let body = pattern_body(pattern);
    let dir_only = is_dir_pattern(pattern);
    if has_slash(body) {
        match_core(anchor(body), path, dir_only)
    } else {
        exists|i: int|
            0 <= i <= path.len() && (i == 0 || path[i - 1] == '/') && match_core(
                body,
                path.skip(i),
                dir_only,
            )
    }
}

/// A pattern body without wildcards matches exactly its target and the
/// paths inside it, never a mere string prefix: past the body, the path
/// must end or continue with `/`.
pub proof fn lemma_literal_match_segment_bounded(p: Seq<char>, s: Seq<char>, dir_only: bool)
    requires
        forall|i: int| 0 <= i < p.len() ==> p[i] != '*',
    ensures
        match_core(p, s, dir_only) <==> (s.len() >= p.len() && s.take(p.len() as int) == p && (
        if dir_only {
            s.len() > p.len() && s[p.len() as int] == '/'
        } else {
            s.len() == p.len() || s[p.len() as int] == '/'
        })),
    decreases p.len(),
{
    if p.len() == 0 {
        assert(s.take(0) =~= Seq::<char>::empty());
        assert(p =~= Seq::<char>::empty());
    } else if s.len() == 0 {
        assert(!match_core(p, s, dir_only));
    } else {
        assert(forall|i: int| 0 <= i < p.skip(1).len() ==> #[trigger] p.skip(1)[i] != '*');
        lemma_literal_match_segment_bounded(p.skip(1), s.skip(1), dir_only);
        assert(s.skip(1).len() == s.len() - 1);
        if s.len() < p.len() {
            assert(s.skip(1).len() < p.skip(1).len());
            assert(!match_core(p.skip(1), s.skip(1), dir_only));
        } else {
            assert(s.skip(1).take(p.len() - 1) =~= s.take(p.len() as int).skip(1));
            if s[0] == p[0] {
                assert(s.take(p.len() as int) == p <==> s.take(p.len() as int).skip(1) == p.skip(
                    1,
                )) by {
                    if s.take(p.len() as int).skip(1) == p.skip(1) {
                        assert(s.take(p.len() as int)[0] == p[0]);
                        assert forall|k: int|
                            0 <= k < p.len() implies s.take(p.len() as int)[k] == p[k] by {
                            if k >= 1 {
                                assert(s.take(p.len() as int).skip(1)[k - 1] == s.take(
                                    p.len() as int,
                                )[k]);
                                assert(p.skip(1)[k - 1] == p[k]);
                            }
                        }
                        assert(s.take(p.len() as int) =~= p);
                    }
                    if s.take(p.len() as int) == p {
                        assert(s.take(p.len() as int).skip(1) =~= p.skip(1));
                    }
                }
                if s.len() > p.len() {
                    assert(s.skip(1)[p.len() - 1] == s[p.len() as int]);
                }
            } else {
                assert(s.take(p.len() as int)[0] != p[0]);
            }
        }
    }
}

/// Recursive matcher over in-memory characters; `pi` and `si` are the
/// positions reached in the pattern body and the path.
fn match_at(p: &Vec<char>, pi: usize, s: &Vec<char>, si: usize, dir_only: bool) -> (r: bool)
    requires
        pi <= p.len(),
        si <= s.len(),
    ensures
        r == match_core(p@.skip(pi as int), s@.skip(si as int), dir_only),
    decreases p.len() - pi + s.len() - si,
{
    let plen = p.len();
    let slen = s.len();
    proof {
        assert(p@.skip(pi as int).len() == plen - pi);
        assert(s@.skip(si as int).len() == slen - si);
    }
    if pi == plen {
        if dir_only {
            si < slen && s[si] == '/'
        } else {
            si == slen || s[si] == '/'
        }
    } else if pi + 1 < plen && p[pi] == '*' && p[pi + 1] == '*' {
        proof {
            assert(p@.skip(pi as int).skip(2) =~= p@.skip(pi as int + 2));
            assert(pi + 3 <= plen ==> p@.skip(pi as int).skip(3) =~= p@.skip(pi as int + 3));
            assert(si < slen ==> s@.skip(si as int).skip(1) =~= s@.skip(si as int + 1));
        }
        if match_at(p, pi + 2, s, si, dir_only) {
            true
        } else if pi + 2 < plen && p[pi + 2] == '/' && match_at(p, pi + 3, s, si, dir_only) {
            true
        } else {
            si < slen && match_at(p, pi, s, si + 1, dir_only)
        }
    } else if p[pi] == '*' {
        proof {
            assert(p@.skip(pi as int).skip(1) =~= p@.skip(pi as int + 1));
            assert(si < slen ==> s@.skip(si as int).skip(1) =~= s@.skip(si as int + 1));
        }
        if match_at(p, pi + 1, s, si, dir_only) {
            true
        } else {
            si < slen && s[si] != '/' && match_at(p, pi, s, si + 1, dir_only)
        }
    } else {
        proof {
            assert(p@.skip(pi as int).skip(1) =~= p@.skip(pi as int + 1));
            assert(si < slen ==> s@.skip(si as int).skip(1) =~= s@.skip(si as int + 1));
        }
        si < slen && p[pi] == s[si] && match_at(p, pi + 1, s, si + 1, dir_only)
    }
}

/// Copies the characters of `v` between `from` and `to`.
pub(crate) fn copy_range(v: &Vec<char>, from: usize, to: usize) -> (r: Vec<char>)
    requires
        from <= to <= v.len(),
    ensures
        r@ == v@.subrange(from as int, to as int),
{
    let mut r: Vec<char> = Vec::new();
    let mut i: usize = from;
    while i < to
        invariant
            from <= i <= to <= v.len(),
            r@ == v@.subrange(from as int, i as int),
        decreases to - i,
    {
        r.push(v[i]);
        proof {
            assert(v@.subrange(from as int, i as int).push(v@[i as int]) =~= v@.subrange(
                from as int,
                i as int + 1,
            ));
        }
        i += 1;
    }
    r
}

/// Puts a path in canonical form: a leading `./` is replaced by `/`,
/// and a leading `/` is added where none is present.
fn normalize(s: &Vec<char>) -> (r: Vec<char>)
    ensures
        r@ == norm_path(s@),
{
    if s.len() >= 2 && s[0] == '.' && s[1] == '/' {
        let r = copy_range(s, 1, s.len());
        proof {
            assert(s@.subrange(1, s@.len() as int) =~= s@.skip(1));
        }
        r
    } else if s.len() >= 1 && s[0] == '/' {
        let r = copy_range(s, 0, s.len());
        proof {
            assert(s@.subrange(0, s@.len() as int) =~= s@);
        }
        r
    } else {
        let mut r: Vec<char> = Vec::new();
        r.push('/');
        let mut i: usize = 0;
        while i < s.len()
            invariant
                i <= s.len(),
                r@ == seq!['/'].add(s@.subrange(0, i as int)),
            decreases s.len() - i,
        {
            r.push(s[i]);
            proof {
                assert(seq!['/'].add(s@.subrange(0, i as int)).push(s@[i as int]) =~= seq![
                    '/',
                ].add(s@.subrange(0, i as int + 1)));
            }
            i += 1;
        }
        proof {
            assert(s@.subrange(0, s@.len() as int) =~= s@);
        }
        r
    }
}

/// Whether `pattern` matches `path` under gitignore-style semantics:
/// anchoring by `/`, `*` within a segment, `**` across segments, a
/// trailing `/` restricting the match to paths inside a directory, and
/// matching only at path-segment boundaries, never by raw string prefix.
pub fn is_match(pattern: &str, path: &str) -> (r: bool)
    ensures
        r == pattern_matches(pattern@, norm_path(path@)),
{
    let pat = chars_of(pattern);
    let raw = chars_of(path);
    let np = normalize(&raw);
    let dir_only = pat.len() > 0 && pat[pat.len() - 1] == '/';
    let body_len = if dir_only {
        pat.len() - 1
    } else {
        pat.len()
    };
    let body = copy_range(&pat, 0, body_len);
    proof {
        assert(dir_only == is_dir_pattern(pattern@));
        assert(body@ =~= pattern_body(pattern@));
    }
    let mut slash = false;
    let mut k: usize = 0;
    while k < body.len()
        invariant
            k <= body.len(),
            slash == exists|i: int| 0 <= i < k && body@[i] == '/',
        decreases body.len() - k,
    {
        if body[k] == '/' {
            slash = true;
        }
        k += 1;
    }
    proof {
        assert(slash == has_slash(body@));
    }
    if slash {
        let ab = if body.len() >= 1 && body[0] == '/' {
            body
        } else {
            let mut ab: Vec<char> = Vec::new();
            ab.push('/');
            let mut i: usize = 0;
            while i < body.len()
                invariant
                    i <= body.len(),
                    ab@ == seq!['/'].add(body@.subrange(0, i as int)),
                decreases body.len() - i,
            {
                ab.push(body[i]);
                proof {
                    assert(seq!['/'].add(body@.subrange(0, i as int)).push(body@[i as int])
                        =~= seq!['/'].add(body@.subrange(0, i as int + 1)));
                }
                i += 1;
            }
            proof {
                assert(body@.subrange(0, body@.len() as int) =~= body@);
            }
            ab
        };
        proof {
            assert(ab@ == anchor(pattern_body(pattern@)));
            assert(ab@.skip(0) =~= ab@);
            assert(np@.skip(0) =~= np@);
        }
        match_at(&ab, 0, &np, 0, dir_only)
    } else {
        let mut i: usize = 0;
        let n = np.len();
        while i < n
            invariant
                i <= n,
                n == np@.len(),
                body@ == pattern_body(pattern@),
                !has_slash(body@),
                np@ == norm_path(path@),
                dir_only == is_dir_pattern(pattern@),
                forall|j: int|
                    0 <= j < i ==> !((j == 0 || np@[j - 1] == '/') && match_core(
                        body@,
                        np@.skip(j),
                        dir_only,
                    )),
            decreases n - i,
        {
            proof {
                assert(body@.skip(0) =~= body@);
            }
            let boundary = i == 0 || np[i - 1] == '/';
            if boundary && match_at(&body, 0, &np, i, dir_only) {
                proof {
                    assert(0 <= i as int <= np@.len() && (i as int == 0 || np@[i as int - 1]
                        == '/') && match_core(body@, np@.skip(i as int), dir_only));
                }
                return true;
            }
            i += 1;
        }
        proof {
            assert(body@.skip(0) =~= body@);
        }
        let boundary = n == 0 || np[n - 1] == '/';
        if boundary && match_at(&body, 0, &np, n, dir_only) {
            proof {
                assert(0 <= n as int <= np@.len() && (n as int == 0 || np@[n as int - 1] == '/')
                    && match_core(body@, np@.skip(n as int), dir_only));
            }
            true
        } else {
            proof {
                assert(forall|j: int|
                    0 <= j <= np@.len() ==> !((j == 0 || np@[j - 1] == '/') && match_core(
                        body@,
                        np@.skip(j),
                        dir_only,
                    )));
            }
            false
        }
    }
}

} // verus!
