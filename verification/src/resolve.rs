//! The nickname resolver: an ordered chain of rewrite rules that turns an
//! absolute path into a short display label.
//!
//! The rules, in order: exact matches for the home directory and the
//! filesystem root; collapsing the home prefix to `~/`; collapsing the
//! deepest matching project mapping to its alias; collapsing the fixed
//! `~/code` root; and trimming trailing separators.

use vstd::prelude::*;
use vstd::string::StrSliceExecFns;
use vstd::string::StringExecFns;

use crate::context::CtxModel;
use crate::context::ResolverContext;
use crate::path_text::is_prefix;
use crate::path_text::is_under;
use crate::path_text::lemma_strip_leading_skip;
use crate::path_text::lemma_strip_trailing_props;
use crate::path_text::lemma_strip_trailing_take;
use crate::path_text::leading_trim_len;
use crate::path_text::path_eq;
use crate::path_text::path_under;
use crate::path_text::paths_equal;
use crate::path_text::spec_strip_leading_slashes;
use crate::path_text::spec_strip_trailing_slashes;
use crate::path_text::str_eq;
use crate::path_text::str_starts_with;
use crate::path_text::strip_leading;
use crate::path_text::strip_leading_slashes;
use crate::path_text::strip_trailing;
use crate::path_text::strip_trailing_slashes;
use crate::path_text::trailing_trim_len;

verus! {

/// The fixed conventional code root, as it appears after home collapsing.
pub open spec fn code_root() -> Seq<char> {
    seq!['~', '/', 'c', 'o', 'd', 'e']
}

/// Mapping `i` applies to `p`: `p` is the mapped path or a descendant.
pub open spec fn mapping_matches(ctx: CtxModel, p: Seq<char>, i: int) -> bool {
    0 <= i < ctx.mappings.len() && is_under(p, ctx.mappings[i].key)
}

/// The matching mapping of greatest key length among the first `n`,
/// earliest first on equal lengths.
pub open spec fn best_upto(ctx: CtxModel, p: Seq<char>, n: int) -> Option<int>
    decreases n,
{
    if n <= 0 {
        Option::None
    } else {
        let prev = best_upto(ctx, p, n - 1);
        if mapping_matches(ctx, p, n - 1) && (prev is None || ctx.mappings[prev->0].key.len()
            < ctx.mappings[n - 1].key.len()) {
            Option::Some(n - 1)
        } else {
            prev
        }
    }
}

/// The mapping selected for `p`: the longest-keyed match, if any.
pub open spec fn spec_best(ctx: CtxModel, p: Seq<char>) -> Option<int> {
    best_upto(ctx, p, ctx.mappings.len() as int)
}

/// `pat` occurs in `s` at position `i`.
pub open spec fn occurs_at(s: Seq<char>, pat: Seq<char>, i: int) -> bool {
    0 <= i && i + pat.len() <= s.len() && s.subrange(i, i + pat.len() as int) == pat
}

/// The first position at or after `i` where `pat` occurs in `s`.
pub open spec fn find_from(s: Seq<char>, pat: Seq<char>, i: int) -> Option<int>
    decreases s.len() - i,
{
    if !(0 <= i && i + pat.len() <= s.len()) {
        Option::None
    } else if occurs_at(s, pat, i) {
        Option::Some(i)
    } else if i < s.len() {
        find_from(s, pat, i + 1)
    } else {
        Option::None
    }
}

/// The first position where `pat` occurs in `s`.
pub open spec fn spec_find(s: Seq<char>, pat: Seq<char>) -> Option<int> {
    find_from(s, pat, 0)
}

/// `s` with the first occurrence of `pat`, if any, replaced by `rep`.
pub open spec fn spec_replace_first(s: Seq<char>, pat: Seq<char>, rep: Seq<char>) -> Seq<char> {
    match spec_find(s, pat) {
        Option::None => s,
        Option::Some(i) => s.take(i) + rep + s.skip(i + pat.len() as int),
    }
}

/// The string form of `p`: under home it becomes `~/` followed by the
/// remainder (leading separators consumed, trailing ones trimmed);
/// otherwise the absolute text unchanged.
pub open spec fn spec_collapse_home(home: Seq<char>, p: Seq<char>) -> Seq<char> {
    if is_under(p, home) {
        seq!['~', '/'] + strip_trailing(strip_leading(p.skip(strip_trailing(home).len() as int)))
    } else {
        p
    }
}

/// If some mapping applies to `p`, the selected mapping's declared text
/// is replaced by its alias in the string form `s`, once, and leading
/// separators are then removed; otherwise `s` passes through.
pub open spec fn spec_collapse_project(ctx: CtxModel, p: Seq<char>, s: Seq<char>) -> Seq<char> {
    match spec_best(ctx, p) {
        Option::None => s,
        Option::Some(i) => strip_leading(
            spec_replace_first(s, ctx.mappings[i].text, ctx.mappings[i].alias),
        ),
    }
}

/// The `~/code` rule: the root itself becomes `code`; a descendant loses
/// the root prefix and its leading separators; anything else, including a
/// differently-named sibling such as `~/code2`, passes through.
pub open spec fn spec_collapse_code(s: Seq<char>) -> Seq<char> {
    if s == code_root() {
        code_root().skip(2)
    } else if !is_prefix(code_root(), s) {
        s
    } else {
        let rest = s.skip(code_root().len() as int);
        if rest.len() > 0 && rest[0] == '/' {
            spec_strip_leading_slashes(rest)
        } else {
            s
        }
    }
}

/// The whole resolution: home and root short-circuits, then the chain of
/// home, project and code-root collapsing, then trailing-slash trimming.
pub open spec fn spec_resolve(ctx: CtxModel, p: Seq<char>) -> Seq<char> {
    if path_eq(p, ctx.home) {
        seq!['~']
    } else if path_eq(p, seq!['/']) {
        seq!['/']
    } else {
        spec_strip_trailing_slashes(
            spec_collapse_code(spec_collapse_project(ctx, p, spec_collapse_home(ctx.home, p))),
        )
    }
}

/// Collapses a path under `home` to `~/` plus the remainder; any other
/// path is returned as its own text.
pub fn collapse_home_alias(home: &str, path: &str) -> (r: String)
    ensures
        r@ == spec_collapse_home(home@, path@),
{
    if !path_under(path, home) {
        return path.to_owned();
    }
    let h = trailing_trim_len(home);
    let n = path.unicode_len();
    proof {
        lemma_strip_trailing_props(path@);
        assert(h <= n);
    }
    let mut a = h;
    while a < n && path.get_char(a) == '/'
        invariant
            h <= a <= n,
            n == path@.len(),
            forall|i: int| h <= i < a ==> path@[i] == '/',
        decreases n - a,
    {
        a += 1;
    }
    let mut b = n;
    while b > a && path.get_char(b - 1) == '/'
        invariant
            a <= b <= n,
            n == path@.len(),
            forall|i: int| b <= i < n ==> path@[i] == '/',
        decreases b,
    {
        b -= 1;
    }
    proof {
        reveal_strlit("~/");
        assert("~/"@ =~= seq!['~', '/']);
    }
    let mut r = String::from_str("~/");
    r.append(path.substring_char(a, b));
    proof {
        let tail = path@.skip(h as int);
        assert(forall|i: int| 0 <= i < a - h ==> tail[i] == path@[i + h] && path@[i + h] == '/');
        assert(a - h < tail.len() ==> tail[a - h] == path@[a as int]);
        lemma_strip_leading_skip(tail, a - h);
        assert(tail.skip(a - h) =~= path@.skip(a as int));
        let mid = path@.skip(a as int);
        assert(forall|i: int| b - a <= i < mid.len() ==> mid[i] == path@[i + a] && path@[i + a] == '/');
        assert(b - a > 0 ==> mid[b - a - 1] == path@[b - 1]);
        lemma_strip_trailing_take(mid, b - a);
        assert(mid.take(b - a) =~= path@.subrange(a as int, b as int));
        assert(r@ =~= spec_collapse_home(home@, path@));
    }
    r
}

/// `pat` occurs in `s` at position `i`, checked character by character.
fn occurs_check(s: &str, pat: &str, i: usize) -> (r: bool)
    requires
        i + pat@.len() <= s@.len(),
    ensures
        r == occurs_at(s@, pat@, i as int),
{
    let n = s.unicode_len();
    let m = pat.unicode_len();
    let mut j: usize = 0;
    while j < m
        invariant
            0 <= j <= m,
            m == pat@.len(),
            n == s@.len(),
            i + m <= n,
            forall|k: int| 0 <= k < j ==> s@[i + k] == pat@[k],
        decreases m - j,
    {
        if s.get_char(i + j) != pat.get_char(j) {
            proof {
                assert(s@.subrange(i as int, i + m)[j as int] == s@[i + j]);
            }
            return false;
        }
        j += 1;
    }
    proof {
        assert(s@.subrange(i as int, i + m) =~= pat@);
    }
    true
}

/// `s` with the first occurrence of `pat`, if any, replaced by `rep`.
fn replace_first(s: &str, pat: &str, rep: &str) -> (r: String)
    ensures
        r@ == spec_replace_first(s@, pat@, rep@),
{
    let n = s.unicode_len();
    let m = pat.unicode_len();
    if m > n {
        return s.to_owned();
    }
    if m == 0 {
        let mut r = rep.to_owned();
        r.append(s);
        proof {
            assert(s@.subrange(0, 0) =~= pat@);
            assert(occurs_at(s@, pat@, 0));
            assert(spec_find(s@, pat@) == Option::Some(0int));
            assert(r@ =~= spec_replace_first(s@, pat@, rep@));
        }
        return r;
    }
    let mut i: usize = 0;
    while i <= n - m
        invariant
            0 <= i <= n - m + 1,
            1 <= m <= n,
            n == s@.len(),
            m == pat@.len(),
            find_from(s@, pat@, 0) == find_from(s@, pat@, i as int),
        decreases n - m + 1 - i,
    {
        if occurs_check(s, pat, i) {
            let mut r = s.substring_char(0, i).to_owned();
            r.append(rep);
            r.append(s.substring_char(i + m, n));
            proof {
                assert(find_from(s@, pat@, i as int) == Option::Some(i as int));
                assert(s@.subrange(0, i as int) =~= s@.take(i as int));
                assert(s@.subrange(i + m, n as int) =~= s@.skip(i + m));
                assert(r@ =~= spec_replace_first(s@, pat@, rep@));
            }
            return r;
        }
        proof {
            assert(find_from(s@, pat@, i as int) == find_from(s@, pat@, i as int + 1));
        }
        i += 1;
    }
    proof {
        assert(find_from(s@, pat@, i as int) is None);
    }
    s.to_owned()
}

/// Scans all mappings for those that apply to `path`, selects the one
/// with the longest key (earliest on a tie), and rewrites the string
/// form `path_str` by replacing the declared text with the alias once
/// and removing leading separators; with no match, `path_str` passes
/// through.
pub fn collapse_project_alias(ctx: &ResolverContext, path: &str, path_str: String) -> (r: String)
    ensures
        r@ == spec_collapse_project(ctx@, path@, path_str@),
{
    let mut best: Option<usize> = Option::None;
    let mut best_len: usize = 0;
    let mut i: usize = 0;
    while i < ctx.mappings.len()
        invariant
            i <= ctx.mappings@.len(),
            ctx@.mappings.len() == ctx.mappings@.len(),
            match best {
                Option::None => best_upto(ctx@, path@, i as int) is None,
                Option::Some(b) => {
                    &&& best_upto(ctx@, path@, i as int) == Option::Some(b as int)
                    &&& b < i
                    &&& best_len == ctx@.mappings[b as int].key.len()
                },
            },
        decreases ctx.mappings@.len() - i,
    {
        let m_ref = &ctx.mappings[i];
        if path_under(path, m_ref.key.as_str()) {
            let klen = m_ref.key.as_str().unicode_len();
            let better = match best {
                Option::None => true,
                Option::Some(_) => best_len < klen,
            };
            if better {
                best = Option::Some(i);
                best_len = klen;
            }
        }
        i += 1;
    }
    match best {
        Option::None => path_str,
        Option::Some(b) => {
            let m_ref = &ctx.mappings[b];
            let replaced = replace_first(
                path_str.as_str(),
                m_ref.text.as_str(),
                m_ref.alias.as_str(),
            );
            let a2 = leading_trim_len(replaced.as_str());
            let rn = replaced.as_str().unicode_len();
            let r = replaced.as_str().substring_char(a2, rn).to_owned();
            proof {
                assert(replaced@.subrange(a2 as int, rn as int) =~= replaced@.skip(a2 as int));
            }
            r
        },
    }
}

/// The `~/code` rule on the string form: the root itself becomes `code`;
/// a path under it loses the `~/code` prefix and any leading separators;
/// anything else passes through.
pub fn collapse_code_alias(path: String) -> (r: String)
    ensures
        r@ == spec_collapse_code(path@),
{
    proof {
        reveal_strlit("~/code");
        reveal_strlit("code");
        assert("~/code"@ =~= code_root());
        assert("code"@ =~= code_root().skip(2));
    }
    if str_eq(path.as_str(), "~/code") {
        return String::from_str("code");
    }
    if !str_starts_with(path.as_str(), "~/code") {
        return path;
    }
    let n = path.as_str().unicode_len();
    proof {
        if path@.len() == 6 {
            assert(path@.subrange(0, 6) =~= path@);
        }
    }
    if path.as_str().get_char(6) != '/' {
        proof {
            assert(path@.skip(6)[0] == path@[6]);
        }
        return path;
    }
    let rest = path.as_str().substring_char(6, n).to_owned();
    proof {
        assert(path@.subrange(6, n as int) =~= path@.skip(6));
        assert(path@.skip(6)[0] == path@[6]);
    }
    strip_leading_slashes(rest)
}

/// Resolves `path` against the context: the home directory shows as `~`,
/// the filesystem root as `/`, and any other path goes through home,
/// project and code-root collapsing, then trailing-slash trimming.
pub fn get_nickname(ctx: &ResolverContext, path: String) -> (r: String)
    ensures
        r@ == spec_resolve(ctx@, path@),
{
    proof {
        reveal_strlit("~");
        reveal_strlit("/");
        assert("~"@ =~= seq!['~']);
        assert("/"@ =~= seq!['/']);
    }
    if paths_equal(path.as_str(), ctx.home.as_str()) {
        return String::from_str("~");
    }
    if paths_equal(path.as_str(), "/") {
        return String::from_str("/");
    }
    let s1 = collapse_home_alias(ctx.home.as_str(), path.as_str());
    let s2 = collapse_project_alias(ctx, path.as_str(), s1);
    let s3 = collapse_code_alias(s2);
    strip_trailing_slashes(s3)
}

} // verus!
