//! Laws of the resolver, proved against the specification functions that
//! the executable functions' contracts are stated over.

use vstd::prelude::*;

use crate::context::ctx_wf;
use crate::context::is_abs;
use crate::context::spec_expand_home;
use crate::context::CtxModel;
use crate::path_text::is_prefix;
use crate::path_text::is_under;
use crate::path_text::lemma_strip_leading_concat;
use crate::path_text::lemma_strip_leading_props;
use crate::path_text::lemma_strip_trailing_concat;
use crate::path_text::lemma_strip_trailing_props;
use crate::path_text::path_eq;
use crate::path_text::spec_strip_leading_slashes;
use crate::path_text::spec_strip_trailing_slashes;
use crate::path_text::strip_leading;
use crate::path_text::strip_trailing;
use crate::resolve::best_upto;
use crate::resolve::code_root;
use crate::resolve::mapping_matches;
use crate::resolve::occurs_at;
use crate::resolve::spec_best;
use crate::resolve::spec_collapse_code;
use crate::resolve::spec_collapse_home;
use crate::resolve::spec_collapse_project;
use crate::resolve::spec_find;
use crate::resolve::spec_replace_first;
use crate::resolve::spec_resolve;

verus! {

proof fn lemma_slash_seq_strips()
    ensures
        strip_trailing(seq!['/']).len() == 0,
        strip_leading(seq!['/']).len() == 0,
{
    let e = Seq::<char>::empty();
    assert(seq!['/'].drop_last() =~= e);
    assert(seq!['/'].subrange(1, 1) =~= e);
    assert(strip_trailing(e) == e);
    assert(strip_leading(e) == e);
}

proof fn lemma_strip_trailing_push(x: Seq<char>)
    ensures
        strip_trailing(x.push('/')) == strip_trailing(x),
{
    assert(x.push('/') =~= x + seq!['/']);
    lemma_slash_seq_strips();
    lemma_strip_trailing_concat(x, seq!['/']);
}

proof fn lemma_strip_leading_push(x: Seq<char>)
    ensures
        strip_leading(x.push('/')) == if strip_leading(x).len() == 0 {
            Seq::<char>::empty()
        } else {
            strip_leading(x).push('/')
        },
{
    assert(x.push('/') =~= x + seq!['/']);
    lemma_slash_seq_strips();
    lemma_strip_leading_concat(x, seq!['/']);
    if strip_leading(x).len() == 0 {
        assert(strip_leading(seq!['/']) =~= Seq::<char>::empty());
    } else {
        assert(strip_leading(x) + seq!['/'] =~= strip_leading(x).push('/'));
    }
}

/// Being under a root is transitive.
proof fn lemma_is_under_trans(a: Seq<char>, b: Seq<char>, c: Seq<char>)
    requires
        is_under(a, b),
        is_under(b, c),
    ensures
        is_under(a, c),
{
    let a0 = strip_trailing(a);
    let b0 = strip_trailing(b);
    let c0 = strip_trailing(c);
    if a0 == b0 {
    } else {
        if b0 == c0 {
        } else {
            assert(a0.subrange(0, c0.len() as int) =~= a0.subrange(0, b0.len() as int).subrange(
                0,
                c0.len() as int,
            ));
            assert(a0[c0.len() as int] == a0.subrange(0, b0.len() as int)[c0.len() as int]);
        }
    }
}

/// A key expanded from a `~/`-relative declaration lies under home.
proof fn lemma_expanded_key_under_home(home: Seq<char>, text: Seq<char>)
    requires
        is_prefix(seq!['~', '/'], text),
    ensures
        is_under(spec_expand_home(home, text), home),
{
    let r = text.skip(2);
    lemma_strip_trailing_props(home);
    let h0 = strip_trailing(home);
    if home.len() > 0 && home.last() == '/' {
        let key = home + r;
        lemma_strip_trailing_concat(home, r);
        if strip_trailing(r).len() == 0 {
        } else {
            let r1 = strip_trailing(r);
            let p0 = home + r1;
            assert(strip_trailing(key) == p0);
            assert(h0.len() < home.len()) by {
                if h0.len() == home.len() {
                    assert(h0 =~= home);
                }
            }
            assert(p0.subrange(0, h0.len() as int) =~= home.subrange(0, h0.len() as int));
            assert(home.subrange(0, h0.len() as int) =~= home.take(h0.len() as int));
            assert(p0[h0.len() as int] == home[h0.len() as int]);
        }
    } else {
        let hs = home + seq!['/'];
        let key = hs + r;
        lemma_strip_trailing_concat(hs, r);
        assert(strip_trailing(home) == home) by {
            if home.len() > 0 {
                assert(home.last() != '/');
            }
        }
        if strip_trailing(r).len() == 0 {
            assert(hs =~= home.push('/'));
            lemma_strip_trailing_push(home);
            assert(strip_trailing(key) == strip_trailing(hs));
        } else {
            let r1 = strip_trailing(r);
            let p0 = hs + r1;
            assert(strip_trailing(key) == p0);
            assert(p0.subrange(0, home.len() as int) =~= home);
            assert(p0[home.len() as int] == '/');
        }
    }
}

/// With trailing separators stripped equally, the same mapping is chosen.
proof fn lemma_best_same_stripped(ctx: CtxModel, p1: Seq<char>, p2: Seq<char>, n: int)
    requires
        strip_trailing(p1) == strip_trailing(p2),
    ensures
        best_upto(ctx, p1, n) == best_upto(ctx, p2, n),
    decreases n,
{
    if n > 0 {
        lemma_best_same_stripped(ctx, p1, p2, n - 1);
    }
}

/// What the selection satisfies: the chosen mapping matches, no match has
/// a longer key, and no earlier match has one as long; with no choice,
/// nothing matches.
proof fn lemma_best_upto_props(ctx: CtxModel, p: Seq<char>, n: int)
    requires
        n <= ctx.mappings.len(),
    ensures
        match best_upto(ctx, p, n) {
            Option::None => forall|j: int| 0 <= j < n ==> !mapping_matches(ctx, p, j),
            Option::Some(b) => {
                &&& 0 <= b < n
                &&& mapping_matches(ctx, p, b)
                &&& forall|j: int|
                    0 <= j < n && mapping_matches(ctx, p, j) ==> ctx.mappings[j].key.len()
                        <= ctx.mappings[b].key.len()
                &&& forall|j: int|
                    0 <= j < b && mapping_matches(ctx, p, j) ==> ctx.mappings[j].key.len()
                        < ctx.mappings[b].key.len()
            },
        },
    decreases n,
{
    if n > 0 {
        lemma_best_upto_props(ctx, p, n - 1);
    }
}

/// An absolute text can neither be nor begin with the `~/code` root.
proof fn lemma_abs_not_code(s: Seq<char>)
    requires
        s.len() > 0,
        s[0] == '/',
    ensures
        s != code_root(),
        !is_prefix(code_root(), s),
{
    if is_prefix(code_root(), s) {
        assert(s.subrange(0, 6)[0] == s[0]);
    }
    if s == code_root() {
        assert(s[0] == '~');
    }
}

/// A matching key with no trailing separator stands at the front of the
/// path text itself.
proof fn lemma_key_at_front(p: Seq<char>, k: Seq<char>)
    requires
        is_under(p, k),
        is_abs(p),
        is_abs(k),
        k == strip_trailing(k) || k == seq!['/'],
    ensures
        occurs_at(p, k, 0),
        k.len() <= p.len(),
{
    lemma_strip_trailing_props(p);
    let p0 = strip_trailing(p);
    if k == seq!['/'] {
        assert(p.subrange(0, 1) =~= seq!['/']);
    } else {
        let k0 = strip_trailing(k);
        if p0 == k0 {
            assert(p.subrange(0, k.len() as int) =~= p0);
        } else {
            assert(p.subrange(0, k.len() as int) =~= p0.subrange(0, k0.len() as int));
        }
    }
}

/// Law: a path equal to the home directory resolves to the home marker
/// `~`; any other path equal to the filesystem root resolves to the
/// root label `/`.
pub proof fn lemma_home_and_root(ctx: CtxModel, p: Seq<char>)
    ensures
        path_eq(p, ctx.home) ==> spec_resolve(ctx, p) == seq!['~'],
        !path_eq(p, ctx.home) && path_eq(p, seq!['/']) ==> spec_resolve(ctx, p) == seq!['/'],
{
}

/// Law: the deepest of two nested mapped roots wins. If mapping `j`'s
/// key lies strictly under mapping `i`'s key and the path lies under
/// `j`'s key, then a mapping is selected, its key is at least as long as
/// `j`'s, and it is never mapping `i`.
pub proof fn lemma_longest_match_wins(ctx: CtxModel, p: Seq<char>, i: int, j: int)
    requires
        ctx_wf(ctx),
        0 <= i < ctx.mappings.len(),
        0 <= j < ctx.mappings.len(),
        is_under(ctx.mappings[j].key, ctx.mappings[i].key),
        !path_eq(ctx.mappings[j].key, ctx.mappings[i].key),
        mapping_matches(ctx, p, j),
    ensures
        spec_best(ctx, p) is Some,
        ctx.mappings[spec_best(ctx, p)->0].key.len() >= ctx.mappings[j].key.len(),
        ctx.mappings[spec_best(ctx, p)->0].key.len() > ctx.mappings[i].key.len(),
        spec_best(ctx, p) != Option::Some(i),
{
    let ki = ctx.mappings[i].key;
    let kj = ctx.mappings[j].key;
    let ki0 = strip_trailing(ki);
    let kj0 = strip_trailing(kj);
    lemma_strip_trailing_props(ki);
    lemma_strip_trailing_props(kj);
    lemma_slash_seq_strips();
    assert(kj0.len() > ki0.len());
    assert(kj == kj0) by {
        if kj == seq!['/'] {
            assert(kj0.len() == 0);
        }
    }
    assert(kj.len() > ki.len()) by {
        if ki == seq!['/'] {
            assert(ki0.len() == 0);
            assert(kj0.len() >= 1);
            assert(kj[0] == '/');
            if kj.len() == 1 {
                assert(kj =~= seq!['/']);
            }
        } else {
            assert(ki == ki0);
        }
    }
    lemma_best_upto_props(ctx, p, ctx.mappings.len() as int);
    match spec_best(ctx, p) {
        Option::None => {
            assert(!mapping_matches(ctx, p, j));
        },
        Option::Some(b) => {
            assert(ctx.mappings[b].key.len() >= kj.len());
        },
    }
}

/// Law: the `~/code` rule never fires on a differently-named sibling
/// such as `~/code2`: when the character after the `~/code` prefix is
/// not a separator, the string passes through unchanged.
pub proof fn lemma_code_root_sibling(s: Seq<char>)
    requires
        is_prefix(code_root(), s),
        s.len() > code_root().len(),
        s[code_root().len() as int] != '/',
    ensures
        spec_collapse_code(s) == s,
{
    assert(s != code_root());
    assert(s.skip(6)[0] == s[6]);
}

proof fn lemma_final_trim_push(c: Seq<char>)
    requires
        c.len() > 0,
        c != seq!['/'],
    ensures
        spec_strip_trailing_slashes(c.push('/')) == spec_strip_trailing_slashes(c),
{
    lemma_strip_trailing_push(c);
    assert(c.push('/') != seq!['/']);
}

/// Law: trailing separators are irrelevant: for an absolute non-root
/// path, resolving the path with a separator appended gives the same
/// nickname as resolving the path itself. For a path outside home the
/// law asks that the project-collapsed string form be neither the code
/// root text `~/code` itself nor that text followed by one separator:
/// on exactly those two forms the exact-match and descendant branches
/// of the `~/code` rule part ways and the law fails.
pub proof fn lemma_trailing_slash_irrelevant(ctx: CtxModel, p: Seq<char>)
    requires
        ctx_wf(ctx),
        is_abs(p),
        !path_eq(p, seq!['/']),
        !is_under(p, ctx.home) ==> spec_collapse_project(ctx, p, p) != code_root()
            && spec_collapse_project(ctx, p, p) != code_root().push('/'),
    ensures
        spec_resolve(ctx, p.push('/')) == spec_resolve(ctx, p),
{
    let q = p.push('/');
    lemma_strip_trailing_push(p);
    lemma_slash_seq_strips();
    assert(p != seq!['/']) by {
        if p == seq!['/'] {
            assert(strip_trailing(p).len() == 0);
        }
    }
    if path_eq(p, ctx.home) {
    } else {
        lemma_best_same_stripped(ctx, p, q, ctx.mappings.len() as int);
        assert(spec_best(ctx, q) == spec_best(ctx, p));
        if is_under(p, ctx.home) {
            assert(is_under(q, ctx.home));
            let h = strip_trailing(ctx.home).len() as int;
            lemma_strip_trailing_props(p);
            assert(h <= p.len());
            let x = p.skip(h);
            assert(q.skip(h) =~= x.push('/'));
            lemma_strip_leading_push(x);
            if strip_leading(x).len() == 0 {
                assert(strip_leading(x) =~= Seq::<char>::empty());
                assert(strip_leading(x.push('/')) == strip_leading(x));
            } else {
                lemma_strip_trailing_push(strip_leading(x));
            }
            assert(spec_collapse_home(ctx.home, q) == spec_collapse_home(ctx.home, p));
            let s1 = spec_collapse_home(ctx.home, p);
            assert(spec_collapse_project(ctx, q, s1) == spec_collapse_project(ctx, p, s1));
        } else {
            assert(!is_under(q, ctx.home));
            assert(spec_collapse_home(ctx.home, p) == p);
            assert(spec_collapse_home(ctx.home, q) == q);
            match spec_best(ctx, p) {
                Option::None => {
                    assert(spec_collapse_project(ctx, p, p) == p);
                    assert(spec_collapse_project(ctx, q, q) == q);
                    lemma_abs_not_code(p);
                    assert(q[0] == p[0]);
                    lemma_abs_not_code(q);
                    assert(spec_collapse_code(p) == p);
                    assert(spec_collapse_code(q) == q);
                    lemma_final_trim_push(p);
                },
                Option::Some(b) => {
                    lemma_best_upto_props(ctx, p, ctx.mappings.len() as int);
                    assert(mapping_matches(ctx, p, b));
                    let key = ctx.mappings[b].key;
                    let text = ctx.mappings[b].text;
                    let alias = ctx.mappings[b].alias;
                    assert(key == spec_expand_home(ctx.home, text));
                    if is_prefix(seq!['~', '/'], text) {
                        lemma_expanded_key_under_home(ctx.home, text);
                        lemma_is_under_trans(p, key, ctx.home);
                        assert(false);
                    }
                    assert(text == key);
                    lemma_key_at_front(p, key);
                    assert(occurs_at(q, key, 0)) by {
                        assert(q.subrange(0, key.len() as int) =~= p.subrange(
                            0,
                            key.len() as int,
                        ));
                    }
                    assert(spec_find(p, text) == Option::Some(0int));
                    assert(spec_find(q, text) == Option::Some(0int));
                    let u = alias + p.skip(key.len() as int);
                    assert(spec_replace_first(p, text, alias) == u) by {
                        assert(p.take(0) + alias + p.skip(0 + text.len() as int) =~= u);
                    }
                    assert(spec_replace_first(q, text, alias) == u.push('/')) by {
                        assert(q.skip(0 + text.len() as int) =~= p.skip(
                            key.len() as int,
                        ).push('/'));
                        assert(q.take(0) + alias + q.skip(0 + text.len() as int) =~= u.push('/'));
                    }
                    let s2 = strip_leading(u);
                    assert(spec_collapse_project(ctx, p, p) == s2);
                    lemma_strip_leading_push(u);
                    lemma_strip_leading_props(u);
                    if s2.len() == 0 {
                        assert(strip_leading(u.push('/')) =~= s2);
                        assert(spec_collapse_project(ctx, q, q) == s2);
                    } else {
                        let s2q = s2.push('/');
                        assert(strip_leading(u.push('/')) == s2q);
                        assert(spec_collapse_project(ctx, q, q) == s2q);
                        assert(s2[0] != '/');
                        assert(s2 != code_root());
                        assert(s2 != code_root().push('/'));
                        if is_prefix(code_root(), s2) {
                            assert(s2[0] == '~') by {
                                assert(s2.subrange(0, 6)[0] == s2[0]);
                            }
                            assert(s2.len() != 6) by {
                                if s2.len() == 6 {
                                    assert(s2.subrange(0, 6) =~= s2);
                                }
                            }
                            assert(s2.len() >= 7);
                            let rest = s2.skip(6);
                            assert(rest.len() >= 1);
                            assert(is_prefix(code_root(), s2q)) by {
                                assert(s2q.subrange(0, 6) =~= s2.subrange(0, 6));
                            }
                            assert(s2q != code_root());
                            let restq = s2q.skip(6);
                            assert(restq =~= rest.push('/'));
                            if rest[0] != '/' {
                                assert(restq[0] == rest[0]);
                                assert(spec_collapse_code(s2) == s2);
                                assert(spec_collapse_code(s2q) == s2q);
                                assert(s2 != seq!['/']);
                                lemma_final_trim_push(s2);
                            } else {
                                if rest == seq!['/'] {
                                    assert(s2 =~= code_root().push('/'));
                                    assert(false);
                                }
                                assert(restq != seq!['/']);
                                assert(spec_collapse_code(s2) == spec_strip_leading_slashes(rest));
                                assert(spec_collapse_code(s2q) == spec_strip_leading_slashes(
                                    restq,
                                ));
                                assert(spec_strip_leading_slashes(rest) == strip_leading(rest));
                                assert(spec_strip_leading_slashes(restq) == strip_leading(restq));
                                lemma_strip_leading_push(rest);
                                lemma_strip_leading_props(rest);
                                let s3 = strip_leading(rest);
                                if s3.len() == 0 {
                                    assert(strip_leading(restq) =~= s3);
                                } else {
                                    assert(strip_leading(restq) == s3.push('/'));
                                    assert(s3[0] != '/');
                                    assert(s3 != seq!['/']);
                                    lemma_final_trim_push(s3);
                                }
                            }
                        } else {
                            assert(!is_prefix(code_root(), s2q)) by {
                                if is_prefix(code_root(), s2q) {
                                    if s2.len() >= 6 {
                                        assert(s2.subrange(0, 6) =~= s2q.subrange(0, 6));
                                    } else {
                                        assert(s2.len() == 5);
                                        assert(s2q.subrange(0, 6)[5] == s2q[5]);
                                        assert(s2q[5] == '/');
                                    }
                                }
                            }
                            assert(s2q != code_root()) by {
                                if s2q == code_root() {
                                    assert(s2q.subrange(0, 6) =~= s2q);
                                }
                            }
                            assert(spec_collapse_code(s2) == s2);
                            assert(spec_collapse_code(s2q) == s2q);
                            assert(s2 != seq!['/']);
                            lemma_final_trim_push(s2);
                        }
                    }
                },
            }
        }
    }
}

/// Law: a path that is not home, not the root, not under home, and not
/// under any project mapping passes through: its nickname is its own
/// absolute text with trailing separators trimmed.
pub proof fn lemma_passthrough(ctx: CtxModel, p: Seq<char>)
    requires
        is_abs(p),
        !path_eq(p, ctx.home),
        !path_eq(p, seq!['/']),
        !is_under(p, ctx.home),
        forall|i: int|
            0 <= i < ctx.mappings.len() ==> !is_under(p, (#[trigger] ctx.mappings[i]).key),
    ensures
        spec_resolve(ctx, p) == strip_trailing(p),
{
    lemma_best_upto_props(ctx, p, ctx.mappings.len() as int);
    match spec_best(ctx, p) {
        Option::None => {},
        Option::Some(b) => {
            assert(!is_under(p, ctx.mappings[b].key));
        },
    }
    assert(spec_collapse_project(ctx, p, p) == p);
    lemma_abs_not_code(p);
    assert(spec_collapse_code(p) == p);
    assert(p != seq!['/']) by {
        lemma_slash_seq_strips();
        if p == seq!['/'] {
            assert(strip_trailing(p).len() == 0);
        }
    }
}

} // verus!
