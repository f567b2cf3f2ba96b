//! Text-level path operations: slash trimming, string prefixes, and the
//! component-wise "is under" relation between absolute paths.
//!
//! Paths are plain strings viewed as `Seq<char>`. A path `p` lies under a
//! root `k` when, after ignoring trailing separators on both sides, `p`
//! equals `k` or continues it at a component boundary; `/a/bc` is not
//! under `/a/b`.

use vstd::prelude::*;
use vstd::string::StrSliceExecFns;

verus! {

/// All trailing `/` characters removed.
pub open spec fn strip_trailing(s: Seq<char>) -> Seq<char>
    decreases s.len(),
{
    if s.len() > 0 && s.last() == '/' {
        strip_trailing(s.drop_last())
    } else {
        s
    }
}

/// All leading `/` characters removed.
pub open spec fn strip_leading(s: Seq<char>) -> Seq<char>
    decreases s.len(),
{
    if s.len() > 0 && s[0] == '/' {
        strip_leading(s.subrange(1, s.len() as int))
    } else {
        s
    }
}

/// `p` is a character-for-character prefix of `s`.
pub open spec fn is_prefix(p: Seq<char>, s: Seq<char>) -> bool {
    p.len() <= s.len() && s.subrange(0, p.len() as int) == p
}

/// The two texts denote the same path once trailing separators are ignored.
pub open spec fn path_eq(a: Seq<char>, b: Seq<char>) -> bool {
    strip_trailing(a) == strip_trailing(b)
}

/// `p` equals `k` or is a descendant of `k`, component-wise: ignoring
/// trailing separators, `k` is a prefix of `p` that ends at a `/` boundary.
pub open spec fn is_under(p: Seq<char>, k: Seq<char>) -> bool {
    let p0 = strip_trailing(p);
    let k0 = strip_trailing(k);
    p0 == k0 || (k0.len() < p0.len() && p0.subrange(0, k0.len() as int) == k0 && p0[k0.len() as int]
        == '/')
}

/// Trailing separators removed, except that the root text `/` is kept.
pub open spec fn spec_strip_trailing_slashes(s: Seq<char>) -> Seq<char> {
    if s == seq!['/'] {
        s
    } else {
        strip_trailing(s)
    }
}

/// Leading separators removed, except that the root text `/` is kept.
pub open spec fn spec_strip_leading_slashes(s: Seq<char>) -> Seq<char> {
    if s == seq!['/'] {
        s
    } else {
        strip_leading(s)
    }
}

pub proof fn lemma_strip_trailing_concat(x: Seq<char>, y: Seq<char>)
    ensures
        strip_trailing(x + y) == if strip_trailing(y).len() == 0 {
            strip_trailing(x)
        } else {
            (x + strip_trailing(y))
        },
    decreases y.len(),
{
    if y.len() == 0 {
        assert(x + y =~= x);
    } else if y.last() == '/' {
        assert((x + y).last() == y.last());
        assert((x + y).drop_last() =~= x + y.drop_last());
        lemma_strip_trailing_concat(x, y.drop_last());
    } else {
        assert((x + y).last() == y.last());
        assert(strip_trailing(y) == y);
        assert(strip_trailing(x + y) == x + y);
    }
}

pub proof fn lemma_strip_leading_concat(x: Seq<char>, y: Seq<char>)
    ensures
        strip_leading(x + y) == if strip_leading(x).len() == 0 {
            strip_leading(y)
        } else {
            (strip_leading(x) + y)
        },
    decreases x.len(),
{
    if x.len() == 0 {
        assert(x + y =~= y);
    } else if x[0] == '/' {
        assert((x + y)[0] == '/');
        assert((x + y).subrange(1, (x + y).len() as int) =~= x.subrange(1, x.len() as int) + y);
        lemma_strip_leading_concat(x.subrange(1, x.len() as int), y);
    } else {
        assert((x + y)[0] == x[0]);
        assert(strip_leading(x) == x);
        assert(strip_leading(x + y) == x + y);
    }
}

pub proof fn lemma_strip_trailing_props(s: Seq<char>)
    ensures
        strip_trailing(s).len() <= s.len(),
        strip_trailing(s) == s.take(strip_trailing(s).len() as int),
        strip_trailing(s).len() > 0 ==> strip_trailing(s).last() != '/',
        forall|i: int| strip_trailing(s).len() <= i < s.len() ==> s[i] == '/',
    decreases s.len(),
{
    if s.len() > 0 && s.last() == '/' {
        lemma_strip_trailing_props(s.drop_last());
        let t = strip_trailing(s.drop_last());
        assert(s.drop_last().take(t.len() as int) =~= s.take(t.len() as int));
        assert forall|i: int| t.len() <= i < s.len() implies s[i] == '/' by {
            if i < s.len() - 1 {
                assert(s.drop_last()[i] == '/');
                assert(s[i] == s.drop_last()[i]);
            } else {
                assert(s[i] == s.last());
            }
        }
    } else {
        assert(s.take(s.len() as int) =~= s);
    }
}

pub proof fn lemma_strip_leading_props(s: Seq<char>)
    ensures
        strip_leading(s).len() <= s.len(),
        strip_leading(s) == s.skip(s.len() - strip_leading(s).len()),
        strip_leading(s).len() > 0 ==> strip_leading(s)[0] != '/',
        forall|i: int| 0 <= i < s.len() - strip_leading(s).len() ==> s[i] == '/',
    decreases s.len(),
{
    if s.len() > 0 && s[0] == '/' {
        let rest = s.subrange(1, s.len() as int);
        lemma_strip_leading_props(rest);
        let t = strip_leading(rest);
        assert(rest.skip(rest.len() - t.len()) =~= s.skip(s.len() - t.len()));
        assert forall|i: int| 0 <= i < s.len() - t.len() implies s[i] == '/' by {
            if i >= 1 {
                assert(rest[i - 1] == '/');
                assert(s[i] == rest[i - 1]);
            }
        }
    } else {
        assert(s.skip(0) =~= s);
    }
}

pub proof fn lemma_all_slashes_strip_trailing(s: Seq<char>)
    requires
        forall|i: int| 0 <= i < s.len() ==> s[i] == '/',
    ensures
        strip_trailing(s).len() == 0,
    decreases s.len(),
{
    if s.len() > 0 {
        lemma_all_slashes_strip_trailing(s.drop_last());
    }
}

pub proof fn lemma_all_slashes_strip_leading(s: Seq<char>)
    requires
        forall|i: int| 0 <= i < s.len() ==> s[i] == '/',
    ensures
        strip_leading(s).len() == 0,
    decreases s.len(),
{
    if s.len() > 0 {
        let rest = s.subrange(1, s.len() as int);
        lemma_all_slashes_strip_leading(rest);
    }
}

/// If everything from `b` on is a separator and `b` is not preceded by one,
/// then trailing trimming cuts exactly at `b`.
pub proof fn lemma_strip_trailing_take(s: Seq<char>, b: int)
    requires
        0 <= b <= s.len(),
        forall|i: int| b <= i < s.len() ==> s[i] == '/',
        b > 0 ==> s[b - 1] != '/',
    ensures
        strip_trailing(s) == s.take(b),
{
    assert(s =~= s.take(b) + s.skip(b));
    lemma_all_slashes_strip_trailing(s.skip(b));
    lemma_strip_trailing_concat(s.take(b), s.skip(b));
    if b > 0 {
        assert(s.take(b).last() == s[b - 1]);
        assert(strip_trailing(s.take(b)) == s.take(b));
    }
}

/// If everything before `a` is a separator and `a` is not one, then
/// leading trimming cuts exactly at `a`.
pub proof fn lemma_strip_leading_skip(s: Seq<char>, a: int)
    requires
        0 <= a <= s.len(),
        forall|i: int| 0 <= i < a ==> s[i] == '/',
        a < s.len() ==> s[a] != '/',
    ensures
        strip_leading(s) == s.skip(a),
{
    assert(s =~= s.take(a) + s.skip(a));
    lemma_all_slashes_strip_leading(s.take(a));
    lemma_strip_leading_concat(s.take(a), s.skip(a));
    if a < s.len() {
        assert(s.skip(a)[0] == s[a]);
        assert(strip_leading(s.skip(a)) == s.skip(a));
    }
}

/// The first `n` characters of `a` and `b` agree, or not.
fn chars_match(a: &str, b: &str, n: usize) -> (r: bool)
    requires
        n <= a@.len(),
        n <= b@.len(),
    ensures
        r == (a@.subrange(0, n as int) == b@.subrange(0, n as int)),
{
    let mut i: usize = 0;
    while i < n
        invariant
            0 <= i <= n,
            n <= a@.len(),
            n <= b@.len(),
            forall|j: int| 0 <= j < i ==> a@[j] == b@[j],
        decreases n - i,
    {
        if a.get_char(i) != b.get_char(i) {
            assert(a@.subrange(0, n as int)[i as int] != b@.subrange(0, n as int)[i as int]);
            return false;
        }
        i += 1;
    }
    assert(a@.subrange(0, n as int) =~= b@.subrange(0, n as int));
    true
}

/// The two strings hold the same characters.
pub fn str_eq(a: &str, b: &str) -> (r: bool)
    ensures
        r == (a@ == b@),
{
    let na = a.unicode_len();
    let nb = b.unicode_len();
    if na != nb {
        return false;
    }
    let r = chars_match(a, b, na);
    proof {
        assert(a@.subrange(0, na as int) =~= a@);
        assert(b@.subrange(0, nb as int) =~= b@);
    }
    r
}

/// `s` begins with the characters of `p`.
pub fn str_starts_with(s: &str, p: &str) -> (r: bool)
    ensures
        r == is_prefix(p@, s@),
{
    let n = s.unicode_len();
    let m = p.unicode_len();
    if m > n {
        return false;
    }
    let r = chars_match(s, p, m);
    proof {
        assert(p@.subrange(0, m as int) =~= p@);
    }
    r
}

/// Index just past the last character that is not a separator.
pub(crate) fn trailing_trim_len(s: &str) -> (b: usize)
    ensures
        b <= s@.len(),
        strip_trailing(s@) == s@.take(b as int),
        strip_trailing(s@).len() == b,
{
    let n = s.unicode_len();
    let mut b = n;
    while b > 0 && s.get_char(b - 1) == '/'
        invariant
            0 <= b <= n,
            n == s@.len(),
            forall|i: int| b <= i < n ==> s@[i] == '/',
        decreases b,
    {
        b -= 1;
    }
    proof {
        lemma_strip_trailing_take(s@, b as int);
    }
    b
}

/// Index of the first character that is not a separator.
pub(crate) fn leading_trim_len(s: &str) -> (a: usize)
    ensures
        a <= s@.len(),
        strip_leading(s@) == s@.skip(a as int),
        forall|i: int| 0 <= i < a ==> s@[i] == '/',
        a < s@.len() ==> s@[a as int] != '/',
{
    let n = s.unicode_len();
    let mut a: usize = 0;
    while a < n && s.get_char(a) == '/'
        invariant
            0 <= a <= n,
            n == s@.len(),
            forall|i: int| 0 <= i < a ==> s@[i] == '/',
        decreases n - a,
    {
        a += 1;
    }
    proof {
        lemma_strip_leading_skip(s@, a as int);
    }
    a
}

/// The two texts denote the same path, ignoring trailing separators.
pub fn paths_equal(a: &str, b: &str) -> (r: bool)
    ensures
        r == path_eq(a@, b@),
{
    let ba = trailing_trim_len(a);
    let bb = trailing_trim_len(b);
    if ba != bb {
        return false;
    }
    let r = chars_match(a, b, ba);
    proof {
        assert(a@.take(ba as int) =~= a@.subrange(0, ba as int));
        assert(b@.take(bb as int) =~= b@.subrange(0, bb as int));
    }
    r
}

/// `path` equals `key` or is a descendant of it, component-wise.
pub fn path_under(path: &str, key: &str) -> (r: bool)
    ensures
        r == is_under(path@, key@),
{
    let bp = trailing_trim_len(path);
    let bk = trailing_trim_len(key);
    proof {
        assert(path@.take(bp as int) =~= path@.subrange(0, bp as int));
        assert(key@.take(bk as int) =~= key@.subrange(0, bk as int));
    }
    if bp == bk {
        let r = chars_match(path, key, bk);
        r
    } else if bk < bp {
        if !chars_match(path, key, bk) {
            proof {
                let p0 = strip_trailing(path@);
                let k0 = strip_trailing(key@);
                assert(p0.subrange(0, bk as int) =~= path@.subrange(0, bk as int));
            }
            return false;
        }
        let r = path.get_char(bk) == '/';
        proof {
            let p0 = strip_trailing(path@);
            let k0 = strip_trailing(key@);
            assert(p0.subrange(0, bk as int) =~= path@.subrange(0, bk as int));
            assert(p0[bk as int] == path@[bk as int]);
        }
        r
    } else {
        false
    }
}

/// Strips all leading separators from a path, except from the root
/// directory text `/` itself.
pub fn strip_leading_slashes(path: String) -> (r: String)
    ensures
        r@ == spec_strip_leading_slashes(path@),
{
    proof {
        reveal_strlit("/");
        assert("/"@ =~= seq!['/']);
    }
    if str_eq(path.as_str(), "/") {
        return path;
    }
    let a = leading_trim_len(path.as_str());
    let n = path.as_str().unicode_len();
    let r = path.as_str().substring_char(a, n).to_owned();
    proof {
        assert(path@.subrange(a as int, n as int) =~= path@.skip(a as int));
    }
    r
}

/// Strips all trailing separators from a path, except from the root
/// directory text `/` itself.
pub fn strip_trailing_slashes(path: String) -> (r: String)
    ensures
        r@ == spec_strip_trailing_slashes(path@),
{
    proof {
        reveal_strlit("/");
        assert("/"@ =~= seq!['/']);
    }
    if str_eq(path.as_str(), "/") {
        return path;
    }
    let b = trailing_trim_len(path.as_str());
    let r = path.as_str().substring_char(0, b).to_owned();
    proof {
        assert(path@.subrange(0, b as int) =~= path@.take(b as int));
    }
    r
}

} // verus!
