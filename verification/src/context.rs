//! The resolver's immutable context: the home directory and the
//! configured project mappings.
//!
//! A mapping is declared in configuration as a pair of texts: a path,
//! possibly beginning with the home-relative marker `~/`, and an alias.
//! Building the context expands each declared path against the home
//! directory into an absolute key; the declared text itself is kept,
//! because alias collapsing rewrites the declared text inside the
//! displayed string.

use vstd::prelude::*;
use vstd::string::StrSliceExecFns;
use vstd::string::StringExecFns;

use crate::path_text::is_prefix;
use crate::path_text::str_starts_with;
use crate::path_text::strip_trailing;

verus! {

/// One project mapping, ready for lookup: the expanded absolute key,
/// the path text it was declared with, and the alias that replaces it.
pub struct Mapping {
    pub key: String,
    pub text: String,
    pub alias: String,
}

/// Mathematical model of a `Mapping`.
pub struct MappingModel {
    pub key: Seq<char>,
    pub text: Seq<char>,
    pub alias: Seq<char>,
}

impl View for Mapping {
    type V = MappingModel;

    open spec fn view(&self) -> MappingModel {
        MappingModel { key: self.key@, text: self.text@, alias: self.alias@ }
    }
}

/// The immutable context a path is resolved against.
pub struct ResolverContext {
    pub home: String,
    pub mappings: Vec<Mapping>,
}

/// Mathematical model of a `ResolverContext`.
pub struct CtxModel {
    pub home: Seq<char>,
    pub mappings: Seq<MappingModel>,
}

impl View for ResolverContext {
    type V = CtxModel;

    open spec fn view(&self) -> CtxModel {
        CtxModel {
            home: self.home@,
            mappings: Seq::new(self.mappings@.len(), |i: int| self.mappings@[i]@),
        }
    }
}

/// The text is absolute: it begins with the separator.
pub open spec fn is_abs(s: Seq<char>) -> bool {
    s.len() > 0 && s[0] == '/'
}

/// Expansion of a declared mapping path against the home directory: a
/// leading `~/` is replaced by the home directory and a separator; any
/// other text is kept as it stands.
pub open spec fn spec_expand_home(home: Seq<char>, path: Seq<char>) -> Seq<char> {
    if is_prefix(seq!['~', '/'], path) {
        if home.len() > 0 && home.last() == '/' {
            home + path.skip(2)
        } else {
            home + seq!['/'] + path.skip(2)
        }
    } else {
        path
    }
}

/// Well-formedness of a context, as the loader is meant to establish it:
/// the home directory is absolute; every key is the expansion of its
/// declared text; every key is an absolute path with no trailing
/// separator (or the root itself); and keys are unique.
pub open spec fn ctx_wf(ctx: CtxModel) -> bool {
    &&& is_abs(ctx.home)
    &&& forall|i: int|
        0 <= i < ctx.mappings.len() ==> {
            let m = #[trigger] ctx.mappings[i];
            &&& m.key == spec_expand_home(ctx.home, m.text)
            &&& is_abs(m.key)
            &&& (m.key == strip_trailing(m.key) || m.key == seq!['/'])
        }
    &&& forall|i: int, j: int|
        0 <= i < j < ctx.mappings.len() ==> (#[trigger] ctx.mappings[i]).key != (
        #[trigger] ctx.mappings[j]).key
}

/// Expands a declared path that starts with `~/` into an absolute path
/// under `home`; any other text is returned unchanged.
pub fn expand_home_alias(home: &str, path: &str) -> (r: String)
    ensures
        r@ == spec_expand_home(home@, path@),
{
    proof {
        reveal_strlit("~/");
        reveal_strlit("/");
        assert(seq!['~', '/'] =~= "~/"@);
        assert(seq!['/'] =~= "/"@);
    }
    if !str_starts_with(path, "~/") {
        return path.to_owned();
    }
    let n = path.unicode_len();
    let rest = path.substring_char(2, n);
    let mut r = home.to_owned();
    let hn = home.unicode_len();
    if hn == 0 || home.get_char(hn - 1) != '/' {
        r.append("/");
    }
    r.append(rest);
    proof {
        assert(r@ =~= spec_expand_home(home@, path@));
    }
    r
}

impl ResolverContext {
    /// Builds the context from the home directory and the declared
    /// `(path, alias)` pairs, expanding each path into its key.
    pub fn new(home: String, projects: Vec<(String, String)>) -> (ctx: ResolverContext)
        ensures
            ctx@.home == home@,
            ctx@.mappings.len() == projects@.len(),
            forall|i: int|
                0 <= i < projects@.len() ==> {
                    let m = #[trigger] ctx@.mappings[i];
                    &&& m.text == projects@[i].0@
                    &&& m.alias == projects@[i].1@
                    &&& m.key == spec_expand_home(home@, projects@[i].0@)
                },
    {
        let mut mappings: Vec<Mapping> = Vec::new();
        let mut idx: usize = 0;
        while idx < projects.len()
            invariant
                idx <= projects@.len(),
                mappings@.len() == idx,
                forall|i: int|
                    0 <= i < idx ==> {
                        let m = #[trigger] mappings@[i];
                        &&& m@.text == projects@[i].0@
                        &&& m@.alias == projects@[i].1@
                        &&& m@.key == spec_expand_home(home@, projects@[i].0@)
                    },
            decreases projects@.len() - idx,
        {
            let text = projects[idx].0.clone();
            let alias = projects[idx].1.clone();
            let key = expand_home_alias(home.as_str(), text.as_str());
            mappings.push(Mapping { key, text, alias });
            idx += 1;
        }
        ResolverContext { home, mappings }
    }
}

} // verus!
