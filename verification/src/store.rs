//! Where the state store keeps each thing: one directory per registered repo, outside the
//! repo. Paths are built as `PathBuf::join` builds them on Unix; reading and writing the files
//! is the caller's.
//!
//! ```text
//! <store>/
//!   repo.yaml
//!   snapshots/<doc-key>/<sha>.yaml
//!   current/<ctx-key>/<doc-key>      # the sha of the current snapshot for (context, doc)
//!   reqs/<slug>.yaml
//!   questions/<slug>.yaml
//!   groups/<slug>.yaml
//!   rounds/<ctx-key>/<doc-key>/<n>.yaml
//!   marks/<ctx-key>/<doc-key>.yaml
//!   pending/<ctx-key>/<doc-key>.yaml   # reconciliation awaiting confirmation
//!   exports/last.yaml
//!   .lock
//! ```

use crate::classify::{free_slug, free_slug_result, result_v};
use crate::groups::{groups_by_req as derive_groups_by_req, key_v, member_keys, titles_of};
use crate::id::{spec_valid_slug, valid_slug, Key};
use crate::model::{context_key, doc_key, Context, Group, ReqRev};
use crate::order::pairs_sorted;
use crate::text::{copy_str, decimal, push_char, push_str, replace_slash, replace_slash_exec, strings_v};
use vstd::prelude::*;

verus! {

broadcast use vstd::string::group_string_axioms;

/// `PathBuf::join` on Unix: an absolute `b` replaces `a`; otherwise `b` follows `a` after one
/// separator.
pub open spec fn join_path(a: Seq<char>, b: Seq<char>) -> Seq<char> {
    if b.len() > 0 && b[0] == '/' {
        b
    } else if a.len() == 0 || a.last() == '/' {
        a + b
    } else {
        a + seq!['/'] + b
    }
}

pub fn join(a: &str, b: &str) -> (r: String)
    ensures
        r@ == join_path(a@, b@),
{
    let bv = crate::text::chars_of(b);
    let av = crate::text::chars_of(a);
    if bv.len() > 0 && bv[0] == '/' {
        return copy_str(b);
    }
    let mut s = copy_str(a);
    if !(av.len() == 0 || av[av.len() - 1] == '/') {
        push_char(&mut s, '/');
    }
    push_str(&mut s, b);
    proof {
        if !(av@.len() == 0 || av@.last() == '/') {
            assert(s@ =~= a@ + seq!['/'] + b@);
        }
    }
    s
}

/// `<home>/repos/<owner>__<name>`
pub open spec fn spec_store_dir_for(home: Seq<char>, github: Seq<char>) -> Seq<char> {
    join_path(join_path(home, "repos"@), replace_slash(github))
}

/// `<home>/clones/<owner>__<name>`
pub open spec fn spec_clone_dir_for(home: Seq<char>, github: Seq<char>) -> Seq<char> {
    join_path(join_path(home, "clones"@), replace_slash(github))
}

/// The store directory of repo `github` (`owner/name`) under `home`.
pub fn store_dir_for(home: &str, github: &str) -> (r: String)
    ensures
        r@ == spec_store_dir_for(home@, github@),
{
    proof {
        reveal_strlit("repos");
    }
    join(join(home, "repos").as_str(), replace_slash_exec(github).as_str())
}

/// The clone directory of repo `github` under `home`.
pub fn clone_dir_for(home: &str, github: &str) -> (r: String)
    ensures
        r@ == spec_clone_dir_for(home@, github@),
{
    proof {
        reveal_strlit("clones");
    }
    join(join(home, "clones").as_str(), replace_slash_exec(github).as_str())
}

/// `n` in decimal, zero-padded to four digits (`{:04}`).
pub open spec fn pad4(n: nat) -> Seq<char> {
    let d = decimal(n);
    if d.len() >= 4 { d } else { Seq::new((4 - d.len()) as nat, |i: int| '0') + d }
}

/// A state store: the directory holding one repo's state.
#[derive(Debug, Clone)]
pub struct Store {
    root: String,
}

impl Store {
    pub closed spec fn root_v(&self) -> Seq<char> {
        self.root@
    }

    pub fn root(&self) -> (r: &str)
        ensures
            r@ == self.root_v(),
    {
        self.root.as_str()
    }

    /// An existing store at `root`; `has_repo_yaml` says whether `root/repo.yaml` exists.
    pub fn open(root: &str, has_repo_yaml: bool) -> (r: Result<Store, String>)
        ensures
            has_repo_yaml ==> (r matches Ok(s) && s.root_v() == root@),
            !has_repo_yaml ==> (r matches Err(m) && m@ == "no kansa store at "@ + root@),
    {
        if !has_repo_yaml {
            let mut m = copy_str("no kansa store at ");
            push_str(&mut m, root);
            proof {
                reveal_strlit("no kansa store at ");
            }
            return Err(m);
        }
        Ok(Store { root: copy_str(root) })
    }

    /// `root/name`.
    pub fn path(&self, name: &str) -> (r: String)
        ensures
            r@ == join_path(self.root_v(), name@),
    {
        join(self.root.as_str(), name)
    }

    /// `snapshots/<doc-key>/<sha>.yaml`
    pub fn snapshot_path(&self, doc: &str, sha: &str) -> (r: String)
        ensures
            r@ == join_path(join_path(join_path(self.root_v(), "snapshots"@), replace_slash(doc@)), sha@ + ".yaml"@),
    {
        proof {
            reveal_strlit("snapshots");
            reveal_strlit(".yaml");
        }
        let mut f = copy_str(sha);
        push_str(&mut f, ".yaml");
        join(join(join(self.root.as_str(), "snapshots").as_str(), doc_key(doc).as_str()).as_str(), f.as_str())
    }

    /// `current/<ctx-key>/<doc-key>`: holds the sha of the current snapshot.
    pub fn current_ptr(&self, ctx: &Context, doc: &str) -> (r: String)
        ensures
            r@ == join_path(join_path(join_path(self.root_v(), "current"@), context_key(*ctx)), replace_slash(doc@)),
    {
        proof {
            reveal_strlit("current");
        }
        join(join(join(self.root.as_str(), "current").as_str(), ctx.key().as_str()).as_str(), doc_key(doc).as_str())
    }

    /// `<dir>/<ctx-key>/<doc-key>.yaml`, for marks and pending reconciliations.
    fn per_doc_path(&self, dir: &str, ctx: &Context, doc: &str) -> (r: String)
        ensures
            r@ == join_path(join_path(join_path(self.root_v(), dir@), context_key(*ctx)), replace_slash(doc@) + ".yaml"@),
    {
        proof {
            reveal_strlit(".yaml");
        }
        let mut f = doc_key(doc);
        push_str(&mut f, ".yaml");
        join(join(join(self.root.as_str(), dir).as_str(), ctx.key().as_str()).as_str(), f.as_str())
    }

    /// `marks/<ctx-key>/<doc-key>.yaml`
    pub fn marks_path(&self, ctx: &Context, doc: &str) -> (r: String)
        ensures
            r@ == join_path(join_path(join_path(self.root_v(), "marks"@), context_key(*ctx)), replace_slash(doc@) + ".yaml"@),
    {
        proof {
            reveal_strlit("marks");
        }
        self.per_doc_path("marks", ctx, doc)
    }

    /// `pending/<ctx-key>/<doc-key>.yaml`
    pub fn pending_path(&self, ctx: &Context, doc: &str) -> (r: String)
        ensures
            r@ == join_path(join_path(join_path(self.root_v(), "pending"@), context_key(*ctx)), replace_slash(doc@) + ".yaml"@),
    {
        proof {
            reveal_strlit("pending");
        }
        self.per_doc_path("pending", ctx, doc)
    }

    /// `proposals/<ctx-key>/<doc-key>.yaml`: an agent's proposals for a doc.
    pub fn proposals_path(&self, ctx: &Context, doc: &str) -> (r: String)
        ensures
            r@ == join_path(join_path(join_path(self.root_v(), "proposals"@), context_key(*ctx)), replace_slash(doc@) + ".yaml"@),
    {
        proof {
            reveal_strlit("proposals");
        }
        self.per_doc_path("proposals", ctx, doc)
    }

    /// `jobs/<ctx-key>/<doc-key>.yaml`: the state of a doc's prefill job.
    pub fn job_path(&self, ctx: &Context, doc: &str) -> (r: String)
        ensures
            r@ == join_path(join_path(join_path(self.root_v(), "jobs"@), context_key(*ctx)), replace_slash(doc@) + ".yaml"@),
    {
        proof {
            reveal_strlit("jobs");
        }
        self.per_doc_path("jobs", ctx, doc)
    }

    /// `cache/<key>.yaml`: a cached listing.
    pub fn cache_path(&self, key: &str) -> (r: String)
        ensures
            r@ == join_path(join_path(self.root_v(), "cache"@), key@ + ".yaml"@),
    {
        proof {
            reveal_strlit("cache");
            reveal_strlit(".yaml");
        }
        let mut f = copy_str(key);
        push_str(&mut f, ".yaml");
        join(join(self.root.as_str(), "cache").as_str(), f.as_str())
    }

    /// `rounds/<ctx-key>/<doc-key>`
    pub fn rounds_dir(&self, ctx: &Context, doc: &str) -> (r: String)
        ensures
            r@ == join_path(join_path(join_path(self.root_v(), "rounds"@), context_key(*ctx)), replace_slash(doc@)),
    {
        proof {
            reveal_strlit("rounds");
        }
        join(join(join(self.root.as_str(), "rounds").as_str(), ctx.key().as_str()).as_str(), doc_key(doc).as_str())
    }

    /// `rounds/<ctx-key>/<doc-key>/<n>.yaml`, `n` zero-padded to four digits.
    pub fn round_path(&self, ctx: &Context, doc: &str, n: u32) -> (r: String)
        ensures
            r@ == join_path(join_path(join_path(join_path(self.root_v(), "rounds"@), context_key(*ctx)), replace_slash(doc@)), pad4(n as nat) + ".yaml"@),
    {
        proof {
            reveal_strlit(".yaml");
            crate::text::lemma_decimal(n as nat);
        }
        let d = crate::text::decimal_string(n);
        let dv = crate::text::chars_of(d.as_str());
        let mut f = String::new();
        if dv.len() < 4 {
            let mut k: usize = dv.len();
            while k < 4
                invariant
                    dv@.len() <= k <= 4,
                    dv@ == d@,
                    f@ == Seq::new((k - dv@.len()) as nat, |i: int| '0'),
                decreases 4 - k,
            {
                push_char(&mut f, '0');
                proof {
                    assert(f@ =~= Seq::new((k + 1 - dv@.len()) as nat, |i: int| '0'));
                }
                k += 1;
            }
        }
        push_str(&mut f, d.as_str());
        push_str(&mut f, ".yaml");
        proof {
            if dv@.len() >= 4 {
                assert(f@ =~= decimal(n as nat) + ".yaml"@);
            } else {
                assert(f@ =~= pad4(n as nat) + ".yaml"@);
            }
        }
        join(self.rounds_dir(ctx, doc).as_str(), f.as_str())
    }

    /// `<dir>/<slug>.yaml` for a requirement, question or group file; fails on an invalid slug.
    pub fn slug_path(&self, dir: &str, slug: &str) -> (r: Result<String, String>)
        ensures
            spec_valid_slug(slug@) ==> (r matches Ok(p) && p@ == join_path(join_path(self.root_v(), dir@), slug@ + ".yaml"@)),
            !spec_valid_slug(slug@) ==> (r matches Err(m) && m@ == "invalid slug `"@ + slug@ + seq!['`']),
    {
        if !valid_slug(slug) {
            let mut m = copy_str("invalid slug `");
            push_str(&mut m, slug);
            push_char(&mut m, '`');
            proof {
                reveal_strlit("invalid slug `");
            }
            return Err(m);
        }
        let mut f = copy_str(slug);
        push_str(&mut f, ".yaml");
        proof {
            reveal_strlit(".yaml");
        }
        Ok(join(join(self.root.as_str(), dir).as_str(), f.as_str()))
    }

    /// The next rev for a requirement whose file holds `revs`: one past the newest, 1 if none.
    pub fn next_req_rev(&self, revs: &Vec<ReqRev>) -> (n: u32)
        requires
            revs@.len() > 0 ==> revs@.last().id.rev < u32::MAX,
        ensures
            n == (if revs@.len() > 0 { revs@.last().id.rev + 1 } else { 1 }),
    {
        if revs.len() > 0 {
            revs[revs.len() - 1].id.rev + 1
        } else {
            1
        }
    }

    /// A requirement slug for `base` no requirement file holds (`taken`: the slugs of the
    /// requirement files with revs): `base`, else `base-2` … `base-999`.
    pub fn free_req_slug(&self, base: &str, taken: &Vec<String>) -> (r: Result<String, String>)
        ensures
            free_slug_result(base@, strings_v(taken@), result_v(r)),
    {
        free_slug(base, taken)
    }

    /// Group titles per requirement key, derived from the current groups.
    pub fn groups_by_req(&self, groups: &Vec<Group>) -> (r: Vec<(Key, Vec<String>)>)
        ensures
            pairs_sorted(r@.map_values(|e: (Key, Vec<String>)| key_v(e.0))),
            r@.map_values(|e: (Key, Vec<String>)| key_v(e.0)).to_set() == member_keys(groups@),
            forall|k: int| 0 <= k < r@.len() ==> titles_of((#[trigger] r@[k]).1@, groups@, key_v(r@[k].0)),
    {
        derive_groups_by_req(groups)
    }
}

} // verus!
