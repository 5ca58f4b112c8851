//! Reachability analysis: objects present in the store but reachable from no
//! ref. Such an object is residue of deleted or rewritten history — it
//! remains resurrectable from the object store until garbage-collected.
//! Commits are the most telling (a whole dropped line of development); blobs
//! and trees are lower-signal. An examiner follows these leads; they are
//! never a conclusion.
use vstd::prelude::*;
use vstd::utf8::*;
use vstd::string::StringSliceAdditionalSpecFns;

use crate::error::{GitError, GitErrorModel};
use crate::files::RepoModel;
use crate::hash::{hex_encode, GitHash};
use crate::index::HashIndex;
use crate::object::{kind_name, kind_name_bytes, ObjectKind};
use crate::reachability::{reachable_from, reachable_set, ref_targets};
use crate::refs::spec_list_refs;
use crate::repo::{spec_all_objects, spec_read_object, GitRepo};
use crate::report::{evidence, evidence_model, Category, Evidence, Severity};
use crate::files::bytes_equal;
use crate::strings::{all_ascii, ascii_to_string, push_text, text, utf8_string};

verus! {

broadcast use vstd::utf8::group_utf8_lib;

/// An object present in the store yet reachable from no ref.
#[derive(Debug, Clone, PartialEq, Eq)]
pub struct UnreachableObject {
    /// The unreachable object's hash.
    pub object: GitHash,
    /// Its kind as a lowercase git type (`commit`, `tree`, `blob`, `tag`), or
    /// `unknown` when it cannot be read.
    pub kind: String,
}

impl UnreachableObject {
    /// The object and its kind's name as UTF-8 bytes.
    pub open spec fn model(&self) -> (GitHash, Seq<u8>) {
        (self.object, encode_utf8(self.kind@))
    }
}

pub open spec fn unreachable_model(v: Seq<UnreachableObject>) -> Seq<(GitHash, Seq<u8>)> {
    v.map_values(|u: UnreachableObject| u.model())
}

/// The note of an unreachable object, as UTF-8 bytes.
pub open spec fn unreachable_note(kind: Seq<u8>) -> Seq<u8> {
    kind + " object reachable from no ref; consistent with deleted or rewritten history (the object remains resurrectable from the store until gc)".spec_bytes()
}

impl UnreachableObject {
    /// A resurrectable dropped commit (deleted/rewritten history) is the
    /// sharper lead; a loose blob/tree is lower signal.
    pub fn severity(&self) -> (r: Option<Severity>)
        ensures
            r == if self.model().1 == "commit".spec_bytes() {
                Some(Severity::Medium)
            } else {
                Some(Severity::Low)
            },
    {
        if bytes_equal(self.kind.as_str().as_bytes(), "commit".as_bytes()) {
            Some(Severity::Medium)
        } else {
            Some(Severity::Low)
        }
    }

    /// The stable, published anomaly code.
    pub fn code(&self) -> (r: &'static str)
        ensures
            r@ == "GIT-UNREACHABLE-OBJECT"@,
    {
        "GIT-UNREACHABLE-OBJECT"
    }

    /// Residue of deleted/rewritten history.
    pub fn category(&self) -> (r: Category)
        ensures
            r == Category::Residue,
    {
        Category::Residue
    }

    /// What was observed, and what it is consistent with.
    pub fn note(&self) -> (r: String)
        ensures
            encode_utf8(r@) == unreachable_note(self.model().1),
    {
        let mut v: Vec<u8> = Vec::new();
        push_text(&mut v, self.kind.as_str());
        push_text(
            &mut v,
            " object reachable from no ref; consistent with deleted or rewritten history (the object remains resurrectable from the store until gc)",
        );
        proof {
            let k = encode_utf8(self.kind@);
            let p = " object reachable from no ref; consistent with deleted or rewritten history (the object remains resurrectable from the store until gc)".spec_bytes();
            assert(v@ =~= k + p);
            assert(valid_utf8(k) && valid_utf8(p));
        }
        utf8_string(v)
    }

    /// The object and its kind.
    pub fn evidence(&self) -> (r: Vec<Evidence>)
        ensures
            evidence_model(r@) == seq![
                ("object".spec_bytes(), hex_encode(self.object.0@)),
                ("kind".spec_bytes(), self.model().1),
            ],
    {
        let r = vec![evidence("object", self.object.to_hex()), evidence("kind", self.kind.clone())];
        assert(evidence_model(r@) =~= seq![
            ("object".spec_bytes(), hex_encode(self.object.0@)),
            ("kind".spec_bytes(), encode_utf8(self.kind@)),
        ]);
        r
    }
}

/// The name of an object's kind for grading: its type, or `unknown` when it
/// cannot be read.
pub open spec fn object_kind_text(m: RepoModel, h: GitHash) -> Seq<u8> {
    match spec_read_object(m, h) {
        Ok(o) => kind_name(o.kind),
        Err(_) => "unknown".spec_bytes(),
    }
}

/// The objects of `all` outside `reached`, in order, each with its kind.
pub open spec fn unreachable_among(m: RepoModel, all: Seq<GitHash>, reached: Set<GitHash>) -> Seq<(GitHash, Seq<u8>)>
    decreases all.len(),
{
    if all.len() == 0 {
        seq![]
    } else {
        unreachable_among(m, all.drop_last(), reached) + if reached.contains(all.last()) {
            seq![]
        } else {
            seq![(all.last(), object_kind_text(m, all.last()))]
        }
    }
}

/// The audit's report, given the listed objects `all` and the reachable set,
/// is exact: each reported object is listed, unreached, and carries its kind;
/// each listed object that is not reached is reported.
pub proof fn law_unreachable_exact(m: RepoModel, all: Seq<GitHash>, reached: Set<GitHash>)
    ensures
        forall|k: int|
            0 <= k < unreachable_among(m, all, reached).len() ==> {
                let u = #[trigger] unreachable_among(m, all, reached)[k];
                all.contains(u.0) && !reached.contains(u.0) && u.1 == object_kind_text(m, u.0)
            },
        forall|h: GitHash|
            all.contains(h) && !reached.contains(h) ==> #[trigger] unreachable_among(m, all, reached).contains(
                (h, object_kind_text(m, h)),
            ),
    decreases all.len(),
{
    if all.len() > 0 {
        let d = all.drop_last();
        law_unreachable_exact(m, d, reached);
        let ud = unreachable_among(m, d, reached);
        let u = unreachable_among(m, all, reached);
        assert(all =~= d.push(all.last()));
        assert forall|k: int| 0 <= k < u.len() implies {
            let x = #[trigger] u[k];
            all.contains(x.0) && !reached.contains(x.0) && x.1 == object_kind_text(m, x.0)
        } by {
            if k < ud.len() {
                assert(u[k] == ud[k]);
                let j = choose|j: int| 0 <= j < d.len() && d[j] == ud[k].0;
                assert(all[j] == d[j]);
            } else {
                assert(all[all.len() - 1] == all.last());
            }
        }
        assert forall|h: GitHash| all.contains(h) && !reached.contains(h) implies #[trigger] u.contains(
            (h, object_kind_text(m, h)),
        ) by {
            let j = choose|j: int| 0 <= j < all.len() && all[j] == h;
            if j < d.len() {
                assert(d[j] == h);
                assert(ud.contains((h, object_kind_text(m, h))));
                let k = choose|k: int| 0 <= k < ud.len() && ud[k] == (h, object_kind_text(m, h));
                assert(u[k] == ud[k]);
            } else {
                assert(u[ud.len() as int] == (h, object_kind_text(m, h)));
            }
        }
    }
}

/// The type name of `k`.
fn kind_str(k: ObjectKind) -> (r: String)
    ensures
        encode_utf8(r@) == kind_name(k),
{
    let b = kind_name_bytes(k);
    assert(all_ascii(b@));
    ascii_to_string(b)
}

/// The objects of `all` that `reached` does not hold, each with its kind.
fn unreachable_objects(repo: &GitRepo, reached: &HashIndex, all: &Vec<GitHash>) -> (r: Vec<UnreachableObject>)
    requires
        reached.wf(),
    ensures
        unreachable_model(r@) == unreachable_among(repo@, all@, reached.view().dom()),
{
    let ghost m = repo@;
    let ghost set = reached.view().dom();
    let mut out: Vec<UnreachableObject> = Vec::new();
    let mut i: usize = 0;
    assert(all@.take(0) =~= Seq::<GitHash>::empty());
    assert(unreachable_model(out@) =~= seq![]);
    while i < all.len()
        invariant
            m == repo@,
            set == reached.view().dom(),
            reached.wf(),
            0 <= i <= all@.len(),
            unreachable_model(out@) == unreachable_among(m, all@.take(i as int), set),
        decreases all@.len() - i,
    {
        let h = all[i];
        assert(all@.take(i + 1).drop_last() =~= all@.take(i as int));
        assert(all@.take(i + 1).last() == h);
        if reached.get(&h).is_none() {
            let kind = match repo.read_object(&h) {
                Ok(o) => kind_str(o.kind),
                Err(_) => text("unknown"),
            };
            let ghost before = unreachable_model(out@);
            let u = UnreachableObject { object: h, kind };
            out.push(u);
            assert(unreachable_model(out@) =~= before.push(u.model()));
        }
        assert(unreachable_model(out@) =~= unreachable_among(m, all@.take(i + 1), set));
        i = i + 1;
    }
    assert(all@.take(all@.len() as int) =~= all@);
    out
}

/// Audit `repo` for objects reachable from no ref (`all_objects − reachable`).
///
/// # Errors
/// An error from ref enumeration or object enumeration. A ref-enumeration
/// failure is surfaced rather than misreported as every object being
/// unreachable.
pub fn audit_unreachable(repo: &GitRepo) -> (r: Result<Vec<UnreachableObject>, GitError>)
    ensures
        r is Ok <==> spec_list_refs(repo@.files, repo@.refs_unreadable) is Ok && spec_all_objects(repo@) is Ok,
        r matches Err(e) ==> match spec_list_refs(repo@.files, repo@.refs_unreadable) {
            Err(k) => e.model() == k,
            Ok(_) => spec_all_objects(repo@) == Err::<Seq<GitHash>, GitErrorModel>(e.model()),
        },
        r matches Ok(v) ==> exists|s: Set<GitHash>|
            #![trigger unreachable_among(repo@, spec_all_objects(repo@)->Ok_0, s)]
            reachable_from(repo@, ref_targets(spec_list_refs(repo@.files, repo@.refs_unreadable)->Ok_0), s)
                && unreachable_model(v@) == unreachable_among(repo@, spec_all_objects(repo@)->Ok_0, s),
{
    let reached = match reachable_set(repo) {
        Ok(s) => s,
        Err(e) => return Err(e),
    };
    let all = match repo.all_objects() {
        Ok(v) => v,
        Err(e) => return Err(e),
    };
    let out = unreachable_objects(repo, &reached, &all);
    assert(unreachable_model(out@) == unreachable_among(repo@, spec_all_objects(repo@)->Ok_0, reached.view().dom()));
    Ok(out)
}

} // verus!
