//! Reachability over the object graph: commit → tree and parents, tree →
//! entries. Also the bound that makes a walk of it finite: every object that
//! can be read is named by a loose file or by an entry of a pack index, so a
//! walk expands at most as many objects as the store has such names.
use vstd::prelude::*;

use crate::error::{GitError, GitErrorModel};
use crate::files::{first_loose, lemma_first_loose, loose_matches, LooseModel, PackModel, RepoModel};
use crate::hash::{hash_of_bytes, hex_encode, lemma_hash_eq, lemma_hash_of_bytes, lemma_hex_encode_decode, GitHash};
use crate::loose::spec_read_loose;
use crate::object::ObjectKind;
use crate::pack::{idx_search, name_order, names_base, spec_be_u32, spec_idx_lookup};
use crate::index::HashIndex;
use crate::refs::{refs_model, spec_list_refs};
use crate::repo::{spec_packs_from, spec_read_commit, spec_read_object, spec_read_tree, GitRepo};
use crate::seqs::lemma_push_contains;
use crate::tree::{entries_model, TreeEntryModel};

verus! {

/// The objects that `h` points at: a readable commit's tree and parents, a
/// readable tree's entries; nothing for a blob, a tag (whose target is not
/// parsed), or an object that cannot be read or parsed.
pub open spec fn successors(m: RepoModel, h: GitHash) -> Seq<GitHash> {
    match spec_read_object(m, h) {
        Err(_) => seq![],
        Ok(o) => if o.kind == ObjectKind::Commit {
            match spec_read_commit(m, h) {
                Ok(c) => seq![c.tree] + c.parents,
                Err(_) => seq![],
            }
        } else if o.kind == ObjectKind::Tree {
            match spec_read_tree(m, h) {
                Ok(es) => es.map_values(|e: TreeEntryModel| e.hash),
                Err(_) => seq![],
            }
        } else {
            seq![]
        },
    }
}

/// `s` holds the roots and every successor of each of its objects.
pub open spec fn closed_under(m: RepoModel, roots: Seq<GitHash>, s: Set<GitHash>) -> bool {
    &&& forall|i: int| 0 <= i < roots.len() ==> s.contains(#[trigger] roots[i])
    &&& forall|g: GitHash, k: int|
        s.contains(g) && 0 <= k < successors(m, g).len() ==> s.contains(#[trigger] successors(m, g)[k])
}

/// Each object of `order` is a root or a successor of an earlier one.
pub open spec fn derivation(m: RepoModel, roots: Seq<GitHash>, order: Seq<GitHash>) -> bool {
    forall|i: int|
        0 <= i < order.len() ==> roots.contains(#[trigger] order[i]) || exists|j: int|
            0 <= j < i && successors(m, order[j]).contains(order[i])
}

/// `s` is the set of objects reachable from `roots`: it is closed, and each
/// of its objects is reached by a chain of successors from a root.
pub open spec fn reachable_from(m: RepoModel, roots: Seq<GitHash>, s: Set<GitHash>) -> bool {
    &&& closed_under(m, roots, s)
    &&& exists|order: Seq<GitHash>| derivation(m, roots, order) && #[trigger] order.to_set() == s
}

/// Every object of a derivation lies in each closed set.
proof fn lemma_derivation_within(m: RepoModel, roots: Seq<GitHash>, order: Seq<GitHash>, t: Set<GitHash>, n: int)
    requires
        derivation(m, roots, order),
        closed_under(m, roots, t),
        0 <= n <= order.len(),
    ensures
        forall|i: int| 0 <= i < n ==> t.contains(#[trigger] order[i]),
    decreases n,
{
    if n > 0 {
        lemma_derivation_within(m, roots, order, t, n - 1);
        let x = order[n - 1];
        if roots.contains(x) {
            let i = choose|i: int| 0 <= i < roots.len() && roots[i] == x;
            assert(t.contains(roots[i]));
        } else {
            let j = choose|j: int| 0 <= j < n - 1 && successors(m, order[j]).contains(order[n - 1]);
            assert(t.contains(order[j]));
            let k = choose|k: int| 0 <= k < successors(m, order[j]).len() && successors(m, order[j])[k] == x;
            assert(t.contains(successors(m, order[j])[k]));
        }
    }
}

/// The reachable set is the least closed set: it lies within every set that
/// holds the roots and is closed under successors. Hence it is unique.
pub proof fn law_reachable_least(m: RepoModel, roots: Seq<GitHash>, s: Set<GitHash>, t: Set<GitHash>)
    requires
        reachable_from(m, roots, s),
        closed_under(m, roots, t),
    ensures
        s.subset_of(t),
{
    let order = choose|order: Seq<GitHash>| derivation(m, roots, order) && #[trigger] order.to_set() == s;
    lemma_derivation_within(m, roots, order, t, order.len() as int);
    assert forall|g: GitHash| s.contains(g) implies t.contains(g) by {
        assert(order.to_set().contains(g));
        let i = choose|i: int| 0 <= i < order.len() && order[i] == g;
    }
}

/// Two reachable sets from the same roots are the same set.
pub proof fn law_reachable_unique(m: RepoModel, roots: Seq<GitHash>, s: Set<GitHash>, t: Set<GitHash>)
    requires
        reachable_from(m, roots, s),
        reachable_from(m, roots, t),
    ensures
        s == t,
{
    law_reachable_least(m, roots, s, t);
    law_reachable_least(m, roots, t, s);
    assert(s =~= t);
}

/// A reachable set holds, with each readable commit in it, that commit's tree
/// and every one of its parents, and with each readable tree in it, the
/// object of every entry.
pub proof fn law_reachable_follows_commits_and_trees(m: RepoModel, roots: Seq<GitHash>, s: Set<GitHash>, h: GitHash)
    requires
        reachable_from(m, roots, s),
        s.contains(h),
    ensures
        spec_read_commit(m, h) matches Ok(c) ==> s.contains(c.tree) && forall|i: int|
            0 <= i < c.parents.len() ==> s.contains(#[trigger] c.parents[i]),
        spec_read_tree(m, h) matches Ok(es) ==> forall|i: int|
            0 <= i < es.len() ==> s.contains(#[trigger] es[i].hash),
{
    let succ = successors(m, h);
    if let Ok(c) = spec_read_commit(m, h) {
        assert(succ == seq![c.tree] + c.parents);
        assert(succ[0] == c.tree);
        assert(s.contains(succ[0]));
        assert forall|i: int| 0 <= i < c.parents.len() implies s.contains(#[trigger] c.parents[i]) by {
            assert(succ[i + 1] == c.parents[i]);
            assert(s.contains(succ[i + 1]));
        }
    }
    if let Ok(es) = spec_read_tree(m, h) {
        assert(succ == es.map_values(|e: TreeEntryModel| e.hash));
        assert forall|i: int| 0 <= i < es.len() implies s.contains(#[trigger] es[i].hash) by {
            assert(succ[i] == es[i].hash);
            assert(s.contains(succ[i]));
        }
    }
}

// --- The bound: every readable object has a slot. ---

/// The object that loose file `e` is the file of, if any.
pub open spec fn loose_name(e: LooseModel) -> Option<GitHash> {
    if exists|g: GitHash| loose_matches(e, g) {
        Some(choose|g: GitHash| loose_matches(e, g))
    } else {
        None
    }
}

/// The name in entry `k` of the name table of index `idx`, if it is there.
pub open spec fn name_at(idx: Seq<u8>, k: int) -> Option<GitHash> {
    if 0 <= k && names_base() + 20 * k + 20 <= idx.len() {
        Some(hash_of_bytes(idx.subrange(names_base() + 20 * k, names_base() + 20 * k + 20)))
    } else {
        None
    }
}

pub open spec fn idx_len(p: PackModel) -> int {
    match p.idx {
        Some(b) => b.len() as int,
        None => 0,
    }
}

/// Slots for the first `n` packs: as many per pack as its index has bytes.
pub open spec fn pack_slots(ps: Seq<PackModel>, n: int) -> int
    decreases n,
{
    if n <= 0 {
        0
    } else {
        pack_slots(ps, n - 1) + idx_len(ps[n - 1])
    }
}

/// The name in slot `s` among the first `n` packs.
pub open spec fn pack_slot_name(ps: Seq<PackModel>, n: int, s: int) -> Option<GitHash>
    decreases n,
{
    if n <= 0 {
        None
    } else if s >= pack_slots(ps, n - 1) {
        match ps[n - 1].idx {
            Some(b) => if s - pack_slots(ps, n - 1) < b.len() {
                name_at(b, s - pack_slots(ps, n - 1))
            } else {
                None
            },
            None => None,
        }
    } else {
        pack_slot_name(ps, n - 1, s)
    }
}

/// The store's slots: one per loose file, then the packs'.
pub open spec fn total_slots(m: RepoModel) -> int {
    m.loose.len() + pack_slots(m.packs, m.packs.len() as int)
}

/// The name in slot `s` of the store.
pub open spec fn slot_name(m: RepoModel, s: int) -> Option<GitHash> {
    if 0 <= s < m.loose.len() {
        loose_name(m.loose[s])
    } else {
        pack_slot_name(m.packs, m.packs.len() as int, s - m.loose.len())
    }
}

/// `h` is named in some slot of the store.
pub open spec fn has_slot(m: RepoModel, h: GitHash) -> bool {
    exists|s: int| 0 <= s < total_slots(m) && slot_name(m, s) == Some(h)
}

proof fn lemma_pack_slots_nonneg(ps: Seq<PackModel>, n: int)
    ensures
        pack_slots(ps, n) >= 0,
    decreases n,
{
    if n > 0 {
        lemma_pack_slots_nonneg(ps, n - 1);
    }
}

proof fn lemma_pack_slots_mono(ps: Seq<PackModel>, a: int, b: int)
    requires
        a <= b,
    ensures
        pack_slots(ps, a) <= pack_slots(ps, b),
    decreases b - a,
{
    if a < b {
        lemma_pack_slots_mono(ps, a, b - 1);
    }
}

/// Slot `k` of pack `p` is slot `pack_slots(p) + k` of the first `n` packs.
proof fn lemma_pack_slot_name(ps: Seq<PackModel>, n: int, p: int, k: int)
    requires
        0 <= p < n <= ps.len(),
        0 <= k < idx_len(ps[p]),
    ensures
        pack_slot_name(ps, n, pack_slots(ps, p) + k) == name_at(ps[p].idx.unwrap(), k),
        pack_slots(ps, p) + k < pack_slots(ps, n),
    decreases n,
{
    lemma_pack_slots_mono(ps, p + 1, n);
    if p < n - 1 {
        lemma_pack_slots_mono(ps, p + 1, n - 1);
        lemma_pack_slot_name(ps, n - 1, p, k);
    }
}

/// A loose file is the file of one object at most.
proof fn lemma_loose_matches_unique(e: LooseModel, g1: GitHash, g2: GitHash)
    requires
        loose_matches(e, g1),
        loose_matches(e, g2),
    ensures
        g1 == g2,
{
    let a = hex_encode(g1.0@);
    let b = hex_encode(g2.0@);
    lemma_hex_encode_decode(g1.0@);
    lemma_hex_encode_decode(g2.0@);
    assert(a =~= a.subrange(0, 2) + a.subrange(2, 40));
    assert(b =~= b.subrange(0, 2) + b.subrange(2, 40));
    assert(a == b);
    lemma_hash_eq(g1, g2);
}

/// Names compare equal only when they are equal.
proof fn lemma_name_order_zero(a: Seq<u8>, b: Seq<u8>, i: int)
    requires
        0 <= i <= 20,
        a.len() == 20,
        b.len() == 20,
        name_order(a, b, i) == 0,
    ensures
        forall|j: int| i <= j < 20 ==> a[j] == b[j],
    decreases 20 - i,
{
    if i < 20 {
        lemma_name_order_zero(a, b, i + 1);
    }
}

/// A successful search ends on an entry of the name table that holds `want`.
proof fn lemma_idx_search_found(idx: Seq<u8>, want: Seq<u8>, lo: int, hi: int, count: int)
    requires
        0 <= lo,
        want.len() == 20,
        idx_search(idx, want, lo, hi, count) matches Ok(Some(_)),
    ensures
        exists|k: int|
            0 <= k && names_base() + 20 * k + 20 <= idx.len() && #[trigger] idx.subrange(
                names_base() + 20 * k,
                names_base() + 20 * k + 20,
            ) == want,
    decreases hi - lo,
{
    let mid = lo + (hi - lo) / 2;
    let noff = names_base() + mid * 20;
    let c = name_order(idx.subrange(noff, noff + 20), want, 0);
    if c < 0 {
        lemma_idx_search_found(idx, want, mid + 1, hi, count);
    } else if c > 0 {
        lemma_idx_search_found(idx, want, lo, mid, count);
    } else {
        lemma_name_order_zero(idx.subrange(noff, noff + 20), want, 0);
        assert(idx.subrange(noff, noff + 20) =~= want);
        assert(names_base() + 20 * mid == noff);
    }
}

/// A successful index lookup names `h` in the index's name table.
proof fn lemma_idx_lookup_found(idx: Seq<u8>, h: GitHash)
    requires
        spec_idx_lookup(idx, h) matches Ok(Some(_)),
    ensures
        exists|k: int| 0 <= k < idx.len() && name_at(idx, k) == Some(h),
{
    let first = h.0@[0] as int;
    let lo = if first == 0 {
        0int
    } else {
        spec_be_u32(idx, 8 + (first - 1) * 4).unwrap()
    };
    if first != 0 {
        crate::pack::lemma_be_value_bound(idx, 8 + (first - 1) * 4, 4);
    }
    let hi = spec_be_u32(idx, 8 + first * 4).unwrap();
    let count = spec_be_u32(idx, 1028int).unwrap();
    lemma_idx_search_found(idx, h.0@, lo, hi, count);
    let k = choose|k: int|
        0 <= k && names_base() + 20 * k + 20 <= idx.len() && #[trigger] idx.subrange(
            names_base() + 20 * k,
            names_base() + 20 * k + 20,
        ) == h.0@;
    lemma_hash_of_bytes(h);
    assert(name_at(idx, k) == Some(h));
}

/// An object found in the packs from `i` on is named in one of their indexes.
proof fn lemma_packs_from_found(m: RepoModel, h: GitHash, depth: int, i: int)
    requires
        0 <= i,
        spec_packs_from(m, h, depth, i) matches Ok(Some(_)),
    ensures
        exists|p: int|
            i <= p < m.packs.len() && #[trigger] m.packs[p].idx is Some && spec_idx_lookup(
                m.packs[p].idx.unwrap(),
                h,
            ) matches Ok(Some(_)),
    decreases m.packs.len() - i,
{
    if i < m.packs.len() {
        match m.packs[i].idx {
            None => {},
            Some(idx) => match spec_idx_lookup(idx, h) {
                Ok(None) => {
                    lemma_packs_from_found(m, h, depth, i + 1);
                },
                _ => {},
            },
        }
    }
}

/// Every object that can be read is named in some slot of the store.
pub proof fn lemma_readable_has_slot(m: RepoModel, h: GitHash)
    requires
        spec_read_object(m, h) is Ok,
    ensures
        has_slot(m, h),
{
    lemma_pack_slots_nonneg(m.packs, m.packs.len() as int);
    match spec_read_loose(m.loose, h) {
        Err(GitErrorModel::ObjectNotFound(_)) => {
            lemma_packs_from_found(m, h, 0, 0);
            let p = choose|p: int|
                0 <= p < m.packs.len() && #[trigger] m.packs[p].idx is Some && spec_idx_lookup(
                    m.packs[p].idx.unwrap(),
                    h,
                ) matches Ok(Some(_));
            let idx = m.packs[p].idx.unwrap();
            lemma_idx_lookup_found(idx, h);
            let k = choose|k: int| 0 <= k < idx.len() && name_at(idx, k) == Some(h);
            lemma_pack_slot_name(m.packs, m.packs.len() as int, p, k);
            lemma_pack_slots_nonneg(m.packs, p);
            let s = m.loose.len() + pack_slots(m.packs, p) + k;
            assert(slot_name(m, s) == Some(h));
        },
        _ => {
            lemma_first_loose(m.loose, h, m.loose.len() as int);
            let i = first_loose(m.loose, h, m.loose.len() as int).unwrap();
            let e = m.loose[i];
            let g = choose|g: GitHash| loose_matches(e, g);
            lemma_loose_matches_unique(e, g, h);
            assert(slot_name(m, i) == Some(h));
        },
    }
}

/// Distinct objects that all have slots are no more than the slots.
pub proof fn lemma_slots_bound(m: RepoModel, objs: Seq<GitHash>)
    requires
        objs.no_duplicates(),
        forall|i: int| 0 <= i < objs.len() ==> has_slot(m, #[trigger] objs[i]),
    ensures
        objs.len() <= total_slots(m),
{
    let slots = Seq::new(
        objs.len(),
        |i: int| choose|s: int| 0 <= s < total_slots(m) && slot_name(m, s) == Some(objs[i]),
    );
    assert forall|i: int| 0 <= i < objs.len() implies 0 <= #[trigger] slots[i] < total_slots(m) && slot_name(
        m,
        slots[i],
    ) == Some(objs[i]) by {
        assert(has_slot(m, objs[i]));
    }
    assert(slots.no_duplicates()) by {
        assert forall|i: int, j: int| 0 <= i < slots.len() && 0 <= j < slots.len() && i != j implies slots[i]
            != slots[j] by {
            if slots[i] == slots[j] {
                assert(objs[i] == objs[j]);
            }
        }
    }
    slots.unique_seq_to_set();
    let range = vstd::set_lib::set_int_range(0, total_slots(m));
    lemma_pack_slots_nonneg(m.packs, m.packs.len() as int);
    vstd::set_lib::lemma_int_range(0, total_slots(m));
    assert(slots.to_set().subset_of(range)) by {
        assert forall|s: int| slots.to_set().contains(s) implies range.contains(s) by {
            let i = choose|i: int| 0 <= i < slots.len() && slots[i] == s;
        }
    }
    vstd::set_lib::lemma_len_subset(slots.to_set(), range);
}


/// The objects the refs point at, in order.
pub open spec fn ref_targets(refs: Seq<(Seq<u8>, GitHash)>) -> Seq<GitHash> {
    refs.map_values(|p: (Seq<u8>, GitHash)| p.1)
}

/// Read `h` and list what it points at; also whether it could be read.
fn successors_of(repo: &GitRepo, h: &GitHash) -> (r: (bool, Vec<GitHash>))
    ensures
        r.0 == spec_read_object(repo@, *h) is Ok,
        r.1@ == successors(repo@, *h),
{
    let obj = match repo.read_object(h) {
        Ok(o) => o,
        Err(_) => {
            let v: Vec<GitHash> = Vec::new();
            assert(v@ =~= successors(repo@, *h));
            return (false, v);
        },
    };
    let mut out: Vec<GitHash> = Vec::new();
    match obj.kind {
        ObjectKind::Commit => {
            match repo.read_commit(h) {
                Ok(c) => {
                    out.push(c.tree);
                    let mut parents = c.parents;
                    out.append(&mut parents);
                },
                Err(_) => {},
            }
        },
        ObjectKind::Tree => {
            match repo.read_tree(h) {
                Ok(t) => {
                    let ghost em = entries_model(t.entries@);
                    let mut k: usize = 0;
                    while k < t.entries.len()
                        invariant
                            em == entries_model(t.entries@),
                            em.len() == t.entries@.len(),
                            0 <= k <= t.entries@.len(),
                            out@ == em.take(k as int).map_values(|e: TreeEntryModel| e.hash),
                        decreases t.entries@.len() - k,
                    {
                        assert(em[k as int] == t.entries@[k as int].model());
                        out.push(t.entries[k].hash);
                        assert(out@ =~= em.take(k + 1).map_values(|e: TreeEntryModel| e.hash));
                        k = k + 1;
                    }
                    assert(em.take(em.len() as int) =~= em);
                },
                Err(_) => {},
            }
        },
        _ => {},
    }
    assert(out@ =~= successors(repo@, *h));
    (true, out)
}

/// What a walk from `roots` keeps true: `order` (the objects reached, each
/// once) is a derivation; every object on the `stack` is a root or a
/// successor of a reached object; every root and every successor of a reached
/// object is reached or still on the stack; `expanded` (the reached objects
/// that could be read) are distinct, each has a slot, so they are no more than
/// the slots.
#[verifier::opaque]
pub open spec fn walk_inv(
    m: RepoModel,
    roots: Seq<GitHash>,
    order: Seq<GitHash>,
    stack: Seq<GitHash>,
    expanded: Seq<GitHash>,
) -> bool {
    &&& order.no_duplicates()
    &&& derivation(m, roots, order)
    &&& forall|k: int|
        0 <= k < stack.len() ==> roots.contains(#[trigger] stack[k]) || exists|j: int|
            0 <= j < order.len() && successors(m, order[j]).contains(stack[k])
    &&& forall|k: int| 0 <= k < roots.len() ==> order.contains(#[trigger] roots[k]) || stack.contains(roots[k])
    &&& forall|g: GitHash, k: int|
        order.contains(g) && 0 <= k < successors(m, g).len() ==> order.contains(#[trigger] successors(m, g)[k])
            || stack.contains(successors(m, g)[k])
    &&& expanded.no_duplicates()
    &&& forall|k: int| 0 <= k < expanded.len() ==> has_slot(m, #[trigger] expanded[k]) && order.contains(expanded[k])
    &&& expanded.len() <= total_slots(m)
}

proof fn lemma_concat_contains<A>(a: Seq<A>, b: Seq<A>, g: A)
    ensures
        (a + b).contains(g) <==> (a.contains(g) || b.contains(g)),
{
    if (a + b).contains(g) {
        let k = choose|k: int| 0 <= k < (a + b).len() && (a + b)[k] == g;
        if k < a.len() {
            assert(a[k] == g);
        } else {
            assert(b[k - a.len()] == g);
        }
    }
    if a.contains(g) {
        let k = choose|k: int| 0 <= k < a.len() && a[k] == g;
        assert((a + b)[k] == g);
    }
    if b.contains(g) {
        let k = choose|k: int| 0 <= k < b.len() && b[k] == g;
        assert((a + b)[a.len() + k] == g);
    }
}

proof fn lemma_push_no_dup<A>(s: Seq<A>, x: A)
    requires
        s.no_duplicates(),
        !s.contains(x),
    ensures
        s.push(x).no_duplicates(),
{
    assert forall|a: int, b: int| 0 <= a < s.push(x).len() && 0 <= b < s.push(x).len() && a != b implies s.push(x)[a]
        != s.push(x)[b] by {
        if a == s.len() {
            assert(s[b] != x);
        } else if b == s.len() {
            assert(s[a] != x);
        }
    }
}

/// Popping an object already reached keeps the walk's invariant.
proof fn lemma_walk_skip(
    m: RepoModel,
    roots: Seq<GitHash>,
    order: Seq<GitHash>,
    popped: Seq<GitHash>,
    h: GitHash,
    expanded: Seq<GitHash>,
)
    requires
        walk_inv(m, roots, order, popped.push(h), expanded),
        order.contains(h),
    ensures
        walk_inv(m, roots, order, popped, expanded),
        expanded.len() <= total_slots(m),
{
    reveal(walk_inv);
    let before = popped.push(h);
    assert forall|g: GitHash| before.contains(g) implies popped.contains(g) || g == h by {
        lemma_push_contains(popped, h, g);
    }
    assert forall|k: int| 0 <= k < popped.len() implies roots.contains(#[trigger] popped[k]) || exists|j: int|
        0 <= j < order.len() && successors(m, order[j]).contains(popped[k]) by {
        assert(popped[k] == before[k]);
    }
}

/// Visiting a newly popped object — reaching it and stacking its successors —
/// keeps the walk's invariant.
proof fn lemma_walk_visit(
    m: RepoModel,
    roots: Seq<GitHash>,
    order: Seq<GitHash>,
    popped: Seq<GitHash>,
    h: GitHash,
    expanded: Seq<GitHash>,
)
    requires
        walk_inv(m, roots, order, popped.push(h), expanded),
        !order.contains(h),
    ensures
        walk_inv(
            m,
            roots,
            order.push(h),
            popped + successors(m, h),
            if spec_read_object(m, h) is Ok {
                expanded.push(h)
            } else {
                expanded
            },
        ),
        spec_read_object(m, h) is Ok ==> expanded.len() + 1 <= total_slots(m),
{
    reveal(walk_inv);
    let before = popped.push(h);
    let o2 = order.push(h);
    let succ = successors(m, h);
    let st = popped + succ;
    assert forall|g: GitHash| before.contains(g) implies popped.contains(g) || g == h by {
        lemma_push_contains(popped, h, g);
    }
    assert forall|g: GitHash| #[trigger] o2.contains(g) <==> (order.contains(g) || g == h) by {
        lemma_push_contains(order, h, g);
    }
    assert forall|g: GitHash| #[trigger] st.contains(g) <==> (popped.contains(g) || succ.contains(g)) by {
        lemma_concat_contains(popped, succ, g);
    }
    lemma_push_no_dup(order, h);
    assert(derivation(m, roots, o2)) by {
        assert forall|i: int| 0 <= i < o2.len() implies roots.contains(#[trigger] o2[i]) || exists|j: int|
            0 <= j < i && successors(m, o2[j]).contains(o2[i]) by {
            if i < order.len() {
                assert(o2[i] == order[i]);
                if !roots.contains(order[i]) {
                    let j = choose|j: int| 0 <= j < i && successors(m, order[j]).contains(order[i]);
                    assert(o2[j] == order[j]);
                }
            } else {
                assert(before[before.len() - 1] == h);
                if !roots.contains(h) {
                    let j = choose|j: int|
                        0 <= j < order.len() && successors(m, order[j]).contains(before[before.len() - 1]);
                    assert(o2[j] == order[j]);
                }
            }
        }
    }
    assert forall|k: int| 0 <= k < st.len() implies roots.contains(#[trigger] st[k]) || exists|j: int|
        0 <= j < o2.len() && successors(m, o2[j]).contains(st[k]) by {
        if k < popped.len() {
            assert(st[k] == before[k]);
            if !roots.contains(before[k]) {
                let j = choose|j: int| 0 <= j < order.len() && successors(m, order[j]).contains(before[k]);
                assert(o2[j] == order[j]);
            }
        } else {
            assert(st[k] == succ[k - popped.len()]);
            assert(o2[order.len() as int] == h);
            assert(successors(m, o2[order.len() as int]).contains(st[k]));
        }
    }
    assert forall|k: int| 0 <= k < succ.len() implies st.contains(#[trigger] succ[k]) by {
        assert(st[popped.len() + k] == succ[k]);
    }
    assert forall|k: int| 0 <= k < roots.len() implies o2.contains(#[trigger] roots[k]) || st.contains(roots[k]) by {
        if !order.contains(roots[k]) {
            assert(before.contains(roots[k]));
        }
    }
    assert forall|g: GitHash, k: int|
        o2.contains(g) && 0 <= k < successors(m, g).len() implies o2.contains(#[trigger] successors(m, g)[k])
            || st.contains(successors(m, g)[k]) by {
        if g != h {
            if !order.contains(successors(m, g)[k]) {
                assert(before.contains(successors(m, g)[k]));
            }
        } else {
            assert(succ.contains(succ[k])) by {
                assert(succ[k] == succ[k]);
            }
        }
    }
    if spec_read_object(m, h) is Ok {
        lemma_readable_has_slot(m, h);
        let e2 = expanded.push(h);
        assert forall|k: int| 0 <= k < e2.len() implies has_slot(m, #[trigger] e2[k]) && o2.contains(e2[k]) by {
            if k < expanded.len() {
                assert(e2[k] == expanded[k]);
            }
        }
        assert(!expanded.contains(h)) by {
            if expanded.contains(h) {
                let k = choose|k: int| 0 <= k < expanded.len() && expanded[k] == h;
            }
        }
        lemma_push_no_dup(expanded, h);
        lemma_slots_bound(m, e2);
    } else {
        assert forall|k: int| 0 <= k < expanded.len() implies has_slot(m, #[trigger] expanded[k]) && o2.contains(expanded[k]) by {
        }
    }
}

/// A walk starts with the roots stacked and nothing reached.
proof fn lemma_walk_start(m: RepoModel, roots: Seq<GitHash>)
    ensures
        walk_inv(m, roots, seq![], roots, seq![]),
        0 <= total_slots(m),
{
    reveal(walk_inv);
    lemma_pack_slots_nonneg(m.packs, m.packs.len() as int);
    assert forall|k: int| 0 <= k < roots.len() implies Seq::<GitHash>::empty().contains(#[trigger] roots[k])
        || roots.contains(roots[k]) by {
        assert(roots[k] == roots[k]);
    }
}

/// A walk whose stack is empty has reached exactly the reachable set.
proof fn lemma_walk_done(m: RepoModel, roots: Seq<GitHash>, order: Seq<GitHash>, expanded: Seq<GitHash>)
    requires
        walk_inv(m, roots, order, seq![], expanded),
    ensures
        reachable_from(m, roots, order.to_set()),
{
    reveal(walk_inv);
    let s = order.to_set();
    assert forall|k: int| 0 <= k < roots.len() implies s.contains(#[trigger] roots[k]) by {
        assert(!Seq::<GitHash>::empty().contains(roots[k]));
    }
    assert forall|g: GitHash, k: int| s.contains(g) && 0 <= k < successors(m, g).len() implies s.contains(
        #[trigger] successors(m, g)[k],
    ) by {
        assert(!Seq::<GitHash>::empty().contains(successors(m, g)[k]));
    }
}

/// Compute the set of objects reachable from every ref tip.
///
/// Walks commit → parents + tree, tree → entries (subtrees + blobs). A tag is
/// opaque (its target is not parsed), so a tag tip contributes only itself.
/// Objects that fail to read or parse are recorded as reached but not
/// expanded rather than aborting the walk — robustness on a damaged store
/// beats a hard failure.
///
/// # Errors
/// A failure to enumerate the refs. This is a bootstrap failure and must not
/// be swallowed into an empty root set, which would make every object look
/// unreachable.
#[verifier::rlimit(40)]
pub fn reachable_set(repo: &GitRepo) -> (r: Result<HashIndex, GitError>)
    ensures
        r is Ok <==> spec_list_refs(repo@.files, repo@.refs_unreadable) is Ok,
        r matches Err(e) ==> spec_list_refs(repo@.files, repo@.refs_unreadable) == Err::<Seq<(Seq<u8>, GitHash)>, GitErrorModel>(e.model()),
        r matches Ok(s) ==> s.wf() && reachable_from(
            repo@,
            ref_targets(spec_list_refs(repo@.files, repo@.refs_unreadable)->Ok_0),
            s.view().dom(),
        ),
{
    let refs = match repo.all_refs_checked() {
        Ok(v) => v,
        Err(e) => return Err(e),
    };
    let ghost m = repo@;
    let ghost roots = ref_targets(refs_model(refs@));
    let mut stack: Vec<GitHash> = Vec::new();
    let mut i: usize = 0;
    while i < refs.len()
        invariant
            roots == ref_targets(refs_model(refs@)),
            roots.len() == refs@.len(),
            0 <= i <= refs@.len(),
            stack@ == roots.take(i as int),
        decreases refs@.len() - i,
    {
        stack.push(refs[i].1);
        assert(stack@ =~= roots.take(i + 1));
        i = i + 1;
    }
    assert(roots.take(roots.len() as int) =~= roots);
    let mut reached = HashIndex::new();
    let ghost mut order: Seq<GitHash> = seq![];
    let ghost mut expanded: Seq<GitHash> = seq![];
    proof {
        lemma_walk_start(m, roots);
    }
    loop
        invariant
            m == repo@,
            reached.wf(),
            forall|g: GitHash| reached.view().contains_key(g) <==> order.contains(g),
            walk_inv(m, roots, order, stack@, expanded),
            expanded.len() <= total_slots(m),
        ensures
            reached.wf(),
            forall|g: GitHash| reached.view().contains_key(g) <==> order.contains(g),
            walk_inv(m, roots, order, seq![], expanded),
        decreases total_slots(m) - expanded.len(), stack@.len(),
    {
        let ghost before = stack@;
        let h = match stack.pop() {
            Some(h) => h,
            None => {
                assert(stack@ =~= seq![]);
                break;
            },
        };
        assert(before == stack@.push(h));
        if reached.get(&h).is_some() {
            proof {
                lemma_walk_skip(m, roots, order, stack@, h, expanded);
            }
        } else {
            reached.insert(h, 0);
            let (readable, mut next) = successors_of(repo, &h);
            proof {
                lemma_walk_visit(m, roots, order, stack@, h, expanded);
            }
            let ghost prev = order;
            stack.append(&mut next);
            proof {
                order = order.push(h);
                if readable {
                    expanded = expanded.push(h);
                }
                assert forall|g: GitHash| reached.view().contains_key(g) <==> order.contains(g) by {
                    lemma_push_contains(prev, h, g);
                }
            }
        }
    }
    proof {
        lemma_walk_done(m, roots, order, expanded);
        assert(order.to_set() =~= reached.view().dom());
    }
    Ok(reached)
}

} // verus!
