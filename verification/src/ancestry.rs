//! What the release rule means in terms of a process's ancestors, and why
//! walking as many parent links as there are processes finds every named
//! ancestor.
use vstd::prelude::*;
use crate::process::Proc;
use crate::rule::{
    ancestor, chain_present, has_named_ancestor, has_parent_within, is_matched, named_ancestor,
    Rule,
};
use crate::text::lower;

verus! {

proof fn lemma_chain_step(ps: Map<u32, Proc>, pid: u32)
    requires
        ps.contains_key(pid),
    ensures
        forall|j: nat| ancestor(ps, pid, j + 1) == #[trigger] ancestor(ps, ps[pid].parent, j),
{
    assert forall|j: nat| ancestor(ps, pid, j + 1) == #[trigger] ancestor(ps, ps[pid].parent, j) by {
        assert(((j + 1) - 1) as nat == j);
    }
}

/// The ancestor search with a budget finds exactly the named ancestors
/// within its reach: it succeeds if and only if, for some `k` below `fuel`,
/// the `k`-th process up is present (with all on the way) and named in
/// `names`.
pub proof fn lemma_has_parent_within(ps: Map<u32, Proc>, pid: u32, names: Set<Seq<char>>, fuel: nat)
    ensures
        has_parent_within(ps, pid, names, fuel) <==> exists|k: nat|
            k < fuel && #[trigger] named_ancestor(ps, pid, names, k),
    decreases fuel,
{
    if fuel > 0 && ps.contains_key(pid) {
        let up: u32 = ps[pid].parent;
        lemma_chain_step(ps, pid);
        lemma_has_parent_within(ps, up, names, (fuel - 1) as nat);
        if names.contains(lower(ps[pid].name@)) {
            assert(ancestor(ps, pid, 0) == pid);
            assert forall|j: nat| j <= 0 implies ps.contains_key(#[trigger] ancestor(ps, pid, j)) by {}
            assert(named_ancestor(ps, pid, names, 0));
        } else {
            if has_parent_within(ps, up, names, (fuel - 1) as nat) {
                let k = choose|k: nat| k < fuel - 1 && #[trigger] named_ancestor(ps, up, names, k);
                assert forall|j: nat| j <= k + 1 implies ps.contains_key(#[trigger] ancestor(ps, pid, j)) by {
                    if j > 0 {
                        assert(ancestor(ps, pid, ((j - 1) as nat) + 1) == ancestor(ps, up, (j - 1) as nat));
                    }
                }
                assert(ancestor(ps, pid, k + 1) == ancestor(ps, up, k));
                assert(named_ancestor(ps, pid, names, k + 1));
            }
            if exists|k: nat| k < fuel && #[trigger] named_ancestor(ps, pid, names, k) {
                let k = choose|k: nat| k < fuel && #[trigger] named_ancestor(ps, pid, names, k);
                if k == 0 {
                    assert(ancestor(ps, pid, 0) == pid);
                } else {
                    let k1: nat = (k - 1) as nat;
                    assert(ancestor(ps, pid, k1 + 1) == ancestor(ps, up, k1));
                    assert forall|j: nat| j <= k1 implies ps.contains_key(#[trigger] ancestor(ps, up, j)) by {
                        assert(ancestor(ps, pid, j + 1) == ancestor(ps, up, j));
                        assert(ps.contains_key(ancestor(ps, pid, j + 1)));
                    }
                    assert(named_ancestor(ps, up, names, k1));
                }
            }
        }
    } else if fuel > 0 {
        if exists|k: nat| k < fuel && #[trigger] named_ancestor(ps, pid, names, k) {
            let k = choose|k: nat| k < fuel && #[trigger] named_ancestor(ps, pid, names, k);
            assert(ancestor(ps, pid, 0) == pid);
            assert(ps.contains_key(ancestor(ps, pid, 0)));
        }
    }
}

/// Following `i` links and then `t` more is following `i + t` links.
proof fn lemma_ancestor_add(ps: Map<u32, Proc>, pid: u32, i: nat, t: nat)
    ensures
        ancestor(ps, pid, i + t) == ancestor(ps, ancestor(ps, pid, i), t),
    decreases i,
{
    if i > 0 {
        let i1: nat = (i - 1) as nat;
        lemma_ancestor_add(ps, ps[pid].parent, i1, t);
        assert(((i + t) - 1) as nat == i1 + t);
    }
}

/// In a finite table, a chain of parents longer than the table repeats a
/// process, so a named ancestor is also found within as many steps as the
/// table has processes.
proof fn lemma_shorten(ps: Map<u32, Proc>, pid: u32, names: Set<Seq<char>>, k: nat)
    requires
        ps.dom().finite(),
        named_ancestor(ps, pid, names, k),
    ensures
        exists|k2: nat| k2 < ps.dom().len() && #[trigger] named_ancestor(ps, pid, names, k2),
    decreases k,
{
    let n = ps.dom().len();
    if k < n {
        return;
    }
    let s = Seq::new(k + 1, |j: int| ancestor(ps, pid, j as nat));
    assert(s.to_set().subset_of(ps.dom())) by {
        assert forall|x: u32| s.to_set().contains(x) implies ps.dom().contains(x) by {
            assert(s.contains(x));
            let q = choose|q: int| 0 <= q < s.len() && s[q] == x;
            assert(s[q] == ancestor(ps, pid, q as nat));
        }
    }
    vstd::set_lib::lemma_len_subset(s.to_set(), ps.dom());
    if s.no_duplicates() {
        s.unique_seq_to_set();
        assert(false);
    }
    let (i, j) = choose|i: int, j: int|
        0 <= i < s.len() && 0 <= j < s.len() && i != j && s[i] == s[j];
    let (lo, hi) = if i < j { (i, j) } else { (j, i) };
    assert(s[lo] == s[hi]);
    let d: nat = (hi - lo) as nat;
    let k2: nat = (k - d) as nat;
    // the chain repeats with period `d` from `lo` on
    lemma_ancestor_add(ps, pid, lo as nat, (k - hi) as nat);
    lemma_ancestor_add(ps, pid, hi as nat, (k - hi) as nat);
    assert(ancestor(ps, pid, lo as nat) == s[lo]);
    assert(ancestor(ps, pid, hi as nat) == s[hi]);
    assert(lo + (k - hi) == k2);
    assert(hi + (k - hi) == k);
    assert(ancestor(ps, pid, k2) == ancestor(ps, pid, k));
    assert(chain_present(ps, pid, k2));
    assert(named_ancestor(ps, pid, names, k2));
    lemma_shorten(ps, pid, names, k2);
}

/// Walking as many parent links as the table has processes finds a named
/// ancestor exactly when one exists at any depth.
pub proof fn lemma_has_parent_within_table(ps: Map<u32, Proc>, pid: u32, names: Set<Seq<char>>)
    requires
        ps.dom().finite(),
    ensures
        has_parent_within(ps, pid, names, ps.dom().len()) == has_named_ancestor(ps, pid, names),
{
    lemma_has_parent_within(ps, pid, names, ps.dom().len());
    if has_named_ancestor(ps, pid, names) {
        let k = choose|k: nat| #[trigger] named_ancestor(ps, pid, names, k);
        lemma_shorten(ps, pid, names, k);
    }
}

/// A denied name is never released, whatever else the rule says.
pub proof fn lemma_deny_wins(p: Proc, ps: Map<u32, Proc>, rule: Rule)
    requires
        rule.deny_name@.contains(lower(p.name@)),
    ensures
        !is_matched(p, ps, rule),
{
}

/// A process whose name is allowed, and not denied, is released.
pub proof fn lemma_allowed_name_matched(p: Proc, ps: Map<u32, Proc>, rule: Rule)
    requires
        rule.allow_name@.contains(lower(p.name@)),
        !rule.deny_name@.contains(lower(p.name@)),
    ensures
        is_matched(p, ps, rule),
{
}

/// Every descendant of a process named in `allow_parent` is released, at
/// any depth, unless its own name is denied: when the `k`-th process up
/// from `p` (every process on the way present in the table) has such a
/// name.
pub proof fn lemma_descendant_matched(p: Proc, ps: Map<u32, Proc>, rule: Rule, k: nat)
    requires
        !rule.deny_name@.contains(lower(p.name@)),
        chain_present(ps, p.parent, k),
        rule.allow_parent@.contains(lower(ps[ancestor(ps, p.parent, k)].name@)),
    ensures
        is_matched(p, ps, rule),
{
    assert(named_ancestor(ps, p.parent, rule.allow_parent@, k));
}

/// A process that is not denied and whose own name is not allowed is
/// released only as a descendant: some process up its chain of parents, at
/// some depth and with every process on the way in the table, is named in
/// `allow_parent`.
pub proof fn lemma_matched_only_as_descendant(p: Proc, ps: Map<u32, Proc>, rule: Rule)
    requires
        is_matched(p, ps, rule),
        !rule.allow_name@.contains(lower(p.name@)),
    ensures
        exists|k: nat| #[trigger] named_ancestor(ps, p.parent, rule.allow_parent@, k),
{
}

} // verus!
