//! The decisions of synchronisation with the remote registry: which objects
//! to upload or download, and how remote refs overwrite local ones.  Moving
//! the bytes is left to the caller.
use crate::bytes::compare_bytes;
use crate::refs::{ref_content, RefStore};
use crate::store::ObjectStore;
use vstd::prelude::*;

verus! {

/// The positions of the `false` flags, in order.
pub open spec fn unregistered(flags: Seq<bool>) -> Seq<int>
    decreases flags.len(),
{
    if flags.len() == 0 {
        Seq::empty()
    } else if !flags.last() {
        unregistered(flags.drop_last()).push(flags.len() - 1)
    } else {
        unregistered(flags.drop_last())
    }
}

/// The positions of local objects to upload, given for each local hash
/// whether the registry already holds it.  `None` when the registry's
/// answer does not have one flag per hash.
pub fn plan_push(hashes: &Vec<String>, flags: &Vec<bool>) -> (r: Option<Vec<usize>>)
    ensures
        match r {
            Some(p) => flags@.len() == hashes@.len() && p@.map_values(|i: usize| i as int)
                == unregistered(flags@),
            None => flags@.len() != hashes@.len(),
        },
{
    if flags.len() != hashes.len() {
        return None;
    }
    let mut plan: Vec<usize> = Vec::new();
    let mut i: usize = 0;
    assert(flags@.subrange(0, 0) =~= Seq::<bool>::empty());
    assert(plan@.map_values(|i: usize| i as int) =~= Seq::<int>::empty());
    while i < flags.len()
        invariant
            i <= flags@.len(),
            plan@.map_values(|i: usize| i as int) == unregistered(flags@.subrange(0, i as int)),
        decreases flags@.len() - i,
    {
        let ghost before = plan@;
        if !flags[i] {
            plan.push(i);
            assert(plan@.map_values(|i: usize| i as int) =~= before.map_values(|i: usize| i as int).push(i as int));
        }
        assert(flags@.subrange(0, i + 1).drop_last() =~= flags@.subrange(0, i as int));
        i = i + 1;
    }
    assert(flags@.subrange(0, flags@.len() as int) =~= flags@);
    Some(plan)
}

/// What the registry answers for `hashes` when it holds `registry`.
pub open spec fn registry_flags(registry: Set<Seq<char>>, hashes: Seq<Seq<char>>) -> Seq<bool> {
    Seq::new(hashes.len(), |i: int| registry.contains(hashes[i]))
}

/// The registry after a push has registered every object it uploaded.
pub open spec fn registry_after_push(registry: Set<Seq<char>>, hashes: Seq<Seq<char>>) -> Set<
    Seq<char>,
> {
    registry.union(
        Set::new(
            |h: Seq<char>|
                exists|k: int|
                    0 <= k < unregistered(registry_flags(registry, hashes)).len()
                        && hashes[#[trigger] unregistered(registry_flags(registry, hashes))[k]] == h,
        ),
    )
}

proof fn lemma_unregistered_facts(flags: Seq<bool>)
    ensures
        forall|k: int|
            0 <= k < unregistered(flags).len() ==> 0 <= #[trigger] unregistered(flags)[k]
                < flags.len() && !flags[unregistered(flags)[k]],
        forall|i: int|
            0 <= i < flags.len() && !flags[i] ==> exists|k: int|
                0 <= k < unregistered(flags).len() && #[trigger] unregistered(flags)[k] == i,
        unregistered(flags).len() == 0 <==> forall|i: int| 0 <= i < flags.len() ==> #[trigger] flags[i],
    decreases flags.len(),
{
    if flags.len() > 0 {
        let pre = flags.drop_last();
        lemma_unregistered_facts(pre);
        assert forall|i: int| 0 <= i < flags.len() && !flags[i] implies exists|k: int|
            0 <= k < unregistered(flags).len() && #[trigger] unregistered(flags)[k] == i by {
            if i < flags.len() - 1 {
                assert(!pre[i]);
                let k = choose|k: int| 0 <= k < unregistered(pre).len() && #[trigger] unregistered(pre)[k] == i;
                assert(unregistered(flags)[k] == i);
            } else {
                assert(unregistered(flags)[unregistered(flags).len() - 1] == i);
            }
        }
        if unregistered(flags).len() == 0 {
            assert forall|i: int| 0 <= i < flags.len() implies #[trigger] flags[i] by {
                if i < flags.len() - 1 {
                    assert(pre[i] == flags[i]);
                }
            }
        }
        if forall|i: int| 0 <= i < flags.len() ==> #[trigger] flags[i] {
            assert forall|i: int| 0 <= i < pre.len() implies #[trigger] pre[i] by {
                assert(flags[i]);
            }
            assert(flags.last());
        }
    }
}

/// Pushing again right after a push uploads nothing: once the registry
/// holds what the first push uploaded, it holds every local hash.
pub proof fn push_is_idempotent(registry: Set<Seq<char>>, hashes: Seq<Seq<char>>)
    ensures
        unregistered(registry_flags(registry_after_push(registry, hashes), hashes)).len() == 0,
{
    let flags = registry_flags(registry, hashes);
    let after = registry_after_push(registry, hashes);
    let again = registry_flags(after, hashes);
    lemma_unregistered_facts(flags);
    lemma_unregistered_facts(again);
    assert forall|i: int| 0 <= i < again.len() implies #[trigger] again[i] by {
        if !registry.contains(hashes[i]) {
            assert(!flags[i]);
            let k = choose|k: int| 0 <= k < unregistered(flags).len() && #[trigger] unregistered(flags)[k] == i;
            assert(hashes[unregistered(flags)[k]] == hashes[i]);
        }
    }
}

/// The positions of remote objects to download: those not stored locally
/// whose hash does not occur earlier in the list.
pub open spec fn to_download(store: Map<Seq<char>, Seq<u8>>, hashes: Seq<Seq<char>>) -> Seq<int>
    decreases hashes.len(),
{
    if hashes.len() == 0 {
        Seq::empty()
    } else {
        let pre = hashes.drop_last();
        let h = hashes.last();
        if !store.contains_key(h) && !pre.contains(h) {
            to_download(store, pre).push(hashes.len() - 1)
        } else {
            to_download(store, pre)
        }
    }
}

/// The positions of the registry's objects that are missing locally, each
/// hash once.
pub fn plan_pull(store: &ObjectStore, hashes: &Vec<String>) -> (r: Vec<usize>)
    requires
        store.wf(),
    ensures
        r@.map_values(|i: usize| i as int) == to_download(store@, hashes@.map_values(|h: String| h@)),
{
    let ghost hs = hashes@.map_values(|h: String| h@);
    let mut plan: Vec<usize> = Vec::new();
    let mut i: usize = 0;
    assert(hs.subrange(0, 0) =~= Seq::<Seq<char>>::empty());
    assert(plan@.map_values(|i: usize| i as int) =~= Seq::<int>::empty());
    while i < hashes.len()
        invariant
            store.wf(),
            i <= hashes@.len(),
            hs == hashes@.map_values(|h: String| h@),
            plan@.map_values(|i: usize| i as int) == to_download(store@, hs.subrange(0, i as int)),
        decreases hashes@.len() - i,
    {
        let h = hashes[i].as_str();
        let mut seen = false;
        let mut j: usize = 0;
        while j < i
            invariant
                j <= i < hashes@.len(),
                hs == hashes@.map_values(|h: String| h@),
                h@ == hs[i as int],
                seen <==> exists|k: int| 0 <= k < j && hs[k] == hs[i as int],
            decreases i - j,
        {
            assert(hs[j as int] == hashes@[j as int]@);
            if crate::bytes::same_text(hashes[j].as_str(), h) {
                seen = true;
            }
            j = j + 1;
        }
        let ghost pre = hs.subrange(0, i as int);
        assert(hs.subrange(0, i + 1).drop_last() =~= pre);
        assert(seen <==> pre.contains(hs[i as int])) by {
            if seen {
                let k = choose|k: int| 0 <= k < i && hs[k] == hs[i as int];
                assert(pre[k] == hs[i as int]);
            }
            if pre.contains(hs[i as int]) {
                let k = choose|k: int| 0 <= k < pre.len() && pre[k] == hs[i as int];
                assert(hs[k] == hs[i as int]);
            }
        }
        let ghost before = plan@;
        if !seen && !store.contains(h) {
            plan.push(i);
            assert(plan@.map_values(|i: usize| i as int) =~= before.map_values(|i: usize| i as int).push(i as int));
        }
        i = i + 1;
    }
    assert(hs.subrange(0, hashes@.len() as int) =~= hs);
    plan
}

proof fn lemma_downloaded_cover(
    store: Map<Seq<char>, Seq<u8>>,
    after: Map<Seq<char>, Seq<u8>>,
    hashes: Seq<Seq<char>>,
)
    requires
        forall|h: Seq<char>| store.contains_key(h) ==> #[trigger] after.contains_key(h),
        forall|k: int|
            0 <= k < to_download(store, hashes).len() ==> after.contains_key(
                hashes[#[trigger] to_download(store, hashes)[k]],
            ),
    ensures
        forall|i: int| 0 <= i < hashes.len() ==> after.contains_key(#[trigger] hashes[i]),
    decreases hashes.len(),
{
    if hashes.len() > 0 {
        let pre = hashes.drop_last();
        let plan = to_download(store, hashes);
        let pplan = to_download(store, pre);
        assert forall|k: int| 0 <= k < pplan.len() implies after.contains_key(
            pre[#[trigger] pplan[k]],
        ) by {
            assert(plan[k] == pplan[k]);
            lemma_to_download_bounds(store, pre);
            assert(pre[pplan[k]] == hashes[pplan[k]]);
        }
        lemma_downloaded_cover(store, after, pre);
        let last = hashes.last();
        if !store.contains_key(last) && !pre.contains(last) {
            assert(plan[plan.len() - 1] == hashes.len() - 1);
        } else if pre.contains(last) {
            let k = choose|k: int| 0 <= k < pre.len() && pre[k] == last;
            assert(after.contains_key(pre[k]));
        }
        assert forall|i: int| 0 <= i < hashes.len() implies after.contains_key(#[trigger] hashes[i]) by {
            if i < hashes.len() - 1 {
                assert(hashes[i] == pre[i]);
            }
        }
    }
}

proof fn lemma_to_download_bounds(store: Map<Seq<char>, Seq<u8>>, hashes: Seq<Seq<char>>)
    ensures
        forall|k: int|
            0 <= k < to_download(store, hashes).len() ==> 0 <= #[trigger] to_download(
                store,
                hashes,
            )[k] < hashes.len(),
    decreases hashes.len(),
{
    if hashes.len() > 0 {
        let pre = hashes.drop_last();
        lemma_to_download_bounds(store, pre);
        let plan = to_download(store, hashes);
        let pplan = to_download(store, pre);
        assert forall|k: int| 0 <= k < plan.len() implies 0 <= #[trigger] plan[k] < hashes.len() by {
            if k < pplan.len() {
                assert(plan[k] == pplan[k]);
            }
        }
    }
}

/// Pulling again right after a pull downloads nothing: once every planned
/// object is stored, every remote hash is.
pub proof fn pull_is_idempotent(
    store: Map<Seq<char>, Seq<u8>>,
    after: Map<Seq<char>, Seq<u8>>,
    hashes: Seq<Seq<char>>,
)
    requires
        forall|h: Seq<char>| store.contains_key(h) ==> #[trigger] after.contains_key(h),
        forall|k: int|
            0 <= k < to_download(store, hashes).len() ==> after.contains_key(
                hashes[#[trigger] to_download(store, hashes)[k]],
            ),
    ensures
        to_download(after, hashes).len() == 0,
{
    lemma_downloaded_cover(store, after, hashes);
    lemma_nothing_to_download(after, hashes);
}

proof fn lemma_nothing_to_download(store: Map<Seq<char>, Seq<u8>>, hashes: Seq<Seq<char>>)
    requires
        forall|i: int| 0 <= i < hashes.len() ==> store.contains_key(#[trigger] hashes[i]),
    ensures
        to_download(store, hashes).len() == 0,
    decreases hashes.len(),
{
    if hashes.len() > 0 {
        let pre = hashes.drop_last();
        assert forall|i: int| 0 <= i < pre.len() implies store.contains_key(#[trigger] pre[i]) by {
            assert(pre[i] == hashes[i]);
        }
        lemma_nothing_to_download(store, pre);
        assert(store.contains_key(hashes[hashes.len() - 1]));
    }
}

/// The number of the registry's objects that are not stored locally.
pub open spec fn missing_count(store: Map<Seq<char>, Seq<u8>>, hashes: Seq<Seq<char>>) -> nat
    decreases hashes.len(),
{
    if hashes.len() == 0 {
        0
    } else if store.contains_key(hashes.last()) {
        missing_count(store, hashes.drop_last())
    } else {
        missing_count(store, hashes.drop_last()) + 1
    }
}

/// Counts the registry's objects that are not stored locally.
pub fn count_missing(store: &ObjectStore, hashes: &Vec<String>) -> (r: usize)
    requires
        store.wf(),
    ensures
        r == missing_count(store@, hashes@.map_values(|h: String| h@)),
{
    let ghost hs = hashes@.map_values(|h: String| h@);
    let mut n: usize = 0;
    let mut i: usize = 0;
    assert(hs.subrange(0, 0) =~= Seq::<Seq<char>>::empty());
    while i < hashes.len()
        invariant
            store.wf(),
            i <= hashes@.len(),
            hs == hashes@.map_values(|h: String| h@),
            n == missing_count(store@, hs.subrange(0, i as int)),
            n <= i,
        decreases hashes@.len() - i,
    {
        assert(hs.subrange(0, i + 1).drop_last() =~= hs.subrange(0, i as int));
        if !store.contains(hashes[i].as_str()) {
            n = n + 1;
        }
        i = i + 1;
    }
    assert(hs.subrange(0, hashes@.len() as int) =~= hs);
    n
}

/// The refs after writing each remote ref over the local one, in order,
/// and how many of those writes changed a ref's content.
pub open spec fn apply_refs(
    refs: Map<Seq<char>, Seq<u8>>,
    remote: Seq<(Seq<char>, Seq<u8>)>,
) -> (Map<Seq<char>, Seq<u8>>, nat)
    decreases remote.len(),
{
    if remote.len() == 0 {
        (refs, 0)
    } else {
        let (m, n) = apply_refs(refs, remote.drop_last());
        let (name, data) = remote.last();
        (m.insert(name, data), if ref_content(m, name) != data { n + 1 } else { n })
    }
}

pub open spec fn remote_ref_models(remote: Seq<(String, Vec<u8>)>) -> Seq<(Seq<char>, Seq<u8>)> {
    remote.map_values(|r: (String, Vec<u8>)| (r.0@, r.1@))
}

/// Writes each remote ref over the local one and returns how many changed.
pub fn apply_remote_refs(refs: &mut RefStore, remote: &Vec<(String, Vec<u8>)>) -> (r: usize)
    requires
        old(refs).wf(),
    ensures
        final(refs).wf(),
        (final(refs)@, r as nat) == apply_refs(old(refs)@, remote_ref_models(remote@)),
{
    let ghost rs = remote_ref_models(remote@);
    let ghost start = refs@;
    let mut changed: usize = 0;
    let mut i: usize = 0;
    assert(rs.subrange(0, 0) =~= Seq::<(Seq<char>, Seq<u8>)>::empty());
    while i < remote.len()
        invariant
            refs.wf(),
            i <= remote@.len(),
            rs == remote_ref_models(remote@),
            changed <= i,
            (refs@, changed as nat) == apply_refs(start, rs.subrange(0, i as int)),
        decreases remote@.len() - i,
    {
        let (name, data) = &remote[i];
        assert(rs.subrange(0, i + 1).drop_last() =~= rs.subrange(0, i as int));
        assert(rs.subrange(0, i + 1).last() == (name@, data@));
        let local = crate::refs::Ref(name.clone()).get_content(refs);
        let c = compare_bytes(local.as_slice(), data.as_slice());
        proof {
            crate::bytes::lemma_lex_cmp_basics(local@, data@);
        }
        if c != 0 {
            changed = changed + 1;
        }
        let copy = crate::bytes::copy_range(data.as_slice(), 0, data.len());
        assert(data@.subrange(0, data@.len() as int) =~= data@);
        refs.insert(name.clone(), copy);
        i = i + 1;
    }
    assert(rs.subrange(0, remote@.len() as int) =~= rs);
    changed
}

} // verus!
