//! Properties of the catalog and of replication, stated over the abstract
//! store and proved.
use vstd::prelude::*;
use crate::hash::blake2b_256_of;
use crate::codec::{enc_entry, entry_fits, lemma_entry_encoding_injective, lemma_entry_round_trip};
use crate::error::PlaysetError;
use crate::pieces::{
    Category, EntryView, PieceKind, category_of, kind_of_entry, kind_of_tag, tag_of, marker_hash,
    marker_kind, lemma_tag_names_kind,
};
use crate::store::{StoreView, entry_hash};
use crate::replication::{
    ItemView, Target, import_result, resolved, payload_at, space_targets, playset_targets,
    exported, exported_remote, space_export_result, playset_export_result, target_hashes, tagged,
    lemma_exported_stops, lemma_remote_stops,
};
use crate::store::listed;
use crate::pieces::category_of_entry;

verus! {

/// Importing the same payload under the same tag a second time changes
/// nothing and gives the same answer as the first time.
pub proof fn lemma_import_idempotent(v: StoreView, tag: Seq<char>, payload: Seq<u8>)
    ensures
        import_result(import_result(v, tag, payload).0, tag, payload) == (
            import_result(v, tag, payload).0,
            import_result(v, tag, payload).1,
        ),
{
}

/// An import under a tag that names no kind is refused and leaves the store
/// as it was, unless the payload's hash is already stored.
pub proof fn lemma_unknown_tag_rejected(v: StoreView, tag: Seq<char>, payload: Seq<u8>)
    requires
        kind_of_tag(tag) is None,
        !v.content.contains_key(blake2b_256_of(payload)),
    ensures
        import_result(v, tag, payload) == (v, Err::<(), PlaysetError>(
            PlaysetError::UnknownOrMismatchedType,
        )),
{
}

/// Equal entries have equal hashes, and different entries have different
/// encodings, so their hashes differ unless the digest collides.
pub proof fn lemma_hash_determinism(a: EntryView, b: EntryView)
    requires
        entry_fits(a),
        entry_fits(b),
    ensures
        a == b ==> entry_hash(a) == entry_hash(b),
        a != b ==> enc_entry(a) != enc_entry(b),
{
    if enc_entry(a) == enc_entry(b) {
        lemma_entry_encoding_injective(a, b);
    }
}

/// A created entry reads back under the hash its creation returned, unless
/// other content already sat under that hash.
pub proof fn lemma_get_after_create(v: StoreView, e: EntryView)
    requires
        entry_fits(e),
        v.content.contains_key(entry_hash(e)) ==> v.content[entry_hash(e)] == enc_entry(e),
    ensures
        v.create(e).lookup(entry_hash(e)) == Some(e),
        v.create(e).index(category_of_entry(e)) == v.index(category_of_entry(e)).push(entry_hash(e)),
{
    lemma_entry_round_trip(e);
}

/// Exporting a space sends its origin template first, then its marker piece
/// when it has one, and the space last: three hashes with a marker, two
/// without.
pub proof fn lemma_space_export_order(src: StoreView, h: Seq<u8>, dest: StoreView)
    requires
        src.lookup(h) matches Some(EntryView::Space(_)),
    ensures
        ({
            let s = src.lookup(h)->Some_0->Space_0;
            let ts = space_targets(src, h)->Some_0;
            &&& space_targets(src, h) is Some
            &&& ts[0].0 == PieceKind::Template
            &&& ts.last().0 == PieceKind::Space
            &&& match s.maybe_marker_piece {
                None => target_hashes(ts) == seq![s.origin, h],
                Some(m) => target_hashes(ts) == seq![s.origin, marker_hash(m), h] && ts[1].0
                    == marker_kind(m),
            }
        }),
        space_export_result(src, h, dest).1 matches Ok(hs) ==> ({
            let s = src.lookup(h)->Some_0->Space_0;
            match s.maybe_marker_piece {
                None => hs == seq![s.origin, h],
                Some(m) => hs == seq![s.origin, marker_hash(m), h],
            }
        }),
{
    let s = src.lookup(h)->Some_0->Space_0;
    let ts = space_targets(src, h)->Some_0;
    match s.maybe_marker_piece {
        None => {
            assert(target_hashes(ts) =~= seq![s.origin, h]);
        },
        Some(m) => {
            assert(target_hashes(ts) =~= seq![s.origin, marker_hash(m), h]);
        },
    }
}

/// Every target is stored in `src` as an entry of the kind it is sent as.
pub open spec fn sound_targets(src: StoreView, ts: Seq<Target>) -> bool {
    forall|i: int| 0 <= i < ts.len() ==> resolved(src, #[trigger] ts[i].0, ts[i].1) is Some
}

/// Importing a piece that `src` holds as the kind it is sent as always
/// succeeds.
proof fn lemma_sound_import(src: StoreView, v: StoreView, k: PieceKind, h: Seq<u8>)
    requires
        resolved(src, k, h) is Some,
    ensures
        payload_at(src, h) == resolved(src, k, h),
        import_result(v, tag_of(k), src.content[h]).1 is Ok,
{
    lemma_tag_names_kind(k);
}

/// Exporting targets that `src` holds as their kinds never fails, whatever
/// the destination holds.
pub proof fn lemma_sound_export(src: StoreView, v: StoreView, ts: Seq<Target>)
    requires
        sound_targets(src, ts),
    ensures
        exported(src, v, ts).1 is Ok,
    decreases ts.len(),
{
    if ts.len() > 0 {
        let w = ts.drop_last();
        assert forall|i: int| 0 <= i < w.len() implies resolved(src, #[trigger] w[i].0, w[i].1) is Some by {
            assert(w[i] == ts[i]);
        }
        lemma_sound_export(src, v, w);
        let last = ts.len() - 1;
        assert(resolved(src, ts[last].0, ts[last].1) is Some);
        lemma_sound_import(src, exported(src, v, w).0, ts[last].0, ts[last].1);
    }
}

/// Delivery only ever appends to an index hashes that the destination did
/// not hold before, and never drops content.
pub open spec fn grows_without_duplicates(before: StoreView, after: StoreView) -> bool {
    &&& forall|x: Seq<u8>| #[trigger]
        before.content.contains_key(x) ==> after.content.contains_key(x) && after.content[x]
            == before.content[x]
    &&& forall|c: Category|
        {
            let old_idx = #[trigger] before.index(c);
            let new_idx = after.index(c);
            &&& new_idx.len() >= old_idx.len()
            &&& new_idx.subrange(0, old_idx.len() as int) == old_idx
            &&& forall|j: int|
                old_idx.len() <= j < new_idx.len() ==> !before.content.contains_key(
                    #[trigger] new_idx[j],
                )
        }
}

proof fn lemma_grows_refl(v: StoreView)
    ensures
        grows_without_duplicates(v, v),
{
    assert forall|c: Category| #[trigger] v.index(c).subrange(0, v.index(c).len() as int) == v.index(c) by {
        assert(v.index(c).subrange(0, v.index(c).len() as int) =~= v.index(c));
    }
}

proof fn lemma_import_grows(v: StoreView, tag: Seq<char>, payload: Seq<u8>)
    ensures
        grows_without_duplicates(v, import_result(v, tag, payload).0),
{
    lemma_grows_refl(v);
    let after = import_result(v, tag, payload).0;
    if after != v {
        let h = blake2b_256_of(payload);
        let k = kind_of_tag(tag)->Some_0;
        let cat = category_of(k);
        assert forall|c: Category| #![trigger v.index(c)] {
            let old_idx = v.index(c);
            let new_idx = after.index(c);
            &&& new_idx.len() >= old_idx.len()
            &&& new_idx.subrange(0, old_idx.len() as int) == old_idx
            &&& forall|j: int|
                old_idx.len() <= j < new_idx.len() ==> !v.content.contains_key(#[trigger] new_idx[j])
        } by {
            if c == cat {
                assert(after.index(c) == v.index(c).push(h));
                assert(after.index(c).subrange(0, v.index(c).len() as int) =~= v.index(c));
            } else {
                assert(after.index(c) == v.index(c));
                assert(after.index(c).subrange(0, v.index(c).len() as int) =~= v.index(c));
            }
        }
    }
}

proof fn lemma_grows_trans(a: StoreView, b: StoreView, c: StoreView)
    requires
        grows_without_duplicates(a, b),
        grows_without_duplicates(b, c),
    ensures
        grows_without_duplicates(a, c),
{
    assert forall|cat: Category| #![trigger a.index(cat)] {
        let old_idx = a.index(cat);
        let new_idx = c.index(cat);
        &&& new_idx.len() >= old_idx.len()
        &&& new_idx.subrange(0, old_idx.len() as int) == old_idx
        &&& forall|j: int|
            old_idx.len() <= j < new_idx.len() ==> !a.content.contains_key(#[trigger] new_idx[j])
    } by {
        let ai = a.index(cat);
        let bi = b.index(cat);
        let ci = c.index(cat);
        assert(bi.subrange(0, ai.len() as int) == ai);
        assert(ci.subrange(0, bi.len() as int) == bi);
        assert(ci.subrange(0, ai.len() as int) =~= ai) by {
            assert forall|j: int| 0 <= j < ai.len() implies ci[j] == ai[j] by {
                assert(ci.subrange(0, bi.len() as int)[j] == ci[j]);
                assert(bi.subrange(0, ai.len() as int)[j] == bi[j]);
            }
        }
        assert forall|j: int| ai.len() <= j < ci.len() implies !a.content.contains_key(#[trigger] ci[j]) by {
            if j < bi.len() {
                assert(ci.subrange(0, bi.len() as int)[j] == ci[j]);
                assert(bi[j] == ci[j]);
            } else {
                assert(!b.content.contains_key(ci[j]));
            }
        }
    }
}

/// Exporting any targets only appends to the indexes hashes that were absent
/// from the destination, and keeps all content.
pub proof fn lemma_export_grows(src: StoreView, v: StoreView, ts: Seq<Target>)
    ensures
        grows_without_duplicates(v, exported(src, v, ts).0),
    decreases ts.len(),
{
    if ts.len() == 0 {
        lemma_grows_refl(v);
    } else {
        let w = ts.drop_last();
        lemma_export_grows(src, v, w);
        let (d, r) = exported(src, v, w);
        if r is Ok {
            if let Some(b) = payload_at(src, ts.last().1) {
                lemma_import_grows(d, tag_of(ts.last().0), b);
                lemma_grows_trans(v, d, exported(src, v, ts).0);
            }
        }
    }
}

/// A space export that was cut short after its first `k` pieces can be run
/// again from the start: it succeeds, sends the same hashes, and lists no
/// piece that the destination already held a second time.
pub proof fn lemma_retry_after_partial_export(
    src: StoreView,
    h: Seq<u8>,
    dest: StoreView,
    k: int,
)
    requires
        space_targets(src, h) matches Some(ts) && sound_targets(src, ts) && 0 <= k <= ts.len(),
    ensures
        ({
            let ts = space_targets(src, h)->Some_0;
            let partial = exported(src, dest, ts.take(k)).0;
            let (after, r) = space_export_result(src, h, partial);
            &&& r == Ok::<Seq<Seq<u8>>, PlaysetError>(target_hashes(ts))
            &&& grows_without_duplicates(partial, after)
        }),
{
    let ts = space_targets(src, h)->Some_0;
    let partial = exported(src, dest, ts.take(k)).0;
    lemma_sound_export(src, partial, ts);
    lemma_export_grows(src, partial, ts);
}

/// A successful export leaves every target's hash stored at the destination.
proof fn lemma_exported_holds(src: StoreView, dest: StoreView, ts: Seq<Target>)
    requires
        src.wf(),
        exported(src, dest, ts).1 is Ok,
    ensures
        forall|j: int| 0 <= j < ts.len() ==> exported(src, dest, ts).0.content.contains_key(#[trigger] ts[j].1),
    decreases ts.len(),
{
    if ts.len() > 0 {
        let w = ts.drop_last();
        let d = exported(src, dest, w).0;
        lemma_exported_holds(src, dest, w);
        let b = payload_at(src, ts.last().1)->Some_0;
        assert(src.content.contains_key(ts.last().1));
        lemma_import_grows(d, tag_of(ts.last().0), b);
        assert forall|j: int| 0 <= j < ts.len() implies exported(src, dest, ts).0.content.contains_key(#[trigger] ts[j].1) by {
            if j < w.len() {
                assert(w[j] == ts[j]);
                assert(d.content.contains_key(w[j].1));
            }
        }
    }
}

/// When the first piece missing from the source is the `k`-th, the export
/// stops there with `NotFound`, and the pieces before it stay imported.
pub proof fn lemma_missing_member_keeps_earlier(src: StoreView, dest: StoreView, ts: Seq<Target>, k: int)
    requires
        0 <= k < ts.len(),
        exported(src, dest, ts.take(k)).1 is Ok,
        payload_at(src, ts[k].1) is None,
    ensures
        exported(src, dest, ts) == (exported(src, dest, ts.take(k)).0, Err::<(), PlaysetError>(
            PlaysetError::NotFound,
        )),
{
    assert(ts.take(k + 1).drop_last() =~= ts.take(k));
    assert(ts.take(k + 1).last() == ts[k]);
    lemma_exported_stops(src, dest, ts, k + 1);
}

/// Exporting a playset whose members before the `k`-th are all held as their
/// kinds, and whose `k`-th is missing, imports those earlier members into the
/// destination, keeps them there, and fails with `NotFound`.
pub proof fn lemma_playset_missing_member(src: StoreView, h: Seq<u8>, dest: StoreView, k: int)
    requires
        src.wf(),
        playset_targets(src, h) matches Some(ts) && 0 <= k < ts.len() && sound_targets(src, ts.take(k))
            && payload_at(src, ts[k].1) is None,
    ensures
        ({
            let ts = playset_targets(src, h)->Some_0;
            let (d, r) = playset_export_result(src, h, dest);
            &&& r == Err::<(), PlaysetError>(PlaysetError::NotFound)
            &&& d == exported(src, dest, ts.take(k)).0
            &&& forall|j: int| 0 <= j < k ==> d.content.contains_key(#[trigger] ts[j].1)
            &&& grows_without_duplicates(dest, d)
        }),
{
    let ts = playset_targets(src, h)->Some_0;
    lemma_sound_export(src, dest, ts.take(k));
    lemma_missing_member_keeps_earlier(src, dest, ts, k);
    lemma_exported_holds(src, dest, ts.take(k));
    lemma_export_grows(src, dest, ts);
    assert forall|j: int| 0 <= j < k implies exported(src, dest, ts.take(k)).0.content.contains_key(#[trigger] ts[j].1) by {
        assert(ts.take(k)[j] == ts[j]);
    }
}

/// Exporting `a` then `b` is exporting `a + b`.
proof fn lemma_exported_concat(src: StoreView, v: StoreView, a: Seq<Target>, b: Seq<Target>)
    ensures
        exported(src, v, a + b) == (match exported(src, v, a) {
            (d, Ok(_)) => exported(src, d, b),
            (d, Err(e)) => (d, Err(e)),
        }),
    decreases b.len(),
{
    if b.len() == 0 {
        assert(a + b =~= a);
    } else {
        lemma_exported_concat(src, v, a, b.drop_last());
        assert((a + b).drop_last() =~= a + b.drop_last());
        assert((a + b).last() == b.last());
        if exported(src, v, a).1 is Err {
            assert((a + b).take(a.len() as int) =~= a);
            lemma_exported_stops(src, v, a + b, a.len() as int);
        }
    }
}

/// After a successful export, the destination holds the digest of every
/// payload it was sent.
proof fn lemma_exported_digests(src: StoreView, v: StoreView, ts: Seq<Target>)
    requires
        exported(src, v, ts).1 is Ok,
    ensures
        forall|j: int| 0 <= j < ts.len() ==> (payload_at(src, #[trigger] ts[j].1) matches Some(b)
            && exported(src, v, ts).0.content.contains_key(blake2b_256_of(b))),
    decreases ts.len(),
{
    if ts.len() > 0 {
        let w = ts.drop_last();
        let d = exported(src, v, w).0;
        lemma_exported_digests(src, v, w);
        let b = payload_at(src, ts.last().1)->Some_0;
        lemma_import_grows(d, tag_of(ts.last().0), b);
        assert forall|j: int| 0 <= j < ts.len() implies (payload_at(src, #[trigger] ts[j].1) matches Some(bb)
            && exported(src, v, ts).0.content.contains_key(blake2b_256_of(bb))) by {
            if j < w.len() {
                assert(w[j] == ts[j]);
            }
        }
    }
}

/// Exporting into a destination that already holds the digest of every
/// payload changes nothing.
proof fn lemma_exported_noop(src: StoreView, d: StoreView, ts: Seq<Target>)
    requires
        forall|j: int| 0 <= j < ts.len() ==> (payload_at(src, #[trigger] ts[j].1) matches Some(b)
            && d.content.contains_key(blake2b_256_of(b))),
    ensures
        exported(src, d, ts) == (d, Ok::<(), PlaysetError>(())),
    decreases ts.len(),
{
    if ts.len() > 0 {
        let w = ts.drop_last();
        assert forall|j: int| 0 <= j < w.len() implies (payload_at(src, #[trigger] w[j].1) matches Some(b)
            && d.content.contains_key(blake2b_256_of(b))) by {
            assert(w[j] == ts[j]);
        }
        lemma_exported_noop(src, d, w);
        assert(ts.last() == ts[ts.len() - 1]);
    }
}

/// A playset export that was cut short after its first `k` pieces and then
/// run again from the start ends exactly as one uninterrupted export would:
/// same destination, same result.
pub proof fn lemma_retry_playset_same_as_uninterrupted(src: StoreView, h: Seq<u8>, dest: StoreView, k: int)
    requires
        playset_targets(src, h) matches Some(ts) && 0 <= k <= ts.len() && exported(
            src,
            dest,
            ts.take(k),
        ).1 is Ok,
    ensures
        ({
            let ts = playset_targets(src, h)->Some_0;
            playset_export_result(src, h, exported(src, dest, ts.take(k)).0)
                == playset_export_result(src, h, dest)
        }),
{
    let ts = playset_targets(src, h)->Some_0;
    let a = ts.take(k);
    let rest = ts.subrange(k, ts.len() as int);
    let dk = exported(src, dest, a).0;
    assert(a + rest =~= ts);
    lemma_exported_digests(src, dest, a);
    lemma_exported_noop(src, dk, a);
    lemma_exported_concat(src, dk, a, rest);
    lemma_exported_concat(src, dest, a, rest);
}

proof fn lemma_remote_prefix_ok(src: StoreView, ts: Seq<Target>, rs: Seq<Result<(), PlaysetError>>, j: int)
    requires
        0 <= j <= ts.len(),
        j <= rs.len(),
        forall|i: int| 0 <= i < j ==> payload_at(src, #[trigger] ts[i].1) is Some,
        forall|i: int| 0 <= i < j ==> (#[trigger] rs[i]) is Ok,
    ensures
        exported_remote(src, ts.take(j), rs) == (j as nat, Ok::<(), PlaysetError>(())),
    decreases j,
{
    if j > 0 {
        assert(ts.take(j).drop_last() =~= ts.take(j - 1));
        lemma_remote_prefix_ok(src, ts, rs, j - 1);
        assert(ts.take(j).last() == ts[j - 1]);
        assert(rs[j - 1] is Ok);
    } else {
        assert(ts.take(0) =~= Seq::<Target>::empty());
    }
}

/// Over a remote channel, when the `k`-th call is the first to fail, the
/// export makes exactly `k` calls and ends with that call's error.
pub proof fn lemma_remote_failure_stops(
    src: StoreView,
    ts: Seq<Target>,
    rs: Seq<Result<(), PlaysetError>>,
    k: int,
    e: PlaysetError,
)
    requires
        1 <= k <= ts.len(),
        k <= rs.len(),
        forall|i: int| 0 <= i < k ==> payload_at(src, #[trigger] ts[i].1) is Some,
        forall|i: int| 0 <= i < k - 1 ==> (#[trigger] rs[i]) is Ok,
        rs[k - 1] == Err::<(), PlaysetError>(e),
    ensures
        exported_remote(src, ts, rs) == (k as nat, Err::<(), PlaysetError>(e)),
{
    lemma_remote_prefix_ok(src, ts, rs, k - 1);
    assert(ts.take(k).drop_last() =~= ts.take(k - 1));
    assert(ts.take(k).last() == ts[k - 1]);
    lemma_remote_stops(src, ts, rs, k);
}

/// Over a remote channel, when the `k`-th piece is missing from the source
/// and every call before it succeeded, the export makes exactly `k` calls and
/// ends with `NotFound`.
pub proof fn lemma_remote_missing_member(
    src: StoreView,
    ts: Seq<Target>,
    rs: Seq<Result<(), PlaysetError>>,
    k: int,
)
    requires
        0 <= k < ts.len(),
        k <= rs.len(),
        forall|i: int| 0 <= i < k ==> payload_at(src, #[trigger] ts[i].1) is Some,
        forall|i: int| 0 <= i < k ==> (#[trigger] rs[i]) is Ok,
        payload_at(src, ts[k].1) is None,
    ensures
        exported_remote(src, ts, rs) == (k as nat, Err::<(), PlaysetError>(PlaysetError::NotFound)),
{
    lemma_remote_prefix_ok(src, ts, rs, k);
    assert(ts.take(k + 1).drop_last() =~= ts.take(k));
    assert(ts.take(k + 1).last() == ts[k]);
    lemma_remote_stops(src, ts, rs, k + 1);
}

/// The hashes of the targets whose kind is listed under `c`.
pub open spec fn hashes_of_category(ts: Seq<Target>, c: Category) -> Set<Seq<u8>> {
    Set::new(
        |x: Seq<u8>|
            exists|i: int| 0 <= i < ts.len() && category_of(#[trigger] ts[i].0) == c && ts[i].1 == x,
    )
}

/// `v` holds a part of `src`'s content, and each of its indexes lists
/// exactly the hashes it holds of that category.
pub open spec fn mirrors(src: StoreView, v: StoreView) -> bool {
    &&& forall|x: Seq<u8>| #[trigger]
        v.content.contains_key(x) ==> src.content.contains_key(x) && v.content[x] == src.content[x]
            && v.lookup(x) is Some && v.index(category_of_entry(v.lookup(x)->Some_0)).contains(x)
    &&& forall|c: Category, j: int|
        0 <= j < v.index(c).len() ==> v.content.contains_key(#[trigger] v.index(c)[j])
            && category_of_entry(v.lookup(v.index(c)[j])->Some_0) == c
}

proof fn lemma_kind_category(e: EntryView, k: PieceKind)
    requires
        kind_of_entry(e) == Some(k),
    ensures
        category_of_entry(e) == category_of(k),
{
}

proof fn lemma_empty_mirrors(src: StoreView)
    ensures
        mirrors(src, StoreView::empty()),
{
}

proof fn lemma_import_mirrors(src: StoreView, v: StoreView, it: ItemView)
    requires
        src.wf(),
        mirrors(src, v),
        resolved(src, it.0, it.1) == Some(it.2),
    ensures
        mirrors(src, import_result(v, tag_of(it.0), it.2).0),
        forall|c: Category| #[trigger]
            import_result(v, tag_of(it.0), it.2).0.index(c).to_set() == v.index(c).to_set().union(
                if category_of(it.0) == c {
                    set![it.1]
                } else {
                    Set::empty()
                },
            ),
{
    lemma_tag_names_kind(it.0);
    let (k, hh, b) = it;
    let e = src.lookup(hh)->Some_0;
    assert(src.content.contains_key(hh));
    assert(hh == blake2b_256_of(b));
    lemma_kind_category(e, k);
    let cat = category_of(k);
    let d = import_result(v, tag_of(k), b).0;
    if v.content.contains_key(hh) {
        assert(v.lookup(hh) == Some(e));
        assert(v.index(cat).contains(hh));
        assert forall|c: Category| #[trigger] d.index(c).to_set() == v.index(c).to_set().union(
            if category_of(k) == c {
                set![hh]
            } else {
                Set::empty()
            },
        ) by {
            if c == cat {
                assert(v.index(c).to_set().contains(hh));
                assert(d.index(c).to_set() =~= v.index(c).to_set().union(set![hh]));
            } else {
                assert(d.index(c).to_set() =~= v.index(c).to_set().union(Set::empty()));
            }
        }
    } else {
        assert(d == v.store(b, cat));
        assert(d.content == v.content.insert(hh, b));
        assert forall|x: Seq<u8>| #[trigger] d.content.contains_key(x) implies src.content.contains_key(x)
            && d.content[x] == src.content[x] && d.lookup(x) is Some && d.index(
            category_of_entry(d.lookup(x)->Some_0),
        ).contains(x) by {
            if x == hh {
                assert(d.lookup(x) == Some(e));
                assert(d.index(cat).last() == hh);
                assert(d.index(cat)[d.index(cat).len() - 1] == hh);
            } else {
                assert(v.content.contains_key(x));
                assert(d.lookup(x) == v.lookup(x));
                let ce = category_of_entry(v.lookup(x)->Some_0);
                assert(v.index(ce).contains(x));
                let j = choose|j: int| 0 <= j < v.index(ce).len() && v.index(ce)[j] == x;
                if ce == cat {
                    assert(d.index(ce)[j] == x);
                } else {
                    assert(d.index(ce) == v.index(ce));
                }
            }
        }
        assert forall|c: Category, j: int| 0 <= j < d.index(c).len() implies d.content.contains_key(
            #[trigger] d.index(c)[j],
        ) && category_of_entry(d.lookup(d.index(c)[j])->Some_0) == c by {
            if c == cat && j == v.index(c).len() {
                assert(d.index(c)[j] == hh);
                assert(d.lookup(hh) == Some(e));
            } else {
                if c == cat {
                    assert(d.index(c)[j] == v.index(c)[j]);
                } else {
                    assert(d.index(c) == v.index(c));
                }
                let x = v.index(c)[j];
                assert(v.content.contains_key(x));
                assert(x != hh);
                assert(d.lookup(x) == v.lookup(x));
            }
        }
        assert forall|c: Category| #[trigger] d.index(c).to_set() == v.index(c).to_set().union(
            if category_of(k) == c {
                set![hh]
            } else {
                Set::empty()
            },
        ) by {
            if c == cat {
                assert(d.index(c) == v.index(c).push(hh));
                assert forall|x: Seq<u8>| d.index(c).to_set().contains(x) <==> v.index(c).to_set().union(set![hh]).contains(x) by {
                    if d.index(c).to_set().contains(x) {
                        let j = choose|j: int| 0 <= j < d.index(c).len() && d.index(c)[j] == x;
                        if j < v.index(c).len() {
                            assert(v.index(c)[j] == x);
                        }
                    }
                    if v.index(c).to_set().contains(x) {
                        let j = choose|j: int| 0 <= j < v.index(c).len() && v.index(c)[j] == x;
                        assert(d.index(c)[j] == x);
                    }
                    if x == hh {
                        assert(d.index(c)[v.index(c).len() as int] == x);
                    }
                }
                assert(d.index(c).to_set() =~= v.index(c).to_set().union(set![hh]));
            } else {
                assert(d.index(c).to_set() =~= v.index(c).to_set().union(Set::empty()));
            }
        }
    }
}

proof fn lemma_hashes_of_category_last(ts: Seq<Target>, c: Category)
    requires
        ts.len() > 0,
    ensures
        hashes_of_category(ts, c) == hashes_of_category(ts.drop_last(), c).union(
            if category_of(ts.last().0) == c {
                set![ts.last().1]
            } else {
                Set::<Seq<u8>>::empty()
            },
        ),
{
    let w = ts.drop_last();
    let last = ts.len() - 1;
    let extra = if category_of(ts.last().0) == c {
        set![ts.last().1]
    } else {
        Set::<Seq<u8>>::empty()
    };
    assert forall|x: Seq<u8>| hashes_of_category(ts, c).contains(x) <==> hashes_of_category(w, c).union(extra).contains(x) by {
        if hashes_of_category(ts, c).contains(x) {
            let i = choose|i: int| 0 <= i < ts.len() && category_of(#[trigger] ts[i].0) == c && ts[i].1 == x;
            if i < last {
                assert(w[i] == ts[i]);
                assert(hashes_of_category(w, c).contains(x));
            }
        }
        if hashes_of_category(w, c).contains(x) {
            let i = choose|i: int| 0 <= i < w.len() && category_of(#[trigger] w[i].0) == c && w[i].1 == x;
            assert(w[i] == ts[i]);
            assert(category_of(ts[i].0) == c);
        }
        if extra.contains(x) {
            assert(category_of(ts[last].0) == c);
        }
    }
    assert(hashes_of_category(ts, c) =~= hashes_of_category(w, c).union(extra));
}

/// Exporting sound targets into a mirror of `src` keeps it a mirror, and adds
/// to each index exactly the hashes of the targets of that category.
proof fn lemma_export_mirrors(src: StoreView, v: StoreView, ts: Seq<Target>)
    requires
        src.wf(),
        mirrors(src, v),
        sound_targets(src, ts),
    ensures
        mirrors(src, exported(src, v, ts).0),
        forall|c: Category| #[trigger]
            exported(src, v, ts).0.index(c).to_set() == v.index(c).to_set().union(
                hashes_of_category(ts, c),
            ),
    decreases ts.len(),
{
    if ts.len() == 0 {
        assert forall|c: Category| #[trigger]
            exported(src, v, ts).0.index(c).to_set() == v.index(c).to_set().union(
                hashes_of_category(ts, c),
            ) by {
            assert(hashes_of_category(ts, c) =~= Set::empty());
            assert(v.index(c).to_set().union(Set::empty()) =~= v.index(c).to_set());
        }
    } else {
        let w = ts.drop_last();
        let last = ts.len() - 1;
        assert forall|i: int| 0 <= i < w.len() implies resolved(src, #[trigger] w[i].0, w[i].1) is Some by {
            assert(w[i] == ts[i]);
        }
        lemma_export_mirrors(src, v, w);
        lemma_sound_export(src, v, w);
        let d0 = exported(src, v, w).0;
        let t = ts[last];
        assert(resolved(src, ts[last].0, ts[last].1) is Some);
        lemma_sound_import(src, d0, t.0, t.1);
        let it: ItemView = (t.0, t.1, src.content[t.1]);
        lemma_import_mirrors(src, d0, it);
        assert(exported(src, v, ts).0 == import_result(d0, tag_of(it.0), it.2).0);
        assert forall|c: Category| #[trigger]
            exported(src, v, ts).0.index(c).to_set() == v.index(c).to_set().union(
                hashes_of_category(ts, c),
            ) by {
            let extra = if category_of(it.0) == c {
                set![it.1]
            } else {
                Set::<Seq<u8>>::empty()
            };
            assert(import_result(d0, tag_of(it.0), it.2).0.index(c).to_set() == d0.index(c).to_set().union(extra));
            lemma_hashes_of_category_last(ts, c);
            assert(v.index(c).to_set().union(hashes_of_category(w, c)).union(extra) =~= v.index(c).to_set().union(hashes_of_category(ts, c)));
        }
    }
}

/// Every hash of `hs` resolves in `v` to an entry of kind `k`.
pub open spec fn all_resolve(v: StoreView, k: PieceKind, hs: Seq<Seq<u8>>) -> bool {
    forall|i: int| 0 <= i < hs.len() ==> resolved(v, k, #[trigger] hs[i]) is Some
}

proof fn lemma_tagged_category(parts: Seq<Seq<Target>>, ks: Seq<PieceKind>, hss: Seq<Seq<Seq<u8>>>)
    requires
        parts.len() == 4 && ks.len() == 4 && hss.len() == 4,
        ks == seq![PieceKind::Template, PieceKind::SvgMarker, PieceKind::EmojiGroup, PieceKind::Space],
        forall|p: int| 0 <= p < 4 ==> #[trigger] parts[p] == tagged(ks[p], hss[p]),
    ensures
        forall|p: int| 0 <= p < 4 ==> #[trigger] hashes_of_category(parts[0] + parts[1] + parts[2] + parts[3], category_of(ks[p])) == hss[p].to_set(),
{
    let all = parts[0] + parts[1] + parts[2] + parts[3];
    assert forall|p: int| 0 <= p < 4 implies #[trigger] hashes_of_category(all, category_of(ks[p])) == hss[p].to_set() by {
        let c = category_of(ks[p]);
        assert(parts[p] == tagged(ks[p], hss[p]));
        let off = if p == 0 { 0 } else if p == 1 { parts[0].len() as int } else if p == 2 { (parts[0].len() + parts[1].len()) as int } else { (parts[0].len() + parts[1].len() + parts[2].len()) as int };
        assert forall|i: int| 0 <= i < parts[p].len() implies all[off + i] == parts[p][i] && parts[p][i] == (ks[p], hss[p][i]) by {}
        assert forall|i: int| 0 <= i < all.len() && category_of(#[trigger] all[i].0) == c implies off <= i < off + parts[p].len() by {
            if i < parts[0].len() {
                assert(all[i] == parts[0][i]);
                assert(parts[0][i].0 == ks[0]);
            } else if i < parts[0].len() + parts[1].len() {
                assert(all[i] == parts[1][i - parts[0].len()]);
                assert(parts[1][i - parts[0].len()].0 == ks[1]);
            } else if i < parts[0].len() + parts[1].len() + parts[2].len() {
                assert(all[i] == parts[2][i - parts[0].len() - parts[1].len()]);
                assert(parts[2][i - parts[0].len() - parts[1].len()].0 == ks[2]);
            } else {
                assert(all[i] == parts[3][i - parts[0].len() - parts[1].len() - parts[2].len()]);
                assert(parts[3][i - parts[0].len() - parts[1].len() - parts[2].len()].0 == ks[3]);
            }
        }
        assert forall|x: Seq<u8>| hashes_of_category(all, c).contains(x) <==> hss[p].to_set().contains(x) by {
            if hashes_of_category(all, c).contains(x) {
                let i = choose|i: int| 0 <= i < all.len() && category_of(#[trigger] all[i].0) == c && all[i].1 == x;
                assert(all[i] == parts[p][i - off]);
                assert(hss[p][i - off] == x);
            }
            if hss[p].to_set().contains(x) {
                let i = choose|i: int| 0 <= i < hss[p].len() && hss[p][i] == x;
                assert(all[off + i] == parts[p][i]);
                assert(category_of(all[off + i].0) == c);
            }
        }
        assert(hashes_of_category(all, c) =~= hss[p].to_set());
    }
}

/// The hashes of what listing `idx` under `c` gives.
pub open spec fn listed_hashes(v: StoreView, idx: Seq<Seq<u8>>, c: Category) -> Seq<Seq<u8>> {
    listed(v, idx, c).map_values(|q: (Seq<u8>, EntryView)| q.0)
}

/// Listing an index whose every hash holds an entry of its category gives
/// back every hash of the index, in order.
pub proof fn lemma_listed_all(v: StoreView, idx: Seq<Seq<u8>>, c: Category)
    requires
        forall|j: int|
            0 <= j < idx.len() ==> (v.lookup(#[trigger] idx[j]) matches Some(e) && category_of_entry(e)
                == c),
    ensures
        listed_hashes(v, idx, c) == idx,
    decreases idx.len(),
{
    if idx.len() > 0 {
        let w = idx.drop_last();
        assert forall|j: int| 0 <= j < w.len() implies (v.lookup(#[trigger] w[j]) matches Some(e)
            && category_of_entry(e) == c) by {
            assert(w[j] == idx[j]);
        }
        lemma_listed_all(v, w, c);
        let x = idx[idx.len() - 1];
        assert(v.lookup(x) is Some);
        let e = v.lookup(x)->Some_0;
        let prev = listed(v, w, c);
        assert(listed(v, idx, c) == prev.push((x, e)));
        assert(listed_hashes(v, idx, c) =~= listed_hashes(v, w, c).push(x));
        assert(w.push(x) =~= idx);
    }
}

/// The targets a playset export sends when all its members resolve.
proof fn lemma_playset_sound(src: StoreView, h: Seq<u8>)
    requires
        src.lookup(h) matches Some(EntryView::Playset(p)) && all_resolve(
            src,
            PieceKind::Template,
            p.templates,
        ) && all_resolve(src, PieceKind::SvgMarker, p.svg_markers) && all_resolve(
            src,
            PieceKind::EmojiGroup,
            p.emoji_groups,
        ) && all_resolve(src, PieceKind::Space, p.spaces),
    ensures
        playset_targets(src, h) matches Some(ts) && sound_targets(src, ts) && ({
            let p = src.lookup(h)->Some_0->Playset_0;
            &&& hashes_of_category(ts, Category::Templates) == p.templates.to_set()
            &&& hashes_of_category(ts, Category::SvgMarkers) == p.svg_markers.to_set()
            &&& hashes_of_category(ts, Category::EmojiGroups) == p.emoji_groups.to_set()
            &&& hashes_of_category(ts, Category::Spaces) == p.spaces.to_set()
        }),
{
    let p = src.lookup(h)->Some_0->Playset_0;
    let a = tagged(PieceKind::Template, p.templates);
    let b = tagged(PieceKind::SvgMarker, p.svg_markers);
    let c = tagged(PieceKind::EmojiGroup, p.emoji_groups);
    let d4 = tagged(PieceKind::Space, p.spaces);
    let ts = a + b + c + d4;
    let parts = seq![a, b, c, d4];
    let ks = seq![PieceKind::Template, PieceKind::SvgMarker, PieceKind::EmojiGroup, PieceKind::Space];
    let hss = seq![p.templates, p.svg_markers, p.emoji_groups, p.spaces];
    assert(parts[0] + parts[1] + parts[2] + parts[3] == ts);
    lemma_tagged_category(parts, ks, hss);
    assert(hashes_of_category(ts, category_of(ks[0])) == hss[0].to_set());
    assert(hashes_of_category(ts, category_of(ks[1])) == hss[1].to_set());
    assert(hashes_of_category(ts, category_of(ks[2])) == hss[2].to_set());
    assert(hashes_of_category(ts, category_of(ks[3])) == hss[3].to_set());
    assert forall|i: int| 0 <= i < ts.len() implies resolved(src, #[trigger] ts[i].0, ts[i].1) is Some by {
        if i < a.len() {
            assert(ts[i] == a[i]);
            assert(p.templates[i] == a[i].1);
        } else if i < a.len() + b.len() {
            assert(ts[i] == b[i - a.len()]);
            assert(p.svg_markers[i - a.len()] == b[i - a.len()].1);
        } else if i < a.len() + b.len() + c.len() {
            assert(ts[i] == c[i - a.len() - b.len()]);
            assert(p.emoji_groups[i - a.len() - b.len()] == c[i - a.len() - b.len()].1);
        } else {
            assert(ts[i] == d4[i - a.len() - b.len() - c.len()]);
            assert(p.spaces[i - a.len() - b.len() - c.len()] == d4[i - a.len() - b.len() - c.len()].1);
        }
    }
}

/// A mirror's index lists exactly the hashes of one category.
proof fn lemma_mirror_listing(src: StoreView, d: StoreView, c: Category)
    requires
        mirrors(src, d),
    ensures
        listed_hashes(d, d.index(c), c) == d.index(c),
{
    let idx = d.index(c);
    assert forall|j: int| 0 <= j < idx.len() implies (d.lookup(#[trigger] idx[j]) matches Some(e)
        && category_of_entry(e) == c) by {
        assert(d.content.contains_key(d.index(c)[j]));
    }
    lemma_listed_all(d, idx, c);
}

/// Exporting a playset whose pieces and spaces all resolve to their kinds
/// into an empty store succeeds, and the destination then lists exactly the
/// playset's templates, SVG markers, emoji groups and spaces, by hash.
pub proof fn lemma_playset_round_trip(src: StoreView, h: Seq<u8>)
    requires
        src.wf(),
        src.lookup(h) matches Some(EntryView::Playset(p)) && all_resolve(
            src,
            PieceKind::Template,
            p.templates,
        ) && all_resolve(src, PieceKind::SvgMarker, p.svg_markers) && all_resolve(
            src,
            PieceKind::EmojiGroup,
            p.emoji_groups,
        ) && all_resolve(src, PieceKind::Space, p.spaces),
    ensures
        ({
            let p = src.lookup(h)->Some_0->Playset_0;
            let (d, r) = playset_export_result(src, h, StoreView::empty());
            &&& r is Ok
            &&& d.templates.to_set() == p.templates.to_set()
            &&& d.svg_markers.to_set() == p.svg_markers.to_set()
            &&& d.emoji_groups.to_set() == p.emoji_groups.to_set()
            &&& d.spaces.to_set() == p.spaces.to_set()
            &&& listed_hashes(d, d.templates, Category::Templates) == d.templates
            &&& listed_hashes(d, d.svg_markers, Category::SvgMarkers) == d.svg_markers
            &&& listed_hashes(d, d.emoji_groups, Category::EmojiGroups) == d.emoji_groups
            &&& listed_hashes(d, d.spaces, Category::Spaces) == d.spaces
        }),
{
    lemma_playset_sound(src, h);
    let ts = playset_targets(src, h)->Some_0;
    let empty = StoreView::empty();
    lemma_empty_mirrors(src);
    lemma_sound_export(src, empty, ts);
    lemma_export_mirrors(src, empty, ts);
    let d = exported(src, empty, ts).0;
    assert forall|cat: Category| #[trigger] d.index(cat).to_set() == hashes_of_category(ts, cat) by {
        assert(empty.index(cat).to_set() =~= Set::<Seq<u8>>::empty());
        assert(d.index(cat).to_set() == empty.index(cat).to_set().union(hashes_of_category(ts, cat)));
        assert(Set::<Seq<u8>>::empty().union(hashes_of_category(ts, cat)) =~= hashes_of_category(ts, cat));
    }
    assert(d.index(Category::Templates).to_set() == hashes_of_category(ts, Category::Templates));
    assert(d.index(Category::SvgMarkers).to_set() == hashes_of_category(ts, Category::SvgMarkers));
    assert(d.index(Category::EmojiGroups).to_set() == hashes_of_category(ts, Category::EmojiGroups));
    assert(d.index(Category::Spaces).to_set() == hashes_of_category(ts, Category::Spaces));
    lemma_mirror_listing(src, d, Category::Templates);
    lemma_mirror_listing(src, d, Category::SvgMarkers);
    lemma_mirror_listing(src, d, Category::EmojiGroups);
    lemma_mirror_listing(src, d, Category::Spaces);
}

} // verus!
