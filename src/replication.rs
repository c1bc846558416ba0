//! Replication between stores: idempotent, type-checked import, and exports
//! that look up and send one piece at a time, every piece before the entries
//! that refer to it, stopping at the first failure without undoing what was
//! already sent.
use vstd::prelude::*;
use crate::hash::{EntryHash, blake2b_256_of};
use crate::codec::{decode, decode_entry, lemma_entry_canonical};
use crate::error::PlaysetError;
use crate::pieces::{
    EntryView, PieceKind, PlaysetEntry, category_of, kind_of_entry, kind_of_tag,
    tag_of, marker_hash, marker_kind,
};
use crate::store::{Store, StoreView};

verus! {

/// A piece ready to be sent to another store: its kind, its hash and its
/// canonical encoding.
#[derive(Debug, PartialEq)]
pub struct ExportItem {
    pub kind: PieceKind,
    pub hash: EntryHash,
    pub payload: Vec<u8>,
}

/// The abstract form of an export item: kind, hash, payload.
pub type ItemView = (PieceKind, Seq<u8>, Seq<u8>);

impl View for ExportItem {
    type V = ItemView;

    open spec fn view(&self) -> ItemView {
        (self.kind, self.hash@, self.payload@)
    }
}

/// A piece to export: the kind it is sent as, and its hash.
pub type Target = (PieceKind, Seq<u8>);

pub open spec fn targets_view(v: Seq<(PieceKind, EntryHash)>) -> Seq<Target> {
    v.map_values(|t: (PieceKind, EntryHash)| (t.0, t.1@))
}

/// The hashes of a sequence of targets, in order.
pub open spec fn target_hashes(v: Seq<Target>) -> Seq<Seq<u8>> {
    v.map_values(|t: Target| t.1)
}

/// The targets for the hashes `hs`, all sent as kind `k`.
pub open spec fn tagged(k: PieceKind, hs: Seq<Seq<u8>>) -> Seq<Target> {
    hs.map_values(|h: Seq<u8>| (k, h))
}

/// The outcome of importing `payload` under wire tag `tag` into `v`: nothing
/// changes when its hash is already stored; otherwise the payload must be the
/// encoding of an entry of the kind the tag names, and it is stored and listed.
pub open spec fn import_result(v: StoreView, tag: Seq<char>, payload: Seq<u8>) -> (
    StoreView,
    Result<(), PlaysetError>,
) {
    if v.content.contains_key(blake2b_256_of(payload)) {
        (v, Ok(()))
    } else {
        match kind_of_tag(tag) {
            None => (v, Err(PlaysetError::UnknownOrMismatchedType)),
            Some(k) => match decode_entry(payload) {
                Some(e) => if kind_of_entry(e) == Some(k) {
                    (v.store(payload, category_of(k)), Ok(()))
                } else {
                    (v, Err(PlaysetError::UnknownOrMismatchedType))
                },
                None => (v, Err(PlaysetError::UnknownOrMismatchedType)),
            },
        }
    }
}

/// The encoding stored under `h`, whatever it is.
pub open spec fn payload_at(v: StoreView, h: Seq<u8>) -> Option<Seq<u8>> {
    if v.content.contains_key(h) {
        Some(v.content[h])
    } else {
        None
    }
}

/// The encoding stored under `h` when it is an entry of kind `k`.
pub open spec fn resolved(v: StoreView, k: PieceKind, h: Seq<u8>) -> Option<Seq<u8>> {
    match v.lookup(h) {
        Some(e) => if kind_of_entry(e) == Some(k) {
            Some(v.content[h])
        } else {
            None
        },
        None => None,
    }
}

/// What exporting the space stored under `h` sends, in order: its origin
/// template, then its marker piece if it has one, then the space itself;
/// `None` when no space is stored under `h`.
pub open spec fn space_targets(v: StoreView, h: Seq<u8>) -> Option<Seq<Target>> {
    match v.lookup(h) {
        Some(EntryView::Space(s)) => {
            let first = seq![(PieceKind::Template, s.origin)];
            let last = seq![(PieceKind::Space, h)];
            match s.maybe_marker_piece {
                None => Some(first + last),
                Some(m) => Some(first + seq![(marker_kind(m), marker_hash(m))] + last),
            }
        },
        _ => None,
    }
}

/// What exporting the playset stored under `h` sends, in order: its
/// templates, SVG markers, emoji groups, then its spaces; `None` when no
/// playset is stored under `h`.
pub open spec fn playset_targets(v: StoreView, h: Seq<u8>) -> Option<Seq<Target>> {
    match v.lookup(h) {
        Some(EntryView::Playset(p)) => Some(
            tagged(PieceKind::Template, p.templates) + tagged(PieceKind::SvgMarker, p.svg_markers)
                + tagged(PieceKind::EmojiGroup, p.emoji_groups) + tagged(PieceKind::Space, p.spaces),
        ),
        _ => None,
    }
}

/// The outcome of exporting `targets` from `src` into `dest`, one after the
/// other: each is looked up in `src` (`NotFound` when absent) and then
/// imported; the first failure stops the export and nothing is undone.
pub open spec fn exported(src: StoreView, dest: StoreView, targets: Seq<Target>) -> (
    StoreView,
    Result<(), PlaysetError>,
)
    decreases targets.len(),
{
    if targets.len() == 0 {
        (dest, Ok(()))
    } else {
        let (d, r) = exported(src, dest, targets.drop_last());
        match r {
            Err(e) => (d, Err(e)),
            Ok(_) => match payload_at(src, targets.last().1) {
                None => (d, Err(PlaysetError::NotFound)),
                Some(b) => import_result(d, tag_of(targets.last().0), b),
            },
        }
    }
}

/// The outcome of exporting `targets` from `src` over a remote channel whose
/// `i`-th call answers `replies[i]`: how many calls were made, and the
/// result. A target missing from `src` stops the export before its call.
pub open spec fn exported_remote(
    src: StoreView,
    targets: Seq<Target>,
    replies: Seq<Result<(), PlaysetError>>,
) -> (nat, Result<(), PlaysetError>)
    decreases targets.len(),
{
    if targets.len() == 0 {
        (0, Ok(()))
    } else {
        let (n, r) = exported_remote(src, targets.drop_last(), replies);
        match r {
            Err(e) => (n, Err(e)),
            Ok(_) => match payload_at(src, targets.last().1) {
                None => (n, Err(PlaysetError::NotFound)),
                Some(_) => if n < replies.len() {
                    match replies[n as int] {
                        Ok(_) => (n + 1, Ok(())),
                        Err(e) => (n + 1, Err(e)),
                    }
                } else {
                    (n + 1, Ok(()))
                },
            },
        }
    }
}

/// The outcome of exporting the space under `h` from `src` into `dest`: the
/// destination afterwards, and the hashes sent.
pub open spec fn space_export_result(src: StoreView, h: Seq<u8>, dest: StoreView) -> (
    StoreView,
    Result<Seq<Seq<u8>>, PlaysetError>,
) {
    match space_targets(src, h) {
        None => (dest, Err(PlaysetError::NotFound)),
        Some(ts) => {
            let (d, r) = exported(src, dest, ts);
            match r {
                Ok(_) => (d, Ok(target_hashes(ts))),
                Err(e) => (d, Err(e)),
            }
        },
    }
}

/// The outcome of exporting the playset under `h` from `src` into `dest`.
pub open spec fn playset_export_result(src: StoreView, h: Seq<u8>, dest: StoreView) -> (
    StoreView,
    Result<(), PlaysetError>,
) {
    match playset_targets(src, h) {
        None => (dest, Err(PlaysetError::NotFound)),
        Some(ts) => exported(src, dest, ts),
    }
}

/// The outcome of exporting the piece under `h` from `src` into `dest` under
/// wire tag `tag`: the stored payload is sent as it is, and the destination's
/// import decides.
pub open spec fn piece_export_result(src: StoreView, tag: Seq<char>, h: Seq<u8>, dest: StoreView) -> (
    StoreView,
    Result<(), PlaysetError>,
) {
    match payload_at(src, h) {
        None => (dest, Err(PlaysetError::NotFound)),
        Some(b) => import_result(dest, tag, b),
    }
}

/// Once an export fails, exporting more targets changes nothing.
pub proof fn lemma_exported_stops(src: StoreView, dest: StoreView, ts: Seq<Target>, n: int)
    requires
        0 <= n <= ts.len(),
        exported(src, dest, ts.take(n)).1 is Err,
    ensures
        exported(src, dest, ts) == exported(src, dest, ts.take(n)),
    decreases ts.len() - n,
{
    if n < ts.len() {
        assert(ts.take(n + 1).drop_last() =~= ts.take(n));
        lemma_exported_stops(src, dest, ts, n + 1);
    } else {
        assert(ts.take(n) =~= ts);
    }
}

/// Once a remote export fails, more targets and more replies change nothing.
pub proof fn lemma_remote_stops(src: StoreView, ts: Seq<Target>, rs: Seq<Result<(), PlaysetError>>, n: int)
    requires
        0 <= n <= ts.len(),
        exported_remote(src, ts.take(n), rs).1 is Err,
    ensures
        exported_remote(src, ts, rs) == exported_remote(src, ts.take(n), rs),
    decreases ts.len() - n,
{
    if n < ts.len() {
        assert(ts.take(n + 1).drop_last() =~= ts.take(n));
        lemma_remote_stops(src, ts, rs, n + 1);
    } else {
        assert(ts.take(n) =~= ts);
    }
}

/// Replies beyond the calls an export made do not change its outcome.
pub proof fn lemma_remote_more_replies(
    src: StoreView,
    ts: Seq<Target>,
    rs: Seq<Result<(), PlaysetError>>,
    more: Seq<Result<(), PlaysetError>>,
)
    requires
        exported_remote(src, ts, rs).0 <= rs.len(),
    ensures
        exported_remote(src, ts, rs + more) == exported_remote(src, ts, rs),
    decreases ts.len(),
{
    if ts.len() > 0 {
        lemma_remote_more_replies(src, ts.drop_last(), rs, more);
        let n = exported_remote(src, ts.drop_last(), rs).0;
        if n < rs.len() {
            assert((rs + more)[n as int] == rs[n as int]);
        }
    }
}

impl Store {
    /// Imports a piece sent by another store under its wire tag. A payload
    /// whose hash is already stored is accepted as it is; any other must be
    /// the encoding of an entry of the kind the tag names, and is stored and
    /// listed.
    pub fn import_piece(&mut self, tag: &str, payload: &Vec<u8>) -> (r: Result<(), PlaysetError>)
        requires
            old(self).inv(),
        ensures
            final(self).inv(),
            (final(self)@, r) == import_result(old(self)@, tag@, payload@),
    {
        let h = EntryHash::of_bytes(payload);
        if self.contains(&h) {
            return Ok(());
        }
        let kind = match PieceKind::from_tag(tag) {
            Some(k) => k,
            None => return Err(PlaysetError::UnknownOrMismatchedType),
        };
        let e = match decode(payload) {
            Some(e) => e,
            None => return Err(PlaysetError::UnknownOrMismatchedType),
        };
        proof {
            lemma_entry_canonical(payload@);
        }
        let created = match (kind, e) {
            (PieceKind::Template, PlaysetEntry::Template(x)) => self.create_template(x),
            (PieceKind::SvgMarker, PlaysetEntry::SvgMarker(x)) => self.create_svg_marker(x),
            (PieceKind::EmojiGroup, PlaysetEntry::EmojiGroup(x)) => self.create_emoji_group(x),
            (PieceKind::Space, PlaysetEntry::Space(x)) => self.create_space(x),
            _ => return Err(PlaysetError::UnknownOrMismatchedType),
        };
        if !created.same(&h) {
            return Err(PlaysetError::InvariantViolation);
        }
        Ok(())
    }

    fn push_tagged(k: PieceKind, hs: &Vec<EntryHash>, out: &mut Vec<(PieceKind, EntryHash)>)
        ensures
            targets_view(final(out)@) == targets_view(old(out)@) + tagged(
                k,
                hs@.map_values(|h: EntryHash| h@),
            ),
    {
        let ghost start = targets_view(out@);
        let ghost hv = hs@.map_values(|h: EntryHash| h@);
        let mut i: usize = 0;
        assert(targets_view(out@) =~= start + tagged(k, hv.take(0)));
        while i < hs.len()
            invariant
                0 <= i <= hs@.len(),
                hv == hs@.map_values(|h: EntryHash| h@),
                targets_view(out@) == start + tagged(k, hv.take(i as int)),
            decreases hs@.len() - i,
        {
            let ghost before = targets_view(out@);
            out.push((k, hs[i].duplicate()));
            assert(targets_view(out@) =~= before.push((k, hv[i as int])));
            assert(tagged(k, hv.take(i + 1)) =~= tagged(k, hv.take(i as int)).push((k, hv[i as int])));
            assert(targets_view(out@) =~= start + tagged(k, hv.take(i + 1)));
            i = i + 1;
        }
        assert(hv.take(hs@.len() as int) =~= hv);
    }

    /// The pieces that exporting the space under `h` sends, in order.
    pub fn space_targets(&self, h: &EntryHash) -> (r: Result<Vec<(PieceKind, EntryHash)>, PlaysetError>)
        requires
            self.inv(),
        ensures
            match r {
                Ok(ts) => space_targets(self@, h@) == Some(targets_view(ts@)),
                Err(e) => space_targets(self@, h@) is None && e == PlaysetError::NotFound,
            },
    {
        let space = match self.get_entry(h) {
            Some(PlaysetEntry::Space(s)) => s,
            _ => return Err(PlaysetError::NotFound),
        };
        let mut ts: Vec<(PieceKind, EntryHash)> = Vec::new();
        ts.push((PieceKind::Template, space.origin.duplicate()));
        match &space.maybe_marker_piece {
            Some(m) => {
                ts.push((m.kind(), m.eh()));
            },
            None => {},
        }
        ts.push((PieceKind::Space, h.duplicate()));
        assert(targets_view(ts@) =~= space_targets(self@, h@)->Some_0);
        Ok(ts)
    }

    /// The pieces that exporting the playset under `h` sends, in order.
    pub fn playset_targets(&self, h: &EntryHash) -> (r: Result<Vec<(PieceKind, EntryHash)>, PlaysetError>)
        requires
            self.inv(),
        ensures
            match r {
                Ok(ts) => playset_targets(self@, h@) == Some(targets_view(ts@)),
                Err(e) => playset_targets(self@, h@) is None && e == PlaysetError::NotFound,
            },
    {
        let p = match self.get_entry(h) {
            Some(PlaysetEntry::Playset(p)) => p,
            _ => return Err(PlaysetError::NotFound),
        };
        let mut ts: Vec<(PieceKind, EntryHash)> = Vec::new();
        assert(targets_view(ts@) =~= Seq::<Target>::empty());
        Self::push_tagged(PieceKind::Template, &p.templates, &mut ts);
        Self::push_tagged(PieceKind::SvgMarker, &p.svg_markers, &mut ts);
        Self::push_tagged(PieceKind::EmojiGroup, &p.emoji_groups, &mut ts);
        Self::push_tagged(PieceKind::Space, &p.spaces, &mut ts);
        assert(targets_view(ts@) =~= playset_targets(self@, h@)->Some_0);
        Ok(ts)
    }

    /// The export item for `target`: its encoding as stored, of whatever
    /// kind; `NotFound` when nothing is stored under its hash.
    pub fn export_item(&self, target: &(PieceKind, EntryHash)) -> (r: Result<ExportItem, PlaysetError>)
        requires
            self.inv(),
        ensures
            match r {
                Ok(item) => payload_at(self@, target.1@) == Some(item@.2) && item@.0 == target.0
                    && item@.1 == target.1@,
                Err(e) => payload_at(self@, target.1@) is None && e == PlaysetError::NotFound,
            },
    {
        match self.get_bytes(&target.1) {
            Some(b) => Ok(ExportItem { kind: target.0, hash: target.1.duplicate(), payload: b }),
            None => Err(PlaysetError::NotFound),
        }
    }
}

/// Exports `targets` from `src` into `dest` in order: each is looked up, then
/// imported; the first failure stops the export, and what was imported before
/// it stays.
pub fn export_targets(src: &Store, targets: &Vec<(PieceKind, EntryHash)>, dest: &mut Store) -> (r:
    Result<(), PlaysetError>)
    requires
        src.inv(),
        old(dest).inv(),
    ensures
        final(dest).inv(),
        (final(dest)@, r) == exported(src@, old(dest)@, targets_view(targets@)),
{
    let ghost tv = targets_view(targets@);
    let mut i: usize = 0;
    assert(tv.take(0) =~= Seq::<Target>::empty());
    while i < targets.len()
        invariant
            0 <= i <= targets@.len(),
            src.inv(),
            dest.inv(),
            tv == targets_view(targets@),
            (dest@, Ok::<(), PlaysetError>(())) == exported(src@, old(dest)@, tv.take(i as int)),
        decreases targets@.len() - i,
    {
        proof {
            assert(tv.take(i + 1).drop_last() =~= tv.take(i as int));
            assert(tv.take(i + 1).last() == (targets@[i as int].0, targets@[i as int].1@));
        }
        let item = match src.export_item(&targets[i]) {
            Ok(item) => item,
            Err(e) => {
                proof {
                    lemma_exported_stops(src@, old(dest)@, tv, i + 1);
                }
                return Err(e);
            },
        };
        match dest.import_piece(item.kind.tag(), &item.payload) {
            Ok(_) => {},
            Err(e) => {
                proof {
                    lemma_exported_stops(src@, old(dest)@, tv, i + 1);
                }
                return Err(e);
            },
        }
        i = i + 1;
    }
    assert(tv.take(targets@.len() as int) =~= tv);
    Ok(())
}

/// Exports the piece stored under `piece_eh` from `src` into `dest` under
/// wire tag `tag`; the destination's import decides whether the payload is
/// of that kind.
pub fn export_piece(src: &Store, tag: &str, piece_eh: &EntryHash, dest: &mut Store) -> (r: Result<
    (),
    PlaysetError,
>)
    requires
        src.inv(),
        old(dest).inv(),
    ensures
        final(dest).inv(),
        (final(dest)@, r) == piece_export_result(src@, tag@, piece_eh@, old(dest)@),
{
    let payload = match src.get_bytes(piece_eh) {
        Some(b) => b,
        None => return Err(PlaysetError::NotFound),
    };
    dest.import_piece(tag, &payload)
}

/// Exports the space under `space_eh` from `src` into `dest`: its origin
/// template first, then its marker piece if any, then the space; returns the
/// hashes sent, in that order.
pub fn export_space(src: &Store, space_eh: &EntryHash, dest: &mut Store) -> (r: Result<
    Vec<EntryHash>,
    PlaysetError,
>)
    requires
        src.inv(),
        old(dest).inv(),
    ensures
        final(dest).inv(),
        final(dest)@ == space_export_result(src@, space_eh@, old(dest)@).0,
        match r {
            Ok(hs) => space_export_result(src@, space_eh@, old(dest)@).1 == Ok::<
                Seq<Seq<u8>>,
                PlaysetError,
            >(hs@.map_values(|h: EntryHash| h@)),
            Err(e) => space_export_result(src@, space_eh@, old(dest)@).1 == Err::<
                Seq<Seq<u8>>,
                PlaysetError,
            >(e),
        },
{
    let targets = match src.space_targets(space_eh) {
        Ok(ts) => ts,
        Err(e) => return Err(e),
    };
    match export_targets(src, &targets, dest) {
        Ok(_) => {},
        Err(e) => return Err(e),
    }
    let mut hs: Vec<EntryHash> = Vec::new();
    let mut i: usize = 0;
    while i < targets.len()
        invariant
            0 <= i <= targets@.len(),
            hs@.len() == i,
            forall|j: int| 0 <= j < i ==> #[trigger] hs@[j]@ == targets@[j].1@,
        decreases targets@.len() - i,
    {
        hs.push(targets[i].1.duplicate());
        i = i + 1;
    }
    assert(hs@.map_values(|h: EntryHash| h@) =~= target_hashes(targets_view(targets@)));
    Ok(hs)
}

/// Exports the playset under `playset_eh` from `src` into `dest`: its
/// templates, then its SVG markers, its emoji groups and its spaces, stopping
/// at the first failure.
pub fn export_playset(src: &Store, playset_eh: &EntryHash, dest: &mut Store) -> (r: Result<
    (),
    PlaysetError,
>)
    requires
        src.inv(),
        old(dest).inv(),
    ensures
        final(dest).inv(),
        (final(dest)@, r) == playset_export_result(src@, playset_eh@, old(dest)@),
{
    let targets = match src.playset_targets(playset_eh) {
        Ok(ts) => ts,
        Err(e) => return Err(e),
    };
    export_targets(src, &targets, dest)
}

/// What a remote export does next.
#[derive(Debug, PartialEq)]
pub enum ExportStep {
    /// Send this item to the destination.
    Send(ExportItem),
    /// Every piece was accepted.
    Done,
    /// The export stopped with this error.
    Failed(PlaysetError),
}

/// An export whose pieces travel over a remote channel, one call per piece,
/// in order. It decides each step; the caller makes the calls and reports
/// their replies.
pub struct ExportSession {
    /// What the export sends, in order.
    pub targets: Vec<(PieceKind, EntryHash)>,
    /// How many calls were answered.
    pub calls: usize,
    /// The error that stopped the export, if any.
    pub failed: Option<PlaysetError>,
    /// The replies received so far.
    pub replies: Ghost<Seq<Result<(), PlaysetError>>>,
}

impl ExportSession {
    /// The session agrees with `exported_remote` on source `src`: while it
    /// runs, every reply so far was a success for a piece found in `src`;
    /// once stopped, its error is the outcome of the whole export.
    pub open spec fn tracks(&self, src: StoreView) -> bool {
        let tv = targets_view(self.targets@);
        let rs = self.replies@;
        match self.failed {
            None => self.calls <= tv.len() && rs.len() == self.calls && exported_remote(
                src,
                tv.take(self.calls as int),
                rs,
            ) == (self.calls as nat, Ok::<(), PlaysetError>(())),
            Some(e) => exported_remote(src, tv, rs) == (rs.len(), Err::<(), PlaysetError>(e)),
        }
    }

    /// A session that has sent nothing yet.
    pub fn new(targets: Vec<(PieceKind, EntryHash)>) -> (r: ExportSession)
        ensures
            r.targets@ == targets@,
            r.calls == 0,
            r.failed is None,
            forall|src: StoreView| #[trigger] r.tracks(src),
    {
        let r = ExportSession { targets, calls: 0, failed: None, replies: Ghost(Seq::empty()) };
        assert forall|src: StoreView| #[trigger] r.tracks(src) by {
            assert(targets_view(r.targets@).take(0) =~= Seq::<Target>::empty());
        }
        r
    }

    /// The next step: stop on an earlier failure, else look the next piece up
    /// in `src` and send it (`NotFound` stops the export when it is absent),
    /// else done.
    pub fn next_step(&mut self, src: &Store) -> (r: ExportStep)
        requires
            src.inv(),
            old(self).tracks(src@),
        ensures
            final(self).tracks(src@),
            final(self).targets == old(self).targets,
            final(self).calls == old(self).calls,
            final(self).replies == old(self).replies,
            match r {
                ExportStep::Send(item) => {
                    &&& old(self).failed is None
                    &&& final(self).failed is None
                    &&& old(self).calls < old(self).targets@.len()
                    &&& item.kind == old(self).targets@[old(self).calls as int].0
                    &&& item.hash@ == old(self).targets@[old(self).calls as int].1@
                    &&& payload_at(src@, item.hash@) == Some(item.payload@)
                },
                ExportStep::Done => {
                    &&& old(self).failed is None
                    &&& final(self).failed is None
                    &&& exported_remote(src@, targets_view(old(self).targets@), old(self).replies@)
                        == (old(self).calls as nat, Ok::<(), PlaysetError>(()))
                },
                ExportStep::Failed(e) => {
                    &&& final(self).failed == Some(e)
                    &&& exported_remote(src@, targets_view(old(self).targets@), old(self).replies@)
                        == (old(self).replies@.len(), Err::<(), PlaysetError>(e))
                },
            },
    {
        if let Some(e) = self.failed {
            return ExportStep::Failed(e);
        }
        let ghost tv = targets_view(self.targets@);
        if self.calls == self.targets.len() {
            assert(tv.take(self.calls as int) =~= tv);
            return ExportStep::Done;
        }
        let i = self.calls;
        proof {
            assert(tv.take(i + 1).drop_last() =~= tv.take(i as int));
            assert(tv.take(i + 1).last() == tv[i as int]);
        }
        match src.export_item(&self.targets[i]) {
            Ok(item) => ExportStep::Send(item),
            Err(e) => {
                proof {
                    lemma_remote_stops(src@, tv, self.replies@, i + 1);
                }
                self.failed = Some(e);
                ExportStep::Failed(e)
            },
        }
    }

    /// Records the reply to the call for the next piece.
    pub fn record(&mut self, src: &Store, reply: Result<(), PlaysetError>)
        requires
            old(self).tracks(src@),
            old(self).failed is None,
            old(self).calls < old(self).targets@.len(),
            payload_at(src@, old(self).targets@[old(self).calls as int].1@) is Some,
        ensures
            final(self).tracks(src@),
            final(self).targets == old(self).targets,
            final(self).replies@ == old(self).replies@.push(reply),
            match reply {
                Ok(_) => final(self).calls == old(self).calls + 1 && final(self).failed is None,
                Err(e) => final(self).calls == old(self).calls && final(self).failed == Some(e),
            },
    {
        let ghost tv = targets_view(self.targets@);
        let ghost rs = self.replies@;
        let ghost rs2 = rs.push(reply);
        let i = self.calls;
        let total = self.targets.len();
        assert(i < total);
        proof {
            lemma_remote_more_replies(src@, tv.take(i as int), rs, seq![reply]);
            assert(rs + seq![reply] =~= rs2);
            assert(tv.take(i + 1).drop_last() =~= tv.take(i as int));
            assert(tv.take(i + 1).last() == tv[i as int]);
            assert(rs2[i as int] == reply);
        }
        self.replies = Ghost(rs2);
        match reply {
            Ok(_) => {
                self.calls = i + 1;
            },
            Err(e) => {
                proof {
                    lemma_remote_stops(src@, tv, rs2, i + 1);
                }
                self.failed = Some(e);
            },
        }
    }
}

} // verus!
