//! Catalog operations: create, get and list for each kind of entry.
use vstd::prelude::*;
use crate::hash::EntryHash;
use crate::codec::entry_fits;
use crate::pieces::{
    Category, EntryView, PlaysetEntry, Template, SvgMarker, EmojiGroup, Space, Playset,
};
use crate::store::{Store, entry_hash, listed};

verus! {

/// The hashes listed in each piece index of a store.
#[derive(Debug)]
pub struct GetInventoryOutput {
    pub templates: Vec<EntryHash>,
    pub svg_markers: Vec<EntryHash>,
    pub emoji_groups: Vec<EntryHash>,
    pub spaces: Vec<EntryHash>,
}

impl Store {
    /// The four piece indexes, as they stand.
    pub fn get_inventory(&self) -> (r: GetInventoryOutput)
        ensures
            r.templates@.map_values(|h: EntryHash| h@) == self@.templates,
            r.svg_markers@.map_values(|h: EntryHash| h@) == self@.svg_markers,
            r.emoji_groups@.map_values(|h: EntryHash| h@) == self@.emoji_groups,
            r.spaces@.map_values(|h: EntryHash| h@) == self@.spaces,
    {
        GetInventoryOutput {
            templates: self.index_hashes(Category::Templates),
            svg_markers: self.index_hashes(Category::SvgMarkers),
            emoji_groups: self.index_hashes(Category::EmojiGroups),
            spaces: self.index_hashes(Category::Spaces),
        }
    }
}

} // verus!

verus! {

/// A template listed with its hash.
#[derive(Debug)]
pub struct TemplateOutput {
    pub hash: EntryHash,
    pub content: Template,
}

/// A svg marker listed with its hash.
#[derive(Debug)]
pub struct SvgMarkerOutput {
    pub hash: EntryHash,
    pub content: SvgMarker,
}

/// A emoji group listed with its hash.
#[derive(Debug)]
pub struct EmojiGroupOutput {
    pub hash: EntryHash,
    pub content: EmojiGroup,
}

/// A space listed with its hash.
#[derive(Debug)]
pub struct SpaceOutput {
    pub hash: EntryHash,
    pub content: Space,
}

/// A playset listed with its hash.
#[derive(Debug)]
pub struct PlaysetOutput {
    pub hash: EntryHash,
    pub content: Playset,
}

impl Store {
    /// Stores a template, lists it under its category and returns its hash.
    pub fn create_template(&mut self, input: Template) -> (r: EntryHash)
        requires
            old(self).inv(),
        ensures
            final(self).inv(),
            r@ == entry_hash(EntryView::Template(input@)),
            final(self)@ == old(self)@.create(EntryView::Template(input@)),
            entry_fits(EntryView::Template(input@)),
    {
        self.create(PlaysetEntry::Template(input))
    }

    /// The template stored under `h`; `None` if there is none.
    pub fn get_template(&self, h: &EntryHash) -> (r: Option<Template>)
        requires
            self.inv(),
        ensures
            match r {
                Some(x) => self@.lookup(h@) == Some(EntryView::Template(x@)),
                None => !(self@.lookup(h@) matches Some(EntryView::Template(_))),
            },
    {
        match self.get_entry(h) {
            Some(PlaysetEntry::Template(x)) => Some(x),
            _ => None,
        }
    }

    /// Every template listed in its index, in index order.
    pub fn get_templates(&self) -> (r: Vec<TemplateOutput>)
        requires
            self.inv(),
        ensures
            r@.map_values(|o: TemplateOutput| (o.hash@, EntryView::Template(o.content@))) == listed(
                self@,
                self@.templates,
                Category::Templates,
            ),
    {
        let idx = self.index_hashes(Category::Templates);
        let ghost iv = self@.templates;
        let mut out: Vec<TemplateOutput> = Vec::new();
        let mut i: usize = 0;
        while i < idx.len()
            invariant
                0 <= i <= idx@.len(),
                self.inv(),
                idx@.map_values(|h: EntryHash| h@) == iv,
                out@.map_values(|o: TemplateOutput| (o.hash@, EntryView::Template(o.content@))) == listed(
                    self@,
                    iv.take(i as int),
                    Category::Templates,
                ),
            decreases idx@.len() - i,
        {
            let ghost prev = out@.map_values(|o: TemplateOutput| (o.hash@, EntryView::Template(o.content@)));
            proof {
                assert(iv.take(i + 1).drop_last() =~= iv.take(i as int));
                assert(iv.take(i + 1).last() == idx@[i as int]@);
            }
            match self.get_entry(&idx[i]) {
                Some(PlaysetEntry::Template(x)) => {
                    let ghost pv = (idx@[i as int]@, EntryView::Template(x@));
                    out.push(TemplateOutput { hash: idx[i].duplicate(), content: x });
                    assert(out@.map_values(|o: TemplateOutput| (o.hash@, EntryView::Template(o.content@))) =~= prev.push(pv));
                },
                _ => {},
            }
            i = i + 1;
        }
        assert(iv.take(idx@.len() as int) =~= iv);
        out
    }

    /// Stores a svg marker, lists it under its category and returns its hash.
    pub fn create_svg_marker(&mut self, input: SvgMarker) -> (r: EntryHash)
        requires
            old(self).inv(),
        ensures
            final(self).inv(),
            r@ == entry_hash(EntryView::SvgMarker(input@)),
            final(self)@ == old(self)@.create(EntryView::SvgMarker(input@)),
            entry_fits(EntryView::SvgMarker(input@)),
    {
        self.create(PlaysetEntry::SvgMarker(input))
    }

    /// The svg marker stored under `h`; `None` if there is none.
    pub fn get_svg_marker(&self, h: &EntryHash) -> (r: Option<SvgMarker>)
        requires
            self.inv(),
        ensures
            match r {
                Some(x) => self@.lookup(h@) == Some(EntryView::SvgMarker(x@)),
                None => !(self@.lookup(h@) matches Some(EntryView::SvgMarker(_))),
            },
    {
        match self.get_entry(h) {
            Some(PlaysetEntry::SvgMarker(x)) => Some(x),
            _ => None,
        }
    }

    /// Every svg marker listed in its index, in index order.
    pub fn get_svg_markers(&self) -> (r: Vec<SvgMarkerOutput>)
        requires
            self.inv(),
        ensures
            r@.map_values(|o: SvgMarkerOutput| (o.hash@, EntryView::SvgMarker(o.content@))) == listed(
                self@,
                self@.svg_markers,
                Category::SvgMarkers,
            ),
    {
        let idx = self.index_hashes(Category::SvgMarkers);
        let ghost iv = self@.svg_markers;
        let mut out: Vec<SvgMarkerOutput> = Vec::new();
        let mut i: usize = 0;
        while i < idx.len()
            invariant
                0 <= i <= idx@.len(),
                self.inv(),
                idx@.map_values(|h: EntryHash| h@) == iv,
                out@.map_values(|o: SvgMarkerOutput| (o.hash@, EntryView::SvgMarker(o.content@))) == listed(
                    self@,
                    iv.take(i as int),
                    Category::SvgMarkers,
                ),
            decreases idx@.len() - i,
        {
            let ghost prev = out@.map_values(|o: SvgMarkerOutput| (o.hash@, EntryView::SvgMarker(o.content@)));
            proof {
                assert(iv.take(i + 1).drop_last() =~= iv.take(i as int));
                assert(iv.take(i + 1).last() == idx@[i as int]@);
            }
            match self.get_entry(&idx[i]) {
                Some(PlaysetEntry::SvgMarker(x)) => {
                    let ghost pv = (idx@[i as int]@, EntryView::SvgMarker(x@));
                    out.push(SvgMarkerOutput { hash: idx[i].duplicate(), content: x });
                    assert(out@.map_values(|o: SvgMarkerOutput| (o.hash@, EntryView::SvgMarker(o.content@))) =~= prev.push(pv));
                },
                _ => {},
            }
            i = i + 1;
        }
        assert(iv.take(idx@.len() as int) =~= iv);
        out
    }

    /// Stores an emoji group, lists it under its category and returns its hash.
    pub fn create_emoji_group(&mut self, input: EmojiGroup) -> (r: EntryHash)
        requires
            old(self).inv(),
        ensures
            final(self).inv(),
            r@ == entry_hash(EntryView::EmojiGroup(input@)),
            final(self)@ == old(self)@.create(EntryView::EmojiGroup(input@)),
            entry_fits(EntryView::EmojiGroup(input@)),
    {
        self.create(PlaysetEntry::EmojiGroup(input))
    }

    /// The emoji group stored under `h`; `None` if there is none.
    pub fn get_emoji_group(&self, h: &EntryHash) -> (r: Option<EmojiGroup>)
        requires
            self.inv(),
        ensures
            match r {
                Some(x) => self@.lookup(h@) == Some(EntryView::EmojiGroup(x@)),
                None => !(self@.lookup(h@) matches Some(EntryView::EmojiGroup(_))),
            },
    {
        match self.get_entry(h) {
            Some(PlaysetEntry::EmojiGroup(x)) => Some(x),
            _ => None,
        }
    }

    /// Every emoji group listed in its index, in index order.
    pub fn get_all_emoji_groups(&self) -> (r: Vec<EmojiGroupOutput>)
        requires
            self.inv(),
        ensures
            r@.map_values(|o: EmojiGroupOutput| (o.hash@, EntryView::EmojiGroup(o.content@))) == listed(
                self@,
                self@.emoji_groups,
                Category::EmojiGroups,
            ),
    {
        let idx = self.index_hashes(Category::EmojiGroups);
        let ghost iv = self@.emoji_groups;
        let mut out: Vec<EmojiGroupOutput> = Vec::new();
        let mut i: usize = 0;
        while i < idx.len()
            invariant
                0 <= i <= idx@.len(),
                self.inv(),
                idx@.map_values(|h: EntryHash| h@) == iv,
                out@.map_values(|o: EmojiGroupOutput| (o.hash@, EntryView::EmojiGroup(o.content@))) == listed(
                    self@,
                    iv.take(i as int),
                    Category::EmojiGroups,
                ),
            decreases idx@.len() - i,
        {
            let ghost prev = out@.map_values(|o: EmojiGroupOutput| (o.hash@, EntryView::EmojiGroup(o.content@)));
            proof {
                assert(iv.take(i + 1).drop_last() =~= iv.take(i as int));
                assert(iv.take(i + 1).last() == idx@[i as int]@);
            }
            match self.get_entry(&idx[i]) {
                Some(PlaysetEntry::EmojiGroup(x)) => {
                    let ghost pv = (idx@[i as int]@, EntryView::EmojiGroup(x@));
                    out.push(EmojiGroupOutput { hash: idx[i].duplicate(), content: x });
                    assert(out@.map_values(|o: EmojiGroupOutput| (o.hash@, EntryView::EmojiGroup(o.content@))) =~= prev.push(pv));
                },
                _ => {},
            }
            i = i + 1;
        }
        assert(iv.take(idx@.len() as int) =~= iv);
        out
    }

    /// Stores a space, lists it under its category and returns its hash.
    pub fn create_space(&mut self, input: Space) -> (r: EntryHash)
        requires
            old(self).inv(),
        ensures
            final(self).inv(),
            r@ == entry_hash(EntryView::Space(input@)),
            final(self)@ == old(self)@.create(EntryView::Space(input@)),
            entry_fits(EntryView::Space(input@)),
    {
        self.create(PlaysetEntry::Space(input))
    }

    /// The space stored under `h`; `None` if there is none.
    pub fn get_space(&self, h: &EntryHash) -> (r: Option<Space>)
        requires
            self.inv(),
        ensures
            match r {
                Some(x) => self@.lookup(h@) == Some(EntryView::Space(x@)),
                None => !(self@.lookup(h@) matches Some(EntryView::Space(_))),
            },
    {
        match self.get_entry(h) {
            Some(PlaysetEntry::Space(x)) => Some(x),
            _ => None,
        }
    }

    /// Every space listed in its index, in index order.
    pub fn get_spaces(&self) -> (r: Vec<SpaceOutput>)
        requires
            self.inv(),
        ensures
            r@.map_values(|o: SpaceOutput| (o.hash@, EntryView::Space(o.content@))) == listed(
                self@,
                self@.spaces,
                Category::Spaces,
            ),
    {
        let idx = self.index_hashes(Category::Spaces);
        let ghost iv = self@.spaces;
        let mut out: Vec<SpaceOutput> = Vec::new();
        let mut i: usize = 0;
        while i < idx.len()
            invariant
                0 <= i <= idx@.len(),
                self.inv(),
                idx@.map_values(|h: EntryHash| h@) == iv,
                out@.map_values(|o: SpaceOutput| (o.hash@, EntryView::Space(o.content@))) == listed(
                    self@,
                    iv.take(i as int),
                    Category::Spaces,
                ),
            decreases idx@.len() - i,
        {
            let ghost prev = out@.map_values(|o: SpaceOutput| (o.hash@, EntryView::Space(o.content@)));
            proof {
                assert(iv.take(i + 1).drop_last() =~= iv.take(i as int));
                assert(iv.take(i + 1).last() == idx@[i as int]@);
            }
            match self.get_entry(&idx[i]) {
                Some(PlaysetEntry::Space(x)) => {
                    let ghost pv = (idx@[i as int]@, EntryView::Space(x@));
                    out.push(SpaceOutput { hash: idx[i].duplicate(), content: x });
                    assert(out@.map_values(|o: SpaceOutput| (o.hash@, EntryView::Space(o.content@))) =~= prev.push(pv));
                },
                _ => {},
            }
            i = i + 1;
        }
        assert(iv.take(idx@.len() as int) =~= iv);
        out
    }

    /// Stores a playset, lists it under its category and returns its hash.
    pub fn create_playset(&mut self, input: Playset) -> (r: EntryHash)
        requires
            old(self).inv(),
        ensures
            final(self).inv(),
            r@ == entry_hash(EntryView::Playset(input@)),
            final(self)@ == old(self)@.create(EntryView::Playset(input@)),
            entry_fits(EntryView::Playset(input@)),
    {
        self.create(PlaysetEntry::Playset(input))
    }

    /// The playset stored under `h`; `None` if there is none.
    pub fn get_playset(&self, h: &EntryHash) -> (r: Option<Playset>)
        requires
            self.inv(),
        ensures
            match r {
                Some(x) => self@.lookup(h@) == Some(EntryView::Playset(x@)),
                None => !(self@.lookup(h@) matches Some(EntryView::Playset(_))),
            },
    {
        match self.get_entry(h) {
            Some(PlaysetEntry::Playset(x)) => Some(x),
            _ => None,
        }
    }

    /// Every playset listed in its index, in index order.
    pub fn get_all_playsets(&self) -> (r: Vec<PlaysetOutput>)
        requires
            self.inv(),
        ensures
            r@.map_values(|o: PlaysetOutput| (o.hash@, EntryView::Playset(o.content@))) == listed(
                self@,
                self@.playsets,
                Category::Playsets,
            ),
    {
        let idx = self.index_hashes(Category::Playsets);
        let ghost iv = self@.playsets;
        let mut out: Vec<PlaysetOutput> = Vec::new();
        let mut i: usize = 0;
        while i < idx.len()
            invariant
                0 <= i <= idx@.len(),
                self.inv(),
                idx@.map_values(|h: EntryHash| h@) == iv,
                out@.map_values(|o: PlaysetOutput| (o.hash@, EntryView::Playset(o.content@))) == listed(
                    self@,
                    iv.take(i as int),
                    Category::Playsets,
                ),
            decreases idx@.len() - i,
        {
            let ghost prev = out@.map_values(|o: PlaysetOutput| (o.hash@, EntryView::Playset(o.content@)));
            proof {
                assert(iv.take(i + 1).drop_last() =~= iv.take(i as int));
                assert(iv.take(i + 1).last() == idx@[i as int]@);
            }
            match self.get_entry(&idx[i]) {
                Some(PlaysetEntry::Playset(x)) => {
                    let ghost pv = (idx@[i as int]@, EntryView::Playset(x@));
                    out.push(PlaysetOutput { hash: idx[i].duplicate(), content: x });
                    assert(out@.map_values(|o: PlaysetOutput| (o.hash@, EntryView::Playset(o.content@))) =~= prev.push(pv));
                },
                _ => {},
            }
            i = i + 1;
        }
        assert(iv.take(idx@.len() as int) =~= iv);
        out
    }
}

} // verus!
