//! A content-addressed store: canonical encodings keyed by their digest, and
//! one append-only index of hashes per category.
use vstd::prelude::*;
use crate::hash::{EntryHash, blake2b_256_of};
use crate::codec::{decode, decode_entry, enc_entry, encode_entry, entry_fits, lemma_entry_round_trip};
use crate::pieces::{
    Category, EntryView, PlaysetEntry, Template, SvgMarker, EmojiGroup, Space, Playset,
    category_of_entry,
};

verus! {

/// The abstract state of a store.
pub struct StoreView {
    /// The encodings held, by hash.
    pub content: Map<Seq<u8>, Seq<u8>>,
    pub templates: Seq<Seq<u8>>,
    pub svg_markers: Seq<Seq<u8>>,
    pub emoji_groups: Seq<Seq<u8>>,
    pub spaces: Seq<Seq<u8>>,
    pub playsets: Seq<Seq<u8>>,
}

/// The hash of an entry: the digest of its canonical encoding.
pub open spec fn entry_hash(e: EntryView) -> Seq<u8> {
    blake2b_256_of(enc_entry(e))
}

impl StoreView {
    /// The index of a category.
    pub open spec fn index(self, c: Category) -> Seq<Seq<u8>> {
        match c {
            Category::Templates => self.templates,
            Category::SvgMarkers => self.svg_markers,
            Category::EmojiGroups => self.emoji_groups,
            Category::Spaces => self.spaces,
            Category::Playsets => self.playsets,
        }
    }

    /// The same store with hash `h` appended to the index of `c`.
    pub open spec fn append(self, c: Category, h: Seq<u8>) -> StoreView {
        match c {
            Category::Templates => StoreView { templates: self.templates.push(h), ..self },
            Category::SvgMarkers => StoreView { svg_markers: self.svg_markers.push(h), ..self },
            Category::EmojiGroups => StoreView { emoji_groups: self.emoji_groups.push(h), ..self },
            Category::Spaces => StoreView { spaces: self.spaces.push(h), ..self },
            Category::Playsets => StoreView { playsets: self.playsets.push(h), ..self },
        }
    }

    /// The store after storing encoding `b` and listing it under `c`: the
    /// content under a hash is the first one stored there.
    pub open spec fn store(self, b: Seq<u8>, c: Category) -> StoreView {
        let h = blake2b_256_of(b);
        let content = if self.content.contains_key(h) {
            self.content
        } else {
            self.content.insert(h, b)
        };
        StoreView { content, ..self }.append(c, h)
    }

    /// The store after creating entry `e`.
    pub open spec fn create(self, e: EntryView) -> StoreView {
        self.store(enc_entry(e), category_of_entry(e))
    }

    /// The entry stored under `h`, if any.
    pub open spec fn lookup(self, h: Seq<u8>) -> Option<EntryView> {
        if self.content.contains_key(h) {
            decode_entry(self.content[h])
        } else {
            None
        }
    }

    /// Every stored encoding is an entry, held under its own digest.
    pub open spec fn wf(self) -> bool {
        forall|h: Seq<u8>| #[trigger]
            self.content.contains_key(h) ==> h == blake2b_256_of(self.content[h])
                && decode_entry(self.content[h]) is Some
    }

    /// A store with nothing in it.
    pub open spec fn empty() -> StoreView {
        StoreView {
            content: Map::empty(),
            templates: Seq::empty(),
            svg_markers: Seq::empty(),
            emoji_groups: Seq::empty(),
            spaces: Seq::empty(),
            playsets: Seq::empty(),
        }
    }
}

/// The entries listed under `c` by the first hashes of `idx`, in order, each
/// with its hash; hashes whose content is missing or of another category are
/// skipped.
pub open spec fn listed(v: StoreView, idx: Seq<Seq<u8>>, c: Category) -> Seq<(Seq<u8>, EntryView)>
    decreases idx.len(),
{
    if idx.len() == 0 {
        Seq::empty()
    } else {
        let prev = listed(v, idx.drop_last(), c);
        let h = idx.last();
        match v.lookup(h) {
            Some(e) => if category_of_entry(e) == c {
                prev.push((h, e))
            } else {
                prev
            },
            None => prev,
        }
    }
}

pub open spec fn map_of(s: Seq<(Seq<u8>, Seq<u8>)>) -> Map<Seq<u8>, Seq<u8>>
    decreases s.len(),
{
    if s.len() == 0 {
        Map::empty()
    } else {
        map_of(s.drop_last()).insert(s.last().0, s.last().1)
    }
}

pub open spec fn unique_keys(s: Seq<(Seq<u8>, Seq<u8>)>) -> bool {
    forall|i: int, j: int| 0 <= i < j < s.len() ==> #[trigger] s[i].0 != #[trigger] s[j].0
}

proof fn lemma_map_of(s: Seq<(Seq<u8>, Seq<u8>)>)
    requires
        unique_keys(s),
    ensures
        forall|k: Seq<u8>| #[trigger]
            map_of(s).contains_key(k) <==> exists|i: int| 0 <= i < s.len() && s[i].0 == k,
        forall|i: int| 0 <= i < s.len() ==> #[trigger] map_of(s)[s[i].0] == s[i].1,
    decreases s.len(),
{
    if s.len() > 0 {
        let t = s.drop_last();
        assert forall|i: int, j: int| 0 <= i < j < t.len() implies #[trigger] t[i].0 != #[trigger] t[j].0 by {
            assert(t[i] == s[i] && t[j] == s[j]);
        }
        lemma_map_of(t);
        assert forall|k: Seq<u8>| #[trigger]
            map_of(s).contains_key(k) <==> exists|i: int| 0 <= i < s.len() && s[i].0 == k by {
            let last = s.len() - 1;
            if k == s[last].0 {
                assert(map_of(s).contains_key(k));
            } else {
                assert(map_of(s).contains_key(k) == map_of(t).contains_key(k));
                if map_of(t).contains_key(k) {
                    let i = choose|i: int| 0 <= i < t.len() && t[i].0 == k;
                    assert(s[i] == t[i]);
                }
                if exists|i: int| 0 <= i < s.len() && s[i].0 == k {
                    let i = choose|i: int| 0 <= i < s.len() && s[i].0 == k;
                    assert(i < t.len());
                    assert(t[i] == s[i]);
                    assert(map_of(t).contains_key(k));
                }
            }
        }
        assert forall|i: int| 0 <= i < s.len() implies #[trigger] map_of(s)[s[i].0] == s[i].1 by {
            let last = s.len() - 1;
            assert(map_of(s) == map_of(t).insert(s[last].0, s[last].1));
            if i < last {
                assert(t[i] == s[i]);
                assert(s[i].0 != s[last].0);
                assert(map_of(t)[t[i].0] == t[i].1);
            }
        }
    }
}

pub open spec fn entries_view(e: Seq<(EntryHash, Vec<u8>)>) -> Seq<(Seq<u8>, Seq<u8>)> {
    e.map_values(|p: (EntryHash, Vec<u8>)| (p.0@, p.1@))
}

pub open spec fn index_view(v: Seq<EntryHash>) -> Seq<Seq<u8>> {
    v.map_values(|h: EntryHash| h@)
}

/// A store of entries, addressed by the digest of their encoding.
pub struct Store {
    entries: Vec<(EntryHash, Vec<u8>)>,
    templates: Vec<EntryHash>,
    svg_markers: Vec<EntryHash>,
    emoji_groups: Vec<EntryHash>,
    spaces: Vec<EntryHash>,
    playsets: Vec<EntryHash>,
}

impl View for Store {
    type V = StoreView;

    closed spec fn view(&self) -> StoreView {
        StoreView {
            content: map_of(entries_view(self.entries@)),
            templates: index_view(self.templates@),
            svg_markers: index_view(self.svg_markers@),
            emoji_groups: index_view(self.emoji_groups@),
            spaces: index_view(self.spaces@),
            playsets: index_view(self.playsets@),
        }
    }
}

impl Store {
    /// The store's invariant: keys are unique, and each encoding is an entry
    /// held under its own digest.
    pub closed spec fn inv(&self) -> bool {
        let ev = entries_view(self.entries@);
        &&& unique_keys(ev)
        &&& forall|i: int|
            0 <= i < ev.len() ==> #[trigger] ev[i].0 == blake2b_256_of(ev[i].1) && decode_entry(
                ev[i].1,
            ) is Some
    }

    /// A store that keeps its invariant is well formed.
    pub proof fn lemma_wf(&self)
        requires
            self.inv(),
        ensures
            self@.wf(),
    {
        let ev = entries_view(self.entries@);
        lemma_map_of(ev);
        assert forall|h: Seq<u8>| #[trigger] self@.content.contains_key(h) implies h
            == blake2b_256_of(self@.content[h]) && decode_entry(self@.content[h]) is Some by {
            let i = choose|i: int| 0 <= i < ev.len() && ev[i].0 == h;
            assert(map_of(ev)[ev[i].0] == ev[i].1);
        }
    }

    /// An empty store.
    pub fn new() -> (r: Store)
        ensures
            r@ == StoreView::empty(),
            r.inv(),
    {
        let r = Store {
            entries: Vec::new(),
            templates: Vec::new(),
            svg_markers: Vec::new(),
            emoji_groups: Vec::new(),
            spaces: Vec::new(),
            playsets: Vec::new(),
        };
        assert(r@.content =~= Map::empty());
        assert(r@.templates =~= Seq::empty());
        assert(r@.svg_markers =~= Seq::empty());
        assert(r@.emoji_groups =~= Seq::empty());
        assert(r@.spaces =~= Seq::empty());
        assert(r@.playsets =~= Seq::empty());
        r
    }

    fn find(&self, h: &EntryHash) -> (r: Option<usize>)
        ensures
            match r {
                Some(i) => i < self.entries@.len() && self.entries@[i as int].0@ == h@,
                None => forall|i: int|
                    0 <= i < self.entries@.len() ==> #[trigger] self.entries@[i].0@ != h@,
            },
    {
        let mut i: usize = 0;
        while i < self.entries.len()
            invariant
                0 <= i <= self.entries@.len(),
                forall|j: int| 0 <= j < i ==> #[trigger] self.entries@[j].0@ != h@,
            decreases self.entries@.len() - i,
        {
            if self.entries[i].0.same(h) {
                return Some(i);
            }
            i = i + 1;
        }
        None
    }

    /// Whether content is stored under `h`.
    pub fn contains(&self, h: &EntryHash) -> (r: bool)
        requires
            self.inv(),
        ensures
            r == self@.content.contains_key(h@),
    {
        let ghost ev = entries_view(self.entries@);
        proof {
            lemma_map_of(ev);
        }
        match self.find(h) {
            Some(i) => {
                assert(ev[i as int].0 == h@);
                true
            },
            None => {
                assert forall|i: int| 0 <= i < ev.len() implies ev[i].0 != h@ by {
                    assert(ev[i].0 == self.entries@[i].0@);
                }
                false
            },
        }
    }

    /// The encoding stored under `h`, if any.
    pub fn get_bytes(&self, h: &EntryHash) -> (r: Option<Vec<u8>>)
        requires
            self.inv(),
        ensures
            match r {
                Some(b) => self@.content.contains_key(h@) && self@.content[h@] == b@,
                None => !self@.content.contains_key(h@),
            },
    {
        let ghost ev = entries_view(self.entries@);
        proof {
            lemma_map_of(ev);
        }
        match self.find(h) {
            Some(i) => {
                assert(ev[i as int] == (h@, self.entries@[i as int].1@));
                assert(map_of(ev)[ev[i as int].0] == ev[i as int].1);
                assert(map_of(ev).contains_key(ev[i as int].0));
                Some(crate::hash::copy_bytes(&self.entries[i].1))
            },
            None => {
                assert forall|i: int| 0 <= i < ev.len() implies ev[i].0 != h@ by {
                    assert(ev[i].0 == self.entries@[i].0@);
                }
                None
            },
        }
    }

    /// The entry stored under `h`, if any.
    pub fn get_entry(&self, h: &EntryHash) -> (r: Option<PlaysetEntry>)
        requires
            self.inv(),
        ensures
            match r {
                Some(e) => self@.lookup(h@) == Some(e@),
                None => self@.lookup(h@) is None,
            },
    {
        match self.get_bytes(h) {
            Some(b) => decode(&b),
            None => None,
        }
    }

    fn push_index(&mut self, c: Category, h: EntryHash)
        ensures
            final(self)@ == old(self)@.append(c, h@),
            final(self).entries == old(self).entries,
    {
        let ghost hv = h@;
        match c {
            Category::Templates => {
                self.templates.push(h);
                assert(index_view(self.templates@) =~= index_view(old(self).templates@).push(hv));
            },
            Category::SvgMarkers => {
                self.svg_markers.push(h);
                assert(index_view(self.svg_markers@) =~= index_view(old(self).svg_markers@).push(hv));
            },
            Category::EmojiGroups => {
                self.emoji_groups.push(h);
                assert(index_view(self.emoji_groups@) =~= index_view(old(self).emoji_groups@).push(hv));
            },
            Category::Spaces => {
                self.spaces.push(h);
                assert(index_view(self.spaces@) =~= index_view(old(self).spaces@).push(hv));
            },
            Category::Playsets => {
                self.playsets.push(h);
                assert(index_view(self.playsets@) =~= index_view(old(self).playsets@).push(hv));
            },
        }
    }

    /// Stores an entry and lists it under its category; returns its hash.
    pub fn create(&mut self, e: PlaysetEntry) -> (r: EntryHash)
        requires
            old(self).inv(),
        ensures
            final(self).inv(),
            r@ == entry_hash(e@),
            final(self)@ == old(self)@.create(e@),
            entry_fits(e@),
    {
        let ghost ev0 = entries_view(self.entries@);
        proof {
            lemma_map_of(ev0);
        }
        let b = encode_entry(&e);
        proof {
            lemma_entry_round_trip(e@);
        }
        let h = EntryHash::of_bytes(&b);
        let c = match &e {
            PlaysetEntry::Template(_) => Category::Templates,
            PlaysetEntry::SvgMarker(_) => Category::SvgMarkers,
            PlaysetEntry::EmojiGroup(_) => Category::EmojiGroups,
            PlaysetEntry::Space(_) => Category::Spaces,
            PlaysetEntry::Playset(_) => Category::Playsets,
        };
        let present = self.contains(&h);
        if !present {
            let ghost hb = (h@, b@);
            let entry = (h.duplicate(), b);
            proof {
                assert forall|i: int| 0 <= i < ev0.len() implies ev0[i].0 != h@ by {
                    if ev0[i].0 == h@ {
                        assert(map_of(ev0).contains_key(h@));
                    }
                }
            }
            self.entries.push(entry);
            proof {
                let ev1 = entries_view(self.entries@);
                assert(ev1 =~= ev0.push(hb));
                assert(ev1.drop_last() =~= ev0);
                assert(map_of(ev1) == map_of(ev0).insert(h@, b@));
            }
        }
        let r = h.duplicate();
        self.push_index(c, h);
        r
    }

    /// A copy of the index of a category.
    pub fn index_hashes(&self, c: Category) -> (r: Vec<EntryHash>)
        ensures
            r@.map_values(|h: EntryHash| h@) == self@.index(c),
    {
        let idx = match c {
            Category::Templates => &self.templates,
            Category::SvgMarkers => &self.svg_markers,
            Category::EmojiGroups => &self.emoji_groups,
            Category::Spaces => &self.spaces,
            Category::Playsets => &self.playsets,
        };
        let mut out: Vec<EntryHash> = Vec::new();
        let mut i: usize = 0;
        while i < idx.len()
            invariant
                0 <= i <= idx@.len(),
                out@.len() == i,
                forall|j: int| 0 <= j < i ==> #[trigger] out@[j]@ == idx@[j]@,
            decreases idx@.len() - i,
        {
            out.push(idx[i].duplicate());
            i = i + 1;
        }
        assert(out@.map_values(|h: EntryHash| h@) =~= self@.index(c));
        out
    }

    /// The entries listed under a category, in index order, each with its
    /// hash; index entries without content of that category are skipped.
    pub fn list_entries(&self, c: Category) -> (r: Vec<(EntryHash, PlaysetEntry)>)
        requires
            self.inv(),
        ensures
            r@.map_values(|p: (EntryHash, PlaysetEntry)| (p.0@, p.1@)) == listed(
                self@,
                self@.index(c),
                c,
            ),
    {
        let idx = match c {
            Category::Templates => &self.templates,
            Category::SvgMarkers => &self.svg_markers,
            Category::EmojiGroups => &self.emoji_groups,
            Category::Spaces => &self.spaces,
            Category::Playsets => &self.playsets,
        };
        let ghost iv = self@.index(c);
        assert(index_view(idx@) == iv);
        let mut out: Vec<(EntryHash, PlaysetEntry)> = Vec::new();
        let mut i: usize = 0;
        while i < idx.len()
            invariant
                0 <= i <= idx@.len(),
                self.inv(),
                index_view(idx@) == iv,
                out@.map_values(|p: (EntryHash, PlaysetEntry)| (p.0@, p.1@)) == listed(
                    self@,
                    iv.take(i as int),
                    c,
                ),
            decreases idx@.len() - i,
        {
            let ghost prev = out@.map_values(|p: (EntryHash, PlaysetEntry)| (p.0@, p.1@));
            proof {
                assert(iv.take(i + 1).drop_last() =~= iv.take(i as int));
                assert(iv.take(i + 1).last() == idx@[i as int]@);
            }
            match self.get_entry(&idx[i]) {
                Some(e) => {
                    let ec = match &e {
                        PlaysetEntry::Template(_) => Category::Templates,
                        PlaysetEntry::SvgMarker(_) => Category::SvgMarkers,
                        PlaysetEntry::EmojiGroup(_) => Category::EmojiGroups,
                        PlaysetEntry::Space(_) => Category::Spaces,
                        PlaysetEntry::Playset(_) => Category::Playsets,
                    };
                    if ec == c {
                        let ghost pv = (idx@[i as int]@, e@);
                        out.push((idx[i].duplicate(), e));
                        assert(out@.map_values(|p: (EntryHash, PlaysetEntry)| (p.0@, p.1@)) =~= prev.push(pv));
                    }
                },
                None => {},
            }
            i = i + 1;
        }
        assert(iv.take(idx@.len() as int) =~= iv);
        out
    }
}

} // verus!
