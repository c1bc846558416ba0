//! The piece model: templates, SVG markers, emoji groups, the spaces built
//! from them and the playsets that bundle them, with their abstract views.
use vstd::prelude::*;
use crate::hash::EntryHash;

verus! {

/// A reusable surface layout.
#[derive(Debug)]
pub struct Template {
    pub name: String,
    /// Serialized geometry, opaque to this library.
    pub surface: String,
}

/// A marker drawn from a vector graphic.
#[derive(Debug)]
pub struct SvgMarker {
    pub name: String,
    /// Serialized vector graphic, opaque to this library.
    pub value: String,
}

/// A named set of emoji markers.
#[derive(Debug)]
pub struct EmojiGroup {
    pub name: String,
    pub description: String,
    /// One single-codepoint string per emoji, in order.
    pub unicodes: Vec<String>,
}

/// A typed weak reference to a marker piece.
#[derive(Debug)]
pub enum MarkerPiece {
    Svg(EntryHash),
    EmojiGroup(EntryHash),
}

/// A space: a template, a surface and an optional marker piece.
#[derive(Debug)]
pub struct Space {
    pub name: String,
    /// The hash of the template the space is drawn on.
    pub origin: EntryHash,
    pub surface: String,
    pub maybe_marker_piece: Option<MarkerPiece>,
    /// Free metadata, as an ordered list of key / value pairs.
    pub meta: Vec<(String, String)>,
}

/// A named bundle of pieces and spaces, by hash.
#[derive(Debug)]
pub struct Playset {
    pub name: String,
    pub description: String,
    pub templates: Vec<EntryHash>,
    pub svg_markers: Vec<EntryHash>,
    pub emoji_groups: Vec<EntryHash>,
    pub spaces: Vec<EntryHash>,
}

/// Anything a store can hold.
#[derive(Debug)]
pub enum PlaysetEntry {
    Template(Template),
    SvgMarker(SvgMarker),
    EmojiGroup(EmojiGroup),
    Space(Space),
    Playset(Playset),
}

/// The kinds of entry that can be replicated between stores.
#[derive(Debug, Clone, Copy, PartialEq, Eq, Structural)]
pub enum PieceKind {
    Template,
    SvgMarker,
    EmojiGroup,
    Space,
}

/// The category indexes of a store.
#[derive(Debug, Clone, Copy, PartialEq, Eq, Structural)]
pub enum Category {
    Templates,
    SvgMarkers,
    EmojiGroups,
    Spaces,
    Playsets,
}

pub struct TemplateView {
    pub name: Seq<char>,
    pub surface: Seq<char>,
}

pub struct SvgMarkerView {
    pub name: Seq<char>,
    pub value: Seq<char>,
}

pub struct EmojiGroupView {
    pub name: Seq<char>,
    pub description: Seq<char>,
    pub unicodes: Seq<Seq<char>>,
}

pub enum MarkerPieceView {
    Svg(Seq<u8>),
    EmojiGroup(Seq<u8>),
}

pub struct SpaceView {
    pub name: Seq<char>,
    pub origin: Seq<u8>,
    pub surface: Seq<char>,
    pub maybe_marker_piece: Option<MarkerPieceView>,
    pub meta: Seq<(Seq<char>, Seq<char>)>,
}

pub struct PlaysetView {
    pub name: Seq<char>,
    pub description: Seq<char>,
    pub templates: Seq<Seq<u8>>,
    pub svg_markers: Seq<Seq<u8>>,
    pub emoji_groups: Seq<Seq<u8>>,
    pub spaces: Seq<Seq<u8>>,
}

pub enum EntryView {
    Template(TemplateView),
    SvgMarker(SvgMarkerView),
    EmojiGroup(EmojiGroupView),
    Space(SpaceView),
    Playset(PlaysetView),
}

pub open spec fn strings_view(v: Seq<String>) -> Seq<Seq<char>> {
    v.map_values(|s: String| s@)
}

pub open spec fn hashes_view(v: Seq<EntryHash>) -> Seq<Seq<u8>> {
    v.map_values(|h: EntryHash| h@)
}

pub open spec fn pairs_view(v: Seq<(String, String)>) -> Seq<(Seq<char>, Seq<char>)> {
    v.map_values(|p: (String, String)| (p.0@, p.1@))
}

impl View for Template {
    type V = TemplateView;

    open spec fn view(&self) -> TemplateView {
        TemplateView { name: self.name@, surface: self.surface@ }
    }
}

impl View for SvgMarker {
    type V = SvgMarkerView;

    open spec fn view(&self) -> SvgMarkerView {
        SvgMarkerView { name: self.name@, value: self.value@ }
    }
}

impl View for EmojiGroup {
    type V = EmojiGroupView;

    open spec fn view(&self) -> EmojiGroupView {
        EmojiGroupView {
            name: self.name@,
            description: self.description@,
            unicodes: strings_view(self.unicodes@),
        }
    }
}

impl View for MarkerPiece {
    type V = MarkerPieceView;

    open spec fn view(&self) -> MarkerPieceView {
        match self {
            MarkerPiece::Svg(h) => MarkerPieceView::Svg(h@),
            MarkerPiece::EmojiGroup(h) => MarkerPieceView::EmojiGroup(h@),
        }
    }
}

pub open spec fn marker_view(m: Option<MarkerPiece>) -> Option<MarkerPieceView> {
    match m {
        Some(p) => Some(p@),
        None => None,
    }
}

impl View for Space {
    type V = SpaceView;

    open spec fn view(&self) -> SpaceView {
        SpaceView {
            name: self.name@,
            origin: self.origin@,
            surface: self.surface@,
            maybe_marker_piece: marker_view(self.maybe_marker_piece),
            meta: pairs_view(self.meta@),
        }
    }
}

impl View for Playset {
    type V = PlaysetView;

    open spec fn view(&self) -> PlaysetView {
        PlaysetView {
            name: self.name@,
            description: self.description@,
            templates: hashes_view(self.templates@),
            svg_markers: hashes_view(self.svg_markers@),
            emoji_groups: hashes_view(self.emoji_groups@),
            spaces: hashes_view(self.spaces@),
        }
    }
}

impl View for PlaysetEntry {
    type V = EntryView;

    open spec fn view(&self) -> EntryView {
        match self {
            PlaysetEntry::Template(t) => EntryView::Template(t@),
            PlaysetEntry::SvgMarker(m) => EntryView::SvgMarker(m@),
            PlaysetEntry::EmojiGroup(g) => EntryView::EmojiGroup(g@),
            PlaysetEntry::Space(s) => EntryView::Space(s@),
            PlaysetEntry::Playset(p) => EntryView::Playset(p@),
        }
    }
}

/// The wire tag of each kind of piece.
pub open spec fn tag_of(k: PieceKind) -> Seq<char> {
    match k {
        PieceKind::Template => "Template"@,
        PieceKind::SvgMarker => "SvgMarker"@,
        PieceKind::EmojiGroup => "EmojiGroup"@,
        PieceKind::Space => "Space"@,
    }
}

/// The kind a wire tag names, if any (tags are case-sensitive).
pub open spec fn kind_of_tag(t: Seq<char>) -> Option<PieceKind> {
    if t == "Template"@ {
        Some(PieceKind::Template)
    } else if t == "SvgMarker"@ {
        Some(PieceKind::SvgMarker)
    } else if t == "EmojiGroup"@ {
        Some(PieceKind::EmojiGroup)
    } else if t == "Space"@ {
        Some(PieceKind::Space)
    } else {
        None
    }
}

/// The index a kind of piece is listed under.
pub open spec fn category_of(k: PieceKind) -> Category {
    match k {
        PieceKind::Template => Category::Templates,
        PieceKind::SvgMarker => Category::SvgMarkers,
        PieceKind::EmojiGroup => Category::EmojiGroups,
        PieceKind::Space => Category::Spaces,
    }
}

/// The kind of piece an entry is, if it is one.
pub open spec fn kind_of_entry(e: EntryView) -> Option<PieceKind> {
    match e {
        EntryView::Template(_) => Some(PieceKind::Template),
        EntryView::SvgMarker(_) => Some(PieceKind::SvgMarker),
        EntryView::EmojiGroup(_) => Some(PieceKind::EmojiGroup),
        EntryView::Space(_) => Some(PieceKind::Space),
        EntryView::Playset(_) => None,
    }
}

/// The index an entry is listed under.
pub open spec fn category_of_entry(e: EntryView) -> Category {
    match e {
        EntryView::Template(_) => Category::Templates,
        EntryView::SvgMarker(_) => Category::SvgMarkers,
        EntryView::EmojiGroup(_) => Category::EmojiGroups,
        EntryView::Space(_) => Category::Spaces,
        EntryView::Playset(_) => Category::Playsets,
    }
}

/// Each kind's tag names that kind, and no other.
pub proof fn lemma_tag_names_kind(k: PieceKind)
    ensures
        kind_of_tag(tag_of(k)) == Some(k),
{
    reveal_strlit("Template");
    reveal_strlit("SvgMarker");
    reveal_strlit("EmojiGroup");
    reveal_strlit("Space");
    assert("Template"@.len() == 8);
    assert("SvgMarker"@.len() == 9);
    assert("EmojiGroup"@.len() == 10);
    assert("Space"@.len() == 5);
}

fn owned(s: &str) -> (r: String)
    ensures
        r@ == s@,
{
    s.to_owned()
}

impl PieceKind {
    /// The wire tag of this kind.
    pub fn tag(&self) -> (r: &'static str)
        ensures
            r@ == tag_of(*self),
    {
        match self {
            PieceKind::Template => "Template",
            PieceKind::SvgMarker => "SvgMarker",
            PieceKind::EmojiGroup => "EmojiGroup",
            PieceKind::Space => "Space",
        }
    }

    /// The kind a wire tag names; `None` for an unknown or mis-cased tag.
    pub fn from_tag(tag: &str) -> (r: Option<PieceKind>)
        ensures
            r == kind_of_tag(tag@),
    {
        let t = owned(tag);
        if t == owned("Template") {
            Some(PieceKind::Template)
        } else if t == owned("SvgMarker") {
            Some(PieceKind::SvgMarker)
        } else if t == owned("EmojiGroup") {
            Some(PieceKind::EmojiGroup)
        } else if t == owned("Space") {
            Some(PieceKind::Space)
        } else {
            None
        }
    }

    /// The index that pieces of this kind are listed under.
    pub fn category(&self) -> (r: Category)
        ensures
            r == category_of(*self),
    {
        match self {
            PieceKind::Template => Category::Templates,
            PieceKind::SvgMarker => Category::SvgMarkers,
            PieceKind::EmojiGroup => Category::EmojiGroups,
            PieceKind::Space => Category::Spaces,
        }
    }
}

impl MarkerPiece {
    /// The kind of the referenced piece.
    pub open spec fn kind_spec(&self) -> PieceKind {
        match self {
            MarkerPiece::Svg(_) => PieceKind::SvgMarker,
            MarkerPiece::EmojiGroup(_) => PieceKind::EmojiGroup,
        }
    }

    /// The wire tag of the referenced piece.
    pub fn type_tag(&self) -> (r: &'static str)
        ensures
            r@ == tag_of(self.kind_spec()),
    {
        match self {
            MarkerPiece::Svg(_) => "SvgMarker",
            MarkerPiece::EmojiGroup(_) => "EmojiGroup",
        }
    }

    /// The kind of the referenced piece.
    pub fn kind(&self) -> (r: PieceKind)
        ensures
            r == self.kind_spec(),
    {
        match self {
            MarkerPiece::Svg(_) => PieceKind::SvgMarker,
            MarkerPiece::EmojiGroup(_) => PieceKind::EmojiGroup,
        }
    }

    /// The hash of the referenced piece.
    pub fn eh(&self) -> (r: EntryHash)
        ensures
            r@ == marker_hash(self@),
    {
        match self {
            MarkerPiece::Svg(h) => h.duplicate(),
            MarkerPiece::EmojiGroup(h) => h.duplicate(),
        }
    }
}

/// The hash a marker reference points to.
pub open spec fn marker_hash(m: MarkerPieceView) -> Seq<u8> {
    match m {
        MarkerPieceView::Svg(h) => h,
        MarkerPieceView::EmojiGroup(h) => h,
    }
}

/// The kind of piece a marker reference points to.
pub open spec fn marker_kind(m: MarkerPieceView) -> PieceKind {
    match m {
        MarkerPieceView::Svg(_) => PieceKind::SvgMarker,
        MarkerPieceView::EmojiGroup(_) => PieceKind::EmojiGroup,
    }
}

} // verus!
