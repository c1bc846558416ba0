//! The canonical byte encoding of entries.
//!
//! Every length is written as eight little-endian bytes, a string as the
//! length of its UTF-8 form followed by that form, a list as its length
//! followed by its items, and an entry as one kind byte followed by its fields.
//! Decoding is strict: it accepts exactly the encodings of values, so that an
//! entry that decodes re-encodes to the very bytes it came from.
use vstd::prelude::*;
use vstd::bytes::{
    spec_u64_from_le_bytes, spec_u64_to_le_bytes, lemma_auto_spec_u64_to_from_le_bytes,
    u64_from_le_bytes, u64_to_le_bytes,
};
use vstd::utf8::{
    valid_utf8, decode_utf8, encode_utf8, encode_utf8_decode_utf8, encode_utf8_valid_utf8,
    decode_utf8_encode_utf8,
};
use crate::hash::EntryHash;
use crate::pieces::{
    Template, SvgMarker, EmojiGroup, MarkerPiece, Space, Playset, PlaysetEntry, TemplateView,
    SvgMarkerView, EmojiGroupView, MarkerPieceView, SpaceView, PlaysetView, EntryView,
    strings_view, hashes_view, pairs_view, marker_view, marker_hash,
};

verus! {

pub open spec fn enc_len(n: nat) -> Seq<u8> {
    spec_u64_to_le_bytes(n as u64)
}

pub open spec fn enc_raw(b: Seq<u8>) -> Seq<u8> {
    enc_len(b.len()) + b
}

pub open spec fn enc_str(s: Seq<char>) -> Seq<u8> {
    enc_raw(encode_utf8(s))
}

pub open spec fn parse_len(b: Seq<u8>) -> Option<(nat, Seq<u8>)> {
    if b.len() >= 8 {
        Some((spec_u64_from_le_bytes(b.subrange(0, 8)) as nat, b.subrange(8, b.len() as int)))
    } else {
        None
    }
}

pub open spec fn parse_raw(b: Seq<u8>) -> Option<(Seq<u8>, Seq<u8>)> {
    match parse_len(b) {
        Some((n, r)) => if n <= r.len() {
            Some((r.subrange(0, n as int), r.subrange(n as int, r.len() as int)))
        } else {
            None
        },
        None => None,
    }
}

pub open spec fn parse_str(b: Seq<u8>) -> Option<(Seq<char>, Seq<u8>)> {
    match parse_raw(b) {
        Some((body, r)) => if valid_utf8(body) {
            Some((decode_utf8(body), r))
        } else {
            None
        },
        None => None,
    }
}

/// Whether a string's encoded length can be written.
pub open spec fn str_fits(s: Seq<char>) -> bool {
    encode_utf8(s).len() <= u64::MAX
}

/// Whether a byte string's length can be written.
pub open spec fn raw_fits(b: Seq<u8>) -> bool {
    b.len() <= u64::MAX
}

pub open spec fn enc_items<T>(v: Seq<T>, enc: spec_fn(T) -> Seq<u8>) -> Seq<u8>
    decreases v.len(),
{
    if v.len() == 0 {
        Seq::empty()
    } else {
        enc_items(v.drop_last(), enc) + enc(v.last())
    }
}

pub open spec fn enc_list<T>(v: Seq<T>, enc: spec_fn(T) -> Seq<u8>) -> Seq<u8> {
    enc_len(v.len()) + enc_items(v, enc)
}

pub open spec fn parse_items<T>(
    b: Seq<u8>,
    n: nat,
    item: spec_fn(Seq<u8>) -> Option<(T, Seq<u8>)>,
) -> Option<(Seq<T>, Seq<u8>)>
    decreases n,
{
    if n == 0 {
        Some((Seq::empty(), b))
    } else {
        match parse_items(b, (n - 1) as nat, item) {
            Some((v, r)) => match item(r) {
                Some((x, r2)) => Some((v.push(x), r2)),
                None => None,
            },
            None => None,
        }
    }
}

pub open spec fn parse_list<T>(b: Seq<u8>, item: spec_fn(Seq<u8>) -> Option<(T, Seq<u8>)>) -> Option<
    (Seq<T>, Seq<u8>),
> {
    match parse_len(b) {
        Some((n, r)) => parse_items(r, n, item),
        None => None,
    }
}

pub open spec fn list_fits<T>(v: Seq<T>, fits: spec_fn(T) -> bool) -> bool {
    v.len() <= u64::MAX && forall|i: int| 0 <= i < v.len() ==> #[trigger] fits(v[i])
}

/// What remains of `b` from position `p` on.
pub open spec fn rest_from(b: Seq<u8>, p: int) -> Seq<u8> {
    b.subrange(p, b.len() as int)
}

proof fn lemma_len_round_trip(n: nat, r: Seq<u8>)
    requires
        n <= u64::MAX,
    ensures
        parse_len(enc_len(n) + r) == Some((n, r)),
{
    lemma_auto_spec_u64_to_from_le_bytes();
    let b = enc_len(n) + r;
    assert(b.subrange(0, 8) =~= enc_len(n));
    assert(b.subrange(8, b.len() as int) =~= r);
}

proof fn lemma_len_canonical(b: Seq<u8>)
    ensures
        parse_len(b) matches Some((n, r)) ==> n <= u64::MAX && b == enc_len(n) + r,
{
    lemma_auto_spec_u64_to_from_le_bytes();
    if b.len() >= 8 {
        let x = spec_u64_from_le_bytes(b.subrange(0, 8));
        assert(spec_u64_to_le_bytes(x) == b.subrange(0, 8));
        assert(b =~= enc_len(x as nat) + b.subrange(8, b.len() as int));
    }
}

proof fn lemma_raw_round_trip(body: Seq<u8>, r: Seq<u8>)
    requires
        raw_fits(body),
    ensures
        parse_raw(enc_raw(body) + r) == Some((body, r)),
{
    lemma_len_round_trip(body.len(), body + r);
    assert(enc_raw(body) + r =~= enc_len(body.len()) + (body + r));
    assert((body + r).subrange(0, body.len() as int) =~= body);
    assert((body + r).subrange(body.len() as int, (body + r).len() as int) =~= r);
}

proof fn lemma_raw_canonical(b: Seq<u8>)
    ensures
        parse_raw(b) matches Some((body, r)) ==> raw_fits(body) && b == enc_raw(body) + r,
{
    lemma_len_canonical(b);
    if let Some((n, r0)) = parse_len(b) {
        if n <= r0.len() {
            let body = r0.subrange(0, n as int);
            let r = r0.subrange(n as int, r0.len() as int);
            assert(r0 =~= body + r);
            assert(b =~= enc_raw(body) + r);
        }
    }
}

proof fn lemma_str_round_trip(s: Seq<char>, r: Seq<u8>)
    requires
        str_fits(s),
    ensures
        parse_str(enc_str(s) + r) == Some((s, r)),
{
    lemma_raw_round_trip(encode_utf8(s), r);
    encode_utf8_valid_utf8(s);
    encode_utf8_decode_utf8(s);
}

proof fn lemma_str_canonical(b: Seq<u8>)
    ensures
        parse_str(b) matches Some((s, r)) ==> str_fits(s) && b == enc_str(s) + r,
{
    lemma_raw_canonical(b);
    if let Some((body, r)) = parse_raw(b) {
        if valid_utf8(body) {
            decode_utf8_encode_utf8(body);
        }
    }
}

proof fn lemma_items_round_trip<T>(
    v: Seq<T>,
    r: Seq<u8>,
    enc: spec_fn(T) -> Seq<u8>,
    item: spec_fn(Seq<u8>) -> Option<(T, Seq<u8>)>,
    fits: spec_fn(T) -> bool,
)
    requires
        forall|x: T, rr: Seq<u8>| fits(x) ==> #[trigger] item(enc(x) + rr) == Some((x, rr)),
        forall|i: int| 0 <= i < v.len() ==> #[trigger] fits(v[i]),
    ensures
        parse_items(enc_items(v, enc) + r, v.len(), item) == Some((v, r)),
    decreases v.len(),
{
    if v.len() == 0 {
        assert(Seq::<u8>::empty() + r =~= r);
        assert(v =~= Seq::<T>::empty());
    } else {
        let w = v.drop_last();
        let x = v.last();
        assert(enc_items(v, enc) + r =~= enc_items(w, enc) + (enc(x) + r));
        assert forall|i: int| 0 <= i < w.len() implies #[trigger] fits(w[i]) by {
            assert(w[i] == v[i]);
        }
        lemma_items_round_trip(w, enc(x) + r, enc, item, fits);
        assert(fits(v[v.len() - 1]));
        assert(w.push(x) =~= v);
    }
}

proof fn lemma_items_canonical<T>(
    b: Seq<u8>,
    n: nat,
    enc: spec_fn(T) -> Seq<u8>,
    item: spec_fn(Seq<u8>) -> Option<(T, Seq<u8>)>,
    fits: spec_fn(T) -> bool,
)
    requires
        forall|bb: Seq<u8>| #[trigger]
            item(bb) matches Some((x, rr)) ==> fits(x) && bb == enc(x) + rr,
    ensures
        parse_items(b, n, item) matches Some((v, r)) ==> v.len() == n && b == enc_items(v, enc) + r
            && forall|i: int| 0 <= i < v.len() ==> #[trigger] fits(v[i]),
    decreases n,
{
    if n == 0 {
        assert(Seq::<u8>::empty() + b =~= b);
    } else {
        lemma_items_canonical(b, (n - 1) as nat, enc, item, fits);
        if let Some((w, r)) = parse_items(b, (n - 1) as nat, item) {
            if let Some((x, r2)) = item(r) {
                let v = w.push(x);
                assert(v.drop_last() =~= w);
                assert(b =~= enc_items(v, enc) + r2);
                assert forall|i: int| 0 <= i < v.len() implies #[trigger] fits(v[i]) by {
                    if i < w.len() {
                        assert(v[i] == w[i]);
                    }
                }
            }
        }
    }
}

proof fn lemma_list_round_trip<T>(
    v: Seq<T>,
    r: Seq<u8>,
    enc: spec_fn(T) -> Seq<u8>,
    item: spec_fn(Seq<u8>) -> Option<(T, Seq<u8>)>,
    fits: spec_fn(T) -> bool,
)
    requires
        forall|x: T, rr: Seq<u8>| fits(x) ==> #[trigger] item(enc(x) + rr) == Some((x, rr)),
        list_fits(v, fits),
    ensures
        parse_list(enc_list(v, enc) + r, item) == Some((v, r)),
{
    lemma_len_round_trip(v.len(), enc_items(v, enc) + r);
    assert(enc_list(v, enc) + r =~= enc_len(v.len()) + (enc_items(v, enc) + r));
    lemma_items_round_trip(v, r, enc, item, fits);
}

proof fn lemma_list_canonical<T>(
    b: Seq<u8>,
    enc: spec_fn(T) -> Seq<u8>,
    item: spec_fn(Seq<u8>) -> Option<(T, Seq<u8>)>,
    fits: spec_fn(T) -> bool,
)
    requires
        forall|bb: Seq<u8>| #[trigger]
            item(bb) matches Some((x, rr)) ==> fits(x) && bb == enc(x) + rr,
    ensures
        parse_list(b, item) matches Some((v, r)) ==> list_fits(v, fits) && b == enc_list(v, enc) + r,
{
    lemma_len_canonical(b);
    if let Some((n, r0)) = parse_len(b) {
        lemma_items_canonical(r0, n, enc, item, fits);
        if let Some((v, r)) = parse_items(r0, n, item) {
            assert(b =~= enc_list(v, enc) + r);
        }
    }
}

// ----- item codecs -----

pub open spec fn str_enc() -> spec_fn(Seq<char>) -> Seq<u8> {
    |s: Seq<char>| enc_str(s)
}

pub open spec fn str_item() -> spec_fn(Seq<u8>) -> Option<(Seq<char>, Seq<u8>)> {
    |b: Seq<u8>| parse_str(b)
}

pub open spec fn str_fit() -> spec_fn(Seq<char>) -> bool {
    |s: Seq<char>| str_fits(s)
}

pub open spec fn raw_enc() -> spec_fn(Seq<u8>) -> Seq<u8> {
    |h: Seq<u8>| enc_raw(h)
}

pub open spec fn raw_item() -> spec_fn(Seq<u8>) -> Option<(Seq<u8>, Seq<u8>)> {
    |b: Seq<u8>| parse_raw(b)
}

pub open spec fn raw_fit() -> spec_fn(Seq<u8>) -> bool {
    |h: Seq<u8>| raw_fits(h)
}

pub open spec fn enc_pair(p: (Seq<char>, Seq<char>)) -> Seq<u8> {
    enc_str(p.0) + enc_str(p.1)
}

pub open spec fn parse_pair(b: Seq<u8>) -> Option<((Seq<char>, Seq<char>), Seq<u8>)> {
    match parse_str(b) {
        Some((k, r)) => match parse_str(r) {
            Some((v, r2)) => Some(((k, v), r2)),
            None => None,
        },
        None => None,
    }
}

pub open spec fn pair_fits(p: (Seq<char>, Seq<char>)) -> bool {
    str_fits(p.0) && str_fits(p.1)
}

pub open spec fn pair_enc() -> spec_fn((Seq<char>, Seq<char>)) -> Seq<u8> {
    |p: (Seq<char>, Seq<char>)| enc_pair(p)
}

pub open spec fn pair_item() -> spec_fn(Seq<u8>) -> Option<((Seq<char>, Seq<char>), Seq<u8>)> {
    |b: Seq<u8>| parse_pair(b)
}

pub open spec fn pair_fit() -> spec_fn((Seq<char>, Seq<char>)) -> bool {
    |p: (Seq<char>, Seq<char>)| pair_fits(p)
}

pub open spec fn enc_strs(v: Seq<Seq<char>>) -> Seq<u8> {
    enc_list(v, str_enc())
}

pub open spec fn parse_strs(b: Seq<u8>) -> Option<(Seq<Seq<char>>, Seq<u8>)> {
    parse_list(b, str_item())
}

pub open spec fn strs_fit(v: Seq<Seq<char>>) -> bool {
    list_fits(v, str_fit())
}

pub open spec fn enc_hashes(v: Seq<Seq<u8>>) -> Seq<u8> {
    enc_list(v, raw_enc())
}

pub open spec fn parse_hashes(b: Seq<u8>) -> Option<(Seq<Seq<u8>>, Seq<u8>)> {
    parse_list(b, raw_item())
}

pub open spec fn hashes_fit(v: Seq<Seq<u8>>) -> bool {
    list_fits(v, raw_fit())
}

pub open spec fn enc_pairs(v: Seq<(Seq<char>, Seq<char>)>) -> Seq<u8> {
    enc_list(v, pair_enc())
}

pub open spec fn parse_pairs(b: Seq<u8>) -> Option<(Seq<(Seq<char>, Seq<char>)>, Seq<u8>)> {
    parse_list(b, pair_item())
}

pub open spec fn pairs_fit(v: Seq<(Seq<char>, Seq<char>)>) -> bool {
    list_fits(v, pair_fit())
}

proof fn lemma_pair_round_trip(p: (Seq<char>, Seq<char>), r: Seq<u8>)
    requires
        pair_fits(p),
    ensures
        parse_pair(enc_pair(p) + r) == Some((p, r)),
{
    assert(enc_pair(p) + r =~= enc_str(p.0) + (enc_str(p.1) + r));
    lemma_str_round_trip(p.0, enc_str(p.1) + r);
    lemma_str_round_trip(p.1, r);
}

proof fn lemma_pair_canonical(b: Seq<u8>)
    ensures
        parse_pair(b) matches Some((p, r)) ==> pair_fits(p) && b == enc_pair(p) + r,
{
    lemma_str_canonical(b);
    if let Some((k, r1)) = parse_str(b) {
        lemma_str_canonical(r1);
        if let Some((v, r2)) = parse_str(r1) {
            assert(b =~= enc_pair((k, v)) + r2);
        }
    }
}

proof fn lemma_str_items()
    ensures
        forall|x: Seq<char>, rr: Seq<u8>| str_fit()(x) ==> #[trigger] str_item()(str_enc()(x) + rr)
            == Some((x, rr)),
        forall|bb: Seq<u8>| #[trigger]
            str_item()(bb) matches Some((x, rr)) ==> str_fit()(x) && bb == str_enc()(x) + rr,
{
    assert forall|x: Seq<char>, rr: Seq<u8>| str_fit()(x) implies #[trigger] str_item()(
        str_enc()(x) + rr,
    ) == Some((x, rr)) by {
        lemma_str_round_trip(x, rr);
    }
    assert forall|bb: Seq<u8>|
        #[trigger] str_item()(bb) matches Some((x, rr)) ==> str_fit()(x) && bb == str_enc()(x)
            + rr by {
        lemma_str_canonical(bb);
    }
}

proof fn lemma_raw_items()
    ensures
        forall|x: Seq<u8>, rr: Seq<u8>| raw_fit()(x) ==> #[trigger] raw_item()(raw_enc()(x) + rr)
            == Some((x, rr)),
        forall|bb: Seq<u8>| #[trigger]
            raw_item()(bb) matches Some((x, rr)) ==> raw_fit()(x) && bb == raw_enc()(x) + rr,
{
    assert forall|x: Seq<u8>, rr: Seq<u8>| raw_fit()(x) implies #[trigger] raw_item()(
        raw_enc()(x) + rr,
    ) == Some((x, rr)) by {
        lemma_raw_round_trip(x, rr);
    }
    assert forall|bb: Seq<u8>|
        #[trigger] raw_item()(bb) matches Some((x, rr)) ==> raw_fit()(x) && bb == raw_enc()(x)
            + rr by {
        lemma_raw_canonical(bb);
    }
}

proof fn lemma_pair_items()
    ensures
        forall|x: (Seq<char>, Seq<char>), rr: Seq<u8>| pair_fit()(x) ==> #[trigger] pair_item()(
            pair_enc()(x) + rr,
        ) == Some((x, rr)),
        forall|bb: Seq<u8>| #[trigger]
            pair_item()(bb) matches Some((x, rr)) ==> pair_fit()(x) && bb == pair_enc()(x) + rr,
{
    assert forall|x: (Seq<char>, Seq<char>), rr: Seq<u8>| pair_fit()(x) implies #[trigger] pair_item()(
        pair_enc()(x) + rr,
    ) == Some((x, rr)) by {
        lemma_pair_round_trip(x, rr);
    }
    assert forall|bb: Seq<u8>|
        #[trigger] pair_item()(bb) matches Some((x, rr)) ==> pair_fit()(x) && bb == pair_enc()(x)
            + rr by {
        lemma_pair_canonical(bb);
    }
}

proof fn lemma_strs_round_trip(v: Seq<Seq<char>>, r: Seq<u8>)
    requires
        strs_fit(v),
    ensures
        parse_strs(enc_strs(v) + r) == Some((v, r)),
{
    lemma_str_items();
    lemma_list_round_trip(v, r, str_enc(), str_item(), str_fit());
}

proof fn lemma_strs_canonical(b: Seq<u8>)
    ensures
        parse_strs(b) matches Some((v, r)) ==> strs_fit(v) && b == enc_strs(v) + r,
{
    lemma_str_items();
    lemma_list_canonical(b, str_enc(), str_item(), str_fit());
}

proof fn lemma_hashes_round_trip(v: Seq<Seq<u8>>, r: Seq<u8>)
    requires
        hashes_fit(v),
    ensures
        parse_hashes(enc_hashes(v) + r) == Some((v, r)),
{
    lemma_raw_items();
    lemma_list_round_trip(v, r, raw_enc(), raw_item(), raw_fit());
}

proof fn lemma_hashes_canonical(b: Seq<u8>)
    ensures
        parse_hashes(b) matches Some((v, r)) ==> hashes_fit(v) && b == enc_hashes(v) + r,
{
    lemma_raw_items();
    lemma_list_canonical(b, raw_enc(), raw_item(), raw_fit());
}

proof fn lemma_pairs_round_trip(v: Seq<(Seq<char>, Seq<char>)>, r: Seq<u8>)
    requires
        pairs_fit(v),
    ensures
        parse_pairs(enc_pairs(v) + r) == Some((v, r)),
{
    lemma_pair_items();
    lemma_list_round_trip(v, r, pair_enc(), pair_item(), pair_fit());
}

proof fn lemma_pairs_canonical(b: Seq<u8>)
    ensures
        parse_pairs(b) matches Some((v, r)) ==> pairs_fit(v) && b == enc_pairs(v) + r,
{
    lemma_pair_items();
    lemma_list_canonical(b, pair_enc(), pair_item(), pair_fit());
}

// ----- entries -----

pub open spec fn enc_marker(m: Option<MarkerPieceView>) -> Seq<u8> {
    match m {
        None => seq![0u8],
        Some(MarkerPieceView::Svg(h)) => seq![1u8] + enc_raw(h),
        Some(MarkerPieceView::EmojiGroup(h)) => seq![2u8] + enc_raw(h),
    }
}

pub open spec fn parse_marker(b: Seq<u8>) -> Option<(Option<MarkerPieceView>, Seq<u8>)> {
    if b.len() == 0 {
        None
    } else if b[0] == 0 {
        Some((None, b.drop_first()))
    } else if b[0] == 1 {
        match parse_raw(b.drop_first()) {
            Some((h, r)) => Some((Some(MarkerPieceView::Svg(h)), r)),
            None => None,
        }
    } else if b[0] == 2 {
        match parse_raw(b.drop_first()) {
            Some((h, r)) => Some((Some(MarkerPieceView::EmojiGroup(h)), r)),
            None => None,
        }
    } else {
        None
    }
}

pub open spec fn marker_fits(m: Option<MarkerPieceView>) -> bool {
    match m {
        None => true,
        Some(p) => raw_fits(marker_hash(p)),
    }
}

pub open spec fn enc_template(t: TemplateView) -> Seq<u8> {
    enc_str(t.name) + enc_str(t.surface)
}

pub open spec fn parse_template(b: Seq<u8>) -> Option<(TemplateView, Seq<u8>)> {
    match parse_str(b) {
        Some((name, r1)) => match parse_str(r1) {
            Some((surface, r2)) => Some((TemplateView { name, surface }, r2)),
            None => None,
        },
        None => None,
    }
}

pub open spec fn template_fits(t: TemplateView) -> bool {
    str_fits(t.name) && str_fits(t.surface)
}

pub open spec fn enc_svg_marker(m: SvgMarkerView) -> Seq<u8> {
    enc_str(m.name) + enc_str(m.value)
}

pub open spec fn parse_svg_marker(b: Seq<u8>) -> Option<(SvgMarkerView, Seq<u8>)> {
    match parse_str(b) {
        Some((name, r1)) => match parse_str(r1) {
            Some((value, r2)) => Some((SvgMarkerView { name, value }, r2)),
            None => None,
        },
        None => None,
    }
}

pub open spec fn svg_marker_fits(m: SvgMarkerView) -> bool {
    str_fits(m.name) && str_fits(m.value)
}

pub open spec fn enc_emoji_group(g: EmojiGroupView) -> Seq<u8> {
    enc_str(g.name) + enc_str(g.description) + enc_strs(g.unicodes)
}

pub open spec fn parse_emoji_group(b: Seq<u8>) -> Option<(EmojiGroupView, Seq<u8>)> {
    match parse_str(b) {
        Some((name, r1)) => match parse_str(r1) {
            Some((description, r2)) => match parse_strs(r2) {
                Some((unicodes, r3)) => Some((EmojiGroupView { name, description, unicodes }, r3)),
                None => None,
            },
            None => None,
        },
        None => None,
    }
}

pub open spec fn emoji_group_fits(g: EmojiGroupView) -> bool {
    str_fits(g.name) && str_fits(g.description) && strs_fit(g.unicodes)
}

pub open spec fn enc_space(s: SpaceView) -> Seq<u8> {
    enc_str(s.name) + enc_raw(s.origin) + enc_str(s.surface) + enc_marker(s.maybe_marker_piece)
        + enc_pairs(s.meta)
}

pub open spec fn parse_space(b: Seq<u8>) -> Option<(SpaceView, Seq<u8>)> {
    match parse_str(b) {
        Some((name, r1)) => match parse_raw(r1) {
            Some((origin, r2)) => match parse_str(r2) {
                Some((surface, r3)) => match parse_marker(r3) {
                    Some((maybe_marker_piece, r4)) => match parse_pairs(r4) {
                        Some((meta, r5)) => Some(
                            (SpaceView { name, origin, surface, maybe_marker_piece, meta }, r5),
                        ),
                        None => None,
                    },
                    None => None,
                },
                None => None,
            },
            None => None,
        },
        None => None,
    }
}

pub open spec fn space_fits(s: SpaceView) -> bool {
    str_fits(s.name) && raw_fits(s.origin) && str_fits(s.surface) && marker_fits(
        s.maybe_marker_piece,
    ) && pairs_fit(s.meta)
}

pub open spec fn enc_playset(p: PlaysetView) -> Seq<u8> {
    enc_str(p.name) + enc_str(p.description) + enc_hashes(p.templates) + enc_hashes(p.svg_markers)
        + enc_hashes(p.emoji_groups) + enc_hashes(p.spaces)
}

pub open spec fn parse_playset(b: Seq<u8>) -> Option<(PlaysetView, Seq<u8>)> {
    match parse_str(b) {
        Some((name, r1)) => match parse_str(r1) {
            Some((description, r2)) => match parse_hashes(r2) {
                Some((templates, r3)) => match parse_hashes(r3) {
                    Some((svg_markers, r4)) => match parse_hashes(r4) {
                        Some((emoji_groups, r5)) => match parse_hashes(r5) {
                            Some((spaces, r6)) => Some(
                                (
                                    PlaysetView {
                                        name,
                                        description,
                                        templates,
                                        svg_markers,
                                        emoji_groups,
                                        spaces,
                                    },
                                    r6,
                                ),
                            ),
                            None => None,
                        },
                        None => None,
                    },
                    None => None,
                },
                None => None,
            },
            None => None,
        },
        None => None,
    }
}

pub open spec fn playset_fits(p: PlaysetView) -> bool {
    str_fits(p.name) && str_fits(p.description) && hashes_fit(p.templates) && hashes_fit(
        p.svg_markers,
    ) && hashes_fit(p.emoji_groups) && hashes_fit(p.spaces)
}

/// The canonical encoding of an entry: its kind byte, then its fields.
pub open spec fn enc_entry(e: EntryView) -> Seq<u8> {
    match e {
        EntryView::Template(t) => seq![0u8] + enc_template(t),
        EntryView::SvgMarker(m) => seq![1u8] + enc_svg_marker(m),
        EntryView::EmojiGroup(g) => seq![2u8] + enc_emoji_group(g),
        EntryView::Space(s) => seq![3u8] + enc_space(s),
        EntryView::Playset(p) => seq![4u8] + enc_playset(p),
    }
}

/// A parse that consumed its whole input.
pub open spec fn whole<T>(x: Option<(T, Seq<u8>)>) -> Option<T> {
    match x {
        Some((v, r)) => if r.len() == 0 {
            Some(v)
        } else {
            None
        },
        None => None,
    }
}

/// The entry that `b` encodes, if it is the encoding of one.
pub open spec fn decode_entry(b: Seq<u8>) -> Option<EntryView> {
    if b.len() == 0 {
        None
    } else {
        let r = b.drop_first();
        if b[0] == 0 {
            match whole(parse_template(r)) {
                Some(t) => Some(EntryView::Template(t)),
                None => None,
            }
        } else if b[0] == 1 {
            match whole(parse_svg_marker(r)) {
                Some(m) => Some(EntryView::SvgMarker(m)),
                None => None,
            }
        } else if b[0] == 2 {
            match whole(parse_emoji_group(r)) {
                Some(g) => Some(EntryView::EmojiGroup(g)),
                None => None,
            }
        } else if b[0] == 3 {
            match whole(parse_space(r)) {
                Some(s) => Some(EntryView::Space(s)),
                None => None,
            }
        } else if b[0] == 4 {
            match whole(parse_playset(r)) {
                Some(p) => Some(EntryView::Playset(p)),
                None => None,
            }
        } else {
            None
        }
    }
}

/// Whether every length inside an entry can be written.
pub open spec fn entry_fits(e: EntryView) -> bool {
    match e {
        EntryView::Template(t) => template_fits(t),
        EntryView::SvgMarker(m) => svg_marker_fits(m),
        EntryView::EmojiGroup(g) => emoji_group_fits(g),
        EntryView::Space(s) => space_fits(s),
        EntryView::Playset(p) => playset_fits(p),
    }
}

proof fn lemma_marker_round_trip(m: Option<MarkerPieceView>, r: Seq<u8>)
    requires
        marker_fits(m),
    ensures
        parse_marker(enc_marker(m) + r) == Some((m, r)),
{
    let b = enc_marker(m) + r;
    match m {
        None => {
            assert(b.drop_first() =~= r);
        },
        Some(p) => {
            let h = marker_hash(p);
            assert(b.drop_first() =~= enc_raw(h) + r);
            lemma_raw_round_trip(h, r);
        },
    }
}

proof fn lemma_marker_canonical(b: Seq<u8>)
    ensures
        parse_marker(b) matches Some((m, r)) ==> marker_fits(m) && b == enc_marker(m) + r,
{
    if b.len() > 0 {
        lemma_raw_canonical(b.drop_first());
        if b[0] == 0 {
            assert(b =~= seq![0u8] + b.drop_first());
        } else if b[0] == 1 {
            if let Some((h, r)) = parse_raw(b.drop_first()) {
                assert(b =~= seq![1u8] + (enc_raw(h) + r));
                assert(b =~= enc_marker(Some(MarkerPieceView::Svg(h))) + r);
            }
        } else if b[0] == 2 {
            if let Some((h, r)) = parse_raw(b.drop_first()) {
                assert(b =~= seq![2u8] + (enc_raw(h) + r));
                assert(b =~= enc_marker(Some(MarkerPieceView::EmojiGroup(h))) + r);
            }
        }
    }
}

proof fn lemma_template_round_trip(t: TemplateView, r: Seq<u8>)
    requires
        template_fits(t),
    ensures
        parse_template(enc_template(t) + r) == Some((t, r)),
{
    assert(enc_template(t) + r =~= enc_str(t.name) + (enc_str(t.surface) + r));
    lemma_str_round_trip(t.name, enc_str(t.surface) + r);
    lemma_str_round_trip(t.surface, r);
}

proof fn lemma_template_canonical(b: Seq<u8>)
    ensures
        parse_template(b) matches Some((t, r)) ==> template_fits(t) && b == enc_template(t) + r,
{
    lemma_str_canonical(b);
    if let Some((name, r1)) = parse_str(b) {
        lemma_str_canonical(r1);
        if let Some((surface, r2)) = parse_str(r1) {
            assert(b =~= enc_template(TemplateView { name, surface }) + r2);
        }
    }
}

proof fn lemma_svg_marker_round_trip(m: SvgMarkerView, r: Seq<u8>)
    requires
        svg_marker_fits(m),
    ensures
        parse_svg_marker(enc_svg_marker(m) + r) == Some((m, r)),
{
    assert(enc_svg_marker(m) + r =~= enc_str(m.name) + (enc_str(m.value) + r));
    lemma_str_round_trip(m.name, enc_str(m.value) + r);
    lemma_str_round_trip(m.value, r);
}

proof fn lemma_svg_marker_canonical(b: Seq<u8>)
    ensures
        parse_svg_marker(b) matches Some((m, r)) ==> svg_marker_fits(m) && b == enc_svg_marker(m)
            + r,
{
    lemma_str_canonical(b);
    if let Some((name, r1)) = parse_str(b) {
        lemma_str_canonical(r1);
        if let Some((value, r2)) = parse_str(r1) {
            assert(b =~= enc_svg_marker(SvgMarkerView { name, value }) + r2);
        }
    }
}

proof fn lemma_emoji_group_round_trip(g: EmojiGroupView, r: Seq<u8>)
    requires
        emoji_group_fits(g),
    ensures
        parse_emoji_group(enc_emoji_group(g) + r) == Some((g, r)),
{
    let r2 = enc_strs(g.unicodes) + r;
    let r1 = enc_str(g.description) + r2;
    assert(enc_emoji_group(g) + r =~= enc_str(g.name) + r1);
    lemma_str_round_trip(g.name, r1);
    lemma_str_round_trip(g.description, r2);
    lemma_strs_round_trip(g.unicodes, r);
}

proof fn lemma_emoji_group_canonical(b: Seq<u8>)
    ensures
        parse_emoji_group(b) matches Some((g, r)) ==> emoji_group_fits(g) && b == enc_emoji_group(g)
            + r,
{
    lemma_str_canonical(b);
    if let Some((name, r1)) = parse_str(b) {
        lemma_str_canonical(r1);
        if let Some((description, r2)) = parse_str(r1) {
            lemma_strs_canonical(r2);
            if let Some((unicodes, r3)) = parse_strs(r2) {
                assert(b =~= enc_emoji_group(EmojiGroupView { name, description, unicodes }) + r3);
            }
        }
    }
}

proof fn lemma_space_round_trip(s: SpaceView, r: Seq<u8>)
    requires
        space_fits(s),
    ensures
        parse_space(enc_space(s) + r) == Some((s, r)),
{
    let r4 = enc_pairs(s.meta) + r;
    let r3 = enc_marker(s.maybe_marker_piece) + r4;
    let r2 = enc_str(s.surface) + r3;
    let r1 = enc_raw(s.origin) + r2;
    assert(enc_space(s) + r =~= enc_str(s.name) + r1);
    lemma_str_round_trip(s.name, r1);
    lemma_raw_round_trip(s.origin, r2);
    lemma_str_round_trip(s.surface, r3);
    lemma_marker_round_trip(s.maybe_marker_piece, r4);
    lemma_pairs_round_trip(s.meta, r);
}

#[verifier::rlimit(30)]
proof fn lemma_space_canonical(b: Seq<u8>)
    ensures
        parse_space(b) matches Some((s, r)) ==> space_fits(s) && b == enc_space(s) + r,
{
    lemma_str_canonical(b);
    if let Some((name, r1)) = parse_str(b) {
        lemma_raw_canonical(r1);
        if let Some((origin, r2)) = parse_raw(r1) {
            lemma_str_canonical(r2);
            if let Some((surface, r3)) = parse_str(r2) {
                lemma_marker_canonical(r3);
                if let Some((maybe_marker_piece, r4)) = parse_marker(r3) {
                    lemma_pairs_canonical(r4);
                    if let Some((meta, r5)) = parse_pairs(r4) {
                        let s = SpaceView { name, origin, surface, maybe_marker_piece, meta };
                        let tail = enc_str(surface) + (enc_marker(maybe_marker_piece) + (enc_pairs(
                            meta,
                        ) + r5));
                        assert(r2 == tail);
                        assert(b == enc_str(name) + (enc_raw(origin) + tail));
                        assert(enc_space(s) + r5 =~= enc_str(name) + (enc_raw(origin) + tail));
                    }
                }
            }
        }
    }
}

proof fn lemma_playset_round_trip(p: PlaysetView, r: Seq<u8>)
    requires
        playset_fits(p),
    ensures
        parse_playset(enc_playset(p) + r) == Some((p, r)),
{
    let r5 = enc_hashes(p.spaces) + r;
    let r4 = enc_hashes(p.emoji_groups) + r5;
    let r3 = enc_hashes(p.svg_markers) + r4;
    let r2 = enc_hashes(p.templates) + r3;
    let r1 = enc_str(p.description) + r2;
    assert(enc_playset(p) + r =~= enc_str(p.name) + r1);
    lemma_str_round_trip(p.name, r1);
    lemma_str_round_trip(p.description, r2);
    lemma_hashes_round_trip(p.templates, r3);
    lemma_hashes_round_trip(p.svg_markers, r4);
    lemma_hashes_round_trip(p.emoji_groups, r5);
    lemma_hashes_round_trip(p.spaces, r);
}

#[verifier::rlimit(30)]
proof fn lemma_playset_canonical(b: Seq<u8>)
    ensures
        parse_playset(b) matches Some((p, r)) ==> playset_fits(p) && b == enc_playset(p) + r,
{
    lemma_str_canonical(b);
    if let Some((name, r1)) = parse_str(b) {
        lemma_str_canonical(r1);
        if let Some((description, r2)) = parse_str(r1) {
            lemma_hashes_canonical(r2);
            if let Some((templates, r3)) = parse_hashes(r2) {
                lemma_hashes_canonical(r3);
                if let Some((svg_markers, r4)) = parse_hashes(r3) {
                    lemma_hashes_canonical(r4);
                    if let Some((emoji_groups, r5)) = parse_hashes(r4) {
                        lemma_hashes_canonical(r5);
                        if let Some((spaces, r6)) = parse_hashes(r5) {
                            let p = PlaysetView {
                                name,
                                description,
                                templates,
                                svg_markers,
                                emoji_groups,
                                spaces,
                            };
                            assert(b =~= enc_playset(p) + r6);
                        }
                    }
                }
            }
        }
    }
}

/// Decoding an encoded entry gives the entry back.
pub proof fn lemma_entry_round_trip(e: EntryView)
    requires
        entry_fits(e),
    ensures
        decode_entry(enc_entry(e)) == Some(e),
{
    let b = enc_entry(e);
    let empty = Seq::<u8>::empty();
    match e {
        EntryView::Template(t) => {
            assert(b.drop_first() =~= enc_template(t) + empty);
            lemma_template_round_trip(t, empty);
        },
        EntryView::SvgMarker(m) => {
            assert(b.drop_first() =~= enc_svg_marker(m) + empty);
            lemma_svg_marker_round_trip(m, empty);
        },
        EntryView::EmojiGroup(g) => {
            assert(b.drop_first() =~= enc_emoji_group(g) + empty);
            lemma_emoji_group_round_trip(g, empty);
        },
        EntryView::Space(s) => {
            assert(b.drop_first() =~= enc_space(s) + empty);
            lemma_space_round_trip(s, empty);
        },
        EntryView::Playset(p) => {
            assert(b.drop_first() =~= enc_playset(p) + empty);
            lemma_playset_round_trip(p, empty);
        },
    }
}

/// Bytes that decode to an entry are exactly that entry's encoding.
pub proof fn lemma_entry_canonical(b: Seq<u8>)
    ensures
        decode_entry(b) matches Some(e) ==> entry_fits(e) && enc_entry(e) == b,
{
    if b.len() > 0 {
        let r = b.drop_first();
        let empty = Seq::<u8>::empty();
        assert(b =~= seq![b[0]] + r);
        assert(r =~= r + empty);
        if b[0] == 0 {
            lemma_template_canonical(r);
            if let Some((t, rest)) = parse_template(r) {
                if rest.len() == 0 {
                    assert(rest =~= empty);
                    assert(r == enc_template(t) + empty);
                    assert(r =~= enc_template(t));
                }
            }
        } else if b[0] == 1 {
            lemma_svg_marker_canonical(r);
            if let Some((m, rest)) = parse_svg_marker(r) {
                if rest.len() == 0 {
                    assert(rest =~= empty);
                    assert(r =~= enc_svg_marker(m));
                }
            }
        } else if b[0] == 2 {
            lemma_emoji_group_canonical(r);
            if let Some((g, rest)) = parse_emoji_group(r) {
                if rest.len() == 0 {
                    assert(rest =~= empty);
                    assert(r =~= enc_emoji_group(g));
                }
            }
        } else if b[0] == 3 {
            lemma_space_canonical(r);
            if let Some((sp, rest)) = parse_space(r) {
                if rest.len() == 0 {
                    assert(rest =~= empty);
                    assert(r =~= enc_space(sp));
                }
            }
        } else if b[0] == 4 {
            lemma_playset_canonical(r);
            if let Some((p, rest)) = parse_playset(r) {
                if rest.len() == 0 {
                    assert(rest =~= empty);
                    assert(r =~= enc_playset(p));
                }
            }
        }
    }
}

/// Two entries with the same encoding are the same entry.
pub proof fn lemma_entry_encoding_injective(a: EntryView, b: EntryView)
    requires
        entry_fits(a),
        entry_fits(b),
        enc_entry(a) == enc_entry(b),
    ensures
        a == b,
{
    lemma_entry_round_trip(a);
    lemma_entry_round_trip(b);
}

// ----- writing -----

fn write_len(out: &mut Vec<u8>, n: usize)
    ensures
        final(out)@ == old(out)@ + enc_len(n as nat),
{
    let mut bytes = u64_to_le_bytes(n as u64);
    out.append(&mut bytes);
}

fn write_slice(out: &mut Vec<u8>, b: &[u8])
    ensures
        final(out)@ == old(out)@ + enc_raw(b@),
        raw_fits(b@),
{
    write_len(out, b.len());
    let ghost start = out@;
    let mut i: usize = 0;
    while i < b.len()
        invariant
            0 <= i <= b@.len(),
            out@ == start + b@.subrange(0, i as int),
        decreases b@.len() - i,
    {
        out.push(b[i]);
        i = i + 1;
    }
    assert(b@.subrange(0, b@.len() as int) =~= b@);
    assert(start + b@ =~= old(out)@ + enc_raw(b@));
}

fn write_raw(out: &mut Vec<u8>, b: &Vec<u8>)
    ensures
        final(out)@ == old(out)@ + enc_raw(b@),
        raw_fits(b@),
{
    write_slice(out, b.as_slice());
}

fn write_str(out: &mut Vec<u8>, s: &String)
    ensures
        final(out)@ == old(out)@ + enc_str(s@),
        str_fits(s@),
{
    let st = s.as_str();
    let b = st.as_bytes();
    write_slice(out, b);
}

fn write_strs(out: &mut Vec<u8>, v: &Vec<String>)
    ensures
        final(out)@ == old(out)@ + enc_strs(strings_view(v@)),
        strs_fit(strings_view(v@)),
{
    write_len(out, v.len());
    let ghost start = out@;
    let ghost sv = strings_view(v@);
    let mut i: usize = 0;
    while i < v.len()
        invariant
            0 <= i <= v@.len(),
            sv == strings_view(v@),
            out@ == start + enc_items(sv.take(i as int), str_enc()),
            forall|j: int| 0 <= j < i ==> str_fits(#[trigger] sv[j]),
        decreases v@.len() - i,
    {
        write_str(out, &v[i]);
        proof {
            assert(sv.take(i + 1).drop_last() =~= sv.take(i as int));
            assert(sv[i as int] == v@[i as int]@);
            assert(start + enc_items(sv.take(i + 1), str_enc()) =~= start + enc_items(
                sv.take(i as int),
                str_enc(),
            ) + enc_str(v@[i as int]@));
        }
        i = i + 1;
    }
    assert(sv.take(v@.len() as int) =~= sv);
    assert(old(out)@ + enc_strs(sv) =~= start + enc_items(sv, str_enc()));
}

fn write_hashes(out: &mut Vec<u8>, v: &Vec<EntryHash>)
    ensures
        final(out)@ == old(out)@ + enc_hashes(hashes_view(v@)),
        hashes_fit(hashes_view(v@)),
{
    write_len(out, v.len());
    let ghost start = out@;
    let ghost sv = hashes_view(v@);
    let mut i: usize = 0;
    while i < v.len()
        invariant
            0 <= i <= v@.len(),
            sv == hashes_view(v@),
            out@ == start + enc_items(sv.take(i as int), raw_enc()),
            forall|j: int| 0 <= j < i ==> raw_fits(#[trigger] sv[j]),
        decreases v@.len() - i,
    {
        write_raw(out, v[i].as_bytes());
        proof {
            assert(sv.take(i + 1).drop_last() =~= sv.take(i as int));
            assert(sv[i as int] == v@[i as int]@);
            assert(start + enc_items(sv.take(i + 1), raw_enc()) =~= start + enc_items(
                sv.take(i as int),
                raw_enc(),
            ) + enc_raw(v@[i as int]@));
        }
        i = i + 1;
    }
    assert(sv.take(v@.len() as int) =~= sv);
    assert(old(out)@ + enc_hashes(sv) =~= start + enc_items(sv, raw_enc()));
}

fn write_pairs(out: &mut Vec<u8>, v: &Vec<(String, String)>)
    ensures
        final(out)@ == old(out)@ + enc_pairs(pairs_view(v@)),
        pairs_fit(pairs_view(v@)),
{
    write_len(out, v.len());
    let ghost start = out@;
    let ghost sv = pairs_view(v@);
    let mut i: usize = 0;
    while i < v.len()
        invariant
            0 <= i <= v@.len(),
            sv == pairs_view(v@),
            out@ == start + enc_items(sv.take(i as int), pair_enc()),
            forall|j: int| 0 <= j < i ==> pair_fits(#[trigger] sv[j]),
        decreases v@.len() - i,
    {
        let ghost before = out@;
        write_str(out, &v[i].0);
        write_str(out, &v[i].1);
        proof {
            assert(sv.take(i + 1).drop_last() =~= sv.take(i as int));
            assert(sv[i as int] == (v@[i as int].0@, v@[i as int].1@));
            assert(out@ =~= before + enc_pair(sv[i as int]));
            assert(start + enc_items(sv.take(i + 1), pair_enc()) =~= start + enc_items(
                sv.take(i as int),
                pair_enc(),
            ) + enc_pair(sv[i as int]));
        }
        i = i + 1;
    }
    assert(sv.take(v@.len() as int) =~= sv);
    assert(old(out)@ + enc_pairs(sv) =~= start + enc_items(sv, pair_enc()));
}

fn write_marker(out: &mut Vec<u8>, m: &Option<MarkerPiece>)
    ensures
        final(out)@ == old(out)@ + enc_marker(marker_view(*m)),
        marker_fits(marker_view(*m)),
{
    match m {
        None => {
            out.push(0u8);
            assert(out@ =~= old(out)@ + enc_marker(marker_view(*m)));
        },
        Some(MarkerPiece::Svg(h)) => {
            out.push(1u8);
            write_raw(out, h.as_bytes());
            assert(out@ =~= old(out)@ + enc_marker(marker_view(*m)));
        },
        Some(MarkerPiece::EmojiGroup(h)) => {
            out.push(2u8);
            write_raw(out, h.as_bytes());
            assert(out@ =~= old(out)@ + enc_marker(marker_view(*m)));
        },
    }
}

/// The canonical encoding of an entry.
pub fn encode_entry(e: &PlaysetEntry) -> (r: Vec<u8>)
    ensures
        r@ == enc_entry(e@),
        entry_fits(e@),
{
    let mut out: Vec<u8> = Vec::new();
    match e {
        PlaysetEntry::Template(t) => {
            out.push(0u8);
            write_str(&mut out, &t.name);
            write_str(&mut out, &t.surface);
        },
        PlaysetEntry::SvgMarker(m) => {
            out.push(1u8);
            write_str(&mut out, &m.name);
            write_str(&mut out, &m.value);
        },
        PlaysetEntry::EmojiGroup(g) => {
            out.push(2u8);
            write_str(&mut out, &g.name);
            write_str(&mut out, &g.description);
            write_strs(&mut out, &g.unicodes);
        },
        PlaysetEntry::Space(s) => {
            out.push(3u8);
            write_str(&mut out, &s.name);
            write_raw(&mut out, s.origin.as_bytes());
            write_str(&mut out, &s.surface);
            write_marker(&mut out, &s.maybe_marker_piece);
            write_pairs(&mut out, &s.meta);
        },
        PlaysetEntry::Playset(p) => {
            out.push(4u8);
            write_str(&mut out, &p.name);
            write_str(&mut out, &p.description);
            write_hashes(&mut out, &p.templates);
            write_hashes(&mut out, &p.svg_markers);
            write_hashes(&mut out, &p.emoji_groups);
            write_hashes(&mut out, &p.spaces);
        },
    }
    assert(out@ =~= enc_entry(e@));
    out
}

// ----- reading -----

fn read_len(b: &Vec<u8>, pos: usize) -> (r: Option<(u64, usize)>)
    requires
        pos <= b@.len(),
    ensures
        r is None <==> parse_len(rest_from(b@, pos as int)) is None,
        r matches Some((n, p)) ==> pos <= p <= b@.len() && parse_len(rest_from(b@, pos as int))
            == Some((n as nat, rest_from(b@, p as int))),
{
    if b.len() - pos < 8 {
        return None;
    }
    let mut head: Vec<u8> = Vec::new();
    let mut i: usize = 0;
    while i < 8
        invariant
            0 <= i <= 8,
            pos + 8 <= b@.len() <= usize::MAX,
            head@ == b@.subrange(pos as int, pos + i),
        decreases 8 - i,
    {
        head.push(b[pos + i]);
        i = i + 1;
    }
    let n = u64_from_le_bytes(head.as_slice());
    let p = pos + 8;
    assert(head@ =~= rest_from(b@, pos as int).subrange(0, 8));
    assert(rest_from(b@, p as int) =~= rest_from(b@, pos as int).subrange(
        8,
        rest_from(b@, pos as int).len() as int,
    ));
    Some((n, p))
}

fn read_raw(b: &Vec<u8>, pos: usize) -> (r: Option<(Vec<u8>, usize)>)
    requires
        pos <= b@.len(),
    ensures
        r is None <==> parse_raw(rest_from(b@, pos as int)) is None,
        r matches Some((v, p)) ==> pos <= p <= b@.len() && parse_raw(rest_from(b@, pos as int))
            == Some((v@, rest_from(b@, p as int))),
{
    let (n, start) = match read_len(b, pos) {
        Some(x) => x,
        None => return None,
    };
    if n > (b.len() - start) as u64 {
        return None;
    }
    let n = n as usize;
    let mut v: Vec<u8> = Vec::new();
    let mut i: usize = 0;
    while i < n
        invariant
            0 <= i <= n,
            start + n <= b@.len() <= usize::MAX,
            v@ == b@.subrange(start as int, start + i),
        decreases n - i,
    {
        v.push(b[start + i]);
        i = i + 1;
    }
    let ghost r0 = rest_from(b@, start as int);
    assert(v@ =~= r0.subrange(0, n as int));
    assert(rest_from(b@, (start + n) as int) =~= r0.subrange(n as int, r0.len() as int));
    Some((v, start + n))
}

/// Relies on `String::from_utf8`: it succeeds exactly on valid UTF-8, and the
/// string it returns holds those bytes.
#[verifier::external_body]
fn string_from_utf8(bytes: Vec<u8>) -> (r: Option<String>)
    ensures
        r is Some <==> valid_utf8(bytes@),
        r matches Some(s) ==> encode_utf8(s@) == bytes@,
{
    String::from_utf8(bytes).ok()
}

fn read_str(b: &Vec<u8>, pos: usize) -> (r: Option<(String, usize)>)
    requires
        pos <= b@.len(),
    ensures
        r is None <==> parse_str(rest_from(b@, pos as int)) is None,
        r matches Some((s, p)) ==> pos <= p <= b@.len() && parse_str(rest_from(b@, pos as int))
            == Some((s@, rest_from(b@, p as int))),
{
    let (v, p) = match read_raw(b, pos) {
        Some(x) => x,
        None => return None,
    };
    let ghost body = v@;
    match string_from_utf8(v) {
        Some(s) => {
            proof {
                encode_utf8_decode_utf8(s@);
            }
            Some((s, p))
        },
        None => None,
    }
}

proof fn lemma_items_fail<T>(b: Seq<u8>, k: nat, m: nat, item: spec_fn(Seq<u8>) -> Option<(T, Seq<u8>)>)
    requires
        parse_items(b, k, item) is None,
        k <= m,
    ensures
        parse_items(b, m, item) is None,
    decreases m - k,
{
    if k < m {
        lemma_items_fail(b, k, (m - 1) as nat, item);
    }
}

fn read_strs(b: &Vec<u8>, pos: usize) -> (r: Option<(Vec<String>, usize)>)
    requires
        pos <= b@.len(),
    ensures
        r is None <==> parse_strs(rest_from(b@, pos as int)) is None,
        r matches Some((v, p)) ==> pos <= p <= b@.len() && parse_strs(rest_from(b@, pos as int))
            == Some((strings_view(v@), rest_from(b@, p as int))),
{
    let (n, at0) = match read_len(b, pos) {
        Some(x) => x,
        None => return None,
    };
    let ghost r0 = rest_from(b@, at0 as int);
    let mut out: Vec<String> = Vec::new();
    let mut p = at0;
    let mut i: u64 = 0;
    assert(strings_view(out@) =~= Seq::<Seq<char>>::empty());
    while i < n
        invariant
            pos <= at0 <= p <= b@.len(),
            r0 == rest_from(b@, at0 as int),
            parse_len(rest_from(b@, pos as int)) == Some((n as nat, r0)),
            i <= n,
            parse_items(r0, i as nat, str_item()) == Some((strings_view(out@), rest_from(b@, p as int))),
        decreases n - i,
    {
        match read_str(b, p) {
            Some((x, at2)) => {
                let ghost prev = strings_view(out@);
                out.push(x);
                assert(strings_view(out@) =~= prev.push(x@));
                p = at2;
            },
            None => {
                proof {
                    lemma_items_fail(r0, (i + 1) as nat, n as nat, str_item());
                }
                return None;
            },
        }
        i = i + 1;
    }
    Some((out, p))
}

fn read_hashes(b: &Vec<u8>, pos: usize) -> (r: Option<(Vec<EntryHash>, usize)>)
    requires
        pos <= b@.len(),
    ensures
        r is None <==> parse_hashes(rest_from(b@, pos as int)) is None,
        r matches Some((v, p)) ==> pos <= p <= b@.len() && parse_hashes(rest_from(b@, pos as int))
            == Some((hashes_view(v@), rest_from(b@, p as int))),
{
    let (n, at0) = match read_len(b, pos) {
        Some(x) => x,
        None => return None,
    };
    let ghost r0 = rest_from(b@, at0 as int);
    let mut out: Vec<EntryHash> = Vec::new();
    let mut p = at0;
    let mut i: u64 = 0;
    assert(hashes_view(out@) =~= Seq::<Seq<u8>>::empty());
    while i < n
        invariant
            pos <= at0 <= p <= b@.len(),
            r0 == rest_from(b@, at0 as int),
            parse_len(rest_from(b@, pos as int)) == Some((n as nat, r0)),
            i <= n,
            parse_items(r0, i as nat, raw_item()) == Some((hashes_view(out@), rest_from(b@, p as int))),
        decreases n - i,
    {
        match read_raw(b, p) {
            Some((x, at2)) => {
                let ghost prev = hashes_view(out@);
                let h = EntryHash::from_raw(x);
                out.push(h);
                assert(hashes_view(out@) =~= prev.push(h@));
                p = at2;
            },
            None => {
                proof {
                    lemma_items_fail(r0, (i + 1) as nat, n as nat, raw_item());
                }
                return None;
            },
        }
        i = i + 1;
    }
    Some((out, p))
}

fn read_pairs(b: &Vec<u8>, pos: usize) -> (r: Option<(Vec<(String, String)>, usize)>)
    requires
        pos <= b@.len(),
    ensures
        r is None <==> parse_pairs(rest_from(b@, pos as int)) is None,
        r matches Some((v, p)) ==> pos <= p <= b@.len() && parse_pairs(rest_from(b@, pos as int))
            == Some((pairs_view(v@), rest_from(b@, p as int))),
{
    let (n, at0) = match read_len(b, pos) {
        Some(x) => x,
        None => return None,
    };
    let ghost r0 = rest_from(b@, at0 as int);
    let mut out: Vec<(String, String)> = Vec::new();
    let mut p = at0;
    let mut i: u64 = 0;
    assert(pairs_view(out@) =~= Seq::<(Seq<char>, Seq<char>)>::empty());
    while i < n
        invariant
            pos <= at0 <= p <= b@.len(),
            r0 == rest_from(b@, at0 as int),
            parse_len(rest_from(b@, pos as int)) == Some((n as nat, r0)),
            i <= n,
            parse_items(r0, i as nat, pair_item()) == Some((pairs_view(out@), rest_from(b@, p as int))),
        decreases n - i,
    {
        let (k, at1) = match read_str(b, p) {
            Some(x) => x,
            None => {
                proof {
                    lemma_items_fail(r0, (i + 1) as nat, n as nat, pair_item());
                }
                return None;
            },
        };
        let (v, at2) = match read_str(b, at1) {
            Some(x) => x,
            None => {
                proof {
                    lemma_items_fail(r0, (i + 1) as nat, n as nat, pair_item());
                }
                return None;
            },
        };
        let ghost prev = pairs_view(out@);
        out.push((k, v));
        assert(pairs_view(out@) =~= prev.push((k@, v@)));
        p = at2;
        i = i + 1;
    }
    Some((out, p))
}

fn read_marker(b: &Vec<u8>, pos: usize) -> (r: Option<(Option<MarkerPiece>, usize)>)
    requires
        pos <= b@.len(),
    ensures
        r is None <==> parse_marker(rest_from(b@, pos as int)) is None,
        r matches Some((m, p)) ==> pos <= p <= b@.len() && parse_marker(rest_from(b@, pos as int))
            == Some((marker_view(m), rest_from(b@, p as int))),
{
    if pos == b.len() {
        return None;
    }
    let tag = b[pos];
    assert(rest_from(b@, pos as int).drop_first() =~= rest_from(b@, pos + 1));
    if tag == 0 {
        Some((None, pos + 1))
    } else if tag == 1 || tag == 2 {
        match read_raw(b, pos + 1) {
            Some((h, p)) => {
                let h = EntryHash::from_raw(h);
                if tag == 1 {
                    Some((Some(MarkerPiece::Svg(h)), p))
                } else {
                    Some((Some(MarkerPiece::EmojiGroup(h)), p))
                }
            },
            None => None,
        }
    } else {
        None
    }
}

fn read_template(b: &Vec<u8>, pos: usize) -> (r: Option<(Template, usize)>)
    requires
        pos <= b@.len(),
    ensures
        r is None <==> parse_template(rest_from(b@, pos as int)) is None,
        r matches Some((t, p)) ==> pos <= p <= b@.len() && parse_template(rest_from(b@, pos as int))
            == Some((t@, rest_from(b@, p as int))),
{
    let (name, at1) = match read_str(b, pos) {
        Some(x) => x,
        None => return None,
    };
    let (surface, at2) = match read_str(b, at1) {
        Some(x) => x,
        None => return None,
    };
    Some((Template { name, surface }, at2))
}

fn read_svg_marker(b: &Vec<u8>, pos: usize) -> (r: Option<(SvgMarker, usize)>)
    requires
        pos <= b@.len(),
    ensures
        r is None <==> parse_svg_marker(rest_from(b@, pos as int)) is None,
        r matches Some((m, p)) ==> pos <= p <= b@.len() && parse_svg_marker(
            rest_from(b@, pos as int),
        ) == Some((m@, rest_from(b@, p as int))),
{
    let (name, at1) = match read_str(b, pos) {
        Some(x) => x,
        None => return None,
    };
    let (value, at2) = match read_str(b, at1) {
        Some(x) => x,
        None => return None,
    };
    Some((SvgMarker { name, value }, at2))
}

fn read_emoji_group(b: &Vec<u8>, pos: usize) -> (r: Option<(EmojiGroup, usize)>)
    requires
        pos <= b@.len(),
    ensures
        r is None <==> parse_emoji_group(rest_from(b@, pos as int)) is None,
        r matches Some((g, p)) ==> pos <= p <= b@.len() && parse_emoji_group(
            rest_from(b@, pos as int),
        ) == Some((g@, rest_from(b@, p as int))),
{
    let (name, at1) = match read_str(b, pos) {
        Some(x) => x,
        None => return None,
    };
    let (description, at2) = match read_str(b, at1) {
        Some(x) => x,
        None => return None,
    };
    let (unicodes, at3) = match read_strs(b, at2) {
        Some(x) => x,
        None => return None,
    };
    Some((EmojiGroup { name, description, unicodes }, at3))
}

fn read_space(b: &Vec<u8>, pos: usize) -> (r: Option<(Space, usize)>)
    requires
        pos <= b@.len(),
    ensures
        r is None <==> parse_space(rest_from(b@, pos as int)) is None,
        r matches Some((s, p)) ==> pos <= p <= b@.len() && parse_space(rest_from(b@, pos as int))
            == Some((s@, rest_from(b@, p as int))),
{
    let (name, at1) = match read_str(b, pos) {
        Some(x) => x,
        None => return None,
    };
    let (origin, at2) = match read_raw(b, at1) {
        Some(x) => x,
        None => return None,
    };
    let (surface, at3) = match read_str(b, at2) {
        Some(x) => x,
        None => return None,
    };
    let (maybe_marker_piece, at4) = match read_marker(b, at3) {
        Some(x) => x,
        None => return None,
    };
    let (meta, at5) = match read_pairs(b, at4) {
        Some(x) => x,
        None => return None,
    };
    let origin = EntryHash::from_raw(origin);
    Some((Space { name, origin, surface, maybe_marker_piece, meta }, at5))
}

fn read_playset(b: &Vec<u8>, pos: usize) -> (r: Option<(Playset, usize)>)
    requires
        pos <= b@.len(),
    ensures
        r is None <==> parse_playset(rest_from(b@, pos as int)) is None,
        r matches Some((s, p)) ==> pos <= p <= b@.len() && parse_playset(rest_from(b@, pos as int))
            == Some((s@, rest_from(b@, p as int))),
{
    let (name, at1) = match read_str(b, pos) {
        Some(x) => x,
        None => return None,
    };
    let (description, at2) = match read_str(b, at1) {
        Some(x) => x,
        None => return None,
    };
    let (templates, at3) = match read_hashes(b, at2) {
        Some(x) => x,
        None => return None,
    };
    let (svg_markers, at4) = match read_hashes(b, at3) {
        Some(x) => x,
        None => return None,
    };
    let (emoji_groups, at5) = match read_hashes(b, at4) {
        Some(x) => x,
        None => return None,
    };
    let (spaces, at6) = match read_hashes(b, at5) {
        Some(x) => x,
        None => return None,
    };
    Some((Playset { name, description, templates, svg_markers, emoji_groups, spaces }, at6))
}

/// Decodes an entry from its canonical encoding; `None` for any other bytes.
pub fn decode(b: &Vec<u8>) -> (r: Option<PlaysetEntry>)
    ensures
        match r {
            Some(e) => decode_entry(b@) == Some(e@),
            None => decode_entry(b@) is None,
        },
{
    if b.len() == 0 {
        return None;
    }
    let kind = b[0];
    assert(b@.drop_first() =~= rest_from(b@, 1));
    if kind == 0 {
        match read_template(b, 1) {
            Some((t, p)) => if p == b.len() {
                Some(PlaysetEntry::Template(t))
            } else {
                None
            },
            None => None,
        }
    } else if kind == 1 {
        match read_svg_marker(b, 1) {
            Some((m, p)) => if p == b.len() {
                Some(PlaysetEntry::SvgMarker(m))
            } else {
                None
            },
            None => None,
        }
    } else if kind == 2 {
        match read_emoji_group(b, 1) {
            Some((g, p)) => if p == b.len() {
                Some(PlaysetEntry::EmojiGroup(g))
            } else {
                None
            },
            None => None,
        }
    } else if kind == 3 {
        match read_space(b, 1) {
            Some((s, p)) => if p == b.len() {
                Some(PlaysetEntry::Space(s))
            } else {
                None
            },
            None => None,
        }
    } else if kind == 4 {
        match read_playset(b, 1) {
            Some((s, p)) => if p == b.len() {
                Some(PlaysetEntry::Playset(s))
            } else {
                None
            },
            None => None,
        }
    } else {
        None
    }
}

} // verus!
