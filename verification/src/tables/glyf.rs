//! `glyf`: the outlines of the glyphs.

use vstd::prelude::*;

use crate::tables::{first_loca, loca_of, Table, TableView};
use crate::types::cursor::{
    follows, lemma_follows_start, moved, pending, short, short_in_run, take_i16, take_skip,
    take_u16, take_u8,
};
use crate::types::io::{be_i16, be_u16, CoreRead, CoreReadError};
use crate::types::{Error, ValidType};

verus! {

pub type ParsedType = Vec<Glyph>;

/// The bits of a point's flag byte.
pub struct Flags;

impl Flags {
    /// The point lies on the curve.
    pub const ON_CURVE: u8 = 0x01;

    /// The x delta is one byte wide.
    pub const X_SHORT: u8 = 0x02;

    /// The y delta is one byte wide.
    pub const Y_SHORT: u8 = 0x04;

    /// One more byte follows and tells how often the flag comes again.
    pub const REPEAT: u8 = 0x08;

    /// For a one-byte x delta: it is positive. For a two-byte one: there is
    /// none, x is that of the point before.
    pub const X_SIGN_SKIP: u8 = 0x10;

    /// For a one-byte y delta: it is positive. For a two-byte one: there is
    /// none, y is that of the point before.
    pub const Y_SIGN_SKIP: u8 = 0x20;
}

/// The outline of one glyph.
#[derive(Debug)]
pub struct Glyph {
    /// The number of contours; zero for a glyph without an outline.
    pub num_contours: i16,
    /// The smallest and the largest x of the outline.
    pub x_bounds: (i16, i16),
    /// The smallest and the largest y of the outline.
    pub y_bounds: (i16, i16),
    /// For each contour, the index of its last point.
    pub end_pts: Vec<u16>,
    /// The points as (x, y, on the curve), in font design units.
    pub points: Vec<(i16, i16, bool)>,
    /// The glyph is made of other glyphs in the file, which is not
    /// supported: what is held here is the outline of glyph 0 in its place.
    pub composite: bool,
}

/// A glyph as plain values.
pub struct GlyphView {
    pub num_contours: i16,
    pub x_bounds: (i16, i16),
    pub y_bounds: (i16, i16),
    pub end_pts: Seq<u16>,
    pub points: Seq<(i16, i16, bool)>,
    pub composite: bool,
}

impl View for Glyph {
    type V = GlyphView;

    open spec fn view(&self) -> GlyphView {
        GlyphView {
            num_contours: self.num_contours,
            x_bounds: self.x_bounds,
            y_bounds: self.y_bounds,
            end_pts: self.end_pts@,
            points: self.points@,
            composite: self.composite,
        }
    }
}

/// The glyphs of a table as plain values.
pub open spec fn views(glyphs: Seq<Glyph>) -> Seq<GlyphView> {
    glyphs.map_values(|g: Glyph| g@)
}

/// The glyph without an outline.
pub open spec fn empty_glyph() -> GlyphView {
    GlyphView {
        num_contours: 0,
        x_bounds: (0, 0),
        y_bounds: (0, 0),
        end_pts: Seq::empty(),
        points: Seq::empty(),
        composite: false,
    }
}

/// What stands in for a composite glyph: the outline of the first glyph of
/// the table, or none where the composite glyph is itself the first.
pub open spec fn stand_in(first: Option<GlyphView>) -> GlyphView {
    match first {
        Some(g) => GlyphView { composite: true, ..g },
        None => GlyphView { composite: true, ..empty_glyph() },
    }
}

/// The flags of `want` points, read from offset `k` of `s` on and added to
/// `done`, with the offset that follows them. Each flag byte stands for one
/// point; with its repeat bit set, the byte after it tells for how many
/// more. The repeat bit is cleared in what is kept. A run that goes beyond
/// the last point is an error.
pub open spec fn flags_from(s: Seq<u8>, k: int, want: nat, done: Seq<u8>) -> Result<
    (Seq<u8>, int),
    Error,
>
    recommends
        0 <= k,
        want <= usize::MAX,
    decreases
            (if done.len() < want {
                want - done.len()
            } else {
                0
            }),
{
    if done.len() == want {
        Ok((done, k))
    } else if done.len() > want {
        Err(
            Error::Parsing {
                variable: "glyf::flags",
                expected: ValidType::_USize(want as usize),
                parsed: ValidType::_USize(done.len() as usize),
            },
        )
    } else if s.len() < k + 1 {
        Err(short(s, k + 1))
    } else if s[k] & Flags::REPEAT == 0 {
        flags_from(s, k + 1, want, done.push(s[k] & !Flags::REPEAT))
    } else if s.len() < k + 2 {
        Err(short(s, k + 2))
    } else {
        let run = Seq::new((s[k + 1] + 1) as nat, |i: int| s[k] & !Flags::REPEAT);
        proof {
            assert((done + run).len() == done.len() + run.len());
        }
        flags_from(s, k + 2, want, done + run)
    }
}

/// How many bytes the delta of a point with flag `flag` takes, along the
/// axis whose bits are `short_bit` and `same_bit`.
pub open spec fn delta_width(flag: u8, short_bit: u8, same_bit: u8) -> int {
    if flag & short_bit != 0 {
        1
    } else if flag & same_bit != 0 {
        0
    } else {
        2
    }
}

/// The delta, read at offset `k` of `s`, of a point with flag `flag`: one
/// byte with its sign in the flag, a signed 16-bit number, or nothing where
/// the coordinate is that of the point before.
pub open spec fn delta_at(s: Seq<u8>, k: int, flag: u8, short_bit: u8, same_bit: u8) -> i16 {
    if flag & short_bit != 0 {
        if flag & same_bit != 0 {
            s[k] as i16
        } else {
            (-(s[k] as int)) as i16
        }
    } else if flag & same_bit != 0 {
        0
    } else {
        be_i16(s, k)
    }
}

/// The coordinates of the points with the flags `flags` along one axis,
/// read from offset `k` of `s` on and added to `done`, with the offset that
/// follows them. Each is the one before it plus its delta, the first one
/// its delta; a sum wraps around at the ends of `i16`.
pub open spec fn coords_from(
    s: Seq<u8>,
    k: int,
    flags: Seq<u8>,
    short_bit: u8,
    same_bit: u8,
    done: Seq<i16>,
) -> Result<(Seq<i16>, int), Error>
    decreases flags.len() - done.len(),
{
    let i = done.len() as int;
    if i >= flags.len() {
        Ok((done, k))
    } else if s.len() < k + delta_width(flags[i], short_bit, same_bit) {
        Err(short(s, k + delta_width(flags[i], short_bit, same_bit)))
    } else {
        let last: i16 = if i == 0 {
            0
        } else {
            done[i - 1]
        };
        coords_from(
            s,
            k + delta_width(flags[i], short_bit, same_bit),
            flags,
            short_bit,
            same_bit,
            done.push(last.wrapping_add(delta_at(s, k, flags[i], short_bit, same_bit))),
        )
    }
}

/// The points that flags and coordinates make up.
pub open spec fn points_of(flags: Seq<u8>, xs: Seq<i16>, ys: Seq<i16>) -> Seq<(i16, i16, bool)> {
    Seq::new(flags.len(), |i: int| (xs[i], ys[i], flags[i] & Flags::ON_CURVE != 0))
}

/// The glyph that starts at offset `k` of `s`, with the offset at which its
/// decoding ends. `first` is the first glyph of the table, if this is not
/// it.
pub open spec fn glyph_at(s: Seq<u8>, k: int, first: Option<GlyphView>) -> Result<
    (GlyphView, int),
    Error,
> {
    let contours = be_i16(s, k) as int;
    let x_bounds = (be_i16(s, k + 2), be_i16(s, k + 6));
    let y_bounds = (be_i16(s, k + 4), be_i16(s, k + 8));
    let ends = Seq::new(contours as nat, |i: int| be_u16(s, k + 10 + 2 * i));
    let instructions = be_u16(s, k + 10 + 2 * contours) as int;
    let body = k + 12 + 2 * contours + instructions;
    if s.len() < k + 10 {
        Err(short_in_run(s, k, 2))
    } else if contours < 0 {
        Ok((stand_in(first), k + 10))
    } else if contours == 0 {
        Ok((GlyphView { x_bounds, y_bounds, ..empty_glyph() }, k + 10))
    } else if s.len() < k + 12 + 2 * contours {
        Err(short_in_run(s, k + 10, 2))
    } else if s.len() < body {
        Err(short(s, body))
    } else {
        match flags_from(s, body, (ends[contours - 1] + 1) as nat, Seq::empty()) {
            Err(e) => Err(e),
            Ok((flags, after_flags)) => match coords_from(
                s,
                after_flags,
                flags,
                Flags::X_SHORT,
                Flags::X_SIGN_SKIP,
                Seq::empty(),
            ) {
                Err(e) => Err(e),
                Ok((xs, after_xs)) => match coords_from(
                    s,
                    after_xs,
                    flags,
                    Flags::Y_SHORT,
                    Flags::Y_SIGN_SKIP,
                    Seq::empty(),
                ) {
                    Err(e) => Err(e),
                    Ok((ys, end)) => Ok(
                        (
                            GlyphView {
                                num_contours: contours as i16,
                                x_bounds,
                                y_bounds,
                                end_pts: ends,
                                points: points_of(flags, xs, ys),
                                composite: false,
                            },
                            end,
                        ),
                    ),
                },
            },
        }
    }
}

/// The glyphs from number `done.len()` on, added to `done`, where `k` is
/// the offset in `s` that decoding has reached; with them the offset that
/// decoding ends at. `loca` gives the offset at which each glyph starts; a
/// glyph that ends where it starts is empty and nothing is read for it.
pub open spec fn glyphs_from(loca: Seq<u32>, s: Seq<u8>, k: int, done: Seq<GlyphView>) -> Result<
    (Seq<GlyphView>, int),
    Error,
>
    decreases loca.len() - done.len(),
{
    let i = done.len() as int;
    if i + 1 >= loca.len() {
        Ok((done, k))
    } else if loca[i + 1] == loca[i] {
        glyphs_from(loca, s, k, done.push(empty_glyph()))
    } else if loca[i] < k {
        Err(
            Error::Parsing {
                variable: "glyf",
                expected: ValidType::U32(loca[i]),
                parsed: ValidType::_USize(k as usize),
            },
        )
    } else if s.len() < loca[i] {
        Err(Error::UnexpectedEop { location: "glyf", needed: (loca[i] - s.len()) as usize })
    } else {
        match glyph_at(
            s,
            loca[i] as int,
            if i == 0 {
                None
            } else {
                Some(done[0])
            },
        ) {
            Err(e) => Err(e),
            Ok((glyph, end)) => glyphs_from(loca, s, end, done.push(glyph)),
        }
    }
}

/// What the bytes `s` hold as a `glyf` table, given the tables decoded
/// before it, of which `loca` tells where the glyphs are.
pub open spec fn decode(prev: Seq<TableView>, s: Seq<u8>) -> Result<Seq<GlyphView>, Error> {
    match loca_of(prev) {
        None => Err(Error::MissingTable { missing: "loca", parsing: "glyf" }),
        Some(loca) => match glyphs_from(loca, s, 0, Seq::empty()) {
            Ok((glyphs, _)) => Ok(glyphs),
            Err(e) => Err(e),
        },
    }
}

/// How many of the bytes `s` the decoding of a `glyf` table takes: up to
/// the end of the last glyph that is not empty, and none where all glyphs
/// are empty.
pub open spec fn extent(prev: Seq<TableView>, s: Seq<u8>) -> int {
    match loca_of(prev) {
        Some(loca) => match glyphs_from(loca, s, 0, Seq::empty()) {
            Ok((_, end)) => end,
            Err(_) => 0,
        },
        None => 0,
    }
}

/// A flag byte with its repeat bit set and the count `n` after it stand for
/// `n + 1` points, all of them with that flag, its repeat bit cleared.
pub proof fn lemma_repeat_expands(s: Seq<u8>, k: int)
    requires
        0 <= k,
        k + 2 <= s.len(),
        s[k] & Flags::REPEAT != 0,
    ensures
        flags_from(s, k, (s[k + 1] + 1) as nat, Seq::empty()) == Ok::<(Seq<u8>, int), Error>(
            (Seq::new((s[k + 1] + 1) as nat, |i: int| s[k] & !Flags::REPEAT), k + 2),
        ),
{
    let want = (s[k + 1] + 1) as nat;
    let run = Seq::new(want, |i: int| s[k] & !Flags::REPEAT);
    assert(Seq::<u8>::empty() + run =~= run);
    assert(flags_from(s, k + 2, want, run) == Ok::<(Seq<u8>, int), Error>((run, k + 2)));
}

/// A run of flags that is accepted holds as many flags as there are
/// points.
proof fn lemma_flags_len(s: Seq<u8>, k: int, want: nat, done: Seq<u8>)
    requires
        done.len() <= want,
    ensures
        flags_from(s, k, want, done) matches Ok((flags, _)) ==> flags.len() == want,
    decreases want - done.len(),
{
    if done.len() < want && s.len() >= k + 1 {
        if s[k] & Flags::REPEAT == 0 {
            lemma_flags_len(s, k + 1, want, done.push(s[k] & !Flags::REPEAT));
        } else if s.len() >= k + 2 {
            let run = Seq::new((s[k + 1] + 1) as nat, |i: int| s[k] & !Flags::REPEAT);
            if (done + run).len() <= want {
                lemma_flags_len(s, k + 2, want, done + run);
            }
        }
    }
}

/// A glyph has no negative number of contours, an end point for each of
/// them, and as many points as the last end point tells: one more than its
/// index, or none where there is no contour.
pub open spec fn shaped(glyph: GlyphView) -> bool {
    &&& glyph.num_contours >= 0
    &&& glyph.end_pts.len() == glyph.num_contours
    &&& glyph.points.len() == if glyph.end_pts.len() == 0 {
        0
    } else {
        glyph.end_pts.last() + 1
    }
}

/// A glyph that is decoded has the shape of a glyph, if the glyph that may
/// stand in for it has.
proof fn lemma_glyph_shaped(s: Seq<u8>, k: int, first: Option<GlyphView>)
    requires
        first matches Some(glyph) ==> shaped(glyph),
    ensures
        glyph_at(s, k, first) matches Ok((glyph, _)) ==> shaped(glyph),
{
    let contours = be_i16(s, k) as int;
    if contours > 0 {
        let ends = Seq::new(contours as nat, |i: int| be_u16(s, k + 10 + 2 * i));
        let body = k + 12 + 2 * contours + be_u16(s, k + 10 + 2 * contours);
        let want = (ends[contours - 1] + 1) as nat;
        lemma_flags_len(s, body, want, Seq::empty());
        if let Ok((flags, after_flags)) = flags_from(s, body, want, Seq::empty()) {
            lemma_coords_len(s, after_flags, flags, Flags::X_SHORT, Flags::X_SIGN_SKIP, Seq::empty());
        }
    }
}

proof fn lemma_glyphs_shaped(loca: Seq<u32>, s: Seq<u8>, k: int, done: Seq<GlyphView>)
    requires
        loca.len() >= 1,
        done.len() <= loca.len() - 1,
        forall|i: int| 0 <= i < done.len() ==> shaped(#[trigger] done[i]),
    ensures
        glyphs_from(loca, s, k, done) matches Ok((glyphs, _)) ==> glyphs.len() == loca.len() - 1
            && forall|i: int| 0 <= i < glyphs.len() ==> shaped(#[trigger] glyphs[i]),
    decreases loca.len() - done.len(),
{
    let i = done.len() as int;
    if i + 1 < loca.len() {
        if loca[i + 1] == loca[i] {
            lemma_glyphs_shaped(loca, s, k, done.push(empty_glyph()));
        } else if loca[i] >= k && s.len() >= loca[i] {
            let first = if i == 0 {
                None
            } else {
                Some(done[0])
            };
            lemma_glyph_shaped(s, loca[i] as int, first);
            if let Ok((glyph, end)) = glyph_at(s, loca[i] as int, first) {
                lemma_glyphs_shaped(loca, s, end, done.push(glyph));
            }
        }
    }
}

/// A table that is accepted holds one glyph for each glyph that `loca`
/// knows of, each with the shape of a glyph.
pub proof fn lemma_glyph_per_index(prev: Seq<TableView>, s: Seq<u8>)
    requires
        loca_of(prev) matches Some(loca) ==> loca.len() >= 1,
    ensures
        decode(prev, s) matches Ok(glyphs) ==> glyphs.len() == loca_of(prev)->Some_0.len() - 1
            && forall|i: int| 0 <= i < glyphs.len() ==> shaped(#[trigger] glyphs[i]),
{
    if let Some(loca) = loca_of(prev) {
        lemma_glyphs_shaped(loca, s, 0, Seq::empty());
    }
}

proof fn lemma_empty_glyphs_from(loca: Seq<u32>, s: Seq<u8>, k: int, done: Seq<GlyphView>)
    requires
        loca.len() >= 1,
        done.len() <= loca.len() - 1,
        forall|i: int| 0 <= i < loca.len() - 1 ==> loca[i] == #[trigger] loca[i + 1],
    ensures
        glyphs_from(loca, s, k, done) == Ok::<(Seq<GlyphView>, int), Error>(
            (
                done + Seq::new((loca.len() - 1 - done.len()) as nat, |i: int| empty_glyph()),
                k,
            ),
        ),
    decreases loca.len() - done.len(),
{
    let i = done.len() as int;
    let rest = Seq::new((loca.len() - 1 - done.len()) as nat, |i: int| empty_glyph());
    if i + 1 < loca.len() {
        assert(loca[i] == loca[i + 1]);
        lemma_empty_glyphs_from(loca, s, k, done.push(empty_glyph()));
        assert(done.push(empty_glyph()) + Seq::new(
            (loca.len() - 2 - done.len()) as nat,
            |i: int| empty_glyph(),
        ) =~= done + rest);
    } else {
        assert(done + rest =~= done);
    }
}

/// Where `loca` gives every glyph the length zero, the table holds as many
/// empty glyphs as `loca` knows of, whatever the bytes are, and none of the
/// bytes is taken.
pub proof fn lemma_empty_glyphs_take_nothing(prev: Seq<TableView>, s: Seq<u8>)
    requires
        loca_of(prev) matches Some(loca) && loca.len() >= 1 && forall|i: int|
            0 <= i < loca.len() - 1 ==> loca[i] == #[trigger] loca[i + 1],
    ensures
        decode(prev, s) == Ok::<Seq<GlyphView>, Error>(
            Seq::new((loca_of(prev)->Some_0.len() - 1) as nat, |i: int| empty_glyph()),
        ),
        extent(prev, s) == 0,
{
    let loca = loca_of(prev)->Some_0;
    lemma_empty_glyphs_from(loca, s, 0, Seq::empty());
    assert(Seq::<GlyphView>::empty() + Seq::new((loca.len() - 1) as nat, |i: int| empty_glyph())
        =~= Seq::new((loca.len() - 1) as nat, |i: int| empty_glyph()));
}

/// The glyph that `first` points at, as plain values.
pub open spec fn view_of(first: Option<&Glyph>) -> Option<GlyphView> {
    match first {
        Some(g) => Some(g@),
        None => None,
    }
}

/// Reads the flags of `want` points.
#[verifier::loop_isolation(false)]
pub(crate) fn read_flags<R: CoreRead>(
    reader: &mut R,
    want: usize,
    Ghost(origin): Ghost<&R>,
    Ghost(k): Ghost<int>,
) -> (r: Result<Vec<u8>, Error>)
    requires
        follows(origin, old(reader), k),
    ensures
        match r {
            Ok(flags) => flags_from(pending(origin), k, want as nat, Seq::empty()) matches Ok(
                (f, end),
            ) && f == flags@ && follows(origin, final(reader), end),
            Err(e) => flags_from(pending(origin), k, want as nat, Seq::empty()) == Err::<
                (Seq<u8>, int),
                Error,
            >(e),
        },
        moved(origin, final(reader)),
{
    let ghost s = pending(origin);
    let mut flags: Vec<u8> = Vec::new();
    let ghost mut at: int = k;
    while flags.len() < want
        invariant
            follows(origin, reader, at),
            flags_from(s, k, want as nat, Seq::empty()) == flags_from(s, at, want as nat, flags@),
        decreases
                (if flags@.len() < want {
                    want - flags@.len()
                } else {
                    0
                }),
    {
        let flag: u8 = take_u8(reader, Ghost(origin), Ghost(at))?;
        let mut repeat: u16 = 1;
        let ghost before = flags@;
        let ghost here = at;
        if flag & Flags::REPEAT != 0 {
            let more: u8 = take_u8(reader, Ghost(origin), Ghost(at + 1))?;
            repeat = repeat + more as u16;
            proof {
                at = at + 2;
            }
        } else {
            proof {
                at = at + 1;
            }
        }
        let mut j: u16 = 0;
        while j < repeat
            invariant
                j <= repeat,
                flags@ == before + Seq::new(j as nat, |i: int| flag & !Flags::REPEAT),
            decreases repeat - j,
        {
            flags.push(flag & !Flags::REPEAT);
            j = j + 1;
            assert(flags@ =~= before + Seq::new(j as nat, |i: int| flag & !Flags::REPEAT));
        }
        proof {
            if flag & Flags::REPEAT == 0 {
                assert(flags@ =~= before.push(flag & !Flags::REPEAT));
            }
            assert(flags_from(s, here, want as nat, before) == flags_from(
                s,
                at,
                want as nat,
                flags@,
            ));
        }
    }
    if flags.len() > want {
        return Err(
            Error::Parsing {
                variable: "glyf::flags",
                expected: ValidType::_USize(want),
                parsed: ValidType::_USize(flags.len()),
            },
        );
    }
    Ok(flags)
}

/// Reads the coordinates, along one axis, of the points with the flags
/// `flags`.
#[verifier::loop_isolation(false)]
pub(crate) fn read_coords<R: CoreRead>(
    reader: &mut R,
    flags: &Vec<u8>,
    short_bit: u8,
    same_bit: u8,
    Ghost(origin): Ghost<&R>,
    Ghost(k): Ghost<int>,
) -> (r: Result<Vec<i16>, Error>)
    requires
        follows(origin, old(reader), k),
    ensures
        match r {
            Ok(coords) => coords_from(
                pending(origin),
                k,
                flags@,
                short_bit,
                same_bit,
                Seq::empty(),
            ) matches Ok((c, end)) && c == coords@ && follows(origin, final(reader), end),
            Err(e) => coords_from(pending(origin), k, flags@, short_bit, same_bit, Seq::empty())
                == Err::<(Seq<i16>, int), Error>(e),
        },
        moved(origin, final(reader)),
{
    let ghost s = pending(origin);
    let mut coords: Vec<i16> = Vec::with_capacity(flags.len());
    let mut last: i16 = 0;
    let ghost mut at: int = k;
    while coords.len() < flags.len()
        invariant
            follows(origin, reader, at),
            coords@.len() <= flags@.len(),
            coords@.len() > 0 ==> last == coords@[coords@.len() - 1],
            coords@.len() == 0 ==> last == 0,
            coords_from(s, k, flags@, short_bit, same_bit, Seq::empty()) == coords_from(
                s,
                at,
                flags@,
                short_bit,
                same_bit,
                coords@,
            ),
        decreases flags@.len() - coords@.len(),
    {
        let flag: u8 = flags[coords.len()];
        let delta: i16 = if flag & short_bit != 0 {
            let byte: u8 = take_u8(reader, Ghost(origin), Ghost(at))?;
            if flag & same_bit != 0 {
                byte as i16
            } else {
                -(byte as i16)
            }
        } else if flag & same_bit != 0 {
            0
        } else {
            take_i16(reader, Ghost(origin), Ghost(at))?
        };
        proof {
            at = at + delta_width(flag, short_bit, same_bit);
        }
        last = last.wrapping_add(delta);
        coords.push(last);
    }
    Ok(coords)
}

impl Glyph {
    /// A copy of the glyph, marked as standing in for a composite glyph or
    /// not.
    #[verifier::loop_isolation(false)]
    fn copy(&self, composite: bool) -> (g: Glyph)
        ensures
            g@ == (GlyphView { composite, ..self@ }),
    {
        let mut end_pts: Vec<u16> = Vec::with_capacity(self.end_pts.len());
        while end_pts.len() < self.end_pts.len()
            invariant
                end_pts@.len() <= self.end_pts@.len(),
                end_pts@ == self.end_pts@.take(end_pts@.len() as int),
            decreases self.end_pts@.len() - end_pts@.len(),
        {
            end_pts.push(self.end_pts[end_pts.len()]);
            assert(end_pts@ =~= self.end_pts@.take(end_pts@.len() as int));
        }
        let mut points: Vec<(i16, i16, bool)> = Vec::with_capacity(self.points.len());
        while points.len() < self.points.len()
            invariant
                points@.len() <= self.points@.len(),
                points@ == self.points@.take(points@.len() as int),
            decreases self.points@.len() - points@.len(),
        {
            points.push(self.points[points.len()]);
            assert(points@ =~= self.points@.take(points@.len() as int));
        }
        assert(end_pts@ =~= self.end_pts@);
        assert(points@ =~= self.points@);
        Glyph {
            num_contours: self.num_contours,
            x_bounds: self.x_bounds,
            y_bounds: self.y_bounds,
            end_pts,
            points,
            composite,
        }
    }
}

impl Clone for Glyph {
    fn clone(&self) -> (g: Glyph)
        ensures
            g@ == self@,
    {
        self.copy(self.composite)
    }
}

/// A copy of `first`, or the glyph without an outline, marked as standing
/// in for a composite glyph.
fn substitute(first: Option<&Glyph>) -> (g: Glyph)
    ensures
        g@ == stand_in(view_of(first)),
{
    match first {
        None => Glyph {
            num_contours: 0,
            x_bounds: (0, 0),
            y_bounds: (0, 0),
            end_pts: Vec::new(),
            points: Vec::new(),
            composite: true,
        },
        Some(glyph) => glyph.copy(true),
    }
}

/// Reads one glyph. `first` is the first glyph of the table, if this is
/// not it.
#[verifier::loop_isolation(false)]
pub(crate) fn read_glyph<R: CoreRead>(
    reader: &mut R,
    first: Option<&Glyph>,
    Ghost(origin): Ghost<&R>,
    Ghost(k): Ghost<int>,
) -> (r: Result<Glyph, Error>)
    requires
        follows(origin, old(reader), k),
    ensures
        match r {
            Ok(glyph) => glyph_at(pending(origin), k, view_of(first)) matches Ok((g, end)) && g
                == glyph@ && follows(origin, final(reader), end),
            Err(e) => glyph_at(pending(origin), k, view_of(first)) == Err::<(GlyphView, int), Error>(
                e,
            ),
        },
        moved(origin, final(reader)),
{
    let ghost s = pending(origin);
    let num_contours: i16 = take_i16(reader, Ghost(origin), Ghost(k))?;
    let x_min: i16 = take_i16(reader, Ghost(origin), Ghost(k + 2))?;
    let y_min: i16 = take_i16(reader, Ghost(origin), Ghost(k + 4))?;
    let x_max: i16 = take_i16(reader, Ghost(origin), Ghost(k + 6))?;
    let y_max: i16 = take_i16(reader, Ghost(origin), Ghost(k + 8))?;
    if num_contours < 0 {
        return Ok(substitute(first));
    }
    if num_contours == 0 {
        return Ok(
            Glyph {
                num_contours: 0,
                x_bounds: (x_min, x_max),
                y_bounds: (y_min, y_max),
                end_pts: Vec::new(),
                points: Vec::new(),
                composite: false,
            },
        );
    }
    let contours: usize = num_contours as usize;
    let mut end_pts: Vec<u16> = Vec::with_capacity(contours);
    while end_pts.len() < contours
        invariant
            end_pts@.len() <= contours,
            follows(origin, reader, k + 10 + 2 * end_pts@.len()),
            end_pts@ == Seq::new(end_pts@.len(), |i: int| be_u16(s, k + 10 + 2 * i)),
        decreases contours - end_pts@.len(),
    {
        let end: u16 = take_u16(reader, Ghost(origin), Ghost(k + 10 + 2 * end_pts@.len()))?;
        end_pts.push(end);
        assert(end_pts@ =~= Seq::new(end_pts@.len(), |i: int| be_u16(s, k + 10 + 2 * i)));
    }
    let num_instructions: u16 = take_u16(reader, Ghost(origin), Ghost(k + 10 + 2 * contours))?;
    take_skip(reader, num_instructions as usize, Ghost(origin), Ghost(k + 12 + 2 * contours))?;
    let ghost body = k + 12 + 2 * contours + num_instructions;
    let num_points: usize = end_pts[contours - 1] as usize + 1;
    let flags = read_flags(reader, num_points, Ghost(origin), Ghost(body))?;
    let ghost after_flags = flags_from(s, body, num_points as nat, Seq::empty())->Ok_0.1;
    let xs = read_coords(
        reader,
        &flags,
        Flags::X_SHORT,
        Flags::X_SIGN_SKIP,
        Ghost(origin),
        Ghost(after_flags),
    )?;
    let ghost after_xs = coords_from(
        s,
        after_flags,
        flags@,
        Flags::X_SHORT,
        Flags::X_SIGN_SKIP,
        Seq::empty(),
    )->Ok_0.1;
    let ys = read_coords(
        reader,
        &flags,
        Flags::Y_SHORT,
        Flags::Y_SIGN_SKIP,
        Ghost(origin),
        Ghost(after_xs),
    )?;
    proof {
        lemma_coords_len(s, after_flags, flags@, Flags::X_SHORT, Flags::X_SIGN_SKIP, Seq::empty());
        lemma_coords_len(s, after_xs, flags@, Flags::Y_SHORT, Flags::Y_SIGN_SKIP, Seq::empty());
    }
    let mut points: Vec<(i16, i16, bool)> = Vec::with_capacity(flags.len());
    while points.len() < flags.len()
        invariant
            points@.len() <= flags@.len(),
            xs@.len() == flags@.len(),
            ys@.len() == flags@.len(),
            points@ == Seq::new(
                points@.len(),
                |i: int| (xs@[i], ys@[i], flags@[i] & Flags::ON_CURVE != 0),
            ),
        decreases flags@.len() - points@.len(),
    {
        let i: usize = points.len();
        points.push((xs[i], ys[i], flags[i] & Flags::ON_CURVE != 0));
        assert(points@ =~= Seq::new(
            points@.len(),
            |i: int| (xs@[i], ys@[i], flags@[i] & Flags::ON_CURVE != 0),
        ));
    }
    assert(points@ =~= points_of(flags@, xs@, ys@));
    Ok(
        Glyph {
            num_contours,
            x_bounds: (x_min, x_max),
            y_bounds: (y_min, y_max),
            end_pts,
            points,
            composite: false,
        },
    )
}

/// There are as many coordinates as flags.
proof fn lemma_coords_len(
    s: Seq<u8>,
    k: int,
    flags: Seq<u8>,
    short_bit: u8,
    same_bit: u8,
    done: Seq<i16>,
)
    requires
        done.len() <= flags.len(),
    ensures
        coords_from(s, k, flags, short_bit, same_bit, done) matches Ok((coords, _)) ==> coords.len()
            == flags.len(),
    decreases flags.len() - done.len(),
{
    let i = done.len() as int;
    if i < flags.len() && s.len() >= k + delta_width(flags[i], short_bit, same_bit) {
        let last: i16 = if i == 0 {
            0
        } else {
            done[i - 1]
        };
        lemma_coords_len(
            s,
            k + delta_width(flags[i], short_bit, same_bit),
            flags,
            short_bit,
            same_bit,
            done.push(last.wrapping_add(delta_at(s, k, flags[i], short_bit, same_bit))),
        );
    }
}

/// Decodes a `glyf` table from the bytes that `reader` delivers next. It
/// needs `loca` among the tables decoded before it.
#[verifier::loop_isolation(false)]
pub fn parse_table<R: CoreRead>(prev_tables: &[Table], reader: &mut R) -> (r: Result<
    Vec<Glyph>,
    Error,
>)
    requires
        old(reader).wf(),
    ensures
        match r {
            Ok(glyphs) => decode(crate::tables::views(prev_tables@), pending(old(reader)))
                == Ok::<Seq<GlyphView>, Error>(views(glyphs@)) && final(reader).pos() == old(
                reader,
            ).pos() + extent(crate::tables::views(prev_tables@), pending(old(reader))),
            Err(e) => decode(crate::tables::views(prev_tables@), pending(old(reader))) == Err::<
                Seq<GlyphView>,
                Error,
            >(e),
        },
        moved(old(reader), final(reader)),
{
    let ghost origin = *reader;
    proof {
        lemma_follows_start(&origin);
    }
    let ghost s = pending(&origin);
    let loca = match first_loca(prev_tables) {
        Some(loca) => loca,
        None => {
            return Err(Error::MissingTable { missing: "loca", parsing: "glyf" });
        },
    };
    let count: usize = loca.len();
    let start: usize = reader.total_read();
    let mut glyphs: Vec<Glyph> = Vec::with_capacity(count);
    let ghost mut at: int = 0;
    assert(views(glyphs@) =~= Seq::empty());
    while glyphs.len() < count
        invariant
            glyphs@.len() <= count,
            follows(&origin, reader, at),
            glyphs_from(loca@, s, 0, Seq::empty()) == glyphs_from(loca@, s, at, views(glyphs@)),
        decreases count - glyphs@.len(),
    {
        let idx: usize = glyphs.len();
        let ghost before = views(glyphs@);
        let (offset, len) = loca.index(idx);
        if len == 0 {
            glyphs.push(
                Glyph {
                    num_contours: 0,
                    x_bounds: (0, 0),
                    y_bounds: (0, 0),
                    end_pts: Vec::new(),
                    points: Vec::new(),
                    composite: false,
                },
            );
            assert(views(glyphs@) =~= before.push(empty_glyph()));
        } else {
            let here: usize = reader.total_read() - start;
            if (offset as usize) < here {
                return Err(
                    Error::Parsing {
                        variable: "glyf",
                        expected: ValidType::U32(offset),
                        parsed: ValidType::_USize(here),
                    },
                );
            }
            match take_skip(reader, offset as usize - here, Ghost(&origin), Ghost(at)) {
                Ok(_) => {},
                Err(Error::Io(CoreReadError::UnexpectedEnd(needed))) => {
                    return Err(Error::UnexpectedEop { location: "glyf", needed });
                },
                Err(e) => {
                    return Err(e);
                },
            }
            let first: Option<&Glyph> = if idx == 0 {
                None
            } else {
                Some(&glyphs[0])
            };
            assert(idx > 0 ==> before[0] == glyphs@[0]@);
            let glyph = read_glyph(reader, first, Ghost(&origin), Ghost(offset as int))?;
            proof {
                at = glyph_at(s, offset as int, view_of(first))->Ok_0.1;
            }
            let ghost shape = glyph@;
            glyphs.push(glyph);
            assert(views(glyphs@) =~= before.push(shape));
        }
    }
    Ok(glyphs)
}

} // verus!
