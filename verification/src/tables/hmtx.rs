//! `hmtx`: the horizontal metrics of the glyphs.

use vstd::prelude::*;

use crate::tables::{first_hhea, first_maxp, hhea_of, maxp_of, Table, TableView};
use crate::types::cursor::{
    follows, lemma_follows_start, moved, pending, short, short_in_run, take_i16, take_u16,
};
use crate::types::io::{be_i16, be_u16, CoreRead};
use crate::types::{Error, ValidType};

verus! {

pub type ParsedType = Vec<Type>;

/// The horizontal metrics of one glyph.
#[derive(Debug, Clone, Copy, PartialEq, Eq)]
pub struct Type {
    pub advance: u16,
    pub left_side_bearing: i16,
}

/// The metrics from glyph `done.len()` on, added to `done`. The first
/// `explicit` glyphs each have an advance width and a left side bearing in
/// the table; each glyph after them has a left side bearing there, and the
/// advance width of the last glyph that has its own.
pub open spec fn metrics_from(s: Seq<u8>, explicit: nat, glyphs: nat, done: Seq<Type>) -> Result<
    Seq<Type>,
    Error,
>
    recommends
        0 < explicit <= glyphs,
    decreases glyphs - done.len(),
{
    let i = done.len() as int;
    if i >= glyphs {
        Ok(done)
    } else if i < explicit {
        if s.len() < 4 * i + 4 {
            Err(short_in_run(s, 4 * i, 2))
        } else {
            metrics_from(
                s,
                explicit,
                glyphs,
                done.push(Type { advance: be_u16(s, 4 * i), left_side_bearing: be_i16(s, 4 * i + 2) }),
            )
        }
    } else if s.len() < 2 * explicit + 2 * i + 2 {
        Err(short(s, 2 * explicit + 2 * i + 2))
    } else {
        metrics_from(
            s,
            explicit,
            glyphs,
            done.push(
                Type {
                    advance: done[explicit - 1].advance,
                    left_side_bearing: be_i16(s, 2 * explicit + 2 * i),
                },
            ),
        )
    }
}

/// What the bytes `s` hold as an `hmtx` table, given the tables decoded
/// before it: `maxp` says how many glyphs there are, `hhea` how many of them
/// have an advance width of their own, which is one at least and no more
/// than there are glyphs.
pub open spec fn decode(prev: Seq<TableView>, s: Seq<u8>) -> Result<Seq<Type>, Error> {
    if maxp_of(prev) is None {
        Err(Error::MissingTable { missing: "maxp", parsing: "hmtx" })
    } else if hhea_of(prev) is None {
        Err(Error::MissingTable { missing: "hhea", parsing: "hmtx" })
    } else {
        let glyphs = maxp_of(prev).unwrap().glyphs();
        let explicit = hhea_of(prev).unwrap().num_hmetric;
        if explicit == 0 {
            Err(
                Error::Parsing {
                    variable: "hhea::numberOfHMetrics",
                    expected: ValidType::U16(1),
                    parsed: ValidType::U16(0),
                },
            )
        } else if explicit > glyphs {
            Err(
                Error::Parsing {
                    variable: "hhea::numberOfHMetrics",
                    expected: ValidType::U16(glyphs),
                    parsed: ValidType::U16(explicit),
                },
            )
        } else {
            metrics_from(s, explicit as nat, glyphs as nat, Seq::empty())
        }
    }
}

/// The metrics of glyph `i`, given those of the glyphs before it: its own
/// advance width and left side bearing where it is one of the first
/// `explicit` glyphs, else its own left side bearing and the advance width
/// of the last of those.
pub open spec fn metric_at(s: Seq<u8>, explicit: nat, before: Seq<Type>, i: int) -> Type {
    if i < explicit {
        Type { advance: be_u16(s, 4 * i), left_side_bearing: be_i16(s, 4 * i + 2) }
    } else {
        Type {
            advance: before[explicit - 1].advance,
            left_side_bearing: be_i16(s, 2 * explicit + 2 * i),
        }
    }
}

proof fn lemma_one_per_glyph(s: Seq<u8>, explicit: nat, glyphs: nat, done: Seq<Type>)
    requires
        0 < explicit <= glyphs,
        done.len() <= glyphs,
        done.len() <= explicit ==> s.len() >= 4 * done.len(),
        done.len() > explicit ==> s.len() >= 2 * explicit + 2 * done.len(),
        forall|i: int| 0 <= i < done.len() ==> #[trigger] done[i] == metric_at(s, explicit, done, i),
    ensures
        metrics_from(s, explicit, glyphs, done) matches Ok(metrics) ==> metrics.len() == glyphs
            && s.len() >= 2 * explicit + 2 * glyphs && forall|i: int|
            0 <= i < glyphs ==> #[trigger] metrics[i] == metric_at(s, explicit, metrics, i),
    decreases glyphs - done.len(),
{
    let i = done.len() as int;
    if i < glyphs {
        if (i < explicit && s.len() >= 4 * i + 4) || (i >= explicit && s.len() >= 2 * explicit + 2
            * i + 2) {
            let next = done.push(metric_at(s, explicit, done, i));
            assert forall|j: int| 0 <= j < next.len() implies #[trigger] next[j] == metric_at(
                s,
                explicit,
                next,
                j,
            ) by {
                if j < i {
                    assert(done[j] == metric_at(s, explicit, done, j));
                }
            }
            lemma_one_per_glyph(s, explicit, glyphs, next);
        }
    }
}

/// How many bytes an `hmtx` table takes: four for each glyph with an
/// advance width of its own, two for each other glyph.
pub open spec fn extent(prev: Seq<TableView>) -> int {
    if maxp_of(prev) is Some && hhea_of(prev) is Some {
        2 * hhea_of(prev)->Some_0.num_hmetric + 2 * maxp_of(prev)->Some_0.glyphs()
    } else {
        0
    }
}

/// A table that is accepted holds the metrics of each glyph, each read
/// from its place in the table, and from the last glyph with an advance
/// width of its own on they all have that width.
pub proof fn lemma_metric_per_glyph(prev: Seq<TableView>, s: Seq<u8>)
    ensures
        decode(prev, s) matches Ok(metrics) ==> {
            &&& metrics.len() == maxp_of(prev)->Some_0.glyphs()
            &&& forall|i: int|
                0 <= i < metrics.len() ==> #[trigger] metrics[i] == metric_at(
                    s,
                    hhea_of(prev)->Some_0.num_hmetric as nat,
                    metrics,
                    i,
                )
        },
{
    if decode(prev, s) is Ok {
        lemma_one_per_glyph(
            s,
            hhea_of(prev)->Some_0.num_hmetric as nat,
            maxp_of(prev)->Some_0.glyphs() as nat,
            Seq::empty(),
        );
    }
}

/// Decodes an `hmtx` table from the bytes that `reader` delivers next. It
/// needs `maxp` and `hhea` among the tables decoded before it.
#[verifier::loop_isolation(false)]
pub fn parse_table<R: CoreRead>(prev_tables: &[Table], reader: &mut R) -> (r: Result<
    Vec<Type>,
    Error,
>)
    requires
        old(reader).wf(),
    ensures
        match r {
            Ok(metrics) => decode(crate::tables::views(prev_tables@), pending(old(reader)))
                == Ok::<Seq<Type>, Error>(metrics@) && final(reader).pos() == old(reader).pos()
                + extent(crate::tables::views(prev_tables@)),
            Err(e) => decode(crate::tables::views(prev_tables@), pending(old(reader))) == Err::<Seq<Type>, Error>(e),
        },
        moved(old(reader), final(reader)),
{
    let ghost origin = *reader;
    proof {
        lemma_follows_start(&origin);
    }
    let ghost s = pending(&origin);
    let maxp = match first_maxp(prev_tables) {
        Some(maxp) => maxp,
        None => {
            return Err(Error::MissingTable { missing: "maxp", parsing: "hmtx" });
        },
    };
    let hhea = match first_hhea(prev_tables) {
        Some(hhea) => hhea,
        None => {
            return Err(Error::MissingTable { missing: "hhea", parsing: "hmtx" });
        },
    };
    let num_glyphs: usize = maxp.num_glyphs() as usize;
    let explicit: usize = hhea.num_hmetric as usize;
    if explicit == 0 {
        return Err(
            Error::Parsing {
                variable: "hhea::numberOfHMetrics",
                expected: ValidType::U16(1),
                parsed: ValidType::U16(0),
            },
        );
    }
    if explicit > num_glyphs {
        return Err(
            Error::Parsing {
                variable: "hhea::numberOfHMetrics",
                expected: ValidType::U16(maxp.num_glyphs()),
                parsed: ValidType::U16(hhea.num_hmetric),
            },
        );
    }
    let mut metrics: Vec<Type> = Vec::with_capacity(num_glyphs);
    while metrics.len() < explicit
        invariant
            metrics@.len() <= explicit,
            follows(&origin, reader, (4 * metrics@.len()) as int),
            metrics_from(s, explicit as nat, num_glyphs as nat, Seq::empty()) == metrics_from(
                s,
                explicit as nat,
                num_glyphs as nat,
                metrics@,
            ),
        decreases explicit - metrics@.len(),
    {
        let ghost i = metrics@.len() as int;
        let advance: u16 = take_u16(reader, Ghost(&origin), Ghost(4 * i))?;
        let left_side_bearing: i16 = take_i16(reader, Ghost(&origin), Ghost(4 * i + 2))?;
        metrics.push(Type { advance, left_side_bearing });
    }
    let advance: u16 = metrics[explicit - 1].advance;
    while metrics.len() < num_glyphs
        invariant
            explicit <= metrics@.len() <= num_glyphs,
            advance == metrics@[explicit - 1].advance,
            follows(&origin, reader, 2 * explicit + 2 * metrics@.len()),
            metrics_from(s, explicit as nat, num_glyphs as nat, Seq::empty()) == metrics_from(
                s,
                explicit as nat,
                num_glyphs as nat,
                metrics@,
            ),
        decreases num_glyphs - metrics@.len(),
    {
        let ghost i = metrics@.len() as int;
        let left_side_bearing: i16 = take_i16(reader, Ghost(&origin), Ghost(2 * explicit + 2 * i))?;
        metrics.push(Type { advance, left_side_bearing });
    }
    Ok(metrics)
}

} // verus!
