//! Which participant each tile shows.
//!
//! Similarities are in billionths. A tile is a participant if its best match is
//! confident, or clearly the best by a margin: a screen share matches its own track by a
//! lot, but lower in absolute terms because its content scrolls. Graphics (a countdown, a
//! promo card) are close to several people at once and fail both tests.
use vstd::prelude::*;

use crate::geometry::Rect;
use crate::order::{lemma_order_of, lemma_sorted_by, lemma_sorted_by_all, sorted_by, sorted_positions};
use crate::tiles::lies_in;

verus! {

/// A best match from here on is confident.
pub const MATCH_FLOOR: u64 = 850_000_000;

/// Below this a tile is not considered at all.
pub const NOISE_FLOOR: u64 = 600_000_000;

/// How far a best match must beat the runner-up to be taken below `MATCH_FLOOR`.
pub const MARGIN: u64 = 150_000_000;

/// A tile assigned to a participant, with the similarity in billionths.
#[derive(Debug)]
pub struct TileScore {
    pub participant_id: String,
    pub rect: Rect,
    pub sim: u64,
}

impl Clone for TileScore {
    fn clone(&self) -> (r: Self)
        ensures
            r == *self,
    {
        TileScore {
            participant_id: self.participant_id.clone(),
            rect: self.rect,
            sim: self.sim,
        }
    }
}

/// A tile's best similarity, where it first occurs, and the highest of the others.
#[derive(Clone, Copy)]
pub struct Ranking {
    pub best: u64,
    pub index: usize,
    pub second: u64,
}

/// The ranking of the first `n` similarities.
pub open spec fn ranking(row: Seq<u64>, n: int) -> Ranking
    decreases n,
{
    if n <= 0 {
        Ranking { best: 0, index: 0, second: 0 }
    } else {
        let r = ranking(row, n - 1);
        let s = row[n - 1];
        if s > r.best {
            Ranking { best: s, index: (n - 1) as usize, second: r.best }
        } else if s > r.second {
            Ranking { second: s, ..r }
        } else {
            r
        }
    }
}

/// The best match is the highest similarity, at its first occurrence, and the runner-up
/// is the highest of all the others.
pub proof fn law_ranking(row: Seq<u64>, n: int)
    requires
        0 <= n <= row.len(),
        row.len() <= usize::MAX,
    ensures
        ({
            let r = ranking(row, n);
            &&& r.second <= r.best
            &&& r.best > 0 ==> r.index < n && row[r.index as int] == r.best
            &&& forall|k: int| 0 <= k < n ==> #[trigger] row[k] <= r.best
            &&& forall|k: int| 0 <= k < n && k < r.index ==> #[trigger] row[k] < r.best
            &&& forall|k: int| 0 <= k < n && k != r.index ==> #[trigger] row[k] <= r.second
            &&& r.second > 0 ==> exists|k: int|
                0 <= k < n && k != r.index && #[trigger] row[k] == r.second
        }),
    decreases n,
{
    if n > 0 {
        law_ranking(row, n - 1);
        let p = ranking(row, n - 1);
        let r = ranking(row, n);
        let s = row[n - 1];
        if s > p.best {
            if r.second > 0 {
                assert(row[p.index as int] == r.second);
            }
        } else if s > p.second {
            assert(row[n - 1] == r.second);
            assert(p.best > 0);
        }
    }
}

/// The tile shows the participant that it matches best.
pub open spec fn is_match(r: Ranking) -> bool {
    r.best >= MATCH_FLOOR || (r.best >= NOISE_FLOOR && r.best - r.second >= MARGIN)
}

/// A tile and the participant that it matches best.
#[derive(Clone, Copy)]
pub struct Claim {
    pub sim: u64,
    pub tile: usize,
    pub sig: usize,
}

pub open spec fn claim_of(tile: int, row: Seq<u64>) -> Claim {
    let r = ranking(row, row.len() as int);
    Claim { sim: r.best, tile: tile as usize, sig: r.index }
}

/// The claims of the first `n` tiles that are matches.
pub open spec fn claims_of(sims: Seq<Vec<u64>>, n: int) -> Seq<Claim>
    decreases n,
{
    if n <= 0 {
        Seq::empty()
    } else {
        let before = claims_of(sims, n - 1);
        let row = sims[n - 1]@;
        if is_match(ranking(row, row.len() as int)) {
            before.push(claim_of(n - 1, row))
        } else {
            before
        }
    }
}

pub open spec fn strongest_first() -> spec_fn(Claim) -> int {
    |c: Claim| -(c.sim as int)
}

/// The claim's tile or participant is already taken.
pub open spec fn is_taken(kept: Seq<Claim>, c: Claim) -> bool {
    exists|k: int|
        0 <= k < kept.len() && ((#[trigger] kept[k]).tile == c.tile || kept[k].sig == c.sig)
}

/// The claims that stand: in order, each whose tile and participant are still free.
pub open spec fn standing(claims: Seq<Claim>) -> Seq<Claim>
    decreases claims.len(),
{
    if claims.len() == 0 {
        Seq::empty()
    } else {
        let before = standing(claims.drop_last());
        if is_taken(before, claims.last()) {
            before
        } else {
            before.push(claims.last())
        }
    }
}

/// The assignment of tiles to participants, the strongest match first.
pub open spec fn assignment(sims: Seq<Vec<u64>>) -> Seq<Claim> {
    standing(sorted_by(claims_of(sims, sims.len() as int), strongest_first()))
}

/// A coordinate of a frame `from` pixels wide, on one `to` pixels wide: the nearest
/// pixel, halfway the one farther out.
pub open spec fn scaled(v: int, from: int, to: int) -> int {
    let s = (2 * v * to + from) / (2 * from);
    if s > u32::MAX {
        u32::MAX as int
    } else {
        s
    }
}

pub open spec fn at_least_one(v: int) -> int {
    if v < 1 {
        1
    } else {
        v
    }
}

/// A rectangle of a frame of one size on a frame of another.
pub open spec fn scaled_rect(r: Rect, from_w: int, from_h: int, to_w: int, to_h: int) -> Rect {
    Rect {
        x: scaled(r.x as int, from_w, to_w) as u32,
        y: scaled(r.y as int, from_h, to_h) as u32,
        w: at_least_one(scaled(r.w as int, from_w, to_w)) as u32,
        h: at_least_one(scaled(r.h as int, from_h, to_h)) as u32,
    }
}

/// The score that a standing claim becomes.
pub open spec fn is_score_of(
    t: TileScore,
    c: Claim,
    tiles: Seq<Rect>,
    ids: Seq<String>,
    from: (u32, u32),
    to: (u32, u32),
) -> bool {
    &&& t.participant_id@ == ids[c.sig as int]@
    &&& t.rect == scaled_rect(
        tiles[c.tile as int],
        from.0 as int,
        from.1 as int,
        to.0 as int,
        to.1 as int,
    )
    &&& t.sim == c.sim
}

/// No tile and no participant is assigned twice, every assigned tile has its best match,
/// and that match passes the test.
pub proof fn law_assignment(sims: Seq<Vec<u64>>)
    requires
        sims.len() <= usize::MAX,
        forall|i: int| 0 <= i < sims.len() ==> (#[trigger] sims[i])@.len() <= usize::MAX,
    ensures
        forall|i: int, j: int|
            0 <= i < j < assignment(sims).len() ==> (#[trigger] assignment(sims)[i]).tile != (
            #[trigger] assignment(sims)[j]).tile && assignment(sims)[i].sig
                != assignment(sims)[j].sig,
        forall|i: int|
            0 <= i < assignment(sims).len() ==> is_claim(sims)(#[trigger] assignment(sims)[i]),
        forall|i: int, j: int|
            0 <= i <= j < assignment(sims).len() ==> (#[trigger] assignment(sims)[i]).sim >= (
            #[trigger] assignment(sims)[j]).sim,
{
    let claims = claims_of(sims, sims.len() as int);
    let s = sorted_by(claims, strongest_first());
    lemma_claims(sims, sims.len() as int);
    lemma_sorted_by(claims, strongest_first());
    lemma_sorted_by_all(claims, strongest_first(), is_claim(sims));
    lemma_standing(s);
    let a = assignment(sims);
    let at = sources(s);
    assert forall|i: int| 0 <= i < a.len() implies is_claim(sims)(#[trigger] a[i]) by {
        assert(0 <= at[i] < s.len());
        assert(is_claim(sims)(s[at[i]]));
    }
    assert forall|i: int, j: int| 0 <= i <= j < a.len() implies (#[trigger] a[i]).sim >= (
    #[trigger] a[j]).sim by {
        assert(0 <= at[i] <= at[j] < s.len());
        assert(strongest_first()(s[at[i]]) <= strongest_first()(s[at[j]]));
    }
}

/// A claim that one of the tiles makes.
pub open spec fn is_claim(sims: Seq<Vec<u64>>) -> spec_fn(Claim) -> bool {
    |c: Claim|
        c.tile < sims.len() && c == claim_of(c.tile as int, sims[c.tile as int]@) && is_match(
            ranking(sims[c.tile as int]@, sims[c.tile as int]@.len() as int),
        )
}

proof fn lemma_claims(sims: Seq<Vec<u64>>, n: int)
    requires
        0 <= n <= sims.len() <= usize::MAX,
    ensures
        forall|i: int|
            0 <= i < claims_of(sims, n).len() ==> is_claim(sims)(#[trigger] claims_of(sims, n)[i]),
    decreases n,
{
    if n > 0 {
        lemma_claims(sims, n - 1);
        let before = claims_of(sims, n - 1);
        let all = claims_of(sims, n);
        assert forall|i: int| 0 <= i < all.len() implies is_claim(sims)(#[trigger] all[i]) by {
            if i < before.len() {
                assert(all[i] == before[i]);
            } else {
                assert(all[i] == claim_of(n - 1, sims[n - 1]@));
            }
        }
    }
}

/// The positions in `claims` of those that stand.
spec fn sources(claims: Seq<Claim>) -> Seq<int>
    decreases claims.len(),
{
    if claims.len() == 0 {
        Seq::empty()
    } else if is_taken(standing(claims.drop_last()), claims.last()) {
        sources(claims.drop_last())
    } else {
        sources(claims.drop_last()).push(claims.len() - 1)
    }
}

proof fn lemma_standing(s: Seq<Claim>)
    ensures
        sources(s).len() == standing(s).len(),
        forall|i: int|
            0 <= i < sources(s).len() ==> 0 <= #[trigger] sources(s)[i] < s.len() && standing(s)[i]
                == s[sources(s)[i]],
        forall|i: int, j: int|
            0 <= i < j < sources(s).len() ==> #[trigger] sources(s)[i] < #[trigger] sources(s)[j],
        forall|i: int, j: int|
            0 <= i < j < standing(s).len() ==> (#[trigger] standing(s)[i]).tile != (
            #[trigger] standing(s)[j]).tile && standing(s)[i].sig != standing(s)[j].sig,
    decreases s.len(),
{
    if s.len() > 0 {
        let t = s.drop_last();
        let before = standing(t);
        let all = standing(s);
        lemma_standing(t);
        assert forall|i: int| 0 <= i < all.len() implies 0 <= #[trigger] sources(s)[i] < s.len()
            && all[i] == s[sources(s)[i]] by {
            if i < before.len() {
                assert(all[i] == before[i]);
                assert(sources(s)[i] == sources(t)[i]);
            }
        }
        assert forall|i: int, j: int| 0 <= i < j < sources(s).len() implies #[trigger] sources(s)[i]
            < #[trigger] sources(s)[j] by {
            assert(sources(s)[i] == sources(t)[i]);
            if j < before.len() {
                assert(sources(s)[j] == sources(t)[j]);
            }
        }
        assert forall|i: int, j: int| 0 <= i < j < all.len() implies (#[trigger] all[i]).tile != (
        #[trigger] all[j]).tile && all[i].sig != all[j].sig by {
            assert(all[i] == before[i]);
            if j < before.len() {
                assert(all[j] == before[j]);
            }
        }
    }
}

fn rank(row: &Vec<u64>) -> (r: Ranking)
    ensures
        r == ranking(row@, row@.len() as int),
{
    let mut r = Ranking { best: 0, index: 0, second: 0 };
    let mut i: usize = 0;
    while i < row.len()
        invariant
            i <= row@.len(),
            r == ranking(row@, i as int),
        decreases row@.len() - i,
    {
        let s: u64 = row[i];
        if s > r.best {
            r = Ranking { best: s, index: i, second: r.best };
        } else if s > r.second {
            r = Ranking { best: r.best, index: r.index, second: s };
        }
        i = i + 1;
    }
    r
}

fn collect_claims(sims: &[Vec<u64>]) -> (r: Vec<Claim>)
    ensures
        r@ == claims_of(sims@, sims@.len() as int),
{
    let mut out: Vec<Claim> = Vec::new();
    let mut i: usize = 0;
    while i < sims.len()
        invariant
            i <= sims@.len(),
            out@ == claims_of(sims@, i as int),
        decreases sims@.len() - i,
    {
        let r = rank(&sims[i]);
        proof {
            assert(sims@[i as int].len() == sims@[i as int]@.len());
            law_ranking(sims@[i as int]@, sims@[i as int]@.len() as int);
        }
        if r.best >= MATCH_FLOOR || (r.best >= NOISE_FLOOR && r.best - r.second >= MARGIN) {
            out.push(Claim { sim: r.best, tile: i, sig: r.index });
        }
        i = i + 1;
    }
    out
}

fn taken(kept: &Vec<Claim>, c: &Claim) -> (r: bool)
    ensures
        r == is_taken(kept@, *c),
{
    let mut k: usize = 0;
    while k < kept.len()
        invariant
            k <= kept@.len(),
            forall|j: int|
                0 <= j < k ==> !((#[trigger] kept@[j]).tile == c.tile || kept@[j].sig == c.sig),
        decreases kept@.len() - k,
    {
        if kept[k].tile == c.tile || kept[k].sig == c.sig {
            assert(kept@[k as int].tile == c.tile || kept@[k as int].sig == c.sig);
            return true;
        }
        k = k + 1;
    }
    false
}

fn assign(sims: &[Vec<u64>]) -> (r: Vec<Claim>)
    ensures
        r@ == assignment(sims@),
{
    let claims = collect_claims(sims);
    let n: usize = claims.len();
    let mut keys: Vec<i128> = Vec::new();
    let mut i: usize = 0;
    while i < n
        invariant
            i <= n,
            n == claims@.len(),
            keys@.len() == i,
            forall|j: int| 0 <= j < i ==> #[trigger] keys@[j] == strongest_first()(claims@[j]),
        decreases n - i,
    {
        keys.push(-(claims[i].sim as i128));
        i = i + 1;
    }
    let order = sorted_positions(&keys);
    let ghost sorted = sorted_by(claims@, strongest_first());
    proof {
        lemma_order_of(claims@, keys@, strongest_first());
    }
    let mut kept: Vec<Claim> = Vec::new();
    let mut k: usize = 0;
    while k < n
        invariant
            k <= n,
            n == claims@.len(),
            n == order@.len(),
            n == sorted.len(),
            forall|i: int| 0 <= i < n ==> #[trigger] order@[i] < n,
            sorted == order@.map_values(|i: usize| claims@[i as int]),
            kept@ == standing(sorted.take(k as int)),
        decreases n - k,
    {
        let c: Claim = claims[order[k]];
        proof {
            assert(c == sorted[k as int]);
            assert(sorted.take(k + 1).drop_last() =~= sorted.take(k as int));
        }
        if !taken(&kept, &c) {
            kept.push(c);
        }
        k = k + 1;
    }
    assert(sorted.take(n as int) =~= sorted);
    kept
}

fn scale(v: u32, from: u32, to: u32) -> (r: u32)
    requires
        from > 0,
    ensures
        r == scaled(v as int, from as int, to as int),
{
    assert(0 <= 2 * v * to <= 2 * (0xffff_ffff * 0xffff_ffff)) by (nonlinear_arith)
        requires
            0 <= v <= 0xffff_ffff,
            0 <= to <= 0xffff_ffff,
    ;
    let s: u128 = (2 * (v as u128) * (to as u128) + from as u128) / (2 * (from as u128));
    if s > 0xffff_ffff {
        0xffff_ffff
    } else {
        s as u32
    }
}

/// A rectangle of a frame stays on the frame when the frame is scaled, but for one pixel.
pub proof fn lemma_scaled_edges(x: int, w: int, from: int, to: int)
    requires
        0 <= x,
        0 <= w,
        x + w <= from,
        0 < from,
        0 <= to < u32::MAX,
    ensures
        scaled(x, from, to) <= to,
        scaled(x, from, to) + at_least_one(scaled(w, from, to)) <= to + 1,
{
    let a = (2 * x * to + from) / (2 * from);
    let b = (2 * w * to + from) / (2 * from);
    assert(0 <= x * to && 0 <= w * to && x * to + w * to <= from * to) by (nonlinear_arith)
        requires
            0 <= x,
            0 <= w,
            x + w <= from,
            0 <= to,
    ;
    assert(2 * x * to == 2 * (x * to) && 2 * w * to == 2 * (w * to)) by (nonlinear_arith);
    lemma_quotient(2 * (x * to) + from, 2 * from);
    lemma_quotient(2 * (w * to) + from, 2 * from);
    assert(a <= to) by (nonlinear_arith)
        requires
            2 * from * a <= 2 * (x * to) + from,
            x * to <= from * to,
            0 < from,
    ;
    assert(b <= to) by (nonlinear_arith)
        requires
            2 * from * b <= 2 * (w * to) + from,
            w * to <= from * to,
            0 < from,
    ;
    assert(a + b <= to + 1) by (nonlinear_arith)
        requires
            2 * from * a <= 2 * (x * to) + from,
            2 * from * b <= 2 * (w * to) + from,
            x * to + w * to <= from * to,
            0 < from,
    ;
}

proof fn lemma_quotient(a: int, d: int)
    requires
        a >= 0,
        d > 0,
    ensures
        d * (a / d) <= a,
{
    vstd::arithmetic::div_mod::lemma_fundamental_div_mod(a, d);
    vstd::arithmetic::div_mod::lemma_mod_bound(a, d);
}

/// Assigns each tile of a frame to the participant that it matches best, one tile per
/// participant, and gives the tiles on the output's pixel grid. `sims[i][j]` is how
/// similar tile `i` is to participant `j`. A tile whose best match is taken by a stronger
/// tile is left out; it never falls back to a weaker match.
pub fn match_tiles(
    tiles: &[Rect],
    sims: &[Vec<u64>],
    ids: &[String],
    frame_w: u32,
    frame_h: u32,
    out_w: u32,
    out_h: u32,
) -> (r: Vec<TileScore>)
    requires
        sims@.len() == tiles@.len(),
        forall|i: int| 0 <= i < sims@.len() ==> (#[trigger] sims@[i])@.len() == ids@.len(),
        tiles@.len() > 0 ==> frame_w > 0 && frame_h > 0,
    ensures
        r@.len() == assignment(sims@).len(),
        forall|k: int|
            0 <= k < r@.len() ==> is_score_of(
                #[trigger] r@[k],
                assignment(sims@)[k],
                tiles@,
                ids@,
                (frame_w, frame_h),
                (out_w, out_h),
            ),
        out_w < u32::MAX && out_h < u32::MAX && (forall|i: int|
            0 <= i < tiles@.len() ==> lies_in(
                #[trigger] tiles@[i],
                frame_w as int,
                frame_h as int,
            )) ==> forall|k: int| 0 <= k < r@.len() ==> (#[trigger] r@[k]).rect.fits(),
{
    let claims = assign(sims);
    let ghost inside = forall|i: int|
        0 <= i < tiles@.len() ==> lies_in(#[trigger] tiles@[i], frame_w as int, frame_h as int);
    proof {
        assert(sims.len() == sims@.len());
        assert forall|i: int| 0 <= i < sims@.len() implies (#[trigger] sims@[i])@.len()
            <= usize::MAX by {
            assert(sims@[i].len() == sims@[i]@.len());
        }
        law_assignment(sims@);
    }
    let mut out: Vec<TileScore> = Vec::new();
    let mut k: usize = 0;
    while k < claims.len()
        invariant
            k <= claims@.len(),
            claims@ == assignment(sims@),
            sims@.len() == tiles@.len(),
            forall|i: int| 0 <= i < sims@.len() ==> (#[trigger] sims@[i])@.len() == ids@.len(),
            forall|i: int| 0 <= i < claims@.len() ==> is_claim(sims@)(#[trigger] claims@[i]),
            tiles@.len() > 0 ==> frame_w > 0 && frame_h > 0,
            inside == forall|i: int|
                0 <= i < tiles@.len() ==> lies_in(
                    #[trigger] tiles@[i],
                    frame_w as int,
                    frame_h as int,
                ),
            out@.len() == k,
            forall|j: int|
                0 <= j < k ==> is_score_of(
                    #[trigger] out@[j],
                    claims@[j],
                    tiles@,
                    ids@,
                    (frame_w, frame_h),
                    (out_w, out_h),
                ),
            out_w < u32::MAX && out_h < u32::MAX && inside ==> forall|j: int|
                0 <= j < k ==> (#[trigger] out@[j]).rect.fits(),
        decreases claims@.len() - k,
    {
        let c: Claim = claims[k];
        proof {
            assert(is_claim(sims@)(c));
            assert(sims@[c.tile as int].len() == sims@[c.tile as int]@.len());
            law_ranking(sims@[c.tile as int]@, sims@[c.tile as int]@.len() as int);
        }
        let t: Rect = tiles[c.tile];
        let w: u32 = scale(t.w, frame_w, out_w);
        let h: u32 = scale(t.h, frame_h, out_h);
        let rect = Rect {
            x: scale(t.x, frame_w, out_w),
            y: scale(t.y, frame_h, out_h),
            w: if w < 1 { 1 } else { w },
            h: if h < 1 { 1 } else { h },
        };
        proof {
            if out_w < u32::MAX && out_h < u32::MAX && inside {
                assert(lies_in(tiles@[c.tile as int], frame_w as int, frame_h as int));
                lemma_scaled_edges(t.x as int, t.w as int, frame_w as int, out_w as int);
                lemma_scaled_edges(t.y as int, t.h as int, frame_h as int, out_h as int);
            }
        }
        out.push(TileScore { participant_id: ids[c.sig].clone(), rect, sim: c.sim });
        k = k + 1;
    }
    out
}

/// A tile shows the participant it matches best if that match is 0.85 or more, or if it is
/// 0.6 or more and 0.15 above the runner-up.
pub proof fn law_match(r: Ranking)
    ensures
        is_match(r) <==> 100 * r.best >= 85 * 1_000_000_000 || (10 * r.best >= 6 * 1_000_000_000
            && 100 * (r.best - r.second) >= 15 * 1_000_000_000),
{
}

proof fn lemma_claim_is_there(sims: Seq<Vec<u64>>, n: int, i: int)
    requires
        0 <= i < n <= sims.len(),
        is_match(ranking(sims[i]@, sims[i]@.len() as int)),
    ensures
        claims_of(sims, n).contains(claim_of(i, sims[i]@)),
    decreases n,
{
    let c = claim_of(i, sims[i]@);
    let (before, all) = (claims_of(sims, n - 1), claims_of(sims, n));
    if i < n - 1 {
        lemma_claim_is_there(sims, n - 1, i);
        let k = choose|k: int| 0 <= k < before.len() && before[k] == c;
        assert(all[k] == c);
    } else {
        assert(all[all.len() - 1] == c);
    }
}

/// A claim that does not stand has lost its tile or its participant to one that stands and
/// came earlier.
proof fn lemma_standing_or_taken(s: Seq<Claim>, j: int)
    requires
        0 <= j < s.len(),
    ensures
        standing(s).contains(s[j]) || exists|k: int, i: int|
            0 <= k < standing(s).len() && 0 <= i < j && #[trigger] standing(s)[k] == #[trigger] s[i]
                && (s[i].tile == s[j].tile || s[i].sig == s[j].sig),
    decreases s.len(),
{
    let t = s.drop_last();
    let (before, all) = (standing(t), standing(s));
    if j < t.len() {
        lemma_standing_or_taken(t, j);
        if before.contains(t[j]) {
            let k = choose|k: int| 0 <= k < before.len() && before[k] == t[j];
            assert(all[k] == s[j]);
        } else {
            let (k, i) = choose|k: int, i: int|
                0 <= k < before.len() && 0 <= i < j && #[trigger] before[k] == #[trigger] t[i] && (
                t[i].tile == t[j].tile || t[i].sig == t[j].sig);
            assert(all[k] == s[i]);
        }
    } else if is_taken(before, s[j]) {
        let k = choose|k: int|
            0 <= k < before.len() && ((#[trigger] before[k]).tile == s[j].tile || before[k].sig
                == s[j].sig);
        lemma_standing(t);
        let i = sources(t)[k];
        assert(before[k] == t[i]);
        assert(all[k] == s[i]);
    } else {
        assert(all[all.len() - 1] == s[j]);
    }
}

/// The stronger match wins. A tile that passes the test gets the participant that it matches
/// best, unless another tile that matches the same participant at least as well has it; it
/// never gets another one.
pub proof fn law_stronger_match_wins(sims: Seq<Vec<u64>>, i: int)
    requires
        sims.len() <= usize::MAX,
        forall|i: int| 0 <= i < sims.len() ==> (#[trigger] sims[i])@.len() <= usize::MAX,
        0 <= i < sims.len(),
        is_match(ranking(sims[i]@, sims[i]@.len() as int)),
    ensures
        ({
            let r = ranking(sims[i]@, sims[i]@.len() as int);
            exists|k: int|
                0 <= k < assignment(sims).len() && (#[trigger] assignment(sims)[k]).sig == r.index
                    && assignment(sims)[k].sim >= r.best && (assignment(sims)[k].tile == i
                    ==> assignment(sims)[k].sim == r.best)
        }),
        forall|k: int|
            0 <= k < assignment(sims).len() && (#[trigger] assignment(sims)[k]).tile == i
                ==> assignment(sims)[k].sig == ranking(sims[i]@, sims[i]@.len() as int).index,
{
    broadcast use vstd::seq_lib::group_to_multiset_ensures;

    let r = ranking(sims[i]@, sims[i]@.len() as int);
    let c = claim_of(i, sims[i]@);
    let claims = claims_of(sims, sims.len() as int);
    let s = sorted_by(claims, strongest_first());
    let a = assignment(sims);
    lemma_claim_is_there(sims, sims.len() as int, i);
    lemma_claims(sims, sims.len() as int);
    lemma_sorted_by(claims, strongest_first());
    lemma_sorted_by_all(claims, strongest_first(), is_claim(sims));
    assert(claims.to_multiset().contains(c));
    assert(s.to_multiset().contains(c));
    let j = choose|j: int| 0 <= j < s.len() && s[j] == c;
    lemma_standing_or_taken(s, j);
    law_assignment(sims);
    if a.contains(c) {
        let k = choose|k: int| 0 <= k < a.len() && a[k] == c;
        assert(a[k].sig == r.index && a[k].sim >= r.best);
    } else {
        let (k, p) = choose|k: int, p: int|
            0 <= k < a.len() && 0 <= p < j && #[trigger] a[k] == #[trigger] s[p] && (s[p].tile
                == s[j].tile || s[p].sig == s[j].sig);
        assert(strongest_first()(s[p]) <= strongest_first()(s[j]));
        assert(is_claim(sims)(s[p]));
        if s[p].tile == s[j].tile {
            assert(s[p] == c);
        }
        assert(a[k].sig == r.index && a[k].sim >= r.best);
        if a[k].tile == i {
            assert(is_claim(sims)(a[k]));
        }
    }
    assert forall|k: int| 0 <= k < a.len() && (#[trigger] a[k]).tile == i implies a[k].sig
        == r.index by {
        assert(is_claim(sims)(a[k]));
    }
}

/// Whoever is assigned passes the test: the tile's best match, at its place in the tile's
/// row, with its similarity.
pub proof fn law_assigned_matches_are_the_best(sims: Seq<Vec<u64>>, k: int)
    requires
        sims.len() <= usize::MAX,
        forall|i: int| 0 <= i < sims.len() ==> (#[trigger] sims[i])@.len() <= usize::MAX,
        0 <= k < assignment(sims).len(),
    ensures
        ({
            let c = assignment(sims)[k];
            let row = sims[c.tile as int]@;
            &&& c.tile < sims.len()
            &&& c.sig < row.len()
            &&& row[c.sig as int] == c.sim
            &&& forall|j: int| 0 <= j < row.len() ==> #[trigger] row[j] <= c.sim
            &&& c.sim >= 850_000_000 || (c.sim >= 600_000_000 && forall|j: int|
                0 <= j < row.len() && j != c.sig ==> #[trigger] row[j] + 150_000_000 <= c.sim)
        }),
{
    law_assignment(sims);
    let c = assignment(sims)[k];
    assert(is_claim(sims)(c));
    let row = sims[c.tile as int]@;
    law_ranking(row, row.len() as int);
}

/// A coordinate is scaled to the nearest one of the other grid, half a pixel away at most,
/// halfway the farther one; what does not fit counts as the greatest number.
pub proof fn law_scaled(v: int, from: int, to: int)
    requires
        0 <= v,
        0 < from,
        0 <= to,
    ensures
        ({
            let s = scaled(v, from, to);
            &&& s <= u32::MAX
            &&& s < u32::MAX ==> -from <= 2 * (v * to - s * from) < from
        }),
{
    let a = 2 * v * to + from;
    let d = 2 * from;
    vstd::arithmetic::div_mod::lemma_fundamental_div_mod(a, d);
    vstd::arithmetic::div_mod::lemma_mod_bound(a, d);
    let q = a / d;
    assert(2 * v * to == 2 * (v * to)) by (nonlinear_arith);
    assert(d * q == 2 * (q * from)) by (nonlinear_arith)
        requires
            d == 2 * from,
    ;
}

/// A rectangle is scaled column by column and row by row: its left edge and width by the
/// widths of the grids, its top edge and height by their heights, and to one pixel at least.
pub proof fn law_scaled_rect(r: Rect, from_w: u32, from_h: u32, to_w: u32, to_h: u32)
    requires
        0 < from_w,
        0 < from_h,
    ensures
        ({
            let s = scaled_rect(r, from_w as int, from_h as int, to_w as int, to_h as int);
            &&& s.x == scaled(r.x as int, from_w as int, to_w as int)
            &&& s.y == scaled(r.y as int, from_h as int, to_h as int)
            &&& s.w >= 1 && s.h >= 1
            &&& scaled(r.w as int, from_w as int, to_w as int) >= 1 ==> s.w == scaled(
                r.w as int,
                from_w as int,
                to_w as int,
            )
            &&& scaled(r.h as int, from_h as int, to_h as int) >= 1 ==> s.h == scaled(
                r.h as int,
                from_h as int,
                to_h as int,
            )
            &&& s.w > 1 ==> s.w == scaled(r.w as int, from_w as int, to_w as int)
            &&& s.h > 1 ==> s.h == scaled(r.h as int, from_h as int, to_h as int)
        }),
{
    lemma_scaled_sign(r.x as int, from_w as int, to_w as int);
    lemma_scaled_sign(r.y as int, from_h as int, to_h as int);
    lemma_scaled_sign(r.w as int, from_w as int, to_w as int);
    lemma_scaled_sign(r.h as int, from_h as int, to_h as int);
}

proof fn lemma_scaled_sign(v: int, from: int, to: int)
    requires
        0 <= v,
        0 < from,
        0 <= to,
    ensures
        0 <= scaled(v, from, to) <= u32::MAX,
{
    assert(0 <= 2 * v * to) by (nonlinear_arith)
        requires
            0 <= v,
            0 <= to,
    ;
    vstd::arithmetic::div_mod::lemma_div_is_ordered(0, 2 * v * to + from, 2 * from);
    assert(0int / (2 * from) == 0) by {
        vstd::arithmetic::div_mod::lemma_div_basics(2 * from);
    }
}

/// A score is its claim: the participant's id, the tile's rectangle on the output's grid, and
/// the similarity.
pub proof fn law_score(
    t: TileScore,
    c: Claim,
    tiles: Seq<Rect>,
    ids: Seq<String>,
    from: (u32, u32),
    to: (u32, u32),
)
    requires
        is_score_of(t, c, tiles, ids, from, to),
    ensures
        t.participant_id@ == ids[c.sig as int]@,
        t.rect == scaled_rect(
            tiles[c.tile as int],
            from.0 as int,
            from.1 as int,
            to.0 as int,
            to.1 as int,
        ),
        t.sim == c.sim,
{
}

} // verus!
