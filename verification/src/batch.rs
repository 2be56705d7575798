use vstd::prelude::*;

use crate::events::{AttackEvent, SimResult};
use crate::loadout::Loadout;
use crate::ranking::{RankedTileSummary, insert_point, insert_ranked_tile_summary, lemma_insert_keeps_best, ranking_sorted, top_of};
use crate::region::Region;
use crate::setup::spawns_ok;
use crate::spawn::{ParsedSpawnCode, is_empty_wave_spec, lemma_parsed_spawns_on_board, parse_spawn_code,
    parse_spawn_code_spec};
use crate::state::{MAX_SIM_TICKS, sim_loadout_ok};
use crate::summary::{SimScratch, TileSimParams, TileSummary, is_empty_wave_summary, tile_summary_of,
    simulate_tile_summary_typed_with_scratch};
use crate::types::{PillarConfig, Point};

verus! {

/// What a batch of tiles is simulated against, configured once: the wave, the pillars,
/// the loadout, the tick limit and the seed base, with buffers reused across tiles.
pub struct SimContext {
    pub parsed: ParsedSpawnCode,
    pub pillar_config: PillarConfig,
    pub loadout: Loadout,
    pub max_ticks: i32,
    pub seed_base: u32,
    pub scratch: SimScratch,
}

/// A context that batches can run on.
pub open spec fn sim_context_ok(ctx: SimContext) -> bool {
    &&& spawns_ok(ctx.parsed.spawns@)
    &&& sim_loadout_ok(ctx.loadout)
    &&& ctx.max_ticks <= MAX_SIM_TICKS
}

/// Configures a batch context from a spawn code; the error is the spawn code's.
pub fn configure_sim_context(spawn_code: &str, pillar_config: PillarConfig, loadout: Loadout, max_ticks: i32,
    seed_base: u32) -> (r: Result<SimContext, String>)
    requires
        sim_loadout_ok(loadout),
        max_ticks <= MAX_SIM_TICKS,
    ensures
        match parse_spawn_code_spec(spawn_code@) {
            Ok((spawns, info)) => r matches Ok(ctx) && ctx.parsed.spawns@ == spawns && ctx.parsed.has_index_info == info
                && ctx.pillar_config == pillar_config && ctx.loadout == loadout && ctx.max_ticks == max_ticks
                && ctx.seed_base == seed_base && sim_context_ok(ctx),
            Err(msg) => r matches Err(e) && e@ == msg,
        },
{
    proof { lemma_parsed_spawns_on_board(spawn_code@); }
    let parsed: ParsedSpawnCode = match parse_spawn_code(spawn_code) {
        Ok(p) => p,
        Err(e) => return Err(e),
    };
    Ok(SimContext { parsed, pillar_config, loadout, max_ticks, seed_base, scratch: SimScratch::with_capacity(0) })
}

/// The error of a tile buffer of odd length.
pub open spec fn odd_buffer_message() -> Seq<char> {
    "tile coordinate buffer must contain x,y pairs"@
}

/// The tile of pair `k` of a coordinate buffer.
pub open spec fn pair_tile(coords: Seq<u8>, k: int) -> Point {
    Point { x: coords[2 * k] as i32, y: coords[2 * k + 1] as i32 }
}

/// What the simulations of `tile` in a batch run on.
pub open spec fn batch_params<'a>(ctx: &'a SimContext, region: &'a Region, tile: Point, max_sims: int, quick_prune: bool)
    -> TileSimParams<'a> {
    TileSimParams {
        parsed: &ctx.parsed,
        pillar_config: ctx.pillar_config,
        tile,
        loadout: &ctx.loadout,
        max_ticks: ctx.max_ticks,
        max_sims: if max_sims < 0 { 0i32 } else { max_sims as i32 },
        seed_base: ctx.seed_base,
        region,
        quick_prune,
    }
}

/// A tile's outcome depends on the context only through what it simulates with.
proof fn lemma_outcome_same_ctx(a: SimContext, b: SimContext, region: Region, max_sims: int, quick_prune: bool)
    requires
        a.parsed == b.parsed,
        a.pillar_config == b.pillar_config,
        a.loadout == b.loadout,
        a.max_ticks == b.max_ticks,
        a.seed_base == b.seed_base,
    ensures
        forall|t: Point, s: Option<TileSummary>| #[trigger] tile_outcome_ok(a, region, t, max_sims, quick_prune, s)
            == tile_outcome_ok(b, region, t, max_sims, quick_prune, s),
{
    assert forall|t: Point, s: Option<TileSummary>| #[trigger] tile_outcome_ok(a, region, t, max_sims, quick_prune, s)
        == tile_outcome_ok(b, region, t, max_sims, quick_prune, s) by {
        assert(batch_params(&a, &region, t, max_sims, quick_prune) == batch_params(&b, &region, t, max_sims, quick_prune));
    }
}

/// What a tile's simulation is known to give: nothing without simulations, the
/// monster-free summary for a wave without monsters, else the summary of the tile's
/// simulations: `max_sims` of them (or 3 or 10 when quick pruning stopped early), of
/// which the valid ones carry the averages.
pub open spec fn tile_outcome_ok(ctx: SimContext, region: Region, tile: Point, max_sims: int, quick_prune: bool,
    s: Option<TileSummary>) -> bool {
    &&& max_sims <= 0 ==> s is None
    &&& max_sims > 0 && !is_empty_wave_spec(ctx.parsed.spawns@, ctx.pillar_config) ==>
        (s matches Some(t) && exists|results: Seq<SimResult>, log: Seq<AttackEvent>|
            #[trigger] tile_summary_of(batch_params(&ctx, &region, tile, max_sims, quick_prune), results, log, t))
    &&& max_sims > 0 && is_empty_wave_spec(ctx.parsed.spawns@, ctx.pillar_config) ==>
        (s matches Some(t) && is_empty_wave_summary(t, max_sims as usize))
    &&& max_sims > 0 && !is_empty_wave_spec(ctx.parsed.spawns@, ctx.pillar_config) ==>
        (s matches Some(t) && 1 <= t.total_sims <= max_sims
            && (t.total_sims == max_sims || (quick_prune && (t.total_sims == 3 || t.total_sims == 10)))
            && t.invalid_pct.count == t.total_sims
            && t.invalid_pct.part + t.avg_damage.count == t.total_sims
            && t.avg_ticks.count == t.avg_damage.count)
}

/// Whether a tile is named by some pair of a coordinate buffer.
pub open spec fn is_pair_tile(coords: Seq<u8>, t: Point) -> bool {
    exists|k: int| 0 <= k < coords.len() / 2 && #[trigger] pair_tile(coords, k) == t
}

/// Coordinates that name tiles of the board.
pub open spec fn coords_on_board(coords: Seq<u8>) -> bool {
    forall|i: int| 0 <= i < coords.len() ==> #[trigger] coords[i] < 64
}

/// A tile with its summary, if any.
#[derive(Clone, Copy, Debug)]
pub struct TileResult {
    pub tile: Point,
    pub summary: Option<TileSummary>,
}

/// Simulates each tile of a buffer of `x, y` byte pairs in turn, against the context,
/// with at most `max_sims` simulations each (none when it is negative). A buffer of
/// odd length is refused.
pub fn simulate_tiles_cached_inner(ctx: &mut SimContext, region: &Region, tile_coords: &[u8], max_sims: i32,
    quick_prune: bool) -> (r: Result<Vec<TileResult>, String>)
    requires
        sim_context_ok(*old(ctx)),
        region.wf(),
        max_sims > 0 ==> coords_on_board(tile_coords@),
    ensures
        sim_context_ok(*final(ctx)),
        final(ctx).parsed == old(ctx).parsed,
        final(ctx).pillar_config == old(ctx).pillar_config,
        final(ctx).loadout == old(ctx).loadout,
        final(ctx).max_ticks == old(ctx).max_ticks,
        final(ctx).seed_base == old(ctx).seed_base,
        tile_coords@.len() % 2 == 1 <==> r is Err,
        r matches Err(e) ==> e@ == odd_buffer_message(),
        r matches Ok(v) ==> {
            &&& v@.len() == tile_coords@.len() / 2
            &&& forall|k: int| 0 <= k < v@.len() ==> (#[trigger] v@[k]).tile == pair_tile(tile_coords@, k)
                && tile_outcome_ok(*old(ctx), *region, v@[k].tile, max_sims as int, quick_prune, v@[k].summary)
        },
{
    if tile_coords.len() % 2 != 0 {
        let e: String = "tile coordinate buffer must contain x,y pairs".to_string();
        proof {
            vstd::string::to_string_from_display_ensures_for_str("tile coordinate buffer must contain x,y pairs", e);
        }
        return Err(e);
    }
    let sims: i32 = if max_sims < 0 { 0 } else { max_sims };
    ctx.scratch.ensure_capacity(sims as usize);
    let len: usize = tile_coords.len();
    let n: usize = len / 2;
    let ghost c0 = *ctx;
    let mut out: Vec<TileResult> = Vec::with_capacity(n);
    let mut k: usize = 0;
    while k < n
        invariant
            len == tile_coords@.len(),
            n == tile_coords@.len() / 2,
            tile_coords@.len() % 2 == 0,
            max_sims > 0 ==> coords_on_board(tile_coords@),
            region.wf(),
            sims == if max_sims < 0 { 0 } else { max_sims },
            sim_context_ok(c0),
            ctx.parsed == c0.parsed,
            ctx.pillar_config == c0.pillar_config,
            ctx.loadout == c0.loadout,
            ctx.max_ticks == c0.max_ticks,
            ctx.seed_base == c0.seed_base,
            c0.parsed == old(ctx).parsed,
            c0.pillar_config == old(ctx).pillar_config,
            c0.loadout == old(ctx).loadout,
            c0.max_ticks == old(ctx).max_ticks,
            c0.seed_base == old(ctx).seed_base,
            k <= n,
            out@.len() == k,
            forall|j: int| 0 <= j < k ==> (#[trigger] out@[j]).tile == pair_tile(tile_coords@, j)
                && tile_outcome_ok(c0, *region, out@[j].tile, max_sims as int, quick_prune, out@[j].summary),
        decreases n - k,
    {
        let tile = Point { x: tile_coords[2 * k] as i32, y: tile_coords[2 * k + 1] as i32 };
        let summary: Option<TileSummary> = if sims <= 0 {
            None
        } else {
            assert(tile_coords@[2 * k as int] < 64 && tile_coords@[2 * k as int + 1] < 64);
            let params = TileSimParams {
                parsed: &ctx.parsed,
                pillar_config: ctx.pillar_config,
                tile,
                loadout: &ctx.loadout,
                max_ticks: ctx.max_ticks,
                max_sims: sims,
                seed_base: ctx.seed_base,
                region,
                quick_prune,
            };
            proof {
                assert(params == batch_params(&c0, region, tile, max_sims as int, quick_prune));
            }
            let res = simulate_tile_summary_typed_with_scratch(params, &mut ctx.scratch);
            match res {
                Ok(s) => s,
                Err(e) => return Err(e),
            }
        };
        out.push(TileResult { tile, summary });
        proof {
            assert forall|j: int| 0 <= j < k + 1 implies (#[trigger] out@[j]).tile == pair_tile(tile_coords@, j)
                && tile_outcome_ok(c0, *region, out@[j].tile, max_sims as int, quick_prune, out@[j].summary) by {}
        }
        k = k + 1;
    }
    proof {
        lemma_outcome_same_ctx(c0, *old(ctx), *region, max_sims as int, quick_prune);
    }
    Ok(out)
}

/// Whether `top` is the best of the batch: with simulations, `seen` holds every input
/// tile in order with a summary its simulation can give, and `top` holds the best
/// `limit` of them (a tile that ranks before a kept one is kept, and all are kept when
/// fewer than `limit` are); without simulations nothing is seen.
pub open spec fn best_of_batch(coords: Seq<u8>, ctx: SimContext, region: Region, max_sims: int, quick_prune: bool, limit: int,
    seen: Seq<RankedTileSummary>, top: Seq<RankedTileSummary>) -> bool {
    let n = coords.len() / 2;
    &&& max_sims > 0 ==> seen.len() == n
    &&& max_sims <= 0 ==> seen.len() == 0
    &&& forall|j: int| 0 <= j < seen.len() ==> (#[trigger] seen[j]).tile == pair_tile(coords, j)
        && tile_outcome_ok(ctx, region, seen[j].tile, max_sims, quick_prune, Some(seen[j].summary))
    &&& top_of(top, seen, if limit < n { limit } else { n as int })
}

/// Simulates each tile of a buffer of `x, y` byte pairs as the batch above does, and
/// keeps the best `limit` tiles (no more than the tiles given) in ranking order: lower
/// average damage first, then fewer ticks, then the smaller column and row.
pub fn simulate_tiles_top_cached_inner(ctx: &mut SimContext, region: &Region, tile_coords: &[u8], max_sims: i32,
    quick_prune: bool, limit: usize) -> (r: Result<Vec<RankedTileSummary>, String>)
    requires
        sim_context_ok(*old(ctx)),
        region.wf(),
        max_sims > 0 ==> coords_on_board(tile_coords@),
    ensures
        sim_context_ok(*final(ctx)),
        final(ctx).parsed == old(ctx).parsed,
        final(ctx).pillar_config == old(ctx).pillar_config,
        final(ctx).loadout == old(ctx).loadout,
        final(ctx).max_ticks == old(ctx).max_ticks,
        final(ctx).seed_base == old(ctx).seed_base,
        tile_coords@.len() % 2 == 1 <==> r is Err,
        r matches Err(e) ==> e@ == odd_buffer_message(),
        r matches Ok(top) ==> ranking_sorted(top@),
        r matches Ok(top) ==> (max_sims <= 0 ==> top@.len() == 0),
        r matches Ok(top) ==> (max_sims > 0 ==> top@.len()
            == if limit < tile_coords@.len() / 2 { limit as int } else { (tile_coords@.len() / 2) as int }),
        r matches Ok(top) ==> forall|i: int| 0 <= i < top@.len() ==> is_pair_tile(tile_coords@, (#[trigger] top@[i]).tile)
            && tile_outcome_ok(*old(ctx), *region, top@[i].tile, max_sims as int, quick_prune, Some(top@[i].summary)),
        r matches Ok(top) ==> exists|seen: Seq<RankedTileSummary>| #[trigger] best_of_batch(tile_coords@, *old(ctx), *region,
            max_sims as int, quick_prune, limit as int, seen, top@),
{
    if tile_coords.len() % 2 != 0 {
        let e: String = "tile coordinate buffer must contain x,y pairs".to_string();
        proof {
            vstd::string::to_string_from_display_ensures_for_str("tile coordinate buffer must contain x,y pairs", e);
        }
        return Err(e);
    }
    let len: usize = tile_coords.len();
    let n: usize = len / 2;
    let cap: usize = if limit < n { limit } else { n };
    let sims: i32 = if max_sims < 0 { 0 } else { max_sims };
    let mut top: Vec<RankedTileSummary> = Vec::with_capacity(cap);
    ctx.scratch.ensure_capacity(sims as usize);
    let ghost c0 = *ctx;
    let ghost mut seen: Seq<RankedTileSummary> = Seq::empty();
    let runs: usize = if sims > 0 { n } else { 0 };
    let mut k: usize = 0;
    while k < runs
        invariant
            runs == if max_sims > 0 { n } else { 0 },
            k <= runs,
            len == tile_coords@.len(),
            n == tile_coords@.len() / 2,
            tile_coords@.len() % 2 == 0,
            max_sims > 0 ==> coords_on_board(tile_coords@),
            region.wf(),
            cap <= n,
            cap == if limit < n { limit } else { n },
            sims == if max_sims < 0 { 0 } else { max_sims },
            sim_context_ok(c0),
            ctx.parsed == c0.parsed,
            ctx.pillar_config == c0.pillar_config,
            ctx.loadout == c0.loadout,
            ctx.max_ticks == c0.max_ticks,
            ctx.seed_base == c0.seed_base,
            c0.parsed == old(ctx).parsed,
            c0.pillar_config == old(ctx).pillar_config,
            c0.loadout == old(ctx).loadout,
            c0.max_ticks == old(ctx).max_ticks,
            c0.seed_base == old(ctx).seed_base,
            k <= n,
            ranking_sorted(top@),
            max_sims <= 0 ==> top@.len() == 0,
            max_sims > 0 ==> top@.len() == if k < cap { k as int } else { cap as int },
            forall|i: int| 0 <= i < top@.len() ==> is_pair_tile(tile_coords@, (#[trigger] top@[i]).tile)
                && tile_outcome_ok(c0, *region, top@[i].tile, max_sims as int, quick_prune, Some(top@[i].summary)),
            max_sims > 0 ==> seen.len() == k,
            max_sims <= 0 ==> seen.len() == 0,
            forall|j: int| 0 <= j < seen.len() ==> (#[trigger] seen[j]).tile == pair_tile(tile_coords@, j)
                && tile_outcome_ok(c0, *region, seen[j].tile, max_sims as int, quick_prune, Some(seen[j].summary)),
            top_of(top@, seen, cap as int),
            ranking_sorted(top@),
            top@.len() <= cap,
        decreases n - k,
    {
        assert(tile_coords@[2 * k as int] < 64 && tile_coords@[2 * k as int + 1] < 64);
        let tile = Point { x: tile_coords[2 * k] as i32, y: tile_coords[2 * k + 1] as i32 };
        let params = TileSimParams {
            parsed: &ctx.parsed,
            pillar_config: ctx.pillar_config,
            tile,
            loadout: &ctx.loadout,
            max_ticks: ctx.max_ticks,
            max_sims: sims,
            seed_base: ctx.seed_base,
            region,
            quick_prune,
        };
        proof {
            assert(params == batch_params(&c0, region, tile, max_sims as int, quick_prune));
        }
        let res = simulate_tile_summary_typed_with_scratch(params, &mut ctx.scratch);
        let summary: Option<TileSummary> = match res {
            Ok(s) => s,
            Err(e) => return Err(e),
        };
        if let Some(summary) = summary {
            let item = RankedTileSummary { tile, summary };
            let ghost t0 = top@;
            assert(tile_outcome_ok(c0, *region, item.tile, max_sims as int, quick_prune, Some(item.summary)));
            assert(item.tile == pair_tile(tile_coords@, k as int));
            insert_ranked_tile_summary(&mut top, cap, item);
            proof {
                let p = choose|p: int| #[trigger] insert_point(t0, item, p);
                lemma_insert_keeps_best(t0, seen, item, cap as int, p, top@);
                let s0 = seen;
                seen = seen.push(item);
                assert forall|j: int| 0 <= j < seen.len() implies (#[trigger] seen[j]).tile == pair_tile(tile_coords@, j)
                    && tile_outcome_ok(c0, *region, seen[j].tile, max_sims as int, quick_prune, Some(seen[j].summary)) by {
                    if j < s0.len() {
                        assert(seen[j] == s0[j]);
                    }
                }
                assert(is_pair_tile(tile_coords@, item.tile));
                assert forall|i: int| 0 <= i < top@.len() implies is_pair_tile(tile_coords@, (#[trigger] top@[i]).tile)
                    && tile_outcome_ok(c0, *region, top@[i].tile, max_sims as int, quick_prune, Some(top@[i].summary)) by {
                    if top@[i] != item {
                        assert(t0.contains(top@[i]));
                        let i0 = choose|i0: int| 0 <= i0 < t0.len() && t0[i0] == top@[i];
                        assert(t0[i0] == top@[i]);
                    }
                }
            }
        }
        k = k + 1;
    }
    proof {
        lemma_outcome_same_ctx(c0, *old(ctx), *region, max_sims as int, quick_prune);
        assert(best_of_batch(tile_coords@, *old(ctx), *region, max_sims as int, quick_prune, limit as int, seen, top@));
    }
    Ok(top)
}

/// Tiles of the board.
pub open spec fn tiles_on_board(tiles: Seq<Point>) -> bool {
    forall|i: int| 0 <= i < tiles.len() ==> 0 <= (#[trigger] tiles[i]).x < 64 && 0 <= tiles[i].y < 64
}

/// Simulates each tile of a list in turn, against the context, with at most `max_sims`
/// simulations each (none when it is negative).
pub fn simulate_tile_list(ctx: &mut SimContext, region: &Region, tiles: &[Point], max_sims: i32, quick_prune: bool)
    -> (r: Result<Vec<TileResult>, String>)
    requires
        sim_context_ok(*old(ctx)),
        region.wf(),
        tiles_on_board(tiles@),
    ensures
        sim_context_ok(*final(ctx)),
        final(ctx).parsed == old(ctx).parsed,
        final(ctx).pillar_config == old(ctx).pillar_config,
        final(ctx).loadout == old(ctx).loadout,
        final(ctx).max_ticks == old(ctx).max_ticks,
        final(ctx).seed_base == old(ctx).seed_base,
        r matches Ok(v) && v@.len() == tiles@.len()
            && forall|k: int| 0 <= k < v@.len() ==> (#[trigger] v@[k]).tile == tiles@[k]
                && tile_outcome_ok(*old(ctx), *region, v@[k].tile, max_sims as int, quick_prune, v@[k].summary),
{
    let sims: i32 = if max_sims < 0 { 0 } else { max_sims };
    ctx.scratch.ensure_capacity(sims as usize);
    let ghost c0 = *ctx;
    let mut out: Vec<TileResult> = Vec::with_capacity(tiles.len());
    let mut k: usize = 0;
    while k < tiles.len()
        invariant
            tiles_on_board(tiles@),
            region.wf(),
            sims == if max_sims < 0 { 0 } else { max_sims },
            sim_context_ok(c0),
            ctx.parsed == c0.parsed,
            ctx.pillar_config == c0.pillar_config,
            ctx.loadout == c0.loadout,
            ctx.max_ticks == c0.max_ticks,
            ctx.seed_base == c0.seed_base,
            c0.parsed == old(ctx).parsed,
            c0.pillar_config == old(ctx).pillar_config,
            c0.loadout == old(ctx).loadout,
            c0.max_ticks == old(ctx).max_ticks,
            c0.seed_base == old(ctx).seed_base,
            k <= tiles@.len(),
            out@.len() == k,
            forall|j: int| 0 <= j < k ==> (#[trigger] out@[j]).tile == tiles@[j]
                && tile_outcome_ok(c0, *region, out@[j].tile, max_sims as int, quick_prune, out@[j].summary),
        decreases tiles@.len() - k,
    {
        let tile: Point = tiles[k];
        let params = TileSimParams {
            parsed: &ctx.parsed,
            pillar_config: ctx.pillar_config,
            tile,
            loadout: &ctx.loadout,
            max_ticks: ctx.max_ticks,
            max_sims: sims,
            seed_base: ctx.seed_base,
            region,
            quick_prune,
        };
        proof {
            assert(params == batch_params(&c0, region, tile, max_sims as int, quick_prune));
        }
        let res = simulate_tile_summary_typed_with_scratch(params, &mut ctx.scratch);
        let summary: Option<TileSummary> = match res {
            Ok(s) => s,
            Err(e) => return Err(e),
        };
        out.push(TileResult { tile, summary });
        proof {
            assert forall|j: int| 0 <= j < k + 1 implies (#[trigger] out@[j]).tile == tiles@[j]
                && tile_outcome_ok(c0, *region, out@[j].tile, max_sims as int, quick_prune, out@[j].summary) by {}
        }
        k = k + 1;
    }
    proof {
        lemma_outcome_same_ctx(c0, *old(ctx), *region, max_sims as int, quick_prune);
    }
    Ok(out)
}

} // verus!
