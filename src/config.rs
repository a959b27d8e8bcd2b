//! The range partitioner: the tiles of all levels of a zoom span, laid end to
//! end in ascending zoom order, form one linear index space; a contiguous
//! slice of that space is turned back into per-level index ranges.
use crate::error::TileError;
use std::ops::RangeInclusive;
use vstd::arithmetic::power2::{
    lemma2_to64, lemma_pow2_adds, lemma_pow2_pos, lemma_pow2_strictly_increases, pow2,
};
use vstd::arithmetic::mul::lemma_mul_inequality;
use vstd::bits::lemma_u32_shl_is_mul;
use vstd::prelude::*;

verus! {

/// The deepest zoom level whose tile count fits in 32 bits.
pub const MAX_ZOOM: u8 = 15;

/// Number of tiles of zoom level `z`: `4^z`, in a `2^z x 2^z` grid.
pub open spec fn level_tiles(z: nat) -> nat {
    pow2(2 * z)
}

/// Number of tiles of the levels `first, ..., z - 1` together.
pub open spec fn tiles_before(first: nat, z: nat) -> nat
    decreases z,
{
    if z <= first {
        0
    } else {
        tiles_before(first, (z - 1) as nat) + level_tiles((z - 1) as nat)
    }
}

/// Number of tiles of the levels `first..=last` together.
pub open spec fn total_tiles(first: nat, last: nat) -> nat {
    tiles_before(first, last + 1)
}

/// Whether the zoom span `first..=last` is non-empty and every level's tile
/// count fits in 32 bits.
pub open spec fn span_ok(first: nat, last: nat) -> bool {
    first <= last <= MAX_ZOOM
}

/// Whether position `g` of the linear index space of `first..=last` is tile
/// `local` of level `z`.
pub open spec fn locates(first: nat, last: nat, g: nat, z: nat, local: nat) -> bool {
    &&& first <= z <= last
    &&& local < level_tiles(z)
    &&& tiles_before(first, z) + local == g
}

/// Relies on RangeInclusive::start: the lower bound of a range that has not
/// been iterated to exhaustion.
pub assume_specification<Idx>[ RangeInclusive::<Idx>::start ](r: &RangeInclusive<Idx>) -> (s: &Idx)
    ensures
        !r@.exhausted ==> *s == r@.start,
;

/// Relies on RangeInclusive::end: the upper bound of a range that has not
/// been iterated to exhaustion.
pub assume_specification<Idx>[ RangeInclusive::<Idx>::end ](r: &RangeInclusive<Idx>) -> (e: &Idx)
    ensures
        !r@.exhausted ==> *e == r@.end,
;

/// A level has four times as many tiles as the one above it.
pub proof fn lemma_level_tiles_step(z: nat)
    ensures
        level_tiles(z + 1) == 4 * level_tiles(z),
        level_tiles(z) > 0,
{
    lemma_pow2_adds(2 * z, 2);
    lemma2_to64();
    lemma_pow2_pos(2 * z);
}

/// All the levels above `z` together hold less than a third of the tiles of
/// level `z`.
pub proof fn lemma_tiles_before_bound(first: nat, z: nat)
    ensures
        3 * tiles_before(first, z) < level_tiles(z),
    decreases z,
{
    lemma_level_tiles_step(z);
    if z > first {
        lemma_tiles_before_bound(first, (z - 1) as nat);
        lemma_level_tiles_step((z - 1) as nat);
    }
}

/// The tiles of the levels before `a` are among those before `b` when
/// `a <= b`.
pub proof fn lemma_tiles_before_monotonic(first: nat, a: nat, b: nat)
    requires
        a <= b,
    ensures
        tiles_before(first, a) <= tiles_before(first, b),
    decreases b - a,
{
    if a < b {
        lemma_tiles_before_monotonic(first, a, (b - 1) as nat);
    }
}

/// Each position of the linear index space belongs to one tile of one level.
pub proof fn lemma_locates_unique(
    first: nat,
    last: nat,
    g: nat,
    z1: nat,
    l1: nat,
    z2: nat,
    l2: nat,
)
    requires
        locates(first, last, g, z1, l1),
        locates(first, last, g, z2, l2),
    ensures
        z1 == z2,
        l1 == l2,
{
    if z1 < z2 {
        lemma_tiles_before_monotonic(first, z1 + 1, z2);
    } else if z2 < z1 {
        lemma_tiles_before_monotonic(first, z2 + 1, z1);
    }
}

/// The spans that `span_ok` admits hold fewer than `2^32` tiles.
pub proof fn lemma_total_fits(first: nat, last: nat)
    requires
        span_ok(first, last),
    ensures
        total_tiles(first, last) < 0x5555_5556,
{
    lemma_tiles_before_bound(first, last + 1);
    if 2 * (last + 1) < 32 {
        lemma_pow2_strictly_increases(2 * (last + 1), 32);
    }
    lemma2_to64();
}

/// Number of tiles of zoom level `z`.
pub fn level_tile_count(z: u8) -> (r: u32)
    requires
        z <= MAX_ZOOM,
    ensures
        r == level_tiles(z as nat),
{
    let shift: u32 = 2 * z as u32;
    proof {
        lemma_pow2_strictly_increases(shift as nat, 32);
        lemma2_to64();
        lemma_u32_shl_is_mul(1u32, shift);
    }
    1u32 << shift
}

/// Number of tiles of the levels `first..=last` together.
pub fn total_tile_count(first: u8, last: u8) -> (r: u32)
    requires
        span_ok(first as nat, last as nat),
    ensures
        r == total_tiles(first as nat, last as nat),
{
    let mut sum: u32 = 0;
    let mut z: u8 = first;
    while z <= last
        invariant
            first <= z <= last + 1,
            last <= MAX_ZOOM,
            sum == tiles_before(first as nat, z as nat),
        decreases last + 1 - z,
    {
        proof {
            lemma_tiles_before_monotonic(first as nat, z as nat + 1, last as nat + 1);
            lemma_total_fits(first as nat, last as nat);
        }
        sum = sum + level_tile_count(z);
        z = z + 1;
    }
    sum
}

/// The level and the index within that level of position `g` of the linear
/// index space of `first..=last`.
fn locate(first: u8, last: u8, g: u32) -> (r: (u8, u32))
    requires
        span_ok(first as nat, last as nat),
        g < total_tiles(first as nat, last as nat),
    ensures
        locates(first as nat, last as nat, g as nat, r.0 as nat, r.1 as nat),
{
    let mut z: u8 = first;
    let mut sum: u32 = 0;
    loop
        invariant
            first <= z <= last,
            last <= MAX_ZOOM,
            sum == tiles_before(first as nat, z as nat),
            sum <= g,
            g < total_tiles(first as nat, last as nat),
        decreases last - z,
    {
        let n = level_tile_count(z);
        if g - sum < n {
            return (z, g - sum);
        }
        sum = sum + n;
        z = z + 1;
    }
}

/// Splits the positions `lo..=hi` of the linear index space of the zoom span
/// `first..=last` into the level where they start and the level where they
/// end, with the index of the first tile in the former and of the last tile
/// in the latter. Levels strictly between the two are covered whole.
pub fn slice_span(first: u8, last: u8, lo: u32, hi: u32) -> (r: Result<
    (RangeInclusive<u8>, RangeInclusive<u32>),
    TileError,
>)
    ensures
        !span_ok(first as nat, last as nat) ==> r == Err::<
            (RangeInclusive<u8>, RangeInclusive<u32>),
            TileError,
        >(TileError::InvalidZoomSpan),
        span_ok(first as nat, last as nat) && !(lo <= hi < total_tiles(first as nat, last as nat))
            ==> r == Err::<(RangeInclusive<u8>, RangeInclusive<u32>), TileError>(
            TileError::InvalidRange,
        ),
        span_ok(first as nat, last as nat) && lo <= hi < total_tiles(first as nat, last as nat)
            ==> r is Ok,
        r is Ok ==> {
            let (zooms, tiles) = r->Ok_0;
            &&& !zooms@.exhausted && !tiles@.exhausted
            &&& locates(first as nat, last as nat, lo as nat, zooms@.start as nat, tiles@.start as nat)
            &&& locates(first as nat, last as nat, hi as nat, zooms@.end as nat, tiles@.end as nat)
        },
{
    if !(first <= last && last <= MAX_ZOOM) {
        return Err(TileError::InvalidZoomSpan);
    }
    let total = total_tile_count(first, last);
    if !(lo <= hi && hi < total) {
        return Err(TileError::InvalidRange);
    }
    let (zs, ls) = locate(first, last, lo);
    let (ze, le) = locate(first, last, hi);
    Ok((RangeInclusive::new(zs, ze), RangeInclusive::new(ls, le)))
}

/// Whether a source image at zoom level `zoomlevel` can be sub-tile `index`
/// of the image at the deeper zoom level `parent`.
pub open spec fn hierarchy_ok(zoomlevel: nat, parent: nat, index: nat) -> bool {
    zoomlevel < parent && index < level_tiles((parent - zoomlevel) as nat)
}

/// The zoom span asked for: `zoomrange`, or the source zoom level alone.
pub open spec fn span_of(zoomlevel: u8, zoomrange: Option<RangeInclusive<u8>>) -> (nat, nat) {
    match zoomrange {
        Some(r) => (r@.start as nat, r@.end as nat),
        None => (zoomlevel as nat, zoomlevel as nat),
    }
}

/// The first and last positions asked for in a span of `total` tiles: all of
/// them, or the bounds of `targetrange`, both included.
pub open spec fn target_of(total: nat, targetrange: Option<RangeInclusive<u32>>) -> (int, int) {
    match targetrange {
        Some(r) => (r@.start as int, r@.end as int),
        None => (0, total - 1),
    }
}

/// Whether a tile size and a zoom span can be tiled at all, and if not, why.
pub open spec fn base_error(tilesize: u32, first: nat, last: nat) -> Option<TileError> {
    if tilesize == 0 {
        Some(TileError::InvalidTileSize)
    } else if !span_ok(first, last) {
        Some(TileError::InvalidZoomSpan)
    } else {
        None
    }
}

/// Why `Config::new` rejects its arguments, if it does.
pub open spec fn new_error(
    tilesize: u32,
    zoomlevel: u8,
    parentzoomlevel: Option<u8>,
    indexforzoom: u8,
    zoomrange: Option<RangeInclusive<u8>>,
    targetrange: Option<RangeInclusive<u32>>,
) -> Option<TileError> {
    if tilesize == 0 {
        Some(TileError::InvalidTileSize)
    } else if parentzoomlevel is Some {
        if !hierarchy_ok(zoomlevel as nat, parentzoomlevel->0 as nat, indexforzoom as nat) {
            Some(TileError::InvalidHierarchy)
        } else if zoomlevel > MAX_ZOOM {
            Some(TileError::InvalidZoomSpan)
        } else {
            None
        }
    } else {
        let (first, last) = span_of(zoomlevel, zoomrange);
        let (lo, hi) = target_of(total_tiles(first, last), targetrange);
        if !span_ok(first, last) {
            Some(TileError::InvalidZoomSpan)
        } else if !(0 <= lo <= hi < total_tiles(first, last)) {
            Some(TileError::InvalidRange)
        } else {
            None
        }
    }
}

/// First position of the linear index space handed to worker `k` of `n`.
pub open spec fn worker_lo(total: nat, k: nat, n: nat) -> nat {
    (total / n) * (k - 1) as nat
}

/// Last position of the linear index space handed to worker `k` of `n`: the
/// last worker also takes the remainder of the division.
pub open spec fn worker_hi(total: nat, k: nat, n: nat) -> nat {
    if k == n {
        (total - 1) as nat
    } else {
        (worker_lo(total, k, n) + total / n - 1) as nat
    }
}

/// Whether `k` names one of `n` workers, each of which gets at least one of
/// `total` tiles.
pub open spec fn workers_ok(total: nat, k: nat, n: nat) -> bool {
    1 <= k <= n <= total
}

/// The positions `(first, last)` of the linear index space of `total` tiles
/// handed to worker `worker` (counted from 1) of `workers`.
pub fn worker_range(total: u32, worker: u32, workers: u32) -> (r: Result<(u32, u32), TileError>)
    ensures
        r is Ok <==> workers_ok(total as nat, worker as nat, workers as nat),
        r is Err ==> r == Err::<(u32, u32), TileError>(TileError::InvalidRange),
        r is Ok ==> r->Ok_0.0 == worker_lo(total as nat, worker as nat, workers as nat)
            && r->Ok_0.1 == worker_hi(total as nat, worker as nat, workers as nat),
{
    if !(1 <= worker && worker <= workers && workers <= total) {
        return Err(TileError::InvalidRange);
    }
    let quota = total / workers;
    proof {
        assert(quota * workers <= total && quota >= 1) by (nonlinear_arith)
            requires
                quota == total / workers,
                1 <= workers <= total,
        ;
        lemma_mul_inequality(worker as int, workers as int, quota as int);
        lemma_mul_inequality((worker - 1) as int, workers as int, quota as int);
    }
    let lo = quota * (worker - 1);
    if worker == workers {
        Ok((lo, total - 1))
    } else {
        proof {
            assert(quota * (worker - 1) + quota == quota * worker) by (nonlinear_arith);
        }
        Ok((lo, lo + quota - 1))
    }
}

/// Dividing `total` tiles among `n` workers, with `1 <= n <= total`, hands
/// each worker a non-empty range within `0..=total - 1`; the first starts at
/// 0, the last ends at `total - 1`, each starts right after the one before
/// it ends, and no two overlap.
pub proof fn lemma_worker_partition(total: nat, n: nat)
    requires
        1 <= n <= total,
    ensures
        worker_lo(total, 1, n) == 0,
        worker_hi(total, n, n) == total - 1,
        forall|k: nat|
            1 <= k <= n ==> worker_lo(total, k, n) <= #[trigger] worker_hi(total, k, n) < total,
        forall|k: nat|
            1 <= k < n ==> #[trigger] worker_hi(total, k, n) + 1 == worker_lo(total, k + 1, n),
        forall|j: nat, k: nat|
            1 <= j < k <= n ==> #[trigger] worker_hi(total, j, n) < #[trigger] worker_lo(
                total,
                k,
                n,
            ),
{
    let q = total / n;
    assert(q * n <= total && q >= 1 && total < q * n + n) by (nonlinear_arith)
        requires
            q == total / n,
            1 <= n <= total,
    ;
    assert(q * 0 == 0) by (nonlinear_arith);
    assert forall|k: nat| 1 <= k <= n implies worker_lo(total, k, n) <= #[trigger] worker_hi(
        total,
        k,
        n,
    ) < total by {
        assert(q * (k - 1) + q == q * k) by (nonlinear_arith);
        assert(q * k <= q * n) by (nonlinear_arith)
            requires
                k <= n,
                q >= 1,
        ;
    }
    assert forall|k: nat| 1 <= k < n implies #[trigger] worker_hi(total, k, n) + 1 == worker_lo(
        total,
        k + 1,
        n,
    ) by {
        assert(q * (k - 1) + q == q * k) by (nonlinear_arith);
    }
    assert forall|j: nat, k: nat| 1 <= j < k <= n implies #[trigger] worker_hi(total, j, n)
        < #[trigger] worker_lo(total, k, n) by {
        assert(q * (j - 1) + q == q * j) by (nonlinear_arith);
        assert(q * j <= q * (k - 1)) by (nonlinear_arith)
            requires
                j <= k - 1,
                q >= 1,
        ;
    }
}

/// Dividing `total` tiles among `n` workers, with `1 <= n <= total`, leaves
/// no position of `0..=total - 1` out: position `g` lies in the range of some
/// worker.
pub proof fn lemma_worker_cover(total: nat, n: nat, g: nat)
    requires
        1 <= n <= total,
        g < total,
    ensures
        exists|k: nat| 1 <= k <= n && #[trigger] worker_lo(total, k, n) <= g <= worker_hi(total, k, n),
{
    let q = total / n;
    assert(q * n <= total && q >= 1) by (nonlinear_arith)
        requires
            q == total / n,
            1 <= n <= total,
    ;
    let d = g / q;
    assert(q * d <= g < q * d + q) by (nonlinear_arith)
        requires
            d == g / q,
            q >= 1,
    ;
    if d + 1 <= n {
        let k = (d + 1) as nat;
        assert(q * (k - 1) + q == q * k) by (nonlinear_arith);
        assert(worker_lo(total, k, n) <= g <= worker_hi(total, k, n));
    } else {
        assert(q * (n - 1) <= q * d) by (nonlinear_arith)
            requires
                n - 1 <= d,
                q >= 1,
        ;
        assert(worker_lo(total, n, n) <= g <= worker_hi(total, n, n));
    }
}

/// A configuration that produces positions `lo..=hi` of the linear index
/// space of `first..=last` produces, level by level, exactly those positions:
/// tile `l` of level `z` lies in the level's range to produce if and only if
/// its position lies in `lo..=hi`.
pub proof fn lemma_level_ranges_cover(
    c: Config,
    first: nat,
    last: nat,
    lo: nat,
    hi: nat,
    z: nat,
    l: nat,
)
    requires
        c.wf(),
        locates(first, last, lo, c.start_zoom(), c.start_tile()),
        locates(first, last, hi, c.end_zoom(), c.end_tile()),
        first <= z <= last,
        l < level_tiles(z),
    ensures
        (c.start_zoom() <= z <= c.end_zoom() && c.level_lo(z) <= l <= c.level_hi(z)) <==> (lo
            <= tiles_before(first, z) + l <= hi),
{
    let zs = c.start_zoom();
    let ze = c.end_zoom();
    if zs < z {
        lemma_tiles_before_monotonic(first, zs + 1, z);
    }
    if z < zs {
        lemma_tiles_before_monotonic(first, z + 1, zs);
    }
    if z < ze {
        lemma_tiles_before_monotonic(first, z + 1, ze);
    }
    if ze < z {
        lemma_tiles_before_monotonic(first, ze + 1, z);
    }
}

/// One run's tiling configuration: the tile size, the source image's zoom
/// level, its place in a deeper pyramid if any, the PNG compression preset,
/// and the tiles to produce as the levels where they start and end, with the
/// index of the first tile in the start level and of the last tile in the
/// end level.
pub struct Config {
    pub tilesize: u32,
    pub zoomlevel: u8,
    pub parentzoomlevel: Option<u8>,
    pub indexforzoom: u8,
    pub preset: Option<u8>,
    pub zoomrangetoslice: RangeInclusive<u8>,
    pub targetrangetoslice: RangeInclusive<u32>,
}

impl Config {
    /// First zoom level with tiles to produce.
    pub open spec fn start_zoom(&self) -> nat {
        self.zoomrangetoslice@.start as nat
    }

    /// Last zoom level with tiles to produce.
    pub open spec fn end_zoom(&self) -> nat {
        self.zoomrangetoslice@.end as nat
    }

    /// Index of the first tile to produce, within the start level.
    pub open spec fn start_tile(&self) -> nat {
        self.targetrangetoslice@.start as nat
    }

    /// Index of the last tile to produce, within the end level.
    pub open spec fn end_tile(&self) -> nat {
        self.targetrangetoslice@.end as nat
    }

    /// Index of the first tile to produce within level `z`.
    pub open spec fn level_lo(&self, z: nat) -> nat {
        if z == self.start_zoom() {
            self.start_tile()
        } else {
            0
        }
    }

    /// Index of the last tile to produce within level `z`.
    pub open spec fn level_hi(&self, z: nat) -> nat {
        if z == self.end_zoom() {
            self.end_tile()
        } else {
            (level_tiles(z) - 1) as nat
        }
    }

    /// The configuration describes a non-empty set of tiles of levels whose
    /// tile counts fit in 32 bits, and a valid place in a deeper pyramid.
    pub open spec fn wf(&self) -> bool {
        &&& self.tilesize > 0
        &&& !self.zoomrangetoslice@.exhausted
        &&& !self.targetrangetoslice@.exhausted
        &&& span_ok(self.start_zoom(), self.end_zoom())
        &&& self.start_tile() < level_tiles(self.start_zoom())
        &&& self.end_tile() < level_tiles(self.end_zoom())
        &&& self.start_zoom() == self.end_zoom() ==> self.start_tile() <= self.end_tile()
        &&& self.parentzoomlevel is Some ==> {
            &&& hierarchy_ok(
                self.zoomlevel as nat,
                self.parentzoomlevel->0 as nat,
                self.indexforzoom as nat,
            )
            &&& self.start_zoom() == self.zoomlevel
            &&& self.end_zoom() == self.zoomlevel
        }
    }

    /// The first and last index of the tiles to produce within level `z`.
    pub fn level_range(&self, z: u8) -> (r: (u32, u32))
        requires
            self.wf(),
            z <= MAX_ZOOM,
        ensures
            r.0 == self.level_lo(z as nat),
            r.1 == self.level_hi(z as nat),
            r.0 <= r.1 < level_tiles(z as nat),
    {
        let count = level_tile_count(z);
        proof {
            lemma_level_tiles_step(z as nat);
        }
        let lo = if z == *self.zoomrangetoslice.start() {
            *self.targetrangetoslice.start()
        } else {
            0
        };
        let hi = if z == *self.zoomrangetoslice.end() {
            *self.targetrangetoslice.end()
        } else {
            count - 1
        };
        (lo, hi)
    }

    /// Builds a configuration from the source zoom level and either a parent
    /// zoom level with the source's sub-tile index in it, or a zoom span
    /// (default: the source level alone) with the positions of its linear
    /// index space to produce. A `targetrange` of `a..=b` asks for positions
    /// `a` to `b`, both included, with `a <= b` and `b` below the span's tile
    /// count; without one, the whole span is produced. With a parent zoom
    /// level, the source level is produced whole.
    pub fn new(
        tilesize: u32,
        zoomlevel: u8,
        parentzoomlevel: Option<u8>,
        indexforzoom: u8,
        zoomrange: Option<RangeInclusive<u8>>,
        targetrange: Option<RangeInclusive<u32>>,
        preset: Option<u8>,
    ) -> (r: Result<Config, TileError>)
        requires
            zoomrange is Some ==> !zoomrange->0@.exhausted,
            targetrange is Some ==> !targetrange->0@.exhausted,
        ensures
            r is Err <==> new_error(
                tilesize,
                zoomlevel,
                parentzoomlevel,
                indexforzoom,
                zoomrange,
                targetrange,
            ) is Some,
            r is Err ==> r->Err_0 == new_error(
                tilesize,
                zoomlevel,
                parentzoomlevel,
                indexforzoom,
                zoomrange,
                targetrange,
            )->0,
            r is Ok ==> {
                let c = r->Ok_0;
                let (first, last) = span_of(zoomlevel, zoomrange);
                let (lo, hi) = target_of(total_tiles(first, last), targetrange);
                &&& c.wf()
                &&& c.tilesize == tilesize
                &&& c.zoomlevel == zoomlevel
                &&& c.parentzoomlevel == parentzoomlevel
                &&& c.indexforzoom == indexforzoom
                &&& c.preset == preset
                &&& parentzoomlevel is Some ==> {
                    &&& c.start_zoom() == zoomlevel && c.end_zoom() == zoomlevel
                    &&& c.start_tile() == 0
                    &&& c.end_tile() == level_tiles(zoomlevel as nat) - 1
                }
                &&& parentzoomlevel is None ==> {
                    &&& locates(first, last, lo as nat, c.start_zoom(), c.start_tile())
                    &&& locates(first, last, hi as nat, c.end_zoom(), c.end_tile())
                }
            },
    {
        if tilesize == 0 {
            return Err(TileError::InvalidTileSize);
        }
        if let Some(parent) = parentzoomlevel {
            if parent <= zoomlevel {
                return Err(TileError::InvalidHierarchy);
            }
            let depth = parent - zoomlevel;
            if depth < 4 {
                if indexforzoom as u32 >= level_tile_count(depth) {
                    return Err(TileError::InvalidHierarchy);
                }
            } else {
                proof {
                    lemma2_to64();
                    if 2 * depth > 8 {
                        lemma_pow2_strictly_increases(8, 2 * depth as nat);
                    }
                }
            }
            if zoomlevel > MAX_ZOOM {
                return Err(TileError::InvalidZoomSpan);
            }
            let count = level_tile_count(zoomlevel);
            proof {
                lemma_level_tiles_step(zoomlevel as nat);
            }
            return Ok(
                Config {
                    tilesize,
                    zoomlevel,
                    parentzoomlevel,
                    indexforzoom,
                    preset,
                    zoomrangetoslice: RangeInclusive::new(zoomlevel, zoomlevel),
                    targetrangetoslice: RangeInclusive::new(0, count - 1),
                },
            );
        }
        let (first, last) = match &zoomrange {
            Some(span) => (*span.start(), *span.end()),
            None => (zoomlevel, zoomlevel),
        };
        if !(first <= last && last <= MAX_ZOOM) {
            return Err(TileError::InvalidZoomSpan);
        }
        let total = total_tile_count(first, last);
        proof {
            lemma_tiles_before_monotonic(first as nat, first as nat, last as nat);
            lemma_level_tiles_step(last as nat);
        }
        let (lo, hi) = match &targetrange {
            Some(target) => {
                let a = *target.start();
                let b = *target.end();
                if !(a <= b && b < total) {
                    return Err(TileError::InvalidRange);
                }
                (a, b)
            },
            None => (0, total - 1),
        };
        Config::from_positions(tilesize, zoomlevel, indexforzoom, first, last, lo, hi, preset)
    }

    /// Builds the configuration of worker `worker` (counted from 1) of
    /// `workers`, which share the tiles of a zoom span (default: the source
    /// level alone) in contiguous ranges of its linear index space.
    pub fn for_worker(
        tilesize: u32,
        zoomlevel: u8,
        zoomrange: Option<RangeInclusive<u8>>,
        worker: u32,
        workers: u32,
        preset: Option<u8>,
    ) -> (r: Result<Config, TileError>)
        requires
            zoomrange is Some ==> !zoomrange->0@.exhausted,
        ensures
            ({
                let (first, last) = span_of(zoomlevel, zoomrange);
                let total = total_tiles(first, last);
                &&& base_error(tilesize, first, last) is Some ==> r == Err::<Config, TileError>(
                    base_error(tilesize, first, last)->0,
                )
                &&& base_error(tilesize, first, last) is None && !workers_ok(
                    total,
                    worker as nat,
                    workers as nat,
                ) ==> r == Err::<Config, TileError>(TileError::InvalidRange)
                &&& base_error(tilesize, first, last) is None && workers_ok(
                    total,
                    worker as nat,
                    workers as nat,
                ) ==> r is Ok
                &&& r is Ok ==> {
                    let c = r->Ok_0;
                    let lo = worker_lo(total, worker as nat, workers as nat);
                    let hi = worker_hi(total, worker as nat, workers as nat);
                    &&& c.wf()
                    &&& c.tilesize == tilesize
                    &&& c.zoomlevel == zoomlevel
                    &&& c.parentzoomlevel is None
                    &&& c.indexforzoom == 0
                    &&& c.preset == preset
                    &&& locates(first, last, lo, c.start_zoom(), c.start_tile())
                    &&& locates(first, last, hi, c.end_zoom(), c.end_tile())
                }
            }),
    {
        if tilesize == 0 {
            return Err(TileError::InvalidTileSize);
        }
        let (first, last) = match &zoomrange {
            Some(span) => (*span.start(), *span.end()),
            None => (zoomlevel, zoomlevel),
        };
        if !(first <= last && last <= MAX_ZOOM) {
            return Err(TileError::InvalidZoomSpan);
        }
        let total = total_tile_count(first, last);
        let (lo, hi) = match worker_range(total, worker, workers) {
            Ok(range) => range,
            Err(e) => return Err(e),
        };
        proof {
            lemma_worker_partition(total as nat, workers as nat);
        }
        Config::from_positions(tilesize, zoomlevel, 0, first, last, lo, hi, preset)
    }

    /// The configuration that produces positions `lo..=hi` of the linear
    /// index space of `first..=last`.
    fn from_positions(
        tilesize: u32,
        zoomlevel: u8,
        indexforzoom: u8,
        first: u8,
        last: u8,
        lo: u32,
        hi: u32,
        preset: Option<u8>,
    ) -> (r: Result<Config, TileError>)
        requires
            tilesize > 0,
            span_ok(first as nat, last as nat),
            lo <= hi < total_tiles(first as nat, last as nat),
        ensures
            r is Ok,
            ({
                let c = r->Ok_0;
                &&& c.wf()
                &&& c.tilesize == tilesize
                &&& c.zoomlevel == zoomlevel
                &&& c.parentzoomlevel is None
                &&& c.indexforzoom == indexforzoom
                &&& c.preset == preset
                &&& locates(first as nat, last as nat, lo as nat, c.start_zoom(), c.start_tile())
                &&& locates(first as nat, last as nat, hi as nat, c.end_zoom(), c.end_tile())
            }),
    {
        let (zooms, tiles) = match slice_span(first, last, lo, hi) {
            Ok(slice) => slice,
            Err(e) => return Err(e),
        };
        proof {
            if zooms@.start < zooms@.end {
                lemma_tiles_before_monotonic(first as nat, zooms@.start as nat + 1, zooms@.end as nat);
            } else if zooms@.end < zooms@.start {
                lemma_tiles_before_monotonic(first as nat, zooms@.end as nat + 1, zooms@.start as nat);
            }
        }
        Ok(
            Config {
                tilesize,
                zoomlevel,
                parentzoomlevel: None,
                indexforzoom,
                preset,
                zoomrangetoslice: zooms,
                targetrangetoslice: tiles,
            },
        )
    }
}

} // verus!
