use std::sync::atomic::{AtomicUsize, Ordering};
use vstd::arithmetic::div_mod::*;
use vstd::prelude::*;

verus! {

/// The number of consecutive row-major pixels in one unit of work.
pub const TILE_SIZE: usize = 8;

/// The pixel index at which the `k`-th claim of a frame starts, if that claim gets
/// a tile: the cursor moves by one tile per claim, and a claim whose start reaches
/// `max_index` finds the frame exhausted.
pub open spec fn claim_tile(k: nat, max_index: nat) -> Option<nat> {
    if k * TILE_SIZE < max_index {
        Some(k * (TILE_SIZE as nat))
    } else {
        None
    }
}

/// Whether pixel `p` lies in the tile that starts at `start`.
pub open spec fn in_tile(p: int, start: nat) -> bool {
    start <= p < start + TILE_SIZE
}

/// How many claims of a frame get a tile.
pub open spec fn claims_in_frame(max_index: nat) -> nat {
    ((max_index + TILE_SIZE - 1) as nat) / (TILE_SIZE as nat)
}

/// The pixels that one frame hands out.
pub open spec fn frame_pixels(max_index: nat) -> Set<int> {
    Set::new(|p: int| 0 <= p < claims_in_frame(max_index) * TILE_SIZE)
}

/// The pixels written when claim `k` of a frame goes to worker `owner[k]`, over all
/// workers below `workers`.
pub open spec fn written_pixels(max_index: nat, owner: Seq<nat>, workers: nat) -> Set<int> {
    Set::new(
        |p: int|
            exists|k: int|
                0 <= k < owner.len() && owner[k] < workers && #[trigger] claim_tile(
                    k as nat,
                    max_index,
                ) is Some && in_tile(p, claim_tile(k as nat, max_index)->Some_0),
    )
}

/// The tile handed out for cursor value `cursor`.
pub fn tile_start(cursor: usize, max_index: usize) -> (r: Option<usize>)
    ensures
        r == (if cursor >= max_index {
            None::<usize>
        } else {
            Some(cursor)
        }),
{
    if cursor >= max_index {
        None
    } else {
        Some(cursor)
    }
}

/// After a reset, the claims of a frame get pairwise disjoint tiles, the tiles
/// cover every pixel below `max_index`, and once a claim finds the frame
/// exhausted every later claim does too.
pub proof fn lemma_claims_partition(max_index: nat, k1: nat, k2: nat, p: int)
    ensures
        k1 != k2 && claim_tile(k1, max_index) is Some && claim_tile(k2, max_index) is Some
            ==> !(in_tile(p, claim_tile(k1, max_index)->Some_0) && in_tile(
            p,
            claim_tile(k2, max_index)->Some_0,
        )),
        0 <= p < max_index ==> claim_tile((p / TILE_SIZE as int) as nat, max_index) is Some
            && in_tile(p, claim_tile((p / TILE_SIZE as int) as nat, max_index)->Some_0),
        claim_tile(k1, max_index) is None && k1 <= k2 ==> claim_tile(k2, max_index) is None,
        claim_tile(k1, max_index) is Some <==> k1 < claims_in_frame(max_index),
{
    let t = TILE_SIZE as int;
    if k1 < k2 {
        assert(k1 * t + t <= k2 * t) by (nonlinear_arith)
            requires
                k1 < k2,
                t > 0,
        ;
    }
    if k2 < k1 {
        assert(k2 * t + t <= k1 * t) by (nonlinear_arith)
            requires
                k2 < k1,
                t > 0,
        ;
    }
    if k1 <= k2 {
        assert(k1 * t <= k2 * t) by (nonlinear_arith)
            requires
                k1 <= k2,
                t > 0,
        ;
    }
    if 0 <= p < max_index {
        lemma_fundamental_div_mod(p, t);
        let q = p / t;
        assert(q >= 0) by {
            lemma_div_pos_is_pos(p, t);
        }
        assert(0 <= p % t < t) by {
            lemma_mod_bound(p, t);
        }
    }
    lemma_fundamental_div_mod(max_index + t - 1, t);
    let n = claims_in_frame(max_index) as int;
    assert(0 <= (max_index + t - 1) % t < t) by {
        lemma_mod_bound(max_index + t - 1, t);
    }
    if k1 < n {
        assert(k1 * t < max_index) by (nonlinear_arith)
            requires
                k1 < n,
                k1 >= 0,
                max_index + t - 1 == t * n + (max_index + t - 1) % t,
                (max_index + t - 1) % t < t,
                t > 0,
        ;
    } else {
        assert(k1 * t >= max_index) by (nonlinear_arith)
            requires
                k1 >= n,
                max_index + t - 1 == t * n + (max_index + t - 1) % t,
                (max_index + t - 1) % t >= 0,
                t > 0,
        ;
    }
}

/// However the claims of one frame are spread over the workers, the pixels
/// written are those of the frame: the worker count changes which worker writes a
/// pixel, never which pixels are written.
pub proof fn lemma_written_pixels_independent_of_workers(
    max_index: nat,
    owner: Seq<nat>,
    workers: nat,
)
    requires
        owner.len() == claims_in_frame(max_index),
        forall|k: int| 0 <= k < owner.len() ==> owner[k] < workers,
    ensures
        written_pixels(max_index, owner, workers) == frame_pixels(max_index),
{
    let t = TILE_SIZE as int;
    let n = claims_in_frame(max_index);
    assert forall|p: int| #[trigger]
        written_pixels(max_index, owner, workers).contains(p) implies frame_pixels(
            max_index,
        ).contains(p) by {
        {
            let k = choose|k: int|
                0 <= k < owner.len() && owner[k] < workers && #[trigger] claim_tile(
                    k as nat,
                    max_index,
                ) is Some && in_tile(p, claim_tile(k as nat, max_index)->Some_0);
            assert(k + 1 <= n);
            assert(k * t + t <= n * t) by (nonlinear_arith)
                requires
                    k + 1 <= n,
                    t > 0,
            ;
        }
    }
    assert forall|p: int| #[trigger]
        frame_pixels(max_index).contains(p) implies written_pixels(
            max_index,
            owner,
            workers,
        ).contains(p) by {
        {
            let k = p / t;
            lemma_fundamental_div_mod(p, t);
            lemma_mod_bound(p, t);
            lemma_div_pos_is_pos(p, t);
            assert(k < n) by {
                lemma_multiply_divide_lt(p, t, n as int);
            }
            lemma_claims_partition(max_index, k as nat, k as nat, p);
            assert(claim_tile(k as nat, max_index) is Some);
            assert(in_tile(p, claim_tile(k as nat, max_index)->Some_0));
            assert(0 <= k < owner.len() && owner[k] < workers);
        }
    }
    assert(written_pixels(max_index, owner, workers) =~= frame_pixels(max_index));
}

/// Samples are jittered within a `STRATA_SQRT` by `STRATA_SQRT` grid over the pixel.
pub const STRATA_SQRT: usize = 4;

/// The number of strata, `STRATA_SQRT` squared.
pub const STRATA: usize = 16;

/// The grid cell, as column and row, of the stratum that sample number `sample` of a
/// pixel falls in: strata are visited row by row, and the pattern repeats.
pub fn stratum_cell(sample: usize) -> (r: (usize, usize))
    ensures
        r.0 == (sample as int % 16) % 4,
        r.1 == (sample as int % 16) / 4,
        r.0 < STRATA_SQRT,
        r.1 < STRATA_SQRT,
{
    let stratum = sample % STRATA;
    (stratum % STRATA_SQRT, stratum / STRATA_SQRT)
}

/// The row-major coordinates `(index % width, index / width)` of a claimed pixel
/// index, if any.
pub open spec fn xy_of(claim: Option<usize>, width: int) -> Option<(usize, usize)> {
    match claim {
        Some(i) => Some(((i as int % width) as usize, (i as int / width) as usize)),
        None => None,
    }
}

/// Turns a claimed pixel index into row-major coordinates.
pub fn xy_coords(claim: Option<usize>, width: usize) -> (r: Option<(usize, usize)>)
    requires
        width > 0,
    ensures
        r == xy_of(claim, width as int),
{
    match claim {
        Some(i) => Some((i % width, i / width)),
        None => None,
    }
}

/// What the coordinating thread tells the workers.
#[derive(Clone, Copy, Debug, PartialEq, Eq, Structural)]
pub enum ThreadMsg {
    /// Render one frame.
    Render,
    /// Exit.
    Stop,
}

/// The shared cursor over the pixels of a frame, from which workers claim tiles.
pub struct FilmRenderState {
    index: AtomicUsize,
    width: usize,
    height: usize,
    max_index: usize,
}

impl FilmRenderState {
    pub closed spec fn width(&self) -> nat {
        self.width as nat
    }

    pub closed spec fn height(&self) -> nat {
        self.height as nat
    }

    /// The first cursor value that finds the frame exhausted.
    pub closed spec fn max_index(&self) -> nat {
        self.max_index as nat
    }

    pub closed spec fn wf(&self) -> bool {
        &&& self.width > 0
        &&& self.width * self.height >= TILE_SIZE
        &&& self.max_index == self.width * self.height - TILE_SIZE
    }

    /// A state over `width` by `height` pixels; the image holds at least one tile.
    pub fn new(width: usize, height: usize) -> (r: Self)
        requires
            width * height <= usize::MAX,
            width * height >= TILE_SIZE,
        ensures
            r.wf(),
            r.width() == width,
            r.height() == height,
            r.max_index() == width * height - TILE_SIZE,
    {
        let max_index = width * height - TILE_SIZE;
        assert(width > 0) by (nonlinear_arith)
            requires
                width * height >= TILE_SIZE,
                width >= 0,
        ;
        Self { index: AtomicUsize::new(0), width, height, max_index }
    }

    /// Claims the next tile: the index of its first pixel, or `None` once the frame
    /// is exhausted. The tile lies inside the image.
    pub fn next_index(&self) -> (r: Option<usize>)
        requires
            self.wf(),
        ensures
            r matches Some(i) ==> i < self.max_index() && i + TILE_SIZE <= self.width()
                * self.height(),
    {
        let cursor = self.index.fetch_add(TILE_SIZE, Ordering::Relaxed);
        tile_start(cursor, self.max_index)
    }

    /// Claims the next tile and returns the row-major coordinates of its first
    /// pixel, or `None` once the frame is exhausted.
    pub fn next_xy_coords(&self) -> (r: Option<(usize, usize)>)
        requires
            self.wf(),
        ensures
            exists|claim: Option<usize>|
                (claim matches Some(i) ==> i < self.max_index()) && r == xy_of(
                    claim,
                    self.width() as int,
                ),
            r matches Some((x, y)) ==> x < self.width() && y < self.height() && y * self.width()
                + x < self.max_index(),
    {
        let claim = self.next_index();
        let r = xy_coords(claim, self.width);
        proof {
            if let Some(i) = claim {
                lemma_fundamental_div_mod(i as int, self.width as int);
                lemma_mod_bound(i as int, self.width as int);
                lemma_multiply_divide_lt(i as int, self.width as int, self.height as int);
                let (x, y) = r->Some_0;
                assert(y * self.width + x == i) by (nonlinear_arith)
                    requires
                        i == self.width * (i / self.width) + i % self.width,
                        y == i / self.width,
                        x == i % self.width,
                ;
            }
        }
        r
    }

    /// Rewinds the cursor to the first pixel; called between frames.
    pub fn reset(&self)
        requires
            self.wf(),
    {
        self.index.store(0, Ordering::Relaxed);
    }
}

} // verus!
