use vstd::prelude::*;

verus! {

/// The largest number of scattering events a single path may go through.
pub const MAX_BOUNCES: u32 = 32;

/// Russian roulette is considered only once a path has scattered more than
/// this many times.
pub const ROULETTE_AFTER: u32 = 2;

/// Renderer that paints a gradient over the image; it traces no rays.
pub struct DummyRenderer {}

/// Path-tracing renderer that averages a square grid of `samples` by
/// `samples` estimates inside every pixel.
pub struct PtRenderer {
    samples: u32,
}

/// A point in normalized device coordinates, held exactly as two fractions:
/// the horizontal coordinate is `u_num / u_den`, the vertical one
/// `v_num / v_den`.
#[derive(Clone, Copy, Debug, PartialEq, Eq, Structural)]
pub struct Ndc {
    pub u_num: i128,
    pub u_den: i128,
    pub v_num: i128,
    pub v_den: i128,
}

/// Numerator of the horizontal coordinate of sub-pixel column `k` of pixel
/// column `i`, over the denominator `s * w`: the point
/// `(i + (k + 1/2) / s) / w`, mapped from `[0, 1]` onto `[-1, 1]`.
pub open spec fn ndc_u_num(i: int, k: int, s: int, w: int) -> int {
    2 * (i * s + k) + 1 - s * w
}

/// Numerator of the vertical coordinate of sub-pixel row `l` of pixel row
/// `j`, over the denominator `s * h`: the point `(j + (l + 1/2) / s) / h`,
/// mapped from `[0, 1]` onto `[1, -1]` (rows grow downwards).
pub open spec fn ndc_v_num(j: int, l: int, s: int, h: int) -> int {
    s * h - 2 * (j * s + l) - 1
}

/// The exact device coordinates of sub-pixel `(k, l)` of pixel `(i, j)` in a
/// `w` by `h` image sampled with an `s` by `s` grid per pixel.
pub open spec fn ndc_of(i: int, j: int, k: int, l: int, s: int, w: int, h: int) -> Ndc {
    Ndc {
        u_num: ndc_u_num(i, k, s, w) as i128,
        u_den: (s * w) as i128,
        v_num: ndc_v_num(j, l, s, h) as i128,
        v_den: (s * h) as i128,
    }
}

/// Both coordinates lie strictly inside `(-1, 1)`, over positive
/// denominators.
pub open spec fn inside_unit_square(n: Ndc) -> bool {
    &&& n.u_den > 0
    &&& n.v_den > 0
    &&& -n.u_den < n.u_num < n.u_den
    &&& -n.v_den < n.v_num < n.v_den
}

/// For `x < n` and `y < m`, the offset `x * m + y` lies below `n * m`.
proof fn lemma_grid_offset(x: int, y: int, n: int, m: int)
    requires
        0 <= x < n,
        0 <= y < m,
    ensures
        0 <= x * m + y < n * m,
        0 <= x * m,
{
    assert(x * m <= (n - 1) * m) by (nonlinear_arith)
        requires
            x <= n - 1,
            0 <= m,
    ;
    assert((n - 1) * m == n * m - m) by (nonlinear_arith);
    assert(0 <= x * m) by (nonlinear_arith)
        requires
            0 <= x,
            0 <= m,
    ;
}

/// Products of two `u32` values stay below `2^64`.
proof fn lemma_u32_product(a: int, b: int)
    requires
        0 <= a <= u32::MAX,
        0 <= b <= u32::MAX,
    ensures
        0 <= a * b <= u32::MAX * u32::MAX,
{
    assert(0 <= a * b <= u32::MAX * u32::MAX) by (nonlinear_arith)
        requires
            0 <= a <= u32::MAX,
            0 <= b <= u32::MAX,
    ;
}

/// The device coordinate along one axis: numerator over denominator `s * n`.
fn axis_coordinate(i: u32, k: u32, s: u32, n: u32) -> (r: (i128, i128))
    requires
        i < n,
        k < s,
    ensures
        r.0 == 2 * (i * s + k) + 1 - s * n,
        r.1 == s * n,
        -r.1 < r.0 < r.1,
        r.1 > 0,
{
    proof {
        lemma_grid_offset(i as int, k as int, n as int, s as int);
        lemma_u32_product(i as int, s as int);
        lemma_u32_product(s as int, n as int);
        assert(s as int * n as int == n as int * s as int) by (nonlinear_arith);
    }
    let den: i128 = s as i128 * n as i128;
    let offset: i128 = i as i128 * s as i128 + k as i128;
    (2 * offset + 1 - den, den)
}

impl PtRenderer {
    pub closed spec fn sample_side(&self) -> nat {
        self.samples as nat
    }

    /// A renderer taking `s * s` samples per pixel; the sample count must be
    /// positive.
    pub fn new(s: u32) -> (r: PtRenderer)
        requires
            s > 0,
        ensures
            r.sample_side() == s,
    {
        PtRenderer { samples: s }
    }

    /// Number of sub-pixel samples along each side of a pixel.
    pub fn samples(&self) -> (r: u32)
        ensures
            r == self.sample_side(),
    {
        self.samples
    }

    /// Device coordinates of the centre of sub-pixel `(k, l)` in pixel
    /// `(i, j)` of a `width` by `height` image.
    pub fn subpixel_ndc(&self, i: u32, j: u32, k: u32, l: u32, width: u32, height: u32) -> (r: Ndc)
        requires
            i < width,
            j < height,
            k < self.sample_side(),
            l < self.sample_side(),
        ensures
            r == ndc_of(
                i as int,
                j as int,
                k as int,
                l as int,
                self.sample_side() as int,
                width as int,
                height as int,
            ),
            inside_unit_square(r),
    {
        let (u_num, u_den) = axis_coordinate(i, k, self.samples, width);
        let (flipped, v_den) = axis_coordinate(j, l, self.samples, height);
        Ndc { u_num, u_den, v_num: -flipped, v_den }
    }
    /// The device coordinates of every sample of pixel `(i, j)`, sub-pixel
    /// column by column: sample `(k, l)` stands at index `k * samples + l`.
    pub fn pixel_samples(&self, i: u32, j: u32, width: u32, height: u32) -> (r: Vec<Ndc>)
        requires
            i < width,
            j < height,
        ensures
            r@.len() == self.sample_side() * self.sample_side(),
            forall|k: int, l: int|
                0 <= k < self.sample_side() && 0 <= l < self.sample_side() ==> #[trigger] r@[k
                    * self.sample_side() + l] == ndc_of(
                    i as int,
                    j as int,
                    k,
                    l,
                    self.sample_side() as int,
                    width as int,
                    height as int,
                ),
    {
        let s = self.samples;
        let ghost sn = s as int;
        let mut out: Vec<Ndc> = Vec::new();
        let mut k: u32 = 0;
        while k < s
            invariant
                sn == self.sample_side(),
                i < width,
                j < height,
                s == sn,
                k <= s,
                out@.len() == k * sn,
                forall|a: int, b: int|
                    0 <= a < k && 0 <= b < sn ==> #[trigger] out@[a * sn + b] == ndc_of(
                        i as int,
                        j as int,
                        a,
                        b,
                        sn,
                        width as int,
                        height as int,
                    ),
            decreases s - k,
        {
            let mut l: u32 = 0;
            while l < s
                invariant
                    sn == self.sample_side(),
                    i < width,
                    j < height,
                    s == sn,
                    k < s,
                    l <= s,
                    out@.len() == k * sn + l,
                    forall|a: int, b: int|
                        0 <= a < k && 0 <= b < sn ==> #[trigger] out@[a * sn + b] == ndc_of(
                            i as int,
                            j as int,
                            a,
                            b,
                            sn,
                            width as int,
                            height as int,
                        ),
                    forall|b: int|
                        0 <= b < l ==> #[trigger] out@[k * sn + b] == ndc_of(
                            i as int,
                            j as int,
                            k as int,
                            b,
                            sn,
                            width as int,
                            height as int,
                        ),
                decreases s - l,
            {
                proof {
                    lemma_grid_offset(k as int, l as int, sn, sn);
                }
                let n = self.subpixel_ndc(i, j, k, l, width, height);
                out.push(n);
                proof {
                    assert forall|a: int, b: int| 0 <= a < k && 0 <= b < sn implies #[trigger] out@[a
                        * sn + b] == ndc_of(i as int, j as int, a, b, sn, width as int, height as int) by {
                        lemma_grid_offset(a, b, k as int, sn);
                    }
                }
                l = l + 1;
            }
            proof {
                assert forall|a: int, b: int| 0 <= a < k + 1 && 0 <= b < sn implies #[trigger] out@[a
                    * sn + b] == ndc_of(i as int, j as int, a, b, sn, width as int, height as int) by {
                    if a == k as int {
                    } else {
                    }
                }
                assert(k * sn + sn == (k + 1) * sn) by (nonlinear_arith);
            }
            k = k + 1;
        }
        out
    }
}

/// What the work of one bounce of a path turned out to be.
#[derive(Clone, Copy, Debug, PartialEq, Eq, Structural)]
pub enum BounceEvent {
    /// The ray left the scene; the sky's radiance ends the path.
    Miss,
    /// The hit material reflects nothing: its sampled density was not
    /// positive.
    Absorbed,
    /// Russian roulette ended the path.
    Killed,
    /// The path goes on from the hit point in the sampled direction.
    Scattered,
}

/// Progress of one light path through the integrator: how many times it has
/// scattered, and whether it has ended.
#[derive(Clone, Copy, Debug, PartialEq, Eq, Structural)]
pub struct PathState {
    pub bounces: u32,
    pub finished: bool,
}

impl PathState {
    /// A path never counts more bounces than the cap.
    pub open spec fn wf(self) -> bool {
        self.bounces <= MAX_BOUNCES
    }

    /// The path still traces: it has not ended and the cap is not reached.
    pub open spec fn live(self) -> bool {
        !self.finished && self.bounces < MAX_BOUNCES
    }

    /// The state after `e`: a scattering adds one bounce, anything else ends
    /// the path.
    pub open spec fn next(self, e: BounceEvent) -> PathState {
        match e {
            BounceEvent::Scattered => PathState { bounces: (self.bounces + 1) as u32, finished: false },
            _ => PathState { bounces: self.bounces, finished: true },
        }
    }

    /// `events` can be fed to the path one after the other, each while the
    /// path is still live.
    pub open spec fn admits(self, events: Seq<BounceEvent>) -> bool
        decreases events.len(),
    {
        events.len() == 0 || (self.live() && self.next(events[0]).admits(events.drop_first()))
    }

    /// The path of a fresh camera ray.
    pub fn start() -> (r: PathState)
        ensures
            r.bounces == 0,
            !r.finished,
            r.wf(),
            r.live(),
    {
        PathState { bounces: 0, finished: false }
    }

    /// Whether the integrator traces this path further.
    pub fn is_live(&self) -> (r: bool)
        ensures
            r == self.live(),
    {
        !self.finished && self.bounces < MAX_BOUNCES
    }

    /// Whether Russian roulette is played at the current hit.
    pub fn roulette_applies(&self) -> (r: bool)
        ensures
            r == (self.bounces > ROULETTE_AFTER),
    {
        self.bounces > ROULETTE_AFTER
    }

    /// Classifies the current bounce: a miss ends the path at the sky; a
    /// material that reflects nothing absorbs it; where roulette is played
    /// and lost the path is killed; otherwise it scatters.
    /// `roulette_survived` is only read where roulette applies.
    pub fn bounce_outcome(&self, hit: bool, reflects: bool, roulette_survived: bool) -> (e: BounceEvent)
        ensures
            e == (if !hit {
                BounceEvent::Miss
            } else if !reflects {
                BounceEvent::Absorbed
            } else if self.bounces > ROULETTE_AFTER && !roulette_survived {
                BounceEvent::Killed
            } else {
                BounceEvent::Scattered
            }),
    {
        if !hit {
            BounceEvent::Miss
        } else if !reflects {
            BounceEvent::Absorbed
        } else if self.roulette_applies() && !roulette_survived {
            BounceEvent::Killed
        } else {
            BounceEvent::Scattered
        }
    }

    /// Takes the outcome of the current bounce into account.
    pub fn advance(&self, e: BounceEvent) -> (r: PathState)
        requires
            self.wf(),
            self.live(),
        ensures
            r == self.next(e),
            r.wf(),
            e == BounceEvent::Scattered ==> r.bounces == self.bounces + 1 && !r.finished,
            e != BounceEvent::Scattered ==> r.bounces == self.bounces && r.finished && !r.live(),
    {
        match e {
            BounceEvent::Scattered => PathState { bounces: self.bounces + 1, finished: false },
            _ => PathState { bounces: self.bounces, finished: true },
        }
    }
}

/// Every path ends: from a well-formed state, at most `MAX_BOUNCES` minus the
/// bounces already taken further bounce outcomes can be processed, so a path
/// intersects the scene at most `MAX_BOUNCES` times.
pub proof fn lemma_path_terminates(p: PathState, events: Seq<BounceEvent>)
    requires
        p.wf(),
        p.admits(events),
    ensures
        events.len() <= MAX_BOUNCES - p.bounces,
    decreases events.len(),
{
    if events.len() > 0 {
        let q = p.next(events[0]);
        let rest = events.drop_first();
        assert(q.admits(rest));
        if rest.len() > 0 {
            assert(q.live());
        }
        lemma_path_terminates(q, rest);
    }
}

/// A path that is ended by anything but a scattering takes no further event.
pub proof fn lemma_only_scattering_continues(p: PathState, events: Seq<BounceEvent>)
    requires
        p.admits(events),
        events.len() > 1,
    ensures
        events[0] == BounceEvent::Scattered,
{
    assert(p.next(events[0]).admits(events.drop_first()));
}

/// Sum of the horizontal numerators of the first `n` sub-pixel columns of
/// pixel column `i`.
pub open spec fn u_num_sum(i: int, s: int, w: int, n: nat) -> int
    decreases n,
{
    if n == 0 {
        0
    } else {
        u_num_sum(i, s, w, (n - 1) as nat) + ndc_u_num(i, n - 1, s, w)
    }
}

proof fn lemma_u_num_sum_closed(i: int, s: int, w: int, n: nat)
    ensures
        u_num_sum(i, s, w, n) == n * (2 * i * s + 1 - s * w) + n * (n - 1),
    decreases n,
{
    if n > 0 {
        let m = (n - 1) as nat;
        lemma_u_num_sum_closed(i, s, w, m);
        let prev = u_num_sum(i, s, w, m);
        assert(u_num_sum(i, s, w, n) == prev + ndc_u_num(i, m as int, s, w));
        assert(prev + (2 * (i * s + m) + 1 - s * w) == n * (2 * i * s + 1 - s * w) + n * (n - 1))
            by (nonlinear_arith)
            requires
                m == n - 1,
                prev == m * (2 * i * s + 1 - s * w) + m * (m - 1),
        ;
    } else {
        assert(n * (2 * i * s + 1 - s * w) + n * (n - 1) == 0) by (nonlinear_arith)
            requires
                n == 0,
        ;
    }
}

/// The sample grid of a pixel is centred on it: over its `s` sub-pixel
/// columns the horizontal numerators (each over `s * w`) add up to
/// `s * s * (2 * i + 1 - w)`, so their mean is `(2 * i + 1 - w) / w`, the
/// centre of pixel column `i`; the same holds of rows, with the vertical axis
/// flipped.
pub proof fn lemma_grid_centred(i: int, j: int, s: nat, w: int, h: int)
    ensures
        u_num_sum(i, s as int, w, s) == s * s * (2 * i + 1 - w),
        u_num_sum(j, s as int, h, s) == -(s * s * (h - 2 * j - 1)),
        forall|l: int| #[trigger] ndc_v_num(j, l, s as int, h) == -ndc_u_num(j, l, s as int, h),
{
    lemma_u_num_sum_closed(i, s as int, w, s);
    lemma_u_num_sum_closed(j, s as int, h, s);
    assert(s * (2 * i * s + 1 - s * w) + s * (s - 1) == s * s * (2 * i + 1 - w)) by (nonlinear_arith);
    assert(s * (2 * j * s + 1 - s * h) + s * (s - 1) == -(s * s * (h - 2 * j - 1))) by (nonlinear_arith);
}

} // verus!
