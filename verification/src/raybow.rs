//! Worker-side render state and the pixel scheduler's arithmetic.
//!
//! Workers claim pixels from a shared counter; the only arbiter of pixel
//! ownership is the claimed number. `pixel_coords` maps a claimed number to
//! its pixel, and the lemmas below show the map is a bijection between
//! counter values below `width * height` and the pixels of the image: two
//! distinct claims never land on the same pixel, and every pixel is reached
//! by exactly one claim.

use vstd::prelude::*;
use crate::material::MaterialHitResult;
use crate::philox::{philox_gen, Philox4x32_10};

verus! {

/// One bounce of a traced path: what the tracer was handed, what it
/// answered, and the accumulators as they stood going in.
pub struct BounceRec<W, C, R> {
    pub state_in: W,
    pub ray_in: R,
    pub state_out: W,
    pub outcome: Option<MaterialHitResult<C, R>>,
    pub emitting_in: C,
    pub attenuation_in: C,
}

/// A non-final bounce scattered: the tracer's outcome carried a reflection,
/// the next bounce starts from the tracer's state and the reflected ray, the
/// emission was accumulated through one multiply and one add, and the
/// attenuation picked up the reflection's color through one multiply.
pub open spec fn step_linked<W, C, R, FA: Fn(C, C) -> C, FM: Fn(C, C) -> C>(
    cadd: FA,
    cmul: FM,
    rec: BounceRec<W, C, R>,
    nxt: (W, R, C, C),
) -> bool {
    match rec.outcome {
        Some(mhr) => match mhr.reflection {
            Some(refl) => {
                &&& nxt.0 == rec.state_out
                &&& nxt.1 == refl.ray
                &&& exists|m: C|
                    #[trigger] call_ensures(cmul, (rec.attenuation_in, mhr.emission), m)
                        && call_ensures(cadd, (rec.emitting_in, m), nxt.2)
                &&& call_ensures(cmul, (rec.attenuation_in, refl.attenuation), nxt.3)
            },
            None => false,
        },
        None => false,
    }
}

/// The records chain together from the starting state, ray and accumulator
/// seeds: each bounce is one answer of the tracer, and each hands the next
/// its state, ray and accumulators.
pub open spec fn bounce_chain_partial<
    W,
    C,
    R,
    FT: Fn(W, R) -> (W, Option<MaterialHitResult<C, R>>),
    FA: Fn(C, C) -> C,
    FM: Fn(C, C) -> C,
>(
    trace: FT,
    cadd: FA,
    cmul: FM,
    s0: W,
    ray0: R,
    black: C,
    white: C,
    recs: Seq<BounceRec<W, C, R>>,
    cur: (W, R, C, C),
) -> bool {
    &&& forall|k: int|
        0 <= k < recs.len() ==> call_ensures(
            trace,
            ((#[trigger] recs[k]).state_in, recs[k].ray_in),
            (recs[k].state_out, recs[k].outcome),
        )
    &&& (recs.len() == 0 ==> cur == (s0, ray0, black, white))
    &&& (recs.len() > 0 ==> recs[0].state_in == s0 && recs[0].ray_in == ray0
        && recs[0].emitting_in == black && recs[0].attenuation_in == white)
    &&& forall|k: int|
        0 <= k < recs.len() ==> step_linked(
            cadd,
            cmul,
            #[trigger] recs[k],
            if k + 1 < recs.len() {
                (
                    recs[k + 1].state_in,
                    recs[k + 1].ray_in,
                    recs[k + 1].emitting_in,
                    recs[k + 1].attenuation_in,
                )
            } else {
                cur
            },
        )
}

/// The whole story of one traced path: one bounce at least while the budget
/// allows any, at most `max_bounces` in all, every one but the last
/// scattering, and the result colored by how the path ended — scattered past
/// the budget, absorbed, or flown off into the background.
pub open spec fn bounce_chain<
    W,
    C,
    R,
    FT: Fn(W, R) -> (W, Option<MaterialHitResult<C, R>>),
    FA: Fn(C, C) -> C,
    FM: Fn(C, C) -> C,
>(
    trace: FT,
    cadd: FA,
    cmul: FM,
    background: C,
    s0: W,
    ray0: R,
    black: C,
    white: C,
    max_bounces: u32,
    recs: Seq<BounceRec<W, C, R>>,
    res_state: W,
    res_color: C,
) -> bool {
    &&& recs.len() <= max_bounces
    &&& (max_bounces > 0 ==> recs.len() > 0)
    &&& forall|k: int|
        0 <= k < recs.len() ==> call_ensures(
            trace,
            ((#[trigger] recs[k]).state_in, recs[k].ray_in),
            (recs[k].state_out, recs[k].outcome),
        )
    &&& (recs.len() == 0 ==> res_state == s0 && res_color == black)
    &&& (recs.len() > 0 ==> recs[0].state_in == s0 && recs[0].ray_in == ray0
        && recs[0].emitting_in == black && recs[0].attenuation_in == white)
    &&& forall|k: int|
        0 <= k < recs.len() - 1 ==> step_linked(
            cadd,
            cmul,
            #[trigger] recs[k],
            (
                recs[k + 1].state_in,
                recs[k + 1].ray_in,
                recs[k + 1].emitting_in,
                recs[k + 1].attenuation_in,
            ),
        )
    &&& (recs.len() > 0 ==> {
        let last = recs[recs.len() - 1];
        &&& res_state == last.state_out
        &&& match last.outcome {
            None => exists|m: C|
                #[trigger] call_ensures(cmul, (last.attenuation_in, background), m)
                    && call_ensures(cadd, (last.emitting_in, m), res_color),
            Some(mhr) => exists|m: C|
                #[trigger] call_ensures(cmul, (last.attenuation_in, mhr.emission), m)
                    && call_ensures(cadd, (last.emitting_in, m), res_color) && (
                match mhr.reflection {
                    None => true,
                    Some(_) => recs.len() == max_bounces,
                }),
        }
    })
}

/// The iterative path integrator: accumulates emission scaled by the running
/// attenuation, follows reflected rays, and stops on a miss, on absorption,
/// or when the bounce budget runs out — truncation, not an error. The
/// tracer, the color arithmetic and their representations are the caller's;
/// what is guaranteed is the bounce discipline, recorded in the chain.
#[verifier::loop_isolation(false)]
#[verifier::rlimit(100)]
pub fn ray_color<W, C: Copy, R: Copy, FT, FA, FM>(
    state: W,
    ray: R,
    max_bounces: u32,
    trace: &FT,
    cadd: &FA,
    cmul: &FM,
    background: C,
    black: C,
    white: C,
) -> (res: (W, C, Ghost<Seq<BounceRec<W, C, R>>>)) where
    FT: Fn(W, R) -> (W, Option<MaterialHitResult<C, R>>),
    FA: Fn(C, C) -> C,
    FM: Fn(C, C) -> C,

    requires
        forall|w: W, r: R| #[trigger] call_requires(*trace, (w, r)),
        forall|a: C, b: C| #[trigger] call_requires(*cadd, (a, b)),
        forall|a: C, b: C| #[trigger] call_requires(*cmul, (a, b)),
    ensures
        bounce_chain(
            *trace,
            *cadd,
            *cmul,
            background,
            state,
            ray,
            black,
            white,
            max_bounces,
            res.2@,
            res.0,
            res.1,
        ),
{
    let ghost s0 = state;
    let mut st = state;
    let mut cur_ray = ray;
    let mut emitting = black;
    let mut attenuation = white;
    let ghost mut recs: Seq<BounceRec<W, C, R>> = Seq::empty();
    let mut bounce: u32 = 0;
    while bounce < max_bounces
        invariant
            bounce <= max_bounces,
            recs.len() == bounce,
            bounce_chain_partial(
                *trace,
                *cadd,
                *cmul,
                s0,
                ray,
                black,
                white,
                recs,
                (st, cur_ray, emitting, attenuation),
            ),
        decreases max_bounces - bounce,
    {
        let ghost st_in = st;
        let ghost ray_in = cur_ray;
        let (st2, outcome) = trace(st, cur_ray);
        let ghost outcome_g = outcome;
        let ghost rec = BounceRec {
            state_in: st_in,
            ray_in: ray_in,
            state_out: st2,
            outcome: outcome_g,
            emitting_in: emitting,
            attenuation_in: attenuation,
        };
        match outcome {
            Some(mhr) => {
                let m = cmul(attenuation, mhr.emission);
                let e2 = cadd(emitting, m);
                match mhr.reflection {
                    Some(refl) => {
                        let a2 = cmul(attenuation, refl.attenuation);
                        proof {
                            recs = recs.push(rec);
                            assert forall|k: int| 0 <= k < recs.len() - 1 implies step_linked(
                                *cadd,
                                *cmul,
                                #[trigger] recs[k],
                                (
                                    recs[k + 1].state_in,
                                    recs[k + 1].ray_in,
                                    recs[k + 1].emitting_in,
                                    recs[k + 1].attenuation_in,
                                ),
                            ) by {}
                        }
                        st = st2;
                        cur_ray = refl.ray;
                        emitting = e2;
                        attenuation = a2;
                        bounce = bounce + 1;
                    },
                    None => {
                        proof {
                            recs = recs.push(rec);
                            assert forall|k: int| 0 <= k < recs.len() - 1 implies step_linked(
                                *cadd,
                                *cmul,
                                #[trigger] recs[k],
                                (
                                    recs[k + 1].state_in,
                                    recs[k + 1].ray_in,
                                    recs[k + 1].emitting_in,
                                    recs[k + 1].attenuation_in,
                                ),
                            ) by {}
                            assert(recs[recs.len() - 1] == rec);
                            assert(bounce_chain(
                                *trace,
                                *cadd,
                                *cmul,
                                background,
                                s0,
                                ray,
                                black,
                                white,
                                max_bounces,
                                recs,
                                st2,
                                e2,
                            ));
                        }
                        return (st2, e2, Ghost(recs));
                    },
                }
            },
            None => {
                let m = cmul(attenuation, background);
                let e2 = cadd(emitting, m);
                proof {
                    recs = recs.push(rec);
                    assert forall|k: int| 0 <= k < recs.len() - 1 implies step_linked(
                        *cadd,
                        *cmul,
                        #[trigger] recs[k],
                        (
                            recs[k + 1].state_in,
                            recs[k + 1].ray_in,
                            recs[k + 1].emitting_in,
                            recs[k + 1].attenuation_in,
                        ),
                    ) by {}
                    assert(recs[recs.len() - 1] == rec);
                    assert(bounce_chain(
                        *trace,
                        *cadd,
                        *cmul,
                        background,
                        s0,
                        ray,
                        black,
                        white,
                        max_bounces,
                        recs,
                        st2,
                        e2,
                    ));
                }
                return (st2, e2, Ghost(recs));
            },
        }
    }
    proof {
        if recs.len() > 0 {
            assert(step_linked(
                *cadd,
                *cmul,
                recs[recs.len() - 1],
                (st, cur_ray, emitting, attenuation),
            ));
        }
        assert(bounce_chain(
            *trace,
            *cadd,
            *cmul,
            background,
            s0,
            ray,
            black,
            white,
            max_bounces,
            recs,
            st,
            emitting,
        ));
    }
    (st, emitting, Ghost(recs))
}

/// Per-thread state: the RNG key plus the counters that identify the current
/// pixel, sample, ray and draw. The full counter tuple makes every random
/// draw a pure function of render position, never of scheduling.
pub struct WorkerState {
    pub philox: Philox4x32_10,
    /// The current pixel number.
    pub pixel_number: u32,
    /// The sample number of the current pixel.
    pub sample_number: u32,
    /// The ray number of the current sample.
    pub ray_number: u32,
    pub rng_cnt: u32,
}

impl WorkerState {
    /// Keys the generator with the render seed; all counters start at zero.
    pub fn new(seed: u64) -> (s: WorkerState)
        ensures
            s.philox.0@ == seq![(seed >> 32) as u32, (seed & 0xFFFF_FFFF) as u32],
            s.pixel_number == 0,
            s.sample_number == 0,
            s.ray_number == 0,
            s.rng_cnt == 0,
    {
        proof {
            vstd::bits::lemma_u64_shr_is_div(seed, 32);
            vstd::arithmetic::power2::lemma2_to64();
            assert(seed & 0xFFFF_FFFF < 0x1_0000_0000) by (bit_vector);
        }
        let s = WorkerState {
            philox: Philox4x32_10([(seed >> 32) as u32, (seed & 0xFFFF_FFFF) as u32]),
            pixel_number: 0,
            sample_number: 0,
            ray_number: 0,
            rng_cnt: 0,
        };
        proof {
            assert(s.philox.0@ =~= seq![(seed >> 32) as u32, (seed & 0xFFFF_FFFF) as u32]);
        }
        s
    }

    /// Starts a fresh trace of one sample of one pixel.
    pub fn init_trace(&mut self, pixel_number: u32, sample_number: u32)
        ensures
            final(self).philox == old(self).philox,
            final(self).pixel_number == pixel_number,
            final(self).sample_number == sample_number,
            final(self).ray_number == 0,
            final(self).rng_cnt == 0,
    {
        self.pixel_number = pixel_number;
        self.sample_number = sample_number;
        self.ray_number = 0;
        self.rng_cnt = 0;
    }

    /// Draws four words from the generator, keyed by the current position
    /// counters, and advances the per-sample draw counter.
    pub fn gen_random_words(&mut self) -> (out: [u32; 4])
        requires
            old(self).rng_cnt < u32::MAX,
        ensures
            out@ == philox_gen(
                old(self).philox.0@,
                seq![
                    old(self).pixel_number,
                    old(self).sample_number,
                    old(self).ray_number,
                    old(self).rng_cnt,
                ],
            ),
            final(self).rng_cnt == old(self).rng_cnt + 1,
            final(self).philox == old(self).philox,
            final(self).pixel_number == old(self).pixel_number,
            final(self).sample_number == old(self).sample_number,
            final(self).ray_number == old(self).ray_number,
    {
        let ctr = [self.pixel_number, self.sample_number, self.ray_number, self.rng_cnt];
        self.rng_cnt = self.rng_cnt + 1;
        proof {
            assert(ctr@ =~= seq![
                old(self).pixel_number,
                old(self).sample_number,
                old(self).ray_number,
                old(self).rng_cnt,
            ]);
        }
        self.philox.gen(ctr)
    }
}

/// The pixel a claimed counter value owns, in row-major order.
pub fn pixel_coords(pixel_number: u32, image_width: u32) -> (r: (u32, u32))
    requires
        image_width > 0,
    ensures
        r.0 == pixel_number % image_width,
        r.1 == pixel_number / image_width,
        r.0 < image_width,
        pixel_number == r.1 * image_width + r.0,
{
    let x = pixel_number % image_width;
    let y = pixel_number / image_width;
    proof {
        vstd::arithmetic::div_mod::lemma_fundamental_div_mod(
            pixel_number as int,
            image_width as int,
        );
        assert(image_width * (pixel_number as int / image_width as int) == (pixel_number as int
            / image_width as int) * image_width) by (nonlinear_arith);
    }
    (x, y)
}

/// Two distinct claimed counter values own distinct pixels: the claim counter
/// alone decides ownership, so no framebuffer slot is ever written twice.
pub proof fn lemma_claims_distinct(a: u32, b: u32, width: u32)
    requires
        width > 0,
        a != b,
    ensures
        (a % width, a / width) != (b % width, b / width),
{
    vstd::arithmetic::div_mod::lemma_fundamental_div_mod(a as int, width as int);
    vstd::arithmetic::div_mod::lemma_fundamental_div_mod(b as int, width as int);
}

/// Every pixel of a `width` by `height` image is owned by some claimed
/// counter value below `width * height`: together with `lemma_claims_distinct`,
/// each pixel slot is written exactly once when the claims run from zero to
/// `width * height`.
pub proof fn lemma_claims_cover(x: u32, y: u32, width: u32, height: u32)
    requires
        x < width,
        y < height,
    ensures
        (y * width + x) < width * height,
        ((y * width + x) as int) % (width as int) == x,
        ((y * width + x) as int) / (width as int) == y,
{
    let n = y * width + x;
    assert(n < width * height) by (nonlinear_arith)
        requires x < width && y < height && n == y * width + x;
    vstd::arithmetic::div_mod::lemma_fundamental_div_mod_converse(
        n as int,
        width as int,
        y as int,
        x as int,
    );
}

} // verus!
