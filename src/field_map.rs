use num::Complex;
use vstd::prelude::*;

verus! {

/// A rectangle of the complex plane sampled on a regular grid.
///
/// `precomputed_re` holds one real-axis sample per column, left to right;
/// `precomputed_im` holds one imaginary-axis sample per row, top to bottom.
/// Pixels are numbered row by row: pixel `i` lies in column
/// `i % re_resolution` and row `i / re_resolution`.
pub struct FieldMap<T> {
    pub re_resolution: usize,
    pub im_resolution: usize,
    pub precomputed_re: Vec<T>,
    pub precomputed_im: Vec<T>,
}

/// The byte reported for a point that escapes on (zero-based) iteration `i`
/// of a run bounded by `max_iters`: the iterations left, modulo 256.
pub open spec fn escape_code(max_iters: int, i: int) -> u8 {
    ((max_iters - i) % 256) as u8
}

impl<T> FieldMap<T> {
    /// Both resolutions are positive, each table has one sample per column or
    /// row, and the pixel count fits in a `usize`.
    pub open spec fn wf(&self) -> bool {
        &&& self.re_resolution > 0
        &&& self.im_resolution > 0
        &&& self.precomputed_re@.len() == self.re_resolution
        &&& self.precomputed_im@.len() == self.im_resolution
        &&& self.re_resolution * self.im_resolution <= usize::MAX
    }

    /// The number of pixels.
    pub open spec fn limit(&self) -> int {
        self.re_resolution * self.im_resolution
    }

    /// The column of pixel `index`.
    pub open spec fn column(&self, index: int) -> int {
        index % (self.re_resolution as int)
    }

    /// The row of pixel `index`.
    pub open spec fn row(&self, index: int) -> int {
        index / (self.re_resolution as int)
    }

    /// The real part of pixel `index`.
    pub open spec fn point_re(&self, index: int) -> T {
        self.precomputed_re@[self.column(index)]
    }

    /// The imaginary part of pixel `index`.
    pub open spec fn point_im(&self, index: int) -> T {
        self.precomputed_im@[self.row(index)]
    }

    /// `orbit` is the sequence of points that an escape-time run tested, and
    /// `r` is what the run reports: the orbit starts at `origin`, each point
    /// is `iterate` applied to the one before it and `c`, and every point but
    /// the last was found not to have `diverged`. Either the last point
    /// diverged and `r` encodes its iteration, or all `max_iters` points were
    /// tested without divergence and `r` is zero.
    pub open spec fn escape_run<E, S>(
        c: Complex<T>,
        max_iters: int,
        origin: Complex<T>,
        diverged: E,
        iterate: S,
        orbit: Seq<Complex<T>>,
        r: u8,
    ) -> bool where E: Fn(Complex<T>) -> bool, S: Fn(Complex<T>, Complex<T>) -> Complex<T> {
        &&& orbit.len() <= max_iters
        &&& orbit.len() > 0 ==> orbit[0] == origin
        &&& forall|k: int|
            0 < k < orbit.len() ==> iterate.ensures((orbit[k - 1], c), #[trigger] orbit[k])
        &&& forall|k: int| 0 <= k < orbit.len() - 1 ==> #[trigger] diverged.ensures((orbit[k],), false)
        &&& {
            ||| (orbit.len() > 0 && diverged.ensures((orbit.last(),), true) && r == escape_code(
                max_iters,
                orbit.len() - 1,
            ))
            ||| (orbit.len() == max_iters && (orbit.len() > 0 ==> diverged.ensures(
                (orbit.last(),),
                false,
            )) && r == 0)
        }
    }

    /// Looking a pixel up is repeatable: any two results that meet the
    /// contract of `get_point` for the same map and index are the same point.
    pub proof fn lemma_get_point_repeatable(&self, index: int, p: Complex<T>, q: Complex<T>)
        requires
            self.wf(),
            0 <= index < self.limit(),
            p.re == self.point_re(index),
            p.im == self.point_im(index),
            q.re == self.point_re(index),
            q.im == self.point_im(index),
        ensures
            p == q,
    {
    }

    /// An orbit that never leaves a region where no point counts as
    /// diverged never escapes: if `inside` holds of `origin`, is kept by
    /// every step, and excludes divergence, every escape-time run reports
    /// zero.
    pub proof fn lemma_bounded_orbit_never_escapes<E, S>(
        c: Complex<T>,
        max_iters: int,
        origin: Complex<T>,
        diverged: E,
        iterate: S,
        inside: spec_fn(Complex<T>) -> bool,
        orbit: Seq<Complex<T>>,
        r: u8,
    ) where E: Fn(Complex<T>) -> bool, S: Fn(Complex<T>, Complex<T>) -> Complex<T>
        requires
            inside(origin),
            forall|z: Complex<T>, w: Complex<T>|
                inside(z) && #[trigger] iterate.ensures((z, c), w) ==> inside(w),
            forall|z: Complex<T>| inside(z) ==> !(#[trigger] diverged.ensures((z,), true)),
            Self::escape_run(c, max_iters, origin, diverged, iterate, orbit, r),
        ensures
            r == 0,
    {
        if orbit.len() > 0 {
            Self::lemma_orbit_stays_inside(c, origin, iterate, inside, orbit, orbit.len() - 1);
        }
    }

    proof fn lemma_orbit_stays_inside<S>(
        c: Complex<T>,
        origin: Complex<T>,
        iterate: S,
        inside: spec_fn(Complex<T>) -> bool,
        orbit: Seq<Complex<T>>,
        k: int,
    ) where S: Fn(Complex<T>, Complex<T>) -> Complex<T>
        requires
            0 <= k < orbit.len(),
            orbit[0] == origin,
            inside(origin),
            forall|z: Complex<T>, w: Complex<T>|
                inside(z) && #[trigger] iterate.ensures((z, c), w) ==> inside(w),
            forall|j: int|
                0 < j < orbit.len() ==> iterate.ensures((orbit[j - 1], c), #[trigger] orbit[j]),
        ensures
            inside(orbit[k]),
        decreases k,
    {
        if k > 0 {
            Self::lemma_orbit_stays_inside(c, origin, iterate, inside, orbit, k - 1);
            assert(iterate.ensures((orbit[k - 1], c), orbit[k]));
        }
    }

    /// A run whose origin has already diverged escapes on iteration zero:
    /// with at least one iteration allowed, it reports `max_iters & 0xff`.
    pub proof fn lemma_escape_at_origin<E, S>(
        c: Complex<T>,
        max_iters: int,
        origin: Complex<T>,
        diverged: E,
        iterate: S,
        orbit: Seq<Complex<T>>,
        r: u8,
    ) where E: Fn(Complex<T>) -> bool, S: Fn(Complex<T>, Complex<T>) -> Complex<T>
        requires
            max_iters >= 1,
            !diverged.ensures((origin,), false),
            Self::escape_run(c, max_iters, origin, diverged, iterate, orbit, r),
        ensures
            r == escape_code(max_iters, 0),
    {
        if orbit.len() > 1 {
            assert(diverged.ensures((orbit[0],), false));
        }
    }

    /// A point whose origin has not diverged but whose first step has
    /// escapes on iteration one: with at least two iterations allowed, the
    /// run reports `(max_iters - 1) & 0xff`.
    pub proof fn lemma_escape_after_one_step<E, S>(
        c: Complex<T>,
        max_iters: int,
        origin: Complex<T>,
        diverged: E,
        iterate: S,
        orbit: Seq<Complex<T>>,
        r: u8,
    ) where E: Fn(Complex<T>) -> bool, S: Fn(Complex<T>, Complex<T>) -> Complex<T>
        requires
            max_iters >= 2,
            !diverged.ensures((origin,), true),
            forall|w: Complex<T>|
                #[trigger] iterate.ensures((origin, c), w) ==> !diverged.ensures((w,), false),
            Self::escape_run(c, max_iters, origin, diverged, iterate, orbit, r),
        ensures
            r == escape_code(max_iters, 1),
    {
        if orbit.len() > 2 {
            assert(iterate.ensures((orbit[0], c), orbit[1]));
            assert(diverged.ensures((orbit[1],), false));
        }
    }
}

/// Builds the table `at(0), at(1), ..., at(n - 1)`.
fn sample_axis<T, F>(n: usize, at: F) -> (v: Vec<T>) where F: Fn(usize) -> T
    requires
        forall|x: usize| x < n ==> #[trigger] at.requires((x,)),
    ensures
        v@.len() == n,
        forall|x: int| 0 <= x < n ==> at.ensures((x as usize,), #[trigger] v@[x]),
{
    let mut v: Vec<T> = Vec::with_capacity(n);
    let mut x: usize = 0;
    while x < n
        invariant
            x <= n,
            v@.len() == x,
            forall|k: usize| k < n ==> #[trigger] at.requires((k,)),
            forall|k: int| 0 <= k < x ==> at.ensures((k as usize,), #[trigger] v@[k]),
        decreases n - x,
    {
        let s = at(x);
        v.push(s);
        x = x + 1;
    }
    v
}

/// The iterations left, `max_iters - i`, reduced to a byte.
fn escape_byte(max_iters: usize, i: usize) -> (r: u8)
    requires
        i < max_iters,
    ensures
        r == escape_code(max_iters as int, i as int),
{
    let left: usize = max_iters - i;
    assert((left & 0xff) == left % 256) by (bit_vector);
    (left & 0xff) as u8
}

impl<T: Copy> FieldMap<T> {
    /// Materialises the sample tables: column `x` gets `re_at(x)` and row `y`
    /// gets `im_at(y)`. Each sample is computed once, here.
    pub fn new<F, G>(re_resolution: usize, im_resolution: usize, re_at: F, im_at: G) -> (m: Self) where
        F: Fn(usize) -> T,
        G: Fn(usize) -> T,
        requires
            re_resolution > 0,
            im_resolution > 0,
            re_resolution * im_resolution <= usize::MAX,
            forall|x: usize| x < re_resolution ==> #[trigger] re_at.requires((x,)),
            forall|y: usize| y < im_resolution ==> #[trigger] im_at.requires((y,)),
        ensures
            m.wf(),
            m.re_resolution == re_resolution,
            m.im_resolution == im_resolution,
            forall|x: int|
                0 <= x < re_resolution ==> re_at.ensures((x as usize,), #[trigger] m.precomputed_re@[x]),
            forall|y: int|
                0 <= y < im_resolution ==> im_at.ensures((y as usize,), #[trigger] m.precomputed_im@[y]),
    {
        let precomputed_re = sample_axis(re_resolution, re_at);
        let precomputed_im = sample_axis(im_resolution, im_at);
        FieldMap { re_resolution, im_resolution, precomputed_re, precomputed_im }
    }

    /// The complex coordinate of pixel `index`: the sample of its column and
    /// the sample of its row.
    pub fn get_point(&self, index: usize) -> (r: Complex<T>)
        requires
            self.wf(),
            index < self.limit(),
        ensures
            r.re == self.point_re(index as int),
            r.im == self.point_im(index as int),
    {
        let x = index % self.re_resolution;
        let y = index / self.re_resolution;
        assert(y < self.im_resolution) by (nonlinear_arith)
            requires
                y == index / self.re_resolution,
                index < self.re_resolution * self.im_resolution,
                self.re_resolution > 0,
        ;
        Complex::new(self.precomputed_re[x], self.precomputed_im[y])
    }

    /// The number of pixels, `re_resolution * im_resolution`.
    pub fn get_limit(&self) -> (r: usize)
        requires
            self.wf(),
        ensures
            r == self.limit(),
            r == self.re_resolution * self.im_resolution,
    {
        self.re_resolution * self.im_resolution
    }

    /// Runs the escape-time iteration for `c` from `origin`, at most
    /// `max_iters` times: before each step the current point is tested with
    /// `diverged`, then replaced by `iterate(z, c)`. On the first iteration
    /// `i` whose point has diverged the result is `(max_iters - i) & 0xff`;
    /// if none does, the result is zero.
    pub fn escape_time<E, S>(
        c: Complex<T>,
        max_iters: usize,
        origin: Complex<T>,
        diverged: E,
        iterate: S,
    ) -> (r: u8) where E: Fn(Complex<T>) -> bool, S: Fn(Complex<T>, Complex<T>) -> Complex<T>
        requires
            forall|z: Complex<T>| #[trigger] diverged.requires((z,)),
            forall|z: Complex<T>| #[trigger] iterate.requires((z, c)),
        ensures
            exists|orbit: Seq<Complex<T>>|
                #[trigger] Self::escape_run(c, max_iters as int, origin, diverged, iterate, orbit, r),
    {
        let mut z = origin;
        let ghost mut orbit: Seq<Complex<T>> = Seq::empty();
        let mut i: usize = 0;
        while i < max_iters
            invariant
                i <= max_iters,
                orbit.len() == i,
                forall|w: Complex<T>| #[trigger] diverged.requires((w,)),
                forall|w: Complex<T>| #[trigger] iterate.requires((w, c)),
                i == 0 ==> z == origin,
                i > 0 ==> orbit[0] == origin,
                i > 0 ==> iterate.ensures((orbit[i - 1], c), z),
                forall|k: int|
                    0 < k < orbit.len() ==> iterate.ensures((orbit[k - 1], c), #[trigger] orbit[k]),
                forall|k: int| 0 <= k < orbit.len() ==> #[trigger] diverged.ensures((orbit[k],), false),
            decreases max_iters - i,
        {
            let out = diverged(z);
            proof {
                orbit = orbit.push(z);
            }
            if out {
                let r = escape_byte(max_iters, i);
                assert(Self::escape_run(c, max_iters as int, origin, diverged, iterate, orbit, r));
                return r;
            }
            z = iterate(z, c);
            i = i + 1;
        }
        assert(Self::escape_run(c, max_iters as int, origin, diverged, iterate, orbit, 0));
        0
    }
}

} // verus!
