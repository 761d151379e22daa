//! Compression of a CDF into an error-bounded spline: a lookup through the
//! spline lands in the cache line that holds the key's true position.
use vstd::prelude::*;
use vstd::arithmetic::div_mod::{lemma_div_is_ordered, lemma_div_multiples_vanish};
use vstd::arithmetic::mul::lemma_mul_inequality;
use crate::data::{ModelData, sorted_cdf, unique_of, lemma_unique_prefix};
use crate::utils::lemma_mul_fits_u128;

verus! {

/// Interpolation at `x` on the segment from `f` to `t`, rounded down; a
/// segment without width gives the height of `f`.
pub open spec fn interp(f: (u64, u64), t: (u64, u64), x: int) -> int {
    if t.0 <= f.0 {
        f.1 as int
    } else {
        f.1 as int + ((x - f.0) * (t.1 - f.1)) / (t.0 - f.0)
    }
}

/// Piecewise-linear prediction at `x` through the joints `j`: the first
/// segment whose right end is at or past `x` answers.
pub open spec fn spline_at(j: Seq<(u64, u64)>, x: int) -> int
    decreases j.len(),
{
    if j.len() == 0 {
        0
    } else if j.len() == 1 {
        j[0].1 as int
    } else if x <= j[1].0 {
        interp(j[0], j[1], x)
    } else {
        spline_at(j.drop_first(), x)
    }
}

/// `pred` and `y` fall in the same line of `line` positions.
pub open spec fn same_line(pred: int, y: int, line: int) -> bool {
    pred / line == y / line
}

/// Keys rise strictly along the sequence.
pub open spec fn keys_increasing(s: Seq<(u64, u64)>) -> bool {
    forall|a: int, b: int| 0 <= a < b < s.len() ==> s[a].0 < s[b].0
}

proof fn lemma_interp_start(f: (u64, u64), t: (u64, u64))
    ensures
        interp(f, t, f.0 as int) == f.1,
{
    if t.0 > f.0 {
        assert(((f.0 - f.0) * (t.1 - f.1)) == 0);
    }
}

proof fn lemma_interp_end(f: (u64, u64), t: (u64, u64))
    requires
        f.0 < t.0,
        f.1 <= t.1,
    ensures
        interp(f, t, t.0 as int) == t.1,
{
    let w = t.0 - f.0;
    let c = t.1 - f.1;
    lemma_div_multiples_vanish(c, w);
    assert((t.0 - f.0) * (t.1 - f.1) == w * c);
}

/// The interpolation stays between the heights of the two ends.
proof fn lemma_interp_bounds(f: (u64, u64), t: (u64, u64), x: int)
    requires
        f.0 <= x <= t.0,
        f.1 <= t.1,
    ensures
        f.1 <= interp(f, t, x) <= t.1,
{
    if t.0 > f.0 {
        let w = t.0 - f.0;
        let c = t.1 - f.1;
        let a = x - f.0;
        lemma_mul_inequality(a, w, c);
        lemma_mul_inequality(0, a, c);
        assert(a * c <= w * c);
        assert(0 <= a * c);
        lemma_div_is_ordered(a * c, w * c, w);
        lemma_div_is_ordered(0, a * c, w);
        assert(w * c == c * w) by (nonlinear_arith);
        lemma_div_multiples_vanish(c, w);
    }
}

/// A joint added past the end leaves the prediction up to the old end as it was.
proof fn lemma_spline_push_keeps(j: Seq<(u64, u64)>, q: (u64, u64), x: int)
    requires
        j.len() >= 1,
        keys_increasing(j),
        q.0 > j.last().0,
        j[0].0 <= x <= j.last().0,
    ensures
        spline_at(j.push(q), x) == spline_at(j, x),
    decreases j.len(),
{
    let k = j.push(q);
    if j.len() == 1 {
        assert(k[0] == j[0] && k[1] == q);
        lemma_interp_start(j[0], q);
    } else {
        assert(k[0] == j[0] && k[1] == j[1]);
        if x > j[1].0 {
            assert(k.drop_first() =~= j.drop_first().push(q));
            lemma_spline_push_keeps(j.drop_first(), q, x);
        }
    }
}

/// Past the old end, a joint added at the end predicts along the new segment.
proof fn lemma_spline_push_last(j: Seq<(u64, u64)>, q: (u64, u64), x: int)
    requires
        j.len() >= 1,
        keys_increasing(j),
        q.0 > j.last().0,
        q.1 >= j.last().1,
        forall|a: int, b: int| 0 <= a < b < j.len() ==> j[a].1 <= j[b].1,
        j.last().0 <= x <= q.0,
    ensures
        spline_at(j.push(q), x) == interp(j.last(), q, x),
    decreases j.len(),
{
    let k = j.push(q);
    if j.len() == 1 {
        assert(k[0] == j[0] && k[1] == q);
    } else {
        assert(k[0] == j[0] && k[1] == j[1]);
        if x <= j[1].0 {
            assert(j.len() == 2);
            lemma_interp_end(j[0], j[1]);
            lemma_interp_start(j[1], q);
        } else {
            assert(k.drop_first() =~= j.drop_first().push(q));
            lemma_spline_push_last(j.drop_first(), q, x);
        }
    }
}

/// One segment of a spline, from `(from_x, from_y)` to `(to_x, to_y)`.
#[derive(Debug)]
pub struct Spline {
    pub from_x: u64,
    pub from_y: u64,
    pub to_x: u64,
    pub to_y: u64,
}

impl Spline {
    pub open spec fn start(&self) -> (u64, u64) {
        (self.from_x, self.from_y)
    }

    pub open spec fn stop(&self) -> (u64, u64) {
        (self.to_x, self.to_y)
    }

    /// The end lies at or after the start in both coordinates.
    pub open spec fn wf(&self) -> bool {
        self.from_x <= self.to_x && self.from_y <= self.to_y
    }

    pub fn from(pt1: (u64, u64), pt2: (u64, u64)) -> (r: Spline)
        requires
            pt1.0 <= pt2.0,
            pt1.1 <= pt2.1,
        ensures
            r.start() == pt1,
            r.stop() == pt2,
    {
        Spline { from_x: pt1.0, from_y: pt1.1, to_x: pt2.0, to_y: pt2.1 }
    }

    /// The same start, with a new end.
    pub fn with_new_dest(&self, dest: (u64, u64)) -> (r: Spline)
        requires
            dest.0 >= self.from_x,
            dest.1 >= self.from_y,
        ensures
            r.start() == self.start(),
            r.stop() == dest,
    {
        Spline { from_x: self.from_x, from_y: self.from_y, to_x: dest.0, to_y: dest.1 }
    }

    pub fn end(&self) -> (r: (u64, u64))
        ensures
            r == self.stop(),
    {
        (self.to_x, self.to_y)
    }

    /// Exact interpolation at `inp`, rounded down.
    pub fn predict(&self, inp: u64) -> (r: u64)
        requires
            self.wf(),
            self.from_x <= inp <= self.to_x,
        ensures
            r == interp(self.start(), self.stop(), inp as int),
    {
        proof {
            lemma_interp_bounds(self.start(), self.stop(), inp as int);
        }
        if self.to_x == self.from_x {
            return self.from_y;
        }
        let dx: u64 = inp - self.from_x;
        let dy: u64 = self.to_y - self.from_y;
        let w: u64 = self.to_x - self.from_x;
        proof {
            lemma_mul_fits_u128(dx, dy);
        }
        let q: u128 = (dx as u128 * dy as u128) / w as u128;
        self.from_y + q as u64
    }
}

/// Greedy fitter of a spline whose every recorded point predicts its own
/// cache line.
pub struct SplineFit {
    pub spline: Option<Spline>,
    pub curr_pts: Vec<(u64, u64)>,
    pub line_size: u64,
}

impl SplineFit {
    /// Every recorded point lies on the current segment and is predicted in
    /// its own line.
    pub open spec fn wf(&self) -> bool {
        &&& self.line_size > 0
        &&& match self.spline {
            None => self.curr_pts@.len() == 0,
            Some(s) => {
                &&& s.wf()
                &&& forall|i: int|
                    0 <= i < self.curr_pts@.len() ==> {
                        let c = #[trigger] self.curr_pts@[i];
                        &&& s.from_x <= c.0 <= s.to_x
                        &&& same_line(
                            interp(s.start(), s.stop(), c.0 as int),
                            c.1 as int,
                            self.line_size as int,
                        )
                    }
            },
        }
    }

    /// Every point of `pts` is predicted in its own line by `s`.
    pub open spec fn fits(pts: Seq<(u64, u64)>, s: Spline, line: u64) -> bool {
        forall|i: int|
            0 <= i < pts.len() ==> same_line(
                interp(s.start(), s.stop(), #[trigger] pts[i].0 as int),
                pts[i].1 as int,
                line as int,
            )
    }

    pub fn new(line_size: u64) -> (r: SplineFit)
        requires
            line_size > 0,
        ensures
            r.wf(),
            r.spline is None,
            r.line_size == line_size,
    {
        SplineFit { spline: None, curr_pts: Vec::new(), line_size }
    }

    /// Offers the next point. The current segment is stretched to it when all
    /// recorded points, the old end among them, stay in their lines;
    /// otherwise the old end is closed as a joint and a new segment starts
    /// there. Returns the joint that became fixed, if any.
    pub fn add_point(&mut self, point: (u64, u64)) -> (r: Option<(u64, u64)>)
        requires
            old(self).wf(),
            old(self).spline matches Some(s) ==> point.0 > s.to_x && point.1 >= s.to_y,
        ensures
            final(self).wf(),
            final(self).line_size == old(self).line_size,
            match old(self).spline {
                None => {
                    &&& r == Some(point)
                    &&& final(self).spline == Some(Spline::from_spec(point, point))
                    &&& final(self).curr_pts@ == old(self).curr_pts@
                },
                Some(s) => {
                    let pts = old(self).curr_pts@.push(s.stop());
                    let proposed = Spline::from_spec(s.start(), point);
                    if Self::fits(pts, proposed, old(self).line_size) {
                        &&& r is None
                        &&& final(self).spline == Some(proposed)
                        &&& final(self).curr_pts@ == pts
                    } else {
                        &&& r == Some(s.stop())
                        &&& final(self).spline == Some(Spline::from_spec(s.stop(), point))
                        &&& final(self).curr_pts@ == seq![point]
                    }
                },
            },
    {
        if self.spline.is_none() {
            self.spline = Some(Spline::from(point, point));
            return Some(point);
        }
        let last_spline = self.spline.as_ref().unwrap();
        let proposed_spline = last_spline.with_new_dest(point);
        let last_end = last_spline.end();
        self.curr_pts.push(last_end);
        if self.check_spline(&proposed_spline) {
            self.spline = Some(proposed_spline);
            None
        } else {
            self.spline = Some(Spline::from(last_end, point));
            self.curr_pts.clear();
            self.curr_pts.push(point);
            proof {
                lemma_interp_end(last_end, point);
            }
            Some(last_end)
        }
    }

    /// The end of the last segment, which closes the spline.
    pub fn finish(self) -> (r: Option<(u64, u64)>)
        ensures
            r == match self.spline {
                None => None,
                Some(s) => Some(s.stop()),
            },
    {
        match self.spline {
            None => None,
            Some(s) => Some(s.end()),
        }
    }

    /// Whether `spline` predicts every recorded point in its own line.
    fn check_spline(&self, spline: &Spline) -> (r: bool)
        requires
            self.line_size > 0,
            spline.wf(),
            forall|i: int|
                0 <= i < self.curr_pts@.len() ==> spline.from_x <= (#[trigger] self.curr_pts@[i]).0
                    <= spline.to_x,
        ensures
            r == Self::fits(self.curr_pts@, *spline, self.line_size),
    {
        let mut i: usize = 0;
        while i < self.curr_pts.len()
            invariant
                i <= self.curr_pts@.len(),
                self.line_size > 0,
                spline.wf(),
                forall|k: int|
                    0 <= k < self.curr_pts@.len() ==> spline.from_x <= (
                    #[trigger] self.curr_pts@[k]).0 <= spline.to_x,
                Self::fits(self.curr_pts@.subrange(0, i as int), *spline, self.line_size),
            decreases self.curr_pts@.len() - i,
        {
            let pt = self.curr_pts[i];
            let predicted_line = spline.predict(pt.0) / self.line_size;
            let correct_line = pt.1 / self.line_size;
            if predicted_line != correct_line {
                assert(self.curr_pts@[i as int] == pt);
                return false;
            }
            i = i + 1;
            assert forall|k: int| 0 <= k < i implies same_line(
                interp(spline.start(), spline.stop(), #[trigger] self.curr_pts@.subrange(0, i as int)[k].0 as int),
                self.curr_pts@.subrange(0, i as int)[k].1 as int,
                self.line_size as int,
            ) by {
                if k < i - 1 {
                    assert(self.curr_pts@.subrange(0, i as int)[k] == self.curr_pts@.subrange(0, i - 1)[k]);
                }
            }
        }
        assert(self.curr_pts@.subrange(0, i as int) =~= self.curr_pts@);
        true
    }
}

impl Spline {
    pub open spec fn from_spec(pt1: (u64, u64), pt2: (u64, u64)) -> Spline {
        Spline { from_x: pt1.0, from_y: pt1.1, to_x: pt2.0, to_y: pt2.1 }
    }
}


/// The open segment of a fitter, as `(start, end)`.
pub open spec fn open_segment(fit: SplineFit) -> Option<((u64, u64), (u64, u64))> {
    match fit.spline {
        None => None,
        Some(s) => Some((s.start(), s.stop())),
    }
}

/// State of the greedy fitter: the open segment, the recorded points and the
/// joints fixed so far.
pub type FitRun = (Option<((u64, u64), (u64, u64))>, Seq<(u64, u64)>, Seq<(u64, u64)>);

/// One step of the greedy fitter: offer point `p`.
pub open spec fn fit_step(st: FitRun, p: (u64, u64), line: u64) -> FitRun {
    match st.0 {
        None => (Some((p, p)), st.1, st.2.push(p)),
        Some((f, t)) => {
            let pts = st.1.push(t);
            if SplineFit::fits(pts, Spline::from_spec(f, p), line) {
                (Some((f, p)), pts, st.2)
            } else {
                (Some((t, p)), seq![p], st.2.push(t))
            }
        },
    }
}

/// The greedy fitter after offering the points `fed` in order.
pub open spec fn run_fit(fed: Seq<(u64, u64)>, line: u64) -> FitRun
    decreases fed.len(),
{
    if fed.len() == 0 {
        (None, Seq::empty(), Seq::empty())
    } else {
        fit_step(run_fit(fed.drop_last(), line), fed.last(), line)
    }
}

/// `k - 1`, or 0 for 0.
pub open spec fn minus_epsilon(k: u64) -> u64 {
    if k == 0 {
        0
    } else {
        (k - 1) as u64
    }
}

/// The points offered to the fitter for distinct keys `u`: before each key
/// `k`, `(k - 1, position of k)` unless `k - 1` is the previous key (0 for
/// the first), then the key itself.
pub open spec fn fed_points(u: Seq<(u64, u64)>) -> Seq<(u64, u64)>
    decreases u.len(),
{
    if u.len() == 0 {
        Seq::empty()
    } else {
        let prev = if u.len() >= 2 {
            u[u.len() - 2].0
        } else {
            0u64
        };
        let k = u.last();
        let before = if minus_epsilon(k.0) != prev {
            fed_points(u.drop_last()).push((minus_epsilon(k.0), k.1))
        } else {
            fed_points(u.drop_last())
        };
        before.push(k)
    }
}

/// The joints that cache-fixing produces: those the fitter fixed, then the
/// end of its last segment unless it is already the last joint.
pub open spec fn cache_fix_joints(u: Seq<(u64, u64)>, line: u64) -> Seq<(u64, u64)> {
    let st = run_fit(fed_points(u), line);
    match st.0 {
        None => st.2,
        Some((f, t)) => if st.2.len() > 0 && st.2.last() == t {
            st.2
        } else {
            st.2.push(t)
        },
    }
}

/// Heights never fall along the sequence.
pub open spec fn heights_nondecreasing(s: Seq<(u64, u64)>) -> bool {
    forall|a: int, b: int| 0 <= a < b < s.len() ==> s[a].1 <= s[b].1
}

/// What the fitting loop keeps, with `j` the joints fixed so far and `f` the
/// points fed so far: every fed point up to the start of the open segment is
/// predicted in its own line by the joints, and every later one is the open
/// segment's end or a recorded point.
pub open spec fn fit_state(fit: SplineFit, j: Seq<(u64, u64)>, f: Seq<(u64, u64)>, line: u64) -> bool {
    &&& fit.wf()
    &&& fit.line_size == line
    &&& keys_increasing(f)
    &&& (f.len() == 0 <==> fit.spline is None)
    &&& (f.len() == 0 ==> j.len() == 0)
    &&& match fit.spline {
        None => true,
        Some(s) => {
            &&& s.stop() == f.last()
            &&& j.len() >= 1
            &&& j.last() == s.start()
            &&& j[0] == f[0]
            &&& keys_increasing(j)
            &&& heights_nondecreasing(j)
            &&& (f.len() == 1 ==> s.start() == s.stop())
            &&& (f.len() >= 2 ==> s.from_x < s.to_x)
            &&& forall|q: int|
                0 <= q < f.len() && #[trigger] f[q].0 <= s.from_x ==> same_line(
                    spline_at(j, f[q].0 as int),
                    f[q].1 as int,
                    line as int,
                )
            &&& forall|q: int|
                0 <= q < f.len() && #[trigger] f[q].0 > s.from_x ==> f[q] == s.stop()
                    || fit.curr_pts@.contains(f[q])
        },
    }
}

/// Closing the open segment at its end gives joints that predict every fed
/// point in its own line.
proof fn lemma_close(fit: SplineFit, j: Seq<(u64, u64)>, f: Seq<(u64, u64)>, line: u64)
    requires
        fit_state(fit, j, f, line),
        f.len() >= 1,
    ensures
        ({
            let s = fit.spline->Some_0;
            let jj = j.push(s.stop());
            &&& forall|q: int|
                0 <= q < f.len() ==> same_line(
                    spline_at(jj, #[trigger] f[q].0 as int),
                    f[q].1 as int,
                    line as int,
                )
            &&& f.len() >= 2 ==> keys_increasing(jj)
            &&& heights_nondecreasing(jj)
        }),
{
    let s = fit.spline->Some_0;
    let jj = j.push(s.stop());
    assert(heights_nondecreasing(jj)) by {
        assert forall|a: int, b: int| 0 <= a < b < jj.len() implies jj[a].1 <= jj[b].1 by {
            if b == jj.len() - 1 {
                if a < j.len() - 1 {
                    assert(j[a].1 <= j.last().1);
                }
            } else {
                assert(jj[a] == j[a] && jj[b] == j[b]);
            }
        }
    }
    if f.len() == 1 {
        assert(jj.len() == 2 || j.len() > 1);
        assert forall|q: int| 0 <= q < f.len() implies same_line(
            spline_at(jj, #[trigger] f[q].0 as int),
            f[q].1 as int,
            line as int,
        ) by {
            assert(q == 0);
            assert(f[0] == j[0]);
            if j.len() > 1 {
                assert(j[0].0 < j.last().0);
                assert(false);
            }
            assert(jj[0] == s.start() && jj[1] == s.stop());
        }
    } else {
        assert(keys_increasing(jj)) by {
            assert forall|a: int, b: int| 0 <= a < b < jj.len() implies jj[a].0 < jj[b].0 by {
                if b == jj.len() - 1 {
                    if a < j.len() - 1 {
                        assert(j[a].0 < j.last().0);
                    }
                } else {
                    assert(jj[a] == j[a] && jj[b] == j[b]);
                }
            }
        }
        assert forall|q: int| 0 <= q < f.len() implies same_line(
            spline_at(jj, #[trigger] f[q].0 as int),
            f[q].1 as int,
            line as int,
        ) by {
            let x = f[q].0 as int;
            if q > 0 {
                assert(f[0].0 < f[q].0);
            }
            if q < f.len() - 1 {
                assert(f[q].0 < f.last().0);
            }
            if f[q].0 <= s.from_x {
                lemma_spline_push_keeps(j, s.stop(), x);
            } else {
                lemma_spline_push_last(j, s.stop(), x);
                if f[q] == s.stop() {
                    lemma_interp_end(s.start(), s.stop());
                } else {
                    let i = choose|i: int| 0 <= i < fit.curr_pts@.len() && fit.curr_pts@[i] == f[q];
                    assert(fit.curr_pts@[i] == f[q]);
                }
            }
        }
    }
}

/// Feeds one point to the fitter and records the joint it fixes.
fn feed(
    fit: &mut SplineFit,
    joints: &mut Vec<(u64, u64)>,
    point: (u64, u64),
    Ghost(fed): Ghost<Seq<(u64, u64)>>,
)
    requires
        fit_state(*old(fit), old(joints)@, fed, old(fit).line_size),
        fed.len() > 0 ==> point.0 > fed.last().0 && point.1 >= fed.last().1,
    ensures
        fit_state(*final(fit), final(joints)@, fed.push(point), old(fit).line_size),
        (open_segment(*final(fit)), final(fit).curr_pts@, final(joints)@) == fit_step(
            (open_segment(*old(fit)), old(fit).curr_pts@, old(joints)@),
            point,
            old(fit).line_size,
        ),
{
    let ghost f0 = *fit;
    let ghost j0 = joints@;
    let ghost line = fit.line_size;
    proof {
        if fed.len() > 0 {
            lemma_close(f0, j0, fed, line);
        }
    }
    let r = fit.add_point(point);
    match r {
        Some(p) => {
            joints.push(p);
        },
        None => {},
    }
    let ghost f2 = fed.push(point);
    proof {
        assert(f2.last() == point);
        assert(keys_increasing(f2)) by {
            assert forall|a: int, b: int| 0 <= a < b < f2.len() implies f2[a].0 < f2[b].0 by {
                if b == f2.len() - 1 {
                    if a < fed.len() - 1 {
                        assert(fed[a].0 < fed.last().0);
                    }
                } else {
                    assert(f2[a] == fed[a] && f2[b] == fed[b]);
                }
            }
        }
        if fed.len() == 0 {
            assert(joints@ =~= seq![point]);
            lemma_interp_start(point, point);
        } else {
            let s = f0.spline->Some_0;
            let pts = f0.curr_pts@.push(s.stop());
            let proposed = Spline::from_spec(s.start(), point);
            assert(f2[0] == fed[0]);
            if SplineFit::fits(pts, proposed, line) {
                assert(joints@ == j0);
                assert forall|q: int|
                    0 <= q < f2.len() && #[trigger] f2[q].0 <= s.from_x implies same_line(
                    spline_at(j0, f2[q].0 as int),
                    f2[q].1 as int,
                    line as int,
                ) by {
                    assert(f2[q] == fed[q]);
                }
                assert forall|q: int|
                    0 <= q < f2.len() && #[trigger] f2[q].0 > s.from_x implies f2[q] == point
                    || pts.contains(f2[q]) by {
                    if q < fed.len() {
                        assert(f2[q] == fed[q]);
                        if fed[q] == s.stop() {
                            assert(pts[pts.len() - 1] == fed[q]);
                        } else {
                            let i = choose|i: int| 0 <= i < f0.curr_pts@.len() && f0.curr_pts@[i] == fed[q];
                            assert(pts[i] == fed[q]);
                        }
                    }
                }
            } else {
                if fed.len() == 1 {
                    lemma_interp_start(s.start(), point);
                    assert(pts[0] == s.stop());
                    assert(SplineFit::fits(pts, proposed, line));
                }
                assert(joints@ == j0.push(s.stop()));
                assert forall|q: int|
                    0 <= q < f2.len() && #[trigger] f2[q].0 <= s.to_x implies same_line(
                    spline_at(joints@, f2[q].0 as int),
                    f2[q].1 as int,
                    line as int,
                ) by {
                    assert(f2[q] == fed[q]);
                }
                assert forall|q: int|
                    0 <= q < f2.len() && #[trigger] f2[q].0 > s.to_x implies f2[q] == point by {
                    if q < fed.len() {
                        assert(f2[q] == fed[q]);
                        if q < fed.len() - 1 {
                            assert(fed[q].0 < fed.last().0);
                        }
                    }
                }
            }
        }
    }
}

/// Compresses sorted data into spline joints such that, for every distinct
/// key with its first position, the spline's prediction at the key lies in
/// the same line of `line_size` positions as that position. Before each key
/// `k` whose predecessor `k - 1` (saturating at 0) differs from the previous
/// key, the point `(k - 1, position of k)` is fed first, so the spline cannot
/// swing past a run of duplicates into another line. For keys of a file of
/// doubles, held by their bit patterns, `k - 1` is the next smaller double.
pub fn cache_fix(data: &ModelData, line_size: u64) -> (r: Vec<(u64, u64)>)
    requires
        sorted_cdf(data@),
        line_size > 0,
        data@.len() > line_size,
    ensures
        forall|j: int|
            0 <= j < unique_of(data@).len() ==> same_line(
                spline_at(r@, #[trigger] unique_of(data@)[j].0 as int),
                unique_of(data@)[j].1 as int,
                line_size as int,
            ),
        r@.len() >= 1,
        keys_increasing(r@),
        r@ == cache_fix_joints(unique_of(data@), line_size),
{
    let mut fit = SplineFit::new(line_size);
    let mut spline: Vec<(u64, u64)> = Vec::new();
    let uniq = data.iter_unique();
    proof {
        lemma_unique_prefix(data@, data@.len() as int);
    }
    let ghost u = uniq@;
    let ghost mut fed: Seq<(u64, u64)> = Seq::empty();
    let mut last_key: u64 = 0;
    let mut i: usize = 0;
    while i < uniq.len()
        invariant
            u == uniq@,
            u == unique_of(data@),
            u.len() > 0,
            u[0] == data@[0],
            forall|a: int, b: int| 0 <= a < b < u.len() ==> u[a].0 < u[b].0 && u[a].1 <= u[b].1,
            i <= u.len(),
            fit_state(fit, spline@, fed, line_size),
            i == 0 ==> fed.len() == 0 && last_key == 0,
            i > 0 ==> fed.len() > 0 && fed.last() == u[i - 1] && last_key == u[i - 1].0,
            fed.len() >= i,
            i >= 1 && u[0].0 >= 2 ==> fed.len() >= 2,
            forall|k: int| 0 <= k < i ==> fed.contains(#[trigger] u[k]),
            fed == fed_points(u.subrange(0, i as int)),
            (open_segment(fit), fit.curr_pts@, spline@) == run_fit(fed, line_size),
        decreases u.len() - i,
    {
        let (key, offset) = uniq[i];
        let minus: u64 = if key == 0 {
            0
        } else {
            key - 1
        };
        if i > 0 {
            assert(u[i - 1].0 < u[i as int].0 && u[i - 1].1 <= u[i as int].1);
        }
        let ghost before = fed;
        if minus != last_key {
            feed(&mut fit, &mut spline, (minus, offset), Ghost(fed));
            proof {
                assert(fed.push((minus, offset)).drop_last() =~= fed);
                assert(run_fit(fed.push((minus, offset)), line_size) == fit_step(run_fit(fed, line_size), (minus, offset), line_size));
                fed = fed.push((minus, offset));
            }
        }
        feed(&mut fit, &mut spline, (key, offset), Ghost(fed));
        proof {
            assert(fed.push((key, offset)).drop_last() =~= fed);
            assert(run_fit(fed.push((key, offset)), line_size) == fit_step(run_fit(fed, line_size), (key, offset), line_size));
            fed = fed.push((key, offset));
            let ui = u.subrange(0, i + 1);
            assert(ui.drop_last() =~= u.subrange(0, i as int));
            assert(ui.last() == (key, offset));
            if i >= 1 {
                assert(ui[ui.len() - 2] == u[i - 1]);
            }
            assert(minus == minus_epsilon(key));
            assert(fed == fed_points(ui));
            assert forall|k: int| 0 <= k < i + 1 implies fed.contains(#[trigger] u[k]) by {
                if k == i {
                    assert(fed[fed.len() - 1] == u[k]);
                } else {
                    let m = choose|m: int| 0 <= m < before.len() && before[m] == u[k];
                    assert(fed[m] == u[k]);
                }
            }
        }
        last_key = key;
        i = i + 1;
    }
    let ghost j0 = spline@;
    let ghost f0 = fit;
    assert(u.subrange(0, i as int) =~= u);
    proof {
        lemma_close(f0, j0, fed, line_size);
    }
    match fit.finish() {
        Some(p) => {
            let last = spline[spline.len() - 1];
            if last.0 != p.0 || last.1 != p.1 {
                spline.push(p);
            }
        },
        None => {},
    }
    proof {
        let s = f0.spline->Some_0;
        if fed.len() >= 2 {
            assert(j0.last().0 < s.to_x);
            assert(spline@ == j0.push(s.stop()));
        } else {
            // a single point: the spline is that one joint
            if j0.len() > 1 {
                assert(j0[0].0 < j0.last().0);
            }
            assert(j0.len() == 1);
            assert(j0.last() == s.stop());
            assert(spline@ == j0);
            assert(fed[0] == j0[0]);
        }
        assert forall|j: int| 0 <= j < u.len() implies same_line(
            spline_at(spline@, #[trigger] u[j].0 as int),
            u[j].1 as int,
            line_size as int,
        ) by {
            let m = choose|m: int| 0 <= m < fed.len() && fed[m] == u[j];
            assert(fed[m] == u[j]);
            if fed.len() < 2 {
                assert(m == 0);
            }
        }
    }
    spline
}

} // verus!
