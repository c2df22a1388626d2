//! Bounce control of the light-transport estimator.
//!
//! The estimator follows one light path: each ray is tested against the scene,
//! and on a hit a new ray is scattered from the hit point, at most `depth`
//! times. The colour of the path is the sky colour of the last ray's direction
//! when that ray leaves the scene, or black when the bounce budget runs out,
//! halved once for every bounce. A `PathWalk` makes those decisions from the
//! hit-or-miss answers of the scene queries; the geometry itself is computed
//! by the caller.
use vstd::prelude::*;

verus! {

/// How a light path ended.
#[derive(Clone, Copy, Debug, PartialEq, Eq, Structural)]
pub enum PathEnd {
    /// The bounce budget ran out: the path contributes black.
    Absorbed,
    /// The last ray left the scene: the path contributes the sky colour seen
    /// along that ray.
    Escaped,
}

/// State of one light path. While `end` is `None` the current ray still has
/// to be tested against the scene, and `remaining` rays may still be tested.
/// `bounces` counts the scatters so far; the path's colour is halved once per
/// bounce.
#[derive(Clone, Copy, Debug, PartialEq, Eq, Structural)]
pub struct PathWalk {
    pub remaining: usize,
    pub bounces: usize,
    pub end: Option<PathEnd>,
}

impl PathWalk {
    pub open spec fn wf(&self) -> bool {
        &&& self.bounces + self.remaining <= usize::MAX
        &&& self.end is None ==> self.remaining > 0
    }

    /// A path that may bounce `depth` times. With no budget at all the path is
    /// black before any ray is tested.
    pub open spec fn start_spec(depth: usize) -> PathWalk {
        if depth == 0 {
            PathWalk { remaining: 0, bounces: 0, end: Some(PathEnd::Absorbed) }
        } else {
            PathWalk { remaining: depth, bounces: 0, end: None }
        }
    }

    /// The state after the current ray was tested against the scene. A miss
    /// ends the path under the sky; a hit scatters a new ray, and ends the
    /// path in black when it used the last of the budget.
    pub open spec fn step_spec(self, hit: bool) -> PathWalk {
        if self.end is Some {
            self
        } else if !hit {
            PathWalk { end: Some(PathEnd::Escaped), ..self }
        } else if self.remaining == 1 {
            PathWalk { remaining: 0, bounces: (self.bounces + 1) as usize, end: Some(PathEnd::Absorbed) }
        } else {
            PathWalk {
                remaining: (self.remaining - 1) as usize,
                bounces: (self.bounces + 1) as usize,
                end: None,
            }
        }
    }

    pub fn new(depth: usize) -> (r: PathWalk)
        ensures
            r == PathWalk::start_spec(depth),
            r.wf(),
    {
        if depth == 0 {
            PathWalk { remaining: 0, bounces: 0, end: Some(PathEnd::Absorbed) }
        } else {
            PathWalk { remaining: depth, bounces: 0, end: None }
        }
    }

    pub fn is_finished(&self) -> (r: bool)
        ensures
            r == self.end is Some,
    {
        self.end.is_some()
    }

    /// Records whether the current ray hit the scene.
    pub fn record(&mut self, hit: bool)
        requires
            old(self).wf(),
            old(self).end is None,
        ensures
            *final(self) == old(self).step_spec(hit),
            final(self).wf(),
    {
        if !hit {
            self.end = Some(PathEnd::Escaped);
        } else if self.remaining == 1 {
            self.remaining = 0;
            self.bounces = self.bounces + 1;
            self.end = Some(PathEnd::Absorbed);
        } else {
            self.remaining = self.remaining - 1;
            self.bounces = self.bounces + 1;
        }
    }
}

/// The state after the scene queries answered `hits`, in order.
pub open spec fn run(w: PathWalk, hits: Seq<bool>) -> PathWalk
    decreases hits.len(),
{
    if hits.len() == 0 {
        w
    } else {
        run(w.step_spec(hits[0]), hits.drop_first())
    }
}

proof fn lemma_run_from(w: PathWalk, hits: Seq<bool>)
    requires
        w.wf(),
        w.end is None,
        hits.len() >= w.remaining,
    ensures
        ({
            let f = run(w, hits);
            &&& f.end is Some
            &&& f.end == Some(PathEnd::Escaped) ==> {
                &&& w.bounces <= f.bounces < w.bounces + w.remaining
                &&& !hits[f.bounces - w.bounces]
                &&& forall|k: int| 0 <= k < f.bounces - w.bounces ==> hits[k]
            }
            &&& f.end == Some(PathEnd::Absorbed) ==> {
                &&& f.bounces == w.bounces + w.remaining
                &&& forall|k: int| 0 <= k < w.remaining ==> hits[k]
            }
        }),
    decreases hits.len(),
{
    let n = w.step_spec(hits[0]);
    let rest = hits.drop_first();
    if !(hits[0] && w.remaining > 1) {
        lemma_run_finished(n, rest);
    } else {
        lemma_run_from(n, rest);
        let f = run(n, rest);
        assert forall|k: int| 0 <= k < f.bounces - w.bounces && f.end == Some(PathEnd::Escaped)
            implies hits[k] by {
            if k > 0 {
                assert(hits[k] == rest[k - 1]);
            }
        }
        assert forall|k: int| 0 <= k < w.remaining && f.end == Some(PathEnd::Absorbed)
            implies hits[k] by {
            if k > 0 {
                assert(hits[k] == rest[k - 1]);
            }
        }
    }
}

proof fn lemma_run_finished(w: PathWalk, hits: Seq<bool>)
    requires
        w.end is Some,
    ensures
        run(w, hits) == w,
    decreases hits.len(),
{
    if hits.len() > 0 {
        lemma_run_finished(w.step_spec(hits[0]), hits.drop_first());
    }
}

/// Every path ends within its budget. Given the answers of at least `depth`
/// scene queries, a path started with `depth` has ended: under the sky after
/// `b` bounces when the query numbered `b` (from zero) is the first miss among
/// the first `depth`, and in black after `depth` bounces when all of them hit.
pub proof fn lemma_path_terminates(depth: usize, hits: Seq<bool>)
    requires
        hits.len() >= depth,
    ensures
        ({
            let f = run(PathWalk::start_spec(depth), hits);
            &&& f.end is Some
            &&& f.end == Some(PathEnd::Escaped) <==> exists|k: int| 0 <= k < depth && !hits[k]
            &&& f.end == Some(PathEnd::Escaped) ==> {
                &&& f.bounces < depth
                &&& !hits[f.bounces as int]
                &&& forall|k: int| 0 <= k < f.bounces ==> hits[k]
            }
            &&& f.end == Some(PathEnd::Absorbed) ==> f.bounces == depth
        }),
{
    let w = PathWalk::start_spec(depth);
    if depth == 0 {
        lemma_run_finished(w, hits);
    } else {
        lemma_run_from(w, hits);
    }
    let f = run(w, hits);
    if f.end == Some(PathEnd::Escaped) {
        let k = f.bounces as int;
        assert(0 <= k < depth && !hits[k]);
    } else {
        assert(f.end == Some(PathEnd::Absorbed));
        assert(forall|k: int| 0 <= k < depth ==> hits[k]);
        assert(!exists|k: int| 0 <= k < depth && !hits[k]);
    }
}

/// With a budget of zero bounces a path is black, whatever the scene
/// queries would have answered.
pub proof fn lemma_zero_depth_is_black(hits: Seq<bool>)
    ensures
        run(PathWalk::start_spec(0), hits) == (PathWalk {
            remaining: 0,
            bounces: 0,
            end: Some(PathEnd::Absorbed),
        }),
{
    lemma_run_finished(PathWalk::start_spec(0), hits);
}

} // verus!
