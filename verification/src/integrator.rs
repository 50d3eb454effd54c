//! When a path ends.
//!
//! A path is a chain of rays: the camera's ray, then one scattered ray for each
//! surface that scatters. The colour of a path is the product of the
//! attenuations along it times the colour of its end, which is black or the
//! background. The colours are the numeric kernel's; here stands how long the
//! chain goes on, and how it ends.

use vstd::prelude::*;

verus! {

/// What became of one ray.
#[derive(Clone, Copy, Debug, PartialEq, Eq, Structural)]
pub enum Probe {
    /// It hit nothing.
    Miss,
    /// It hit a surface that did not scatter it.
    Absorbed,
    /// It hit a surface that scattered it.
    Scattered,
}

/// How a path ends.
#[derive(Clone, Copy, Debug, PartialEq, Eq, Structural)]
pub enum Ending {
    /// No light comes along the path.
    Black,
    /// The path left the scene, and the background lights it.
    Background,
}

/// What follows a ray.
#[derive(Clone, Copy, Debug, PartialEq, Eq, Structural)]
pub enum Verdict {
    /// The path is over.
    End(Ending),
    /// The path goes on with the scattered ray, attenuated by the surface.
    Bounce,
}

/// What follows a ray after what became of it.
pub open spec fn verdict(probe: Probe) -> Verdict {
    match probe {
        Probe::Miss => Verdict::End(Ending::Background),
        Probe::Absorbed => Verdict::End(Ending::Black),
        Probe::Scattered => Verdict::Bounce,
    }
}

/// The end of a path that may still cast `depth` rays, and the number of rays
/// that were cast when it ends, where `cast` rays were cast already and
/// `probes(k)` is what becomes of the ray number `k`. A path that may cast no
/// more rays is black.
pub open spec fn run(depth: nat, probes: spec_fn(nat) -> Probe, cast: nat) -> (Ending, nat)
    decreases depth,
{
    if depth == 0 {
        (Ending::Black, cast)
    } else {
        match verdict(probes(cast)) {
            Verdict::End(ending) => (ending, cast + 1),
            Verdict::Bounce => run((depth - 1) as nat, probes, cast + 1),
        }
    }
}

/// The ray number `k` is the first that is not scattered, and it misses the
/// scene; the rays are counted from `from`, and `k` is one of the `depth` rays
/// from there.
pub open spec fn escapes_at(probes: spec_fn(nat) -> Probe, from: nat, depth: nat, k: nat) -> bool {
    &&& from <= k < from + depth
    &&& probes(k) == Probe::Miss
    &&& forall|j: nat| from <= j < k ==> #[trigger] probes(j) == Probe::Scattered
}

/// The depth bound ends every path: a path of depth `depth` casts at most
/// `depth` rays, whatever becomes of them. It ends in the background exactly if
/// one of these rays misses the scene and every ray before it was scattered.
pub proof fn lemma_path_is_bounded(depth: nat, probes: spec_fn(nat) -> Probe, cast: nat)
    ensures
        cast <= run(depth, probes, cast).1 <= cast + depth,
        run(depth, probes, cast).0 == Ending::Background <==> exists|k: nat|
            escapes_at(probes, cast, depth, k),
    decreases depth,
{
    if depth > 0 {
        match probes(cast) {
            Probe::Miss => {
                assert(escapes_at(probes, cast, depth, cast));
            },
            Probe::Absorbed => {
                assert forall|k: nat| !escapes_at(probes, cast, depth, k) by {
                    if cast < k {
                        assert(probes(cast) != Probe::Scattered);
                    }
                }
            },
            Probe::Scattered => {
                let shallower = (depth - 1) as nat;
                let later = cast + 1;
                lemma_path_is_bounded(shallower, probes, later);
                assert forall|k: nat|
                    #![trigger escapes_at(probes, cast, depth, k)]
                    #![trigger escapes_at(probes, later, shallower, k)]
                    escapes_at(probes, cast, depth, k) == escapes_at(
                        probes,
                        later,
                        shallower,
                        k,
                    ) by {
                    if escapes_at(probes, later, shallower, k) {
                        assert forall|j: nat| cast <= j < k implies #[trigger] probes(j)
                            == Probe::Scattered by {}
                    }
                }
            },
        }
    }
}

/// A path under way: the number of rays that it may still cast.
#[derive(Clone, Copy, Debug, PartialEq, Eq, Structural)]
pub struct Path {
    pub depth: usize,
}

impl Path {
    /// A path that may cast `max_depth` rays.
    pub fn new(max_depth: usize) -> (path: Path)
        ensures
            path.depth == max_depth,
    {
        Path { depth: max_depth }
    }

    /// Whether the path may cast another ray. Where it may not, it is black,
    /// and the scene is not looked at.
    pub fn alive(&self) -> (alive: bool)
        ensures
            alive == (self.depth > 0),
    {
        self.depth > 0
    }

    /// Takes what became of the ray that was cast. A scattered ray costs one
    /// unit of depth; a miss ends the path in the background, an absorbed ray
    /// in black. A path that may cast no ray ends in black whatever it is
    /// told.
    pub fn advance(&mut self, probe: Probe) -> (next: Verdict)
        ensures
            next == if old(self).depth == 0 {
                Verdict::End(Ending::Black)
            } else {
                verdict(probe)
            },
            final(self).depth == if next == Verdict::Bounce {
                old(self).depth - 1
            } else {
                old(self).depth as int
            },
            forall|probes: spec_fn(nat) -> Probe, cast: nat|
                probes(cast) == probe ==> #[trigger] run(old(self).depth as nat, probes, cast).0
                    == match next {
                    Verdict::End(ending) => ending,
                    Verdict::Bounce => run(final(self).depth as nat, probes, cast + 1).0,
                },
    {
        if self.depth == 0 {
            return Verdict::End(Ending::Black);
        }
        match probe {
            Probe::Miss => Verdict::End(Ending::Background),
            Probe::Absorbed => Verdict::End(Ending::Black),
            Probe::Scattered => {
                self.depth = self.depth - 1;
                Verdict::Bounce
            },
        }
    }
}

} // verus!
