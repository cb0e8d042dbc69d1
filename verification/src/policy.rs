//! How one pitch is picked among the notes that sound together.

use vstd::prelude::*;

verus! {

/// Rule for turning simultaneous notes into a single line.
#[derive(Debug, Clone, Copy, PartialEq, Eq, Structural)]
pub enum PolyPolicy {
    /// The highest sounding pitch.
    Highest,
    /// The lowest sounding pitch.
    Lowest,
    /// The pitch struck with the greatest velocity; among equally loud
    /// pitches the highest.
    Loudest,
    /// Notes of the densest track only. No reduction exists for it yet.
    Densest,
}

impl Default for PolyPolicy {
    fn default() -> (r: PolyPolicy)
        ensures
            r == PolyPolicy::Highest,
    {
        PolyPolicy::Highest
    }
}

/// Number of distinct pitches a table of sounding notes has room for.
pub const PITCHES: usize = 256;

/// Pitch `p` sounds.
pub open spec fn sounding(active: Seq<Option<u8>>, p: int) -> bool {
    0 <= p < active.len() && active[p] is Some
}

/// The highest sounding pitch below `n`.
pub open spec fn highest_below(active: Seq<Option<u8>>, n: nat) -> Option<u8>
    decreases n,
{
    if n == 0 {
        None
    } else if active[n - 1] is Some {
        Some((n - 1) as u8)
    } else {
        highest_below(active, (n - 1) as nat)
    }
}

/// The lowest sounding pitch from `k` upwards.
pub open spec fn lowest_from(active: Seq<Option<u8>>, k: nat) -> Option<u8>
    decreases PITCHES - k,
{
    if k >= PITCHES {
        None
    } else if active[k as int] is Some {
        Some(k as u8)
    } else {
        lowest_from(active, k + 1)
    }
}

/// The loudest sounding pitch below `n`; of equally loud ones the highest.
pub open spec fn loudest_below(active: Seq<Option<u8>>, n: nat) -> Option<u8>
    decreases n,
{
    if n == 0 {
        None
    } else {
        let rest = loudest_below(active, (n - 1) as nat);
        match active[n - 1] {
            None => rest,
            Some(v) => match rest {
                Some(q) if active[q as int].unwrap() > v => rest,
                _ => Some((n - 1) as u8),
            },
        }
    }
}

/// The pitch that `policy` picks from the sounding notes, if any sounds.
pub open spec fn chosen(policy: PolyPolicy, active: Seq<Option<u8>>) -> Option<u8> {
    match policy {
        PolyPolicy::Highest => highest_below(active, PITCHES as nat),
        PolyPolicy::Lowest => lowest_from(active, 0),
        PolyPolicy::Loudest => loudest_below(active, PITCHES as nat),
        PolyPolicy::Densest => None,
    }
}

/// Pitch `c` is at least as good a pick as pitch `p` under `policy`.
pub open spec fn prefers(policy: PolyPolicy, active: Seq<Option<u8>>, c: int, p: int) -> bool {
    match policy {
        PolyPolicy::Highest => p <= c,
        PolyPolicy::Lowest => c <= p,
        PolyPolicy::Loudest => {
            let vc = active[c].unwrap();
            let vp = active[p].unwrap();
            vp < vc || (vp == vc && p <= c)
        },
        PolyPolicy::Densest => false,
    }
}

proof fn lemma_highest(active: Seq<Option<u8>>, n: nat)
    requires
        n <= active.len() == PITCHES,
    ensures
        match highest_below(active, n) {
            None => forall|p: int| 0 <= p < n ==> !sounding(active, p),
            Some(c) => c < n && sounding(active, c as int) && forall|p: int|
                0 <= p < n && sounding(active, p) ==> p <= c,
        },
    decreases n,
{
    if n > 0 && active[n - 1] is None {
        lemma_highest(active, (n - 1) as nat);
    }
}

proof fn lemma_lowest(active: Seq<Option<u8>>, k: nat)
    requires
        active.len() == PITCHES,
    ensures
        match lowest_from(active, k) {
            None => forall|p: int| k <= p < PITCHES ==> !sounding(active, p),
            Some(c) => k <= c && sounding(active, c as int) && forall|p: int|
                k <= p < PITCHES && sounding(active, p) ==> c <= p,
        },
    decreases PITCHES - k,
{
    if k < PITCHES && active[k as int] is None {
        lemma_lowest(active, k + 1);
    }
}

proof fn lemma_loudest(active: Seq<Option<u8>>, n: nat)
    requires
        n <= active.len() == PITCHES,
    ensures
        match loudest_below(active, n) {
            None => forall|p: int| 0 <= p < n ==> !sounding(active, p),
            Some(c) => c < n && sounding(active, c as int) && forall|p: int|
                0 <= p < n && sounding(active, p) ==> prefers(
                    PolyPolicy::Loudest,
                    active,
                    c as int,
                    p,
                ),
        },
    decreases n,
{
    if n > 0 {
        lemma_loudest(active, (n - 1) as nat);
    }
}

/// The picked pitch sounds, and no sounding pitch is a better pick; nothing
/// is picked exactly when nothing sounds.
pub proof fn lemma_chosen(policy: PolyPolicy, active: Seq<Option<u8>>)
    requires
        active.len() == PITCHES,
        policy != PolyPolicy::Densest,
    ensures
        match chosen(policy, active) {
            None => forall|p: int| !sounding(active, p),
            Some(c) => sounding(active, c as int) && forall|p: int|
                sounding(active, p) ==> prefers(policy, active, c as int, p),
        },
{
    lemma_highest(active, PITCHES as nat);
    lemma_lowest(active, 0);
    lemma_loudest(active, PITCHES as nat);
}

/// Picks the pitch that `policy` selects from the sounding notes.
pub fn choose_pitch(policy: PolyPolicy, active: &Vec<Option<u8>>) -> (r: Option<u8>)
    requires
        active.len() == PITCHES,
    ensures
        r == chosen(policy, active@),
{
    match policy {
        PolyPolicy::Highest => {
            let mut n: usize = PITCHES;
            while n > 0
                invariant
                    policy == PolyPolicy::Highest,
                    n <= PITCHES == active.len(),
                    highest_below(active@, PITCHES as nat) == highest_below(active@, n as nat),
                decreases n,
            {
                if active[n - 1].is_some() {
                    return Some((n - 1) as u8);
                }
                n -= 1;
            }
            None
        },
        PolyPolicy::Lowest => {
            let mut k: usize = 0;
            while k < PITCHES
                invariant
                    policy == PolyPolicy::Lowest,
                    k <= PITCHES == active.len(),
                    lowest_from(active@, 0) == lowest_from(active@, k as nat),
                decreases PITCHES - k,
            {
                if active[k].is_some() {
                    return Some(k as u8);
                }
                k += 1;
            }
            None
        },
        PolyPolicy::Loudest => {
            let mut best: Option<u8> = None;
            let mut best_velocity: u8 = 0;
            let mut n: usize = 0;
            while n < PITCHES
                invariant
                    n <= PITCHES == active.len(),
                    best == loudest_below(active@, n as nat),
                    best matches Some(q) ==> q < n && active@[q as int] == Some(best_velocity),
                decreases PITCHES - n,
            {
                match active[n] {
                    None => {},
                    Some(v) => {
                        if best.is_none() || best_velocity <= v {
                            best = Some(n as u8);
                            best_velocity = v;
                        }
                    },
                }
                n += 1;
            }
            best
        },
        PolyPolicy::Densest => None,
    }
}

} // verus!
