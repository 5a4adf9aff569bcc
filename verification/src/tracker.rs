use vstd::prelude::*;

use crate::assignment::{
    assignment_cost, hungarian_assignment, is_full_assignment, is_partial_matching,
    minimize_assignment,
};
use crate::geometry::Rect;

verus! {

/// One detector output: a box, the class the detector gave it, and the raw
/// IEEE-754 bits of its confidence score (carried through, never computed on).
#[derive(Clone, Copy, Debug, PartialEq, Eq, Structural)]
pub struct Detection {
    pub rect: Rect,
    pub score_bits: u32,
    pub class_id: i32,
}

/// A tracked object. Its motion model lives with the caller, keyed by `id`.
#[derive(Clone, Copy, Debug, PartialEq, Eq, Structural)]
pub struct Track {
    pub id: usize,
    /// Number of detections this track has absorbed, counting the first.
    pub age: i32,
    /// Frames since the track was last matched to a detection.
    pub time_since_update: i32,
    pub hits: i32,
    pub last_rect: Rect,
    pub class_id: i32,
    /// IEEE-754 bits of the score of the last detection matched.
    pub det_score_bits: u32,
}

/// Cost given to a pair whose classes differ: the cost of zero overlap.
pub const CLASS_MISMATCH_COST: i32 = 1000;

/// SORT-style multi-object tracker: predicted boxes are matched to
/// detections by a minimum-cost assignment, unmatched detections start new
/// tracks with fresh ids, and tracks unmatched for `max_age` frames are dropped.
pub struct SortTracker {
    tracks: Vec<Track>,
    next_id: usize,
    max_age: i32,
    max_match_cost: i32,
}

// ---------------------------------------------------------------------------
// Model of one update
// ---------------------------------------------------------------------------

/// Tracker state invariant: ids are strictly increasing along the track list
/// and below the next id to hand out; every track was matched fewer than
/// `max_age` frames ago.
pub open spec fn tracks_wf(tracks: Seq<Track>, next_id: int, max_age: int) -> bool {
    &&& 1 <= next_id
    &&& forall|i: int|
        0 <= i < tracks.len() ==> 0 <= #[trigger] tracks[i].time_since_update < max_age
    &&& forall|i: int| 0 <= i < tracks.len() ==> #[trigger] tracks[i].id < next_id
    &&& forall|i: int, j: int|
        0 <= i < j < tracks.len() ==> (#[trigger] tracks[i]).id < (#[trigger] tracks[j]).id
}

/// Tracks after the motion prediction step: each takes its predicted box and
/// one more frame without an update.
pub open spec fn predict_tracks(tracks: Seq<Track>, predicted: Seq<Rect>) -> Seq<Track> {
    Seq::new(
        tracks.len(),
        |i: int|
            Track {
                last_rect: predicted[i],
                time_since_update: (tracks[i].time_since_update + 1) as i32,
                ..tracks[i]
            },
    )
}

/// Cost of pairing a track with a detection: the overlap cost when the
/// classes agree, the cost of no overlap otherwise.
pub open spec fn gated_cost(track: Track, det: Detection, overlap_cost: i32) -> i32 {
    if track.class_id == det.class_id {
        overlap_cost
    } else {
        CLASS_MISMATCH_COST
    }
}

/// Row-major track x detection cost matrix after class gating.
pub open spec fn match_costs_spec(
    tracks: Seq<Track>,
    dets: Seq<Detection>,
    overlap_costs: Seq<i32>,
) -> Seq<i32> {
    let nd = dets.len() as int;
    Seq::new(
        tracks.len() * dets.len(),
        |k: int| gated_cost(tracks[k / nd], dets[k % nd], overlap_costs[k]),
    )
}

/// The assignment an update works with: none unless there are tracks and detections.
pub open spec fn effective_assignment(
    assignment: Seq<Option<usize>>,
    num_tracks: nat,
    num_dets: nat,
) -> Seq<Option<usize>> {
    if num_tracks > 0 && num_dets > 0 {
        assignment
    } else {
        Seq::empty()
    }
}

/// The detection track `t` is matched to: its assigned detection, kept only
/// when the pair's cost is at most `max_cost`.
pub open spec fn accepted_match(
    assignment: Seq<Option<usize>>,
    costs: Seq<i32>,
    num_dets: int,
    max_cost: int,
    t: int,
) -> Option<usize> {
    if 0 <= t < assignment.len() && assignment[t] is Some && costs[t * num_dets
        + assignment[t]->0] <= max_cost {
        assignment[t]
    } else {
        None
    }
}

/// Whether detection `d` is matched to some track.
pub open spec fn is_claimed(
    assignment: Seq<Option<usize>>,
    costs: Seq<i32>,
    num_tracks: int,
    num_dets: int,
    max_cost: int,
    d: int,
) -> bool {
    exists|t: int|
        0 <= t < num_tracks && #[trigger] accepted_match(assignment, costs, num_dets, max_cost, t)
            == Some(d as usize)
}

/// A track after absorbing a detection.
pub open spec fn absorb(track: Track, det: Detection) -> Track {
    Track {
        last_rect: det.rect,
        class_id: det.class_id,
        det_score_bits: det.score_bits,
        hits: (track.hits + 1) as i32,
        time_since_update: 0,
        age: (track.age + 1) as i32,
        ..track
    }
}

/// A track started from an unmatched detection.
pub open spec fn spawn(id: int, det: Detection) -> Track {
    Track {
        id: id as usize,
        age: 1,
        time_since_update: 0,
        hits: 1,
        last_rect: det.rect,
        class_id: det.class_id,
        det_score_bits: det.score_bits,
    }
}

/// Predicted tracks with their accepted matches applied.
pub open spec fn correct_tracks(
    predicted: Seq<Track>,
    dets: Seq<Detection>,
    assignment: Seq<Option<usize>>,
    costs: Seq<i32>,
    max_cost: int,
) -> Seq<Track> {
    Seq::new(
        predicted.len(),
        |t: int|
            match accepted_match(assignment, costs, dets.len() as int, max_cost, t) {
                Some(d) => absorb(predicted[t], dets[d as int]),
                None => predicted[t],
            },
    )
}

/// New tracks for the first `n` detections that are not claimed, with
/// consecutive ids from `first_id`, in detection order.
pub open spec fn spawn_prefix(
    dets: Seq<Detection>,
    unclaimed: Seq<bool>,
    first_id: int,
    n: nat,
) -> Seq<Track>
    decreases n,
{
    if n == 0 {
        Seq::empty()
    } else {
        let prev = spawn_prefix(dets, unclaimed, first_id, (n - 1) as nat);
        if unclaimed[n - 1] {
            prev.push(spawn(first_id + prev.len(), dets[n - 1]))
        } else {
            prev
        }
    }
}

/// The tracks, in order, that were matched fewer than `max_age` frames ago.
pub open spec fn retain_live(ts: Seq<Track>, max_age: int) -> Seq<Track>
    decreases ts.len(),
{
    if ts.len() == 0 {
        ts
    } else {
        let prev = retain_live(ts.drop_last(), max_age);
        if ts.last().time_since_update < max_age {
            prev.push(ts.last())
        } else {
            prev
        }
    }
}

/// The tracks, in order, matched in this frame or the one before.
pub open spec fn recently_seen(ts: Seq<Track>) -> Seq<Track>
    decreases ts.len(),
{
    if ts.len() == 0 {
        ts
    } else {
        let prev = recently_seen(ts.drop_last());
        if ts.last().time_since_update < 2 {
            prev.push(ts.last())
        } else {
            prev
        }
    }
}

/// Which detections are left unmatched.
pub open spec fn unclaimed_flags(
    assignment: Seq<Option<usize>>,
    costs: Seq<i32>,
    num_tracks: int,
    num_dets: int,
    max_cost: int,
) -> Seq<bool> {
    Seq::new(
        num_dets as nat,
        |d: int| !is_claimed(assignment, costs, num_tracks, num_dets, max_cost, d),
    )
}

/// Tracks spawned by one update.
pub open spec fn spawned_tracks(
    tracks: Seq<Track>,
    next_id: int,
    max_cost: int,
    dets: Seq<Detection>,
    overlap_costs: Seq<i32>,
    assignment: Seq<Option<usize>>,
) -> Seq<Track> {
    let costs = match_costs_spec(tracks, dets, overlap_costs);
    let a = effective_assignment(assignment, tracks.len(), dets.len());
    let flags = unclaimed_flags(a, costs, tracks.len() as int, dets.len() as int, max_cost);
    spawn_prefix(dets, flags, next_id, dets.len())
}

/// Tracks after matching and spawning, before old tracks are dropped.
pub open spec fn updated_tracks(
    tracks: Seq<Track>,
    next_id: int,
    max_cost: int,
    predicted: Seq<Rect>,
    dets: Seq<Detection>,
    overlap_costs: Seq<i32>,
    assignment: Seq<Option<usize>>,
) -> Seq<Track> {
    let costs = match_costs_spec(tracks, dets, overlap_costs);
    let a = effective_assignment(assignment, tracks.len(), dets.len());
    correct_tracks(predict_tracks(tracks, predicted), dets, a, costs, max_cost) + spawned_tracks(
        tracks,
        next_id,
        max_cost,
        dets,
        overlap_costs,
        assignment,
    )
}

/// True when an update cannot overflow a counter: every hit and age counter
/// can still grow by one, and enough ids remain for every detection.
pub open spec fn counters_have_room(tracks: Seq<Track>, next_id: int, num_dets: int) -> bool {
    &&& next_id + num_dets <= usize::MAX
    &&& forall|i: int|
        0 <= i < tracks.len() ==> (#[trigger] tracks[i]).hits < i32::MAX && tracks[i].age
            < i32::MAX
}


fn div_index_in_range(k: usize, nt: usize, nd: usize)
    requires
        nd > 0,
        k < nt * nd,
    ensures
        k / nd < nt,
        k % nd < nd,
{
    proof {
        vstd::arithmetic::mul::lemma_mul_is_commutative(nt as int, nd as int);
        vstd::arithmetic::div_mod::lemma_multiply_divide_lt(k as int, nd as int, nt as int);
    }
}

proof fn lemma_row_col(k: int, nd: int, t: int, d: int)
    requires
        nd > 0,
        0 <= d < nd,
        k == t * nd + d,
    ensures
        k / nd == t,
        k % nd == d,
{
    vstd::arithmetic::div_mod::lemma_fundamental_div_mod_converse(k, nd, t, d);
}


proof fn lemma_spawn_prefix(dets: Seq<Detection>, unclaimed: Seq<bool>, first_id: int, n: nat)
    requires
        0 <= first_id,
        first_id + n <= usize::MAX,
    ensures
        spawn_prefix(dets, unclaimed, first_id, n).len() <= n,
        forall|k: int|
            0 <= k < spawn_prefix(dets, unclaimed, first_id, n).len() ==> {
                let t = #[trigger] spawn_prefix(dets, unclaimed, first_id, n)[k];
                &&& t.id == first_id + k
                &&& t.time_since_update == 0
                &&& t.age == 1
                &&& t.hits == 1
            },
    decreases n,
{
    if n > 0 {
        lemma_spawn_prefix(dets, unclaimed, first_id, (n - 1) as nat);
    }
}

proof fn lemma_retain_live(s: Seq<Track>, max_age: int)
    ensures
        forall|j: int|
            0 <= j < retain_live(s, max_age).len() ==> (#[trigger] retain_live(
                s,
                max_age,
            )[j]).time_since_update < max_age,
        forall|j: int|
            0 <= j < retain_live(s, max_age).len() ==> s.contains(
                #[trigger] retain_live(s, max_age)[j],
            ),
        (forall|i: int, j: int| 0 <= i < j < s.len() ==> (#[trigger] s[i]).id < (#[trigger] s[j]).id)
            ==> (forall|i: int, j: int|
            0 <= i < j < retain_live(s, max_age).len() ==> (#[trigger] retain_live(s, max_age)[i]).id
                < (#[trigger] retain_live(s, max_age)[j]).id),
    decreases s.len(),
{
    if s.len() > 0 {
        let p = s.drop_last();
        lemma_retain_live(p, max_age);
        let r = retain_live(s, max_age);
        let rp = retain_live(p, max_age);
        assert forall|j: int| 0 <= j < r.len() implies s.contains(#[trigger] r[j]) by {
            if j < rp.len() {
                assert(p.contains(rp[j]));
                let i = choose|i: int| 0 <= i < p.len() && p[i] == rp[j];
                assert(s[i] == r[j]);
            } else {
                assert(s[s.len() - 1] == r[j]);
            }
        }
        if forall|i: int, j: int| 0 <= i < j < s.len() ==> (#[trigger] s[i]).id < (#[trigger] s[j]).id {
            assert forall|i: int, j: int| 0 <= i < j < r.len() implies (#[trigger] r[i]).id < (
            #[trigger] r[j]).id by {
                if j < rp.len() {
                    assert(rp[i] == r[i] && rp[j] == r[j]);
                } else {
                    assert(p.contains(rp[i]));
                    let k = choose|k: int| 0 <= k < p.len() && p[k] == rp[i];
                    assert(s[k] == r[i]);
                    assert(s[s.len() - 1] == r[j]);
                }
            }
        }
    }
}

proof fn lemma_recently_seen(s: Seq<Track>)
    ensures
        forall|j: int|
            0 <= j < recently_seen(s).len() ==> (#[trigger] recently_seen(s)[j]).time_since_update
                < 2,
        forall|j: int| 0 <= j < recently_seen(s).len() ==> s.contains(#[trigger] recently_seen(s)[j]),
    decreases s.len(),
{
    if s.len() > 0 {
        let p = s.drop_last();
        lemma_recently_seen(p);
        let r = recently_seen(s);
        let rp = recently_seen(p);
        assert forall|j: int| 0 <= j < r.len() implies s.contains(#[trigger] r[j]) by {
            if j < rp.len() {
                assert(p.contains(rp[j]));
                let i = choose|i: int| 0 <= i < p.len() && p[i] == rp[j];
                assert(s[i] == r[j]);
            } else {
                assert(s[s.len() - 1] == r[j]);
            }
        }
    }
}

impl SortTracker {
    /// The tracks, in id order.
    pub closed spec fn tracks_view(&self) -> Seq<Track> {
        self.tracks@
    }

    /// The id the next new track will receive.
    pub closed spec fn next_id_view(&self) -> int {
        self.next_id as int
    }

    /// Tracks unmatched for this many frames are dropped.
    pub closed spec fn max_age_view(&self) -> int {
        self.max_age as int
    }

    /// Largest pair cost that still counts as a match.
    pub closed spec fn max_match_cost_view(&self) -> int {
        self.max_match_cost as int
    }

    pub open spec fn wf(&self) -> bool {
        tracks_wf(self.tracks_view(), self.next_id_view(), self.max_age_view())
    }

    /// An empty tracker. A pair of track and detection is matched only when its
    /// cost is at most `max_match_cost`; a track is dropped once it has gone
    /// `max_age` frames without a match.
    pub fn new(max_age: i32, max_match_cost: i32) -> (r: SortTracker)
        ensures
            r.wf(),
            r.tracks_view() == Seq::<Track>::empty(),
            r.next_id_view() == 1,
            r.max_age_view() == max_age,
            r.max_match_cost_view() == max_match_cost,
    {
        SortTracker { tracks: Vec::new(), next_id: 1, max_age, max_match_cost }
    }

    pub fn tracks(&self) -> (r: &Vec<Track>)
        ensures
            r@ == self.tracks_view(),
    {
        &self.tracks
    }

    pub fn next_id(&self) -> (r: usize)
        ensures
            r == self.next_id_view(),
    {
        self.next_id
    }

    pub fn max_age(&self) -> (r: i32)
        ensures
            r == self.max_age_view(),
    {
        self.max_age
    }

    pub fn max_match_cost(&self) -> (r: i32)
        ensures
            r == self.max_match_cost_view(),
    {
        self.max_match_cost
    }

    /// The class-gated cost matrix for the current tracks (rows) and the given
    /// detections (columns): `overlap_costs[t * n + d]` where track `t` and
    /// detection `d` share a class, `CLASS_MISMATCH_COST` where they do not.
    pub fn match_costs(&self, detections: &Vec<Detection>, overlap_costs: &Vec<i32>) -> (r: Vec<
        i32,
    >)
        requires
            overlap_costs.len() == self.tracks_view().len() * detections.len(),
        ensures
            r@ == match_costs_spec(self.tracks_view(), detections@, overlap_costs@),
    {
        let nt = self.tracks.len();
        let nd = detections.len();
        let n = overlap_costs.len();
        let mut costs: Vec<i32> = Vec::new();
        let mut k: usize = 0;
        while k < n
            invariant
                n == overlap_costs.len(),
                n == nt * nd,
                nt == self.tracks@.len(),
                nd == detections@.len(),
                k <= n,
                costs@.len() == k,
                forall|j: int|
                    0 <= j < k ==> #[trigger] costs@[j] == gated_cost(
                        self.tracks@[j / (nd as int)],
                        detections@[j % (nd as int)],
                        overlap_costs@[j],
                    ),
            decreases n - k,
        {
            assert(nd > 0) by {
                if nd == 0 {
                    assert(nt * nd == 0) by (nonlinear_arith)
                        requires
                            nd == 0,
                    ;
                }
            }
            div_index_in_range(k, nt, nd);
            let t = k / nd;
            let d = k % nd;
            let c = if self.tracks[t].class_id == detections[d].class_id {
                overlap_costs[k]
            } else {
                CLASS_MISMATCH_COST
            };
            costs.push(c);
            k = k + 1;
        }
        assert(costs@ =~= match_costs_spec(self.tracks@, detections@, overlap_costs@));
        costs
    }
}



fn predict_all(tracks: &Vec<Track>, predicted: &Vec<Rect>, max_age: i32) -> (r: Vec<Track>)
    requires
        predicted.len() == tracks.len(),
        forall|i: int| 0 <= i < tracks.len() ==> (#[trigger] tracks@[i]).time_since_update < max_age,
    ensures
        r@ == predict_tracks(tracks@, predicted@),
{
    let n = tracks.len();
    let mut pred: Vec<Track> = Vec::new();
    let mut i: usize = 0;
    while i < n
        invariant
            n == tracks.len(),
            n == predicted.len(),
            i <= n,
            forall|j: int| 0 <= j < tracks.len() ==> (#[trigger] tracks@[j]).time_since_update < max_age,
            pred@ =~= predict_tracks(tracks@, predicted@).take(i as int),
        decreases n - i,
    {
        let t = tracks[i];
        pred.push(Track { last_rect: predicted[i], time_since_update: t.time_since_update + 1, ..t });
        i = i + 1;
    }
    assert(pred@ =~= predict_tracks(tracks@, predicted@));
    pred
}

fn accept_matches(
    costs: &Vec<i32>,
    nt: usize,
    nd: usize,
    max_cost: i32,
    assignment: &Vec<Option<usize>>,
) -> (r: Vec<Option<usize>>)
    requires
        costs.len() == nt * nd,
        nt > 0 && nd > 0 ==> {
            &&& assignment.len() == nt
            &&& forall|t: int|
                0 <= t < assignment.len() && (#[trigger] assignment@[t]) is Some ==> assignment@[t]->0
                    < nd
        },
    ensures
        r.len() == nt,
        forall|j: int|
            0 <= j < nt ==> #[trigger] r@[j] == accepted_match(
                effective_assignment(assignment@, nt as nat, nd as nat),
                costs@,
                nd as int,
                max_cost as int,
                j,
            ),
        forall|j: int| 0 <= j < nt && (#[trigger] r@[j]) is Some ==> r@[j]->0 < nd,
{
    let ghost a = effective_assignment(assignment@, nt as nat, nd as nat);
    let use_assignment = nt > 0 && nd > 0;
    let mut matches: Vec<Option<usize>> = Vec::new();
    let mut t: usize = 0;
    while t < nt
        invariant
            costs.len() == nt * nd,
            use_assignment == (nt > 0 && nd > 0),
            a == effective_assignment(assignment@, nt as nat, nd as nat),
            use_assignment ==> {
                &&& assignment.len() == nt
                &&& forall|t: int|
                    0 <= t < assignment.len() && (#[trigger] assignment@[t]) is Some
                        ==> assignment@[t]->0 < nd
            },
            t <= nt,
            matches@.len() == t,
            forall|j: int|
                0 <= j < t ==> #[trigger] matches@[j] == accepted_match(
                    a,
                    costs@,
                    nd as int,
                    max_cost as int,
                    j,
                ),
            forall|j: int| 0 <= j < t && (#[trigger] matches@[j]) is Some ==> matches@[j]->0 < nd,
        decreases nt - t,
    {
        let mut m: Option<usize> = None;
        if use_assignment {
            if let Some(d) = assignment[t] {
                assert(assignment@[t as int] is Some);
                assert(t * nd + d < nt * nd) by (nonlinear_arith)
                    requires
                        t < nt,
                        d < nd,
                ;
                if costs[t * nd + d] <= max_cost {
                    m = Some(d);
                }
            }
        }
        matches.push(m);
        t = t + 1;
    }
    matches
}

/// Flags of the detections that no entry of `matches` names.
pub open spec fn unmatched_flags(matches: Seq<Option<usize>>, nd: nat) -> Seq<bool> {
    Seq::new(
        nd,
        |j: int| !(exists|u: int| 0 <= u < matches.len() && #[trigger] matches[u] == Some(j as usize)),
    )
}

fn unmatched_detections(matches: &Vec<Option<usize>>, nd: usize) -> (r: Vec<bool>)
    requires
        forall|j: int| 0 <= j < matches.len() && (#[trigger] matches@[j]) is Some ==> matches@[j]->0 < nd,
    ensures
        r@ == unmatched_flags(matches@, nd as nat),
{
    let mut unclaimed: Vec<bool> = Vec::new();
    let mut d: usize = 0;
    while d < nd
        invariant
            d <= nd,
            unclaimed@.len() == d,
            forall|j: int| 0 <= j < d ==> #[trigger] unclaimed@[j],
        decreases nd - d,
    {
        unclaimed.push(true);
        d = d + 1;
    }
    let nt = matches.len();
    let mut t: usize = 0;
    while t < nt
        invariant
            nt == matches.len(),
            forall|j: int| 0 <= j < matches.len() && (#[trigger] matches@[j]) is Some ==> matches@[j]->0 < nd,
            t <= nt,
            unclaimed@.len() == nd,
            forall|j: int|
                0 <= j < nd ==> #[trigger] unclaimed@[j] == !(exists|u: int|
                    0 <= u < t && #[trigger] matches@[u] == Some(j as usize)),
        decreases nt - t,
    {
        if let Some(dm) = matches[t] {
            assert(matches@[t as int] is Some);
            unclaimed.set(dm, false);
            assert forall|j: int| 0 <= j < nd implies #[trigger] unclaimed@[j] == !(exists|u: int|
                0 <= u < t + 1 && #[trigger] matches@[u] == Some(j as usize)) by {
                if j == dm {
                    assert(matches@[t as int] == Some(j as usize));
                } else {
                    if exists|u: int| 0 <= u < t + 1 && #[trigger] matches@[u] == Some(j as usize) {
                        let u = choose|u: int|
                            0 <= u < t + 1 && #[trigger] matches@[u] == Some(j as usize);
                        assert(u != t);
                    }
                }
            }
        } else {
            assert forall|j: int| 0 <= j < nd implies #[trigger] unclaimed@[j] == !(exists|u: int|
                0 <= u < t + 1 && #[trigger] matches@[u] == Some(j as usize)) by {
                if exists|u: int| 0 <= u < t + 1 && #[trigger] matches@[u] == Some(j as usize) {
                    let u = choose|u: int| 0 <= u < t + 1 && #[trigger] matches@[u] == Some(j as usize);
                    assert(u != t);
                }
            }
        }
        t = t + 1;
    }
    assert(unclaimed@ =~= unmatched_flags(matches@, nd as nat));
    unclaimed
}

proof fn lemma_flags_agree(
    matches: Seq<Option<usize>>,
    a: Seq<Option<usize>>,
    costs: Seq<i32>,
    nt: int,
    nd: int,
    max_cost: int,
)
    requires
        0 <= nt,
        0 <= nd,
        matches.len() == nt,
        forall|j: int| 0 <= j < nt ==> #[trigger] matches[j] == accepted_match(a, costs, nd, max_cost, j),
    ensures
        unmatched_flags(matches, nd as nat) == unclaimed_flags(a, costs, nt, nd, max_cost),
{
    let f1 = unmatched_flags(matches, nd as nat);
    let f2 = unclaimed_flags(a, costs, nt, nd, max_cost);
    assert forall|j: int| 0 <= j < nd implies #[trigger] f1[j] == f2[j] by {
        if exists|u: int| 0 <= u < matches.len() && #[trigger] matches[u] == Some(j as usize) {
            let u = choose|u: int| 0 <= u < matches.len() && #[trigger] matches[u] == Some(j as usize);
            assert(accepted_match(a, costs, nd, max_cost, u) == Some(j as usize));
        }
        if is_claimed(a, costs, nt, nd, max_cost, j) {
            let u = choose|u: int|
                0 <= u < nt && #[trigger] accepted_match(a, costs, nd, max_cost, u) == Some(j as usize);
            assert(matches[u] == Some(j as usize));
        }
    }
    assert(f1 =~= f2);
}

/// Applies each track's match, if any, to its predicted state.
pub open spec fn absorb_all(pred: Seq<Track>, dets: Seq<Detection>, matches: Seq<Option<usize>>) -> Seq<Track> {
    Seq::new(
        pred.len(),
        |t: int|
            match matches[t] {
                Some(d) => absorb(pred[t], dets[d as int]),
                None => pred[t],
            },
    )
}

fn absorb_matches(pred: &Vec<Track>, dets: &Vec<Detection>, matches: &Vec<Option<usize>>) -> (r: Vec<Track>)
    requires
        matches.len() == pred.len(),
        forall|j: int| 0 <= j < matches.len() && (#[trigger] matches@[j]) is Some ==> matches@[j]->0 < dets.len(),
        forall|j: int| 0 <= j < pred.len() ==> (#[trigger] pred@[j]).hits < i32::MAX && pred@[j].age < i32::MAX,
    ensures
        r@ == absorb_all(pred@, dets@, matches@),
{
    let n = pred.len();
    let mut all: Vec<Track> = Vec::new();
    let mut t: usize = 0;
    while t < n
        invariant
            n == pred.len(),
            matches.len() == n,
            forall|j: int| 0 <= j < matches.len() && (#[trigger] matches@[j]) is Some ==> matches@[j]->0 < dets.len(),
            forall|j: int| 0 <= j < pred.len() ==> (#[trigger] pred@[j]).hits < i32::MAX && pred@[j].age < i32::MAX,
            t <= n,
            all@ =~= absorb_all(pred@, dets@, matches@).take(t as int),
        decreases n - t,
    {
        let p = pred[t];
        let nxt = match matches[t] {
            Some(dm) => {
                assert(matches@[t as int] is Some);
                let det = dets[dm];
                Track {
                    last_rect: det.rect,
                    class_id: det.class_id,
                    det_score_bits: det.score_bits,
                    hits: p.hits + 1,
                    time_since_update: 0,
                    age: p.age + 1,
                    ..p
                }
            },
            None => p,
        };
        all.push(nxt);
        t = t + 1;
    }
    assert(all@ =~= absorb_all(pred@, dets@, matches@));
    all
}

fn spawn_unclaimed(all: &mut Vec<Track>, dets: &Vec<Detection>, unclaimed: &Vec<bool>, first_id: usize) -> (next_id: usize)
    requires
        unclaimed.len() == dets.len(),
        first_id + dets.len() <= usize::MAX,
    ensures
        final(all)@ == old(all)@ + spawn_prefix(dets@, unclaimed@, first_id as int, dets.len() as nat),
        next_id == first_id + spawn_prefix(dets@, unclaimed@, first_id as int, dets.len() as nat).len(),
{
    let nd = dets.len();
    let ghost start = all@;
    let mut next_id = first_id;
    let mut d: usize = 0;
    proof {
        lemma_spawn_prefix(dets@, unclaimed@, first_id as int, 0);
    }
    while d < nd
        invariant
            nd == dets.len(),
            unclaimed.len() == nd,
            first_id + nd <= usize::MAX,
            d <= nd,
            spawn_prefix(dets@, unclaimed@, first_id as int, d as nat).len() <= d,
            all@ =~= start + spawn_prefix(dets@, unclaimed@, first_id as int, d as nat),
            next_id == first_id + spawn_prefix(dets@, unclaimed@, first_id as int, d as nat).len(),
        decreases nd - d,
    {
        proof {
            lemma_spawn_prefix(dets@, unclaimed@, first_id as int, (d + 1) as nat);
        }
        if unclaimed[d] {
            let det = dets[d];
            all.push(
                Track {
                    id: next_id,
                    age: 1,
                    time_since_update: 0,
                    hits: 1,
                    last_rect: det.rect,
                    class_id: det.class_id,
                    det_score_bits: det.score_bits,
                },
            );
            next_id = next_id + 1;
        }
        d = d + 1;
    }
    next_id
}

fn retain_live_vec(all: &Vec<Track>, max_age: i32) -> (r: Vec<Track>)
    ensures
        r@ == retain_live(all@, max_age as int),
{
    let mut kept: Vec<Track> = Vec::new();
    let mut i: usize = 0;
    while i < all.len()
        invariant
            i <= all@.len(),
            kept@ == retain_live(all@.take(i as int), max_age as int),
        decreases all@.len() - i,
    {
        assert(all@.take(i + 1).drop_last() =~= all@.take(i as int));
        if all[i].time_since_update < max_age {
            kept.push(all[i]);
        }
        i = i + 1;
    }
    assert(all@.take(all@.len() as int) =~= all@);
    kept
}

fn recently_seen_vec(kept: &Vec<Track>) -> (r: Vec<Track>)
    ensures
        r@ == recently_seen(kept@),
{
    let mut active: Vec<Track> = Vec::new();
    let mut i: usize = 0;
    while i < kept.len()
        invariant
            i <= kept@.len(),
            active@ == recently_seen(kept@.take(i as int)),
        decreases kept@.len() - i,
    {
        assert(kept@.take(i + 1).drop_last() =~= kept@.take(i as int));
        if kept[i].time_since_update < 2 {
            active.push(kept[i]);
        }
        i = i + 1;
    }
    assert(kept@.take(kept@.len() as int) =~= kept@);
    active
}

/// An update keeps the tracker invariant.
proof fn lemma_update_wf(
    tracks: Seq<Track>,
    next_id: int,
    max_age: int,
    max_cost: int,
    predicted: Seq<Rect>,
    dets: Seq<Detection>,
    overlap_costs: Seq<i32>,
    assignment: Seq<Option<usize>>,
)
    requires
        tracks_wf(tracks, next_id, max_age),
        max_age <= i32::MAX,
        predicted.len() == tracks.len(),
        next_id + dets.len() <= usize::MAX,
    ensures
        tracks_wf(
            retain_live(
                updated_tracks(tracks, next_id, max_cost, predicted, dets, overlap_costs, assignment),
                max_age,
            ),
            next_id + spawned_tracks(tracks, next_id, max_cost, dets, overlap_costs, assignment).len(),
            max_age,
        ),
{
    let all = updated_tracks(tracks, next_id, max_cost, predicted, dets, overlap_costs, assignment);
    let sp = spawned_tracks(tracks, next_id, max_cost, dets, overlap_costs, assignment);
    let costs = match_costs_spec(tracks, dets, overlap_costs);
    let a = effective_assignment(assignment, tracks.len(), dets.len());
    let flags = unclaimed_flags(a, costs, tracks.len() as int, dets.len() as int, max_cost);
    lemma_spawn_prefix(dets, flags, next_id, dets.len());
    let nt = tracks.len() as int;
    let n2 = next_id + sp.len();
    assert forall|i: int| 0 <= i < all.len() implies (#[trigger] all[i]).id < n2 && 0
        <= all[i].time_since_update by {
        if i < nt {
            assert(all[i].id == tracks[i].id);
            assert(0 <= tracks[i].time_since_update < max_age);
        } else {
            assert(all[i] == sp[i - nt]);
        }
    }
    assert forall|i: int, j: int| 0 <= i < j < all.len() implies (#[trigger] all[i]).id < (
    #[trigger] all[j]).id by {
        if j < nt {
            assert(all[i].id == tracks[i].id);
            assert(all[j].id == tracks[j].id);
        } else if i < nt {
            assert(all[i].id == tracks[i].id);
            assert(all[j] == sp[j - nt]);
        } else {
            assert(all[i] == sp[i - nt]);
            assert(all[j] == sp[j - nt]);
        }
    }
    lemma_retain_live(all, max_age);
    let r = retain_live(all, max_age);
    assert forall|j: int| 0 <= j < r.len() implies #[trigger] r[j].id < n2 && 0
        <= r[j].time_since_update by {
        assert(all.contains(r[j]));
    }
}

impl SortTracker {
    /// One tracking step with the track-to-detection assignment given.
    ///
    /// `predicted[t]` is the motion model's box for track `t` this frame;
    /// `overlap_costs[t * n + d]` is the overlap cost of track `t` and
    /// detection `d` (`n` detections); `assignment[t]` is the detection track
    /// `t` is paired with, if any. Every track first takes its predicted box and
    /// one more frame without update; pairs of different class cost
    /// `CLASS_MISMATCH_COST`; an assigned pair whose cost is at most the
    /// tracker's limit is a match, and the track absorbs the detection; each
    /// unmatched detection starts a track with the next id; tracks that have
    /// gone `max_age` frames without a match are dropped. Returns the tracks
    /// matched in this frame or the one before.
    pub fn update_with_assignment(
        &mut self,
        predicted: Vec<Rect>,
        detections: Vec<Detection>,
        overlap_costs: Vec<i32>,
        assignment: Vec<Option<usize>>,
    ) -> (active: Vec<Track>)
        requires
            old(self).wf(),
            predicted.len() == old(self).tracks_view().len(),
            overlap_costs.len() == old(self).tracks_view().len() * detections.len(),
            old(self).tracks_view().len() > 0 && detections.len() > 0 ==> {
                &&& assignment.len() == old(self).tracks_view().len()
                &&& forall|t: int|
                    0 <= t < assignment.len() && (#[trigger] assignment@[t]) is Some
                        ==> assignment@[t]->0 < detections.len()
            },
            counters_have_room(old(self).tracks_view(), old(self).next_id_view(), detections.len() as int),
        ensures
            final(self).wf(),
            final(self).max_age_view() == old(self).max_age_view(),
            final(self).max_match_cost_view() == old(self).max_match_cost_view(),
            final(self).tracks_view() == retain_live(
                updated_tracks(
                    old(self).tracks_view(),
                    old(self).next_id_view(),
                    old(self).max_match_cost_view(),
                    predicted@,
                    detections@,
                    overlap_costs@,
                    assignment@,
                ),
                old(self).max_age_view(),
            ),
            final(self).next_id_view() == old(self).next_id_view() + spawned_tracks(
                old(self).tracks_view(),
                old(self).next_id_view(),
                old(self).max_match_cost_view(),
                detections@,
                overlap_costs@,
                assignment@,
            ).len(),
            active@ == recently_seen(final(self).tracks_view()),
    {
        let ghost old_tracks = self.tracks@;
        let ghost old_next = self.next_id as int;
        let nt = self.tracks.len();
        let nd = detections.len();
        let max_cost = self.max_match_cost;
        let max_age = self.max_age;
        let costs = self.match_costs(&detections, &overlap_costs);
        let ghost a = effective_assignment(assignment@, nt as nat, nd as nat);
        let pred = predict_all(&self.tracks, &predicted, max_age);
        let matches = accept_matches(&costs, nt, nd, max_cost, &assignment);
        let unclaimed = unmatched_detections(&matches, nd);
        proof {
            lemma_flags_agree(matches@, a, costs@, nt as int, nd as int, max_cost as int);
            assert forall|j: int| 0 <= j < pred.len() implies (#[trigger] pred@[j]).hits < i32::MAX
                && pred@[j].age < i32::MAX by {
                assert(old_tracks[j].hits < i32::MAX);
            }
        }
        let mut all = absorb_matches(&pred, &detections, &matches);
        assert(all@ =~= correct_tracks(pred@, detections@, a, costs@, max_cost as int));
        let next_id = spawn_unclaimed(&mut all, &detections, &unclaimed, self.next_id);
        let kept = retain_live_vec(&all, max_age);
        let active = recently_seen_vec(&kept);
        proof {
            lemma_update_wf(
                old_tracks,
                old_next,
                max_age as int,
                max_cost as int,
                predicted@,
                detections@,
                overlap_costs@,
                assignment@,
            );
        }
        self.tracks = kept;
        self.next_id = next_id;
        active
    }
}

impl SortTracker {
    /// One tracking step: like `update_with_assignment`, with the assignment
    /// that `hungarian::minimize` finds for the class-gated cost matrix.
    /// Overlap costs are `(1 - IoU) * 1000` truncated, so they lie in `0..=1000`.
    pub fn update(
        &mut self,
        predicted: Vec<Rect>,
        detections: Vec<Detection>,
        overlap_costs: Vec<i32>,
    ) -> (active: Vec<Track>)
        requires
            old(self).wf(),
            predicted.len() == old(self).tracks_view().len(),
            overlap_costs.len() == old(self).tracks_view().len() * detections.len(),
            forall|k: int| 0 <= k < overlap_costs.len() ==> 0 <= #[trigger] overlap_costs@[k] <= 1000,
            counters_have_room(old(self).tracks_view(), old(self).next_id_view(), detections.len() as int),
        ensures
            ({
                let costs = match_costs_spec(old(self).tracks_view(), detections@, overlap_costs@);
                let a = hungarian_assignment(
                    costs,
                    old(self).tracks_view().len(),
                    detections.len() as nat,
                );
                &&& final(self).wf()
                &&& final(self).max_age_view() == old(self).max_age_view()
                &&& final(self).max_match_cost_view() == old(self).max_match_cost_view()
                &&& final(self).tracks_view() == retain_live(
                    updated_tracks(
                        old(self).tracks_view(),
                        old(self).next_id_view(),
                        old(self).max_match_cost_view(),
                        predicted@,
                        detections@,
                        overlap_costs@,
                        a,
                    ),
                    old(self).max_age_view(),
                )
                &&& final(self).next_id_view() == old(self).next_id_view() + spawned_tracks(
                    old(self).tracks_view(),
                    old(self).next_id_view(),
                    old(self).max_match_cost_view(),
                    detections@,
                    overlap_costs@,
                    a,
                ).len()
                &&& active@ == recently_seen(final(self).tracks_view())
                &&& old(self).tracks_view().len() > 0 && detections.len() > 0 ==> is_full_assignment(
                    a,
                    old(self).tracks_view().len(),
                    detections.len() as nat,
                )
                &&& old(self).tracks_view().len() > 0 && detections.len() > 0 ==> forall|
                    other: Seq<Option<usize>>,
                |
                    is_full_assignment(other, old(self).tracks_view().len(), detections.len() as nat)
                        ==> assignment_cost(costs, detections.len() as nat, a)
                        <= #[trigger] assignment_cost(costs, detections.len() as nat, other)
            }),
    {
        let nt = self.tracks.len();
        let nd = detections.len();
        let costs = self.match_costs(&detections, &overlap_costs);
        assert forall|k: int| 0 <= k < costs.len() implies 0 <= #[trigger] costs@[k] <= 1000 by {
            assert(overlap_costs@[k] <= 1000);
        }
        let assignment = if nt > 0 && nd > 0 {
            minimize_assignment(&costs, nt, nd)
        } else {
            Vec::new()
        };
        proof {
            if nt > 0 && nd > 0 {
                assert forall|t: int|
                    0 <= t < assignment.len() && (#[trigger] assignment@[t]) is Some
                    implies assignment@[t]->0 < nd by {}
            }
        }
        let ghost a = hungarian_assignment(costs@, nt as nat, nd as nat);
        assert(effective_assignment(assignment@, nt as nat, nd as nat) =~= effective_assignment(a, nt as nat, nd as nat));
        self.update_with_assignment(predicted, detections, overlap_costs, assignment)
    }
}

/// Number of unclaimed detections among the first `d`: the position, among
/// the new tracks, of the track that detection `d` starts when unclaimed.
pub open spec fn unclaimed_before(flags: Seq<bool>, d: nat) -> nat
    decreases d,
{
    if d == 0 {
        0
    } else {
        unclaimed_before(flags, (d - 1) as nat) + if flags[d - 1] {
            1nat
        } else {
            0nat
        }
    }
}

/// Whether some unclaimed detection among the first `n` has `k` unclaimed
/// detections before it.
pub open spec fn is_unclaimed_rank(flags: Seq<bool>, n: nat, k: int) -> bool {
    exists|d: int| 0 <= d < n && flags[d] && #[trigger] unclaimed_before(flags, d as nat) == k
}

proof fn lemma_unclaimed_before_mono(flags: Seq<bool>, d1: nat, d2: nat)
    requires
        d1 < d2,
    ensures
        unclaimed_before(flags, d1) + (if flags[d1 as int] {
            1nat
        } else {
            0nat
        }) <= unclaimed_before(flags, d2),
    decreases d2,
{
    if d2 > d1 + 1 {
        lemma_unclaimed_before_mono(flags, d1, (d2 - 1) as nat);
    }
}

/// New tracks come from the unclaimed detections in detection order: the one
/// started by detection `d` sits at position `unclaimed_before(flags, d)` and
/// has id `first_id` plus that position; every new track has such a source.
proof fn lemma_spawn_prefix_rank(dets: Seq<Detection>, flags: Seq<bool>, first_id: int, n: nat)
    ensures
        spawn_prefix(dets, flags, first_id, n).len() == unclaimed_before(flags, n),
        forall|d: int|
            0 <= d < n && flags[d] ==> {
                &&& unclaimed_before(flags, d as nat) < spawn_prefix(dets, flags, first_id, n).len()
                &&& spawn_prefix(dets, flags, first_id, n)[unclaimed_before(flags, d as nat) as int]
                    == spawn(first_id + unclaimed_before(flags, d as nat), dets[d])
            },
        forall|k: int|
            0 <= k < spawn_prefix(dets, flags, first_id, n).len() ==> #[trigger] is_unclaimed_rank(
                flags,
                n,
                k,
            ),
    decreases n,
{
    if n > 0 {
        let m = (n - 1) as nat;
        lemma_spawn_prefix_rank(dets, flags, first_id, m);
        let prev = spawn_prefix(dets, flags, first_id, m);
        let cur = spawn_prefix(dets, flags, first_id, n);
        assert forall|d: int| 0 <= d < n && flags[d] implies {
            &&& unclaimed_before(flags, d as nat) < cur.len()
            &&& cur[unclaimed_before(flags, d as nat) as int] == spawn(
                first_id + unclaimed_before(flags, d as nat),
                dets[d],
            )
        } by {
            if d < m {
                assert(prev[unclaimed_before(flags, d as nat) as int] == spawn(
                    first_id + unclaimed_before(flags, d as nat),
                    dets[d],
                ));
            }
        }
        assert forall|k: int| 0 <= k < cur.len() implies #[trigger] is_unclaimed_rank(flags, n, k) by {
            if k < prev.len() {
                assert(is_unclaimed_rank(flags, m, k));
                let d = choose|d: int|
                    0 <= d < m && flags[d] && #[trigger] unclaimed_before(flags, d as nat) == k;
                assert(0 <= d < n && flags[d] && unclaimed_before(flags, d as nat) == k);
            } else {
                assert(flags[m as int] && unclaimed_before(flags, m) == k);
            }
        }
    }
}

proof fn lemma_retain_append(a: Seq<Track>, b: Seq<Track>, max_age: int)
    requires
        forall|i: int| 0 <= i < b.len() ==> (#[trigger] b[i]).time_since_update < max_age,
    ensures
        retain_live(a + b, max_age) == retain_live(a, max_age) + b,
    decreases b.len(),
{
    if b.len() == 0 {
        assert(a + b =~= a);
        assert(retain_live(a, max_age) + b =~= retain_live(a, max_age));
    } else {
        let b2 = b.drop_last();
        lemma_retain_append(a, b2, max_age);
        assert((a + b).drop_last() =~= a + b2);
        assert((a + b).last() == b.last());
        assert(retain_live(a, max_age) + b =~= (retain_live(a, max_age) + b2).push(b.last()));
    }
}

// ---------------------------------------------------------------------------
// Laws of one update
// ---------------------------------------------------------------------------

proof fn lemma_spawn_prefix_covers(
    dets: Seq<Detection>,
    unclaimed: Seq<bool>,
    first_id: int,
    n: nat,
    d: int,
)
    requires
        0 <= d < n,
        d < dets.len(),
        unclaimed[d],
    ensures
        exists|k: int|
            0 <= k < spawn_prefix(dets, unclaimed, first_id, n).len() && #[trigger] spawn_prefix(
                dets,
                unclaimed,
                first_id,
                n,
            )[k] == spawn(first_id + k, dets[d]),
    decreases n,
{
    let prev = spawn_prefix(dets, unclaimed, first_id, (n - 1) as nat);
    let cur = spawn_prefix(dets, unclaimed, first_id, n);
    if d == n - 1 {
        assert(cur[prev.len() as int] == spawn(first_id + prev.len(), dets[d]));
    } else {
        lemma_spawn_prefix_covers(dets, unclaimed, first_id, (n - 1) as nat, d);
        let k = choose|k: int|
            0 <= k < prev.len() && #[trigger] prev[k] == spawn(first_id + k, dets[d]);
        assert(cur[k] == prev[k]);
    }
}

proof fn lemma_retain_keeps(s: Seq<Track>, max_age: int, j: int)
    requires
        0 <= j < s.len(),
        s[j].time_since_update < max_age,
    ensures
        retain_live(s, max_age).contains(s[j]),
    decreases s.len(),
{
    let p = s.drop_last();
    let r = retain_live(s, max_age);
    if j == s.len() - 1 {
        assert(r[r.len() - 1] == s[j]);
    } else {
        lemma_retain_keeps(p, max_age, j);
        let rp = retain_live(p, max_age);
        let k = choose|k: int| 0 <= k < rp.len() && rp[k] == p[j];
        assert(r[k] == s[j]);
    }
}

/// Ids are stable: after an update, a track whose id was already handed out
/// is a track of before, with the same id and class history (it was either
/// matched this frame or is one frame older); a track with a new id has just
/// been started from a detection.
pub proof fn lemma_update_keeps_ids(
    tracks: Seq<Track>,
    next_id: int,
    max_age: int,
    max_cost: int,
    predicted: Seq<Rect>,
    dets: Seq<Detection>,
    overlap_costs: Seq<i32>,
    assignment: Seq<Option<usize>>,
)
    requires
        tracks_wf(tracks, next_id, max_age),
        max_age <= i32::MAX,
        predicted.len() == tracks.len(),
        next_id + dets.len() <= usize::MAX,
    ensures
        ({
            let r = retain_live(
                updated_tracks(tracks, next_id, max_cost, predicted, dets, overlap_costs, assignment),
                max_age,
            );
            forall|k: int|
                0 <= k < r.len() ==> {
                    &&& (#[trigger] r[k]).id < next_id ==> exists|i: int|
                        0 <= i < tracks.len() && #[trigger] tracks[i].id == r[k].id && (
                        r[k].time_since_update == 0 || r[k].time_since_update
                            == tracks[i].time_since_update + 1)
                    &&& r[k].id >= next_id ==> r[k].age == 1 && r[k].hits == 1
                        && r[k].time_since_update == 0
                }
        }),
{
    let all = updated_tracks(tracks, next_id, max_cost, predicted, dets, overlap_costs, assignment);
    let sp = spawned_tracks(tracks, next_id, max_cost, dets, overlap_costs, assignment);
    let costs = match_costs_spec(tracks, dets, overlap_costs);
    let a = effective_assignment(assignment, tracks.len(), dets.len());
    let flags = unclaimed_flags(a, costs, tracks.len() as int, dets.len() as int, max_cost);
    lemma_spawn_prefix(dets, flags, next_id, dets.len());
    lemma_retain_live(all, max_age);
    let r = retain_live(all, max_age);
    let nt = tracks.len() as int;
    assert forall|k: int| 0 <= k < r.len() implies {
        &&& (#[trigger] r[k]).id < next_id ==> exists|i: int|
            0 <= i < tracks.len() && #[trigger] tracks[i].id == r[k].id && (r[k].time_since_update
                == 0 || r[k].time_since_update == tracks[i].time_since_update + 1)
        &&& r[k].id >= next_id ==> r[k].age == 1 && r[k].hits == 1 && r[k].time_since_update == 0
    } by {
        assert(all.contains(r[k]));
        let j = choose|j: int| 0 <= j < all.len() && all[j] == r[k];
        if j < nt {
            assert(all[j].id == tracks[j].id);
            assert(0 <= tracks[j].time_since_update < max_age);
            assert(tracks[j].id < next_id);
        } else {
            assert(all[j] == sp[j - nt]);
        }
    }
}

/// Every detection is accounted for: it is either matched to a track or, when
/// tracks may live at all (`max_age > 0`), it starts a new track that carries
/// its box, class and score under a freshly handed-out id.
pub proof fn lemma_update_accounts_for_detections(
    tracks: Seq<Track>,
    next_id: int,
    max_age: int,
    max_cost: int,
    predicted: Seq<Rect>,
    dets: Seq<Detection>,
    overlap_costs: Seq<i32>,
    assignment: Seq<Option<usize>>,
    d: int,
)
    requires
        tracks_wf(tracks, next_id, max_age),
        max_age <= i32::MAX,
        predicted.len() == tracks.len(),
        next_id + dets.len() <= usize::MAX,
        0 <= d < dets.len(),
    ensures
        ({
            let costs = match_costs_spec(tracks, dets, overlap_costs);
            let a = effective_assignment(assignment, tracks.len(), dets.len());
            let r = retain_live(
                updated_tracks(tracks, next_id, max_cost, predicted, dets, overlap_costs, assignment),
                max_age,
            );
            ||| is_claimed(a, costs, tracks.len() as int, dets.len() as int, max_cost, d)
            ||| max_age > 0 ==> exists|k: int|
                0 <= k < r.len() && r[k].id >= next_id && r[k].last_rect == dets[d].rect
                    && r[k].class_id == dets[d].class_id && #[trigger] r[k].det_score_bits
                    == dets[d].score_bits
        }),
{
    let all = updated_tracks(tracks, next_id, max_cost, predicted, dets, overlap_costs, assignment);
    let costs = match_costs_spec(tracks, dets, overlap_costs);
    let a = effective_assignment(assignment, tracks.len(), dets.len());
    let flags = unclaimed_flags(a, costs, tracks.len() as int, dets.len() as int, max_cost);
    let sp = spawn_prefix(dets, flags, next_id, dets.len());
    let nt = tracks.len() as int;
    if !is_claimed(a, costs, nt, dets.len() as int, max_cost, d) && max_age > 0 {
        lemma_spawn_prefix(dets, flags, next_id, dets.len());
        lemma_spawn_prefix_covers(dets, flags, next_id, dets.len(), d);
        let k = choose|k: int| 0 <= k < sp.len() && #[trigger] sp[k] == spawn(next_id + k, dets[d]);
        assert(all[nt + k] == sp[k]);
        lemma_retain_keeps(all, max_age, nt + k);
        let r = retain_live(all, max_age);
        let m = choose|m: int| 0 <= m < r.len() && r[m] == all[nt + k];
        assert(r[m].det_score_bits == dets[d].score_bits);
    }
}

/// Class gating: unless the cost of zero overlap counts as a match, a track is
/// only ever matched to a detection of its own class.
pub proof fn lemma_matches_respect_class(
    tracks: Seq<Track>,
    dets: Seq<Detection>,
    overlap_costs: Seq<i32>,
    assignment: Seq<Option<usize>>,
    max_cost: int,
    t: int,
)
    requires
        max_cost < CLASS_MISMATCH_COST,
        0 <= t < tracks.len(),
        forall|i: int| 0 <= i < assignment.len() && (#[trigger] assignment[i]) is Some ==> assignment[i]->0
            < dets.len(),
    ensures
        ({
            let costs = match_costs_spec(tracks, dets, overlap_costs);
            let a = effective_assignment(assignment, tracks.len(), dets.len());
            accepted_match(a, costs, dets.len() as int, max_cost, t) matches Some(d)
                ==> tracks[t].class_id == dets[d as int].class_id
        }),
{
    let costs = match_costs_spec(tracks, dets, overlap_costs);
    let a = effective_assignment(assignment, tracks.len(), dets.len());
    let nd = dets.len() as int;
    if let Some(d) = accepted_match(a, costs, nd, max_cost, t) {
        assert(a.len() > 0);
        lemma_row_col(t * nd + d, nd, t, d as int);
        assert(t * nd + d < tracks.len() * nd) by (nonlinear_arith)
            requires
                0 <= t < tracks.len(),
                0 <= d < nd,
        ;
    }
}

/// When the assignment is a matching, no detection is consumed by two tracks.
pub proof fn lemma_matches_are_exclusive(
    assignment: Seq<Option<usize>>,
    costs: Seq<i32>,
    num_dets: int,
    max_cost: int,
    t1: int,
    t2: int,
)
    requires
        is_partial_matching(assignment, num_dets as nat),
        t1 != t2,
    ensures
        accepted_match(assignment, costs, num_dets, max_cost, t1) is Some ==> accepted_match(
            assignment,
            costs,
            num_dets,
            max_cost,
            t1,
        ) != accepted_match(assignment, costs, num_dets, max_cost, t2),
{
    if accepted_match(assignment, costs, num_dets, max_cost, t1) is Some
        && accepted_match(assignment, costs, num_dets, max_cost, t2) is Some {
        assert(assignment[t1] is Some && assignment[t2] is Some);
    }
}

/// The tracks an update reports are tracks of the tracker matched in this
/// frame or the previous one.
pub proof fn lemma_reported_tracks(tracks: Seq<Track>)
    ensures
        forall|j: int|
            0 <= j < recently_seen(tracks).len() ==> (#[trigger] recently_seen(tracks)[j]).time_since_update
                < 2 && tracks.contains(recently_seen(tracks)[j]),
{
    lemma_recently_seen(tracks);
}

/// A track updated in this frame (`time_since_update == 0`) carries the box,
/// class and score of a detection of this frame; every other track of before
/// is exactly one frame older than it was.
pub proof fn lemma_fresh_tracks_hold_detections(
    tracks: Seq<Track>,
    next_id: int,
    max_age: int,
    max_cost: int,
    predicted: Seq<Rect>,
    dets: Seq<Detection>,
    overlap_costs: Seq<i32>,
    assignment: Seq<Option<usize>>,
)
    requires
        tracks_wf(tracks, next_id, max_age),
        max_age <= i32::MAX,
        predicted.len() == tracks.len(),
        next_id + dets.len() <= usize::MAX,
        tracks.len() > 0 && dets.len() > 0 ==> forall|t: int|
            0 <= t < assignment.len() && (#[trigger] assignment[t]) is Some ==> assignment[t]->0
                < dets.len(),
    ensures
        ({
            let r = retain_live(
                updated_tracks(tracks, next_id, max_cost, predicted, dets, overlap_costs, assignment),
                max_age,
            );
            forall|k: int|
                0 <= k < r.len() && (#[trigger] r[k]).time_since_update == 0 ==> exists|d: int|
                    0 <= d < dets.len() && r[k].last_rect == #[trigger] dets[d].rect
                        && r[k].class_id == dets[d].class_id && r[k].det_score_bits
                        == dets[d].score_bits
        }),
{
    let all = updated_tracks(tracks, next_id, max_cost, predicted, dets, overlap_costs, assignment);
    let sp = spawned_tracks(tracks, next_id, max_cost, dets, overlap_costs, assignment);
    let costs = match_costs_spec(tracks, dets, overlap_costs);
    let a = effective_assignment(assignment, tracks.len(), dets.len());
    let flags = unclaimed_flags(a, costs, tracks.len() as int, dets.len() as int, max_cost);
    lemma_spawn_prefix_rank(dets, flags, next_id, dets.len());
    lemma_retain_live(all, max_age);
    let r = retain_live(all, max_age);
    let nt = tracks.len() as int;
    let nd = dets.len() as int;
    assert forall|k: int| 0 <= k < r.len() && (#[trigger] r[k]).time_since_update == 0 implies exists|
        d: int,
    |
        0 <= d < dets.len() && r[k].last_rect == #[trigger] dets[d].rect && r[k].class_id
            == dets[d].class_id && r[k].det_score_bits == dets[d].score_bits by {
        assert(all.contains(r[k]));
        let j = choose|j: int| 0 <= j < all.len() && all[j] == r[k];
        if j < nt {
            assert(0 <= tracks[j].time_since_update < max_age);
            match accepted_match(a, costs, nd, max_cost, j) {
                Some(d) => {
                    assert(a.len() > 0);
                    assert(a[j] is Some);
                    assert(all[j] == absorb(predict_tracks(tracks, predicted)[j], dets[d as int]));
                    assert(dets[d as int].rect == r[k].last_rect);
                },
                None => {
                    assert(all[j] == predict_tracks(tracks, predicted)[j]);
                },
            }
        } else {
            assert(all[j] == sp[j - nt]);
            assert(is_unclaimed_rank(flags, dets.len(), j - nt));
            let d = choose|d: int|
                0 <= d < nd && flags[d] && #[trigger] unclaimed_before(flags, d as nat) == j - nt;
            assert(sp[unclaimed_before(flags, d as nat) as int] == spawn(
                next_id + unclaimed_before(flags, d as nat),
                dets[d],
            ));
            assert(dets[d].rect == r[k].last_rect);
        }
    }
}

/// The id law of an update, in one place. Let `u` be the number of
/// detections left unmatched. The new tracks are `u` tracks, one per
/// unmatched detection in increasing detection order, with ids
/// `next_id, next_id + 1, ..., next_id + u - 1`; the next id grows by `u`; the
/// tracks of before keep their ids; the new tracks come after the surviving
/// old ones (when tracks may live at all, `max_age >= 1`); and ids stay
/// distinct, increasing along the list, and below the new next id.
pub proof fn lemma_update_id_law(
    tracks: Seq<Track>,
    next_id: int,
    max_age: int,
    max_cost: int,
    predicted: Seq<Rect>,
    dets: Seq<Detection>,
    overlap_costs: Seq<i32>,
    assignment: Seq<Option<usize>>,
)
    requires
        tracks_wf(tracks, next_id, max_age),
        max_age <= i32::MAX,
        predicted.len() == tracks.len(),
        next_id + dets.len() <= usize::MAX,
    ensures
        ({
            let costs = match_costs_spec(tracks, dets, overlap_costs);
            let a = effective_assignment(assignment, tracks.len(), dets.len());
            let flags = unclaimed_flags(a, costs, tracks.len() as int, dets.len() as int, max_cost);
            let corrected = correct_tracks(
                predict_tracks(tracks, predicted),
                dets,
                a,
                costs,
                max_cost,
            );
            let sp = spawned_tracks(tracks, next_id, max_cost, dets, overlap_costs, assignment);
            let r = retain_live(
                updated_tracks(tracks, next_id, max_cost, predicted, dets, overlap_costs, assignment),
                max_age,
            );
            &&& sp.len() == unclaimed_before(flags, dets.len())
            &&& forall|k: int| 0 <= k < sp.len() ==> (#[trigger] sp[k]).id == next_id + k
            &&& forall|d: int|
                0 <= d < dets.len() && flags[d] ==> sp[unclaimed_before(flags, d as nat) as int]
                    == spawn(next_id + unclaimed_before(flags, d as nat), dets[d])
            &&& forall|d1: int, d2: int|
                0 <= d1 < d2 < dets.len() && flags[d1] && flags[d2] ==> #[trigger] unclaimed_before(
                    flags,
                    d1 as nat,
                ) < #[trigger] unclaimed_before(flags, d2 as nat)
            &&& forall|j: int| 0 <= j < tracks.len() ==> (#[trigger] corrected[j]).id == tracks[j].id
            &&& max_age >= 1 ==> r == retain_live(corrected, max_age) + sp
            &&& tracks_wf(r, next_id + sp.len(), max_age)
        }),
{
    let costs = match_costs_spec(tracks, dets, overlap_costs);
    let a = effective_assignment(assignment, tracks.len(), dets.len());
    let flags = unclaimed_flags(a, costs, tracks.len() as int, dets.len() as int, max_cost);
    let corrected = correct_tracks(predict_tracks(tracks, predicted), dets, a, costs, max_cost);
    let sp = spawned_tracks(tracks, next_id, max_cost, dets, overlap_costs, assignment);
    lemma_spawn_prefix_rank(dets, flags, next_id, dets.len());
    lemma_spawn_prefix(dets, flags, next_id, dets.len());
    assert forall|d1: int, d2: int|
        0 <= d1 < d2 < dets.len() && flags[d1] && flags[d2] implies #[trigger] unclaimed_before(
        flags,
        d1 as nat,
    ) < #[trigger] unclaimed_before(flags, d2 as nat) by {
        lemma_unclaimed_before_mono(flags, d1 as nat, d2 as nat);
    }
    if max_age >= 1 {
        lemma_retain_append(corrected, sp, max_age);
    }
    lemma_update_wf(tracks, next_id, max_age, max_cost, predicted, dets, overlap_costs, assignment);
}

/// Whether `ts` has a track with id `id`, updated in this frame, that carries
/// the box, class and score of `det`.
pub open spec fn holds_detection(ts: Seq<Track>, id: int, det: Detection) -> bool {
    exists|k: int|
        0 <= k < ts.len() && #[trigger] ts[k].id == id && ts[k].time_since_update == 0
            && ts[k].last_rect == det.rect && ts[k].class_id == det.class_id && ts[k].det_score_bits
            == det.score_bits
}

/// The track a claimed detection is matched to.
pub open spec fn claiming_track(
    a: Seq<Option<usize>>,
    costs: Seq<i32>,
    num_tracks: int,
    num_dets: int,
    max_cost: int,
    d: int,
) -> int {
    choose|t: int|
        0 <= t < num_tracks && #[trigger] accepted_match(a, costs, num_dets, max_cost, t) == Some(
            d as usize,
        )
}

/// Id of the track that detection `d` ends up in after an update: the track
/// it is matched to, or the new track it starts.
pub open spec fn detection_track_id(
    tracks: Seq<Track>,
    next_id: int,
    max_cost: int,
    dets: Seq<Detection>,
    overlap_costs: Seq<i32>,
    assignment: Seq<Option<usize>>,
    d: int,
) -> int {
    let costs = match_costs_spec(tracks, dets, overlap_costs);
    let a = effective_assignment(assignment, tracks.len(), dets.len());
    let flags = unclaimed_flags(a, costs, tracks.len() as int, dets.len() as int, max_cost);
    if flags[d] {
        next_id + unclaimed_before(flags, d as nat)
    } else {
        tracks[claiming_track(a, costs, tracks.len() as int, dets.len() as int, max_cost, d)].id as int
    }
}

/// Detections and freshly updated tracks correspond one to one. When tracks
/// may live at all (`max_age >= 1`) and the assignment pairs no detection with
/// two tracks (as `update`'s minimum-cost assignment does), each detection `d`
/// ends up in exactly one track of the result, the one with id
/// `detection_track_id(.., d)`: that track was updated in this frame and
/// carries `d`'s box, class and score; distinct detections end up in distinct
/// tracks; and every track updated in this frame holds some detection.
pub proof fn lemma_detections_match_fresh_tracks(
    tracks: Seq<Track>,
    next_id: int,
    max_age: int,
    max_cost: int,
    predicted: Seq<Rect>,
    dets: Seq<Detection>,
    overlap_costs: Seq<i32>,
    assignment: Seq<Option<usize>>,
)
    requires
        tracks_wf(tracks, next_id, max_age),
        1 <= max_age <= i32::MAX,
        predicted.len() == tracks.len(),
        next_id + dets.len() <= usize::MAX,
        is_partial_matching(
            effective_assignment(assignment, tracks.len(), dets.len()),
            dets.len(),
        ),
    ensures
        ({
            let r = retain_live(
                updated_tracks(tracks, next_id, max_cost, predicted, dets, overlap_costs, assignment),
                max_age,
            );
            &&& forall|d: int|
                0 <= d < dets.len() ==> #[trigger] holds_detection(
                    r,
                    detection_track_id(tracks, next_id, max_cost, dets, overlap_costs, assignment, d),
                    dets[d],
                )
            &&& forall|d1: int, d2: int|
                0 <= d1 < dets.len() && 0 <= d2 < dets.len() && d1 != d2 ==> #[trigger] detection_track_id(tracks, next_id, max_cost, dets, overlap_costs, assignment, d1)
                    != #[trigger] detection_track_id(tracks, next_id, max_cost, dets, overlap_costs, assignment, d2)
            &&& forall|k: int|
                0 <= k < r.len() && (#[trigger] r[k]).time_since_update == 0 ==> exists|d: int|
                    0 <= d < dets.len() && #[trigger] detection_track_id(tracks, next_id, max_cost, dets, overlap_costs, assignment, d) == r[k].id
            &&& forall|i: int, j: int|
                0 <= i < j < r.len() ==> (#[trigger] r[i]).id < (#[trigger] r[j]).id
        }),
{
    let nt = tracks.len() as int;
    let nd = dets.len() as int;
    let costs = match_costs_spec(tracks, dets, overlap_costs);
    let a = effective_assignment(assignment, tracks.len(), dets.len());
    let flags = unclaimed_flags(a, costs, nt, nd, max_cost);
    let pred = predict_tracks(tracks, predicted);
    let corrected = correct_tracks(pred, dets, a, costs, max_cost);
    let sp = spawned_tracks(tracks, next_id, max_cost, dets, overlap_costs, assignment);
    let all = updated_tracks(tracks, next_id, max_cost, predicted, dets, overlap_costs, assignment);
    let r = retain_live(all, max_age);
    lemma_spawn_prefix_rank(dets, flags, next_id, dets.len());
    lemma_spawn_prefix(dets, flags, next_id, dets.len());
    lemma_retain_live(all, max_age);
    lemma_update_wf(tracks, next_id, max_age, max_cost, predicted, dets, overlap_costs, assignment);
    assert(all == corrected + sp);

    // Every detection ends up in a fresh track of the result.
    assert forall|d: int| 0 <= d < nd implies #[trigger] holds_detection(
        r,
        detection_track_id(tracks, next_id, max_cost, dets, overlap_costs, assignment, d),
        dets[d],
    ) by {
        let u = unclaimed_before(flags, d as nat) as int;
        let t = claiming_track(a, costs, nt, nd, max_cost, d);
        let j = if flags[d] {
            nt + u
        } else {
            t
        };
        if flags[d] {
            assert(sp[u] == spawn(next_id + u, dets[d]));
            assert(all[j] == sp[u]);
        } else {
            assert(is_claimed(a, costs, nt, nd, max_cost, d));
            assert(0 <= t < nt && accepted_match(a, costs, nd, max_cost, t) == Some(d as usize));
            assert(all[j] == corrected[t]);
            assert(corrected[t] == absorb(pred[t], dets[d]));
        }
        lemma_retain_keeps(all, max_age, j);
        let k = choose|k: int| 0 <= k < r.len() && r[k] == all[j];
        assert(r[k].id == detection_track_id(tracks, next_id, max_cost, dets, overlap_costs, assignment, d));
        assert(r[k].time_since_update == 0 && r[k].last_rect == dets[d].rect && r[k].class_id
            == dets[d].class_id && r[k].det_score_bits == dets[d].score_bits);
    }

    // Distinct detections end up in distinct tracks.
    assert forall|d1: int, d2: int| 0 <= d1 < nd && 0 <= d2 < nd && d1 != d2 implies #[trigger] detection_track_id(tracks, next_id, max_cost, dets, overlap_costs, assignment, d1) != #[trigger] detection_track_id(tracks, next_id, max_cost, dets, overlap_costs, assignment, d2) by {
        if flags[d1] && flags[d2] {
            if d1 < d2 {
                lemma_unclaimed_before_mono(flags, d1 as nat, d2 as nat);
            } else {
                lemma_unclaimed_before_mono(flags, d2 as nat, d1 as nat);
            }
        } else if !flags[d1] && !flags[d2] {
            assert(is_claimed(a, costs, nt, nd, max_cost, d1));
            assert(is_claimed(a, costs, nt, nd, max_cost, d2));
            let t1 = claiming_track(a, costs, nt, nd, max_cost, d1);
            let t2 = claiming_track(a, costs, nt, nd, max_cost, d2);
            assert(accepted_match(a, costs, nd, max_cost, t1) == Some(d1 as usize));
            assert(accepted_match(a, costs, nd, max_cost, t2) == Some(d2 as usize));
            assert(t1 != t2);
            assert(tracks[t1].id != tracks[t2].id) by {
                if t1 < t2 {
                    assert(tracks[t1].id < tracks[t2].id);
                } else {
                    assert(tracks[t2].id < tracks[t1].id);
                }
            }
        } else if flags[d1] {
            assert(is_claimed(a, costs, nt, nd, max_cost, d2));
            let t2 = claiming_track(a, costs, nt, nd, max_cost, d2);
            assert(0 <= t2 < nt && accepted_match(a, costs, nd, max_cost, t2) == Some(d2 as usize));
            assert(tracks[t2].id < next_id);
        } else {
            assert(is_claimed(a, costs, nt, nd, max_cost, d1));
            let t1 = claiming_track(a, costs, nt, nd, max_cost, d1);
            assert(0 <= t1 < nt && accepted_match(a, costs, nd, max_cost, t1) == Some(d1 as usize));
            assert(tracks[t1].id < next_id);
        }
    }

    // Every fresh track holds a detection.
    assert forall|k: int| 0 <= k < r.len() && (#[trigger] r[k]).time_since_update == 0 implies exists|
        d: int,
    | 0 <= d < nd && #[trigger] detection_track_id(tracks, next_id, max_cost, dets, overlap_costs, assignment, d) == r[k].id by {
        assert(all.contains(r[k]));
        let j = choose|j: int| 0 <= j < all.len() && all[j] == r[k];
        if j < nt {
            assert(0 <= tracks[j].time_since_update < max_age);
            assert(all[j] == corrected[j]);
            match accepted_match(a, costs, nd, max_cost, j) {
                Some(dd) => {
                    let d = dd as int;
                    assert(a.len() > 0 && a[j] is Some);
                    assert(d < nd);
                    assert(is_claimed(a, costs, nt, nd, max_cost, d));
                    assert(!flags[d]);
                    let t = claiming_track(a, costs, nt, nd, max_cost, d);
                    assert(0 <= t < nt && accepted_match(a, costs, nd, max_cost, t) == Some(d as usize));
                    if t != j {
                        lemma_matches_are_exclusive(a, costs, nd, max_cost, t, j);
                    }
                    assert(detection_track_id(tracks, next_id, max_cost, dets, overlap_costs, assignment, d) == tracks[j].id);
                    assert(corrected[j].id == tracks[j].id);
                },
                None => {
                    assert(corrected[j] == pred[j]);
                },
            }
        } else {
            assert(all[j] == sp[j - nt]);
            assert(is_unclaimed_rank(flags, dets.len(), j - nt));
            let d = choose|d: int|
                0 <= d < nd && flags[d] && #[trigger] unclaimed_before(flags, d as nat) == j - nt;
            assert(sp[unclaimed_before(flags, d as nat) as int] == spawn(
                next_id + unclaimed_before(flags, d as nat),
                dets[d],
            ));
            assert(detection_track_id(tracks, next_id, max_cost, dets, overlap_costs, assignment, d) == r[k].id);
        }
    }
}

/// What an update reports is exactly the sublist of the tracker's tracks
/// (same tracks, same order) matched fewer than two frames ago, and the tracks
/// it keeps are exactly those matched fewer than `max_age` frames ago.
pub proof fn lemma_reported_is_sublist(ts: Seq<Track>, max_age: int)
    ensures
        recently_seen(ts) == ts.filter(|t: Track| t.time_since_update < 2),
        retain_live(ts, max_age) == ts.filter(|t: Track| t.time_since_update < max_age),
    decreases ts.len(),
{
    if ts.len() == 0 {
        assert(ts.filter(|t: Track| t.time_since_update < 2) =~= ts);
        assert(ts.filter(|t: Track| t.time_since_update < max_age) =~= ts);
    } else {
        let p = ts.drop_last();
        lemma_reported_is_sublist(p, max_age);
        assert(p.push(ts.last()) =~= ts);
        p.lemma_filter_push(ts.last(), |t: Track| t.time_since_update < 2);
        p.lemma_filter_push(ts.last(), |t: Track| t.time_since_update < max_age);
    }
}

/// What happens to each track of before in an update. A track that absorbs
/// no detection takes its own motion prediction `predicted[t]` (same index)
/// and is one frame older, everything else unchanged; a track matched to
/// detection `d` takes `d`'s box, class and score, is zero frames old and
/// counts one more hit. A track stays exactly when it was matched or is still
/// younger than `max_age` after ageing, and keeps its id.
pub proof fn lemma_update_track_fate(
    tracks: Seq<Track>,
    next_id: int,
    max_age: int,
    max_cost: int,
    predicted: Seq<Rect>,
    dets: Seq<Detection>,
    overlap_costs: Seq<i32>,
    assignment: Seq<Option<usize>>,
)
    requires
        tracks_wf(tracks, next_id, max_age),
        max_age <= i32::MAX,
        predicted.len() == tracks.len(),
        counters_have_room(tracks, next_id, dets.len() as int),
        tracks.len() > 0 && dets.len() > 0 ==> forall|t: int|
            0 <= t < assignment.len() && (#[trigger] assignment[t]) is Some ==> assignment[t]->0
                < dets.len(),
    ensures
        ({
            let costs = match_costs_spec(tracks, dets, overlap_costs);
            let a = effective_assignment(assignment, tracks.len(), dets.len());
            let r = retain_live(
                updated_tracks(tracks, next_id, max_cost, predicted, dets, overlap_costs, assignment),
                max_age,
            );
            &&& forall|k: int, t: int|
                0 <= k < r.len() && 0 <= t < tracks.len() && (#[trigger] r[k]).id == (
                #[trigger] tracks[t]).id ==> match accepted_match(
                    a,
                    costs,
                    dets.len() as int,
                    max_cost,
                    t,
                ) {
                    None => {
                        &&& r[k].last_rect == predicted[t]
                        &&& r[k].time_since_update == tracks[t].time_since_update + 1
                        &&& r[k].class_id == tracks[t].class_id
                        &&& r[k].det_score_bits == tracks[t].det_score_bits
                        &&& r[k].hits == tracks[t].hits
                        &&& r[k].age == tracks[t].age
                    },
                    Some(d) => {
                        &&& d < dets.len()
                        &&& r[k].last_rect == dets[d as int].rect
                        &&& r[k].class_id == dets[d as int].class_id
                        &&& r[k].det_score_bits == dets[d as int].score_bits
                        &&& r[k].time_since_update == 0
                        &&& r[k].hits == tracks[t].hits + 1
                        &&& r[k].age == tracks[t].age + 1
                    },
                }
            &&& forall|t: int|
                0 <= t < tracks.len() ==> ((exists|k: int|
                    0 <= k < r.len() && #[trigger] r[k].id == tracks[t].id) <==> (accepted_match(
                    a,
                    costs,
                    dets.len() as int,
                    max_cost,
                    t,
                ) is Some || #[trigger] tracks[t].time_since_update + 1 < max_age))
        }),
{
    let nt = tracks.len() as int;
    let nd = dets.len() as int;
    let costs = match_costs_spec(tracks, dets, overlap_costs);
    let a = effective_assignment(assignment, tracks.len(), dets.len());
    let flags = unclaimed_flags(a, costs, nt, nd, max_cost);
    let pred = predict_tracks(tracks, predicted);
    let corrected = correct_tracks(pred, dets, a, costs, max_cost);
    let sp = spawned_tracks(tracks, next_id, max_cost, dets, overlap_costs, assignment);
    let all = updated_tracks(tracks, next_id, max_cost, predicted, dets, overlap_costs, assignment);
    let r = retain_live(all, max_age);
    lemma_spawn_prefix(dets, flags, next_id, dets.len());
    lemma_retain_live(all, max_age);
    assert(all == corrected + sp);
    assert forall|k: int, t: int|
        0 <= k < r.len() && 0 <= t < nt && (#[trigger] r[k]).id == (#[trigger] tracks[t]).id implies match accepted_match(
        a,
        costs,
        nd,
        max_cost,
        t,
    ) {
        None => {
            &&& r[k].last_rect == predicted[t]
            &&& r[k].time_since_update == tracks[t].time_since_update + 1
            &&& r[k].class_id == tracks[t].class_id
            &&& r[k].det_score_bits == tracks[t].det_score_bits
            &&& r[k].hits == tracks[t].hits
            &&& r[k].age == tracks[t].age
        },
        Some(d) => {
            &&& d < nd
            &&& r[k].last_rect == dets[d as int].rect
            &&& r[k].class_id == dets[d as int].class_id
            &&& r[k].det_score_bits == dets[d as int].score_bits
            &&& r[k].time_since_update == 0
            &&& r[k].hits == tracks[t].hits + 1
            &&& r[k].age == tracks[t].age + 1
        },
    } by {
        assert(all.contains(r[k]));
        let j = choose|j: int| 0 <= j < all.len() && all[j] == r[k];
        if j >= nt {
            assert(all[j] == sp[j - nt]);
            assert(tracks[t].id < next_id);
        } else {
            assert(all[j].id == tracks[j].id);
            if j < t {
                assert(tracks[j].id < tracks[t].id);
            } else if t < j {
                assert(tracks[t].id < tracks[j].id);
            }
            assert(j == t);
            assert(0 <= tracks[t].time_since_update < max_age);
            assert(all[t] == corrected[t]);
            if let Some(d) = accepted_match(a, costs, nd, max_cost, t) {
                assert(a.len() > 0 && a[t] is Some);
            }
        }
    }
    assert forall|t: int| 0 <= t < nt implies ((exists|k: int|
        0 <= k < r.len() && #[trigger] r[k].id == tracks[t].id) <==> (accepted_match(
        a,
        costs,
        nd,
        max_cost,
        t,
    ) is Some || #[trigger] tracks[t].time_since_update + 1 < max_age)) by {
        assert(0 <= tracks[t].time_since_update < max_age);
        assert(all[t] == corrected[t]);
        assert(all[t].id == tracks[t].id);
        if accepted_match(a, costs, nd, max_cost, t) is Some || tracks[t].time_since_update + 1
            < max_age {
            assert(all[t].time_since_update < max_age);
            lemma_retain_keeps(all, max_age, t);
            let k = choose|k: int| 0 <= k < r.len() && r[k] == all[t];
            assert(r[k].id == tracks[t].id);
        }
        if exists|k: int| 0 <= k < r.len() && #[trigger] r[k].id == tracks[t].id {
            let k = choose|k: int| 0 <= k < r.len() && #[trigger] r[k].id == tracks[t].id;
            assert(all.contains(r[k]));
            let j = choose|j: int| 0 <= j < all.len() && all[j] == r[k];
            if j >= nt {
                assert(all[j] == sp[j - nt]);
                assert(tracks[t].id < next_id);
            } else {
                assert(all[j].id == tracks[j].id);
                if j < t {
                    assert(tracks[j].id < tracks[t].id);
                } else if t < j {
                    assert(tracks[t].id < tracks[j].id);
                }
                assert(r[k].time_since_update < max_age);
            }
        }
    }
}

} // verus!
