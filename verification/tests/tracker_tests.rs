use vedelo::geometry::Rect;
use vedelo::tracker::{Detection, SortTracker, Track, CLASS_MISMATCH_COST};

fn det(x: i32, y: i32, class_id: i32, score: f32) -> Detection {
    Detection { rect: Rect::new(x, y, 20, 20), score_bits: score.to_bits(), class_id }
}

fn rects(tracks: &Vec<Track>) -> Vec<Rect> {
    tracks.iter().map(|t| t.last_rect).collect()
}

#[test]
fn first_detections_start_tracks_with_fresh_ids() {
    let mut tr = SortTracker::new(60, 849);
    let active = tr.update(Vec::new(), vec![det(0, 0, 1, 0.9), det(50, 0, 2, 0.8)], Vec::new());
    assert_eq!(active.len(), 2);
    assert_eq!(active[0].id, 1);
    assert_eq!(active[1].id, 2);
    assert_eq!(active[0].age, 1);
    assert_eq!(active[0].hits, 1);
    assert_eq!(active[0].time_since_update, 0);
    assert_eq!(active[1].class_id, 2);
    assert_eq!(f32::from_bits(active[1].det_score_bits), 0.8);
    assert_eq!(tr.next_id(), 3);
}

#[test]
fn matched_tracks_keep_their_ids() {
    let mut tr = SortTracker::new(60, 849);
    tr.update(Vec::new(), vec![det(0, 0, 1, 0.9), det(50, 0, 1, 0.8)], Vec::new());
    let predicted = rects(tr.tracks());
    // Row-major track x detection overlap costs.
    let costs = vec![100, 1000, 1000, 50];
    let active = tr.update(predicted, vec![det(2, 0, 1, 0.7), det(52, 0, 1, 0.6)], costs);
    assert_eq!(active.len(), 2);
    assert_eq!(active[0].id, 1);
    assert_eq!(active[0].hits, 2);
    assert_eq!(active[0].age, 2);
    assert_eq!(active[0].last_rect, Rect::new(2, 0, 20, 20));
    assert_eq!(active[1].id, 2);
    assert_eq!(active[1].last_rect, Rect::new(52, 0, 20, 20));
    assert_eq!(tr.next_id(), 3);
}

#[test]
fn assignment_minimises_total_cost() {
    let mut tr = SortTracker::new(60, 849);
    tr.update(Vec::new(), vec![det(0, 0, 1, 0.9), det(50, 0, 1, 0.8)], Vec::new());
    let predicted = rects(tr.tracks());
    // Greedy would pair track 0 with detection 0 (10); the optimum is 20 + 5.
    let costs = vec![10, 20, 5, 100];
    tr.update(predicted, vec![det(100, 0, 1, 0.5), det(200, 0, 1, 0.4)], costs);
    let tracks = tr.tracks();
    assert_eq!(tracks.len(), 2);
    assert_eq!(tracks[0].last_rect.x, 200);
    assert_eq!(tracks[1].last_rect.x, 100);
}

#[test]
fn different_classes_never_match() {
    let mut tr = SortTracker::new(60, 849);
    tr.update(Vec::new(), vec![det(0, 0, 1, 0.9)], Vec::new());
    let predicted = rects(tr.tracks());
    let active = tr.update(predicted, vec![det(0, 0, 2, 0.9)], vec![0]);
    assert_eq!(tr.tracks().len(), 2);
    assert_eq!(tr.tracks()[0].id, 1);
    assert_eq!(tr.tracks()[0].time_since_update, 1);
    assert_eq!(tr.tracks()[0].class_id, 1);
    assert_eq!(tr.tracks()[1].id, 2);
    assert_eq!(tr.tracks()[1].class_id, 2);
    assert_eq!(active.len(), 2);
    assert!(CLASS_MISMATCH_COST > 849);
}

#[test]
fn costly_pairs_are_not_matched() {
    let mut tr = SortTracker::new(60, 849);
    tr.update(Vec::new(), vec![det(0, 0, 1, 0.9)], Vec::new());
    let predicted = rects(tr.tracks());
    tr.update(predicted, vec![det(300, 300, 1, 0.9)], vec![850]);
    assert_eq!(tr.tracks().len(), 2);
    assert_eq!(tr.tracks()[0].hits, 1);
    assert_eq!(tr.tracks()[1].id, 2);
}

#[test]
fn tracks_expire_after_max_age_frames() {
    let mut tr = SortTracker::new(2, 849);
    tr.update(Vec::new(), vec![det(0, 0, 1, 0.9)], Vec::new());
    let p = rects(tr.tracks());
    let active = tr.update(p, Vec::new(), Vec::new());
    assert_eq!(tr.tracks().len(), 1);
    assert_eq!(tr.tracks()[0].time_since_update, 1);
    assert_eq!(active.len(), 1);
    let p = rects(tr.tracks());
    let active = tr.update(p, Vec::new(), Vec::new());
    assert_eq!(tr.tracks().len(), 0);
    assert_eq!(active.len(), 0);
}

#[test]
fn only_recent_tracks_are_reported() {
    let mut tr = SortTracker::new(10, 849);
    tr.update(Vec::new(), vec![det(0, 0, 1, 0.9)], Vec::new());
    for frame in 1..4 {
        let p = rects(tr.tracks());
        let active = tr.update(p, Vec::new(), Vec::new());
        assert_eq!(tr.tracks()[0].time_since_update, frame);
        assert_eq!(active.len(), if frame < 2 { 1 } else { 0 });
    }
}

#[test]
fn predictions_replace_boxes_of_unmatched_tracks() {
    let mut tr = SortTracker::new(10, 849);
    tr.update(Vec::new(), vec![det(0, 0, 1, 0.9)], Vec::new());
    tr.update(vec![Rect::new(5, 6, 20, 21)], Vec::new(), Vec::new());
    assert_eq!(tr.tracks()[0].last_rect, Rect::new(5, 6, 20, 21));
}

#[test]
fn zero_max_age_keeps_nothing() {
    let mut tr = SortTracker::new(0, 849);
    let active = tr.update(Vec::new(), vec![det(0, 0, 1, 0.9)], Vec::new());
    assert!(active.is_empty());
    assert!(tr.tracks().is_empty());
    assert_eq!(tr.next_id(), 2);
    assert_eq!(tr.max_age(), 0);
    assert_eq!(tr.max_match_cost(), 849);
}

#[test]
fn given_assignment_is_used_as_is() {
    let mut tr = SortTracker::new(10, 849);
    tr.update(Vec::new(), vec![det(0, 0, 1, 0.9), det(50, 0, 1, 0.9)], Vec::new());
    let p = rects(tr.tracks());
    // Both tracks assigned to detection 1; detection 0 is left over.
    let active = tr.update_with_assignment(
        p,
        vec![det(7, 7, 1, 0.3), det(60, 0, 1, 0.4)],
        vec![0, 0, 0, 0],
        vec![Some(1), Some(1)],
    );
    assert_eq!(active.len(), 3);
    assert_eq!(tr.tracks()[0].last_rect.x, 60);
    assert_eq!(tr.tracks()[1].last_rect.x, 60);
    assert_eq!(tr.tracks()[2].id, 3);
    assert_eq!(tr.tracks()[2].last_rect.x, 7);
}

#[test]
fn gated_costs_follow_classes() {
    let mut tr = SortTracker::new(10, 849);
    tr.update(Vec::new(), vec![det(0, 0, 1, 0.9), det(50, 0, 2, 0.9)], Vec::new());
    let costs = tr.match_costs(&vec![det(0, 0, 2, 0.5)], &vec![10, 20]);
    assert_eq!(costs, vec![CLASS_MISMATCH_COST, 20]);
}

#[test]
fn new_ids_follow_detection_order() {
    let mut tr = SortTracker::new(10, 849);
    tr.update(Vec::new(), vec![det(0, 0, 1, 0.9), det(50, 0, 1, 0.9)], Vec::new());
    let p = rects(tr.tracks());
    // Detection 1 matches track 2; detections 0 and 2 start tracks 3 and 4.
    let costs = vec![1000, 1000, 1000, 1000, 10, 1000];
    let active = tr.update(
        p,
        vec![det(300, 0, 1, 0.1), det(51, 0, 1, 0.2), det(600, 0, 1, 0.3)],
        costs,
    );
    let ids: Vec<usize> = tr.tracks().iter().map(|t| t.id).collect();
    assert_eq!(ids, vec![1, 2, 3, 4]);
    assert_eq!(tr.next_id(), 5);
    assert_eq!(tr.tracks()[1].last_rect.x, 51);
    assert_eq!(tr.tracks()[2].last_rect.x, 300);
    assert_eq!(tr.tracks()[3].last_rect.x, 600);
    // Each detection sits in exactly one track updated this frame.
    let fresh: Vec<i32> = active
        .iter()
        .filter(|t| t.time_since_update == 0)
        .map(|t| t.last_rect.x)
        .collect();
    assert_eq!(fresh, vec![51, 300, 600]);
}
