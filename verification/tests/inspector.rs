use labello::inspector::{
    busy, failure_route, keep_thumbnail, list_requests, merge_list_reply, next_list_page, obsolete_previews, schedule_previews, thumbnail_wanted,
    FailureRoute, GalleryPage, GalleryState, InspectorRequest, ListMerge, MAX_THUMBNAILS,
};
use labello::inspector::OverlayFilter;
use labello::review_context::AnnotationType;
use labello::stats::TaskStatus;

fn all_shown() -> OverlayFilter {
    OverlayFilter { hidden_tasks: Vec::new(), hidden_statuses: Vec::new(), boxes: true, skeletons: true }
}

fn annotations() -> Vec<(u64, AnnotationType)> {
    vec![
        (1, AnnotationType::BoundingBox),
        (2, AnnotationType::Skeleton),
        (3, AnnotationType::BoundingBox),
        (1, AnnotationType::Skeleton),
    ]
}

#[test]
fn everything_is_drawn_by_default() {
    let states = vec![(1, TaskStatus::Completed)];
    assert_eq!(all_shown().overlays(&annotations(), &states), vec![0, 1, 2, 3]);
}

#[test]
fn hidden_tasks_and_types_are_not_drawn() {
    let states = vec![(1, TaskStatus::Completed)];
    let mut filter = all_shown();
    filter.hidden_tasks = vec![2];
    filter.skeletons = false;
    assert_eq!(filter.overlays(&annotations(), &states), vec![0, 2]);
    filter.boxes = false;
    assert_eq!(filter.overlays(&annotations(), &states), Vec::<usize>::new());
}

#[test]
fn tasks_without_a_state_count_as_pending() {
    let states = vec![(1, TaskStatus::Completed), (2, TaskStatus::Submitted)];
    let mut filter = all_shown();
    filter.hidden_statuses = vec![TaskStatus::Pending];
    assert_eq!(filter.overlays(&annotations(), &states), vec![0, 1, 3]);
    filter.hidden_statuses = vec![TaskStatus::Completed, TaskStatus::Submitted];
    assert_eq!(filter.overlays(&annotations(), &states), vec![2]);
}

fn page(number: u64, total_pages: u64, ids: &[u64]) -> GalleryPage<String> {
    GalleryPage {
        page: number,
        total_pages,
        total_items: 10,
        items: ids.iter().map(|id| (*id, format!("img-{id}"))).collect(),
    }
}

fn ids(loaded: &Option<GalleryPage<String>>) -> Vec<u64> {
    loaded.as_ref().unwrap().items.iter().map(|(id, _)| *id).collect()
}

#[test]
fn first_page_replaces_and_next_page_appends_unseen_images() {
    let mut loaded = None;
    assert_eq!(merge_list_reply(&mut loaded, 1, page(1, 3, &[1, 2, 3])), ListMerge::Replaced);
    assert_eq!(ids(&loaded), vec![1, 2, 3]);
    assert_eq!(next_list_page(&loaded, false, false), Some(2));
    let mut next = page(2, 4, &[3, 4, 5]);
    next.total_items = 12;
    assert_eq!(merge_list_reply(&mut loaded, 2, next), ListMerge::Extended);
    assert_eq!(ids(&loaded), vec![1, 2, 3, 4, 5]);
    let g = loaded.as_ref().unwrap();
    assert_eq!((g.page, g.total_pages, g.total_items), (2, 4, 12));
    assert_eq!(merge_list_reply(&mut loaded, 1, page(1, 1, &[9])), ListMerge::Replaced);
    assert_eq!(ids(&loaded), vec![9]);
    assert_eq!(next_list_page(&loaded, false, false), None);
}

#[test]
fn replies_out_of_order_are_dropped() {
    let mut loaded = None;
    assert_eq!(merge_list_reply(&mut loaded, 2, page(2, 3, &[4])), ListMerge::Unloaded);
    assert!(loaded.is_none());
    merge_list_reply(&mut loaded, 1, page(1, 3, &[1]));
    assert_eq!(merge_list_reply(&mut loaded, 3, page(3, 3, &[7])), ListMerge::Stale);
    assert_eq!(ids(&loaded), vec![1]);
    assert_eq!(loaded.as_ref().unwrap().page, 1);
}

#[test]
fn no_page_is_loaded_after_a_failure_or_while_one_loads() {
    let mut loaded = None;
    assert_eq!(next_list_page(&loaded, false, false), None);
    merge_list_reply(&mut loaded, 1, page(1, 3, &[1]));
    assert_eq!(next_list_page(&loaded, true, false), None);
    assert_eq!(next_list_page(&loaded, false, true), None);
}

#[test]
fn thumbnails_are_kept_for_gallery_images_up_to_the_limit() {
    let mut loaded = None;
    assert!(!thumbnail_wanted(&loaded, 1, 0));
    merge_list_reply(&mut loaded, 1, page(1, 1, &[1, 2]));
    assert!(thumbnail_wanted(&loaded, 2, 0));
    assert!(!thumbnail_wanted(&loaded, 3, 0));
    assert!(thumbnail_wanted(&loaded, 1, MAX_THUMBNAILS - 1));
    assert!(!thumbnail_wanted(&loaded, 1, MAX_THUMBNAILS));
}

#[test]
fn failures_are_reported_where_they_belong() {
    assert_eq!(failure_route(InspectorRequest::Image(5), Some(5)), FailureRoute::Image);
    assert_eq!(failure_route(InspectorRequest::State(5), Some(6)), FailureRoute::Ignore);
    assert_eq!(failure_route(InspectorRequest::Image(5), None), FailureRoute::Ignore);
    assert_eq!(failure_route(InspectorRequest::Thumbnail(5), None), FailureRoute::Thumbnail(5));
    assert_eq!(failure_route(InspectorRequest::List(2), None), FailureRoute::Gallery(2));
    assert_eq!(failure_route(InspectorRequest::Return(5), Some(5)), FailureRoute::General);
}

#[test]
fn a_pending_return_makes_the_inspector_busy() {
    assert!(!busy(&vec![(1, InspectorRequest::List(1)), (2, InspectorRequest::Thumbnail(3))]));
    assert!(busy(&vec![(1, InspectorRequest::List(1)), (2, InspectorRequest::Return(3))]));
}

#[test]
fn previews_no_longer_wanted_are_cancelled() {
    let pending = vec![
        (1, InspectorRequest::Thumbnail(10)),
        (2, InspectorRequest::Thumbnail(11)),
        (3, InspectorRequest::Image(12)),
        (4, InspectorRequest::Image(11)),
        (5, InspectorRequest::List(2)),
        (6, InspectorRequest::Thumbnail(12)),
    ];
    assert_eq!(obsolete_previews(&pending, &vec![10], Some(11)), vec![3, 6]);
    assert_eq!(obsolete_previews(&pending, &vec![], None), vec![1, 2, 3, 4, 6]);
}

#[test]
fn selected_image_previews_are_requested_within_the_limit() {
    assert_eq!(schedule_previews(None, false, false, false, false, &Vec::new()), (false, false));
    assert_eq!(schedule_previews(Some(5), false, false, false, false, &Vec::new()), (true, true));
    assert_eq!(schedule_previews(Some(5), false, true, false, false, &Vec::new()), (false, true));
    assert_eq!(schedule_previews(Some(5), true, false, false, false, &Vec::new()), (false, false));
    let one_thumbnail = vec![(1, InspectorRequest::Thumbnail(7))];
    assert_eq!(schedule_previews(Some(5), false, false, false, false, &one_thumbnail), (true, false));
    let own = vec![(1, InspectorRequest::Thumbnail(5))];
    assert_eq!(schedule_previews(Some(5), false, false, false, false, &own), (false, true));
    let image = vec![(1, InspectorRequest::Image(9))];
    assert_eq!(schedule_previews(Some(5), false, false, false, false, &image), (true, false));
    assert_eq!(schedule_previews(Some(5), false, false, true, true, &Vec::new()), (false, false));
}

#[test]
fn thumbnails_are_kept_once_per_image_and_never_beyond_the_limit() {
    let mut loaded = None;
    merge_list_reply(&mut loaded, 1, page(1, 1, &[1, 2]));
    let mut thumbnails: Vec<(u64, &str)> = Vec::new();
    assert!(keep_thumbnail(&mut thumbnails, &loaded, 1, "a"));
    assert!(keep_thumbnail(&mut thumbnails, &loaded, 1, "b"));
    assert_eq!(thumbnails, vec![(1, "b")]);
    assert!(!keep_thumbnail(&mut thumbnails, &loaded, 3, "c"));
    let mut full: Vec<(u64, &str)> = (100..100 + MAX_THUMBNAILS as u64).map(|id| (id, "x")).collect();
    assert!(!keep_thumbnail(&mut full, &loaded, 2, "d"));
    assert_eq!(full.len(), MAX_THUMBNAILS);
}

#[test]
fn gallery_requests_are_found_for_cancelling() {
    let pending = vec![(1, InspectorRequest::List(1)), (2, InspectorRequest::Thumbnail(3)), (4, InspectorRequest::List(2))];
    assert_eq!(list_requests(&pending), vec![1, 4]);
}

#[test]
fn gallery_state_keeps_images_distinct_and_thumbnails_bounded() {
    let mut state: GalleryState<String, u32> = GalleryState::new();
    assert!(!state.accept_thumbnail(1, 10));
    let first: Vec<u64> = (1..=60).collect();
    assert_eq!(state.accept_page(1, page(1, 2, &first)), ListMerge::Replaced);
    assert_eq!(state.accept_page(2, page(2, 2, &[59, 60, 61])), ListMerge::Extended);
    let mut loaded_ids = ids(&state.loaded);
    assert_eq!(loaded_ids.len(), 61);
    loaded_ids.sort();
    loaded_ids.dedup();
    assert_eq!(loaded_ids.len(), 61);
    for id in 1..=61u64 {
        let kept = state.accept_thumbnail(id, id as u32);
        assert_eq!(kept, (id as usize) <= MAX_THUMBNAILS);
    }
    assert_eq!(state.thumbnails.len(), MAX_THUMBNAILS);
    assert!(!state.accept_thumbnail(1, 99));
    assert!(state.thumbnails.contains(&(1, 1)));
    assert!(!state.accept_thumbnail(500, 5));
}
