//! The dataset inspector: which annotations it draws over an image, how the
//! pages of its image gallery are merged, and where a failed request is shown.
use vstd::prelude::*;

use crate::assignment::{ImageId, TaskId};
use crate::keyed::{find_key, has_key, keys_unique, lemma_lookup_at, lemma_lookup_push, lemma_lookup_update, lookup};
use crate::review_context::AnnotationType;
use crate::stats::TaskStatus;

verus! {

/// What the inspector hides: tasks, task states, and each annotation type
/// unless shown.
pub struct OverlayFilter {
    pub hidden_tasks: Vec<TaskId>,
    pub hidden_statuses: Vec<TaskStatus>,
    pub boxes: bool,
    pub skeletons: bool,
}

/// The state of task `t` on the image: as recorded, else pending.
pub open spec fn status_of(states: Seq<(TaskId, TaskStatus)>, t: TaskId) -> TaskStatus {
    match lookup(states, t) {
        Some(s) => s,
        None => TaskStatus::Pending,
    }
}

/// Annotation `a` (its task and type) is drawn.
pub open spec fn overlay_shown(
    hidden_tasks: Seq<TaskId>,
    hidden_statuses: Seq<TaskStatus>,
    boxes: bool,
    skeletons: bool,
    states: Seq<(TaskId, TaskStatus)>,
    a: (TaskId, AnnotationType),
) -> bool {
    &&& !hidden_tasks.contains(a.0)
    &&& !hidden_statuses.contains(status_of(states, a.0))
    &&& match a.1 {
        AnnotationType::BoundingBox => boxes,
        AnnotationType::Skeleton => skeletons,
    }
}

fn contains_task(v: &Vec<TaskId>, t: TaskId) -> (r: bool)
    ensures
        r == v@.contains(t),
{
    let mut i: usize = 0;
    while i < v.len()
        invariant
            i <= v@.len(),
            forall|j: int| 0 <= j < i ==> v@[j] != t,
        decreases v@.len() - i,
    {
        if v[i] == t {
            return true;
        }
        i += 1;
    }
    false
}

fn contains_status(v: &Vec<TaskStatus>, s: TaskStatus) -> (r: bool)
    ensures
        r == v@.contains(s),
{
    let mut i: usize = 0;
    while i < v.len()
        invariant
            i <= v@.len(),
            forall|j: int| 0 <= j < i ==> v@[j] != s,
        decreases v@.len() - i,
    {
        if v[i] == s {
            return true;
        }
        i += 1;
    }
    false
}

/// The recorded state of task `t`, else pending.
fn state_of(states: &Vec<(TaskId, TaskStatus)>, t: TaskId) -> (r: TaskStatus)
    requires
        keys_unique(states@),
    ensures
        r == status_of(states@, t),
{
    let mut i: usize = 0;
    while i < states.len()
        invariant
            i <= states@.len(),
            keys_unique(states@),
            forall|j: int| 0 <= j < i ==> #[trigger] states@[j].0 != t,
        decreases states@.len() - i,
    {
        if states[i].0 == t {
            proof {
                lemma_lookup_at(states@, i as int);
            }
            return states[i].1;
        }
        i += 1;
    }
    TaskStatus::Pending
}

/// How many thumbnails the gallery keeps.
pub const MAX_THUMBNAILS: usize = 48;

/// A page of the image gallery: its number, the totals the server reported,
/// and the images, each with its id.
pub struct GalleryPage<T> {
    pub page: u64,
    pub total_pages: u64,
    pub total_items: u64,
    pub items: Vec<(ImageId, T)>,
}

/// What a page reply did to the loaded gallery.
#[derive(Clone, Copy, Debug, PartialEq, Eq, Structural)]
pub enum ListMerge {
    /// A first page replaced the gallery.
    Replaced,
    /// The next page was appended.
    Extended,
    /// The reply is not the next page of the loaded gallery and was dropped.
    Stale,
    /// A later page arrived while no gallery was loaded.
    Unloaded,
}

/// A request of the inspector.
#[derive(Clone, Copy, Debug, PartialEq, Eq, Structural)]
pub enum InspectorRequest {
    /// A page of the gallery.
    List(u64),
    Thumbnail(ImageId),
    Image(ImageId),
    State(ImageId),
    /// Returning the image's workflows to review.
    Return(ImageId),
}

/// Where a failed request is reported.
#[derive(Clone, Copy, Debug, PartialEq, Eq, Structural)]
pub enum FailureRoute {
    /// The request was about an image no longer selected.
    Ignore,
    /// The thumbnail of this image failed.
    Thumbnail(ImageId),
    /// Under the selected image.
    Image,
    /// Under the gallery, which keeps the page for a retry.
    Gallery(u64),
    /// In the inspector's general message.
    General,
}

/// The ids of `items`.
pub open spec fn item_ids<T>(items: Seq<(ImageId, T)>) -> Seq<ImageId> {
    items.map_values(|x: (ImageId, T)| x.0)
}

/// The items of `new` whose image is not among `known`, in order.
pub open spec fn fresh_items<T>(known: Seq<ImageId>, new: Seq<(ImageId, T)>) -> Seq<(ImageId, T)>
    decreases new.len(),
{
    if new.len() == 0 {
        new
    } else {
        let rest = fresh_items(known, new.drop_last());
        if known.contains(new.last().0) {
            rest
        } else {
            rest.push(new.last())
        }
    }
}

/// What a thumbnail `texture` of image `id` makes of the thumbnails `before`:
/// it is kept, replacing an earlier one of that image, exactly when the loaded
/// gallery shows the image and fewer than [`MAX_THUMBNAILS`] are kept;
/// otherwise nothing changes.
pub open spec fn thumbnail_outcome<T, U>(
    before: Seq<(ImageId, T)>,
    loaded: Option<GalleryPage<U>>,
    id: ImageId,
    texture: T,
    kept: bool,
    after: Seq<(ImageId, T)>,
) -> bool {
    &&& kept == ((loaded matches Some(g) && item_ids(g.items@).contains(id)) && before.len() < MAX_THUMBNAILS)
    &&& kept ==> forall|k: ImageId| #[trigger] lookup(after, k) == if k == id {
        Some(texture)
    } else {
        lookup(before, k)
    }
    &&& !kept ==> after == before
}

/// Keeps the thumbnail `texture` of image `id` (replacing an earlier one) when
/// [`thumbnail_wanted`] allows it, and reports whether it did. The thumbnails
/// stay at most [`MAX_THUMBNAILS`], one per image.
pub fn keep_thumbnail<T, U>(thumbnails: &mut Vec<(ImageId, T)>, loaded: &Option<GalleryPage<U>>, id: ImageId, texture: T) -> (kept: bool)
    requires
        keys_unique(old(thumbnails)@),
    ensures
        thumbnail_outcome(old(thumbnails)@, *loaded, id, texture, kept, final(thumbnails)@),
        keys_unique(final(thumbnails)@),
        old(thumbnails)@.len() <= MAX_THUMBNAILS ==> final(thumbnails)@.len() <= MAX_THUMBNAILS,
{
    if !thumbnail_wanted(loaded, id, thumbnails.len()) {
        return false;
    }
    let ghost before = thumbnails@;
    match find_key(thumbnails, id) {
        Some(i) => {
            let (k, _) = thumbnails.remove(i);
            thumbnails.insert(i, (k, texture));
            proof {
                assert(thumbnails@ =~= before.update(i as int, (before[i as int].0, texture)));
                lemma_lookup_update(before, i as int, texture);
            }
        },
        None => {
            thumbnails.push((id, texture));
            proof {
                lemma_lookup_push(before, id, texture);
            }
        },
    }
    true
}

/// The loaded gallery and the thumbnails kept for its images. It is sound
/// when the gallery shows each image once and at most [`MAX_THUMBNAILS`]
/// thumbnails are kept, one per image.
pub struct GalleryState<T, U> {
    pub loaded: Option<GalleryPage<T>>,
    pub thumbnails: Vec<(ImageId, U)>,
}

impl<T, U> GalleryState<T, U> {
    /// Each image shown once; one thumbnail per image, at most [`MAX_THUMBNAILS`].
    pub open spec fn wf(&self) -> bool {
        &&& gallery_distinct(self.loaded)
        &&& keys_unique(self.thumbnails@)
        &&& self.thumbnails@.len() <= MAX_THUMBNAILS
    }

    /// No gallery and no thumbnails.
    pub fn new() -> (r: Self)
        ensures
            r.wf(),
            r.loaded is None,
            r.thumbnails@.len() == 0,
    {
        GalleryState { loaded: None, thumbnails: Vec::new() }
    }

    /// Takes a page reply as [`merge_list_reply`] does; the thumbnails stay.
    /// A sound state stays sound when the reply's own images do not repeat.
    pub fn accept_page(&mut self, requested: u64, reply: GalleryPage<T>) -> (r: ListMerge)
        ensures
            merge_outcome(old(self).loaded, requested, reply, r, final(self).loaded),
            final(self).thumbnails@ == old(self).thumbnails@,
            old(self).wf() && item_ids(reply.items@).no_duplicates() ==> final(self).wf(),
    {
        merge_list_reply(&mut self.loaded, requested, reply)
    }

    /// Takes a thumbnail reply as [`keep_thumbnail`] does; the gallery stays.
    /// A sound state stays sound.
    pub fn accept_thumbnail(&mut self, id: ImageId, texture: U) -> (kept: bool)
        requires
            old(self).wf(),
        ensures
            thumbnail_outcome(old(self).thumbnails@, old(self).loaded, id, texture, kept, final(self).thumbnails@),
            final(self).loaded == old(self).loaded,
            final(self).wf(),
    {
        keep_thumbnail(&mut self.thumbnails, &self.loaded, id, texture)
    }
}

/// The gallery requests in flight, to cancel when the filter changes.
pub fn list_requests(pending: &Vec<(u64, InspectorRequest)>) -> (r: Vec<u64>)
    ensures
        r@ == list_ids(pending@),
{
    let mut r: Vec<u64> = Vec::new();
    let mut i: usize = 0;
    while i < pending.len()
        invariant
            i <= pending@.len(),
            r@ == list_ids(pending@.take(i as int)),
        decreases pending@.len() - i,
    {
        proof {
            assert(pending@.take(i as int + 1).drop_last() =~= pending@.take(i as int));
            assert(pending@.take(i as int + 1).last() == pending@[i as int]);
        }
        if let InspectorRequest::List(_) = pending[i].1 {
            r.push(pending[i].0);
        }
        i += 1;
    }
    proof {
        assert(pending@.take(pending@.len() as int) =~= pending@);
    }
    r
}

/// The ids of the gallery requests of `pending`, in order.
pub open spec fn list_ids(pending: Seq<(u64, InspectorRequest)>) -> Seq<u64>
    decreases pending.len(),
{
    if pending.len() == 0 {
        Seq::empty()
    } else {
        let rest = list_ids(pending.drop_last());
        if pending.last().1 is List {
            rest.push(pending.last().0)
        } else {
            rest
        }
    }
}

/// Where a failure of `request` is reported while `selected` is selected.
pub open spec fn route_of(request: InspectorRequest, selected: Option<ImageId>) -> FailureRoute {
    match request {
        InspectorRequest::Image(id) => if selected == Some(id) {
            FailureRoute::Image
        } else {
            FailureRoute::Ignore
        },
        InspectorRequest::State(id) => if selected == Some(id) {
            FailureRoute::Image
        } else {
            FailureRoute::Ignore
        },
        InspectorRequest::Thumbnail(id) => FailureRoute::Thumbnail(id),
        InspectorRequest::List(page) => FailureRoute::Gallery(page),
        InspectorRequest::Return(_) => FailureRoute::General,
    }
}

/// Whether `v` holds image `id`.
fn contains_image<T>(v: &Vec<(ImageId, T)>, id: ImageId) -> (r: bool)
    ensures
        r == item_ids(v@).contains(id),
{
    let mut i: usize = 0;
    while i < v.len()
        invariant
            i <= v@.len(),
            forall|j: int| 0 <= j < i ==> v@[j].0 != id,
        decreases v@.len() - i,
    {
        if v[i].0 == id {
            proof {
                assert(item_ids(v@)[i as int] == id);
            }
            return true;
        }
        i += 1;
    }
    proof {
        if item_ids(v@).contains(id) {
            let j = choose|j: int| 0 <= j < item_ids(v@).len() && item_ids(v@)[j] == id;
            assert(v@[j].0 == id);
        }
    }
    false
}

/// Appends the items of `new` whose image `items` did not hold before.
fn append_fresh<T>(items: &mut Vec<(ImageId, T)>, new: Vec<(ImageId, T)>)
    ensures
        final(items)@ == old(items)@ + fresh_items(item_ids(old(items)@), new@),
{
    let ghost known = item_ids(items@);
    let ghost start = items@;
    let ghost all = new@;
    let count: usize = new.len();
    let base: usize = items.len();
    let mut rest = new;
    let mut j: usize = 0;
    proof {
        assert(rest@ =~= all.subrange(0, all.len() as int));
        assert(all.take(0) =~= Seq::<(ImageId, T)>::empty());
        assert(start + fresh_items(known, all.take(0)) =~= start);
    }
    while rest.len() > 0
        invariant
            count == all.len(),
            j + rest@.len() == all.len(),
            rest@ == all.subrange(j as int, all.len() as int),
            items@ == start + fresh_items(known, all.take(j as int)),
            known == item_ids(start),
            base == start.len(),
        decreases rest@.len(),
    {
        let e = rest.remove(0);
        proof {
            assert(e == all[j as int]);
            assert(rest@ =~= all.subrange(j as int + 1, all.len() as int));
            assert(all.take(j as int + 1).drop_last() =~= all.take(j as int));
            assert(all.take(j as int + 1).last() == e);
        }
        let mut seen = false;
        let mut k: usize = 0;
        let n = items.len();
        while k < base
            invariant
                base == start.len(),
                n == items@.len(),
                start.len() <= n,
                items@ == start + fresh_items(known, all.take(j as int)),
                known == item_ids(start),
                k <= start.len(),
                seen == exists|q: int| 0 <= q < k && start[q].0 == e.0,
            decreases start.len() - k,
        {
            if items[k].0 == e.0 {
                seen = true;
            }
            proof {
                assert(items@[k as int] == start[k as int]);
            }
            k += 1;
        }
        proof {
            if seen {
                let q = choose|q: int| 0 <= q < start.len() && start[q].0 == e.0;
                assert(known[q] == e.0);
            } else if known.contains(e.0) {
                let q = choose|q: int| 0 <= q < known.len() && known[q] == e.0;
                assert(start[q].0 == e.0);
            }
        }
        if !seen {
            items.push(e);
            proof {
                assert(items@ =~= start + fresh_items(known, all.take(j as int + 1)));
            }
        } else {
            proof {
                assert(items@ =~= start + fresh_items(known, all.take(j as int + 1)));
            }
        }
        j += 1;
    }
    proof {
        assert(all.take(all.len() as int) =~= all);
    }
}

/// What a reply to a request for page `requested` makes of the gallery
/// `before`: a first page replaces it; the next page of the loaded gallery
/// takes over the totals and adds the images not shown yet; any other reply
/// leaves it as it was.
pub open spec fn merge_outcome<T>(
    before: Option<GalleryPage<T>>,
    requested: u64,
    reply: GalleryPage<T>,
    r: ListMerge,
    after: Option<GalleryPage<T>>,
) -> bool {
    if requested == 1 {
        r == ListMerge::Replaced && (after matches Some(g) && g.page == reply.page
            && g.total_pages == reply.total_pages && g.total_items == reply.total_items && g.items@ == reply.items@)
    } else {
        match before {
            None => r == ListMerge::Unloaded && after is None,
            Some(l) => if reply.page != l.page + 1 {
                &&& r == ListMerge::Stale
                &&& (after matches Some(g) && g.page == l.page && g.total_pages == l.total_pages
                    && g.total_items == l.total_items && g.items@ == l.items@)
            } else {
                &&& r == ListMerge::Extended
                &&& (after matches Some(g) && g.page == reply.page && g.total_pages == reply.total_pages
                    && g.total_items == reply.total_items && g.items@ == l.items@ + fresh_items(item_ids(l.items@), reply.items@))
            },
        }
    }
}

/// Whether the loaded gallery, if any, shows each image at most once.
pub open spec fn gallery_distinct<T>(loaded: Option<GalleryPage<T>>) -> bool {
    match loaded {
        Some(g) => item_ids(g.items@).no_duplicates(),
        None => true,
    }
}

/// Merges a reply to a request for page `requested` into the loaded gallery:
/// a first page replaces it; the next page of the loaded gallery takes over
/// the totals and adds the images not shown yet; any other reply is dropped.
/// A gallery without repeated images keeps none after any reply whose own
/// images do not repeat.
pub fn merge_list_reply<T>(loaded: &mut Option<GalleryPage<T>>, requested: u64, reply: GalleryPage<T>) -> (r: ListMerge)
    ensures
        gallery_distinct(*old(loaded)) && item_ids(reply.items@).no_duplicates() ==> gallery_distinct(*final(loaded)),
        merge_outcome(*old(loaded), requested, reply, r, *final(loaded)),
{
    if requested == 1 {
        *loaded = Some(reply);
        return ListMerge::Replaced;
    }
    match loaded {
        None => ListMerge::Unloaded,
        Some(l) => {
            if l.page == u64::MAX || reply.page != l.page + 1 {
                return ListMerge::Stale;
            }
            let ghost before = l.items@;
            let ghost incoming = reply.items@;
            l.page = reply.page;
            l.total_pages = reply.total_pages;
            l.total_items = reply.total_items;
            append_fresh(&mut l.items, reply.items);
            proof {
                if item_ids(before).no_duplicates() && item_ids(incoming).no_duplicates() {
                    merged_images_stay_distinct(before, incoming);
                }
            }
            ListMerge::Extended
        },
    }
}

/// The gallery page to load next: none while the gallery failed or a page is
/// being loaded, else the page after the loaded one while there is one.
pub fn next_list_page<T>(loaded: &Option<GalleryPage<T>>, gallery_error: bool, list_pending: bool) -> (r: Option<u64>)
    ensures
        r == if gallery_error || list_pending {
            None
        } else {
            match loaded {
                Some(g) => if g.page < g.total_pages {
                    Some((g.page + 1) as u64)
                } else {
                    None
                },
                None => None,
            }
        },
{
    if gallery_error || list_pending {
        return None;
    }
    match loaded {
        Some(g) => if g.page < g.total_pages {
            Some(g.page + 1)
        } else {
            None
        },
        None => None,
    }
}

/// Whether a thumbnail of image `id` is kept: its image is in the gallery and
/// fewer than [`MAX_THUMBNAILS`] thumbnails are kept.
pub fn thumbnail_wanted<T>(loaded: &Option<GalleryPage<T>>, id: ImageId, thumbnails: usize) -> (r: bool)
    ensures
        r == ((loaded matches Some(g) && item_ids(g.items@).contains(id)) && thumbnails < MAX_THUMBNAILS),
{
    match loaded {
        Some(g) => contains_image(&g.items, id) && thumbnails < MAX_THUMBNAILS,
        None => false,
    }
}

/// Where a failure of `request` is reported while `selected` is selected.
pub fn failure_route(request: InspectorRequest, selected: Option<ImageId>) -> (r: FailureRoute)
    ensures
        r == route_of(request, selected),
{
    match request {
        InspectorRequest::Image(id) | InspectorRequest::State(id) => {
            if selected == Some(id) {
                FailureRoute::Image
            } else {
                FailureRoute::Ignore
            }
        },
        InspectorRequest::Thumbnail(id) => FailureRoute::Thumbnail(id),
        InspectorRequest::List(page) => FailureRoute::Gallery(page),
        InspectorRequest::Return(_) => FailureRoute::General,
    }
}

/// The inspector is busy while a return to review is in flight.
pub fn busy(pending: &Vec<(u64, InspectorRequest)>) -> (r: bool)
    ensures
        r == exists|i: int| 0 <= i < pending@.len() && #[trigger] pending@[i].1 is Return,
{
    let mut i: usize = 0;
    while i < pending.len()
        invariant
            i <= pending@.len(),
            forall|j: int| 0 <= j < i ==> !(#[trigger] pending@[j].1 is Return),
        decreases pending@.len() - i,
    {
        if let InspectorRequest::Return(_) = pending[i].1 {
            return true;
        }
        i += 1;
    }
    false
}

/// Merging keeps the gallery free of repeated images: when neither the loaded
/// images nor the reply repeat an image, the merged images do not either.
pub proof fn merged_images_stay_distinct<T>(known: Seq<(ImageId, T)>, new: Seq<(ImageId, T)>)
    requires
        item_ids(known).no_duplicates(),
        item_ids(new).no_duplicates(),
    ensures
        item_ids(known + fresh_items(item_ids(known), new)).no_duplicates(),
{
    lemma_fresh_members(item_ids(known), new);
    let f = fresh_items(item_ids(known), new);
    let all = known + f;
    let k = known.len() as int;
    let ids = item_ids(known);
    assert forall|a: int, b: int| 0 <= a < b < all.len() implies item_ids(all)[a] != item_ids(all)[b] by {
        assert(item_ids(all)[a] == all[a].0);
        assert(item_ids(all)[b] == all[b].0);
        if b < k {
            assert(all[a] == known[a] && all[b] == known[b]);
            assert(ids[a] != ids[b]);
        } else if a < k {
            assert(all[b] == f[b - k]);
            assert(all[a] == known[a]);
            assert(ids[a] == known[a].0);
            assert(!ids.contains(f[b - k].0));
        } else {
            assert(all[a] == f[a - k] && all[b] == f[b - k]);
            lemma_fresh_distinct(ids, new);
            assert(item_ids(f)[a - k] != item_ids(f)[b - k]);
        }
    }
}

/// The fresh items are items of `new` whose image is not known.
proof fn lemma_fresh_members<T>(known: Seq<ImageId>, new: Seq<(ImageId, T)>)
    ensures
        forall|q: int| 0 <= q < fresh_items(known, new).len() ==> !known.contains(#[trigger] fresh_items(known, new)[q].0)
            && item_ids(new).contains(fresh_items(known, new)[q].0),
    decreases new.len(),
{
    if new.len() > 0 {
        let init = new.drop_last();
        lemma_fresh_members(known, init);
        let rest = fresh_items(known, init);
        let f = fresh_items(known, new);
        assert forall|q: int| 0 <= q < f.len() implies !known.contains(#[trigger] f[q].0) && item_ids(new).contains(f[q].0) by {
            if q < rest.len() {
                assert(f[q] == rest[q]);
                assert(item_ids(init).contains(rest[q].0));
                let t = choose|t: int| 0 <= t < item_ids(init).len() && item_ids(init)[t] == rest[q].0;
                assert(item_ids(new)[t] == rest[q].0);
            } else {
                assert(item_ids(new)[new.len() - 1] == f[q].0);
            }
        }
    }
}

/// Fresh items of a reply without repeated images repeat no image.
proof fn lemma_fresh_distinct<T>(known: Seq<ImageId>, new: Seq<(ImageId, T)>)
    requires
        item_ids(new).no_duplicates(),
    ensures
        item_ids(fresh_items(known, new)).no_duplicates(),
    decreases new.len(),
{
    if new.len() > 0 {
        let init = new.drop_last();
        assert(item_ids(init).no_duplicates()) by {
            assert forall|a: int, b: int| 0 <= a < b < item_ids(init).len() implies item_ids(init)[a] != item_ids(init)[b] by {
                assert(item_ids(new)[a] != item_ids(new)[b]);
            }
        }
        lemma_fresh_distinct(known, init);
        lemma_fresh_members(known, init);
        let rest = fresh_items(known, init);
        let f = fresh_items(known, new);
        if !known.contains(new.last().0) {
            assert forall|a: int, b: int| 0 <= a < b < item_ids(f).len() implies item_ids(f)[a] != item_ids(f)[b] by {
                if b == rest.len() {
                    assert(f[a] == rest[a]);
                    assert(item_ids(init).contains(rest[a].0));
                    let t = choose|t: int| 0 <= t < item_ids(init).len() && item_ids(init)[t] == rest[a].0;
                    assert(item_ids(new)[t] != item_ids(new)[new.len() - 1]);
                } else {
                    assert(item_ids(rest)[a] != item_ids(rest)[b]);
                }
            }
        }
    }
}

/// How many preview requests the inspector keeps in flight.
pub const MAX_IMAGE_REQUESTS: usize = 2;

/// A thumbnail request, or with `images` also an image request.
pub open spec fn is_preview(a: InspectorRequest, images: bool) -> bool {
    a is Thumbnail || (images && a is Image)
}

/// How many of `pending` are preview requests (see [`is_preview`]).
pub open spec fn preview_count(pending: Seq<(u64, InspectorRequest)>, images: bool) -> nat
    decreases pending.len(),
{
    if pending.len() == 0 {
        0
    } else {
        preview_count(pending.drop_last(), images) + if is_preview(pending.last().1, images) {
            1nat
        } else {
            0nat
        }
    }
}

/// A preview request in `pending` is obsolete: a thumbnail neither `visible`
/// nor selected, or an image not selected.
pub open spec fn obsolete(a: InspectorRequest, visible: Seq<ImageId>, selected: Option<ImageId>) -> bool {
    match a {
        InspectorRequest::Thumbnail(id) => !visible.contains(id) && selected != Some(id),
        InspectorRequest::Image(id) => selected != Some(id),
        _ => false,
    }
}

/// The ids of the requests of `pending` that are obsolete, in order.
pub open spec fn obsolete_ids(pending: Seq<(u64, InspectorRequest)>, visible: Seq<ImageId>, selected: Option<ImageId>) -> Seq<u64>
    decreases pending.len(),
{
    if pending.len() == 0 {
        Seq::empty()
    } else {
        let rest = obsolete_ids(pending.drop_last(), visible, selected);
        if obsolete(pending.last().1, visible, selected) {
            rest.push(pending.last().0)
        } else {
            rest
        }
    }
}

/// Which previews of the selected image to request: its thumbnail while no
/// preview or texture is shown, its thumbnail did not fail, none is in flight
/// and fewer than [`MAX_IMAGE_REQUESTS`] previews are; its full image while
/// none is shown, none failed, no image request is in flight and fewer than
/// [`MAX_IMAGE_REQUESTS`] thumbnails are (counting the one just requested).
pub open spec fn previews_to_request(
    selected: Option<ImageId>,
    preview_loaded: bool,
    has_texture: bool,
    thumbnail_failed: bool,
    image_failed: bool,
    pending: Seq<(u64, InspectorRequest)>,
) -> (bool, bool) {
    match selected {
        None => (false, false),
        Some(id) => {
            let thumbnail = !preview_loaded && !has_texture && !thumbnail_failed
                && !(exists|i: int| 0 <= i < pending.len() && #[trigger] pending[i].1 == InspectorRequest::Thumbnail(id))
                && preview_count(pending, true) < MAX_IMAGE_REQUESTS;
            let image = !preview_loaded && !image_failed
                && !(exists|i: int| 0 <= i < pending.len() && (#[trigger] pending[i].1) is Image)
                && preview_count(pending, false) + (if thumbnail { 1int } else { 0int }) < MAX_IMAGE_REQUESTS;
            (thumbnail, image)
        },
    }
}

/// Scheduling previews never puts more than [`MAX_IMAGE_REQUESTS`] preview
/// requests (thumbnails and images together) in flight: whatever it asks for
/// fits beside what is pending. It asks nothing without a selected image or
/// once its preview is loaded, never a second thumbnail of the selected image
/// nor a second image.
pub proof fn previews_stay_within_bound(
    selected: Option<ImageId>,
    preview_loaded: bool,
    has_texture: bool,
    thumbnail_failed: bool,
    image_failed: bool,
    pending: Seq<(u64, InspectorRequest)>,
)
    ensures
        ({
            let (t, i) = previews_to_request(selected, preview_loaded, has_texture, thumbnail_failed, image_failed, pending);
            &&& (t || i) ==> preview_count(pending, true) + (if t { 1int } else { 0int }) + (if i { 1int } else { 0int })
                <= MAX_IMAGE_REQUESTS
            &&& (selected is None || preview_loaded) ==> !t && !i
            &&& t ==> !(exists|k: int| 0 <= k < pending.len() && #[trigger] pending[k].1 == InspectorRequest::Thumbnail(selected->0))
            &&& i ==> !(exists|k: int| 0 <= k < pending.len() && (#[trigger] pending[k].1) is Image)
        }),
{
    if !(exists|k: int| 0 <= k < pending.len() && (#[trigger] pending[k].1) is Image) {
        lemma_no_images_counted(pending);
    }
    lemma_thumbnails_at_most_previews(pending);
}

/// Without image requests, the previews pending are the thumbnails pending.
proof fn lemma_no_images_counted(pending: Seq<(u64, InspectorRequest)>)
    requires
        !(exists|k: int| 0 <= k < pending.len() && (#[trigger] pending[k].1) is Image),
    ensures
        preview_count(pending, true) == preview_count(pending, false),
    decreases pending.len(),
{
    if pending.len() > 0 {
        let init = pending.drop_last();
        assert forall|k: int| 0 <= k < init.len() implies !((#[trigger] init[k].1) is Image) by {
            assert(init[k] == pending[k]);
            assert(!(pending[k].1 is Image));
        }
        lemma_no_images_counted(init);
        assert(!(pending[pending.len() - 1].1 is Image));
    }
}

/// There are no more thumbnails pending than previews pending.
proof fn lemma_thumbnails_at_most_previews(pending: Seq<(u64, InspectorRequest)>)
    ensures
        preview_count(pending, false) <= preview_count(pending, true),
    decreases pending.len(),
{
    if pending.len() > 0 {
        lemma_thumbnails_at_most_previews(pending.drop_last());
    }
}

/// Whether `v` holds `id`.
fn contains_id(v: &Vec<ImageId>, id: ImageId) -> (r: bool)
    ensures
        r == v@.contains(id),
{
    let mut i: usize = 0;
    while i < v.len()
        invariant
            i <= v@.len(),
            forall|j: int| 0 <= j < i ==> v@[j] != id,
        decreases v@.len() - i,
    {
        if v[i] == id {
            return true;
        }
        i += 1;
    }
    false
}

/// The requests to cancel once only the `visible` thumbnails and the
/// `selected` image are wanted.
pub fn obsolete_previews(pending: &Vec<(u64, InspectorRequest)>, visible: &Vec<ImageId>, selected: Option<ImageId>) -> (r: Vec<u64>)
    ensures
        r@ == obsolete_ids(pending@, visible@, selected),
{
    let mut r: Vec<u64> = Vec::new();
    let mut i: usize = 0;
    while i < pending.len()
        invariant
            i <= pending@.len(),
            r@ == obsolete_ids(pending@.take(i as int), visible@, selected),
        decreases pending@.len() - i,
    {
        let (request, action) = pending[i];
        let drop = match action {
            InspectorRequest::Thumbnail(id) => !contains_id(visible, id) && selected != Some(id),
            InspectorRequest::Image(id) => selected != Some(id),
            _ => false,
        };
        proof {
            assert(pending@.take(i as int + 1).drop_last() =~= pending@.take(i as int));
            assert(pending@.take(i as int + 1).last() == pending@[i as int]);
        }
        if drop {
            r.push(request);
        }
        i += 1;
    }
    proof {
        assert(pending@.take(pending@.len() as int) =~= pending@);
    }
    r
}

/// The previews of the selected image to request, as [`previews_to_request`]
/// says: (thumbnail, full image).
pub fn schedule_previews(
    selected: Option<ImageId>,
    preview_loaded: bool,
    has_texture: bool,
    thumbnail_failed: bool,
    image_failed: bool,
    pending: &Vec<(u64, InspectorRequest)>,
) -> (r: (bool, bool))
    ensures
        r == previews_to_request(selected, preview_loaded, has_texture, thumbnail_failed, image_failed, pending@),
{
    let id = match selected {
        Some(id) => id,
        None => return (false, false),
    };
    let mut thumbnail_pending = false;
    let mut image_pending = false;
    let mut previews: usize = 0;
    let mut thumbnails: usize = 0;
    let mut i: usize = 0;
    while i < pending.len()
        invariant
            i <= pending@.len(),
            thumbnail_pending == exists|j: int| 0 <= j < i && #[trigger] pending@[j].1 == InspectorRequest::Thumbnail(id),
            image_pending == exists|j: int| 0 <= j < i && (#[trigger] pending@[j].1) is Image,
            previews == preview_count(pending@.take(i as int), true),
            thumbnails == preview_count(pending@.take(i as int), false),
            thumbnails <= previews <= i,
        decreases pending@.len() - i,
    {
        let action = pending[i].1;
        proof {
            assert(pending@.take(i as int + 1).drop_last() =~= pending@.take(i as int));
            assert(pending@.take(i as int + 1).last() == pending@[i as int]);
        }
        match action {
            InspectorRequest::Thumbnail(t) => {
                if t == id {
                    thumbnail_pending = true;
                }
                previews += 1;
                thumbnails += 1;
            },
            InspectorRequest::Image(_) => {
                image_pending = true;
                previews += 1;
            },
            _ => {},
        }
        i += 1;
    }
    proof {
        assert(pending@.take(pending@.len() as int) =~= pending@);
    }
    let thumbnail = !preview_loaded && !has_texture && !thumbnail_failed && !thumbnail_pending
        && previews < MAX_IMAGE_REQUESTS;
    let counted = if thumbnail { thumbnails + 1 } else { thumbnails };
    let image = !preview_loaded && !image_failed && !image_pending && counted < MAX_IMAGE_REQUESTS;
    (thumbnail, image)
}

impl OverlayFilter {
    /// Annotation `a` is drawn under this filter, with task `states`.
    pub open spec fn shows(self, states: Seq<(TaskId, TaskStatus)>, a: (TaskId, AnnotationType)) -> bool {
        overlay_shown(self.hidden_tasks@, self.hidden_statuses@, self.boxes, self.skeletons, states, a)
    }

    /// The positions of the `annotations` (task and type of each active
    /// annotation of the image) that are drawn, in order; `states` are the
    /// image's task states, one per task.
    pub fn overlays(&self, annotations: &Vec<(TaskId, AnnotationType)>, states: &Vec<(TaskId, TaskStatus)>) -> (r: Vec<usize>)
        requires
            keys_unique(states@),
        ensures
            forall|k: int| 0 <= k < r@.len() ==> #[trigger] r@[k] < annotations@.len(),
            forall|a: int, b: int| 0 <= a < b < r@.len() ==> #[trigger] r@[a] < #[trigger] r@[b],
            forall|k: int| 0 <= k < r@.len() ==> self.shows(states@, annotations@[#[trigger] r@[k] as int]),
            forall|i: int| 0 <= i < annotations@.len() && self.shows(states@, #[trigger] annotations@[i]) ==> r@.contains(i as usize),
    {
        let mut r: Vec<usize> = Vec::new();
        let mut i: usize = 0;
        while i < annotations.len()
            invariant
                i <= annotations@.len(),
                keys_unique(states@),
                forall|k: int| 0 <= k < r@.len() ==> #[trigger] r@[k] < i,
                forall|a: int, b: int| 0 <= a < b < r@.len() ==> #[trigger] r@[a] < #[trigger] r@[b],
                forall|k: int| 0 <= k < r@.len() ==> self.shows(states@, annotations@[#[trigger] r@[k] as int]),
                forall|j: int| 0 <= j < i && self.shows(states@, #[trigger] annotations@[j]) ==> r@.contains(j as usize),
            decreases annotations@.len() - i,
        {
            let (task, kind) = annotations[i];
            let by_type = match kind {
                AnnotationType::BoundingBox => self.boxes,
                AnnotationType::Skeleton => self.skeletons,
            };
            if !contains_task(&self.hidden_tasks, task) && !contains_status(&self.hidden_statuses, state_of(states, task))
                && by_type {
                let ghost before = r@;
                r.push(i);
                proof {
                    assert forall|j: int| 0 <= j < i + 1 && self.shows(states@, #[trigger] annotations@[j]) implies r@.contains(j as usize) by {
                        if j < i {
                            let k = choose|k: int| 0 <= k < before.len() && before[k] == j as usize;
                            assert(r@[k] == j as usize);
                        } else {
                            assert(r@[before.len() as int] == i);
                        }
                    }
                }
            }
            i += 1;
        }
        r
    }
}

} // verus!
