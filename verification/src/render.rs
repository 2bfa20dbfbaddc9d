//! The composite renderer: lays items out with the mosaic engine, asks the
//! plugin capability registered for each item's kind to rasterize it, and
//! composites the results onto a square canvas.
//!
//! Plugin failures never reach the caller: a failed favorite tile stays
//! blank, and a full-record cover retries the whole layout without the
//! failing items until a pass completes clean.

use vstd::prelude::*;

use crate::canvas::{PixelCanvas, BLACK};
use crate::layout::{denom, layout, layout_fits, lemma_layout_inside, spec_layout, TileV};
use crate::types::{
    AvailableExperiencesPlugins,
    CompressedEvent,
    CompressedEventV,
    Experience,
    ExperienceEvent,
    ExperienceEventV,
};

verus! {

/// A per-kind rasterization capability, implemented outside the library:
/// given pixel dimensions and an event, a buffer of `w * h` ARGB words, or
/// a failure message. Nothing is assumed of implementations; the renderer
/// checks what it gets back.
pub trait PluginRenderer {
    fn render(&self, dimensions: (u32, u32), event: &CompressedEvent) -> Result<Vec<u32>, String>;
}

/// The whole-pixel rectangle a tile is pasted over: the placement's
/// ceiling-rounded origin and dimensions, in units of `1/den` of a pixel.
pub open spec fn pastes_over(t: TileV, den: int, px: int, py: int) -> bool {
    let cx = (t.x + den - 1) / den;
    let cy = (t.y + den - 1) / den;
    let cw = (t.w + den - 1) / den;
    let ch = (t.h + den - 1) / den;
    cx <= px < cx + cw && cy <= py < cy + ch
}

/// Whether any of the tiles pastes over the pixel `(px, py)`.
pub open spec fn any_tile_pastes(tiles: Seq<TileV>, den: int, px: int, py: int) -> bool {
    exists|j: int| 0 <= j < tiles.len() && pastes_over(#[trigger] tiles[j], den, px, py)
}

/// Every pixel of the `size` by `size` canvas that no placement of the
/// layout for `m` items pastes over holds the black background: the canvas
/// is never partially drawn.
pub open spec fn only_background_outside(c: PixelCanvas, m: int, size: u32) -> bool {
    forall|px: int, py: int|
        0 <= px < size && 0 <= py < size && !any_tile_pastes(
            spec_layout(m as nat, 0, 0, size as int * denom(m as nat)),
            denom(m as nat) as int,
            px,
            py,
        ) ==> #[trigger] c.pixel_at(px, py) == BLACK
}

/// The canvas an outside render result yields: the delivered buffer when it
/// is `Ok` with exactly one word per pixel, and a fully transparent tile for
/// every failure or miscounted buffer.
pub fn canvas_of_render(dims: (u32, u32), r: Result<Vec<u32>, String>) -> (c: PixelCanvas)
    requires
        dims.0 as int * dims.1 as int <= usize::MAX,
    ensures
        c.wf(),
        c.spec_width() == dims.0,
        c.spec_height() == dims.1,
        match r {
            Ok(v) => if v@.len() == dims.0 as int * dims.1 as int {
                c.pixels() == v@
            } else {
                forall|x: int, y: int|
                    0 <= x < dims.0 && 0 <= y < dims.1 ==> c.pixel_at(x, y) == 0
            },
            Err(_) => forall|x: int, y: int|
                0 <= x < dims.0 && 0 <= y < dims.1 ==> c.pixel_at(x, y) == 0,
        },
{
    match r {
        Ok(v) => match PixelCanvas::from_words(dims.0, dims.1, v) {
            Some(c) => c,
            None => PixelCanvas::new(dims.0, dims.1, 0),
        },
        Err(_) => PixelCanvas::new(dims.0, dims.1, 0),
    }
}

/// The `(kind, event)` items of one bucket, favorites only.
pub open spec fn fav_of_bucket(
    k: AvailableExperiencesPlugins,
    b: Seq<ExperienceEventV>,
) -> Seq<(AvailableExperiencesPlugins, CompressedEventV)>
    decreases b.len(),
{
    if b.len() == 0 {
        Seq::empty()
    } else {
        let rest = fav_of_bucket(k, b.drop_last());
        if b.last().favorite {
            rest.push((k, b.last().event))
        } else {
            rest
        }
    }
}

/// The `(kind, event)` items of one bucket, all of them.
pub open spec fn all_of_bucket(
    k: AvailableExperiencesPlugins,
    b: Seq<ExperienceEventV>,
) -> Seq<(AvailableExperiencesPlugins, CompressedEventV)>
    decreases b.len(),
{
    if b.len() == 0 {
        Seq::empty()
    } else {
        all_of_bucket(k, b.drop_last()).push((k, b.last().event))
    }
}

/// The favorite items of a record, bucket by bucket in record order.
pub open spec fn favorite_items_spec(
    evs: Seq<(AvailableExperiencesPlugins, Seq<ExperienceEventV>)>,
) -> Seq<(AvailableExperiencesPlugins, CompressedEventV)>
    decreases evs.len(),
{
    if evs.len() == 0 {
        Seq::empty()
    } else {
        favorite_items_spec(evs.drop_last()) + fav_of_bucket(evs.last().0, evs.last().1)
    }
}

/// Every item of a record, bucket by bucket in record order.
pub open spec fn all_items_spec(
    evs: Seq<(AvailableExperiencesPlugins, Seq<ExperienceEventV>)>,
) -> Seq<(AvailableExperiencesPlugins, CompressedEventV)>
    decreases evs.len(),
{
    if evs.len() == 0 {
        Seq::empty()
    } else {
        all_items_spec(evs.drop_last()) + all_of_bucket(evs.last().0, evs.last().1)
    }
}

/// How many events a record holds, across all buckets.
pub open spec fn item_count(
    evs: Seq<(AvailableExperiencesPlugins, Seq<ExperienceEventV>)>,
) -> int
    decreases evs.len(),
{
    if evs.len() == 0 {
        0
    } else {
        item_count(evs.drop_last()) + evs.last().1.len()
    }
}

/// A record never shows more items than it holds events: the full list has
/// exactly `item_count` items and the favorites are no more.
pub proof fn lemma_item_counts(evs: Seq<(AvailableExperiencesPlugins, Seq<ExperienceEventV>)>)
    ensures
        all_items_spec(evs).len() == item_count(evs),
        favorite_items_spec(evs).len() <= item_count(evs),
        item_count(evs) >= 0,
    decreases evs.len(),
{
    if evs.len() > 0 {
        lemma_item_counts(evs.drop_last());
        lemma_bucket_counts(evs.last().0, evs.last().1);
    }
}

proof fn lemma_bucket_counts(k: AvailableExperiencesPlugins, b: Seq<ExperienceEventV>)
    ensures
        all_of_bucket(k, b).len() == b.len(),
        fav_of_bucket(k, b).len() <= b.len(),
    decreases b.len(),
{
    if b.len() > 0 {
        lemma_bucket_counts(k, b.drop_last());
    }
}

/// The favorite items of one bucket.
#[verifier::loop_isolation(false)]
fn fav_bucket_exec(kind: AvailableExperiencesPlugins, b: &Vec<ExperienceEvent>) -> (r: Vec<
    (AvailableExperiencesPlugins, CompressedEvent),
>)
    ensures
        r.deep_view() == fav_of_bucket(kind, b.deep_view()),
{
    let mut out: Vec<(AvailableExperiencesPlugins, CompressedEvent)> = Vec::new();
    let mut j: usize = 0;
    while j < b.len()
        invariant
            j <= b@.len(),
            out.deep_view() =~= fav_of_bucket(kind, b.deep_view().take(j as int)),
        decreases b@.len() - j,
    {
        proof {
            assert(b.deep_view().take(j + 1int).drop_last() =~= b.deep_view().take(j as int));
            assert(b.deep_view().take(j + 1int).last() == b.deep_view()[j as int]);
        }
        if b[j].favorite {
            out.push((kind, b[j].event.clone()));
            proof {
                assert(b.deep_view()[j as int].event == b@[j as int].event.deep_view());
                assert(out.deep_view() =~= fav_of_bucket(kind, b.deep_view().take(j + 1int)));
            }
        }
        j += 1;
    }
    proof {
        assert(b.deep_view().take(b@.len() as int) =~= b.deep_view());
    }
    out
}

/// All items of one bucket.
#[verifier::loop_isolation(false)]
fn all_bucket_exec(kind: AvailableExperiencesPlugins, b: &Vec<ExperienceEvent>) -> (r: Vec<
    (AvailableExperiencesPlugins, CompressedEvent),
>)
    ensures
        r.deep_view() == all_of_bucket(kind, b.deep_view()),
{
    let mut out: Vec<(AvailableExperiencesPlugins, CompressedEvent)> = Vec::new();
    let mut j: usize = 0;
    while j < b.len()
        invariant
            j <= b@.len(),
            out.deep_view() =~= all_of_bucket(kind, b.deep_view().take(j as int)),
        decreases b@.len() - j,
    {
        proof {
            assert(b.deep_view().take(j + 1int).drop_last() =~= b.deep_view().take(j as int));
            assert(b.deep_view().take(j + 1int).last() == b.deep_view()[j as int]);
        }
        out.push((kind, b[j].event.clone()));
        proof {
            assert(b.deep_view()[j as int].event == b@[j as int].event.deep_view());
            assert(out.deep_view() =~= all_of_bucket(kind, b.deep_view().take(j + 1int)));
        }
        j += 1;
    }
    proof {
        assert(b.deep_view().take(b@.len() as int) =~= b.deep_view());
    }
    out
}

/// Lists the favorite events of `record` with their kinds, in bucket order.
#[verifier::loop_isolation(false)]
pub fn favorite_items(record: &Experience) -> (r: Vec<(AvailableExperiencesPlugins, CompressedEvent)>)
    ensures
        r.deep_view() == favorite_items_spec(record.deep_view().events),
{
    let ghost v = record.deep_view();
    let mut out: Vec<(AvailableExperiencesPlugins, CompressedEvent)> = Vec::new();
    let mut i: usize = 0;
    while i < record.events.len()
        invariant
            i <= record.events@.len(),
            out.deep_view() =~= favorite_items_spec(v.events.take(i as int)),
        decreases record.events@.len() - i,
    {
        proof {
            assert(v.events[i as int] == (record.events@[i as int].0,
                record.events@[i as int].1.deep_view()));
            assert(v.events.take(i + 1int).drop_last() =~= v.events.take(i as int));
            assert(v.events.take(i + 1int).last() == v.events[i as int]);
        }
        let kind = record.events[i].0;
        let mut bo = fav_bucket_exec(kind, &record.events[i].1);
        let ghost pre_out = out.deep_view();
        let ghost bo_dv = bo.deep_view();
        out.append(&mut bo);
        proof {
            assert(out@.len() == pre_out.len() + bo_dv.len());
            assert(forall|idx: int|
                0 <= idx < pre_out.len() ==> out.deep_view()[idx] == pre_out[idx]);
            assert(forall|idx: int|
                0 <= idx < bo_dv.len() ==> out.deep_view()[pre_out.len() + idx] == bo_dv[idx]);
            assert(out.deep_view() =~= pre_out + bo_dv);
            assert(out.deep_view() =~= favorite_items_spec(v.events.take(i + 1int)));
        }
        i += 1;
    }
    proof {
        assert(v.events.take(record.events@.len() as int) =~= v.events);
    }
    out
}

/// Lists every event of `record` with its kind, in bucket order.
#[verifier::loop_isolation(false)]
pub fn all_items(record: &Experience) -> (r: Vec<(AvailableExperiencesPlugins, CompressedEvent)>)
    ensures
        r.deep_view() == all_items_spec(record.deep_view().events),
{
    let ghost v = record.deep_view();
    let mut out: Vec<(AvailableExperiencesPlugins, CompressedEvent)> = Vec::new();
    let mut i: usize = 0;
    while i < record.events.len()
        invariant
            i <= record.events@.len(),
            out.deep_view() =~= all_items_spec(v.events.take(i as int)),
        decreases record.events@.len() - i,
    {
        proof {
            assert(v.events[i as int] == (record.events@[i as int].0,
                record.events@[i as int].1.deep_view()));
            assert(v.events.take(i + 1int).drop_last() =~= v.events.take(i as int));
            assert(v.events.take(i + 1int).last() == v.events[i as int]);
        }
        let kind = record.events[i].0;
        let mut bo = all_bucket_exec(kind, &record.events[i].1);
        let ghost pre_out = out.deep_view();
        let ghost bo_dv = bo.deep_view();
        out.append(&mut bo);
        proof {
            assert(out@.len() == pre_out.len() + bo_dv.len());
            assert(forall|idx: int|
                0 <= idx < pre_out.len() ==> out.deep_view()[idx] == pre_out[idx]);
            assert(forall|idx: int|
                0 <= idx < bo_dv.len() ==> out.deep_view()[pre_out.len() + idx] == bo_dv[idx]);
            assert(out.deep_view() =~= pre_out + bo_dv);
            assert(out.deep_view() =~= all_items_spec(v.events.take(i + 1int)));
        }
        i += 1;
    }
    proof {
        assert(v.events.take(record.events@.len() as int) =~= v.events);
    }
    out
}

/// The scaled layout arithmetic fits for every working-set size up to `n`:
/// what a cover render needs, since the retry loop shrinks the set.
pub open spec fn layout_fits_upto(n: int, size: nat) -> bool
    decreases n + 1,
{
    if n < 0 {
        true
    } else {
        layout_fits(n as nat, 0, 0, size) && layout_fits_upto(n - 1, size)
    }
}

/// A fitting bound covers every smaller working set.
pub proof fn lemma_fits_upto(n: int, m: int, size: nat)
    requires
        layout_fits_upto(n, size),
        0 <= m <= n,
    ensures
        layout_fits(m as nat, 0, 0, size),
    decreases n,
{
    if m < n {
        lemma_fits_upto(n - 1, m, size);
    }
}

/// Checks `layout_fits` for one item count.
pub fn layout_fits_check(n: usize, size: u32) -> (r: bool)
    ensures
        r == layout_fits(n as nat, 0, 0, size as nat),
{
    match crate::layout::denom_check(n) {
        None => false,
        Some(d) => {
            proof {
                assert((size as int) * (d as int) <= u128::MAX) by (nonlinear_arith)
                    requires
                        size <= u32::MAX,
                        d <= u64::MAX,
                ;
            }
            let prod: u128 = (size as u128) * (d as u128);
            prod <= u64::MAX as u128
        },
    }
}

/// Checks `layout_fits_upto`.
pub fn layout_fits_upto_check(n: usize, size: u32) -> (r: bool)
    ensures
        r == layout_fits_upto(n as int, size as nat),
{
    let mut m: usize = 0;
    while m < n
        invariant
            m <= n,
            layout_fits_upto(m as int - 1, size as nat),
        decreases n - m,
    {
        if !layout_fits_check(m, size) {
            proof {
                lemma_not_fits_upto(n as int, m as int, size as nat);
            }
            return false;
        }
        m += 1;
    }
    layout_fits_check(n, size)
}

/// A failing size refutes every bound that covers it.
proof fn lemma_not_fits_upto(n: int, m: int, size: nat)
    requires
        0 <= m <= n,
        !layout_fits(m as nat, 0, 0, size),
    ensures
        !layout_fits_upto(n, size),
    decreases n,
{
    if m < n {
        lemma_not_fits_upto(n - 1, m, size);
    }
}

/// The composite renderer: a fixed registry mapping each plugin kind to its
/// rasterization capability, built once at startup.
pub struct Renderer<R: PluginRenderer> {
    plugins: Vec<(AvailableExperiencesPlugins, R)>,
}

impl<R: PluginRenderer> Renderer<R> {
    /// Whether a capability is registered for `kind`.
    pub closed spec fn has_plugin(&self, kind: AvailableExperiencesPlugins) -> bool {
        exists|i: int| 0 <= i < self.plugins@.len() && self.plugins@[i].0 == kind
    }

    /// A renderer over the given capability registry.
    pub fn new(renderers: Vec<(AvailableExperiencesPlugins, R)>) -> Renderer<R> {
        Renderer { plugins: renderers }
    }

    /// The first registered capability for `kind`, if any.
    fn find_plugin(&self, kind: AvailableExperiencesPlugins) -> (r: Option<&R>)
        ensures
            r is Some <==> self.has_plugin(kind),
    {
        let mut i: usize = 0;
        while i < self.plugins.len()
            invariant
                i <= self.plugins@.len(),
                forall|k: int| 0 <= k < i ==> self.plugins@[k].0 != kind,
            decreases self.plugins@.len() - i,
        {
            if self.plugins[i].0 == kind {
                proof {
                    assert(self.plugins@[i as int].0 == kind);
                }
                return Some(&self.plugins[i].1);
            }
            i += 1;
        }
        None
    }

    /// Renders one event at the given pixel dimensions. A missing
    /// capability or a failed delegate yields a fully transparent tile;
    /// failures never propagate (see `canvas_of_render` for exactly what
    /// each delegate outcome yields).
    pub fn render_event(
        &self,
        kind: AvailableExperiencesPlugins,
        event: &CompressedEvent,
        dimensions: (u32, u32),
    ) -> (c: PixelCanvas)
        requires
            dimensions.0 as int * dimensions.1 as int <= usize::MAX,
        ensures
            c.wf(),
            c.spec_width() == dimensions.0,
            c.spec_height() == dimensions.1,
            !self.has_plugin(kind) ==> forall|x: int, y: int|
                0 <= x < dimensions.0 && 0 <= y < dimensions.1 ==> #[trigger] c.pixel_at(x, y)
                    == 0,
    {
        match self.find_plugin(kind) {
            Some(p) => canvas_of_render(dimensions, p.render(dimensions, event)),
            None => PixelCanvas::new(dimensions.0, dimensions.1, 0),
        }
    }

    /// Lays `items` out in a `size` by `size` region, paints an opaque
    /// black background, renders every item at its placement's
    /// ceiling-rounded dimensions and pastes it at its ceiling-rounded
    /// origin. Tile `j` shows item `items.len() - 1 - j`; every pixel that
    /// no placement pastes over keeps the black background.
    #[verifier::loop_isolation(false)]
    pub fn render_events(
        &self,
        size: u32,
        items: &Vec<(AvailableExperiencesPlugins, CompressedEvent)>,
    ) -> (c: PixelCanvas)
        requires
            layout_fits(items@.len() as nat, 0, 0, size as nat),
            size as int * size as int <= usize::MAX,
        ensures
            c.wf(),
            c.spec_width() == size,
            c.spec_height() == size,
            only_background_outside(c, items@.len() as int, size),
    {
        let n = items.len();
        let (tiles, den) = layout(n, 0, 0, size);
        let ghost ss = size as int * denom(n as nat);
        let ghost tv = spec_layout(n as nat, 0, 0, ss);
        proof {
            lemma_layout_inside(n as nat, 0, 0, ss);
            crate::layout::lemma_denom_pos(n as nat);
        }
        let mut canvas = PixelCanvas::new(size, size, BLACK);
        let mut j: usize = 0;
        while j < tiles.len()
            invariant
                canvas.wf(),
                canvas.spec_width() == size,
                canvas.spec_height() == size,
                j <= tiles@.len(),
                forall|px: int, py: int|
                    0 <= px < size && 0 <= py < size && !any_tile_pastes(
                        tv.take(j as int),
                        den as int,
                        px,
                        py,
                    ) ==> #[trigger] canvas.pixel_at(px, py) == BLACK,
            decreases tiles@.len() - j,
        {
            let t = tiles[j];
            proof {
                assert(tiles.deep_view()[j as int] == t.deep_view());
                lemma_tile_px(t.deep_view(), ss, den as int, size as int);
            }
            let wpx = crate::layout::ceil_units(t.w, den) as u32;
            let hpx = crate::layout::ceil_units(t.h, den) as u32;
            let xpx = crate::layout::ceil_units(t.x, den) as u32;
            let ypx = crate::layout::ceil_units(t.y, den) as u32;
            proof {
                assert((wpx as int) * (hpx as int) <= (size as int) * (size as int))
                    by (nonlinear_arith)
                    requires
                        0 <= wpx <= size,
                        0 <= hpx <= size,
                ;
            }
            let idx = n - 1 - j;
            let tile_canvas = self.render_event(items[idx].0, &items[idx].1, (wpx, hpx));
            let ghost pre = canvas;
            canvas.blit(&tile_canvas, xpx, ypx);
            proof {
                assert forall|px: int, py: int|
                    0 <= px < size && 0 <= py < size && !any_tile_pastes(
                        tv.take(j + 1int),
                        den as int,
                        px,
                        py,
                    ) implies #[trigger] canvas.pixel_at(px, py) == BLACK by {
                    assert(tv.take(j + 1int)[j as int] == tv[j as int]);
                    assert(!pastes_over(tv.take(j + 1int)[j as int], den as int, px, py));
                    assert(!pastes_over(tv[j as int], den as int, px, py));
                    assert(forall|k: int|
                        0 <= k < j ==> tv.take(j as int)[k] == tv.take(j + 1int)[k]);
                    assert(!any_tile_pastes(tv.take(j as int), den as int, px, py)) by {
                        if any_tile_pastes(tv.take(j as int), den as int, px, py) {
                            let k = choose|k: int|
                                0 <= k < j && pastes_over(
                                    #[trigger] tv.take(j as int)[k],
                                    den as int,
                                    px,
                                    py,
                                );
                            assert(pastes_over(tv.take(j + 1int)[k], den as int, px, py));
                        }
                    }
                    assert(pre.pixel_at(px, py) == BLACK);
                    assert(!(xpx <= px < xpx + wpx && ypx <= py < ypx + hpx));
                    assert(canvas.pixel_at(px, py) == pre.pixel_at(px, py));
                }
            }
            j += 1;
        }
        proof {
            assert(tv.take(tiles@.len() as int) =~= tv);
        }
        canvas
    }

    /// The favorites-only cover of a record: the input set is every event
    /// with the favorite flag, across all kinds. Pixels no placement of the
    /// favorites' layout pastes over keep the black background.
    pub fn render_experience(&self, experience: &Experience, size: u32) -> (c: PixelCanvas)
        requires
            layout_fits_upto(item_count(experience.deep_view().events), size as nat),
            size as int * size as int <= usize::MAX,
        ensures
            c.wf(),
            c.spec_width() == size,
            c.spec_height() == size,
            only_background_outside(
                c,
                favorite_items_spec(experience.deep_view().events).len() as int,
                size,
            ),
    {
        let favorites = favorite_items(experience);
        proof {
            lemma_item_counts(experience.deep_view().events);
            lemma_fits_upto(
                item_count(experience.deep_view().events),
                favorites@.len() as int,
                size as nat,
            );
        }
        self.render_events(size, &favorites)
    }

    /// The full cover of a record: every event across all kinds. Runs the
    /// iterative fixed point: after a pass in which any delegate failed,
    /// the failed items are removed and the whole layout and render is
    /// recomputed from scratch, until a pass completes with no failure. A
    /// fully composited canvas always comes back, whatever the delegates
    /// do: the result is one complete pass over some surviving item count
    /// `m`, with every pixel outside that pass's placements still the black
    /// background — never a partially drawn canvas. A record with no events
    /// yields the bare background fill.
    #[verifier::loop_isolation(false)]
    pub fn render_entire_experience(&self, experience: &Experience, size: u32) -> (c: PixelCanvas)
        requires
            layout_fits_upto(item_count(experience.deep_view().events), size as nat),
            size as int * size as int <= usize::MAX,
        ensures
            c.wf(),
            c.spec_width() == size,
            c.spec_height() == size,
            exists|m: int|
                0 <= m <= item_count(experience.deep_view().events)
                    && #[trigger] only_background_outside(c, m, size),
            item_count(experience.deep_view().events) == 0 ==> forall|px: int, py: int|
                0 <= px < size && 0 <= py < size ==> #[trigger] c.pixel_at(px, py) == BLACK,
    {
        let ghost n0 = item_count(experience.deep_view().events);
        let mut items = all_items(experience);
        proof {
            lemma_item_counts(experience.deep_view().events);
        }
        let mut result: Option<PixelCanvas> = None;
        while result.is_none()
            invariant
                items@.len() <= n0,
                match result {
                    Some(c) => c.wf() && c.spec_width() == size && c.spec_height() == size
                        && exists|m: int|
                        0 <= m <= n0 && #[trigger] only_background_outside(c, m, size),
                    None => true,
                },
            decreases items@.len(), (if result is None {
                1int
            } else {
                0int
            }),
        {
            let n = items.len();
            proof {
                lemma_fits_upto(n0, n as int, size as nat);
                lemma_denom_pos_use(n as nat);
            }
            let (tiles, den) = layout(n, 0, 0, size);
            let ghost ss = size as int * denom(n as nat);
            let ghost tv = spec_layout(n as nat, 0, 0, ss);
            proof {
                lemma_layout_inside(n as nat, 0, 0, ss);
            }
            let mut canvas = PixelCanvas::new(size, size, BLACK);
            let mut failed: Vec<CompressedEvent> = Vec::new();
            let mut j: usize = 0;
            while j < tiles.len()
                invariant
                    canvas.wf(),
                    canvas.spec_width() == size,
                    canvas.spec_height() == size,
                    j <= tiles@.len(),
                    failed@.len() > 0 ==> exists|i: int|
                        0 <= i < items@.len() && items@[i].1.deep_view()
                            == failed@[0].deep_view(),
                    forall|px: int, py: int|
                        0 <= px < size && 0 <= py < size && !any_tile_pastes(
                            tv.take(j as int),
                            den as int,
                            px,
                            py,
                        ) ==> #[trigger] canvas.pixel_at(px, py) == BLACK,
                decreases tiles@.len() - j,
            {
                let t = tiles[j];
                proof {
                    assert(tiles.deep_view()[j as int] == t.deep_view());
                    lemma_tile_px(t.deep_view(), ss, den as int, size as int);
                }
                let wpx = crate::layout::ceil_units(t.w, den) as u32;
                let hpx = crate::layout::ceil_units(t.h, den) as u32;
                let xpx = crate::layout::ceil_units(t.x, den) as u32;
                let ypx = crate::layout::ceil_units(t.y, den) as u32;
                proof {
                    assert((wpx as int) * (hpx as int) <= (size as int) * (size as int))
                        by (nonlinear_arith)
                        requires
                            0 <= wpx <= size,
                            0 <= hpx <= size,
                    ;
                }
                let idx = n - 1 - j;
                let ghost pre = canvas;
                let mut ok = false;
                match self.find_plugin(items[idx].0) {
                    Some(p) => match p.render((wpx, hpx), &items[idx].1) {
                        Ok(words) => match PixelCanvas::from_words(wpx, hpx, words) {
                            Some(tile_canvas) => {
                                canvas.blit(&tile_canvas, xpx, ypx);
                                ok = true;
                            },
                            None => {},
                        },
                        Err(_) => {},
                    },
                    None => {},
                }
                proof {
                    assert forall|px: int, py: int|
                        0 <= px < size && 0 <= py < size && !any_tile_pastes(
                            tv.take(j + 1int),
                            den as int,
                            px,
                            py,
                        ) implies #[trigger] canvas.pixel_at(px, py) == BLACK by {
                        assert(tv.take(j + 1int)[j as int] == tv[j as int]);
                        assert(!pastes_over(tv.take(j + 1int)[j as int], den as int, px, py));
                        assert(!pastes_over(tv[j as int], den as int, px, py));
                        assert(forall|k: int|
                            0 <= k < j ==> tv.take(j as int)[k] == tv.take(j + 1int)[k]);
                        assert(!any_tile_pastes(tv.take(j as int), den as int, px, py)) by {
                            if any_tile_pastes(tv.take(j as int), den as int, px, py) {
                                let k = choose|k: int|
                                    0 <= k < j && pastes_over(
                                        #[trigger] tv.take(j as int)[k],
                                        den as int,
                                        px,
                                        py,
                                    );
                                assert(pastes_over(tv.take(j + 1int)[k], den as int, px, py));
                            }
                        }
                        assert(pre.pixel_at(px, py) == BLACK);
                        if ok {
                            assert(!(xpx <= px < xpx + wpx && ypx <= py < ypx + hpx));
                        }
                        assert(canvas.pixel_at(px, py) == pre.pixel_at(px, py));
                    }
                }
                if !ok {
                    failed.push(items[idx].1.clone());
                    proof {
                        assert(items@[idx as int].1.deep_view() == failed@[0].deep_view() || failed@.len() > 1);
                        if failed@.len() == 1 {
                            assert(failed@[0] == failed@.last());
                        }
                    }
                }
                j += 1;
            }
            if failed.len() == 0 {
                proof {
                    assert(tv.take(tiles@.len() as int) =~= tv);
                    assert(only_background_outside(canvas, n as int, size));
                }
                result = Some(canvas);
            } else {
                let prior_len = items.len();
                items = prune_failed(items, &failed);
                proof {
                    assert(items@.len() < prior_len);
                }
            }
        }
        match result {
            Some(c) => {
                proof {
                    if n0 == 0 {
                        let m = choose|m: int|
                            0 <= m <= n0 && #[trigger] only_background_outside(c, m, size);
                        assert(m == 0);
                        assert(spec_layout(0, 0, 0, size as int * denom(0)) =~= Seq::<
                            TileV,
                        >::empty());
                        assert forall|px: int, py: int|
                            0 <= px < size && 0 <= py < size implies #[trigger] c.pixel_at(px, py)
                            == BLACK by {
                            assert(!any_tile_pastes(
                                spec_layout(0, 0, 0, size as int * denom(0)),
                                denom(0) as int,
                                px,
                                py,
                            ));
                        }
                    }
                }
                c
            },
            None => {
                proof {
                    assert(false);
                }
                PixelCanvas::new(0, 0, 0)
            },
        }
    }
}

proof fn lemma_denom_pos_use(n: nat)
    ensures
        denom(n) >= 1,
{
    crate::layout::lemma_denom_pos(n);
}

/// For a tile inside the scaled region, the ceiling-rounded pixel
/// coordinates stay within the unscaled size.
proof fn lemma_tile_px(t: crate::layout::TileV, ss: int, den: int, size: int)
    requires
        den >= 1,
        size >= 0,
        ss == size * den,
        0 <= t.x,
        0 <= t.y,
        0 <= t.w,
        0 <= t.h,
        t.x + t.w <= ss,
        t.y + t.h <= ss,
    ensures
        (t.x + den - 1) / den <= size,
        (t.y + den - 1) / den <= size,
        (t.w + den - 1) / den <= size,
        (t.h + den - 1) / den <= size,
        t.x <= u64::MAX && t.y <= u64::MAX && t.w <= u64::MAX && t.h <= u64::MAX ==> true,
{
    lemma_ceil_le(t.x, den, size);
    lemma_ceil_le(t.y, den, size);
    lemma_ceil_le(t.w, den, size);
    lemma_ceil_le(t.h, den, size);
}

/// If `a <= size * den` then the ceiling of `a / den` is at most `size`.
proof fn lemma_ceil_le(a: int, den: int, size: int)
    requires
        den >= 1,
        size >= 0,
        0 <= a <= size * den,
    ensures
        (a + den - 1) / den <= size,
{
    vstd::arithmetic::div_mod::lemma_fundamental_div_mod(a + den - 1, den);
    assert((a + den - 1) / den <= size) by (nonlinear_arith)
        requires
            den >= 1,
            size >= 0,
            0 <= a <= size * den,
            a + den - 1 == den * ((a + den - 1) / den) + (a + den - 1) % den,
            0 <= (a + den - 1) % den < den,
    ;
}

/// Whether some element of `failed` equals `e` by value.
fn contains_event(failed: &Vec<CompressedEvent>, e: &CompressedEvent) -> (r: bool)
    ensures
        r == exists|f: int| 0 <= f < failed@.len() && failed@[f].deep_view() == e.deep_view(),
{
    let mut f: usize = 0;
    while f < failed.len()
        invariant
            f <= failed@.len(),
            forall|k: int| 0 <= k < f ==> failed@[k].deep_view() != e.deep_view(),
        decreases failed@.len() - f,
    {
        if failed[f] == *e {
            return true;
        }
        f += 1;
    }
    false
}

/// The working set without the items whose event failed to render. At
/// least one item leaves: the set shrinks every retry round.
#[verifier::loop_isolation(false)]
fn prune_failed(
    items: Vec<(AvailableExperiencesPlugins, CompressedEvent)>,
    failed: &Vec<CompressedEvent>,
) -> (r: Vec<(AvailableExperiencesPlugins, CompressedEvent)>)
    requires
        failed@.len() > 0,
        exists|i: int|
            0 <= i < items@.len() && items@[i].1.deep_view() == failed@[0].deep_view(),
    ensures
        r@.len() < items@.len(),
{
    let ghost wi = choose|i: int|
        0 <= i < items@.len() && items@[i].1.deep_view() == failed@[0].deep_view();
    let mut out: Vec<(AvailableExperiencesPlugins, CompressedEvent)> = Vec::new();
    let mut k: usize = 0;
    let ghost mut skipped = false;
    while k < items.len()
        invariant
            k <= items@.len(),
            skipped ==> wi < k && out@.len() <= k - 1,
            !skipped ==> out@.len() <= k && wi >= k,
            0 <= wi < items@.len(),
            items@[wi].1.deep_view() == failed@[0].deep_view(),
        decreases items@.len() - k,
    {
        if contains_event(failed, &items[k].1) {
            proof {
                if k as int == wi {
                    skipped = true;
                }
            }
        } else {
            proof {
                if k == wi {
                    assert(exists|f: int|
                        0 <= f < failed@.len() && failed@[f].deep_view()
                            == items@[k as int].1.deep_view());
                    assert(false);
                }
            }
            out.push((items[k].0, items[k].1.clone()));
        }
        k += 1;
    }
    out
}

/// What the PNG encoder returns for given dimensions and RGBA bytes: a
/// function of its arguments alone.
pub uninterp spec fn png_of(width: nat, height: nat, rgba: Seq<u8>) -> Seq<u8>;

/// Relies on image's `PngEncoder` through `write_image` with the `Rgba8`
/// color type: the PNG encoding of the RGBA buffer, a deterministic
/// function of the dimensions and bytes. `write_image` panics unless the
/// buffer holds exactly `4 * width * height` bytes, so that much is
/// required. In this configuration the encoder fails only for a zero width
/// or height (everything else is a valid fixed parameter set and the `Vec`
/// sink cannot fail), so nonzero dimensions always encode.
#[verifier::external_body]
fn encode_png_rgba(width: u32, height: u32, rgba: &Vec<u8>) -> (r: Result<Vec<u8>, String>)
    requires
        rgba@.len() == 4 * (width as int) * (height as int),
    ensures
        r matches Ok(v) ==> v@ == png_of(width as nat, height as nat, rgba@),
        width > 0 && height > 0 ==> r is Ok,
{
    let mut out: Vec<u8> = Vec::new();
    let encoder = image::codecs::png::PngEncoder::new(&mut out);
    match image::ImageEncoder::write_image(
        encoder,
        rgba.as_slice(),
        width,
        height,
        image::ExtendedColorType::Rgba8,
    ) {
        Ok(()) => Ok(out),
        Err(e) => Err(e.to_string()),
    }
}

/// The full-record cover as an in-memory PNG: renders every event of the
/// record into a `size` by `size` canvas (absorbing every delegate
/// failure), converts the ARGB words to RGBA bytes, and encodes them.
pub fn entire_experience_cover<R: PluginRenderer>(
    renderer: &Renderer<R>,
    experience: &Experience,
    size: u32,
) -> (r: Result<Vec<u8>, String>)
    requires
        layout_fits_upto(item_count(experience.deep_view().events), size as nat),
        size as int * size as int <= usize::MAX,
    ensures
        r matches Ok(v) ==> exists|rgba: Seq<u8>|
            rgba.len() == 4 * (size as int) * (size as int) && v@ == png_of(
                size as nat,
                size as nat,
                rgba,
            ),
        size > 0 ==> r is Ok,
{
    let canvas = renderer.render_entire_experience(experience, size);
    proof {
        canvas.lemma_area();
    }
    let rgba = canvas.to_rgba_bytes();
    proof {
        assert(4 * ((size as int) * (size as int)) == 4 * (size as int) * (size as int))
            by (nonlinear_arith);
        assert(rgba@.len() == 4 * (size as int) * (size as int));
    }
    match encode_png_rgba(size, size, &rgba) {
        Ok(v) => {
            proof {
                assert(v@ == png_of(size as nat, size as nat, rgba@));
            }
            Ok(v)
        },
        Err(e) => Err(e),
    }
}

} // verus!