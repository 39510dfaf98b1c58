//! The fixed partition of a canvas among render workers.
//!
//! A canvas of `width * height` pixels is numbered row by row: the pixel in
//! column `x` of row `y` has offset `y * width + x`. With `workers` workers,
//! the pixel at offset `o` belongs to worker `o % workers` and is the
//! `o / workers`-th pixel of that worker. Every worker gets the same number
//! of pixels, so the worker count has to divide the pixel count.

use vstd::prelude::*;
use vstd::arithmetic::div_mod::*;
use vstd::arithmetic::mul::*;

verus! {

/// The worker that renders the pixel at `offset`.
pub open spec fn owner_of(offset: int, workers: int) -> int {
    offset % workers
}

/// The place of the pixel at `offset` in its worker's buffer.
pub open spec fn slot_of(offset: int, workers: int) -> int {
    offset / workers
}

/// The offset of the pixel that worker `worker` keeps in place `slot`.
pub open spec fn offset_at(worker: int, slot: int, workers: int) -> int {
    slot * workers + worker
}

/// The shape of a partition: the canvas and the number of workers.
pub struct Split {
    pub width: nat,
    pub height: nat,
    pub workers: nat,
}

impl Split {
    /// Number of pixels of the canvas.
    pub open spec fn pixels(self) -> nat {
        self.width * self.height
    }

    /// There is a worker, and the workers share the pixels evenly.
    pub open spec fn even(self) -> bool {
        self.workers > 0 && self.pixels() % self.workers == 0
    }

    /// Number of pixels that each worker renders.
    pub open spec fn share(self) -> nat {
        self.pixels() / self.workers
    }

    /// Column and row of the pixel at `offset`.
    pub open spec fn coords(self, offset: int) -> (int, int) {
        (offset % (self.width as int), offset / (self.width as int))
    }
}

/// A canvas together with a worker count that divides its pixel count.
#[derive(Clone, Copy, Debug)]
pub struct Partition {
    width: usize,
    height: usize,
    workers: usize,
}

impl View for Partition {
    type V = Split;

    closed spec fn view(&self) -> Split {
        Split { width: self.width as nat, height: self.height as nat, workers: self.workers as nat }
    }
}

impl Partition {
    #[verifier::type_invariant]
    spec fn well_formed(self) -> bool {
        self@.even() && self@.pixels() <= usize::MAX
    }

    /// Partitions a `width` by `height` canvas among `workers` workers.
    /// There is no partition without a worker, when the workers cannot share
    /// the pixels evenly, or when the pixel count is beyond what an offset
    /// can hold.
    pub fn new(width: usize, height: usize, workers: usize) -> (made: Option<Partition>)
        ensures
            made is Some <==> (Split {
                width: width as nat,
                height: height as nat,
                workers: workers as nat,
            }).even() && width * height <= usize::MAX,
            made matches Some(p) ==> p@ == (Split {
                width: width as nat,
                height: height as nat,
                workers: workers as nat,
            }),
    {
        if workers == 0 {
            return None;
        }
        match width.checked_mul(height) {
            None => None,
            Some(pixels) => {
                if pixels % workers == 0 {
                    Some(Partition { width, height, workers })
                } else {
                    None
                }
            },
        }
    }

    pub fn width(&self) -> (width: usize)
        ensures
            width == self@.width,
    {
        self.width
    }

    pub fn height(&self) -> (height: usize)
        ensures
            height == self@.height,
    {
        self.height
    }

    pub fn workers(&self) -> (workers: usize)
        ensures
            workers == self@.workers,
            workers > 0,
    {
        proof {
            use_type_invariant(self);
        }
        self.workers
    }

    /// Number of pixels of the canvas.
    pub fn pixels(&self) -> (pixels: usize)
        ensures
            pixels == self@.pixels(),
    {
        proof {
            use_type_invariant(self);
        }
        self.width * self.height
    }

    /// Number of pixels that each worker renders.
    pub fn share(&self) -> (share: usize)
        ensures
            share == self@.share(),
            share * self@.workers == self@.pixels(),
    {
        proof {
            use_type_invariant(self);
            lemma_fundamental_div_mod(self@.pixels() as int, self@.workers as int);
            lemma_mul_is_commutative(self@.share() as int, self@.workers as int);
        }
        self.width * self.height / self.workers
    }

    /// The worker that renders the pixel at `offset`.
    pub fn owner(&self, offset: usize) -> (worker: usize)
        ensures
            worker == owner_of(offset as int, self@.workers as int),
            worker < self@.workers,
    {
        proof {
            use_type_invariant(self);
        }
        offset % self.workers
    }

    /// The place of the pixel at `offset` in its worker's buffer.
    pub fn slot(&self, offset: usize) -> (slot: usize)
        ensures
            slot == slot_of(offset as int, self@.workers as int),
            offset < self@.pixels() ==> slot < self@.share(),
    {
        proof {
            use_type_invariant(self);
            if offset < self@.pixels() {
                lemma_slot_in_share(self@, offset as int);
            }
        }
        offset / self.workers
    }

    /// The offset of the pixel that worker `worker` keeps in place `slot`,
    /// if there is such a worker and it has such a place.
    pub fn offset(&self, worker: usize, slot: usize) -> (offset: Option<usize>)
        ensures
            offset is Some <==> worker < self@.workers && slot < self@.share(),
            offset matches Some(o) ==> o == offset_at(worker as int, slot as int, self@.workers as int)
                && o < self@.pixels(),
    {
        let share = self.share();
        if worker < self.workers && slot < share {
            proof {
                use_type_invariant(self);
                lemma_offset_in_canvas(self@, worker as int, slot as int);
            }
            Some(slot * self.workers + worker)
        } else {
            None
        }
    }

    /// Column and row of the pixel at `offset`, if the canvas has such a
    /// pixel.
    pub fn pixel(&self, offset: usize) -> (at: Option<(usize, usize)>)
        ensures
            at is Some <==> offset < self@.pixels(),
            at matches Some((x, y)) ==> (x as int, y as int) == self@.coords(offset as int)
                && x < self@.width && y < self@.height && y * self@.width + x == offset,
    {
        proof {
            use_type_invariant(self);
        }
        if offset < self.width * self.height {
            proof {
                lemma_coords_in_canvas(self@, offset as int);
            }
            Some((offset % self.width, offset / self.width))
        } else {
            None
        }
    }

    /// The pixels that worker `worker` renders, as column and row, in the
    /// order of its buffer, if there is such a worker.
    pub fn assigned(&self, worker: usize) -> (pixels: Option<Vec<(usize, usize)>>)
        ensures
            pixels is Some <==> worker < self@.workers,
            pixels matches Some(list) ==> list@.len() == self@.share() && forall|slot: int|
                0 <= slot < list@.len() ==> (list@[slot].0 as int, list@[slot].1 as int)
                    == self@.coords(offset_at(worker as int, slot, self@.workers as int)),
    {
        if worker >= self.workers {
            return None;
        }
        let share = self.share();
        let mut list: Vec<(usize, usize)> = Vec::new();
        let mut slot: usize = 0;
        proof {
            use_type_invariant(self);
        }
        while slot < share
            invariant
                slot <= share,
                share == self@.share(),
                worker < self@.workers,
                self@.even(),
                self@.pixels() <= usize::MAX,
                list@.len() == slot,
                forall|s: int|
                    0 <= s < list@.len() ==> (list@[s].0 as int, list@[s].1 as int)
                        == self@.coords(offset_at(worker as int, s, self@.workers as int)),
            decreases share - slot,
        {
            proof {
                use_type_invariant(self);
                lemma_offset_in_canvas(self@, worker as int, slot as int);
                lemma_coords_in_canvas(
                    self@,
                    offset_at(worker as int, slot as int, self@.workers as int),
                );
            }
            let offset = slot * self.workers + worker;
            list.push((offset % self.width, offset / self.width));
            slot = slot + 1;
        }
        Some(list)
    }

    /// Folds the workers' buffers back into one frame in row order. There is
    /// no frame unless there is one buffer for each worker and each buffer
    /// holds a worker's share of pixels.
    pub fn interleave<T: Copy>(&self, parts: &Vec<Vec<T>>) -> (frame: Option<Vec<T>>)
        ensures
            frame is Some <==> parts@.len() == self@.workers && rectangular(
                rows(parts@),
                self@.share(),
            ),
            frame matches Some(pixels) ==> pixels@ == weave(rows(parts@)) && pixels@.len()
                == self@.pixels(),
    {
        if parts.len() != self.workers {
            return None;
        }
        let share = self.share();
        let mut checked: usize = 0;
        while checked < parts.len()
            invariant
                checked <= parts@.len(),
                share == self@.share(),
                forall|w: int| 0 <= w < checked ==> (#[trigger] parts@[w])@.len() == share,
            decreases parts@.len() - checked,
        {
            if parts[checked].len() != share {
                proof {
                    assert(rows(parts@)[checked as int].len() != self@.share());
                    assert(!rectangular(rows(parts@), self@.share()));
                }
                return None;
            }
            checked = checked + 1;
        }
        let total = self.pixels();
        let ghost woven = weave(rows(parts@));
        proof {
            use_type_invariant(self);
            assert forall|w: int| 0 <= w < rows(parts@).len() implies (#[trigger] rows(
                parts@,
            )[w]).len() == share by {
                assert(parts@[w]@.len() == share);
            }
            assert(rows(parts@)[0].len() == share);
            lemma_mul_is_commutative(share as int, self@.workers as int);
        }
        let mut pixels: Vec<T> = Vec::new();
        let mut offset: usize = 0;
        while offset < total
            invariant
                offset <= total,
                total == self@.pixels(),
                share == self@.share(),
                self@.even(),
                parts@.len() == self@.workers,
                rectangular(rows(parts@), share as nat),
                woven == weave(rows(parts@)),
                woven.len() == total,
                pixels@.len() == offset,
                forall|o: int| 0 <= o < offset ==> pixels@[o] == woven[o],
            decreases total - offset,
        {
            proof {
                lemma_slot_in_share(self@, offset as int);
                lemma_mod_bound(offset as int, self@.workers as int);
            }
            let worker = offset % self.workers;
            let slot = offset / self.workers;
            assert(rows(parts@)[worker as int] == parts@[worker as int]@);
            pixels.push(parts[worker][slot]);
            offset = offset + 1;
        }
        assert(pixels@ =~= woven);
        Some(pixels)
    }
}

/// The buffers as sequences of pixels.
pub open spec fn rows<T>(parts: Seq<Vec<T>>) -> Seq<Seq<T>> {
    parts.map_values(|part: Vec<T>| part@)
}

/// Every buffer holds `share` pixels.
pub open spec fn rectangular<T>(parts: Seq<Seq<T>>, share: nat) -> bool {
    forall|w: int| 0 <= w < parts.len() ==> (#[trigger] parts[w]).len() == share
}

/// The frame that the workers' buffers make up: the pixel at offset `o`
/// comes from place `o / workers` of the buffer of worker `o % workers`.
pub open spec fn weave<T>(parts: Seq<Seq<T>>) -> Seq<T> {
    if parts.len() == 0 {
        Seq::empty()
    } else {
        Seq::new(
            parts.len() * parts[0].len(),
            |o: int| parts[owner_of(o, parts.len() as int)][slot_of(o, parts.len() as int)],
        )
    }
}

/// The buffer that worker `worker` of `workers` fills from a frame: its
/// place `s` holds the pixel at offset `s * workers + worker`.
pub open spec fn deal<T>(frame: Seq<T>, workers: int, worker: int) -> Seq<T> {
    Seq::new(
        (frame.len() / workers as nat) as nat,
        |slot: int| frame[offset_at(worker, slot, workers)],
    )
}

/// A pixel of the canvas has a place in the buffer of the worker that owns
/// it.
pub proof fn lemma_slot_in_share(split: Split, offset: int)
    requires
        split.even(),
        0 <= offset < split.pixels(),
    ensures
        0 <= slot_of(offset, split.workers as int) < split.share(),
{
    let w = split.workers as int;
    let share = split.share() as int;
    lemma_fundamental_div_mod(split.pixels() as int, w);
    lemma_fundamental_div_mod(offset, w);
    lemma_mod_bound(offset, w);
    let slot = offset / w;
    if slot >= share {
        lemma_mul_inequality(share, slot, w);
        lemma_mul_is_commutative(slot, w);
        lemma_mul_is_commutative(share, w);
    }
    if slot < 0 {
        lemma_mul_inequality(slot, -1, w);
        lemma_mul_is_commutative(slot, w);
    }
}

/// Every place of every worker holds a pixel of the canvas.
pub proof fn lemma_offset_in_canvas(split: Split, worker: int, slot: int)
    requires
        split.even(),
        0 <= worker < split.workers,
        0 <= slot < split.share(),
    ensures
        0 <= offset_at(worker, slot, split.workers as int) < split.pixels(),
{
    let w = split.workers as int;
    let share = split.share() as int;
    lemma_fundamental_div_mod(split.pixels() as int, w);
    lemma_mul_inequality(slot + 1, share, w);
    lemma_mul_is_distributive_add_other_way(w, slot, 1);
    lemma_mul_is_commutative(share, w);
    lemma_mul_nonnegative(slot, w);
}

/// The column and row of a pixel lie on the canvas and give its offset back.
pub proof fn lemma_coords_in_canvas(split: Split, offset: int)
    requires
        0 <= offset < split.pixels(),
    ensures
        0 <= split.coords(offset).0 < split.width,
        0 <= split.coords(offset).1 < split.height,
        split.coords(offset).1 * split.width + split.coords(offset).0 == offset,
{
    let width = split.width as int;
    let height = split.height as int;
    if width == 0 {
        lemma_mul_basics(height);
    }
    lemma_fundamental_div_mod(offset, width);
    lemma_mod_bound(offset, width);
    let y = offset / width;
    lemma_mul_is_commutative(y, width);
    if y >= height {
        lemma_mul_inequality(height, y, width);
        lemma_mul_is_commutative(height, width);
    }
    if y < 0 {
        lemma_mul_inequality(y, -1, width);
    }
}

/// Owner and place name a pixel: putting them together gives its offset
/// back.
pub proof fn lemma_offset_of_owner_and_slot(offset: int, workers: int)
    requires
        workers > 0,
        0 <= offset,
    ensures
        0 <= owner_of(offset, workers) < workers,
        0 <= slot_of(offset, workers),
        offset_at(owner_of(offset, workers), slot_of(offset, workers), workers) == offset,
{
    lemma_fundamental_div_mod(offset, workers);
    lemma_mod_bound(offset, workers);
    lemma_mul_is_commutative(offset / workers, workers);
    lemma_div_pos_is_pos(offset, workers);
}

/// The pixel in place `slot` of worker `worker` is owned by that worker and
/// sits in that place.
pub proof fn lemma_owner_and_slot_of_offset(worker: int, slot: int, workers: int)
    requires
        0 <= worker < workers,
        0 <= slot,
    ensures
        owner_of(offset_at(worker, slot, workers), workers) == worker,
        slot_of(offset_at(worker, slot, workers), workers) == slot,
{
    lemma_fundamental_div_mod_converse(offset_at(worker, slot, workers), workers, slot, worker);
}

/// No pixel is rendered twice: two places of two workers hold the same pixel
/// only if they are the same place of the same worker.
pub proof fn lemma_places_disjoint(
    worker: int,
    slot: int,
    other_worker: int,
    other_slot: int,
    workers: int,
)
    requires
        0 <= worker < workers,
        0 <= other_worker < workers,
        0 <= slot,
        0 <= other_slot,
        offset_at(worker, slot, workers) == offset_at(other_worker, other_slot, workers),
    ensures
        worker == other_worker,
        slot == other_slot,
{
    lemma_owner_and_slot_of_offset(worker, slot, workers);
    lemma_owner_and_slot_of_offset(other_worker, other_slot, workers);
}

/// Every pixel is rendered: each pixel of an evenly split canvas sits in a
/// place of a worker.
pub proof fn lemma_every_pixel_assigned(split: Split, offset: int)
    requires
        split.even(),
        0 <= offset < split.pixels(),
    ensures
        exists|worker: int, slot: int|
            0 <= worker < split.workers && 0 <= slot < split.share() && #[trigger] offset_at(
                worker,
                slot,
                split.workers as int,
            ) == offset,
{
    let workers = split.workers as int;
    lemma_offset_of_owner_and_slot(offset, workers);
    lemma_slot_in_share(split, offset);
    assert(offset_at(owner_of(offset, workers), slot_of(offset, workers), workers) == offset);
}

/// Where each worker fills each place of its buffer with what `shade` gives
/// for the pixel of that place, the folded frame holds at each offset what
/// `shade` gives for the pixel at that offset: the frame is in row order.
pub proof fn lemma_weave_of_rendered_parts<T>(
    split: Split,
    parts: Seq<Seq<T>>,
    shade: spec_fn(int) -> T,
)
    requires
        split.even(),
        parts.len() == split.workers,
        rectangular(parts, split.share()),
        forall|worker: int, slot: int|
            0 <= worker < split.workers && 0 <= slot < split.share() ==> #[trigger] parts[worker][slot]
                == shade(offset_at(worker, slot, split.workers as int)),
    ensures
        weave(parts).len() == split.pixels(),
        forall|offset: int| 0 <= offset < split.pixels() ==> weave(parts)[offset] == shade(offset),
{
    let workers = split.workers as int;
    assert(parts[0].len() == split.share());
    lemma_fundamental_div_mod(split.pixels() as int, workers);
    assert forall|offset: int| 0 <= offset < split.pixels() implies weave(parts)[offset] == shade(
        offset,
    ) by {
        lemma_offset_of_owner_and_slot(offset, workers);
        lemma_slot_in_share(split, offset);
        let worker = owner_of(offset, workers);
        let slot = slot_of(offset, workers);
        assert(parts[worker][slot] == shade(offset_at(worker, slot, workers)));
    }
}

/// Dealing a frame out to the workers and folding their buffers back gives
/// the frame, pixel for pixel in row order.
pub proof fn lemma_weave_of_deal<T>(frame: Seq<T>, workers: int)
    requires
        workers > 0,
        frame.len() % (workers as nat) == 0,
    ensures
        weave(Seq::new(workers as nat, |worker: int| deal(frame, workers, worker))) == frame,
{
    let share = frame.len() as int / workers;
    let parts = Seq::new(workers as nat, |worker: int| deal(frame, workers, worker));
    lemma_fundamental_div_mod(frame.len() as int, workers);
    lemma_div_pos_is_pos(frame.len() as int, workers);
    assert(parts[0].len() == share);
    assert(weave(parts).len() == frame.len());
    assert forall|o: int| 0 <= o < frame.len() implies weave(parts)[o] == frame[o] by {
        lemma_offset_of_owner_and_slot(o, workers);
        let worker = owner_of(o, workers);
        let slot = slot_of(o, workers);
        if slot >= share {
            lemma_mul_inequality(share, slot, workers);
        }
        assert(parts[worker] == deal(frame, workers, worker));
        assert(deal(frame, workers, worker)[slot] == frame[offset_at(worker, slot, workers)]);
    }
    assert(weave(parts) =~= frame);
}

/// Folding the workers' buffers into a frame and dealing it out again gives
/// each worker its own buffer back.
pub proof fn lemma_deal_of_weave<T>(parts: Seq<Seq<T>>, share: nat, worker: int)
    requires
        rectangular(parts, share),
        0 <= worker < parts.len(),
    ensures
        deal(weave(parts), parts.len() as int, worker) == parts[worker],
{
    let workers = parts.len() as int;
    let frame = weave(parts);
    assert(parts[0].len() == share);
    assert(frame.len() == workers * share);
    lemma_div_by_multiple(share as int, workers);
    lemma_mul_is_commutative(share as int, workers);
    let dealt = deal(frame, workers, worker);
    assert(dealt.len() == share);
    assert(parts[worker].len() == share);
    assert forall|slot: int| 0 <= slot < share implies dealt[slot] == parts[worker][slot] by {
        lemma_owner_and_slot_of_offset(worker, slot, workers);
        let o = offset_at(worker, slot, workers);
        lemma_mul_inequality(slot + 1, share as int, workers);
        lemma_mul_is_distributive_add_other_way(workers, slot, 1);
        lemma_mul_nonnegative(slot, workers);
        assert(0 <= o < frame.len());
    }
    assert(dealt =~= parts[worker]);
}

} // verus!
