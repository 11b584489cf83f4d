//! The candidate colors a cover reads as.
//!
//! A cover is reduced to [`SAMPLE`] pixels square, its transparent pixels are
//! left out, and the rest are cut into at most [`BOXES`] boxes by a median
//! cut: all the pixels start in one box, and the box whose channels are
//! spread widest is repeatedly split at its median along that channel. Each
//! box then averages to one candidate, weighed by how many pixels it holds.
//!
//! The cut is done in place: the pixels live in one buffer, a box is a pair
//! of offsets into it, and splitting a box reorders only its own region, so
//! the boxes always tile the buffer exactly.

use vstd::prelude::*;
use vstd::seq_lib::*;

verus! {

/// The edge a cover is reduced to before it is cut.
pub const SAMPLE: u32 = 64;

/// How many candidates the cut produces at most.
pub const BOXES: usize = 16;

/// How opaque a pixel must be to have a color to contribute.
pub const MIN_ALPHA: u8 = 128;

/// A run of the pixel buffer: the pixels from `start` up to `end`.
#[derive(Debug, Clone, Copy, PartialEq, Eq, Structural)]
pub struct Region {
    pub start: usize,
    pub end: usize,
}

impl Region {
    /// How many pixels the region holds.
    pub fn len(self) -> (len: usize)
        requires
            self.start <= self.end,
        ensures
            len == self.end - self.start,
    {
        self.end - self.start
    }
}

/// The pixels of a region.
pub open spec fn pixels_of(pixels: Seq<[u8; 3]>, region: Region) -> Seq<[u8; 3]> {
    pixels.subrange(region.start as int, region.end as int)
}

/// The least value channel `c` takes over `s`; 255 over no pixels.
pub open spec fn low(s: Seq<[u8; 3]>, c: int) -> u8
    decreases s.len(),
{
    if s.len() == 0 {
        255
    } else {
        let rest = low(s.drop_last(), c);
        if s.last()[c] < rest {
            s.last()[c]
        } else {
            rest
        }
    }
}

/// The greatest value channel `c` takes over `s`; 0 over no pixels.
pub open spec fn high(s: Seq<[u8; 3]>, c: int) -> u8
    decreases s.len(),
{
    if s.len() == 0 {
        0
    } else {
        let rest = high(s.drop_last(), c);
        if s.last()[c] > rest {
            s.last()[c]
        } else {
            rest
        }
    }
}

/// How far channel `c` is spread over `s`.
pub open spec fn spread(s: Seq<[u8; 3]>, c: int) -> u8 {
    if high(s, c) >= low(s, c) {
        (high(s, c) - low(s, c)) as u8
    } else {
        0
    }
}

/// The channel spread widest over `s`, the later one on a tie, and its
/// spread.
pub open spec fn widest_spec(s: Seq<[u8; 3]>) -> (usize, u8) {
    let (red, green, blue) = (spread(s, 0), spread(s, 1), spread(s, 2));
    if blue >= red && blue >= green {
        (2, blue)
    } else if green >= red {
        (1, green)
    } else {
        (0, red)
    }
}

/// The sum of channel `c` over `s`.
pub open spec fn channel_sum(s: Seq<[u8; 3]>, c: int) -> nat
    decreases s.len(),
{
    if s.len() == 0 {
        0
    } else {
        channel_sum(s.drop_last(), c) + s.last()[c] as nat
    }
}

proof fn lemma_channel_sum_bound(s: Seq<[u8; 3]>, c: int)
    ensures
        channel_sum(s, c) <= 255 * s.len(),
    decreases s.len(),
{
    if s.len() > 0 {
        lemma_channel_sum_bound(s.drop_last(), c);
    }
}

/// The mean of each channel over `s`, rounded down; black over no pixels.
pub open spec fn average_spec(s: Seq<[u8; 3]>) -> [u8; 3] {
    let count = if s.len() == 0 { 1 } else { s.len() };
    [
        (channel_sum(s, 0) / count) as u8,
        (channel_sum(s, 1) / count) as u8,
        (channel_sum(s, 2) / count) as u8,
    ]
}

/// The channel spread widest over a region of the pixels, and its spread.
pub fn widest(pixels: &Vec<[u8; 3]>, region: Region) -> (widest: (usize, u8))
    requires
        region.start <= region.end <= pixels@.len(),
    ensures
        widest == widest_spec(pixels_of(pixels@, region)),
{
    let mut low_red: u8 = 255;
    let mut low_green: u8 = 255;
    let mut low_blue: u8 = 255;
    let mut high_red: u8 = 0;
    let mut high_green: u8 = 0;
    let mut high_blue: u8 = 0;
    let mut i = region.start;
    while i < region.end
        invariant
            region.start <= i <= region.end <= pixels@.len(),
            low_red == low(pixels@.subrange(region.start as int, i as int), 0),
            low_green == low(pixels@.subrange(region.start as int, i as int), 1),
            low_blue == low(pixels@.subrange(region.start as int, i as int), 2),
            high_red == high(pixels@.subrange(region.start as int, i as int), 0),
            high_green == high(pixels@.subrange(region.start as int, i as int), 1),
            high_blue == high(pixels@.subrange(region.start as int, i as int), 2),
        decreases region.end - i,
    {
        let pixel = pixels[i];
        proof {
            let done = pixels@.subrange(region.start as int, i + 1);
            assert(done.drop_last() =~= pixels@.subrange(region.start as int, i as int));
            assert(done.last() == pixel);
        }
        if pixel[0] < low_red {
            low_red = pixel[0];
        }
        if pixel[1] < low_green {
            low_green = pixel[1];
        }
        if pixel[2] < low_blue {
            low_blue = pixel[2];
        }
        if pixel[0] > high_red {
            high_red = pixel[0];
        }
        if pixel[1] > high_green {
            high_green = pixel[1];
        }
        if pixel[2] > high_blue {
            high_blue = pixel[2];
        }
        i += 1;
    }
    let red = high_red.saturating_sub(low_red);
    let green = high_green.saturating_sub(low_green);
    let blue = high_blue.saturating_sub(low_blue);
    if blue >= red && blue >= green {
        (2, blue)
    } else if green >= red {
        (1, green)
    } else {
        (0, red)
    }
}

/// The mean color of a region of the pixels.
pub fn average(pixels: &Vec<[u8; 3]>, region: Region) -> (color: [u8; 3])
    requires
        region.start <= region.end <= pixels@.len(),
        (region.end - region.start) * 255 <= u32::MAX,
    ensures
        color == average_spec(pixels_of(pixels@, region)),
{
    let mut red: u32 = 0;
    let mut green: u32 = 0;
    let mut blue: u32 = 0;
    let mut i = region.start;
    while i < region.end
        invariant
            region.start <= i <= region.end <= pixels@.len(),
            (region.end - region.start) * 255 <= u32::MAX,
            red == channel_sum(pixels@.subrange(region.start as int, i as int), 0),
            green == channel_sum(pixels@.subrange(region.start as int, i as int), 1),
            blue == channel_sum(pixels@.subrange(region.start as int, i as int), 2),
        decreases region.end - i,
    {
        let pixel = pixels[i];
        proof {
            let done = pixels@.subrange(region.start as int, i + 1);
            assert(done.drop_last() =~= pixels@.subrange(region.start as int, i as int));
            assert(done.last() == pixel);
            lemma_channel_sum_bound(done, 0);
            lemma_channel_sum_bound(done, 1);
            lemma_channel_sum_bound(done, 2);
            assert(done.len() * 255 <= u32::MAX) by (nonlinear_arith)
                requires
                    done.len() <= region.end - region.start,
                    (region.end - region.start) * 255 <= u32::MAX,
            ;
        }
        red = red + pixel[0] as u32;
        green = green + pixel[1] as u32;
        blue = blue + pixel[2] as u32;
        i += 1;
    }
    let ghost s = pixels_of(pixels@, region);
    proof {
        assert(pixels@.subrange(region.start as int, i as int) =~= s);
        lemma_channel_sum_bound(s, 0);
        lemma_channel_sum_bound(s, 1);
        lemma_channel_sum_bound(s, 2);
    }
    let count: u32 = if region.end == region.start { 1 } else { (region.end - region.start) as u32 };
    proof {
        let n = if s.len() == 0 { 1 } else { s.len() };
        assert(n == count);
        assert(channel_sum(s, 0) / n <= 255) by (nonlinear_arith)
            requires
                channel_sum(s, 0) <= 255 * s.len(),
                n >= 1,
                s.len() <= n,
        ;
        assert(channel_sum(s, 1) / n <= 255) by (nonlinear_arith)
            requires
                channel_sum(s, 1) <= 255 * s.len(),
                n >= 1,
                s.len() <= n,
        ;
        assert(channel_sum(s, 2) / n <= 255) by (nonlinear_arith)
            requires
                channel_sum(s, 2) <= 255 * s.len(),
                n >= 1,
                s.len() <= n,
        ;
    }
    [(red / count) as u8, (green / count) as u8, (blue / count) as u8]
}


/// Whether `boxes` tile the pixels `0..n` exactly: each box a run within the
/// buffer, no two overlapping, and every pixel in one of them.
pub open spec fn tiles(boxes: Seq<Region>, n: int) -> bool {
    &&& forall|i: int| 0 <= i < boxes.len() ==> #[trigger] boxes[i].start <= boxes[i].end <= n
    &&& forall|i: int, j: int|
        0 <= i < boxes.len() && 0 <= j < boxes.len() && i != j ==> #[trigger] boxes[i].end <= #[trigger] boxes[j].start
            || boxes[j].end <= boxes[i].start
    &&& forall|p: int| 0 <= p < n ==> #[trigger] covered(boxes, p)
}

/// Pixel `p` lies in one of `boxes`.
pub open spec fn covered(boxes: Seq<Region>, p: int) -> bool {
    exists|i: int| 0 <= i < boxes.len() && #[trigger] boxes[i].start <= p < boxes[i].end
}

/// Pixels all of one color have no spread on any channel.
pub proof fn lemma_flat_has_no_spread(s: Seq<[u8; 3]>, color: [u8; 3])
    requires
        forall|i: int| 0 <= i < s.len() ==> s[i] == color,
    ensures
        widest_spec(s).1 == 0,
{
    lemma_flat_bounds(s, color, 0);
    lemma_flat_bounds(s, color, 1);
    lemma_flat_bounds(s, color, 2);
}

proof fn lemma_flat_bounds(s: Seq<[u8; 3]>, color: [u8; 3], c: int)
    requires
        forall|i: int| 0 <= i < s.len() ==> s[i] == color,
    ensures
        s.len() > 0 ==> low(s, c) == color[c] && high(s, c) == color[c],
        s.len() == 0 ==> spread(s, c) == 0,
    decreases s.len(),
{
    if s.len() > 0 {
        lemma_flat_bounds(s.drop_last(), color, c);
    }
}

/// Among the first `n` boxes that hold more than one pixel, the one whose
/// channels are spread widest, the later one on a tie.
pub open spec fn widest_box(pixels: Seq<[u8; 3]>, boxes: Seq<Region>, n: int) -> Option<int>
    decreases n,
{
    if n <= 0 {
        None
    } else {
        let before = widest_box(pixels, boxes, n - 1);
        let region = boxes[n - 1];
        if region.end - region.start > 1 && match before {
            None => true,
            Some(b) => widest_spec(pixels_of(pixels, region)).1 >= widest_spec(pixels_of(pixels, boxes[b])).1,
        } {
            Some(n - 1)
        } else {
            before
        }
    }
}

proof fn lemma_widest_box(pixels: Seq<[u8; 3]>, boxes: Seq<Region>, n: int)
    ensures
        widest_box(pixels, boxes, n) matches Some(b) ==> 0 <= b < n && boxes[b].end - boxes[b].start > 1,
    decreases n,
{
    if n > 0 {
        lemma_widest_box(pixels, boxes, n - 1);
    }
}

/// Whether one of the first `count` boxes can still be split: the widest has
/// some spread to divide.
pub open spec fn splittable(pixels: Seq<[u8; 3]>, boxes: Seq<Region>, count: int) -> bool {
    match widest_box(pixels, boxes, count) {
        Some(b) => widest_spec(pixels_of(pixels, boxes[b])).1 > 0,
        None => false,
    }
}

/// `after` is `before` with the pixels of `region` reordered so that the one
/// at `at` has, on channel `c`, none greater before it and none smaller after.
pub open spec fn selected(before: Seq<[u8; 3]>, after: Seq<[u8; 3]>, region: Region, at: int, c: int) -> bool {
    &&& after.len() == before.len()
    &&& after.subrange(0, region.start as int) == before.subrange(0, region.start as int)
    &&& after.subrange(region.end as int, after.len() as int) == before.subrange(region.end as int, before.len() as int)
    &&& pixels_of(after, region).to_multiset() == pixels_of(before, region).to_multiset()
    &&& forall|i: int| region.start <= i < at ==> #[trigger] after[i][c] <= after[at][c]
    &&& forall|i: int| at < i < region.end ==> #[trigger] after[i][c] >= after[at][c]
}

/// `<[T]>::select_nth_unstable_by_key` from std, run on the pixels of
/// `region` with the key picking channel `c`. Its documentation says: the
/// region is reordered so that the pixel at offset `k` is where a sort by the
/// key would put it, with no greater key before it and no smaller one after
/// it; it panics when `k` is not within the region.
#[verifier::external_body]
fn select_by_channel(pixels: &mut Vec<[u8; 3]>, region: Region, k: usize, c: usize)
    requires
        region.start <= region.end <= old(pixels)@.len(),
        k < region.end - region.start,
        c < 3,
    ensures
        selected(old(pixels)@, final(pixels)@, region, region.start + k, c as int),
{
    pixels[region.start..region.end].select_nth_unstable_by_key(k, |pixel| pixel[c]);
}

proof fn lemma_selected_multiset(before: Seq<[u8; 3]>, after: Seq<[u8; 3]>, region: Region, at: int, c: int)
    requires
        region.start <= region.end <= before.len(),
        selected(before, after, region, at, c),
    ensures
        after.to_multiset() == before.to_multiset(),
{
    let (s, e) = (region.start as int, region.end as int);
    assert(before =~= before.subrange(0, s) + pixels_of(before, region) + before.subrange(e, before.len() as int));
    assert(after =~= after.subrange(0, s) + pixels_of(after, region) + after.subrange(e, after.len() as int));
    lemma_multiset_commutative(before.subrange(0, s), pixels_of(before, region));
    lemma_multiset_commutative(
        before.subrange(0, s) + pixels_of(before, region),
        before.subrange(e, before.len() as int),
    );
    lemma_multiset_commutative(after.subrange(0, s), pixels_of(after, region));
    lemma_multiset_commutative(after.subrange(0, s) + pixels_of(after, region), after.subrange(e, after.len() as int));
}

proof fn lemma_split_tiles(boxes: Seq<Region>, count: int, b: int, middle: usize, n: int)
    requires
        0 <= b < count < boxes.len(),
        tiles(boxes.take(count), n),
        boxes[b].start <= middle <= boxes[b].end,
    ensures
        tiles(
            boxes.update(b, Region { start: boxes[b].start, end: middle }).update(
                count,
                Region { start: middle, end: boxes[b].end },
            ).take(count + 1),
            n,
        ),
{
    let old_boxes = boxes.take(count);
    let region = boxes[b];
    let low = Region { start: region.start, end: middle };
    let high = Region { start: middle, end: region.end };
    let new_boxes = boxes.update(b, low).update(count, high).take(count + 1);
    assert(old_boxes[b] == region);
    assert forall|i: int| 0 <= i < new_boxes.len() implies #[trigger] new_boxes[i].start <= new_boxes[i].end <= n by {
        if i != b && i != count {
            assert(new_boxes[i] == old_boxes[i]);
        }
    }
    assert forall|i: int, j: int|
        0 <= i < new_boxes.len() && 0 <= j < new_boxes.len() && i != j implies #[trigger] new_boxes[i].end
        <= #[trigger] new_boxes[j].start || new_boxes[j].end <= new_boxes[i].start by {
        let oi = if i == count { b } else { i };
        let oj = if j == count { b } else { j };
        if oi != oj {
            assert(old_boxes[oi].end <= old_boxes[oj].start || old_boxes[oj].end <= old_boxes[oi].start);
        }
    }
    assert forall|p: int| 0 <= p < n implies #[trigger] covered(new_boxes, p) by {
        assert(covered(old_boxes, p));
        let i = choose|i: int| 0 <= i < old_boxes.len() && #[trigger] old_boxes[i].start <= p < old_boxes[i].end;
        if i == b {
            if p < middle {
                assert(new_boxes[b].start <= p < new_boxes[b].end);
            } else {
                assert(new_boxes[count].start <= p < new_boxes[count].end);
            }
        } else {
            assert(new_boxes[i].start <= p < new_boxes[i].end);
        }
    }
}

/// Splits the widest of the first `count` boxes at its median along its
/// widest channel: the box keeps the lower half and a new box at `count`
/// takes the upper. Answers whether it split, which it does not when no box
/// of more than one pixel has any spread.
pub fn split_widest(pixels: &mut Vec<[u8; 3]>, boxes: &mut [Region; BOXES], count: usize) -> (split: bool)
    requires
        1 <= count < BOXES,
        tiles(old(boxes)@.take(count as int), old(pixels)@.len() as int),
    ensures
        split == splittable(old(pixels)@, old(boxes)@, count as int),
        !split ==> final(pixels)@ == old(pixels)@ && final(boxes)@ == old(boxes)@,
        split ==> ({
            let b = widest_box(old(pixels)@, old(boxes)@, count as int)->0;
            let region = old(boxes)@[b];
            let middle = (region.start + (region.end - region.start) / 2) as usize;
            let c = widest_spec(pixels_of(old(pixels)@, region)).0;
            &&& final(boxes)@ == old(boxes)@.update(b, Region { start: region.start, end: middle }).update(
                count as int,
                Region { start: middle, end: region.end },
            )
            &&& selected(old(pixels)@, final(pixels)@, region, middle as int, c as int)
        }),
        split ==> tiles(final(boxes)@.take(count + 1), old(pixels)@.len() as int),
{
    let mut best: Option<(usize, usize, u8)> = None;
    let mut j: usize = 0;
    while j < count
        invariant
            j <= count < BOXES,
            tiles(boxes@.take(count as int), pixels@.len() as int),
            match best {
                Some((b, c, widest)) => widest_box(pixels@, boxes@, j as int) == Some(b as int) && (c, widest)
                    == widest_spec(pixels_of(pixels@, boxes@[b as int])) && b < j,
                None => widest_box(pixels@, boxes@, j as int) is None,
            },
        decreases count - j,
    {
        let region = boxes[j];
        proof {
            assert(boxes@.take(count as int)[j as int] == region);
        }
        if region.end - region.start > 1 {
            let (c, widest) = widest(pixels, region);
            let wider = match best {
                None => true,
                Some((_, _, held)) => widest >= held,
            };
            if wider {
                best = Some((j, c, widest));
            }
        }
        j += 1;
    }
    match best {
        Some((b, c, widest)) => {
            if widest == 0 {
                return false;
            }
            let region = boxes[b];
            proof {
                assert(boxes@.take(count as int)[b as int] == region);
            }
            let half = (region.end - region.start) / 2;
            let middle = region.start + half;
            let ghost before = pixels@;
            select_by_channel(pixels, region, half, c);
            proof {
                lemma_split_tiles(boxes@, count as int, b as int, middle, before.len() as int);
            }
            boxes[b] = Region { start: region.start, end: middle };
            boxes[count] = Region { start: middle, end: region.end };
            true
        },
        None => false,
    }
}

/// One round of the cut: the widest of the first `count` boxes split at its
/// median along its widest channel, the box keeping the lower half and a new
/// box at `count` taking the upper, as [`split_widest`] does.
pub open spec fn split_step(
    before: Seq<[u8; 3]>,
    boxes: Seq<Region>,
    count: int,
    after: Seq<[u8; 3]>,
    boxes_after: Seq<Region>,
) -> bool {
    &&& splittable(before, boxes, count)
    &&& {
        let b = widest_box(before, boxes, count)->0;
        let region = boxes[b];
        let middle = (region.start + (region.end - region.start) / 2) as usize;
        let c = widest_spec(pixels_of(before, region)).0;
        &&& boxes_after == boxes.update(b, Region { start: region.start, end: middle }).update(
            count,
            Region { start: middle, end: region.end },
        )
        &&& selected(before, after, region, middle as int, c as int)
    }
}

/// The boxes the cut starts from: one box of all `n` pixels, the rest empty.
pub open spec fn first_boxes(n: nat) -> Seq<Region> {
    Seq::new(BOXES as nat, |i: int| if i == 0 { Region { start: 0, end: n as usize } } else { Region { start: 0, end: 0 } })
}

/// Whether `rounds` is the cut of `pixels` round by round: the first holds
/// the pixels as given in one box, and each next one is a [`split_step`] of
/// the one before.
pub open spec fn cut_rounds(pixels: Seq<[u8; 3]>, rounds: Seq<(Seq<[u8; 3]>, Seq<Region>)>) -> bool
    decreases rounds.len(),
{
    if rounds.len() == 0 {
        false
    } else if rounds.len() == 1 {
        rounds[0] == (pixels, first_boxes(pixels.len()))
    } else {
        let n = rounds.len() - 1;
        &&& cut_rounds(pixels, rounds.drop_last())
        &&& split_step(rounds[n - 1].0, rounds[n - 1].1, n, rounds[n].0, rounds[n].1)
    }
}

/// Cuts the pixels into at most [`BOXES`] boxes: starting from one box of
/// them all, [`split_widest`] until there are [`BOXES`] boxes or none can be
/// split. Answers the boxes and how many of them are in use; the pixels end
/// reordered, each box's own in its region.
pub fn median_cut(pixels: &mut Vec<[u8; 3]>) -> (cut: ([Region; BOXES], usize))
    ensures
        1 <= cut.1 <= BOXES,
        final(pixels)@.len() == old(pixels)@.len(),
        final(pixels)@.to_multiset() == old(pixels)@.to_multiset(),
        tiles(cut.0@.take(cut.1 as int), old(pixels)@.len() as int),
        old(pixels)@.len() > 0 ==> forall|i: int| 0 <= i < cut.1 ==> #[trigger] cut.0@[i].start < cut.0@[i].end,
        cut.1 < BOXES ==> !splittable(final(pixels)@, cut.0@, cut.1 as int),
        widest_spec(old(pixels)@).1 == 0 ==> cut.1 == 1,
        exists|rounds: Seq<(Seq<[u8; 3]>, Seq<Region>)>|
            #[trigger] cut_rounds(old(pixels)@, rounds) && rounds.len() == cut.1 && rounds.last() == (
                final(pixels)@,
                cut.0@,
            ),
{
    let n = pixels.len();
    let mut boxes = [Region { start: 0, end: 0 }; 16];
    boxes[0] = Region { start: 0, end: n };
    let mut count: usize = 1;
    let ghost initial = pixels@;
    let ghost mut rounds: Seq<(Seq<[u8; 3]>, Seq<Region>)> = seq![(pixels@, boxes@)];
    proof {
        assert(boxes@ =~= first_boxes(n as nat));
        assert(cut_rounds(initial, rounds));
        assert(pixels_of(initial, boxes@[0]) =~= initial);
        let first = boxes@.take(1);
        assert(first[0] == Region { start: 0, end: n });
        assert forall|p: int| 0 <= p < n implies #[trigger] covered(first, p) by {
            assert(first[0].start <= p < first[0].end);
        }
    }
    while count < BOXES
        invariant_except_break
            1 <= count <= BOXES,
            count == 1 ==> pixels@ == initial && boxes@[0] == (Region { start: 0, end: n }),
            widest_spec(initial).1 == 0 ==> count == 1,
            pixels@.len() == n,
            pixels@.to_multiset() == initial.to_multiset(),
            tiles(boxes@.take(count as int), n as int),
            n > 0 ==> forall|i: int| 0 <= i < count ==> #[trigger] boxes@[i].start < boxes@[i].end,
            cut_rounds(initial, rounds),
            rounds.len() == count,
            rounds.last() == (pixels@, boxes@),
        ensures
            cut_rounds(initial, rounds),
            rounds.len() == count,
            rounds.last() == (pixels@, boxes@),
            1 <= count <= BOXES,
            pixels@.len() == n,
            pixels@.to_multiset() == initial.to_multiset(),
            tiles(boxes@.take(count as int), n as int),
            n > 0 ==> forall|i: int| 0 <= i < count ==> #[trigger] boxes@[i].start < boxes@[i].end,
            count < BOXES ==> !splittable(pixels@, boxes@, count as int),
            widest_spec(initial).1 == 0 ==> count == 1,
        decreases BOXES - count,
    {
        let ghost before = pixels@;
        let ghost boxes_before = boxes@;
        if !split_widest(pixels, &mut boxes, count) {
            break;
        }
        proof {
            lemma_widest_box(before, boxes_before, count as int);
            let b = widest_box(before, boxes_before, count as int)->0;
            if count == 1 {
                assert(pixels_of(before, boxes_before[0]) =~= initial);
            }
            let region = boxes_before[b];
            let c = widest_spec(pixels_of(before, region)).0;
            let middle = region.start + (region.end - region.start) / 2;
            assert(boxes_before.take(count as int)[b] == region);
            assert(boxes_before.take(count as int)[b].start <= boxes_before.take(count as int)[b].end <= n);
            lemma_selected_multiset(before, pixels@, region, middle, c as int);
            assert forall|i: int| 0 <= i < count + 1 implies #[trigger] boxes@[i].start < boxes@[i].end by {
                if i != b && i != count {
                    assert(boxes@[i] == boxes_before[i]);
                }
            }
            let next = rounds.push((pixels@, boxes@));
            assert(next.drop_last() =~= rounds);
            assert(split_step(before, boxes_before, count as int, pixels@, boxes@));
            rounds = next;
        }
        count += 1;
    }
    (boxes, count)
}


/// The colors of the pixels in RGBA bytes that are opaque enough to count,
/// in order.
pub open spec fn opaque_spec(rgba: Seq<u8>) -> Seq<[u8; 3]>
    decreases rgba.len(),
{
    if rgba.len() < 4 {
        Seq::empty()
    } else {
        let rest = opaque_spec(rgba.skip(4));
        if rgba[3] >= MIN_ALPHA {
            seq![[rgba[0], rgba[1], rgba[2]]] + rest
        } else {
            rest
        }
    }
}

/// The colors of the pixels opaque enough to count: a pixel with less alpha
/// than [`MIN_ALPHA`] has no color to contribute, whatever its channels hold.
pub fn opaque_pixels(rgba: &Vec<u8>) -> (colors: Vec<[u8; 3]>)
    ensures
        colors@ == opaque_spec(rgba@),
{
    let mut colors: Vec<[u8; 3]> = Vec::new();
    let mut at: usize = 0;
    proof {
        assert(rgba@.skip(0) =~= rgba@);
    }
    while rgba.len() - at >= 4
        invariant
            at <= rgba@.len(),
            colors@ + opaque_spec(rgba@.skip(at as int)) == opaque_spec(rgba@),
        decreases rgba@.len() - at,
    {
        let ghost rest = rgba@.skip(at as int);
        proof {
            assert(rest.skip(4) =~= rgba@.skip(at + 4));
        }
        if rgba[at + 3] >= MIN_ALPHA {
            let color = [rgba[at], rgba[at + 1], rgba[at + 2]];
            proof {
                assert(color == [rest[0], rest[1], rest[2]]);
                assert(colors@.push(color) + opaque_spec(rest.skip(4)) =~= colors@ + (seq![color] + opaque_spec(
                    rest.skip(4),
                )));
            }
            colors.push(color);
        }
        at += 4;
    }
    proof {
        assert(colors@ + opaque_spec(rgba@.skip(at as int)) =~= colors@);
    }
    colors
}

/// What `image::imageops::resize` with the triangle filter makes of an image
/// of `width` by `height` pixels with these RGBA bytes, reduced to `edge`
/// pixels square: the RGBA bytes of the reduction.
pub uninterp spec fn resized(width: u32, height: u32, rgba: Seq<u8>, edge: u32) -> Seq<u8>;

/// `image::imageops::resize` with `FilterType::Triangle`, on the image the
/// bytes make. Claimed: the result is a function of its arguments, named
/// `resized`, and holds `edge` by `edge` pixels of four bytes, as the
/// function's documentation gives; what each pixel holds is not stated.
#[verifier::external_body]
fn resize_square(width: u32, height: u32, rgba: Vec<u8>, edge: u32) -> (reduced: Vec<u8>)
    requires
        rgba@.len() == width * height * 4,
    ensures
        reduced@ == resized(width, height, rgba@, edge),
        reduced@.len() == edge * edge * 4,
{
    let image = image::RgbaImage::from_raw(width, height, rgba).unwrap();
    image::imageops::resize(&image, edge, edge, image::imageops::FilterType::Triangle).into_raw()
}

/// The pixels a cover is cut from: the cover reduced to [`SAMPLE`] pixels
/// square, without the pixels too transparent to count.
pub fn cover_sample(width: u32, height: u32, rgba: Vec<u8>) -> (pixels: Vec<[u8; 3]>)
    requires
        rgba@.len() == width * height * 4,
    ensures
        pixels@ == opaque_spec(resized(width, height, rgba@, SAMPLE)),
        pixels@.len() <= SAMPLE * SAMPLE,
{
    let reduced = resize_square(width, height, rgba, SAMPLE);
    let pixels = opaque_pixels(&reduced);
    proof {
        lemma_opaque_len(reduced@);
    }
    pixels
}

proof fn lemma_opaque_len(rgba: Seq<u8>)
    ensures
        opaque_spec(rgba).len() <= rgba.len() / 4,
    decreases rgba.len(),
{
    if rgba.len() >= 4 {
        lemma_opaque_len(rgba.skip(4));
    }
}

} // verus!
