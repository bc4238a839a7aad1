//! Mel spectrograms, and the looped one that lets a note sound on.
//!
//! A spectrogram is a two-dimensional array of `ndarray` with a row per mel band and a
//! column per frame; a cell is the bit pattern of a 32-bit float.

use crate::interp::{interp1d, Place};
use crate::reflect::reflect_index_mel;
use vstd::prelude::*;

verus! {

/// A mel spectrogram, bands by frames, held in `ndarray`'s `Array2`.
#[verifier::external_body]
pub struct MelGrid {
    cells: ndarray::Array2<u32>,
}

/// What a spectrogram holds: its bands, each a sequence of cells.
pub uninterp spec fn grid_bands(grid: MelGrid) -> Seq<Seq<u32>>;

/// The number of frames of a spectrogram, which it has even without a band.
pub uninterp spec fn grid_frames(grid: MelGrid) -> nat;

/// An array of this shape can be allocated.
pub open spec fn shape_fits(bands: int, frames: int) -> bool {
    let b = if bands == 0 {
        1
    } else {
        bands
    };
    let f = if frames == 0 {
        1
    } else {
        frames
    };
    b * f * 4 <= isize::MAX
}

/// An array of this shape can be allocated.
pub fn can_hold(bands: usize, frames: usize) -> (r: bool)
    ensures
        r == shape_fits(bands as int, frames as int),
{
    let b: usize = if bands == 0 {
        1
    } else {
        bands
    };
    let f: usize = if frames == 0 {
        1
    } else {
        frames
    };
    let most: usize = isize::MAX as usize / 4;
    proof {
        assert(b * f * 4 == (b * f) * 4);
    }
    match b.checked_mul(f) {
        Some(cells) => cells <= most,
        None => false,
    }
}

impl MelGrid {
    /// Every band has as many cells as there are frames.
    pub open spec fn well_formed(self) -> bool {
        &&& forall|m: int|
            0 <= m < grid_bands(self).len() ==> (#[trigger] grid_bands(self)[m]).len()
                == grid_frames(self)
        &&& shape_fits(grid_bands(self).len() as int, grid_frames(self) as int)
    }

    /// The cell of band `m` and frame `t`.
    pub open spec fn cell_at(self, m: int, t: int) -> u32 {
        grid_bands(self)[m][t]
    }

    /// `ndarray`'s `Array2::zeros`: an array of the given shape with every element zero. It
    /// panics where the shape is too large, which `shape_fits` rules out.
    #[verifier::external_body]
    fn zeros(bands: usize, frames: usize) -> (r: MelGrid)
        requires
            shape_fits(bands as int, frames as int),
        ensures
            grid_bands(r) == Seq::new(bands as nat, |m: int| Seq::new(frames as nat, |t: int| 0u32)),
            grid_frames(r) == frames,
    {
        MelGrid { cells: ndarray::Array2::zeros((bands, frames)) }
    }

    /// `ndarray`'s `nrows`: the length of the first axis.
    #[verifier::external_body]
    fn row_count(&self) -> (r: usize)
        ensures
            r == grid_bands(*self).len(),
    {
        self.cells.nrows()
    }

    /// `ndarray`'s `ncols`: the length of the second axis.
    #[verifier::external_body]
    fn column_count(&self) -> (r: usize)
        ensures
            r == grid_frames(*self),
    {
        self.cells.ncols()
    }

    /// `ndarray`'s indexing: the element in row `m` and column `t`. It panics outside the
    /// array.
    #[verifier::external_body]
    fn element(&self, m: usize, t: usize) -> (r: u32)
        requires
            m < grid_bands(*self).len(),
            t < grid_bands(*self)[m as int].len(),
        ensures
            r == grid_bands(*self)[m as int][t as int],
    {
        self.cells[[m, t]]
    }

    /// `ndarray`'s indexed assignment: replaces the element in row `m` and column `t` and
    /// nothing else. It panics outside the array.
    #[verifier::external_body]
    fn set_element(&mut self, m: usize, t: usize, value: u32)
        requires
            m < grid_bands(*old(self)).len(),
            t < grid_bands(*old(self))[m as int].len(),
        ensures
            grid_bands(*final(self)) == grid_bands(*old(self)).update(
                m as int,
                grid_bands(*old(self))[m as int].update(t as int, value),
            ),
            grid_frames(*final(self)) == grid_frames(*old(self)),
    {
        self.cells[[m, t]] = value;
    }

    /// `ndarray`'s `slice_axis` along the second axis, made into an array of its own by
    /// `to_owned`: the columns `from..to` of every row. It panics where the range does not
    /// lie inside the axis.
    #[verifier::external_body]
    fn columns(&self, from: usize, to: usize) -> (r: MelGrid)
        requires
            from <= to <= grid_frames(*self),
        ensures
            grid_bands(r) == Seq::new(
                grid_bands(*self).len(),
                |m: int| grid_bands(*self)[m].subrange(from as int, to as int),
            ),
            grid_frames(r) == to - from,
    {
        MelGrid {
            cells: self.cells.slice_axis(ndarray::Axis(1), ndarray::Slice::from(from..to)).to_owned(),
        }
    }

    fn set_cell(&mut self, m: usize, t: usize, value: u32)
        requires
            old(self).well_formed(),
            m < grid_bands(*old(self)).len(),
            t < grid_frames(*old(self)),
        ensures
            final(self).well_formed(),
            grid_bands(*final(self)).len() == grid_bands(*old(self)).len(),
            grid_frames(*final(self)) == grid_frames(*old(self)),
            forall|k: int, u: int|
                0 <= k < grid_bands(*old(self)).len() && 0 <= u < grid_frames(*old(self))
                    ==> #[trigger] final(self).cell_at(k, u) == if k == m && u == t {
                    value
                } else {
                    old(self).cell_at(k, u)
                },
    {
        self.set_element(m, t, value);
    }

    /// The number of bands.
    pub fn bands(&self) -> (r: usize)
        ensures
            r == grid_bands(*self).len(),
    {
        self.row_count()
    }

    /// The number of frames.
    pub fn frames(&self) -> (r: usize)
        ensures
            r == grid_frames(*self),
    {
        self.column_count()
    }

    /// The cell of band `m` and frame `t`.
    pub fn cell(&self, m: usize, t: usize) -> (r: u32)
        requires
            self.well_formed(),
            m < grid_bands(*self).len(),
            t < grid_frames(*self),
        ensures
            r == self.cell_at(m as int, t as int),
    {
        self.element(m, t)
    }

    /// The cells of band `m`, in the order of the frames.
    pub fn band(&self, m: usize) -> (r: Vec<u32>)
        requires
            self.well_formed(),
            m < grid_bands(*self).len(),
        ensures
            r@ == grid_bands(*self)[m as int],
    {
        let frames: usize = self.column_count();
        let mut out: Vec<u32> = Vec::new();
        for t in 0..frames
            invariant
                frames == grid_bands(*self)[m as int].len(),
                m < grid_bands(*self).len(),
                out@ == grid_bands(*self)[m as int].take(t as int),
        {
            out.push(self.element(m, t));
            assert(out@ =~= grid_bands(*self)[m as int].take(t + 1));
        }
        assert(out@ =~= grid_bands(*self)[m as int]);
        out
    }

    /// A spectrogram of the given shape whose cells are listed band after band.
    pub fn from_cells(bands: usize, frames: usize, cells: &[u32]) -> (r: MelGrid)
        requires
            shape_fits(bands as int, frames as int),
            cells@.len() == bands * frames,
        ensures
            r.well_formed(),
            grid_bands(r).len() == bands,
            grid_frames(r) == frames,
            forall|m: int, t: int|
                0 <= m < bands && 0 <= t < frames ==> #[trigger] r.cell_at(m, t) == cells@[m
                    * frames + t],
    {
        let mut grid: MelGrid = MelGrid::zeros(bands, frames);
        assert(cells.len() == bands * frames);
        for m in 0..bands
            invariant
                cells@.len() == bands * frames,
                bands * frames <= usize::MAX,
                shape_fits(bands as int, frames as int),
                grid.well_formed(),
                grid_bands(grid).len() == bands,
                grid_frames(grid) == frames,
                forall|k: int, t: int|
                    0 <= k < m && 0 <= t < frames ==> #[trigger] grid.cell_at(k, t) == cells@[k
                        * frames + t],
        {
            for t in 0..frames
                invariant
                    m < bands,
                    cells@.len() == bands * frames,
                    bands * frames <= usize::MAX,
                    shape_fits(bands as int, frames as int),
                    grid.well_formed(),
                    grid_bands(grid).len() == bands,
                    grid_frames(grid) == frames,
                    forall|k: int, u: int|
                        0 <= k < m && 0 <= u < frames ==> #[trigger] grid.cell_at(k, u) == cells@[k
                            * frames + u],
                    forall|u: int|
                        0 <= u < t ==> #[trigger] grid.cell_at(m as int, u) == cells@[m * frames
                            + u],
            {
                assert(0 <= m * frames && m * frames + t < bands * frames) by (nonlinear_arith)
                    requires
                        m < bands,
                        t < frames,
                        m >= 0,
                        frames >= 0,
                ;
                grid.set_cell(m, t, cells[m * frames + t]);
            }
        }
        grid
    }
}

/// The frame of the source that frame `t` of a looped spectrogram shows: itself before the
/// loop, and a frame of the loop `con..end`, swept back and forth, from there on.
pub open spec fn loop_source(t: int, con: int, end: int) -> int {
    if t < con {
        t
    } else {
        con + crate::reflect::reflected(t - con, end - con)
    }
}

/// `frame`, but no further than the last of `n` frames.
pub open spec fn held(frame: int, n: int) -> int {
    if frame <= n {
        frame
    } else {
        n
    }
}

/// Where the loop `con..end` ends: no earlier than it starts.
pub open spec fn loop_end(con: int, end: int) -> int {
    if end < con {
        con
    } else {
        end
    }
}

/// `r` is the spectrogram `mel` with its frames `con_frame..end_frame` looped and carried on
/// by `pad` frames.
pub open spec fn is_looped(
    mel: MelGrid,
    con_frame: int,
    end_frame: int,
    pad: int,
    r: MelGrid,
) -> bool {
    let con = held(con_frame, grid_frames(mel) as int);
    let end = held(end_frame, grid_frames(mel) as int);
    &&& grid_bands(r).len() == grid_bands(mel).len()
    &&& grid_frames(r) == loop_end(con, end) + pad
    &&& forall|m: int, t: int|
        0 <= m < grid_bands(r).len() && 0 <= t < grid_frames(r) ==> #[trigger] r.cell_at(m, t)
            == mel.cell_at(m, loop_source(t, con, end))
}

/// Loop the frames `con_frame..end_frame` of a spectrogram: what lies before them stays,
/// and they are carried on by `pad` frames, swept back and forth. Both frame numbers are
/// held to the number of frames there are. A loop that ends where it starts, or before, has
/// no frames to carry on.
pub fn loop_frames(mel: &MelGrid, con_frame: usize, end_frame: usize, pad: usize) -> (r: MelGrid)
    requires
        mel.well_formed(),
        ({
            let con = held(con_frame as int, grid_frames(*mel) as int);
            let end = held(end_frame as int, grid_frames(*mel) as int);
            &&& con < end || pad == 0 || grid_bands(*mel).len() == 0
            &&& shape_fits(grid_bands(*mel).len() as int, loop_end(con, end) + pad)
        }),
    ensures
        r.well_formed(),
        is_looped(*mel, con_frame as int, end_frame as int, pad as int, r),
        forall|m: int, t: int|
            0 <= m < grid_bands(r).len() && 0 <= t < held(end_frame as int, grid_frames(*mel) as int)
                ==> #[trigger] r.cell_at(m, t) == mel.cell_at(m, t),
{
    let bands: usize = mel.row_count();
    let n_frames: usize = mel.column_count();
    let con: usize = if con_frame <= n_frames {
        con_frame
    } else {
        n_frames
    };
    let end: usize = if end_frame <= n_frames {
        end_frame
    } else {
        n_frames
    };
    let stop: usize = if end < con {
        con
    } else {
        end
    };
    proof {
        lemma_shape_bounds(bands as int, stop + pad);
    }
    let looped: MelGrid = mel.columns(con, stop);
    let total: usize = stop + pad;
    let mut out: MelGrid = MelGrid::zeros(bands, total);
    for t in 0..total
        invariant
            con <= stop <= n_frames,
            con < end || pad == 0 || bands == 0,
            stop == loop_end(con as int, end as int),
            total == stop + pad,
            2 * (stop - con) <= usize::MAX,
            bands == grid_bands(*mel).len(),
            n_frames == grid_frames(*mel),
            mel.well_formed(),
            grid_bands(looped) == Seq::new(
                grid_bands(*mel).len(),
                |m: int| grid_bands(*mel)[m].subrange(con as int, stop as int),
            ),
            out.well_formed(),
            grid_bands(out).len() == bands,
            grid_frames(out) == total,
            forall|m: int, u: int|
                0 <= m < bands && 0 <= u < t ==> #[trigger] out.cell_at(m, u) == mel.cell_at(
                    m,
                    loop_source(u, con as int, end as int),
                ),
    {
        for m in 0..bands
            invariant
                t < total,
                con <= stop <= n_frames,
                con < end || pad == 0 || bands == 0,
                stop == loop_end(con as int, end as int),
                total == stop + pad,
                2 * (stop - con) <= usize::MAX,
                bands == grid_bands(*mel).len(),
                n_frames == grid_frames(*mel),
                mel.well_formed(),
                grid_bands(looped) == Seq::new(
                    grid_bands(*mel).len(),
                    |k: int| grid_bands(*mel)[k].subrange(con as int, stop as int),
                ),
                out.well_formed(),
                grid_bands(out).len() == bands,
                grid_frames(out) == total,
                forall|k: int, u: int|
                    0 <= k < bands && 0 <= u < t ==> #[trigger] out.cell_at(k, u) == mel.cell_at(
                        k,
                        loop_source(u, con as int, end as int),
                    ),
                forall|k: int|
                    0 <= k < m ==> #[trigger] out.cell_at(k, t as int) == mel.cell_at(
                        k,
                        loop_source(t as int, con as int, end as int),
                    ),
        {
            let value: u32 = if t < con {
                mel.element(m, t)
            } else {
                let source: usize = reflect_index_mel(t - con, stop - con);
                looped.element(m, source)
            };
            out.set_cell(m, t, value);
        }
    }
    assert forall|m: int, t: int| 0 <= m < bands && 0 <= t < end implies #[trigger] out.cell_at(m, t)
        == mel.cell_at(m, t) by {
        if con < end {
            law_loop_starts_as_source(t, con as int, end as int);
        }
    }
    out
}

proof fn lemma_shape_bounds(bands: int, frames: int)
    requires
        bands >= 0,
        frames >= 0,
        shape_fits(bands, frames),
    ensures
        2 * frames <= usize::MAX,
{
    let b = if bands == 0 {
        1
    } else {
        bands
    };
    let f = if frames == 0 {
        1
    } else {
        frames
    };
    assert(f * 4 <= b * f * 4) by (nonlinear_arith)
        requires
            b >= 1,
            f >= 1,
    ;
}

// ── Stretching ────────────────────────────────────────────────────────

/// `value` is what a band shows at `x`, query number `query`: a cell outside the nodes or
/// at one of them, and what `between` gives for the band, the interval and the query
/// anywhere else.
pub open spec fn is_cell_value<F: Fn(usize, usize, usize) -> u32>(
    nodes: Seq<i64>,
    cells: Seq<u32>,
    x: i64,
    band: usize,
    query: usize,
    between: F,
    value: u32,
) -> bool {
    exists|place: Place| #[trigger]
        crate::interp::is_place(nodes, x, place) && match place {
            Place::Start => value == cells[0],
            Place::End => value == cells.last(),
            Place::Node(i) => value == cells[i as int],
            Place::Between(i) => between.ensures((band, i, query), value),
        }
}

/// `r` is the spectrogram `mel` rendered at the queries, band by band.
pub open spec fn is_rendered<F: Fn(usize, usize, usize) -> u32>(
    mel: MelGrid,
    nodes: Seq<i64>,
    queries: Seq<i64>,
    between: F,
    r: MelGrid,
) -> bool {
    &&& grid_bands(r).len() == grid_bands(mel).len()
    &&& grid_frames(r) == queries.len()
    &&& forall|m: int, t: int|
        0 <= m < grid_bands(r).len() && 0 <= t < grid_frames(r) ==> is_cell_value(
            nodes,
            grid_bands(mel)[m],
            queries[t],
            m as usize,
            t as usize,
            between,
            #[trigger] r.cell_at(m, t),
        )
}

/// Render a spectrogram at the queries: every band is interpolated between the nodes, of
/// which there is one per frame.
pub fn render_frames<F: Fn(usize, usize, usize) -> u32>(
    mel: &MelGrid,
    nodes: &[i64],
    queries: &[i64],
    between: &F,
) -> (r: MelGrid)
    requires
        mel.well_formed(),
        nodes@.len() == grid_frames(*mel),
        nodes@.len() > 0 || queries@.len() == 0 || grid_bands(*mel).len() == 0,
        shape_fits(grid_bands(*mel).len() as int, queries@.len() as int),
        forall|m: usize, i: usize, j: usize|
            m < grid_bands(*mel).len() && i + 1 < nodes@.len() && j < queries@.len()
                ==> #[trigger] between.requires((m, i, j)),
    ensures
        r.well_formed(),
        is_rendered(*mel, nodes@, queries@, *between, r),
{
    let bands: usize = mel.row_count();
    let total: usize = queries.len();
    let mut out: MelGrid = MelGrid::zeros(bands, total);
    for m in 0..bands
        invariant
            mel.well_formed(),
            bands == grid_bands(*mel).len(),
            total == queries@.len(),
            nodes@.len() == grid_frames(*mel),
            nodes@.len() > 0 || queries@.len() == 0 || bands == 0,
            forall|k: usize, i: usize, j: usize|
                k < bands && i + 1 < nodes@.len() && j < queries@.len() ==> #[trigger]
                between.requires((k, i, j)),
            out.well_formed(),
            grid_bands(out).len() == bands,
            grid_frames(out) == total,
            forall|k: int, t: int|
                0 <= k < m && 0 <= t < total ==> is_cell_value(
                    nodes@,
                    grid_bands(*mel)[k],
                    queries@[t],
                    k as usize,
                    t as usize,
                    *between,
                    #[trigger] out.cell_at(k, t),
                ),
    {
        let cells: Vec<u32> = mel.band(m);
        let inside = |i: usize, j: usize| -> (value: u32)
            requires
                i + 1 < nodes@.len() && j < queries@.len(),
            ensures
                between.ensures((m, i, j), value),
            { between(m, i, j) };
        let row: Vec<u32> = interp1d(nodes, cells.as_slice(), queries, &inside);
        assert forall|t: int| 0 <= t < total implies is_cell_value(
            nodes@,
            cells@,
            queries@[t],
            m,
            t as usize,
            *between,
            #[trigger] row@[t],
        ) by {
            assert(crate::interp::is_interpolated(
                nodes@,
                cells@,
                queries@[t],
                t as usize,
                inside,
                row@[t],
            ));
            let place = choose|place: Place| #[trigger]
                crate::interp::is_place(nodes@, queries@[t], place) && crate::interp::is_value_at(
                    cells@,
                    place,
                    t as usize,
                    inside,
                    row@[t],
                );
            assert(crate::interp::is_place(nodes@, queries@[t], place));
        }
        for t in 0..total
            invariant
                m < bands,
                mel.well_formed(),
                bands == grid_bands(*mel).len(),
                total == queries@.len(),
                total == row@.len(),
                cells@ == grid_bands(*mel)[m as int],
                forall|u: int|
                    0 <= u < total ==> is_cell_value(
                        nodes@,
                        cells@,
                        queries@[u],
                        m,
                        u as usize,
                        *between,
                        #[trigger] row@[u],
                    ),
                out.well_formed(),
                grid_bands(out).len() == bands,
                grid_frames(out) == total,
                forall|k: int, u: int|
                    0 <= k < m && 0 <= u < total ==> is_cell_value(
                        nodes@,
                        grid_bands(*mel)[k],
                        queries@[u],
                        k as usize,
                        u as usize,
                        *between,
                        #[trigger] out.cell_at(k, u),
                    ),
                forall|u: int| 0 <= u < t ==> #[trigger] out.cell_at(m as int, u) == row@[u],
        {
            out.set_cell(m, t, row[t]);
        }
    }
    out
}

// ── Laws ──────────────────────────────────────────────────────────────

/// Looping changes nothing before the end of the loop: the first `end` frames show
/// themselves.
pub proof fn law_loop_starts_as_source(t: int, con: int, end: int)
    requires
        0 <= con < end,
        0 <= t < end,
    ensures
        loop_source(t, con, end) == t,
{
    if t >= con {
        crate::reflect::law_reflected_inside(t - con, end - con);
    }
}

/// From the start of the loop on, only frames of the loop are shown, and neighbouring
/// frames show neighbouring frames.
pub proof fn law_loop_stays_inside(t: int, con: int, end: int)
    requires
        0 <= con < end,
        con <= t,
    ensures
        con <= loop_source(t, con, end) < end,
        -1 <= loop_source(t + 1, con, end) - loop_source(t, con, end) <= 1,
{
    if end - con > 1 {
        crate::reflect::law_reflected_steps(t - con, end - con);
        vstd::arithmetic::div_mod::lemma_mod_bound(t - con, 2 * (end - con - 1));
    }
}

/// A rendered frame at the time of a source frame shows that source frame, band by band.
pub proof fn law_render_meets_frames<F: Fn(usize, usize, usize) -> u32>(
    nodes: Seq<i64>,
    cells: Seq<u32>,
    i: int,
    band: usize,
    query: usize,
    between: F,
    value: u32,
)
    requires
        0 <= i < nodes.len(),
        nodes.len() == cells.len(),
        crate::interp::increasing(nodes),
        is_cell_value(nodes, cells, nodes[i], band, query, between, value),
    ensures
        value == cells[i],
{
    let place = choose|place: Place| #[trigger]
        crate::interp::is_place(nodes, nodes[i], place) && match place {
            Place::Start => value == cells[0],
            Place::End => value == cells.last(),
            Place::Node(k) => value == cells[k as int],
            Place::Between(k) => between.ensures((band, k, query), value),
        };
    if place is Between {
        let k = place->Between_0;
        assert(i <= k || k + 1 <= i);
        assert(i < k ==> nodes[i] < nodes[k as int]);
        assert(k + 1 < i ==> nodes[k + 1] < nodes[i]);
    }
    if place is Node {
        let k = place->Node_0;
        assert(k < i ==> nodes[k as int] < nodes[i]);
        assert(i < k ==> nodes[i] < nodes[k as int]);
    }
    assert(0 < i ==> nodes[0] < nodes[i]);
    assert(i < nodes.len() - 1 ==> nodes[i] < nodes[nodes.len() - 1]);
}

/// A loop turns back at its last frame, and repeats after a way there and back.
pub proof fn law_loop_turns_back(con: int, end: int, k: int)
    requires
        0 <= con < end,
    ensures
        0 <= k <= end - 1 - con ==> loop_source(end - 1 + k, con, end) == end - 1 - k,
        k >= con && end - con > 1 ==> loop_source(k + 2 * (end - con - 1), con, end)
            == loop_source(k, con, end),
{
    let len = end - con;
    if len > 1 {
        if 0 <= k <= len - 1 {
            crate::reflect::law_reflected_symmetric(len - 1 - k, len);
            crate::reflect::law_reflected_inside(len - 1 - k, len);
            assert(2 * (len - 1) - (len - 1 - k) == len - 1 + k);
        }
        crate::reflect::law_reflected_periodic(k - con, len);
    }
}

/// A frame number that is held is the smaller of itself and the number of frames, and a
/// loop ends at the larger of its two frame numbers.
pub proof fn law_loop_limits(frame: int, n: int)
    ensures
        held(frame, n) <= frame && held(frame, n) <= n,
        held(frame, n) == frame || held(frame, n) == n,
        loop_end(frame, n) >= frame && loop_end(frame, n) >= n,
        loop_end(frame, n) == frame || loop_end(frame, n) == n,
{
}

/// A rendered frame between two source frames is what is drawn between these two, for this
/// band and this query; outside the source it shows the first or the last frame.
pub proof fn law_render_between_frames<F: Fn(usize, usize, usize) -> u32>(
    nodes: Seq<i64>,
    cells: Seq<u32>,
    x: i64,
    band: usize,
    query: usize,
    between: F,
    value: u32,
    i: int,
)
    requires
        nodes.len() > 0,
        nodes.len() == cells.len(),
        crate::interp::increasing(nodes),
        is_cell_value(nodes, cells, x, band, query, between, value),
    ensures
        x <= nodes[0] ==> value == cells[0],
        x > nodes[0] && x >= nodes.last() ==> value == cells.last(),
        0 <= i < nodes.len() - 1 && nodes[i] < x < nodes[i + 1] ==> between.ensures(
            (band, i as usize, query),
            value,
        ),
{
    let place = choose|place: Place| #[trigger]
        crate::interp::is_place(nodes, x, place) && match place {
            Place::Start => value == cells[0],
            Place::End => value == cells.last(),
            Place::Node(k) => value == cells[k as int],
            Place::Between(k) => between.ensures((band, k, query), value),
        };
    if 0 <= i < nodes.len() - 1 && nodes[i] < x < nodes[i + 1] {
        crate::interp::lemma_place_between(nodes, x, i, place);
    }
}

/// A looped spectrogram starts as its source up to the end of the loop, turns back there,
/// and is as much longer as was asked for; every band alike.
pub proof fn law_looped_grid(
    mel: MelGrid,
    con_frame: int,
    end_frame: int,
    pad: int,
    r: MelGrid,
    m: int,
    t: int,
)
    requires
        is_looped(mel, con_frame, end_frame, pad, r),
        0 <= con_frame < end_frame <= grid_frames(mel),
        pad >= 0,
        0 <= m < grid_bands(mel).len(),
    ensures
        grid_bands(r).len() == grid_bands(mel).len(),
        grid_frames(r) == end_frame + pad,
        0 <= t < end_frame ==> r.cell_at(m, t) == mel.cell_at(m, t),
        0 <= t <= end_frame - 1 - con_frame && t <= pad ==> r.cell_at(m, end_frame - 1 + t)
            == mel.cell_at(m, end_frame - 1 - t),
        con_frame <= t && t + 2 * (end_frame - con_frame - 1) < end_frame + pad ==> r.cell_at(
            m,
            t + 2 * (end_frame - con_frame - 1),
        ) == r.cell_at(m, t),
{
    if 0 <= t < end_frame {
        law_loop_starts_as_source(t, con_frame, end_frame);
    }
    law_loop_turns_back(con_frame, end_frame, t);
}

/// Frame numbers behind the last frame count as the number of frames.
pub proof fn law_loop_is_held(
    mel: MelGrid,
    con_frame: int,
    end_frame: int,
    pad: int,
    r: MelGrid,
)
    requires
        con_frame >= 0,
        end_frame >= 0,
    ensures
        con_frame >= grid_frames(mel) ==> (is_looped(mel, con_frame, end_frame, pad, r)
            <==> is_looped(mel, grid_frames(mel) as int, end_frame, pad, r)),
        end_frame >= grid_frames(mel) ==> (is_looped(mel, con_frame, end_frame, pad, r)
            <==> is_looped(mel, con_frame, grid_frames(mel) as int, pad, r)),
{
}

/// A rendered spectrogram has a frame for each query; at the time of a source frame it
/// shows that frame in every band, and between two of them what is drawn between these two.
pub proof fn law_rendered_grid<F: Fn(usize, usize, usize) -> u32>(
    mel: MelGrid,
    nodes: Seq<i64>,
    queries: Seq<i64>,
    between: F,
    r: MelGrid,
    m: int,
    t: int,
    i: int,
)
    requires
        mel.well_formed(),
        nodes.len() == grid_frames(mel),
        crate::interp::increasing(nodes),
        is_rendered(mel, nodes, queries, between, r),
        0 <= m < grid_bands(mel).len(),
        0 <= t < queries.len(),
        0 <= i < nodes.len(),
    ensures
        grid_bands(r).len() == grid_bands(mel).len(),
        grid_frames(r) == queries.len(),
        queries[t] == nodes[i] ==> r.cell_at(m, t) == mel.cell_at(m, i),
        queries[t] <= nodes[0] ==> r.cell_at(m, t) == mel.cell_at(m, 0),
        queries[t] >= nodes.last() ==> r.cell_at(m, t) == mel.cell_at(m, nodes.len() - 1),
        i + 1 < nodes.len() && nodes[i] < queries[t] < nodes[i + 1] ==> between.ensures(
            (m as usize, i as usize, t as usize),
            r.cell_at(m, t),
        ),
{
    let cells = grid_bands(mel)[m];
    let value = r.cell_at(m, t);
    assert(is_cell_value(nodes, cells, queries[t], m as usize, t as usize, between, value));
    if queries[t] == nodes[i] {
        law_render_meets_frames(nodes, cells, i, m as usize, t as usize, between, value);
    }
    if queries[t] == nodes[0] {
        law_render_meets_frames(nodes, cells, 0, m as usize, t as usize, between, value);
    }
    if nodes.len() > 1 {
        assert(nodes[0] < nodes[nodes.len() - 1]);
    }
    if queries[t] == nodes.last() {
        law_render_meets_frames(
            nodes,
            cells,
            nodes.len() - 1,
            m as usize,
            t as usize,
            between,
            value,
        );
    }
    law_render_between_frames(
        nodes,
        cells,
        queries[t],
        m as usize,
        t as usize,
        between,
        value,
        i,
    );
}

/// Whether an array can be allocated is a matter of how many cells it has, each of four
/// bytes, whichever way round its sides are; a side without any counts as one.
pub proof fn law_shape_fits(bands: int, frames: int)
    requires
        bands >= 0,
        frames >= 0,
    ensures
        bands >= 1 && frames >= 1 ==> (shape_fits(bands, frames) <==> 4 * (bands * frames)
            <= isize::MAX),
        shape_fits(bands, frames) <==> shape_fits(frames, bands),
        bands == 0 ==> (shape_fits(bands, frames) <==> shape_fits(1, frames)),
{
    assert(bands * frames * 4 == 4 * (bands * frames)) by (nonlinear_arith);
    assert(frames * bands * 4 == bands * frames * 4) by (nonlinear_arith);
}

} // verus!
