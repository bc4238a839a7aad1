//! Interpolation between nodes: finding the place of a query among them, and the
//! derivatives of the smooth curve through them.
//!
//! Abscissas are given by their order keys (see `ieee`), so that places are found on
//! integers; the ordinates are of any type and are combined by the caller's closures.

use crate::ieee::Binary64;
use vstd::prelude::*;

verus! {

/// Where a query lies among the nodes.
#[derive(Clone, Copy, Debug, PartialEq, Eq, Structural)]
pub enum Place {
    /// At or before the first node.
    Start,
    /// At or behind the last node.
    End,
    /// At this node.
    Node(usize),
    /// Between this node and the next.
    Between(usize),
}

/// `place` is where `x` lies among `nodes`.
pub open spec fn is_place(nodes: Seq<i64>, x: i64, place: Place) -> bool {
    match place {
        Place::Start => x <= nodes[0],
        Place::End => nodes[0] < x && nodes.last() <= x,
        Place::Node(i) => nodes[0] < x < nodes.last() && 0 <= i < nodes.len() && nodes[i as int]
            == x,
        Place::Between(i) => nodes[0] < x < nodes.last() && 0 <= i < nodes.len() - 1
            && nodes[i as int] < x < nodes[i + 1],
    }
}

/// Find where `x` lies among `nodes`.
pub fn locate(nodes: &[i64], x: i64) -> (r: Place)
    requires
        nodes@.len() > 0,
    ensures
        is_place(nodes@, x, r),
{
    let last: usize = nodes.len() - 1;
    if x <= nodes[0] {
        return Place::Start;
    }
    if x >= nodes[last] {
        return Place::End;
    }
    let mut low: usize = 0;
    let mut high: usize = last;
    while high - low > 1
        invariant
            low < high <= last,
            last == nodes@.len() - 1,
            nodes@[0] < x < nodes@[last as int],
            nodes@[low as int] < x < nodes@[high as int],
        decreases high - low,
    {
        let mid: usize = low + (high - low) / 2;
        if nodes[mid] == x {
            return Place::Node(mid);
        }
        if nodes[mid] < x {
            low = mid;
        } else {
            high = mid;
        }
    }
    Place::Between(low)
}

/// `value` is the interpolated value at `place`: an ordinate, or what `between` gives for
/// the interval and the number of the query.
pub open spec fn is_value_at<T, F: Fn(usize, usize) -> T>(
    ordinates: Seq<T>,
    place: Place,
    query: usize,
    between: F,
    value: T,
) -> bool {
    match place {
        Place::Start => value == ordinates[0],
        Place::End => value == ordinates.last(),
        Place::Node(i) => value == ordinates[i as int],
        Place::Between(i) => between.ensures((i, query), value),
    }
}

/// `value` interpolates the nodes at `x`, which is query number `query`.
pub open spec fn is_interpolated<T, F: Fn(usize, usize) -> T>(
    nodes: Seq<i64>,
    ordinates: Seq<T>,
    x: i64,
    query: usize,
    between: F,
    value: T,
) -> bool {
    exists|place: Place| #[trigger]
        is_place(nodes, x, place) && is_value_at(ordinates, place, query, between, value)
}

/// `values` interpolates the nodes at the queries.
pub open spec fn interpolates<T, F: Fn(usize, usize) -> T>(
    nodes: Seq<i64>,
    ordinates: Seq<T>,
    queries: Seq<i64>,
    between: F,
    values: Seq<T>,
) -> bool {
    &&& values.len() == queries.len()
    &&& forall|j: int|
        0 <= j < values.len() ==> is_interpolated(
            nodes,
            ordinates,
            queries[j],
            j as usize,
            between,
            #[trigger] values[j],
        )
}

/// What a query at `place` needs is there: an ordinate, or a value of `between`.
pub open spec fn has_value<T, F: Fn(usize, usize) -> T>(
    ordinates: int,
    place: Place,
    query: usize,
    between: F,
) -> bool {
    match place {
        Place::Start => ordinates > 0,
        Place::End => ordinates > 0,
        Place::Node(i) => i < ordinates,
        Place::Between(i) => between.requires((i, query)),
    }
}

/// Interpolate at each query: the first or last ordinate outside the nodes, the ordinate
/// of a node at the node, and `between(i, j)` for query `j` between nodes `i` and `i + 1`.
pub fn interp1d<T: Copy, F: Fn(usize, usize) -> T>(
    nodes: &[i64],
    ordinates: &[T],
    queries: &[i64],
    between: &F,
) -> (r: Vec<T>)
    requires
        queries@.len() > 0 ==> nodes@.len() > 0,
        forall|j: usize, place: Place|
            j < queries@.len() && #[trigger] is_place(nodes@, queries@[j as int], place)
                ==> has_value(ordinates@.len() as int, place, j, *between),
    ensures
        interpolates(nodes@, ordinates@, queries@, *between, r@),
{
    let mut values: Vec<T> = Vec::new();
    for j in 0..queries.len()
        invariant
            queries@.len() > 0 ==> nodes@.len() > 0,
            forall|k: usize, place: Place|
                k < queries@.len() && #[trigger] is_place(nodes@, queries@[k as int], place)
                    ==> has_value(ordinates@.len() as int, place, k, *between),
            values@.len() == j,
            forall|k: int|
                0 <= k < j ==> is_interpolated(
                    nodes@,
                    ordinates@,
                    queries@[k],
                    k as usize,
                    *between,
                    #[trigger] values@[k],
                ),
    {
        let place: Place = locate(nodes, queries[j]);
        assert(is_place(nodes@, queries@[j as int], place));
        let value: T = match place {
            Place::Start => ordinates[0],
            Place::End => ordinates[ordinates.len() - 1],
            Place::Node(i) => ordinates[i],
            Place::Between(i) => between(i, j),
        };
        values.push(value);
    }
    values
}

// ── Smooth curves ─────────────────────────────────────────────────────

/// `extended` is `slopes` with two more at either end, each drawn from its two neighbours.
pub open spec fn extends_slopes<T, E: Fn(T, T) -> T>(
    slopes: Seq<T>,
    extrapolate: E,
    extended: Seq<T>,
) -> bool {
    let n = slopes.len() as int;
    &&& extended.len() == n + 4
    &&& extended.subrange(2, n + 2) == slopes
    &&& extrapolate.ensures((slopes[0], slopes[1]), extended[1])
    &&& extrapolate.ensures((extended[1], slopes[0]), extended[0])
    &&& extrapolate.ensures((slopes[n - 1], slopes[n - 2]), extended[n + 2])
    &&& extrapolate.ensures((extended[n + 2], slopes[n - 1]), extended[n + 3])
}

/// Draw the slopes on by two at either end.
pub fn extend_slopes<T: Copy, E: Fn(T, T) -> T>(slopes: &[T], extrapolate: &E) -> (r: Vec<T>)
    requires
        slopes@.len() >= 2,
        forall|a: T, b: T| #[trigger] extrapolate.requires((a, b)),
    ensures
        extends_slopes(slopes@, *extrapolate, r@),
{
    let n: usize = slopes.len();
    let left1: T = extrapolate(slopes[0], slopes[1]);
    let left0: T = extrapolate(left1, slopes[0]);
    let right0: T = extrapolate(slopes[n - 1], slopes[n - 2]);
    let right1: T = extrapolate(right0, slopes[n - 1]);
    let mut extended: Vec<T> = Vec::new();
    extended.push(left0);
    extended.push(left1);
    for i in 0..n
        invariant
            n == slopes@.len(),
            extended@ == seq![left0, left1] + slopes@.take(i as int),
    {
        extended.push(slopes[i]);
        assert(extended@ =~= seq![left0, left1] + slopes@.take(i + 1));
    }
    extended.push(right0);
    extended.push(right1);
    assert(extended@.subrange(2, n + 2) =~= slopes@);
    extended
}

/// `top` is the largest of `weights`, or zero where none is positive.
pub open spec fn is_top_weight(weights: Seq<Binary64>, top: Binary64) -> bool {
    &&& top.bits == 0 || exists|i: int| 0 <= i < weights.len() && #[trigger] weights[i] == top
    &&& !top.spec_is_nan()
    &&& forall|i: int| 0 <= i < weights.len() ==> !(#[trigger] weights[i]).spec_exceeds(top)
}

/// The largest of some weights, or zero where none is positive.
pub fn top_weight(weights: &[Binary64]) -> (r: Binary64)
    ensures
        is_top_weight(weights@, r),
{
    let mut top = Binary64 { bits: 0 };
    for i in 0..weights.len()
        invariant
            is_top_weight(weights@.take(i as int), top),
    {
        let ghost upto = weights@.take(i as int);
        let ghost next = weights@.take(i + 1);
        let ghost before = top;
        assert(next =~= upto.push(weights@[i as int]));
        if weights[i].exceeds(top) {
            top = weights[i];
            assert(next[i as int] == top);
        } else if top.bits != 0 {
            proof {
                let k = choose|k: int| 0 <= k < upto.len() && #[trigger] upto[k] == top;
                assert(next[k] == top);
            }
        }
        assert forall|k: int| 0 <= k < next.len() implies !(#[trigger] next[k]).spec_exceeds(
            top,
        ) by {
            if k < i {
                assert(next[k] == upto[k]);
                assert(!upto[k].spec_exceeds(before));
            }
        }
    }
    assert(weights@.take(weights@.len() as int) =~= weights@);
    top
}

/// `tangents` are the derivatives of the smooth curve at the nodes between which `slopes`
/// are the slopes: each follows from the four slopes around its node and the largest
/// spread that any four such slopes have.
pub open spec fn are_tangents<
    T,
    E: Fn(T, T) -> T,
    W: Fn(T, T, T, T) -> Binary64,
    D: Fn(T, T, T, T, Binary64) -> T,
>(slopes: Seq<T>, extrapolate: E, spread: W, tangent: D, tangents: Seq<T>) -> bool {
    exists|m: Seq<T>, weights: Seq<Binary64>, top: Binary64|
        {
            &&& #[trigger] extends_slopes(slopes, extrapolate, m)
            &&& weights.len() == slopes.len() + 1
            &&& forall|i: int|
                0 <= i < weights.len() ==> spread.ensures(
                    (m[i], m[i + 1], m[i + 2], m[i + 3]),
                    #[trigger] weights[i],
                )
            &&& #[trigger] is_top_weight(weights, top)
            &&& tangents.len() == slopes.len() + 1
            &&& forall|i: int|
                0 <= i < tangents.len() ==> tangent.ensures(
                    (m[i], m[i + 1], m[i + 2], m[i + 3], top),
                    #[trigger] tangents[i],
                )
        }
}

/// Derivatives of the smooth curve at each node.
pub fn akima_tangents<
    T: Copy,
    E: Fn(T, T) -> T,
    W: Fn(T, T, T, T) -> Binary64,
    D: Fn(T, T, T, T, Binary64) -> T,
>(slopes: &[T], extrapolate: &E, spread: &W, tangent: &D) -> (r: Vec<T>)
    requires
        slopes@.len() >= 2,
        slopes@.len() + 4 <= usize::MAX,
        forall|a: T, b: T| #[trigger] extrapolate.requires((a, b)),
        forall|a: T, b: T, c: T, d: T| #[trigger] spread.requires((a, b, c, d)),
        forall|a: T, b: T, c: T, d: T, top: Binary64| #[trigger]
            tangent.requires((a, b, c, d, top)),
    ensures
        r@.len() == slopes@.len() + 1,
        are_tangents(slopes@, *extrapolate, *spread, *tangent, r@),
{
    let m: Vec<T> = extend_slopes(slopes, extrapolate);
    let n: usize = slopes.len() + 1;
    let mut weights: Vec<Binary64> = Vec::new();
    for i in 0..n
        invariant
            m@.len() == n + 3,
            n + 3 <= usize::MAX,
            forall|a: T, b: T, c: T, d: T| #[trigger] spread.requires((a, b, c, d)),
            weights@.len() == i,
            forall|k: int|
                0 <= k < i ==> spread.ensures(
                    (m@[k], m@[k + 1], m@[k + 2], m@[k + 3]),
                    #[trigger] weights@[k],
                ),
    {
        weights.push(spread(m[i], m[i + 1], m[i + 2], m[i + 3]));
    }
    let top: Binary64 = top_weight(weights.as_slice());
    let mut tangents: Vec<T> = Vec::new();
    for i in 0..n
        invariant
            m@.len() == n + 3,
            n + 3 <= usize::MAX,
            forall|a: T, b: T, c: T, d: T, t: Binary64| #[trigger]
                tangent.requires((a, b, c, d, t)),
            tangents@.len() == i,
            forall|k: int|
                0 <= k < i ==> tangent.ensures(
                    (m@[k], m@[k + 1], m@[k + 2], m@[k + 3], top),
                    #[trigger] tangents@[k],
                ),
    {
        tangents.push(tangent(m[i], m[i + 1], m[i + 2], m[i + 3], top));
    }
    assert(extends_slopes(slopes@, *extrapolate, m@) && is_top_weight(weights@, top));
    tangents
}

/// `value` is the value at `place` of a curve with the given derivatives at its nodes.
pub open spec fn is_curve_value_at<T, H: Fn(usize, usize, T, T) -> T>(
    ordinates: Seq<T>,
    tangents: Seq<T>,
    place: Place,
    query: usize,
    cubic: H,
    value: T,
) -> bool {
    match place {
        Place::Start => value == ordinates[0],
        Place::End => value == ordinates.last(),
        Place::Node(i) => value == ordinates[i as int],
        Place::Between(i) => cubic.ensures(
            (i, query, tangents[i as int], tangents[i + 1]),
            value,
        ),
    }
}

/// `value` is the value at `x`, query number `query`, of a curve with the given
/// derivatives at its nodes.
pub open spec fn is_curve_value<T, H: Fn(usize, usize, T, T) -> T>(
    nodes: Seq<i64>,
    ordinates: Seq<T>,
    tangents: Seq<T>,
    x: i64,
    query: usize,
    cubic: H,
    value: T,
) -> bool {
    exists|place: Place| #[trigger]
        is_place(nodes, x, place) && is_curve_value_at(
            ordinates,
            tangents,
            place,
            query,
            cubic,
            value,
        )
}

/// `values` are the values at the queries of the smooth curve through more than two nodes.
pub open spec fn is_smooth_curve<
    T,
    S: Fn(usize) -> T,
    E: Fn(T, T) -> T,
    W: Fn(T, T, T, T) -> Binary64,
    D: Fn(T, T, T, T, Binary64) -> T,
    H: Fn(usize, usize, T, T) -> T,
>(
    nodes: Seq<i64>,
    ordinates: Seq<T>,
    queries: Seq<i64>,
    slope: S,
    extrapolate: E,
    spread: W,
    tangent: D,
    cubic: H,
    values: Seq<T>,
) -> bool {
    exists|slopes: Seq<T>, tangents: Seq<T>|
        {
            &&& slopes.len() == nodes.len() - 1
            &&& forall|i: int|
                0 <= i < slopes.len() ==> slope.ensures((i as usize,), #[trigger] slopes[i])
            &&& #[trigger] are_tangents(slopes, extrapolate, spread, tangent, tangents)
            &&& values.len() == queries.len()
            &&& forall|j: int|
                0 <= j < values.len() ==> is_curve_value(
                    nodes,
                    ordinates,
                    tangents,
                    queries[j],
                    j as usize,
                    cubic,
                    #[trigger] values[j],
                )
        }
}

/// What a query at `place` needs is there: an ordinate, or a value of `cubic`.
pub open spec fn has_curve_value<T, H: Fn(usize, usize, T, T) -> T>(
    ordinates: int,
    place: Place,
    query: usize,
    cubic: H,
) -> bool {
    match place {
        Place::Start => ordinates > 0,
        Place::End => ordinates > 0,
        Place::Node(i) => i < ordinates,
        Place::Between(i) => forall|a: T, b: T| #[trigger] cubic.requires((i, query, a, b)),
    }
}

/// Values of the smooth curve through more than two nodes.
pub fn smooth_curve<
    T: Copy,
    S: Fn(usize) -> T,
    E: Fn(T, T) -> T,
    W: Fn(T, T, T, T) -> Binary64,
    D: Fn(T, T, T, T, Binary64) -> T,
    H: Fn(usize, usize, T, T) -> T,
>(
    nodes: &[i64],
    ordinates: &[T],
    queries: &[i64],
    slope: &S,
    extrapolate: &E,
    spread: &W,
    tangent: &D,
    cubic: &H,
) -> (r: Vec<T>)
    requires
        nodes@.len() > 2,
        nodes@.len() + 3 <= usize::MAX,
        forall|i: usize| i + 1 < nodes@.len() ==> #[trigger] slope.requires((i,)),
        forall|a: T, b: T| #[trigger] extrapolate.requires((a, b)),
        forall|a: T, b: T, c: T, d: T| #[trigger] spread.requires((a, b, c, d)),
        forall|a: T, b: T, c: T, d: T, top: Binary64| #[trigger]
            tangent.requires((a, b, c, d, top)),
        forall|j: usize, place: Place|
            j < queries@.len() && #[trigger] is_place(nodes@, queries@[j as int], place)
                ==> has_curve_value(ordinates@.len() as int, place, j, *cubic),
    ensures
        is_smooth_curve(
            nodes@,
            ordinates@,
            queries@,
            *slope,
            *extrapolate,
            *spread,
            *tangent,
            *cubic,
            r@,
        ),
{
    let mut slopes: Vec<T> = Vec::new();
    for i in 0..nodes.len() - 1
        invariant
            nodes@.len() > 2,
            forall|k: usize| k + 1 < nodes@.len() ==> #[trigger] slope.requires((k,)),
            slopes@.len() == i,
            forall|k: int|
                0 <= k < i ==> slope.ensures((k as usize,), #[trigger] slopes@[k]),
    {
        slopes.push(slope(i));
    }
    let tangents: Vec<T> = akima_tangents(slopes.as_slice(), extrapolate, spread, tangent);
    let mut values: Vec<T> = Vec::new();
    for j in 0..queries.len()
        invariant
            nodes@.len() > 2,
            nodes@.len() + 3 <= usize::MAX,
            tangents@.len() == nodes@.len(),
            forall|k: usize, place: Place|
                k < queries@.len() && #[trigger] is_place(nodes@, queries@[k as int], place)
                    ==> has_curve_value(ordinates@.len() as int, place, k, *cubic),
            values@.len() == j,
            forall|k: int|
                0 <= k < j ==> is_curve_value(
                    nodes@,
                    ordinates@,
                    tangents@,
                    queries@[k],
                    k as usize,
                    *cubic,
                    #[trigger] values@[k],
                ),
    {
        let place: Place = locate(nodes, queries[j]);
        assert(is_place(nodes@, queries@[j as int], place));
        let value: T = match place {
            Place::Start => ordinates[0],
            Place::End => ordinates[ordinates.len() - 1],
            Place::Node(i) => ordinates[i],
            Place::Between(i) => cubic(i, j, tangents[i], tangents[i + 1]),
        };
        values.push(value);
    }
    values
}

/// Both keys are there, and the first is not greater.
pub open spec fn at_most(a: Option<i64>, b: Option<i64>) -> bool {
    a matches Some(x) && b matches Some(y) && x <= y
}

/// `value` is the value of the line through two nodes at query number `query`: the ordinate
/// of the first node up to it, that of the second from it on, and what `line` gives
/// otherwise, which includes a query that has no place in the order.
pub open spec fn is_line_value<T, L: Fn(usize, usize) -> T>(
    nodes: Seq<Option<i64>>,
    ordinates: Seq<T>,
    x: Option<i64>,
    query: usize,
    line: L,
    value: T,
) -> bool {
    if at_most(x, nodes[0]) {
        value == ordinates[0]
    } else if at_most(nodes[1], x) {
        value == ordinates[1]
    } else {
        line.ensures((0, query), value)
    }
}

/// What a query needs of the line through two nodes is there.
pub open spec fn has_line_value<T, L: Fn(usize, usize) -> T>(
    nodes: Seq<Option<i64>>,
    ordinates: int,
    x: Option<i64>,
    query: usize,
    line: L,
) -> bool {
    if at_most(x, nodes[0]) {
        ordinates >= 1
    } else if at_most(nodes[1], x) {
        ordinates >= 2
    } else {
        line.requires((0, query))
    }
}

fn key_at_most(a: Option<i64>, b: Option<i64>) -> (r: bool)
    ensures
        r == at_most(a, b),
{
    match (a, b) {
        (Some(x), Some(y)) => x <= y,
        _ => false,
    }
}

fn line_values<T: Copy, L: Fn(usize, usize) -> T>(
    nodes: &[Option<i64>],
    ordinates: &[T],
    queries: &[Option<i64>],
    line: &L,
) -> (r: Vec<T>)
    requires
        nodes@.len() == 2,
        forall|j: int|
            0 <= j < queries@.len() ==> has_line_value(
                nodes@,
                ordinates@.len() as int,
                #[trigger] queries@[j],
                j as usize,
                *line,
            ),
    ensures
        r@.len() == queries@.len(),
        forall|j: int|
            0 <= j < r@.len() ==> is_line_value(
                nodes@,
                ordinates@,
                queries@[j],
                j as usize,
                *line,
                #[trigger] r@[j],
            ),
{
    let mut values: Vec<T> = Vec::new();
    for j in 0..queries.len()
        invariant
            nodes@.len() == 2,
            forall|k: int|
                0 <= k < queries@.len() ==> has_line_value(
                    nodes@,
                    ordinates@.len() as int,
                    #[trigger] queries@[k],
                    k as usize,
                    *line,
                ),
            values@.len() == j,
            forall|k: int|
                0 <= k < j ==> is_line_value(
                    nodes@,
                    ordinates@,
                    queries@[k],
                    k as usize,
                    *line,
                    #[trigger] values@[k],
                ),
    {
        assert(has_line_value(
            nodes@,
            ordinates@.len() as int,
            queries@[j as int],
            j,
            *line,
        ));
        let value: T = if key_at_most(queries[j], nodes[0]) {
            ordinates[0]
        } else if key_at_most(nodes[1], queries[j]) {
            ordinates[1]
        } else {
            line(0, j)
        };
        values.push(value);
    }
    values
}

/// Every key is there.
pub open spec fn all_ordered(keys: Seq<Option<i64>>) -> bool {
    forall|i: int| 0 <= i < keys.len() ==> (#[trigger] keys[i]) is Some
}

/// The keys themselves, where every one is there.
pub open spec fn ordered(keys: Seq<Option<i64>>) -> Seq<i64> {
    keys.map_values(|key: Option<i64>| key->0)
}

fn unwrap_keys(keys: &[Option<i64>]) -> (r: Vec<i64>)
    requires
        all_ordered(keys@),
    ensures
        r@ == ordered(keys@),
{
    let mut out: Vec<i64> = Vec::new();
    for i in 0..keys.len()
        invariant
            all_ordered(keys@),
            out@ == ordered(keys@).take(i as int),
    {
        assert(keys@[i as int] is Some);
        let key: i64 = keys[i].unwrap();
        out.push(key);
        assert(out@ =~= ordered(keys@).take(i + 1));
    }
    assert(out@ =~= ordered(keys@));
    out
}

/// Interpolate by the smooth curve through the nodes: constant through fewer than two, a
/// line through two, and otherwise a cubic in each interval whose derivatives at the nodes
/// follow from the slopes around them. Nodes and queries are given by their order keys,
/// `None` for what has no place in the order; more than two nodes need all of them.
pub fn akima_interp_f64<
    T: Copy,
    S: Fn(usize) -> T,
    E: Fn(T, T) -> T,
    W: Fn(T, T, T, T) -> Binary64,
    D: Fn(T, T, T, T, Binary64) -> T,
    L: Fn(usize, usize) -> T,
    H: Fn(usize, usize, T, T) -> T,
>(
    nodes: &[Option<i64>],
    ordinates: &[T],
    queries: &[Option<i64>],
    zero: T,
    slope: &S,
    extrapolate: &E,
    spread: &W,
    tangent: &D,
    line: &L,
    cubic: &H,
) -> (r: Vec<T>)
    requires
        nodes@.len() == 2 ==> forall|j: int|
            0 <= j < queries@.len() ==> has_line_value(
                nodes@,
                ordinates@.len() as int,
                #[trigger] queries@[j],
                j as usize,
                *line,
            ),
        nodes@.len() > 2 && queries@.len() > 0 ==> {
            &&& nodes@.len() + 3 <= usize::MAX
            &&& all_ordered(nodes@)
            &&& all_ordered(queries@)
            &&& forall|i: usize| i + 1 < nodes@.len() ==> #[trigger] slope.requires((i,))
            &&& forall|j: usize, place: Place|
                j < queries@.len() && #[trigger] is_place(
                    ordered(nodes@),
                    ordered(queries@)[j as int],
                    place,
                ) ==> has_curve_value(ordinates@.len() as int, place, j, *cubic)
        },
        forall|a: T, b: T| #[trigger] extrapolate.requires((a, b)),
        forall|a: T, b: T, c: T, d: T| #[trigger] spread.requires((a, b, c, d)),
        forall|a: T, b: T, c: T, d: T, top: Binary64| #[trigger]
            tangent.requires((a, b, c, d, top)),
    ensures
        r@.len() == queries@.len(),
        nodes@.len() < 2 ==> r@ == Seq::new(
            queries@.len(),
            |j: int|
                if ordinates@.len() > 0 {
                    ordinates@[0]
                } else {
                    zero
                },
        ),
        nodes@.len() == 2 ==> forall|j: int|
            0 <= j < r@.len() ==> is_line_value(
                nodes@,
                ordinates@,
                queries@[j],
                j as usize,
                *line,
                #[trigger] r@[j],
            ),
        nodes@.len() > 2 && queries@.len() > 0 ==> is_smooth_curve(
            ordered(nodes@),
            ordinates@,
            ordered(queries@),
            *slope,
            *extrapolate,
            *spread,
            *tangent,
            *cubic,
            r@,
        ),
{
    if nodes.len() < 2 {
        let value: T = if ordinates.len() > 0 {
            ordinates[0]
        } else {
            zero
        };
        let mut values: Vec<T> = Vec::new();
        for j in 0..queries.len()
            invariant
                values@ == Seq::new(j as nat, |k: int| value),
        {
            values.push(value);
            assert(values@ =~= Seq::new((j + 1) as nat, |k: int| value));
        }
        values
    } else if nodes.len() == 2 {
        line_values(nodes, ordinates, queries, line)
    } else if queries.len() == 0 {
        Vec::new()
    } else {
        let node_keys: Vec<i64> = unwrap_keys(nodes);
        let query_keys: Vec<i64> = unwrap_keys(queries);
        smooth_curve(
            node_keys.as_slice(),
            ordinates,
            query_keys.as_slice(),
            slope,
            extrapolate,
            spread,
            tangent,
            cubic,
        )
    }
}

// ── Derivatives on a grid ─────────────────────────────────────────────

/// `value` is the derivative at point `i`: `edge` of the point and its one neighbour at the
/// ends, in the order of the points, and `inner` of the point and its two neighbours
/// anywhere else.
pub open spec fn is_derivative<
    Y,
    X,
    G,
    E: Fn(Y, Y, X, X) -> G,
    F: Fn(Y, Y, Y, X, X, X) -> G,
>(ordinates: Seq<Y>, abscissas: Seq<X>, edge: E, inner: F, i: int, value: G) -> bool {
    let n = ordinates.len() as int;
    if i == 0 {
        edge.ensures((ordinates[0], ordinates[1], abscissas[0], abscissas[1]), value)
    } else if i == n - 1 {
        edge.ensures((ordinates[n - 2], ordinates[n - 1], abscissas[n - 2], abscissas[n - 1]), value)
    } else {
        inner.ensures(
            (
                ordinates[i - 1],
                ordinates[i],
                ordinates[i + 1],
                abscissas[i - 1],
                abscissas[i],
                abscissas[i + 1],
            ),
            value,
        )
    }
}

/// `values` are the derivatives at each point of a curve.
pub open spec fn is_gradient<Y, X, G, E: Fn(Y, Y, X, X) -> G, F: Fn(Y, Y, Y, X, X, X) -> G>(
    ordinates: Seq<Y>,
    abscissas: Seq<X>,
    edge: E,
    inner: F,
    values: Seq<G>,
) -> bool {
    &&& values.len() == ordinates.len()
    &&& forall|i: int|
        0 <= i < values.len() ==> is_derivative(
            ordinates,
            abscissas,
            edge,
            inner,
            i,
            #[trigger] values[i],
        )
}

/// Derivative at each point of a curve, whose points need not be evenly spaced.
pub fn gradient<
    Y: Copy,
    X: Copy,
    G,
    E: Fn(Y, Y, X, X) -> G,
    F: Fn(Y, Y, Y, X, X, X) -> G,
>(ordinates: &[Y], abscissas: &[X], edge: &E, inner: &F) -> (r: Vec<G>)
    requires
        ordinates@.len() >= 2,
        abscissas@.len() >= ordinates@.len(),
        forall|y0: Y, y1: Y, x0: X, x1: X| #[trigger] edge.requires((y0, y1, x0, x1)),
        forall|y0: Y, y1: Y, y2: Y, x0: X, x1: X, x2: X| #[trigger]
            inner.requires((y0, y1, y2, x0, x1, x2)),
    ensures
        is_gradient(ordinates@, abscissas@, *edge, *inner, r@),
{
    let n: usize = ordinates.len();
    let mut out: Vec<G> = Vec::new();
    for i in 0..n
        invariant
            n == ordinates@.len(),
            n >= 2,
            abscissas@.len() >= n,
            forall|y0: Y, y1: Y, x0: X, x1: X| #[trigger] edge.requires((y0, y1, x0, x1)),
            forall|y0: Y, y1: Y, y2: Y, x0: X, x1: X, x2: X| #[trigger]
                inner.requires((y0, y1, y2, x0, x1, x2)),
            out@.len() == i,
            forall|k: int|
                0 <= k < i ==> is_derivative(
                    ordinates@,
                    abscissas@,
                    *edge,
                    *inner,
                    k,
                    #[trigger] out@[k],
                ),
    {
        let value: G = if i == 0 {
            edge(ordinates[0], ordinates[1], abscissas[0], abscissas[1])
        } else if i == n - 1 {
            edge(ordinates[n - 2], ordinates[n - 1], abscissas[n - 2], abscissas[n - 1])
        } else {
            inner(
                ordinates[i - 1],
                ordinates[i],
                ordinates[i + 1],
                abscissas[i - 1],
                abscissas[i],
                abscissas[i + 1],
            )
        };
        out.push(value);
    }
    out
}

// ── Laws ──────────────────────────────────────────────────────────────

/// Nodes that strictly increase.
pub open spec fn increasing(nodes: Seq<i64>) -> bool {
    forall|i: int, j: int| 0 <= i < j < nodes.len() ==> nodes[i] < nodes[j]
}

/// Among increasing nodes a query has one place only.
pub proof fn law_place_unique(nodes: Seq<i64>, x: i64, a: Place, b: Place)
    requires
        nodes.len() > 0,
        increasing(nodes),
        is_place(nodes, x, a),
        is_place(nodes, x, b),
    ensures
        a == b,
{
    match (a, b) {
        (Place::Node(i), Place::Node(j)) => {
            if i < j {
                assert(nodes[i as int] < nodes[j as int]);
            } else if j < i {
                assert(nodes[j as int] < nodes[i as int]);
            }
        },
        (Place::Between(i), Place::Between(j)) => {
            if i < j && i + 1 < j {
                assert(nodes[i + 1] < nodes[j as int]);
            } else if j < i && j + 1 < i {
                assert(nodes[j + 1] < nodes[i as int]);
            }
        },
        (Place::Node(i), Place::Between(j)) => {
            if i < j {
                assert(nodes[i as int] < nodes[j as int]);
            } else if j + 1 < i {
                assert(nodes[j + 1] < nodes[i as int]);
            }
        },
        (Place::Between(j), Place::Node(i)) => {
            if i < j {
                assert(nodes[i as int] < nodes[j as int]);
            } else if j + 1 < i {
                assert(nodes[j + 1] < nodes[i as int]);
            }
        },
        _ => {},
    }
}

/// An interpolation through increasing nodes goes through them: at a node it has the
/// node's ordinate.
pub proof fn law_interpolation_meets_nodes<T, F: Fn(usize, usize) -> T>(
    nodes: Seq<i64>,
    ordinates: Seq<T>,
    queries: Seq<i64>,
    between: F,
    values: Seq<T>,
    i: int,
    j: int,
)
    requires
        0 <= i < nodes.len(),
        nodes.len() == ordinates.len(),
        increasing(nodes),
        interpolates(nodes, ordinates, queries, between, values),
        0 <= j < queries.len(),
        queries[j] == nodes[i],
    ensures
        values[j] == ordinates[i],
{
    assert(is_interpolated(nodes, ordinates, queries[j], j as usize, between, values[j]));
    let place = choose|place: Place| #[trigger]
        is_place(nodes, queries[j], place) && is_value_at(
            ordinates,
            place,
            j as usize,
            between,
            values[j],
        );
    match place {
        Place::Start => {
            if 0 < i {
                assert(nodes[0] < nodes[i]);
            }
        },
        Place::End => {
            if i < nodes.len() - 1 {
                assert(nodes[i] < nodes[nodes.len() - 1]);
            }
        },
        Place::Node(k) => {
            if k < i {
                assert(nodes[k as int] < nodes[i]);
            } else if i < k {
                assert(nodes[i] < nodes[k as int]);
            }
        },
        Place::Between(k) => {
            if i < k {
                assert(nodes[i] < nodes[k as int]);
            } else if k + 1 < i {
                assert(nodes[k + 1] < nodes[i]);
            }
        },
    }
}

/// The smooth curve through increasing nodes goes through them as well.
pub proof fn law_smooth_curve_meets_nodes<
    T,
    S: Fn(usize) -> T,
    E: Fn(T, T) -> T,
    W: Fn(T, T, T, T) -> Binary64,
    D: Fn(T, T, T, T, Binary64) -> T,
    H: Fn(usize, usize, T, T) -> T,
>(
    nodes: Seq<i64>,
    ordinates: Seq<T>,
    queries: Seq<i64>,
    slope: S,
    extrapolate: E,
    spread: W,
    tangent: D,
    cubic: H,
    values: Seq<T>,
    i: int,
    j: int,
)
    requires
        0 <= i < nodes.len(),
        nodes.len() == ordinates.len(),
        increasing(nodes),
        is_smooth_curve(
            nodes,
            ordinates,
            queries,
            slope,
            extrapolate,
            spread,
            tangent,
            cubic,
            values,
        ),
        0 <= j < queries.len(),
        queries[j] == nodes[i],
    ensures
        values[j] == ordinates[i],
{
    let (slopes, tangents) = choose|slopes: Seq<T>, tangents: Seq<T>|
        {
            &&& slopes.len() == nodes.len() - 1
            &&& forall|k: int|
                0 <= k < slopes.len() ==> slope.ensures((k as usize,), #[trigger] slopes[k])
            &&& #[trigger] are_tangents(slopes, extrapolate, spread, tangent, tangents)
            &&& values.len() == queries.len()
            &&& forall|k: int|
                0 <= k < values.len() ==> is_curve_value(
                    nodes,
                    ordinates,
                    tangents,
                    queries[k],
                    k as usize,
                    cubic,
                    #[trigger] values[k],
                )
        };
    assert(is_curve_value(
        nodes,
        ordinates,
        tangents,
        queries[j],
        j as usize,
        cubic,
        values[j],
    ));
    let place = choose|place: Place| #[trigger]
        is_place(nodes, queries[j], place) && is_curve_value_at(
            ordinates,
            tangents,
            place,
            j as usize,
            cubic,
            values[j],
        );
    assert(0 < i ==> nodes[0] < nodes[i]);
    assert(i < nodes.len() - 1 ==> nodes[i] < nodes[nodes.len() - 1]);
    if place is Node {
        let k = place->Node_0;
        assert(k < i ==> nodes[k as int] < nodes[i]);
        assert(i < k ==> nodes[i] < nodes[k as int]);
    }
    if place is Between {
        let k = place->Between_0;
        assert(i < k ==> nodes[i] < nodes[k as int]);
        assert(k + 1 < i ==> nodes[k + 1] < nodes[i]);
    }
}

pub proof fn lemma_place_between(nodes: Seq<i64>, x: i64, i: int, place: Place)
    requires
        increasing(nodes),
        0 <= i < nodes.len() - 1,
        nodes[i] < x < nodes[i + 1],
        is_place(nodes, x, place),
    ensures
        place is Between,
        place->Between_0 == i,
{
    assert(0 < i ==> nodes[0] < nodes[i]);
    assert(i + 1 < nodes.len() - 1 ==> nodes[i + 1] < nodes[nodes.len() - 1]);
    if place is Node {
        let k = place->Node_0;
        assert(k < i ==> nodes[k as int] < nodes[i]);
        assert(i + 1 < k ==> nodes[i + 1] < nodes[k as int]);
    }
    if place is Between {
        let k = place->Between_0;
        assert(k + 1 < i ==> nodes[k + 1] < nodes[i]);
        assert(i + 1 < k ==> nodes[i + 1] < nodes[k as int]);
    }
}

/// An interpolation holds its ends: a query up to the first node has the first ordinate,
/// and one from the last node on, behind the first, has the last.
pub proof fn law_interpolation_holds_ends<T, F: Fn(usize, usize) -> T>(
    nodes: Seq<i64>,
    ordinates: Seq<T>,
    queries: Seq<i64>,
    between: F,
    values: Seq<T>,
    j: int,
)
    requires
        nodes.len() > 0,
        increasing(nodes),
        interpolates(nodes, ordinates, queries, between, values),
        0 <= j < queries.len(),
    ensures
        values.len() == queries.len(),
        queries[j] <= nodes[0] ==> values[j] == ordinates[0],
        queries[j] > nodes[0] && queries[j] >= nodes.last() ==> values[j] == ordinates.last(),
{
    assert(is_interpolated(nodes, ordinates, queries[j], j as usize, between, values[j]));
}

/// Between two neighbouring nodes an interpolation is what the caller draws between these
/// two, for this query.
pub proof fn law_interpolation_between_nodes<T, F: Fn(usize, usize) -> T>(
    nodes: Seq<i64>,
    ordinates: Seq<T>,
    queries: Seq<i64>,
    between: F,
    values: Seq<T>,
    i: int,
    j: int,
)
    requires
        increasing(nodes),
        interpolates(nodes, ordinates, queries, between, values),
        0 <= j < queries.len(),
        0 <= i < nodes.len() - 1,
        nodes[i] < queries[j] < nodes[i + 1],
    ensures
        between.ensures((i as usize, j as usize), values[j]),
{
    assert(is_interpolated(nodes, ordinates, queries[j], j as usize, between, values[j]));
    let place = choose|place: Place| #[trigger]
        is_place(nodes, queries[j], place) && is_value_at(
            ordinates,
            place,
            j as usize,
            between,
            values[j],
        );
    lemma_place_between(nodes, queries[j], i, place);
}

/// A curve with derivatives at its nodes holds its ends, and between two neighbouring
/// nodes it is what the caller draws from the derivatives at these two.
pub proof fn law_curve_value<T, H: Fn(usize, usize, T, T) -> T>(
    nodes: Seq<i64>,
    ordinates: Seq<T>,
    tangents: Seq<T>,
    x: i64,
    query: usize,
    cubic: H,
    value: T,
    i: int,
)
    requires
        nodes.len() > 0,
        increasing(nodes),
        is_curve_value(nodes, ordinates, tangents, x, query, cubic, value),
    ensures
        x <= nodes[0] ==> value == ordinates[0],
        x > nodes[0] && x >= nodes.last() ==> value == ordinates.last(),
        0 <= i < nodes.len() - 1 && nodes[i] < x < nodes[i + 1] ==> cubic.ensures(
            (i as usize, query, tangents[i], tangents[i + 1]),
            value,
        ),
        0 < i < nodes.len() - 1 && x == nodes[i] ==> value == ordinates[i],
{
    let place = choose|place: Place| #[trigger]
        is_place(nodes, x, place) && is_curve_value_at(
            ordinates,
            tangents,
            place,
            query,
            cubic,
            value,
        );
    if 0 <= i < nodes.len() - 1 && nodes[i] < x < nodes[i + 1] {
        lemma_place_between(nodes, x, i, place);
    }
    if 0 < i < nodes.len() - 1 && x == nodes[i] {
        assert(nodes[0] < nodes[i] && nodes[i] < nodes[nodes.len() - 1]);
        law_place_unique(nodes, x, place, Place::Node(i as usize));
    }
}

/// The smooth curve holds its ends, and between two neighbouring nodes it is drawn from the
/// derivatives that the slopes give at these two.
pub proof fn law_smooth_curve_between_nodes<
    T,
    S: Fn(usize) -> T,
    E: Fn(T, T) -> T,
    W: Fn(T, T, T, T) -> Binary64,
    D: Fn(T, T, T, T, Binary64) -> T,
    H: Fn(usize, usize, T, T) -> T,
>(
    nodes: Seq<i64>,
    ordinates: Seq<T>,
    queries: Seq<i64>,
    slope: S,
    extrapolate: E,
    spread: W,
    tangent: D,
    cubic: H,
    values: Seq<T>,
    i: int,
    j: int,
)
    requires
        0 <= i < nodes.len() - 1,
        increasing(nodes),
        is_smooth_curve(
            nodes,
            ordinates,
            queries,
            slope,
            extrapolate,
            spread,
            tangent,
            cubic,
            values,
        ),
        0 <= j < queries.len(),
    ensures
        values.len() == queries.len(),
        queries[j] <= nodes[0] ==> values[j] == ordinates[0],
        queries[j] >= nodes.last() ==> values[j] == ordinates.last(),
        nodes[i] < queries[j] < nodes[i + 1] ==> exists|slopes: Seq<T>, tangents: Seq<T>|
            {
                &&& slopes.len() == nodes.len() - 1
                &&& forall|k: int|
                    0 <= k < slopes.len() ==> slope.ensures((k as usize,), #[trigger] slopes[k])
                &&& #[trigger] are_tangents(slopes, extrapolate, spread, tangent, tangents)
                &&& cubic.ensures(
                    (i as usize, j as usize, tangents[i], tangents[i + 1]),
                    values[j],
                )
            },
{
    let (slopes, tangents) = choose|slopes: Seq<T>, tangents: Seq<T>|
        {
            &&& slopes.len() == nodes.len() - 1
            &&& forall|k: int|
                0 <= k < slopes.len() ==> slope.ensures((k as usize,), #[trigger] slopes[k])
            &&& #[trigger] are_tangents(slopes, extrapolate, spread, tangent, tangents)
            &&& values.len() == queries.len()
            &&& forall|k: int|
                0 <= k < values.len() ==> is_curve_value(
                    nodes,
                    ordinates,
                    tangents,
                    queries[k],
                    k as usize,
                    cubic,
                    #[trigger] values[k],
                )
        };
    assert(is_curve_value(nodes, ordinates, tangents, queries[j], j as usize, cubic, values[j]));
    assert(nodes[0] < nodes[nodes.len() - 1]);
    law_curve_value(
        nodes,
        ordinates,
        tangents,
        queries[j],
        j as usize,
        cubic,
        values[j],
        i,
    );
    assert(are_tangents(slopes, extrapolate, spread, tangent, tangents));
}

/// The largest of some weights is not negative, none of the numbers among them is larger,
/// and it is one of them unless none is positive.
pub proof fn law_top_weight(weights: Seq<Binary64>, top: Binary64)
    requires
        is_top_weight(weights, top),
    ensures
        !top.spec_is_nan(),
        forall|i: int|
            0 <= i < weights.len() ==> (#[trigger] weights[i]).spec_is_nan() || weights[i].units()
                <= top.units(),
        weights.contains(top) || top.units() == 0 && forall|i: int|
            0 <= i < weights.len() ==> (#[trigger] weights[i]).spec_is_nan() || weights[i].units()
                <= 0,
{
    crate::ieee::law_zero_64(Binary64 { bits: 0 });
    assert forall|i: int| 0 <= i < weights.len() implies (#[trigger] weights[i]).spec_is_nan()
        || weights[i].units() <= top.units() by {
        crate::ieee::law_exceeds_64(weights[i], top);
    }
    if top.bits != 0 {
        let i = choose|i: int| 0 <= i < weights.len() && #[trigger] weights[i] == top;
        assert(weights.contains(top));
    }
}

/// Slopes that are all one slope are the derivative at every node, where drawing one slope
/// on gives it again and so does the derivative of four times the same.
pub proof fn law_tangents_of_a_line<
    T,
    E: Fn(T, T) -> T,
    W: Fn(T, T, T, T) -> Binary64,
    D: Fn(T, T, T, T, Binary64) -> T,
>(slopes: Seq<T>, extrapolate: E, spread: W, tangent: D, tangents: Seq<T>, slope: T, i: int)
    requires
        slopes.len() >= 2,
        are_tangents(slopes, extrapolate, spread, tangent, tangents),
        forall|k: int| 0 <= k < slopes.len() ==> #[trigger] slopes[k] == slope,
        forall|s: T| #[trigger] extrapolate.ensures((slope, slope), s) ==> s == slope,
        forall|top: Binary64, s: T| #[trigger]
            tangent.ensures((slope, slope, slope, slope, top), s) ==> s == slope,
        0 <= i <= slopes.len(),
    ensures
        tangents.len() == slopes.len() + 1,
        tangents[i] == slope,
{
    let n = slopes.len() as int;
    let (m, weights, top) = choose|m: Seq<T>, weights: Seq<Binary64>, top: Binary64|
        {
            &&& #[trigger] extends_slopes(slopes, extrapolate, m)
            &&& weights.len() == slopes.len() + 1
            &&& forall|k: int|
                0 <= k < weights.len() ==> spread.ensures(
                    (m[k], m[k + 1], m[k + 2], m[k + 3]),
                    #[trigger] weights[k],
                )
            &&& #[trigger] is_top_weight(weights, top)
            &&& tangents.len() == slopes.len() + 1
            &&& forall|k: int|
                0 <= k < tangents.len() ==> tangent.ensures(
                    (m[k], m[k + 1], m[k + 2], m[k + 3], top),
                    #[trigger] tangents[k],
                )
        };
    assert forall|k: int| 0 <= k < m.len() implies #[trigger] m[k] == slope by {
        if 2 <= k < n + 2 {
            assert(m[k] == m.subrange(2, n + 2)[k - 2]);
            assert(m[k] == slopes[k - 2]);
        }
        assert(slopes[0] == slope && slopes[1] == slope && slopes[n - 1] == slope && slopes[n - 2]
            == slope);
    }
    assert(tangent.ensures((m[i], m[i + 1], m[i + 2], m[i + 3], top), tangents[i]));
}

/// The derivative at a node follows from the two slopes before it and the two behind it,
/// in their order, and from one measure for all nodes, which no spread of four such slopes
/// exceeds. At the ends the slopes are drawn on from the two nearest, the nearer first.
pub proof fn law_tangent_neighbours<
    T,
    E: Fn(T, T) -> T,
    W: Fn(T, T, T, T) -> Binary64,
    D: Fn(T, T, T, T, Binary64) -> T,
>(slopes: Seq<T>, extrapolate: E, spread: W, tangent: D, tangents: Seq<T>, n: int)
    requires
        slopes.len() == n >= 2,
        are_tangents(slopes, extrapolate, spread, tangent, tangents),
    ensures
        exists|before: (T, T), behind: (T, T), top: Binary64|
            {
                &&& #[trigger] extrapolate.ensures((slopes[0], slopes[1]), before.1)
                &&& extrapolate.ensures((before.1, slopes[0]), before.0)
                &&& #[trigger] extrapolate.ensures((slopes[n - 1], slopes[n - 2]), behind.0)
                &&& extrapolate.ensures((behind.0, slopes[n - 1]), behind.1)
                &&& #[trigger] tangent.ensures(
                    (before.0, before.1, slopes[0], slopes[1], top),
                    tangents[0],
                )
                &&& tangent.ensures(
                    (slopes[n - 2], slopes[n - 1], behind.0, behind.1, top),
                    tangents[n],
                )
                &&& n == 2 ==> tangent.ensures(
                    (before.1, slopes[0], slopes[1], behind.0, top),
                    tangents[1],
                )
                &&& n > 2 ==> tangent.ensures(
                    (before.1, slopes[0], slopes[1], slopes[2], top),
                    tangents[1],
                )
                &&& n > 2 ==> tangent.ensures(
                    (slopes[n - 3], slopes[n - 2], slopes[n - 1], behind.0, top),
                    tangents[n - 1],
                )
                &&& forall|i: int|
                    2 <= i <= n - 2 ==> tangent.ensures(
                        (slopes[i - 2], slopes[i - 1], slopes[i], slopes[i + 1], top),
                        #[trigger] tangents[i],
                    )
                &&& forall|i: int|
                    2 <= i <= n - 2 ==> bounds_spread(
                        spread,
                        slopes[i - 2],
                        slopes[i - 1],
                        #[trigger] slopes[i],
                        slopes[i + 1],
                        top,
                    )
            },
{
    let (m, weights, top) = choose|m: Seq<T>, weights: Seq<Binary64>, top: Binary64|
        {
            &&& #[trigger] extends_slopes(slopes, extrapolate, m)
            &&& weights.len() == slopes.len() + 1
            &&& forall|k: int|
                0 <= k < weights.len() ==> spread.ensures(
                    (m[k], m[k + 1], m[k + 2], m[k + 3]),
                    #[trigger] weights[k],
                )
            &&& #[trigger] is_top_weight(weights, top)
            &&& tangents.len() == slopes.len() + 1
            &&& forall|k: int|
                0 <= k < tangents.len() ==> tangent.ensures(
                    (m[k], m[k + 1], m[k + 2], m[k + 3], top),
                    #[trigger] tangents[k],
                )
        };
    let before = (m[0], m[1]);
    let behind = (m[n + 2], m[n + 3]);
    assert forall|k: int| 2 <= k < n + 2 implies #[trigger] m[k] == slopes[k - 2] by {
        assert(m[k] == m.subrange(2, n + 2)[k - 2]);
    }
    assert(extrapolate.ensures((slopes[0], slopes[1]), before.1));
    assert(extrapolate.ensures((slopes[n - 1], slopes[n - 2]), behind.0));
    assert(tangent.ensures((m[0], m[1], m[2], m[3], top), tangents[0]));
    assert(tangent.ensures((before.0, before.1, slopes[0], slopes[1], top), tangents[0]));
    assert(extrapolate.ensures((before.1, slopes[0]), before.0));
    assert(extrapolate.ensures((behind.0, slopes[n - 1]), behind.1));
    assert(tangent.ensures((m[n], m[n + 1], m[n + 2], m[n + 3], top), tangents[n]));
    assert(tangent.ensures((m[1], m[2], m[3], m[4], top), tangents[1]));
    assert(tangent.ensures((m[n - 1], m[n], m[n + 1], m[n + 2], top), tangents[n - 1]));
    assert(tangent.ensures(
        (slopes[n - 2], slopes[n - 1], behind.0, behind.1, top),
        tangents[n],
    ));
    if n == 2 {
        assert(tangent.ensures((before.1, slopes[0], slopes[1], behind.0, top), tangents[1]));
    } else {
        assert(tangent.ensures((before.1, slopes[0], slopes[1], slopes[2], top), tangents[1]));
        assert(tangent.ensures(
            (slopes[n - 3], slopes[n - 2], slopes[n - 1], behind.0, top),
            tangents[n - 1],
        ));
    }
    assert forall|i: int| 2 <= i <= n - 2 implies tangent.ensures(
        (slopes[i - 2], slopes[i - 1], slopes[i], slopes[i + 1], top),
        #[trigger] tangents[i],
    ) by {
        assert(m[i] == slopes[i - 2] && m[i + 1] == slopes[i - 1] && m[i + 2] == slopes[i] && m[i
            + 3] == slopes[i + 1]);
        assert(tangent.ensures((m[i], m[i + 1], m[i + 2], m[i + 3], top), tangents[i]));
    }
    assert forall|i: int| 2 <= i <= n - 2 implies bounds_spread(
        spread,
        slopes[i - 2],
        slopes[i - 1],
        #[trigger] slopes[i],
        slopes[i + 1],
        top,
    ) by {
        assert(m[i] == slopes[i - 2] && m[i + 1] == slopes[i - 1] && m[i + 2] == slopes[i] && m[i
            + 3] == slopes[i + 1]);
        law_top_weight(weights, top);
        assert(spread.ensures((m[i], m[i + 1], m[i + 2], m[i + 3]), weights[i]));
    }
}

/// The spread of the four slopes is no number, or not larger than `top`.
pub open spec fn bounds_spread<T, W: Fn(T, T, T, T) -> Binary64>(
    spread: W,
    a: T,
    b: T,
    c: T,
    d: T,
    top: Binary64,
) -> bool {
    exists|weight: Binary64| #[trigger]
        spread.ensures((a, b, c, d), weight) && (weight.spec_is_nan() || weight.units()
            <= top.units())
}

/// The line through two nodes holds its ends: a query up to the first node has the first
/// ordinate, one from the second on the second. Only what lies between them, or has no
/// place in the order, is drawn.
pub proof fn law_line_holds_ends<T, L: Fn(usize, usize) -> T>(
    first: i64,
    second: i64,
    ordinates: Seq<T>,
    x: Option<i64>,
    query: usize,
    line: L,
    value: T,
)
    requires
        first < second,
        is_line_value(seq![Some(first), Some(second)], ordinates, x, query, line, value),
    ensures
        x matches Some(k) && k <= first ==> value == ordinates[0],
        x matches Some(k) && k >= second ==> value == ordinates[1],
        x matches Some(k) && first < k < second ==> line.ensures((0, query), value),
        x is None ==> line.ensures((0, query), value),
{
}

/// The derivative at a point follows from the point and its neighbours in the order of the
/// points: both neighbours inside the curve, and the one there is at either end.
pub proof fn law_gradient_neighbours<
    Y,
    X,
    G,
    E: Fn(Y, Y, X, X) -> G,
    F: Fn(Y, Y, Y, X, X, X) -> G,
>(y: Seq<Y>, x: Seq<X>, edge: E, inner: F, values: Seq<G>, i: int)
    requires
        y.len() >= 2,
        is_gradient(y, x, edge, inner, values),
        0 <= i < y.len(),
    ensures
        values.len() == y.len(),
        0 < i < y.len() - 1 ==> inner.ensures(
            (y[i - 1], y[i], y[i + 1], x[i - 1], x[i], x[i + 1]),
            values[i],
        ),
        edge.ensures((y[0], y[1], x[0], x[1]), values[0]),
        edge.ensures(
            (y[y.len() - 2], y[y.len() - 1], x[y.len() - 2], x[y.len() - 1]),
            values[y.len() - 1],
        ),
{
    assert(is_derivative(y, x, edge, inner, i, values[i]));
    assert(is_derivative(y, x, edge, inner, 0, values[0]));
    assert(is_derivative(y, x, edge, inner, y.len() - 1, values[y.len() - 1]));
}

} // verus!
