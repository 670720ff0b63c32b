use vstd::prelude::*;

use chrono::NaiveDateTime;

use vstd::string::*;

use crate::error::{parse_id, DatabaseError, ModelResult};
use crate::ids::{uuid_from_text, uuid_hyphenated, uuid_text};
use crate::text::{decimal_text, i32_text};

verus! {

/// A pixel entry as the database stores it.
pub struct PixelModel {
    /// Community/canvas the pixel belongs to.
    pub community_id: Option<u128>,
    /// X coordinate of the pixel.
    pub x: i64,
    /// Y coordinate of the pixel.
    pub y: i64,
    /// User who placed the pixel.
    pub user_id: u128,
    /// Colour of the pixel in `0xRRGGBB` form.
    pub color: i32,
    /// When the pixel was placed.
    pub placed_at: NaiveDateTime,
}

/// The data required to place pixels.
pub struct PixelCreation {
    /// The pixels to place, each as `[x, y, colour]`.
    pub pixels: Vec<[i64; 3]>,
    /// Identifier of the user placing the pixels (as text).
    pub user_id: String,
    /// Optional community/canvas that scopes the placement (as text).
    pub community_id: Option<String>,
}

/// One pixel as it is written to the database: the columns hold 32-bit
/// integers, so each coordinate and the colour are truncated to `i32`.
pub struct PixelRow {
    pub x: i32,
    pub y: i32,
    pub color: i32,
}

/// The coins that a placement earns the user, with the note that the ledger
/// keeps for them.
pub struct PixelReward {
    pub amount: i32,
    pub reference: Option<String>,
}

/// A checked placement: the parsed identifiers, the rows to write and the
/// reward to record, all in one transaction.
pub struct PixelPlacement {
    pub community_id: Option<u128>,
    pub user_id: u128,
    pub rows: Vec<PixelRow>,
    pub reward: Option<PixelReward>,
}

/// The ledger note for a reward of `amount` coins for pixels in `community`.
pub open spec fn reward_reference(amount: i32, community: Seq<char>) -> Seq<char> {
    "Placed "@ + decimal_text(amount as int) + " pixels in community "@ + community
}

/// The row written for the pixel `[x, y, colour]`.
pub open spec fn pixel_row(p: [i64; 3]) -> PixelRow {
    PixelRow { x: p@[0] as i32, y: p@[1] as i32, color: p@[2] as i32 }
}

/// The identifiers of a placement parse.
pub open spec fn placement_ids_valid(c: PixelCreation) -> bool {
    &&& (c.community_id matches Some(text) ==> uuid_from_text(text@) is Some)
    &&& uuid_from_text(c.user_id@) is Some
}

impl PixelCreation {
    /// Checks a placement and works out what it writes: the community (when
    /// given) and the user must be identifiers; one row per pixel; and, when
    /// the number of pixels as an `i32` is positive, a reward of that many coins,
    /// with a note naming the community when there is one.
    pub fn prepare(&self) -> (res: ModelResult<PixelPlacement>)
        ensures
            res is Ok <==> placement_ids_valid(*self),
            res is Ok <==> (uuid_from_text(self.user_id@) is Some && (self.community_id is None
                || uuid_from_text(self.community_id->0@) is Some)),
            res matches Err(e) ==> e is UuidParseError,
            res matches Ok(p) ==> forall|i: int|
                0 <= i < self.pixels@.len() ==> {
                    &&& (#[trigger] p.rows@[i]).x == self.pixels@[i]@[0] as i32
                    &&& p.rows@[i].y == self.pixels@[i]@[1] as i32
                    &&& p.rows@[i].color == self.pixels@[i]@[2] as i32
                },
            res matches Ok(p) ==> p.reward matches Some(r) ==> r.reference matches Some(note)
                ==> note@ == "Placed "@ + decimal_text(self.pixels@.len() as i32 as int)
                + " pixels in community "@ + self.community_id->0@,
            res matches Ok(p) ==> {
                &&& p.community_id == (match self.community_id {
                    Some(text) => uuid_from_text(text@),
                    None => None,
                })
                &&& Some(p.user_id) == uuid_from_text(self.user_id@)
                &&& p.rows@.len() == self.pixels@.len()
                &&& forall|i: int|
                    0 <= i < self.pixels@.len() ==> #[trigger] p.rows@[i] == pixel_row(
                        self.pixels@[i],
                    )
                &&& (p.reward is Some <==> (self.pixels@.len() as i32) > 0)
                &&& p.reward matches Some(r) ==> {
                    &&& r.amount == self.pixels@.len() as i32
                    &&& (r.reference is Some <==> self.community_id is Some)
                    &&& r.reference matches Some(note) ==> note@ == reward_reference(
                        r.amount,
                        self.community_id->0@,
                    )
                }
            },
    {
        let community_id = match &self.community_id {
            Some(text) => match parse_id(text.as_str()) {
                Ok(id) => Some(id),
                Err(e) => {
                    return Err(e);
                },
            },
            None => None,
        };
        let user_id = match parse_id(self.user_id.as_str()) {
            Ok(id) => id,
            Err(e) => {
                return Err(e);
            },
        };
        let amount = self.pixels.len() as i32;
        let mut rows: Vec<PixelRow> = Vec::new();
        let mut i: usize = 0;
        while i < self.pixels.len()
            invariant
                i <= self.pixels@.len(),
                rows@.len() == i,
                forall|j: int| 0 <= j < i ==> #[trigger] rows@[j] == pixel_row(self.pixels@[j]),
            decreases self.pixels@.len() - i,
        {
            let p = &self.pixels[i];
            rows.push(PixelRow { x: p[0] as i32, y: p[1] as i32, color: p[2] as i32 });
            i = i + 1;
        }
        let reward = if amount > 0 {
            let reference = match &self.community_id {
                Some(text) => {
                    let mut note = "Placed ".to_string();
                    note.append(i32_text(amount).as_str());
                    note.append(" pixels in community ");
                    note.append(text.as_str());
                    Some(note)
                },
                None => None,
            };
            Some(PixelReward { amount, reference })
        } else {
            None
        };
        Ok(PixelPlacement { community_id, user_id, rows, reward })
    }
}

/// The result of placing or reading a pixel.
#[derive(Clone)]
pub struct PixelResult {
    /// The community/canvas identifier when present.
    pub community_id: Option<String>,
    /// X coordinate of the pixel.
    pub x: i64,
    /// Y coordinate of the pixel.
    pub y: i64,
    /// Identifier of the user who placed the pixel (as text).
    pub user_id: String,
    /// Colour of the pixel in `0xRRGGBB` form.
    pub color: i32,
}

/// A run of horizontally adjacent pixels of one colour, starting at `(x, y)`.
pub struct CompressedPixel {
    pub community_id: Option<String>,
    pub x: i64,
    pub y: i64,
    pub run: i64,
    pub color: i32,
}

// ---------------------------------------------------------------------------
// Canvas order: rows top to bottom, each row left to right, and pixels at the
// same position in the order in which they were given.
// ---------------------------------------------------------------------------

/// `p` comes strictly before `q` by position: smaller `y`, or same `y` and smaller `x`.
pub open spec fn position_lt(p: PixelResult, q: PixelResult) -> bool {
    p.y < q.y || (p.y == q.y && p.x < q.x)
}

/// `p` and `q` sit at the same position.
pub open spec fn same_position(p: PixelResult, q: PixelResult) -> bool {
    p.y == q.y && p.x == q.x
}

/// The pixel at index `i` of `s` comes before the one at index `j` in canvas
/// order: by position, and by index among pixels at the same position.
pub open spec fn precedes(s: Seq<PixelResult>, i: int, j: int) -> bool {
    position_lt(s[i], s[j]) || (same_position(s[i], s[j]) && i < j)
}

/// `order` lists the indices `lo..hi` of `s`, each once, in canvas order.
pub open spec fn orders_range(s: Seq<PixelResult>, order: Seq<usize>, lo: int, hi: int) -> bool {
    &&& order.len() == hi - lo
    &&& forall|k: int| 0 <= k < order.len() ==> lo <= #[trigger] order[k] < hi
    &&& forall|i: usize| lo <= i < hi ==> #[trigger] order.contains(i)
    &&& forall|k1: int, k2: int|
        0 <= k1 < k2 < order.len() ==> precedes(s, #[trigger] order[k1] as int, #[trigger] order[k2] as int)
}

/// `order` lists every index of `s` once, in canvas order: the stable sort of
/// `s` by `(y, x)`.
pub open spec fn is_canvas_order(s: Seq<PixelResult>, order: Seq<usize>) -> bool {
    orders_range(s, order, 0, s.len() as int)
}

/// The canvas order of `s` (unique: see `lemma_canvas_order_unique`).
pub open spec fn canvas_order(s: Seq<PixelResult>) -> Seq<usize> {
    choose|order: Seq<usize>| is_canvas_order(s, order)
}

/// The pixels of `s` in canvas order.
pub open spec fn in_canvas_order(s: Seq<PixelResult>) -> Seq<PixelResult> {
    canvas_order(s).map_values(|i: usize| s[i as int])
}

proof fn lemma_precedes_transitive(s: Seq<PixelResult>, i: int, j: int, k: int)
    requires
        precedes(s, i, j),
        precedes(s, j, k),
    ensures
        precedes(s, i, k),
{
}

proof fn lemma_precedes_total(s: Seq<PixelResult>, i: int, j: int)
    requires
        i != j,
    ensures
        precedes(s, i, j) || precedes(s, j, i),
{
}

/// Two sequences of indices that both list the same indices in strictly
/// increasing canvas order are equal.
proof fn lemma_ordered_lists_equal(s: Seq<PixelResult>, o1: Seq<usize>, o2: Seq<usize>)
    requires
        forall|k1: int, k2: int|
            0 <= k1 < k2 < o1.len() ==> precedes(s, #[trigger] o1[k1] as int, #[trigger] o1[k2] as int),
        forall|k1: int, k2: int|
            0 <= k1 < k2 < o2.len() ==> precedes(s, #[trigger] o2[k1] as int, #[trigger] o2[k2] as int),
        forall|x: usize| o1.contains(x) <==> o2.contains(x),
    ensures
        o1 == o2,
    decreases o1.len(),
{
    if o1.len() == 0 {
        if o2.len() > 0 {
            assert(o2.contains(o2[0]));
        }
        assert(o1 =~= o2);
    } else if o2.len() == 0 {
        assert(o1.contains(o1[0]));
    } else {
        let a = o1[0];
        let b = o2[0];
        assert(o1.contains(a));
        assert(o2.contains(b));
        if a != b {
            let m = choose|m: int| 0 <= m < o2.len() && o2[m] == a;
            let n = choose|n: int| 0 <= n < o1.len() && o1[n] == b;
            assert(precedes(s, o2[0] as int, o2[m] as int));
            assert(precedes(s, o1[0] as int, o1[n] as int));
        }
        let t1 = o1.drop_first();
        let t2 = o2.drop_first();
        assert forall|x: usize| t1.contains(x) <==> t2.contains(x) by {
            if t1.contains(x) {
                let m = choose|m: int| 0 <= m < t1.len() && t1[m] == x;
                assert(o1[m + 1] == x);
                assert(precedes(s, o1[0] as int, o1[m + 1] as int));
                assert(o1.contains(x));
                assert(o2.contains(x));
                let n = choose|n: int| 0 <= n < o2.len() && o2[n] == x;
                assert(n != 0);
                assert(t2[n - 1] == x);
            }
            if t2.contains(x) {
                let m = choose|m: int| 0 <= m < t2.len() && t2[m] == x;
                assert(o2[m + 1] == x);
                assert(precedes(s, o2[0] as int, o2[m + 1] as int));
                assert(o2.contains(x));
                assert(o1.contains(x));
                let n = choose|n: int| 0 <= n < o1.len() && o1[n] == x;
                assert(n != 0);
                assert(t1[n - 1] == x);
            }
        }
        assert forall|k1: int, k2: int| 0 <= k1 < k2 < t1.len() implies precedes(
            s,
            #[trigger] t1[k1] as int,
            #[trigger] t1[k2] as int,
        ) by {
            assert(precedes(s, o1[k1 + 1] as int, o1[k2 + 1] as int));
        }
        assert forall|k1: int, k2: int| 0 <= k1 < k2 < t2.len() implies precedes(
            s,
            #[trigger] t2[k1] as int,
            #[trigger] t2[k2] as int,
        ) by {
            assert(precedes(s, o2[k1 + 1] as int, o2[k2 + 1] as int));
        }
        lemma_ordered_lists_equal(s, t1, t2);
        assert(o1 =~= seq![a] + t1);
        assert(o2 =~= seq![b] + t2);
    }
}

/// Canvas order is determined by the pixels: any two canvas orders of the
/// same sequence are equal, so sorting by `(y, x)` stably has one outcome.
pub proof fn lemma_canvas_order_unique(s: Seq<PixelResult>, o1: Seq<usize>, o2: Seq<usize>)
    requires
        is_canvas_order(s, o1),
        is_canvas_order(s, o2),
    ensures
        o1 == o2,
{
    assert forall|x: usize| o1.contains(x) <==> o2.contains(x) by {
        if o1.contains(x) {
            let m = choose|m: int| 0 <= m < o1.len() && o1[m] == x;
            assert(0 <= o1[m] < s.len());
            assert(o2.contains(x));
        }
        if o2.contains(x) {
            let m = choose|m: int| 0 <= m < o2.len() && o2[m] == x;
            assert(0 <= o2[m] < s.len());
            assert(o1.contains(x));
        }
    }
    lemma_ordered_lists_equal(s, o1, o2);
}

/// Inserts index `x` into the canvas-ordered list `o`, scanning from the end.
spec fn insert_in_order(s: Seq<PixelResult>, o: Seq<usize>, x: usize) -> Seq<usize>
    decreases o.len(),
{
    if o.len() == 0 {
        seq![x]
    } else if precedes(s, o.last() as int, x as int) {
        o.push(x)
    } else {
        insert_in_order(s, o.drop_last(), x).push(o.last())
    }
}

proof fn lemma_insert_in_order(s: Seq<PixelResult>, o: Seq<usize>, x: usize)
    requires
        forall|k1: int, k2: int|
            0 <= k1 < k2 < o.len() ==> precedes(s, #[trigger] o[k1] as int, #[trigger] o[k2] as int),
        !o.contains(x),
    ensures
        insert_in_order(s, o, x).len() == o.len() + 1,
        forall|y: usize| #[trigger] insert_in_order(s, o, x).contains(y) <==> (o.contains(y) || y == x),
        forall|k1: int, k2: int|
            0 <= k1 < k2 < o.len() + 1 ==> precedes(
                s,
                #[trigger] insert_in_order(s, o, x)[k1] as int,
                #[trigger] insert_in_order(s, o, x)[k2] as int,
            ),
    decreases o.len(),
{
    let r = insert_in_order(s, o, x);
    if o.len() == 0 {
        assert forall|y: usize| r.contains(y) <==> (o.contains(y) || y == x) by {
            if r.contains(y) {
                assert(r[0] == x);
            }
            if y == x {
                assert(r[0] == x);
            }
        }
    } else {
        let last = o.last();
        assert(o.contains(last));
        if precedes(s, last as int, x as int) {
            assert forall|k1: int, k2: int| 0 <= k1 < k2 < o.len() + 1 implies precedes(
                s,
                #[trigger] r[k1] as int,
                #[trigger] r[k2] as int,
            ) by {
                if k2 == o.len() && k1 < o.len() - 1 {
                    lemma_precedes_transitive(s, o[k1] as int, last as int, x as int);
                }
            }
            assert forall|y: usize| r.contains(y) <==> (o.contains(y) || y == x) by {
                if r.contains(y) {
                    let m = choose|m: int| 0 <= m < r.len() && r[m] == y;
                    if m < o.len() {
                        assert(o[m] == y);
                    }
                }
                if o.contains(y) {
                    let m = choose|m: int| 0 <= m < o.len() && o[m] == y;
                    assert(r[m] == y);
                }
                if y == x {
                    assert(r[o.len() as int] == x);
                }
            }
        } else {
            lemma_precedes_total(s, last as int, x as int);
            let o2 = o.drop_last();
            assert forall|y: usize| o2.contains(y) implies o.contains(y) by {
                let m = choose|m: int| 0 <= m < o2.len() && o2[m] == y;
                assert(o[m] == y);
            }
            assert forall|k1: int, k2: int| 0 <= k1 < k2 < o2.len() implies precedes(
                s,
                #[trigger] o2[k1] as int,
                #[trigger] o2[k2] as int,
            ) by {
                assert(precedes(s, o[k1] as int, o[k2] as int));
            }
            lemma_insert_in_order(s, o2, x);
            let r2 = insert_in_order(s, o2, x);
            assert(r == r2.push(last));
            assert forall|m: int| 0 <= m < r2.len() implies precedes(
                s,
                #[trigger] r2[m] as int,
                last as int,
            ) by {
                assert(r2.contains(r2[m]));
                if r2[m] != x {
                    assert(o2.contains(r2[m]));
                    let j = choose|j: int| 0 <= j < o2.len() && o2[j] == r2[m];
                    assert(precedes(s, o[j] as int, o[o.len() - 1] as int));
                }
            }
            assert forall|k1: int, k2: int| 0 <= k1 < k2 < o.len() + 1 implies precedes(
                s,
                #[trigger] r[k1] as int,
                #[trigger] r[k2] as int,
            ) by {
                if k2 == o.len() {
                    assert(r[k1] == r2[k1]);
                } else {
                    assert(r[k1] == r2[k1] && r[k2] == r2[k2]);
                }
            }
            assert forall|y: usize| r.contains(y) <==> (o.contains(y) || y == x) by {
                if r.contains(y) {
                    let m = choose|m: int| 0 <= m < r.len() && r[m] == y;
                    if m < r2.len() {
                        assert(r2[m] == y);
                        assert(r2.contains(y));
                    }
                }
                if o.contains(y) {
                    let m = choose|m: int| 0 <= m < o.len() && o[m] == y;
                    if m == o.len() - 1 {
                        assert(r[r.len() - 1] == y);
                    } else {
                        assert(o2[m] == y);
                        assert(o2.contains(y));
                        assert(r2.contains(y));
                        let j = choose|j: int| 0 <= j < r2.len() && r2[j] == y;
                        assert(r[j] == y);
                    }
                }
                if y == x {
                    assert(r2.contains(x));
                    let j = choose|j: int| 0 <= j < r2.len() && r2[j] == x;
                    assert(r[j] == x);
                }
            }
        }
    }
}

proof fn lemma_orders_prefix_exists(s: Seq<PixelResult>, n: int)
    requires
        0 <= n <= s.len(),
        n <= usize::MAX,
    ensures
        exists|o: Seq<usize>| orders_range(s, o, 0, n),
    decreases n,
{
    if n == 0 {
        let o = Seq::<usize>::empty();
        assert(orders_range(s, o, 0, 0));
    } else {
        let prev = n - 1;
        lemma_orders_prefix_exists(s, prev);
        let o = choose|o: Seq<usize>| orders_range(s, o, 0, prev);
        let x = (n - 1) as usize;
        assert(!o.contains(x)) by {
            if o.contains(x) {
                let m = choose|m: int| 0 <= m < o.len() && o[m] == x;
                assert(o[m] < n - 1);
            }
        }
        lemma_insert_in_order(s, o, x);
        let r = insert_in_order(s, o, x);
        assert forall|k: int| 0 <= k < r.len() implies 0 <= #[trigger] r[k] < n by {
            assert(r.contains(r[k]));
            if r[k] != x {
                let m = choose|m: int| 0 <= m < o.len() && o[m] == r[k];
                assert(o[m] < n - 1);
            }
        }
        assert forall|i: usize| 0 <= i < n implies #[trigger] r.contains(i) by {
            if i < n - 1 {
                assert(o.contains(i));
            }
        }
        assert(orders_range(s, r, 0, n));
    }
}

/// Every sequence of pixels has a canvas order, so `canvas_order` and
/// `in_canvas_order` denote it; `in_canvas_order` holds every pixel once.
pub proof fn lemma_canvas_order_exists(s: Seq<PixelResult>)
    requires
        s.len() <= usize::MAX,
    ensures
        is_canvas_order(s, canvas_order(s)),
        in_canvas_order(s).len() == s.len(),
{
    let n = s.len() as int;
    lemma_orders_prefix_exists(s, n);
    let o = choose|o: Seq<usize>| orders_range(s, o, 0, n);
    assert(is_canvas_order(s, o));
}

/// In canvas order, rows come top to bottom and each row left to right, and
/// pixels at one position keep the order in which they were given.
pub proof fn lemma_canvas_order_sorted(s: Seq<PixelResult>)
    requires
        s.len() <= usize::MAX,
    ensures
        forall|i: int, j: int|
            0 <= i < j < in_canvas_order(s).len() ==> position_lt(
                #[trigger] in_canvas_order(s)[i],
                #[trigger] in_canvas_order(s)[j],
            ) || same_position(in_canvas_order(s)[i], in_canvas_order(s)[j]),
        forall|i: int, j: int|
            0 <= i < j < in_canvas_order(s).len() ==> (#[trigger] in_canvas_order(s)[i]).y < (
            #[trigger] in_canvas_order(s)[j]).y || (in_canvas_order(s)[i].y == in_canvas_order(
                s,
            )[j].y && in_canvas_order(s)[i].x <= in_canvas_order(s)[j].x),
        forall|i: int, j: int|
            0 <= i < j < canvas_order(s).len() && s[#[trigger] canvas_order(s)[i] as int].x == s[
            #[trigger] canvas_order(s)[j] as int].x && s[canvas_order(s)[i] as int].y == s[canvas_order(
                s,
            )[j] as int].y ==> canvas_order(s)[i] < canvas_order(s)[j],
{
    lemma_canvas_order_exists(s);
    let o = canvas_order(s);
    assert forall|i: int, j: int|
        0 <= i < j < o.len() && s[#[trigger] o[i] as int].x == s[#[trigger] o[j] as int].x && s[o[
            i] as int].y == s[o[j] as int].y implies o[i] < o[j] by {
        assert(precedes(s, o[i] as int, o[j] as int));
    }
    assert forall|i: int, j: int| 0 <= i < j < in_canvas_order(s).len() implies position_lt(
        #[trigger] in_canvas_order(s)[i],
        #[trigger] in_canvas_order(s)[j],
    ) || same_position(in_canvas_order(s)[i], in_canvas_order(s)[j]) by {
        assert(precedes(s, o[i] as int, o[j] as int));
    }
}

/// Whether the pixel at index `i` precedes the one at index `j` in canvas order.
fn precedes_at(s: &[PixelResult], i: usize, j: usize) -> (res: bool)
    requires
        i < s@.len(),
        j < s@.len(),
    ensures
        res == precedes(s@, i as int, j as int),
{
    let p = &s[i];
    let q = &s[j];
    p.y < q.y || (p.y == q.y && (p.x < q.x || (p.x == q.x && i < j)))
}

/// Merges two canvas-ordered lists of the adjacent index ranges `lo..mid` and
/// `mid..hi` into one canvas-ordered list of `lo..hi`.
fn merge_orders(
    s: &[PixelResult],
    left: &Vec<usize>,
    right: &Vec<usize>,
    Ghost(lo): Ghost<int>,
    Ghost(mid): Ghost<int>,
    Ghost(hi): Ghost<int>,
) -> (out: Vec<usize>)
    requires
        0 <= lo <= mid <= hi <= s@.len(),
        orders_range(s@, left@, lo, mid),
        orders_range(s@, right@, mid, hi),
    ensures
        orders_range(s@, out@, lo, hi),
{
    let mut out: Vec<usize> = Vec::new();
    let mut a: usize = 0;
    let mut b: usize = 0;
    while a < left.len() || b < right.len()
        invariant
            0 <= lo <= mid <= hi <= s@.len(),
            orders_range(s@, left@, lo, mid),
            orders_range(s@, right@, mid, hi),
            a <= left@.len(),
            b <= right@.len(),
            out@.len() == a + b,
            forall|k: int| 0 <= k < out@.len() ==> lo <= #[trigger] out@[k] < hi,
            forall|k: int| 0 <= k < a ==> out@.contains(#[trigger] left@[k]),
            forall|k: int| 0 <= k < b ==> out@.contains(#[trigger] right@[k]),
            forall|k1: int, k2: int|
                0 <= k1 < k2 < out@.len() ==> precedes(
                    s@,
                    #[trigger] out@[k1] as int,
                    #[trigger] out@[k2] as int,
                ),
            forall|k: int|
                0 <= k < out@.len() && a < left@.len() ==> precedes(
                    s@,
                    #[trigger] out@[k] as int,
                    left@[a as int] as int,
                ),
            forall|k: int|
                0 <= k < out@.len() && b < right@.len() ==> precedes(
                    s@,
                    #[trigger] out@[k] as int,
                    right@[b as int] as int,
                ),
        decreases left@.len() + right@.len() - a - b,
    {
        let ghost old_out = out@;
        let take_left = if a < left.len() && b < right.len() {
            precedes_at(s, left[a], right[b])
        } else {
            a < left.len()
        };
        if take_left {
            let v = left[a];
            proof {
                if b < right@.len() {
                    assert(left@[a as int] < mid <= right@[b as int]);
                    lemma_precedes_total(s@, left@[a as int] as int, right@[b as int] as int);
                }
            }
            out.push(v);
            a = a + 1;
            proof {
                assert forall|k: int| 0 <= k < out@.len() && a < left@.len() implies precedes(
                    s@,
                    #[trigger] out@[k] as int,
                    left@[a as int] as int,
                ) by {
                    assert(precedes(s@, left@[a - 1] as int, left@[a as int] as int));
                    if k < old_out.len() {
                        lemma_precedes_transitive(
                            s@,
                            out@[k] as int,
                            left@[a - 1] as int,
                            left@[a as int] as int,
                        );
                    }
                }
                assert forall|k: int| 0 <= k < a implies out@.contains(#[trigger] left@[k]) by {
                    if k < a - 1 {
                        assert(old_out.contains(left@[k]));
                        let m = choose|m: int| 0 <= m < old_out.len() && old_out[m] == left@[k];
                        assert(out@[m] == left@[k]);
                    } else {
                        assert(out@[out@.len() - 1] == left@[k]);
                    }
                }
                assert forall|k: int| 0 <= k < b implies out@.contains(#[trigger] right@[k]) by {
                    assert(old_out.contains(right@[k]));
                    let m = choose|m: int| 0 <= m < old_out.len() && old_out[m] == right@[k];
                    assert(out@[m] == right@[k]);
                }
            }
        } else {
            let v = right[b];
            proof {
                if a < left@.len() {
                    assert(left@[a as int] < mid <= right@[b as int]);
                    lemma_precedes_total(s@, left@[a as int] as int, right@[b as int] as int);
                }
            }
            out.push(v);
            b = b + 1;
            proof {
                assert forall|k: int| 0 <= k < out@.len() && b < right@.len() implies precedes(
                    s@,
                    #[trigger] out@[k] as int,
                    right@[b as int] as int,
                ) by {
                    assert(precedes(s@, right@[b - 1] as int, right@[b as int] as int));
                    if k < old_out.len() {
                        lemma_precedes_transitive(
                            s@,
                            out@[k] as int,
                            right@[b - 1] as int,
                            right@[b as int] as int,
                        );
                    }
                }
                assert forall|k: int| 0 <= k < b implies out@.contains(#[trigger] right@[k]) by {
                    if k < b - 1 {
                        assert(old_out.contains(right@[k]));
                        let m = choose|m: int| 0 <= m < old_out.len() && old_out[m] == right@[k];
                        assert(out@[m] == right@[k]);
                    } else {
                        assert(out@[out@.len() - 1] == right@[k]);
                    }
                }
                assert forall|k: int| 0 <= k < a implies out@.contains(#[trigger] left@[k]) by {
                    assert(old_out.contains(left@[k]));
                    let m = choose|m: int| 0 <= m < old_out.len() && old_out[m] == left@[k];
                    assert(out@[m] == left@[k]);
                }
            }
        }
    }
    proof {
        assert forall|i: usize| lo <= i < hi implies #[trigger] out@.contains(i) by {
            if i < mid {
                assert(left@.contains(i));
                let k = choose|k: int| 0 <= k < left@.len() && left@[k] == i;
                assert(out@.contains(left@[k]));
            } else {
                assert(right@.contains(i));
                let k = choose|k: int| 0 <= k < right@.len() && right@[k] == i;
                assert(out@.contains(right@[k]));
            }
        }
    }
    out
}

/// Lists the indices `lo..hi` of `s` in canvas order (a stable merge sort).
fn canvas_order_range(s: &[PixelResult], lo: usize, hi: usize) -> (order: Vec<usize>)
    requires
        lo <= hi <= s@.len(),
    ensures
        orders_range(s@, order@, lo as int, hi as int),
    decreases hi - lo,
{
    if hi - lo == 0 {
        let order: Vec<usize> = Vec::new();
        order
    } else if hi - lo == 1 {
        let mut order: Vec<usize> = Vec::new();
        order.push(lo);
        assert(order@.contains(order@[0]));
        order
    } else {
        let mid = lo + (hi - lo) / 2;
        let left = canvas_order_range(s, lo, mid);
        let right = canvas_order_range(s, mid, hi);
        merge_orders(s, &left, &right, Ghost(lo as int), Ghost(mid as int), Ghost(hi as int))
    }
}

/// Lists every index of `pixels` in canvas order.
pub fn canvas_sort(pixels: &[PixelResult]) -> (order: Vec<usize>)
    ensures
        is_canvas_order(pixels@, order@),
        order@ == canvas_order(pixels@),
{
    let order = canvas_order_range(pixels, 0, pixels.len());
    proof {
        assert(is_canvas_order(pixels@, order@));
        assert(exists|o: Seq<usize>| is_canvas_order(pixels@, o));
        lemma_canvas_order_unique(pixels@, order@, canvas_order(pixels@));
    }
    order
}

// ---------------------------------------------------------------------------
// Run-length encoding of pixels in canvas order.
// ---------------------------------------------------------------------------

/// The pixel `k` places after index `i` extends the run that starts at `i`:
/// same row and colour, and `k` columns further right.
pub open spec fn continues_run(t: Seq<PixelResult>, i: int, k: int) -> bool {
    &&& t[i + k].y == t[i].y
    &&& t[i + k].x == t[i].x + k
    &&& t[i + k].color == t[i].color
}

/// The length of the run starting at `i`, knowing that it is at least `k` long.
pub open spec fn run_length_from(t: Seq<PixelResult>, i: int, k: int) -> int
    decreases t.len() - (i + k),
{
    if 0 <= i && 1 <= k && i + k < t.len() && continues_run(t, i, k) {
        run_length_from(t, i, k + 1)
    } else {
        k
    }
}

/// The length of the longest run that starts at index `i`.
pub open spec fn run_length(t: Seq<PixelResult>, i: int) -> int {
    run_length_from(t, i, 1)
}

/// The run that starts at index `i`, described by its first pixel.
pub open spec fn run_at(t: Seq<PixelResult>, i: int) -> CompressedPixel {
    CompressedPixel {
        community_id: t[i].community_id,
        x: t[i].x,
        y: t[i].y,
        run: run_length(t, i) as i64,
        color: t[i].color,
    }
}

/// The runs of `t` from index `i` on: each run is as long as it can be, and
/// the next one starts where it ends.
pub open spec fn runs_from(t: Seq<PixelResult>, i: int) -> Seq<CompressedPixel>
    decreases t.len() - i,
{
    if 0 <= i < t.len() {
        proof {
            lemma_run_length(t, i, 1);
        }
        seq![run_at(t, i)] + runs_from(t, i + run_length(t, i))
    } else {
        seq![]
    }
}

/// The pixels `(x, y, colour)` that a run stands for.
pub open spec fn run_cells(c: CompressedPixel) -> Seq<(int, int, i32)> {
    Seq::new(c.run as nat, |j: int| (c.x + j, c.y as int, c.color))
}

/// The pixels that a list of runs stands for, run after run.
pub open spec fn expand_runs(cs: Seq<CompressedPixel>) -> Seq<(int, int, i32)>
    decreases cs.len(),
{
    if cs.len() == 0 {
        seq![]
    } else {
        run_cells(cs[0]) + expand_runs(cs.drop_first())
    }
}

/// The position and colour of each pixel.
pub open spec fn pixel_cells(t: Seq<PixelResult>) -> Seq<(int, int, i32)> {
    t.map_values(|p: PixelResult| (p.x as int, p.y as int, p.color))
}

/// A run is at least as long as the pixels known to extend it, fits in the
/// sequence, every pixel in it extends it, and the pixel after it does not.
pub proof fn lemma_run_length(t: Seq<PixelResult>, i: int, k: int)
    requires
        0 <= i,
        1 <= k,
        i + k <= t.len(),
        forall|j: int| 1 <= j < k ==> continues_run(t, i, j),
    ensures
        k <= run_length_from(t, i, k) <= t.len() - i,
        forall|j: int| 1 <= j < run_length_from(t, i, k) ==> continues_run(t, i, j),
        i + run_length_from(t, i, k) < t.len() ==> !continues_run(t, i, run_length_from(t, i, k)),
    decreases t.len() - (i + k),
{
    if i + k < t.len() && continues_run(t, i, k) {
        lemma_run_length(t, i, k + 1);
    }
}

proof fn lemma_run_length_exact(t: Seq<PixelResult>, i: int, k: int, len: int)
    requires
        0 <= i,
        1 <= k <= len,
        i + len <= t.len(),
        forall|j: int| 1 <= j < len ==> continues_run(t, i, j),
        i + len == t.len() || !continues_run(t, i, len),
    ensures
        run_length_from(t, i, k) == len,
    decreases len - k,
{
    if k < len {
        assert(continues_run(t, i, k));
        lemma_run_length_exact(t, i, k + 1, len);
    }
}

proof fn lemma_runs_expand_from(t: Seq<PixelResult>, i: int)
    requires
        0 <= i <= t.len(),
        t.len() <= i64::MAX,
    ensures
        expand_runs(runs_from(t, i)) == pixel_cells(t).subrange(i, t.len() as int),
        forall|k: int| 0 <= k < runs_from(t, i).len() ==> #[trigger] runs_from(t, i)[k].run >= 1,
    decreases t.len() - i,
{
    if i < t.len() {
        lemma_run_length(t, i, 1);
        let r = run_length(t, i);
        let rest = runs_from(t, i + r);
        lemma_runs_expand_from(t, i + r);
        let cs = runs_from(t, i);
        assert(cs == seq![run_at(t, i)] + rest);
        assert(cs.drop_first() =~= rest);
        assert(run_cells(run_at(t, i)) =~= pixel_cells(t).subrange(i, i + r)) by {
            assert forall|j: int| 0 <= j < r implies run_cells(run_at(t, i))[j] == pixel_cells(
                t,
            ).subrange(i, i + r)[j] by {
                if j > 0 {
                    assert(continues_run(t, i, j));
                }
            }
        }
        assert(pixel_cells(t).subrange(i, t.len() as int) =~= pixel_cells(t).subrange(i, i + r)
            + pixel_cells(t).subrange(i + r, t.len() as int));
        assert forall|k: int| 0 <= k < cs.len() implies #[trigger] cs[k].run >= 1 by {
            if k > 0 {
                assert(cs[k] == rest[k - 1]);
            }
        }
    } else {
        assert(pixel_cells(t).subrange(i, t.len() as int) =~= Seq::<(int, int, i32)>::empty());
    }
}

/// Decompressing the runs gives back every pixel's position and colour, in
/// order, and no run is empty: run-length encoding loses only the colour of
/// nothing and the community and user of the pixels after the first of a run.
pub proof fn lemma_runs_expand(t: Seq<PixelResult>)
    requires
        t.len() <= i64::MAX,
    ensures
        expand_runs(runs_from(t, 0)) == pixel_cells(t),
        forall|k: int| 0 <= k < runs_from(t, 0).len() ==> #[trigger] runs_from(t, 0)[k].run >= 1,
{
    lemma_runs_expand_from(t, 0);
    assert(pixel_cells(t).subrange(0, t.len() as int) =~= pixel_cells(t));
}

// ---------------------------------------------------------------------------
// Canvas order only rearranges, and does not depend on the input order when
// positions are distinct.
// ---------------------------------------------------------------------------

/// Rearranging `s` by a list that names each index below `n` exactly once
/// keeps the multiset of the first `n` elements.
proof fn lemma_index_permutation_multiset<A>(s: Seq<A>, o: Seq<usize>, n: int)
    requires
        0 <= n <= s.len(),
        n <= usize::MAX,
        o.len() == n,
        forall|k: int| 0 <= k < o.len() ==> #[trigger] o[k] < n,
        forall|i: usize| 0 <= i < n ==> #[trigger] o.contains(i),
        forall|k1: int, k2: int| 0 <= k1 < o.len() && 0 <= k2 < o.len() && k1 != k2 ==> o[k1] != o[k2],
    ensures
        o.map_values(|i: usize| s[i as int]).to_multiset() == s.take(n).to_multiset(),
    decreases n,
{
    broadcast use vstd::seq_lib::group_to_multiset_ensures;

    if n == 0 {
        assert(o.map_values(|i: usize| s[i as int]) =~= Seq::<A>::empty());
        assert(s.take(0) =~= Seq::<A>::empty());
    } else {
        let x = (n - 1) as usize;
        assert(o.contains(x));
        let p = choose|p: int| 0 <= p < o.len() && o[p] == x;
        let o2 = o.remove(p);
        assert forall|k: int| 0 <= k < o2.len() implies #[trigger] o2[k] < n - 1 by {
            if k < p {
                assert(o2[k] == o[k]);
            } else {
                assert(o2[k] == o[k + 1]);
            }
        }
        assert forall|i: usize| 0 <= i < n - 1 implies #[trigger] o2.contains(i) by {
            assert(o.contains(i));
            let k = choose|k: int| 0 <= k < o.len() && o[k] == i;
            assert(k != p);
            if k < p {
                assert(o2[k] == i);
            } else {
                assert(o2[k - 1] == o[k]);
                assert(o2[k - 1] == i);
            }
        }
        assert forall|k1: int, k2: int|
            0 <= k1 < o2.len() && 0 <= k2 < o2.len() && k1 != k2 implies o2[k1] != o2[k2] by {
            let j1 = if k1 < p {
                k1
            } else {
                k1 + 1
            };
            let j2 = if k2 < p {
                k2
            } else {
                k2 + 1
            };
            assert(o2[k1] == o[j1] && o2[k2] == o[j2]);
        }
        lemma_index_permutation_multiset(s, o2, n - 1);
        let m = o.map_values(|i: usize| s[i as int]);
        let m2 = o2.map_values(|i: usize| s[i as int]);
        assert forall|k: int| 0 <= k < m.len() implies m[k] == m2.insert(p, s[n - 1])[k] by {
            if k < p {
                assert(o2[k] == o[k]);
            } else if k > p {
                assert(o2[k - 1] == o[k]);
            }
        }
        assert(m =~= m2.insert(p, s[n - 1]));
        assert(s.take(n) =~= s.take(n - 1).push(s[n - 1]));
    }
}

/// Canvas order only rearranges: it holds every pixel as often as the input.
pub proof fn lemma_canvas_order_multiset(s: Seq<PixelResult>)
    requires
        s.len() <= usize::MAX,
    ensures
        in_canvas_order(s).to_multiset() == s.to_multiset(),
        forall|f: spec_fn(PixelResult) -> (int, int, i32)|
            #![trigger in_canvas_order(s).map_values(f)]
            in_canvas_order(s).map_values(f).to_multiset() == s.map_values(f).to_multiset(),
{
    lemma_canvas_order_exists(s);
    let o = canvas_order(s);
    assert forall|k1: int, k2: int|
        0 <= k1 < o.len() && 0 <= k2 < o.len() && k1 != k2 implies o[k1] != o[k2] by {
        if k1 < k2 {
            assert(precedes(s, o[k1] as int, o[k2] as int));
        } else {
            assert(precedes(s, o[k2] as int, o[k1] as int));
        }
    }
    lemma_index_permutation_multiset(s, o, s.len() as int);
    assert(s.take(s.len() as int) =~= s);
    assert forall|f: spec_fn(PixelResult) -> (int, int, i32)|
        #![trigger in_canvas_order(s).map_values(f)]
        in_canvas_order(s).map_values(f).to_multiset() == s.map_values(f).to_multiset() by {
        let c = s.map_values(f);
        lemma_index_permutation_multiset(c, o, s.len() as int);
        assert(in_canvas_order(s).map_values(f) =~= o.map_values(|i: usize| c[i as int]));
        assert(c.take(c.len() as int) =~= c);
    }
}

/// The pixels that the runs of a canvas expand to are the input's pixels
/// (position and colour), only rearranged.
pub proof fn lemma_runs_expand_multiset(s: Seq<PixelResult>)
    requires
        s.len() <= i64::MAX,
        s.len() <= usize::MAX,
    ensures
        expand_runs(runs_from(in_canvas_order(s), 0)).to_multiset() == pixel_cells(s).to_multiset(),
{
    lemma_canvas_order_exists(s);
    lemma_runs_expand(in_canvas_order(s));
    lemma_canvas_order_multiset(s);
    let f = |p: PixelResult| (p.x as int, p.y as int, p.color);
    assert(pixel_cells(in_canvas_order(s)) == in_canvas_order(s).map_values(f));
    assert(pixel_cells(s) == s.map_values(f));
}

/// No two pixels of `s` sit at the same position.
pub open spec fn distinct_positions(s: Seq<PixelResult>) -> bool {
    forall|i: int, j: int|
        0 <= i < s.len() && 0 <= j < s.len() && i != j ==> !same_position(#[trigger] s[i], #[trigger] s[j])
}

/// Two sequences that both list the same pixels in strictly increasing
/// position are equal.
proof fn lemma_position_sorted_equal(t1: Seq<PixelResult>, t2: Seq<PixelResult>)
    requires
        forall|i: int, j: int| 0 <= i < j < t1.len() ==> position_lt(#[trigger] t1[i], #[trigger] t1[j]),
        forall|i: int, j: int| 0 <= i < j < t2.len() ==> position_lt(#[trigger] t2[i], #[trigger] t2[j]),
        forall|p: PixelResult| t1.contains(p) <==> t2.contains(p),
    ensures
        t1 == t2,
    decreases t1.len(),
{
    if t1.len() == 0 {
        if t2.len() > 0 {
            assert(t2.contains(t2[0]));
        }
        assert(t1 =~= t2);
    } else if t2.len() == 0 {
        assert(t1.contains(t1[0]));
    } else {
        let a = t1[0];
        let b = t2[0];
        assert(t1.contains(a));
        assert(t2.contains(b));
        if a != b {
            let m = choose|m: int| 0 <= m < t2.len() && t2[m] == a;
            let n = choose|n: int| 0 <= n < t1.len() && t1[n] == b;
            assert(position_lt(t2[0], t2[m]));
            assert(position_lt(t1[0], t1[n]));
        }
        let r1 = t1.drop_first();
        let r2 = t2.drop_first();
        assert forall|p: PixelResult| r1.contains(p) <==> r2.contains(p) by {
            if r1.contains(p) {
                let m = choose|m: int| 0 <= m < r1.len() && r1[m] == p;
                assert(t1[m + 1] == p);
                assert(position_lt(t1[0], t1[m + 1]));
                assert(t1.contains(p));
                let n = choose|n: int| 0 <= n < t2.len() && t2[n] == p;
                assert(n != 0);
                assert(r2[n - 1] == p);
            }
            if r2.contains(p) {
                let m = choose|m: int| 0 <= m < r2.len() && r2[m] == p;
                assert(t2[m + 1] == p);
                assert(position_lt(t2[0], t2[m + 1]));
                assert(t2.contains(p));
                let n = choose|n: int| 0 <= n < t1.len() && t1[n] == p;
                assert(n != 0);
                assert(r1[n - 1] == p);
            }
        }
        assert forall|i: int, j: int| 0 <= i < j < r1.len() implies position_lt(
            #[trigger] r1[i],
            #[trigger] r1[j],
        ) by {
            assert(position_lt(t1[i + 1], t1[j + 1]));
        }
        assert forall|i: int, j: int| 0 <= i < j < r2.len() implies position_lt(
            #[trigger] r2[i],
            #[trigger] r2[j],
        ) by {
            assert(position_lt(t2[i + 1], t2[j + 1]));
        }
        lemma_position_sorted_equal(r1, r2);
        assert(t1 =~= seq![a] + r1);
        assert(t2 =~= seq![b] + r2);
    }
}

/// In canvas order, pixels at distinct positions come strictly by position.
proof fn lemma_canvas_order_strict(s: Seq<PixelResult>, u: Seq<PixelResult>)
    requires
        s.len() <= usize::MAX,
        u.no_duplicates(),
        s.to_multiset() == u.to_multiset(),
        distinct_positions(u),
    ensures
        forall|i: int, j: int|
            0 <= i < j < in_canvas_order(s).len() ==> position_lt(
                #[trigger] in_canvas_order(s)[i],
                #[trigger] in_canvas_order(s)[j],
            ),
{
    broadcast use vstd::seq_lib::group_to_multiset_ensures;

    let t = in_canvas_order(s);
    lemma_canvas_order_sorted(s);
    lemma_canvas_order_multiset(s);
    u.lemma_multiset_has_no_duplicates();
    t.lemma_multiset_has_no_duplicates_conv();
    assert forall|i: int, j: int| 0 <= i < j < t.len() implies position_lt(
        #[trigger] t[i],
        #[trigger] t[j],
    ) by {
        if same_position(t[i], t[j]) {
            assert(t[i] != t[j]);
            assert(t.contains(t[i]) && t.contains(t[j]));
            assert(t.to_multiset().count(t[i]) > 0 && t.to_multiset().count(t[j]) > 0);
            assert(u.contains(t[i]) && u.contains(t[j]));
            let a = choose|a: int| 0 <= a < u.len() && u[a] == t[i];
            let b = choose|b: int| 0 <= b < u.len() && u[b] == t[j];
            assert(!same_position(u[a], u[b]));
        }
    }
}

/// When no two pixels share a position, the order in which they are given
/// does not matter: any rearrangement `q` of `pixels` has the same canvas
/// order, so `compress(q) == compress(pixels)`, run by run.
pub proof fn lemma_compress_ignores_input_order(pixels: Seq<PixelResult>, q: Seq<PixelResult>)
    requires
        pixels.len() <= usize::MAX,
        q.to_multiset() == pixels.to_multiset(),
        distinct_positions(pixels),
    ensures
        in_canvas_order(q) == in_canvas_order(pixels),
        runs_from(in_canvas_order(q), 0) == runs_from(in_canvas_order(pixels), 0),
{
    broadcast use vstd::seq_lib::group_to_multiset_ensures;

    assert(pixels.no_duplicates()) by {
        assert forall|i: int, j: int|
            0 <= i < pixels.len() && 0 <= j < pixels.len() && i != j implies pixels[i]
            != pixels[j] by {
            assert(!same_position(pixels[i], pixels[j]));
        }
    }
    vstd::seq_lib::to_multiset_len(q);
    vstd::seq_lib::to_multiset_len(pixels);
    assert(q.len() == pixels.len());
    lemma_canvas_order_strict(pixels, pixels);
    lemma_canvas_order_strict(q, pixels);
    lemma_canvas_order_multiset(pixels);
    lemma_canvas_order_multiset(q);
    let t1 = in_canvas_order(q);
    let t2 = in_canvas_order(pixels);
    assert forall|p: PixelResult| t1.contains(p) <==> t2.contains(p) by {
        assert(t1.contains(p) <==> t1.to_multiset().count(p) > 0);
        assert(t2.contains(p) <==> t2.to_multiset().count(p) > 0);
    }
    lemma_position_sorted_equal(t1, t2);
}

proof fn lemma_runs_maximal_from(t: Seq<PixelResult>, i: int)
    requires
        0 <= i <= t.len(),
        t.len() <= i64::MAX,
    ensures
        forall|j: int, k: int|
            0 <= k && j == k + 1 && j < runs_from(t, i).len() ==> !({
                &&& (#[trigger] runs_from(t, i)[j]).y == (#[trigger] runs_from(t, i)[k]).y
                &&& runs_from(t, i)[j].x == runs_from(t, i)[k].x + runs_from(t, i)[k].run
                &&& runs_from(t, i)[j].color == runs_from(t, i)[k].color
            }),
    decreases t.len() - i,
{
    if i < t.len() {
        lemma_run_length(t, i, 1);
        let r = run_length(t, i);
        let cs = runs_from(t, i);
        let rest = runs_from(t, i + r);
        lemma_runs_maximal_from(t, i + r);
        assert(cs == seq![run_at(t, i)] + rest);
        assert forall|j: int, k: int|
            0 <= k && j == k + 1 && j < cs.len() implies !({
                &&& (#[trigger] cs[j]).y == (#[trigger] cs[k]).y
                &&& cs[j].x == cs[k].x + cs[k].run
                &&& cs[j].color == cs[k].color
            }) by {
            if k == 0 {
                assert(i + r < t.len());
                assert(cs[j] == rest[0]);
                assert(rest[0] == run_at(t, i + r));
                assert(!continues_run(t, i, r));
            } else {
                assert(cs[j] == rest[j - 1]);
                assert(cs[k] == rest[k - 1]);
            }
        }
    }
}

/// Each run stands for pixels that lie, in canvas order, one after another
/// from some index: its first pixel has the run's position, colour and
/// community, and the `j`-th has column `x + j`, the same row and the same colour.
pub open spec fn run_found_at(t: Seq<PixelResult>, c: CompressedPixel, m: int) -> bool {
    &&& 0 <= m
    &&& m + c.run <= t.len()
    &&& t[m].community_id == c.community_id
    &&& forall|j: int|
        0 <= j < c.run ==> (#[trigger] t[m + j]).x == c.x + j && t[m + j].y == c.y && t[m
            + j].color == c.color
}

/// The run `c` is found in `t` from some index.
pub open spec fn run_found(t: Seq<PixelResult>, c: CompressedPixel) -> bool {
    exists|m: int| run_found_at(t, c, m)
}

proof fn lemma_runs_found_from(t: Seq<PixelResult>, i: int)
    requires
        0 <= i <= t.len(),
        t.len() <= i64::MAX,
    ensures
        forall|k: int|
            #![trigger runs_from(t, i)[k]]
            0 <= k < runs_from(t, i).len() ==> run_found(t, runs_from(t, i)[k]),
    decreases t.len() - i,
{
    if i < t.len() {
        lemma_run_length(t, i, 1);
        let r = run_length(t, i);
        let cs = runs_from(t, i);
        let rest = runs_from(t, i + r);
        lemma_runs_found_from(t, i + r);
        assert(cs == seq![run_at(t, i)] + rest);
        assert forall|k: int| #![trigger cs[k]] 0 <= k < cs.len() implies run_found(t, cs[k]) by {
            if k == 0 {
                assert forall|j: int| 0 <= j < cs[0].run implies (#[trigger] t[i + j]).x == cs[0].x
                    + j && t[i + j].y == cs[0].y && t[i + j].color == cs[0].color by {
                    if j > 0 {
                        assert(continues_run(t, i, j));
                    }
                }
                assert(run_found_at(t, cs[0], i));
            } else {
                let prev = rest[k - 1];
                assert(cs[k] == prev);
                assert(run_found(t, prev));
                let m = choose|m: int| run_found_at(t, prev, m);
                assert(run_found_at(t, cs[k], m));
            }
        }
    }
}

/// Every run of `t` is found in `t`: see `run_found_at`.
pub proof fn lemma_runs_found(t: Seq<PixelResult>)
    requires
        t.len() <= i64::MAX,
    ensures
        forall|k: int|
            #![trigger runs_from(t, 0)[k]]
            0 <= k < runs_from(t, 0).len() ==> run_found(t, runs_from(t, 0)[k]),
{
    lemma_runs_found_from(t, 0);
}

/// Runs are as long as they can be: a run is never followed by an entry in
/// the same row, of the same colour, starting in the column just after it
/// (whatever the colour).
pub proof fn lemma_runs_maximal(t: Seq<PixelResult>)
    requires
        t.len() <= i64::MAX,
    ensures
        forall|j: int, k: int|
            0 <= k && j == k + 1 && j < runs_from(t, 0).len() ==> !({
                &&& (#[trigger] runs_from(t, 0)[j]).y == (#[trigger] runs_from(t, 0)[k]).y
                &&& runs_from(t, 0)[j].x == runs_from(t, 0)[k].x + runs_from(t, 0)[k].run
                &&& runs_from(t, 0)[j].color == runs_from(t, 0)[k].color
            }),
{
    lemma_runs_maximal_from(t, 0);
}

/// Whether `next` extends by one more pixel the run of `length` pixels that
/// starts with `head`. Positions are compared as mathematical integers.
fn extends_run(head: &PixelResult, next: &PixelResult, length: usize) -> (res: bool)
    ensures
        res == (next.y == head.y && next.x == head.x + length && next.color == head.color),
{
    next.y == head.y && (next.x as i128) == (head.x as i128) + (length as i128) && next.color
        == head.color
}

impl PixelModel {
    /// Converts the stored pixel into the result handed to clients; the
    /// identifiers become their hyphenated text.
    pub fn to_result(self) -> (res: PixelResult)
        ensures
            res.community_id is Some <==> self.community_id is Some,
            res.community_id matches Some(text) ==> text@ == uuid_hyphenated(self.community_id->0),
            res.x == self.x,
            res.y == self.y,
            res.user_id@ == uuid_hyphenated(self.user_id),
            res.color == self.color,
    {
        let community_id = match self.community_id {
            Some(id) => Some(uuid_text(id)),
            None => None,
        };
        PixelResult {
            community_id,
            x: self.x,
            y: self.y,
            user_id: uuid_text(self.user_id),
            color: self.color,
        }
    }

    /// Compresses a list of pixels into run-length encoded sequences ordered
    /// by row to reduce bandwidth during canvas fetches: the pixels are put in
    /// canvas order (stable sort by `(y, x)`) and each maximal run of pixels of
    /// one colour at consecutive `x` in one row becomes one entry.
    pub fn compress(pixels: &[PixelResult]) -> (res: Vec<CompressedPixel>)
        requires
            pixels@.len() <= i64::MAX,
        ensures
            res@ == runs_from(in_canvas_order(pixels@), 0),
            forall|k: int| 0 <= k < res@.len() ==> (#[trigger] res@[k]).run >= 1,
            forall|k: int|
                0 <= k < res@.len() ==> run_found(in_canvas_order(pixels@), #[trigger] res@[k]),
            forall|j: int, k: int|
                0 <= k && j == k + 1 && j < res@.len() ==> !({
                    &&& (#[trigger] res@[j]).y == (#[trigger] res@[k]).y
                    &&& res@[j].x == res@[k].x + res@[k].run
                    &&& res@[j].color == res@[k].color
                }),
    {
        let len = pixels.len();
        assert(pixels@.len() == len);
        proof {
            lemma_canvas_order_exists(pixels@);
            lemma_runs_expand(in_canvas_order(pixels@));
            lemma_runs_maximal(in_canvas_order(pixels@));
            lemma_runs_found(in_canvas_order(pixels@));
        }
        let order = canvas_sort(pixels);
        let ghost t = in_canvas_order(pixels@);
        let n = pixels.len();
        let mut out: Vec<CompressedPixel> = Vec::new();
        let mut i: usize = 0;
        assert(out@ + runs_from(t, 0) =~= runs_from(t, 0));
        while i < n
            invariant
                n == pixels@.len(),
                n <= i64::MAX,
                is_canvas_order(pixels@, order@),
                t == order@.map_values(|k: usize| pixels@[k as int]),
                i <= n,
                runs_from(t, 0) == out@ + runs_from(t, i as int),
            decreases n - i,
        {
            let head = &pixels[order[i]];
            assert(t[i as int] == *head);
            let mut length: usize = 1;
            while i + length < n && extends_run(head, &pixels[order[i + length]], length)
                invariant
                    n == pixels@.len(),
                    is_canvas_order(pixels@, order@),
                    t == order@.map_values(|k: usize| pixels@[k as int]),
                    i < n,
                    t[i as int] == *head,
                    1 <= length,
                    i + length <= n,
                    forall|j: int| 1 <= j < length ==> continues_run(t, i as int, j),
                decreases n - i - length,
            {
                assert(t[i + length] == pixels@[order@[i + length] as int]);
                length = length + 1;
            }
            proof {
                if i + length < n {
                    assert(t[i + length] == pixels@[order@[i + length] as int]);
                }
                lemma_run_length_exact(t, i as int, 1, length as int);
            }
            let community_id = match &head.community_id {
                Some(id) => Some(id.clone()),
                None => None,
            };
            let run = CompressedPixel {
                community_id,
                x: head.x,
                y: head.y,
                run: length as i64,
                color: head.color,
            };
            assert(run == run_at(t, i as int));
            let ghost old_out = out@;
            out.push(run);
            assert(runs_from(t, i as int) == seq![run_at(t, i as int)] + runs_from(
                t,
                i + length,
            ));
            assert(out@ + runs_from(t, i + length) =~= old_out + runs_from(t, i as int));
            i = i + length;
        }
        assert(runs_from(t, i as int) =~= Seq::<CompressedPixel>::empty());
        assert(out@ + runs_from(t, i as int) =~= out@);
        out
    }
}

} // verus!
