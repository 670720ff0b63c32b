use chrono::NaiveDateTime;
use vstd::prelude::*;

use crate::error::{parse_id, DatabaseError, ModelResult};
use crate::ids::{uuid_from_text, uuid_hyphenated, uuid_text};

verus! {

/// The width of the avatar canvas in pixels.
pub const AVATAR_CANVAS_WIDTH: i32 = 16;

/// A JSON document as far as avatars read it: arrays, integers that fit in an
/// `i64`, and anything else.
pub enum JsonValue {
    Array(Vec<JsonValue>),
    Integer(i64),
    Other,
}

/// A user's avatar as the database stores it.
pub struct AvatarModel {
    /// The user who owns the avatar.
    pub user_id: u128,
    /// The pixels as a JSON array of `[offset, colour]` pairs, where the
    /// offset is `x + y * AVATAR_CANVAS_WIDTH`.
    pub pixels: JsonValue,
    /// When the avatar was last updated.
    pub updated_at: NaiveDateTime,
}

/// The input required for creating (or replacing) an avatar.
pub struct AvatarCreation {
    /// The pixels, each as `[offset, colour]`.
    pub pixels: Vec<[i32; 2]>,
    /// Identifier of the user who owns the avatar (as text).
    pub user_id: String,
}

/// A checked avatar, ready to be stored.
pub struct NewAvatar {
    pub user_id: u128,
    pub pixels: JsonValue,
}

/// An avatar as handed to clients.
pub struct AvatarResult {
    /// Identifier of the user who owns the avatar (as text).
    pub user_id: String,
    /// The pixels, each as `[x, y, colour]`.
    pub pixels: Vec<[i32; 3]>,
    /// When the avatar was last updated.
    pub updated_at: NaiveDateTime,
}

/// Integer division rounding toward zero (as Rust's `/`), for `d > 0`.
pub open spec fn trunc_div(a: int, d: int) -> int {
    if a >= 0 {
        a / d
    } else {
        -((-a) / d)
    }
}

/// The remainder that goes with `trunc_div` (as Rust's `%`), for `d > 0`.
pub open spec fn trunc_rem(a: int, d: int) -> int {
    a - d * trunc_div(a, d)
}

/// The pixel `[x, y, colour]` that the stored pair `[offset, colour]` stands for.
pub open spec fn avatar_cell(offset: i32, color: i32) -> Seq<i32> {
    seq![
        trunc_rem(offset as int, AVATAR_CANVAS_WIDTH as int) as i32,
        trunc_div(offset as int, AVATAR_CANVAS_WIDTH as int) as i32,
        color,
    ]
}

/// The pixel that one stored entry stands for: the entry must be an array of
/// two integers, each taken as an `i32` (truncated).
pub open spec fn decode_entry(e: JsonValue) -> Option<Seq<i32>> {
    match e {
        JsonValue::Array(items) => {
            if items@.len() == 2 {
                match (items@[0], items@[1]) {
                    (JsonValue::Integer(o), JsonValue::Integer(c)) => Some(
                        avatar_cell(o as i32, c as i32),
                    ),
                    _ => None,
                }
            } else {
                None
            }
        },
        _ => None,
    }
}

/// The pixels that a stored document stands for: every entry decoded, or no
/// pixels at all when the document is not an array or any entry is malformed.
pub open spec fn decode_avatar_pixels(v: JsonValue) -> Seq<Seq<i32>> {
    match v {
        JsonValue::Array(entries) => {
            if forall|i: int| 0 <= i < entries@.len() ==> #[trigger] decode_entry(entries@[i]) is Some {
                entries@.map_values(|e: JsonValue| decode_entry(e)->0)
            } else {
                seq![]
            }
        },
        _ => seq![],
    }
}

/// `v` is the document that stores `pixels`: an array holding, for each pair
/// `[offset, colour]`, the array `[offset, colour]` of integers.
pub open spec fn stores_pixels(v: JsonValue, pixels: Seq<[i32; 2]>) -> bool {
    v matches JsonValue::Array(entries) && entries@.len() == pixels.len() && forall|i: int|
        0 <= i < pixels.len() ==> (#[trigger] entries@[i] matches JsonValue::Array(pair) && pair@
            == seq![JsonValue::Integer(pixels[i]@[0] as i64), JsonValue::Integer(pixels[i]@[1] as i64)])
}

/// Reading an avatar back gives every stored pair `[offset, colour]` as the
/// pixel `[offset % 16, offset / 16, colour]`, in order.
pub proof fn lemma_avatar_round_trip(v: JsonValue, pixels: Seq<[i32; 2]>)
    requires
        stores_pixels(v, pixels),
    ensures
        decode_avatar_pixels(v) == pixels.map_values(|p: [i32; 2]| avatar_cell(p@[0], p@[1])),
{
    let entries = v->Array_0;
    assert forall|i: int| 0 <= i < entries@.len() implies #[trigger] decode_entry(entries@[i])
        == Some(avatar_cell(pixels[i]@[0], pixels[i]@[1])) by {
        let pair = entries@[i]->Array_0;
        assert(pair@[0] == JsonValue::Integer(pixels[i]@[0] as i64));
        assert(pair@[1] == JsonValue::Integer(pixels[i]@[1] as i64));
    }
    assert(decode_avatar_pixels(v) =~= pixels.map_values(
        |p: [i32; 2]| avatar_cell(p@[0], p@[1]),
    ));
}

/// The decoded position lies on the avatar canvas row by row: `x + 16 * y`
/// gives back the offset and `x` lies strictly between `-16` and `16` (it is
/// negative only for negative offsets).
pub proof fn lemma_avatar_cell_offset(offset: i32, color: i32)
    ensures
        avatar_cell(offset, color)[0] + AVATAR_CANVAS_WIDTH * avatar_cell(offset, color)[1]
            == offset,
        -AVATAR_CANVAS_WIDTH < avatar_cell(offset, color)[0] < AVATAR_CANVAS_WIDTH,
        offset >= 0 ==> avatar_cell(offset, color)[0] >= 0,
        offset < 0 ==> avatar_cell(offset, color)[0] <= 0,
        avatar_cell(offset, color)[2] == color,
        avatar_cell(offset, color).len() == 3,
{
    let a = offset as int;
    if a >= 0 {
        assert(a == 16 * (a / 16) + a % 16) by (nonlinear_arith);
    } else {
        assert(-a == 16 * ((-a) / 16) + (-a) % 16) by (nonlinear_arith)
            requires
                -a > 0,
        ;
    }
}

/// A stored document gives no pixels when it is not an array, or when any of
/// its entries is not an array of exactly two integers.
pub proof fn lemma_avatar_malformed(v: JsonValue, i: int)
    requires
        match v {
            JsonValue::Array(entries) => 0 <= i < entries@.len() && !(entries@[i] matches JsonValue::Array(
                pair,
            ) && pair@.len() == 2 && pair@[0] is Integer && pair@[1] is Integer),
            _ => true,
        },
    ensures
        decode_avatar_pixels(v).len() == 0,
{
    if let JsonValue::Array(entries) = v {
        assert(decode_entry(entries@[i]) is None);
    }
}

/// A document whose entries are all pairs `[offset, colour]` of integers gives
/// one pixel per entry, in order: colour and offset taken as `i32`, and the
/// position `(x, y)` with `x + 16 * y == offset`, `|x| < 16` and `x` of the
/// offset's sign.
pub proof fn lemma_avatar_well_formed(v: JsonValue)
    requires
        v matches JsonValue::Array(entries) && forall|i: int|
            0 <= i < entries@.len() ==> (#[trigger] entries@[i] matches JsonValue::Array(pair)
                && pair@.len() == 2 && pair@[0] is Integer && pair@[1] is Integer),
    ensures
        decode_avatar_pixels(v).len() == v->Array_0@.len(),
        forall|i: int|
            0 <= i < v->Array_0@.len() ==> {
                let pair = (#[trigger] v->Array_0@[i])->Array_0@;
                let o = pair[0]->Integer_0 as i32;
                let c = pair[1]->Integer_0 as i32;
                let p = decode_avatar_pixels(v)[i];
                &&& p.len() == 3
                &&& p[2] == c
                &&& p[0] + 16 * p[1] == o
                &&& -16 < p[0] < 16
                &&& (o >= 0 ==> p[0] >= 0)
                &&& (o < 0 ==> p[0] <= 0)
            },
{
    let entries = v->Array_0;
    assert forall|i: int| 0 <= i < entries@.len() implies #[trigger] decode_entry(entries@[i]) is Some by {
        let pair = entries@[i]->Array_0@;
    }
    assert forall|i: int| 0 <= i < entries@.len() implies {
        let pair = (#[trigger] entries@[i])->Array_0@;
        let o = pair[0]->Integer_0 as i32;
        let c = pair[1]->Integer_0 as i32;
        let p = decode_avatar_pixels(v)[i];
        &&& p.len() == 3
        &&& p[2] == c
        &&& p[0] + 16 * p[1] == o
        &&& -16 < p[0] < 16
        &&& (o >= 0 ==> p[0] >= 0)
        &&& (o < 0 ==> p[0] <= 0)
    } by {
        let pair = entries@[i]->Array_0@;
        let o = pair[0]->Integer_0 as i32;
        let c = pair[1]->Integer_0 as i32;
        assert(decode_avatar_pixels(v)[i] == decode_entry(entries@[i])->0);
        lemma_avatar_cell_offset(o, c);
    }
}

/// The pixel `[x, y, colour]` for the pair `[offset, colour]`.
fn avatar_pixel(offset: i32, color: i32) -> (res: [i32; 3])
    ensures
        res@ == avatar_cell(offset, color),
{
    let o = offset as i64;
    let q: i64 = if o >= 0 {
        o / 16
    } else {
        -((-o) / 16)
    };
    let r: i64 = o - 16 * q;
    proof {
        lemma_avatar_cell_offset(offset, color);
    }
    let res = [r as i32, q as i32, color];
    assert(res@ =~= avatar_cell(offset, color));
    res
}

/// Decodes one stored entry.
fn decode_entry_exec(e: &JsonValue) -> (res: Option<[i32; 3]>)
    ensures
        res is Some <==> decode_entry(*e) is Some,
        res matches Some(p) ==> p@ == decode_entry(*e)->0,
{
    match e {
        JsonValue::Array(items) => {
            if items.len() == 2 {
                match (&items[0], &items[1]) {
                    (JsonValue::Integer(o), JsonValue::Integer(c)) => {
                        Some(avatar_pixel(*o as i32, *c as i32))
                    },
                    _ => None,
                }
            } else {
                None
            }
        },
        _ => None,
    }
}

impl AvatarCreation {
    /// Checks an avatar and builds the document it is stored as.
    pub fn prepare(&self) -> (res: ModelResult<NewAvatar>)
        ensures
            res is Ok <==> uuid_from_text(self.user_id@) is Some,
            res matches Err(e) ==> e is UuidParseError,
            res matches Ok(a) ==> Some(a.user_id) == uuid_from_text(self.user_id@) && stores_pixels(
                a.pixels,
                self.pixels@,
            ),
    {
        let user_id = match parse_id(self.user_id.as_str()) {
            Ok(id) => id,
            Err(e) => {
                return Err(e);
            },
        };
        let mut entries: Vec<JsonValue> = Vec::new();
        let mut i: usize = 0;
        while i < self.pixels.len()
            invariant
                i <= self.pixels@.len(),
                entries@.len() == i,
                forall|j: int|
                    0 <= j < i ==> (#[trigger] entries@[j] matches JsonValue::Array(pair) && pair@
                        == seq![
                        JsonValue::Integer(self.pixels@[j]@[0] as i64),
                        JsonValue::Integer(self.pixels@[j]@[1] as i64),
                    ]),
            decreases self.pixels@.len() - i,
        {
            let p = self.pixels[i];
            let mut pair: Vec<JsonValue> = Vec::new();
            pair.push(JsonValue::Integer(p[0] as i64));
            pair.push(JsonValue::Integer(p[1] as i64));
            assert(pair@ =~= seq![JsonValue::Integer(p@[0] as i64), JsonValue::Integer(p@[1] as i64)]);
            entries.push(JsonValue::Array(pair));
            i = i + 1;
        }
        Ok(NewAvatar { user_id, pixels: JsonValue::Array(entries) })
    }
}

impl AvatarModel {
    /// Converts the stored avatar into the result handed to clients: each
    /// stored pair `[offset, colour]` becomes `[offset % 16, offset / 16, colour]`;
    /// a document that is not an array, or that holds any malformed entry,
    /// gives no pixels.
    pub fn to_result(&self) -> (res: AvatarResult)
        ensures
            res.user_id@ == uuid_hyphenated(self.user_id),
            res.pixels@.len() == decode_avatar_pixels(self.pixels).len(),
            forall|i: int|
                0 <= i < res.pixels@.len() ==> #[trigger] res.pixels@[i]@ == decode_avatar_pixels(
                    self.pixels,
                )[i],
            res.updated_at == self.updated_at,
    {
        let mut pixels: Vec<[i32; 3]> = Vec::new();
        match &self.pixels {
            JsonValue::Array(entries) => {
                let mut i: usize = 0;
                let mut complete = true;
                while complete && i < entries.len()
                    invariant
                        i <= entries@.len(),
                        pixels@.len() == i,
                        forall|j: int|
                            0 <= j < i ==> #[trigger] decode_entry(entries@[j]) is Some,
                        forall|j: int|
                            0 <= j < i ==> #[trigger] pixels@[j]@ == decode_entry(entries@[j])->0,
                        !complete ==> decode_entry(entries@[i as int]) is None && i < entries@.len(),
                    decreases entries@.len() - i + (if complete {
                        1int
                    } else {
                        0int
                    }),
                {
                    match decode_entry_exec(&entries[i]) {
                        Some(p) => {
                            pixels.push(p);
                            i = i + 1;
                        },
                        None => {
                            complete = false;
                        },
                    }
                }
                proof {
                    if complete {
                        assert(decode_avatar_pixels(self.pixels) =~= entries@.map_values(
                            |e: JsonValue| decode_entry(e)->0,
                        ));
                    } else {
                        assert(!(forall|j: int|
                            0 <= j < entries@.len() ==> #[trigger] decode_entry(entries@[j]) is Some));
                    }
                }
                if !complete {
                    pixels = Vec::new();
                }
            },
            _ => {},
        }
        AvatarResult { user_id: uuid_text(self.user_id), pixels, updated_at: self.updated_at }
    }
}

} // verus!
