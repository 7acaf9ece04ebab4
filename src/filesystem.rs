//! The sector image: a length table followed by the packed field values.
//!
//! Bytes `[0, 5)` hold one length byte per field, in `ValueId` order. From
//! byte 5 on, the values follow each other without gaps, in the same order.
//! The offset of each field is therefore 5 plus the lengths of the fields
//! before it.

use vstd::prelude::*;
use crate::value_id::{ValueId, FILE_DESCRIPTOR_SIZE, lemma_index_at};
use crate::parser::{PersistencyTrait, read_reply};
use crate::bytes::copy_to_beginning;

verus! {

/// Size of the sector image: one flash erase block.
pub const DATA_SIZE: usize = 4096;

/// Largest length that fits in a byte of the length table.
pub const MAX_VALUE_LENGTH: usize = 255;

/// Error of a read whose answer buffer is shorter than the stored value.
pub const BUFFER_TOO_SMALL: &'static str = "answer buffer too small";

/// Offset of field `i` in image `d`: the table size plus the lengths of the
/// fields before it.
pub open spec fn offset_of(d: Seq<u8>, i: int) -> int
    decreases i,
{
    if i <= 0 {
        FILE_DESCRIPTOR_SIZE as int
    } else {
        offset_of(d, i - 1) + d[i - 1] as int
    }
}

/// End of the last field: every byte of the image that is in use lies below it.
pub open spec fn used_len(d: Seq<u8>) -> int {
    offset_of(d, FILE_DESCRIPTOR_SIZE as int)
}

/// The bytes stored for field `i` in image `d`.
pub open spec fn field_of(d: Seq<u8>, i: int) -> Seq<u8> {
    d.subrange(offset_of(d, i), offset_of(d, i) + d[i] as int)
}

/// The values of all fields, in `ValueId` order.
pub open spec fn contents_of(d: Seq<u8>) -> Seq<Seq<u8>> {
    Seq::new(FILE_DESCRIPTOR_SIZE as nat, |i: int| field_of(d, i))
}

/// The image after field `i` is given the value `v`: its length byte becomes
/// `v.len()`, the bytes before the field stay, the field holds `v`, and the
/// bytes that followed the old value follow the new one, moved by the
/// difference in length. Bytes moved past the end are lost; where the image
/// shrank, the last bytes keep what they held.
pub open spec fn store_image(d: Seq<u8>, i: int, v: Seq<u8>) -> Seq<u8> {
    let start = offset_of(d, i);
    let old_end = start + d[i] as int;
    let new_end = start + v.len();
    Seq::new(
        d.len(),
        |j: int|
            if j == i {
                v.len() as u8
            } else if j < start {
                d[j]
            } else if j < new_end {
                v[j - start]
            } else if j - new_end + old_end < d.len() {
                d[j - new_end + old_end]
            } else {
                d[j]
            },
    )
}

/// Offsets grow with the field position and stay below `5 + 255 * i`.
pub proof fn lemma_offset_bounds(d: Seq<u8>, i: int, k: int)
    requires
        0 <= i <= k,
    ensures
        FILE_DESCRIPTOR_SIZE <= offset_of(d, i) <= offset_of(d, k),
        offset_of(d, k) <= FILE_DESCRIPTOR_SIZE + 255 * k,
    decreases k,
{
    if k > 0 {
        if i < k {
            lemma_offset_bounds(d, i, k - 1);
        } else {
            lemma_offset_bounds(d, 0, k - 1);
        }
    }
}

/// Offsets only depend on the length table.
pub proof fn lemma_offset_same_table(d: Seq<u8>, e: Seq<u8>, i: int)
    requires
        0 <= i <= FILE_DESCRIPTOR_SIZE,
        forall|j: int| 0 <= j < i ==> d[j] == e[j],
    ensures
        offset_of(d, i) == offset_of(e, i),
    decreases i,
{
    if i > 0 {
        lemma_offset_same_table(d, e, i - 1);
    }
}

/// Offsets grow with the field position and the used part of an image
/// never exceeds `5 + 5 * 255` bytes.
pub proof fn lemma_offsets(d: Seq<u8>)
    ensures
        forall|i: int, k: int|
            0 <= i <= k ==> FILE_DESCRIPTOR_SIZE <= #[trigger] offset_of(d, i) <= #[trigger] offset_of(d, k),
        forall|k: int| 0 <= k ==> #[trigger] offset_of(d, k) <= FILE_DESCRIPTOR_SIZE + 255 * k,
{
    assert forall|i: int, k: int| 0 <= i <= k implies FILE_DESCRIPTOR_SIZE <= #[trigger] offset_of(d, i) <= #[trigger] offset_of(d, k) by {
        lemma_offset_bounds(d, i, k);
    }
    assert forall|k: int| 0 <= k implies #[trigger] offset_of(d, k) <= FILE_DESCRIPTOR_SIZE + 255 * k by {
        lemma_offset_bounds(d, 0, k);
    }
}

/// In the image after a store, the offsets of the fields after the stored one
/// move by the change in its length.
proof fn lemma_store_offsets(d: Seq<u8>, i: int, v: Seq<u8>, m: int)
    requires
        d.len() == DATA_SIZE,
        0 <= i < FILE_DESCRIPTOR_SIZE,
        v.len() <= MAX_VALUE_LENGTH,
        0 <= m <= FILE_DESCRIPTOR_SIZE,
    ensures
        m <= i ==> offset_of(store_image(d, i, v), m) == offset_of(d, m),
        m > i ==> offset_of(store_image(d, i, v), m) == offset_of(d, m) + v.len() - d[i] as int,
    decreases m,
{
    let e = store_image(d, i, v);
    lemma_offsets(d);
    if m > 0 {
        lemma_store_offsets(d, i, v, m - 1);
        assert(e[m - 1] == if m - 1 == i { v.len() as u8 } else { d[m - 1] });
    }
}

/// Storing `v` into field `i` gives field `i` the value `v` and keeps every
/// other field's value; the used part of the image grows or shrinks by the
/// change in length.
pub proof fn lemma_store_contents(d: Seq<u8>, i: int, v: Seq<u8>)
    requires
        d.len() == DATA_SIZE,
        0 <= i < FILE_DESCRIPTOR_SIZE,
        v.len() <= MAX_VALUE_LENGTH,
    ensures
        store_image(d, i, v).len() == DATA_SIZE,
        contents_of(store_image(d, i, v)) == contents_of(d).update(i, v),
        used_len(store_image(d, i, v)) == used_len(d) + v.len() - d[i] as int,
{
    let e = store_image(d, i, v);
    let start = offset_of(d, i);
    let old_end = start + d[i] as int;
    let new_end = start + v.len();
    lemma_store_offsets(d, i, v, FILE_DESCRIPTOR_SIZE as int);
    lemma_offsets(d);
    lemma_offsets(e);
    assert forall|m: int| 0 <= m < FILE_DESCRIPTOR_SIZE implies #[trigger] field_of(e, m) == (
    if m == i {
        v
    } else {
        field_of(d, m)
    }) by {
        lemma_store_offsets(d, i, v, m);
        lemma_store_offsets(d, i, v, m + 1);
        assert(e[m] == if m == i { v.len() as u8 } else { d[m] });
        if m == i {
            assert(field_of(e, m) =~= v);
        } else if m < i {
            assert(offset_of(d, m + 1) <= start);
            assert(field_of(e, m) =~= field_of(d, m));
        } else {
            lemma_store_offsets(d, i, v, i + 1);
            assert(offset_of(d, i + 1) == old_end);
            assert(offset_of(e, i + 1) <= offset_of(e, m));
            assert(offset_of(e, m) >= new_end);
            assert(offset_of(d, m) + d[m] as int <= FILE_DESCRIPTOR_SIZE + 255 * 5);
            assert forall|j: int| 0 <= j < d[m] as int implies #[trigger] field_of(e, m)[j] == field_of(d, m)[j] by {
                let p = offset_of(e, m) + j;
                assert(p - new_end + old_end == offset_of(d, m) + j);
            }
            assert(field_of(e, m) =~= field_of(d, m));
        }
    }
    assert(contents_of(e) =~= contents_of(d).update(i, v));
}

/// Sum of the lengths of the first `n` values.
pub open spec fn total_len(c: Seq<Seq<u8>>, n: int) -> int
    decreases n,
{
    if n <= 0 {
        0
    } else {
        total_len(c, n - 1) + c[n - 1].len()
    }
}

/// The image after the stores of `ops`, made in order, each a field and its
/// new value.
pub open spec fn stores_image(d: Seq<u8>, ops: Seq<(ValueId, Seq<u8>)>) -> Seq<u8>
    decreases ops.len(),
{
    if ops.len() == 0 {
        d
    } else {
        store_image(stores_image(d, ops.drop_last()), ops.last().0.spec_index(), ops.last().1)
    }
}

/// The field values after the stores of `ops`, made in order.
pub open spec fn stores_contents(c: Seq<Seq<u8>>, ops: Seq<(ValueId, Seq<u8>)>) -> Seq<Seq<u8>>
    decreases ops.len(),
{
    if ops.len() == 0 {
        c
    } else {
        stores_contents(c, ops.drop_last()).update(ops.last().0.spec_index(), ops.last().1)
    }
}

/// In every sector image the fields lie back to back: each starts where the
/// one before it ends, the first right after the length table.
pub proof fn lemma_packed(d: Seq<u8>)
    requires
        d.len() == DATA_SIZE,
    ensures
        forall|i: int|
            0 <= i <= FILE_DESCRIPTOR_SIZE ==> #[trigger] offset_of(d, i) == FILE_DESCRIPTOR_SIZE
                + total_len(contents_of(d), i),
        used_len(d) <= FILE_DESCRIPTOR_SIZE + 255 * FILE_DESCRIPTOR_SIZE,
{
    lemma_offsets(d);
    assert forall|i: int|
        0 <= i <= FILE_DESCRIPTOR_SIZE implies #[trigger] offset_of(d, i) == FILE_DESCRIPTOR_SIZE
            + total_len(contents_of(d), i) by {
        lemma_packed_upto(d, i);
    }
}

proof fn lemma_packed_upto(d: Seq<u8>, i: int)
    requires
        d.len() == DATA_SIZE,
        0 <= i <= FILE_DESCRIPTOR_SIZE,
    ensures
        offset_of(d, i) == FILE_DESCRIPTOR_SIZE + total_len(contents_of(d), i),
    decreases i,
{
    lemma_offsets(d);
    if i > 0 {
        lemma_packed_upto(d, i - 1);
        assert(contents_of(d)[i - 1].len() == d[i - 1]);
    }
}

/// Round trip: after `v` was stored into field `f`, a read of `f` into a
/// buffer that can hold `v` returns the length of `v` and leaves `v` at the
/// beginning of the buffer.
pub proof fn lemma_round_trip(
    d: Seq<u8>,
    f: ValueId,
    v: Seq<u8>,
    buf: Seq<u8>,
    after: Seq<u8>,
    r: Result<usize, &'static str>,
)
    requires
        d.len() == DATA_SIZE,
        v.len() <= MAX_VALUE_LENGTH,
        v.len() <= buf.len(),
        read_reply(contents_of(store_image(d, f.spec_index(), v))[f.spec_index()], buf, after, r),
    ensures
        r == Ok::<usize, &'static str>(v.len() as usize),
        after.subrange(0, v.len() as int) == v,
{
    lemma_index_at(f, 0);
    lemma_store_contents(d, f.spec_index(), v);
    assert(after.subrange(0, v.len() as int) =~= v);
}

/// Non-interference: storing into field `a` leaves the value of every other
/// field `b` as it was.
pub proof fn lemma_non_interference(d: Seq<u8>, a: ValueId, b: ValueId, v: Seq<u8>)
    requires
        d.len() == DATA_SIZE,
        v.len() <= MAX_VALUE_LENGTH,
        a != b,
    ensures
        contents_of(store_image(d, a.spec_index(), v))[b.spec_index()] == contents_of(d)[b.spec_index()],
{
    lemma_index_at(a, 0);
    lemma_index_at(b, 0);
    lemma_store_contents(d, a.spec_index(), v);
}

/// No fragmentation: after any sequence of stores the fields hold the values
/// last stored into them, lie back to back, and occupy exactly the length
/// table plus the lengths of the values, which always fits the sector.
pub proof fn lemma_no_fragmentation(d: Seq<u8>, ops: Seq<(ValueId, Seq<u8>)>)
    requires
        d.len() == DATA_SIZE,
        forall|k: int| 0 <= k < ops.len() ==> (#[trigger] ops[k]).1.len() <= MAX_VALUE_LENGTH,
    ensures
        stores_image(d, ops).len() == DATA_SIZE,
        contents_of(stores_image(d, ops)) == stores_contents(contents_of(d), ops),
        forall|i: int|
            0 <= i <= FILE_DESCRIPTOR_SIZE ==> #[trigger] offset_of(stores_image(d, ops), i)
                == FILE_DESCRIPTOR_SIZE + total_len(contents_of(stores_image(d, ops)), i),
        used_len(stores_image(d, ops)) == FILE_DESCRIPTOR_SIZE + total_len(
            contents_of(stores_image(d, ops)),
            FILE_DESCRIPTOR_SIZE as int,
        ),
        used_len(stores_image(d, ops)) <= DATA_SIZE,
    decreases ops.len(),
{
    if ops.len() > 0 {
        let init = ops.drop_last();
        assert forall|k: int| 0 <= k < init.len() implies (#[trigger] init[k]).1.len() <= MAX_VALUE_LENGTH by {
            assert(init[k] == ops[k]);
        }
        lemma_no_fragmentation(d, init);
        lemma_index_at(ops.last().0, 0);
        assert(ops.last() == ops[ops.len() - 1]);
        lemma_store_contents(stores_image(d, init), ops.last().0.spec_index(), ops.last().1);
    }
    lemma_packed(stores_image(d, ops));
}

/// Shrinking and growing: storing `v1` and then `v2` into field `f`, whatever
/// their lengths, leaves `v2` in `f`, every other field as it was, and the
/// fields back to back.
pub proof fn lemma_shrink_grow(d: Seq<u8>, f: ValueId, v1: Seq<u8>, v2: Seq<u8>)
    requires
        d.len() == DATA_SIZE,
        v1.len() <= MAX_VALUE_LENGTH,
        v2.len() <= MAX_VALUE_LENGTH,
    ensures
        ({
            let e = store_image(store_image(d, f.spec_index(), v1), f.spec_index(), v2);
            &&& contents_of(e)[f.spec_index()] == v2
            &&& forall|j: int|
                0 <= j < FILE_DESCRIPTOR_SIZE && j != f.spec_index() ==> #[trigger] contents_of(e)[j]
                    == contents_of(d)[j]
            &&& forall|i: int|
                0 <= i <= FILE_DESCRIPTOR_SIZE ==> #[trigger] offset_of(e, i) == FILE_DESCRIPTOR_SIZE
                    + total_len(contents_of(e), i)
        }),
{
    let i = f.spec_index();
    lemma_index_at(f, 0);
    lemma_store_contents(d, i, v1);
    lemma_store_contents(store_image(d, i, v1), i, v2);
    lemma_packed(store_image(store_image(d, i, v1), i, v2));
}

/// Directory entry of one field: its length and where its value starts.
#[derive(Clone, Copy, Debug)]
pub struct Value {
    pub id: ValueId,
    pub length: u8,
    pub index: usize,
}

impl Value {
    pub fn new(id: ValueId) -> (r: Value)
        ensures
            r.id == id,
            r.length == 0,
            r.index == 0,
    {
        Value { id, length: 0, index: 0 }
    }
}

/// The sector image together with the directory computed from it.
pub struct Filesystem {
    pub values: Vec<Value>,
    pub data: Vec<u8>,
}

impl Filesystem {
    /// The lengths recorded in the directory entries.
    pub open spec fn lengths(&self) -> Seq<u8> {
        self.values@.map_values(|v: Value| v.length)
    }

    /// Entry `i` of the directory belongs to field `i`.
    pub open spec fn ids_in_order(&self) -> bool {
        &&& self.values@.len() == FILE_DESCRIPTOR_SIZE
        &&& forall|i: int| #![trigger self.values@[i]] 0 <= i < FILE_DESCRIPTOR_SIZE ==> self.values@[i].id == ValueId::at(i)
    }

    /// The image has the size of a sector, and the directory agrees with the
    /// length table of the image and with the offsets it implies.
    pub open spec fn wf(&self) -> bool {
        &&& self.data@.len() == DATA_SIZE
        &&& self.ids_in_order()
        &&& forall|i: int|
            #![trigger self.values@[i]]
            0 <= i < FILE_DESCRIPTOR_SIZE ==> {
                &&& self.values@[i].length == self.data@[i]
                &&& self.values@[i].index == offset_of(self.data@, i)
            }
    }

    /// The value of each field, in `ValueId` order.
    pub open spec fn contents(&self) -> Seq<Seq<u8>> {
        contents_of(self.data@)
    }

    /// An empty store: an all-zero image, in which every field is empty.
    pub fn new() -> (r: Filesystem)
        ensures
            r.wf(),
            r.data@ == Seq::new(DATA_SIZE as nat, |i: int| 0u8),
            forall|i: int| 0 <= i < FILE_DESCRIPTOR_SIZE ==> #[trigger] r.contents()[i] == Seq::<u8>::empty(),
    {
        let mut values: Vec<Value> = Vec::new();
        values.push(Value::new(ValueId::WifiSsid));
        values.push(Value::new(ValueId::WifiPassword));
        values.push(Value::new(ValueId::MqttHostIp));
        values.push(Value::new(ValueId::MqttBrokerUsername));
        values.push(Value::new(ValueId::MqttBrokerPassword));
        let mut data: Vec<u8> = Vec::new();
        let mut n: usize = 0;
        while n < DATA_SIZE
            invariant
                n <= DATA_SIZE,
                data@ == Seq::new(n as nat, |i: int| 0u8),
            decreases DATA_SIZE - n,
        {
            data.push(0u8);
            n = n + 1;
        }
        let ghost zeros = Seq::new(DATA_SIZE as nat, |i: int| 0u8);
        assert(data@ =~= zeros);
        let mut f = Filesystem { values, data };
        let ghost lens = f.lengths();
        assert(forall|j: int| 0 <= j < FILE_DESCRIPTOR_SIZE ==> lens[j] == zeros[j]);
        f.update_values_indexes();
        proof {
            lemma_offset_same_table(lens, zeros, FILE_DESCRIPTOR_SIZE as int);
            assert forall|i: int| 0 <= i < FILE_DESCRIPTOR_SIZE implies #[trigger] f.contents()[i] == Seq::<u8>::empty() by {
                lemma_offset_same_table(lens, zeros, i);
                lemma_offset_bounds(zeros, i, FILE_DESCRIPTOR_SIZE as int);
                assert(field_of(f.data@, i) =~= Seq::<u8>::empty());
            }
            assert forall|i: int| 0 <= i < FILE_DESCRIPTOR_SIZE implies #[trigger] f.values@[i].index == offset_of(f.data@, i) by {
                lemma_offset_same_table(lens, zeros, i);
            }
        }
        f
    }

    /// Recomputes the offset of every field from the directory's lengths.
    pub fn update_values_indexes(&mut self)
        requires
            old(self).values@.len() == FILE_DESCRIPTOR_SIZE,
        ensures
            final(self).data == old(self).data,
            final(self).values@.len() == FILE_DESCRIPTOR_SIZE,
            forall|i: int|
                #![trigger final(self).values@[i]]
                0 <= i < FILE_DESCRIPTOR_SIZE ==> {
                    &&& final(self).values@[i].id == old(self).values@[i].id
                    &&& final(self).values@[i].length == old(self).values@[i].length
                    &&& final(self).values@[i].index == offset_of(old(self).lengths(), i)
                },
    {
        let ghost lens = self.lengths();
        let ghost vals = self.values@;
        proof {
            lemma_offsets(lens);
            assert forall|i: int| 0 <= i < FILE_DESCRIPTOR_SIZE implies #[trigger] lens[i] == vals[i].length by {}
        }
        let mut n: usize = 0;
        while n < self.values.len()
            invariant
                n <= FILE_DESCRIPTOR_SIZE,
                self.values@.len() == FILE_DESCRIPTOR_SIZE,
                self.data == old(self).data,
                vals.len() == FILE_DESCRIPTOR_SIZE,
                lens.len() == FILE_DESCRIPTOR_SIZE,
                forall|i: int| 0 <= i < FILE_DESCRIPTOR_SIZE ==> #[trigger] lens[i] == vals[i].length,
                forall|k: int| 0 <= k ==> #[trigger] offset_of(lens, k) <= FILE_DESCRIPTOR_SIZE + 255 * k,
                forall|i: int|
                    #![trigger self.values@[i]]
                    0 <= i < FILE_DESCRIPTOR_SIZE ==> {
                        &&& self.values@[i].id == vals[i].id
                        &&& self.values@[i].length == vals[i].length
                    },
                forall|i: int| 0 <= i < n ==> #[trigger] self.values@[i].index == offset_of(lens, i),
            decreases FILE_DESCRIPTOR_SIZE - n,
        {
            if n == 0 {
                self.values[n].index = FILE_DESCRIPTOR_SIZE;
            } else {
                assert(offset_of(lens, n - 1) <= FILE_DESCRIPTOR_SIZE + 255 * (n - 1));
                assert(lens[n - 1] == self.values@[n - 1].length);
                let next = self.values[n - 1].index + self.values[n - 1].length as usize;
                self.values[n].index = next;
            }
            n = n + 1;
        }
    }

    /// Rebuilds the filesystem from a sector image read from flash: takes
    /// the lengths from the length table and recomputes every offset.
    pub fn read_all(&mut self, image: &[u8])
        requires
            old(self).ids_in_order(),
            image@.len() == DATA_SIZE,
        ensures
            final(self).wf(),
            final(self).data@ == image@,
    {
        let mut data: Vec<u8> = Vec::new();
        let mut n: usize = 0;
        while n < image.len()
            invariant
                n <= image@.len(),
                data@ == image@.subrange(0, n as int),
            decreases image@.len() - n,
        {
            data.push(image[n]);
            n = n + 1;
        }
        assert(data@ =~= image@);
        self.data = data;
        let mut k: usize = 0;
        while k < FILE_DESCRIPTOR_SIZE
            invariant
                k <= FILE_DESCRIPTOR_SIZE,
                self.ids_in_order(),
                self.data@ == image@,
                image@.len() == DATA_SIZE,
                forall|i: int| 0 <= i < k ==> #[trigger] self.values@[i].length == image@[i],
            decreases FILE_DESCRIPTOR_SIZE - k,
        {
            let length = self.data[k];
            self.values[k].length = length;
            k = k + 1;
        }
        let ghost lens = self.lengths();
        self.update_values_indexes();
        proof {
            assert forall|i: int| 0 <= i < FILE_DESCRIPTOR_SIZE implies #[trigger] self.values@[i].index == offset_of(self.data@, i) by {
                lemma_offset_same_table(lens, self.data@, i);
            }
        }
    }

    /// Stores `value_data` as the value of `value_id`: moves the values that
    /// follow it so that they stay packed, updates the length table and the
    /// directory, and writes the new value into its slot.
    pub fn update_values(&mut self, value_id: &ValueId, value_data: &[u8])
        requires
            old(self).wf(),
            value_data@.len() <= MAX_VALUE_LENGTH,
        ensures
            final(self).wf(),
            final(self).data@ == store_image(old(self).data@, value_id.spec_index(), value_data@),
            final(self).contents() == old(self).contents().update(value_id.spec_index(), value_data@),
    {
        let ghost d0 = self.data@;
        let ghost i = value_id.spec_index();
        let ghost vals = self.values@;
        proof {
            lemma_index_at(*value_id, 0);
            lemma_offsets(d0);
        }
        let new_length = value_data.len();
        let (length, index) = self.get_length_and_index(value_id);
        assert(index <= FILE_DESCRIPTOR_SIZE + 255 * 4) by {
            lemma_offset_bounds(d0, i, 4);
        }
        // move the values behind the field so that the new value fits
        if new_length > length {
            let offset = new_length - length;
            let mut n: usize = DATA_SIZE;
            while n > index + offset
                invariant
                    index + offset <= n <= DATA_SIZE,
                    index >= FILE_DESCRIPTOR_SIZE,
                    self.values@ == vals,
                    self.data@.len() == DATA_SIZE,
                    forall|j: int| 0 <= j < n ==> #[trigger] self.data@[j] == d0[j],
                    forall|j: int| n <= j < DATA_SIZE ==> #[trigger] self.data@[j] == d0[j - offset],
                decreases n,
            {
                n = n - 1;
                let b = self.data[n - offset];
                self.data[n] = b;
            }
        } else if new_length < length {
            let offset = length - new_length;
            let mut n: usize = index;
            while n < DATA_SIZE - offset
                invariant
                    index <= n <= DATA_SIZE - offset,
                    index >= FILE_DESCRIPTOR_SIZE,
                    self.values@ == vals,
                    self.data@.len() == DATA_SIZE,
                    forall|j: int| 0 <= j < index ==> #[trigger] self.data@[j] == d0[j],
                    forall|j: int| index <= j < n ==> #[trigger] self.data@[j] == d0[j + offset],
                    forall|j: int| n <= j < DATA_SIZE ==> #[trigger] self.data@[j] == d0[j],
                decreases DATA_SIZE - offset - n,
            {
                let b = self.data[n + offset];
                self.data[n] = b;
                n = n + 1;
            }
        }
        let ghost shifted = self.data@;
        // record the new length in the directory and in the length table
        let pos = value_id.index();
        self.values[pos].length = new_length as u8;
        self.data[pos] = new_length as u8;
        let ghost lens = self.lengths();
        self.update_values_indexes();
        proof {
            assert forall|j: int| 0 <= j < FILE_DESCRIPTOR_SIZE implies #[trigger] lens[j] == shifted.update(i, new_length as u8)[j] by {}
            lemma_offset_same_table(lens, d0, i);
        }
        let (_, index) = self.get_length_and_index(value_id);
        let ghost vals2 = self.values@;
        // write the new value into its slot
        let mut k: usize = 0;
        while k < new_length
            invariant
                self.values@ == vals2,
                k <= new_length == value_data@.len(),
                index + new_length <= DATA_SIZE,
                index >= FILE_DESCRIPTOR_SIZE,
                self.data@.len() == DATA_SIZE,
                forall|j: int| 0 <= j < index ==> #[trigger] self.data@[j] == shifted.update(i, new_length as u8)[j],
                forall|j: int| index <= j < index + k ==> #[trigger] self.data@[j] == value_data@[j - index],
                forall|j: int| index + new_length <= j < DATA_SIZE ==> #[trigger] self.data@[j] == shifted[j],
            decreases new_length - k,
        {
            self.data[index + k] = value_data[k];
            k = k + 1;
        }
        proof {
            let e = store_image(d0, i, value_data@);
            assert(self.data@ =~= e);
            assert forall|j: int| 0 <= j < FILE_DESCRIPTOR_SIZE implies #[trigger] lens[j] == e[j] by {
                assert(e[j] == shifted.update(i, new_length as u8)[j]);
            }
            lemma_store_contents(d0, i, value_data@);
            lemma_offset_same_table(lens, e, FILE_DESCRIPTOR_SIZE as int);
            assert forall|j: int| 0 <= j < FILE_DESCRIPTOR_SIZE implies #[trigger] self.values@[j].index == offset_of(self.data@, j) by {
                lemma_offset_same_table(lens, e, j);
            }
        }
    }

    /// The length and the offset that the directory records for `value_id`.
    pub fn get_length_and_index(&self, value_id: &ValueId) -> (r: (usize, usize))
        requires
            self.ids_in_order(),
        ensures
            r.0 == self.values@[value_id.spec_index()].length as usize,
            r.1 == self.values@[value_id.spec_index()].index,
    {
        proof {
            lemma_index_at(*value_id, 0);
        }
        let mut n: usize = 0;
        while n < self.values.len()
            invariant
                n <= FILE_DESCRIPTOR_SIZE,
                self.ids_in_order(),
                forall|i: int| 0 <= i < n ==> #[trigger] self.values@[i].id != *value_id,
            decreases FILE_DESCRIPTOR_SIZE - n,
        {
            if self.values[n].id == *value_id {
                proof {
                    lemma_index_at(*value_id, n as int);
                }
                return (self.values[n].length as usize, self.values[n].index);
            }
            n = n + 1;
        }
        proof {
            let k = value_id.spec_index();
            assert(self.values@[k].id == *value_id);
        }
        (0, 0)
    }
}

impl PersistencyTrait for Filesystem {
    open spec fn inv(&self) -> bool {
        self.wf()
    }

    open spec fn stored(&self) -> Seq<Seq<u8>> {
        self.contents()
    }

    fn store(&mut self, value: &[u8], field: ValueId) {
        self.update_values(&field, value);
    }

    fn read(&mut self, field: ValueId, answer: &mut [u8]) -> (r: Result<usize, &'static str>) {
        let (length, index) = self.get_length_and_index(&field);
        proof {
            lemma_index_at(field, 0);
            lemma_offset_bounds(self.data@, field.spec_index(), FILE_DESCRIPTOR_SIZE as int);
            lemma_offset_bounds(self.data@, field.spec_index() + 1, FILE_DESCRIPTOR_SIZE as int);
        }
        if length > answer.len() {
            return Err(BUFFER_TOO_SMALL);
        }
        let slot = &self.data.as_slice()[index..index + length];
        assert(slot@ == self.contents()[field.spec_index()]);
        Ok(copy_to_beginning(answer, slot))
    }
}

} // verus!
